use vstd::prelude::*;

use crate::text::{
    lemma_non_empty_last, lemma_pieces_plain, non_empty, pieces, split_tokens, tokens, views,
    Separator,
};

pub use crate::text::is_deliminator_char;

verus! {

/// The token splitting of `s`: a text without any deliminator is its own
/// single token; otherwise the tokens are the maximal runs of
/// non-deliminator characters, so that runs of deliminators, and leading
/// or trailing ones, give no empty token.
pub open spec fn deliminated(s: Seq<char>) -> Seq<Seq<char>> {
    if s.len() == 0 {
        seq![s]
    } else {
        tokens(s, Separator::Deliminators)
    }
}

/// A non-empty text without any deliminator splits into itself alone.
pub proof fn lemma_no_deliminator_whole(s: Seq<char>)
    requires
        forall|i: int| 0 <= i < s.len() ==> !is_deliminator_char(#[trigger] s[i]),
    ensures
        deliminated(s) == seq![s],
{
    if s.len() > 0 {
        let sep = Separator::Deliminators;
        lemma_pieces_plain(Seq::empty(), s, sep);
        assert(Seq::<char>::empty() + s =~= s);
        assert(pieces(Seq::<char>::empty(), sep) == seq![Seq::<char>::empty()]);
        assert(pieces(s, sep) =~= seq![s]);
        lemma_non_empty_last(seq![s]);
        assert(seq![s].drop_last() =~= Seq::<Seq<char>>::empty());
        assert(non_empty(Seq::<Seq<char>>::empty()) =~= Seq::<Seq<char>>::empty());
        assert(Seq::<Seq<char>>::empty().push(s) =~= seq![s]);
    }
}

/// Whether a character belongs to the fixed deliminator set
/// `, _ - / \` and the space.
pub trait IsDeliminator {
    fn is_deliminator(&self) -> bool;
}

impl IsDeliminator for char {
    fn is_deliminator(&self) -> (r: bool)
        ensures
            r == is_deliminator_char(*self),
    {
        Separator::Deliminators.matches(*self)
    }
}

/// Splitting a text into tokens at deliminators.
pub trait Deliminated<T>: Sized {
    fn deliminate(self) -> Option<Vec<T>>;
}

impl<'a> Deliminated<String> for &'a str {
    fn deliminate(self) -> (r: Option<Vec<String>>)
        ensures
            r is Some,
            views(r->0@) == deliminated(self@),
    {
        if self.unicode_len() == 0 {
            let mut v: Vec<String> = Vec::new();
            v.push(String::new());
            proof {
                assert(self@ =~= Seq::<char>::empty());
                assert(views(v@) =~= seq![self@]);
            }
            Some(v)
        } else {
            Some(split_tokens(self, Separator::Deliminators))
        }
    }
}

} // verus!
