use vstd::prelude::*;

verus! {

/// What separates the pieces of a text: one given character, or any
/// character of the fixed deliminator set.
#[derive(Clone, Copy)]
pub enum Separator {
    Char(char),
    Deliminators,
}

/// The characters of the fixed deliminator set.
pub open spec fn is_deliminator_char(c: char) -> bool {
    c == ',' || c == '_' || c == '-' || c == '/' || c == '\\' || c == ' '
}

impl Separator {
    pub open spec fn separates(self, c: char) -> bool {
        match self {
            Separator::Char(d) => c == d,
            Separator::Deliminators => is_deliminator_char(c),
        }
    }

    pub fn matches(&self, c: char) -> (r: bool)
        ensures
            r == self.separates(c),
    {
        match self {
            Separator::Char(d) => c == *d,
            Separator::Deliminators => c == ',' || c == '_' || c == '-' || c == '/' || c == '\\'
                || c == ' ',
        }
    }
}

/// The pieces of `s` between separators, empty pieces included: one more
/// piece than `s` holds separators.
pub open spec fn pieces(s: Seq<char>, sep: Separator) -> Seq<Seq<char>>
    decreases s.len(),
{
    if s.len() == 0 {
        seq![Seq::empty()]
    } else {
        let prev = pieces(s.drop_last(), sep);
        if sep.separates(s.last()) {
            prev.push(Seq::empty())
        } else {
            prev.update(prev.len() - 1, prev.last().push(s.last()))
        }
    }
}

/// The pieces that hold at least one character, in order.
pub open spec fn non_empty(ps: Seq<Seq<char>>) -> Seq<Seq<char>> {
    ps.filter(|p: Seq<char>| p.len() > 0)
}

/// The maximal runs of non-separator characters of `s`, in order.
pub open spec fn tokens(s: Seq<char>, sep: Separator) -> Seq<Seq<char>> {
    non_empty(pieces(s, sep))
}

pub open spec fn views(v: Seq<String>) -> Seq<Seq<char>> {
    v.map_values(|t: String| t@)
}

/// Unfolds the filter of non-empty pieces at the last piece.
pub proof fn lemma_non_empty_last(p: Seq<Seq<char>>)
    requires
        p.len() >= 1,
    ensures
        non_empty(p) == if p.last().len() > 0 {
            non_empty(p.drop_last()).push(p.last())
        } else {
            non_empty(p.drop_last())
        },
{
    reveal_with_fuel(Seq::filter, 1);
}

pub proof fn lemma_pieces_nonempty(s: Seq<char>, sep: Separator)
    ensures
        pieces(s, sep).len() >= 1,
    decreases s.len(),
{
    if s.len() > 0 {
        lemma_pieces_nonempty(s.drop_last(), sep);
    }
}

/// Appending characters that are no separators extends the last piece.
pub proof fn lemma_pieces_plain(a: Seq<char>, b: Seq<char>, sep: Separator)
    requires
        forall|i: int| 0 <= i < b.len() ==> !sep.separates(#[trigger] b[i]),
    ensures
        pieces(a + b, sep) == pieces(a, sep).update(
            pieces(a, sep).len() - 1,
            pieces(a, sep).last() + b,
        ),
    decreases b.len(),
{
    lemma_pieces_nonempty(a, sep);
    if b.len() == 0 {
        assert(a + b =~= a);
        assert(pieces(a, sep).last() + b =~= pieces(a, sep).last());
        assert(pieces(a, sep).update(pieces(a, sep).len() - 1, pieces(a, sep).last())
            =~= pieces(a, sep));
    } else {
        let b0 = b.drop_last();
        assert forall|i: int| 0 <= i < b0.len() implies !sep.separates(#[trigger] b0[i]) by {
            assert(b0[i] == b[i]);
        }
        lemma_pieces_plain(a, b0, sep);
        assert((a + b).drop_last() =~= a + b0);
        assert((a + b).last() == b.last());
        assert(!sep.separates(b.last()));
        let p = pieces(a, sep);
        let prev = p.update(p.len() - 1, p.last() + b0);
        assert(pieces(a + b0, sep) == prev);
        assert(pieces(a + b, sep) == prev.update(prev.len() - 1, prev.last().push(b.last())));
        assert(prev.last() == p.last() + b0);
        assert((p.last() + b0).push(b.last()) =~= p.last() + b);
        assert(prev.update(prev.len() - 1, prev.last().push(b.last())) =~= p.update(
            p.len() - 1,
            p.last() + b,
        ));
    }
}

/// Relies on String::push: the character is appended at the end.
#[verifier::external_body]
pub(crate) fn push_char(s: &mut String, c: char)
    ensures
        final(s)@ == old(s)@.push(c),
{
    s.push(c)
}

/// A copy of the characters of `s` from `from` up to `to`.
pub(crate) fn substring(s: &str, from: usize, to: usize) -> (r: String)
    requires
        from <= to <= s@.len(),
    ensures
        r@ == s@.subrange(from as int, to as int),
{
    String::from_str(s.substring_char(from, to))
}

/// The tokens of `s`: the maximal runs of characters that `sep` does not
/// separate, empty runs left out.
pub fn split_tokens(s: &str, sep: Separator) -> (r: Vec<String>)
    ensures
        views(r@) == tokens(s@, sep),
{
    let n = s.unicode_len();
    let mut out: Vec<String> = Vec::new();
    let mut start: usize = 0;
    let mut i: usize = 0;
    proof {
        assert(s@.take(0) =~= Seq::<char>::empty());
        assert(non_empty(seq![Seq::<char>::empty()].drop_last()) =~= Seq::<Seq<char>>::empty());
        assert(views(out@) =~= Seq::<Seq<char>>::empty());
    }
    while i < n
        invariant
            n == s@.len(),
            start <= i <= n,
            pieces(s@.take(i as int), sep).len() >= 1,
            pieces(s@.take(i as int), sep).last() == s@.subrange(start as int, i as int),
            views(out@) == non_empty(pieces(s@.take(i as int), sep).drop_last()),
        decreases n - i,
    {
        let c = s.get_char(i);
        let ghost p = pieces(s@.take(i as int), sep);
        proof {
            assert(s@.take(i + 1).drop_last() =~= s@.take(i as int));
            assert(s@.take(i + 1).last() == c);
        }
        if sep.matches(c) {
            proof {
                assert(pieces(s@.take(i + 1), sep) == p.push(Seq::empty()));
                assert(p.push(Seq::<char>::empty()).drop_last() =~= p);
                lemma_non_empty_last(p);
            }
            if start < i {
                let piece = substring(s, start, i);
                proof {
                    assert(views(out@.push(piece)) =~= views(out@).push(piece@));
                }
                out.push(piece);
            }
            start = i + 1;
            proof {
                assert(s@.subrange(start as int, i + 1) =~= Seq::<char>::empty());
            }
        } else {
            proof {
                let q = p.update(p.len() - 1, p.last().push(c));
                assert(pieces(s@.take(i + 1), sep) == q);
                assert(q.drop_last() =~= p.drop_last());
                assert(q.last() =~= s@.subrange(start as int, i + 1));
            }
        }
        i = i + 1;
    }
    proof {
        assert(s@.take(n as int) =~= s@);
        lemma_non_empty_last(pieces(s@, sep));
    }
    if start < n {
        let piece = substring(s, start, n);
        proof {
            assert(views(out@.push(piece)) =~= views(out@).push(piece@));
        }
        out.push(piece);
    }
    out
}

} // verus!
