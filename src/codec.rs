use vstd::prelude::*;

use crate::text::{
    lemma_non_empty_last, lemma_pieces_plain, non_empty, pieces, push_char, split_tokens, tokens, views, Separator,
};
use crate::time::{lemma_stamp_round_trip, parse_stamp, stamp_text, TimeStamp};

verus! {

/// The tags written one after another with `delim` between each two.
pub open spec fn join(tags: Seq<Seq<char>>, delim: char) -> Seq<char>
    decreases tags.len(),
{
    if tags.len() == 0 {
        Seq::empty()
    } else if tags.len() == 1 {
        tags[0]
    } else {
        join(tags.drop_last(), delim).push(delim) + tags.last()
    }
}

/// The file name of an entry: `YYYY-MM-DD_HHMM`, then, only when there are
/// tags, the tag-start character and the tags joined by the delimiter.
pub open spec fn encode(t: TimeStamp, tags: Seq<Seq<char>>, start: char, delim: char) -> Seq<char> {
    if tags.len() == 0 {
        stamp_text(t)
    } else {
        stamp_text(t).push(start) + join(tags, delim)
    }
}

/// What follows the time stamp, without one leading tag-start character.
pub open spec fn tag_tail(rest: Seq<char>, start: char) -> Seq<char> {
    if rest.len() > 0 && rest[0] == start {
        rest.drop_first()
    } else {
        rest
    }
}

/// The time stamp and tags that a file name writes: fifteen characters of
/// the form `YYYY-MM-DD_HHMM` naming an existing minute, an optional
/// tag-start character, and a tail split at the delimiter with empty
/// pieces dropped. `None` for any other name.
pub open spec fn decode(name: Seq<char>, start: char, delim: char) -> Option<(TimeStamp, Seq<Seq<char>>)> {
    if name.len() >= 15 {
        match parse_stamp(name.take(15)) {
            Some(t) => Some((t, tokens(tag_tail(name.skip(15), start), Separator::Char(delim)))),
            None => None,
        }
    } else {
        None
    }
}

/// A tag that a file name can carry and give back: not empty, and free of
/// the delimiter.
pub open spec fn clean_tag(tag: Seq<char>, delim: char) -> bool {
    tag.len() > 0 && !tag.contains(delim)
}

pub open spec fn clean_tags(tags: Seq<Seq<char>>, delim: char) -> bool {
    forall|i: int| 0 <= i < tags.len() ==> clean_tag(#[trigger] tags[i], delim)
}

proof fn lemma_pieces_join(tags: Seq<Seq<char>>, delim: char)
    requires
        tags.len() >= 1,
        clean_tags(tags, delim),
    ensures
        pieces(join(tags, delim), Separator::Char(delim)) == tags,
    decreases tags.len(),
{
    let sep = Separator::Char(delim);
    let last = tags.last();
    assert(clean_tag(tags[tags.len() - 1], delim));
    assert forall|i: int| 0 <= i < last.len() implies !sep.separates(#[trigger] last[i]) by {
        if last[i] == delim {
            assert(last.contains(delim));
        }
    }
    if tags.len() == 1 {
        lemma_pieces_plain(Seq::empty(), last, sep);
        assert(Seq::<char>::empty() + last =~= last);
        assert(pieces(Seq::<char>::empty(), sep) == seq![Seq::<char>::empty()]);
        assert(seq![Seq::<char>::empty()].update(0, Seq::<char>::empty() + last) =~= tags);
    } else {
        let init = tags.drop_last();
        assert forall|i: int| 0 <= i < init.len() implies clean_tag(#[trigger] init[i], delim) by {
            assert(init[i] == tags[i]);
        }
        lemma_pieces_join(init, delim);
        let a = join(init, delim).push(delim);
        assert(a.drop_last() =~= join(init, delim));
        assert(pieces(a, sep) == init.push(Seq::empty()));
        lemma_pieces_plain(a, last, sep);
        assert(Seq::<char>::empty() + last =~= last);
        assert(init.push(Seq::empty()).update(init.len() as int, Seq::<char>::empty() + last) =~= tags);
    }
}

proof fn lemma_non_empty_all(tags: Seq<Seq<char>>)
    requires
        forall|i: int| 0 <= i < tags.len() ==> (#[trigger] tags[i]).len() > 0,
    ensures
        non_empty(tags) == tags,
    decreases tags.len(),
{
    if tags.len() > 0 {
        let init = tags.drop_last();
        assert forall|i: int| 0 <= i < init.len() implies (#[trigger] init[i]).len() > 0 by {
            assert(init[i] == tags[i]);
        }
        lemma_non_empty_all(init);
        lemma_non_empty_last(tags);
        assert(tags.len() > 0 ==> tags.last() == tags[tags.len() - 1]);
        assert(init.push(tags.last()) =~= tags);
    }
}

/// Round trip of the codec: a file name made from a time stamp and tags
/// that are not empty and free of the delimiter decodes to that same time
/// stamp and those same tags, in order.
pub proof fn lemma_round_trip(t: TimeStamp, tags: Seq<Seq<char>>, start: char, delim: char)
    requires
        t.wf(),
        clean_tags(tags, delim),
    ensures
        decode(encode(t, tags, start, delim), start, delim) == Some((t, tags)),
{
    let name = encode(t, tags, start, delim);
    lemma_stamp_round_trip(t);
    let stamp = stamp_text(t);
    let sep = Separator::Char(delim);
    if tags.len() == 0 {
        assert(name.take(15) =~= stamp);
        assert(name.skip(15) =~= Seq::<char>::empty());
        assert(pieces(Seq::<char>::empty(), sep) == seq![Seq::<char>::empty()]);
        lemma_non_empty_last(seq![Seq::<char>::empty()]);
        assert(seq![Seq::<char>::empty()].drop_last() =~= Seq::<Seq<char>>::empty());
        assert(non_empty(Seq::<Seq<char>>::empty()) =~= Seq::<Seq<char>>::empty());
        assert(tags =~= Seq::<Seq<char>>::empty());
    } else {
        assert(name.take(15) =~= stamp);
        let rest = name.skip(15);
        assert(rest =~= seq![start] + join(tags, delim));
        assert(tag_tail(rest, start) =~= join(tags, delim));
        lemma_pieces_join(tags, delim);
        assert forall|i: int| 0 <= i < tags.len() implies (#[trigger] tags[i]).len() > 0 by {
            assert(clean_tag(tags[i], delim));
        }
        lemma_non_empty_all(tags);
    }
}

/// The file name of an entry made at `t` with `tags`, tag-start character
/// `start` and delimiter `delim`.
pub fn encode_file_name(t: &TimeStamp, tags: &Vec<String>, start: char, delim: char) -> (r: String)
    requires
        t.wf(),
    ensures
        r@ == encode(*t, views(tags@), start, delim),
{
    let mut s = t.to_string();
    if tags.len() > 0 {
        push_char(&mut s, start);
        let mut i: usize = 0;
        proof {
            assert(views(tags@).take(0) =~= Seq::<Seq<char>>::empty());
            assert(s@ =~= stamp_text(*t).push(start) + join(views(tags@).take(0), delim));
        }
        while i < tags.len()
            invariant
                t.wf(),
                i <= tags.len(),
                s@ == stamp_text(*t).push(start) + join(views(tags@).take(i as int), delim),
            decreases tags.len() - i,
        {
            let ghost vs = views(tags@);
            proof {
                assert(vs.take(i + 1).drop_last() =~= vs.take(i as int));
                assert(vs.take(i + 1).last() == tags@[i as int]@);
            }
            if i > 0 {
                push_char(&mut s, delim);
            }
            s.append(tags[i].as_str());
            proof {
                if i == 0 {
                    assert(vs.take(1)[0] == tags@[0]@);
                    assert(s@ =~= stamp_text(*t).push(start) + join(vs.take(1), delim));
                } else {
                    assert(s@ =~= stamp_text(*t).push(start) + join(vs.take(i + 1), delim));
                }
            }
            i = i + 1;
        }
        proof {
            assert(views(tags@).take(tags@.len() as int) =~= views(tags@));
        }
    }
    s
}

/// The time stamp and tags that a file name writes, if it is an entry's.
pub fn decode_file_name(name: &str, start: char, delim: char) -> (r: Option<(TimeStamp, Vec<String>)>)
    ensures
        r is Some <==> decode(name@, start, delim) is Some,
        r matches Some(p) ==> decode(name@, start, delim) == Some((p.0, views(p.1@))),
{
    match TimeStamp::parse_prefix(name) {
        None => None,
        Some(t) => {
            let n = name.unicode_len();
            let rest = name.substring_char(15, n);
            proof {
                assert(rest@ =~= name@.skip(15));
            }
            let tail = if n > 15 && rest.get_char(0) == start {
                rest.substring_char(1, n - 15)
            } else {
                rest
            };
            proof {
                if n > 15 && rest@[0] == start {
                    assert(tail@ =~= rest@.drop_first());
                }
            }
            Some((t, split_tokens(tail, Separator::Char(delim))))
        },
    }
}

} // verus!
