use vstd::prelude::*;

use crate::text::{lemma_pieces_nonempty, lemma_pieces_plain, pieces, Separator};

verus! {

/// `p` without its trailing `/` characters.
pub open spec fn without_trailing_slashes(p: Seq<char>) -> Seq<char>
    decreases p.len(),
{
    if p.len() > 0 && p.last() == '/' {
        without_trailing_slashes(p.drop_last())
    } else {
        p
    }
}

/// The last component of a path: what follows its last `/` once trailing
/// `/` characters are dropped.
pub open spec fn last_component(p: Seq<char>) -> Seq<char> {
    pieces(without_trailing_slashes(p), Separator::Char('/')).last()
}

/// The file name of a path: its last component, unless that is empty, `.`
/// or `..`.
pub open spec fn file_name(p: Seq<char>) -> Option<Seq<char>> {
    let c = last_component(p);
    if c.len() == 0 || c == seq!['.'] || c == seq!['.', '.'] {
        None
    } else {
        Some(c)
    }
}

/// The part of a path before its last component.
pub open spec fn dir_of(p: Seq<char>) -> Seq<char> {
    let t = without_trailing_slashes(p);
    t.take(t.len() - last_component(p).len())
}

/// Where the last component of `p` begins and ends.
pub fn component_bounds(p: &str) -> (r: (usize, usize))
    ensures
        r.0 <= r.1 <= p@.len(),
        p@.take(r.1 as int) == without_trailing_slashes(p@),
        p@.subrange(r.0 as int, r.1 as int) == last_component(p@),
        r.0 == 0 || p@[r.0 - 1] == '/',
{
    let n = p.unicode_len();
    let mut end: usize = n;
    proof {
        assert(p@.take(n as int) =~= p@);
    }
    while end > 0 && p.get_char(end - 1) == '/'
        invariant
            n == p@.len(),
            end <= n,
            without_trailing_slashes(p@) == without_trailing_slashes(p@.take(end as int)),
        decreases end,
    {
        proof {
            assert(p@.take(end as int).drop_last() =~= p@.take(end - 1));
        }
        end = end - 1;
    }
    proof {
        if end > 0 {
            assert(p@.take(end as int).last() == p@[end - 1]);
        }
    }
    let mut start: usize = 0;
    let mut i: usize = 0;
    let sep = Separator::Char('/');
    proof {
        assert(p@.take(0) =~= Seq::<char>::empty());
        assert(p@.subrange(0, 0) =~= Seq::<char>::empty());
    }
    while i < end
        invariant
            n == p@.len(),
            end <= n,
            sep == Separator::Char('/'),
            start <= i <= end,
            start == 0 || p@[start - 1] == '/',
            pieces(p@.take(i as int), sep).last() == p@.subrange(start as int, i as int),
        decreases end - i,
    {
        let c = p.get_char(i);
        let ghost q = pieces(p@.take(i as int), sep);
        proof {
            lemma_pieces_nonempty(p@.take(i as int), sep);
            assert(p@.take(i + 1).drop_last() =~= p@.take(i as int));
            assert(p@.take(i + 1).last() == c);
        }
        if c == '/' {
            start = i + 1;
            proof {
                assert(p@.subrange(start as int, i + 1) =~= Seq::<char>::empty());
            }
        } else {
            proof {
                assert(pieces(p@.take(i + 1), sep) == q.update(q.len() - 1, q.last().push(c)));
                assert(q.last().push(c) =~= p@.subrange(start as int, i + 1));
            }
        }
        i = i + 1;
    }
    (start, end)
}

/// The file name of a path, if it has one.
pub fn file_name_of(p: &str) -> (r: Option<&str>)
    ensures
        r is Some <==> file_name(p@) is Some,
        r matches Some(n) ==> file_name(p@) == Some(n@),
{
    let (start, end) = component_bounds(p);
    let c = p.substring_char(start, end);
    proof {
        assert(c@ =~= last_component(p@));
    }
    let len = end - start;
    if len == 0 || (len == 1 && c.get_char(0) == '.') || (len == 2 && c.get_char(0) == '.'
        && c.get_char(1) == '.') {
        proof {
            if len == 1 {
                assert(c@ =~= seq!['.']);
            }
            if len == 2 {
                assert(c@ =~= seq!['.', '.']);
            }
        }
        None
    } else {
        proof {
            if c@ == seq!['.'] {
                assert(c@[0] == '.');
            }
            if c@ == seq!['.', '.'] {
                assert(c@[0] == '.' && c@[1] == '.');
            }
        }
        Some(c)
    }
}

/// A name of three or more characters without `/`, put after a directory
/// prefix (empty, or ending in `/`), is the file name of the result, and
/// the prefix its directory.
pub proof fn lemma_file_name_join(dir: Seq<char>, name: Seq<char>)
    requires
        dir.len() == 0 || dir.last() == '/',
        !name.contains('/'),
        name.len() > 2,
    ensures
        file_name(dir + name) == Some(name),
        dir_of(dir + name) == dir,
{
    let sep = Separator::Char('/');
    let p = dir + name;
    assert(p.last() == name.last());
    assert(name.last() != '/') by {
        if name.last() == '/' {
            assert(name.contains('/'));
        }
    }
    assert(without_trailing_slashes(p) == p);
    assert forall|i: int| 0 <= i < name.len() implies !sep.separates(#[trigger] name[i]) by {
        if name[i] == '/' {
            assert(name.contains('/'));
        }
    }
    lemma_pieces_plain(dir, name, sep);
    lemma_pieces_nonempty(dir, sep);
    if dir.len() == 0 {
        assert(pieces(dir, sep).last() == Seq::<char>::empty());
    } else {
        assert(pieces(dir, sep) == pieces(dir.drop_last(), sep).push(Seq::empty()));
    }
    assert(Seq::<char>::empty() + name =~= name);
    assert(last_component(p) == name);
    assert(p.take(p.len() - name.len()) =~= dir);
}

} // verus!
