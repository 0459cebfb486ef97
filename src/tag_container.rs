use vstd::prelude::*;

use crate::pattern::{regex_is_match, Pattern};
use crate::order::{
    lemma_text_lt_asymmetric, lemma_text_lt_total,
    lemma_text_lt_transitive, text_less, text_lt,
};

verus! {

/// A tag and the number of entries that carry it.
#[derive(Debug)]
pub struct CountAndTag(pub u16, pub String);

/// Occurrence counts of tags over the known entries.
pub struct TagContainer {
    inner: Vec<CountAndTag>,
}

/// The counts that a list of (count, tag) items records, later items
/// overriding earlier ones of the same tag.
pub open spec fn tag_counts(s: Seq<CountAndTag>) -> Map<Seq<char>, nat>
    decreases s.len(),
{
    if s.len() == 0 {
        Map::empty()
    } else {
        tag_counts(s.drop_last()).insert(s.last().1@, s.last().0 as nat)
    }
}

pub open spec fn distinct_tags(s: Seq<CountAndTag>) -> bool {
    forall|i: int, j: int| 0 <= i < s.len() && 0 <= j < s.len() && i != j ==> s[i].1@ != s[j].1@
}

/// The counts after one more occurrence of `t`; a count at the largest
/// `u16` stays there.
pub open spec fn bump(m: Map<Seq<char>, nat>, t: Seq<char>) -> Map<Seq<char>, nat> {
    m.insert(
        t,
        if m.contains_key(t) {
            if m[t] < u16::MAX as nat {
                m[t] + 1
            } else {
                m[t]
            }
        } else {
            1
        },
    )
}

/// The counts after one occurrence of `t` less; a count that reaches zero
/// removes the tag.
pub open spec fn unbump(m: Map<Seq<char>, nat>, t: Seq<char>) -> Map<Seq<char>, nat> {
    if !m.contains_key(t) {
        m
    } else if m[t] <= 1 {
        m.remove(t)
    } else {
        m.insert(t, (m[t] - 1) as nat)
    }
}

pub open spec fn bump_all(m: Map<Seq<char>, nat>, ts: Seq<Seq<char>>) -> Map<Seq<char>, nat>
    decreases ts.len(),
{
    if ts.len() == 0 {
        m
    } else {
        bump(bump_all(m, ts.drop_last()), ts.last())
    }
}

pub open spec fn unbump_all(m: Map<Seq<char>, nat>, ts: Seq<Seq<char>>) -> Map<Seq<char>, nat>
    decreases ts.len(),
{
    if ts.len() == 0 {
        m
    } else {
        unbump(unbump_all(m, ts.drop_last()), ts.last())
    }
}

/// The ranked order: higher count first, then the tag in code-point order.
pub open spec fn ranks_before(a: (nat, Seq<char>), b: (nat, Seq<char>)) -> bool {
    a.0 > b.0 || (a.0 == b.0 && text_lt(a.1, b.1))
}

pub open spec fn item(x: CountAndTag) -> (nat, Seq<char>) {
    (x.0 as nat, x.1@)
}

proof fn lemma_lookup(s: Seq<CountAndTag>, i: int)
    requires
        distinct_tags(s),
        0 <= i < s.len(),
    ensures
        tag_counts(s).contains_key(s[i].1@),
        tag_counts(s)[s[i].1@] == s[i].0 as nat,
    decreases s.len(),
{
    if i < s.len() - 1 {
        let init = s.drop_last();
        assert(init[i] == s[i]);
        assert(s.last().1@ != s[i].1@);
        lemma_lookup(init, i);
    }
}

proof fn lemma_domain(s: Seq<CountAndTag>, k: Seq<char>)
    ensures
        tag_counts(s).contains_key(k) <==> exists|i: int| 0 <= i < s.len() && s[i].1@ == k,
    decreases s.len(),
{
    if s.len() > 0 {
        let init = s.drop_last();
        lemma_domain(init, k);
        if exists|i: int| 0 <= i < init.len() && init[i].1@ == k {
            let i = choose|i: int| 0 <= i < init.len() && init[i].1@ == k;
            assert(s[i] == init[i]);
        }
        if exists|i: int| 0 <= i < s.len() && s[i].1@ == k {
            let i = choose|i: int| 0 <= i < s.len() && s[i].1@ == k;
            if i < s.len() - 1 {
                assert(init[i] == s[i]);
            }
        }
    }
}

proof fn lemma_update(s: Seq<CountAndTag>, i: int, x: CountAndTag)
    requires
        distinct_tags(s),
        0 <= i < s.len(),
        x.1@ == s[i].1@,
    ensures
        tag_counts(s.update(i, x)) == tag_counts(s).insert(x.1@, x.0 as nat),
        distinct_tags(s.update(i, x)),
    decreases s.len(),
{
    let t = s.update(i, x);
    assert(t.drop_last() =~= if i == s.len() - 1 { s.drop_last() } else { s.drop_last().update(i, x) });
    if i < s.len() - 1 {
        lemma_update(s.drop_last(), i, x);
        assert(s.last().1@ != x.1@);
    }
    assert(tag_counts(t) =~= tag_counts(s).insert(x.1@, x.0 as nat));
}

proof fn lemma_remove(s: Seq<CountAndTag>, i: int)
    requires
        distinct_tags(s),
        0 <= i < s.len(),
    ensures
        tag_counts(s.remove(i)) == tag_counts(s).remove(s[i].1@),
        distinct_tags(s.remove(i)),
    decreases s.len(),
{
    let t = s.remove(i);
    let k = s[i].1@;
    if i == s.len() - 1 {
        assert(t =~= s.drop_last());
        assert forall|j: int| 0 <= j < t.len() implies t[j].1@ != k by {
            assert(t[j] == s[j]);
        }
        lemma_domain(t, k);
        assert(tag_counts(t) =~= tag_counts(s).remove(k));
    } else {
        let init = s.drop_last();
        assert(init[i] == s[i]);
        lemma_remove(init, i);
        assert(t.drop_last() =~= init.remove(i));
        assert(t.last() == s.last());
        assert(s.last().1@ != k);
        assert(tag_counts(t) =~= tag_counts(s).remove(k));
    }
}

proof fn lemma_ranks_total(a: (nat, Seq<char>), b: (nat, Seq<char>))
    requires
        a.1 != b.1,
    ensures
        ranks_before(a, b) || ranks_before(b, a),
        !(ranks_before(a, b) && ranks_before(b, a)),
{
    lemma_text_lt_total(a.1, b.1);
    if text_lt(a.1, b.1) {
        lemma_text_lt_asymmetric(a.1, b.1);
    }
}

proof fn lemma_ranks_transitive(a: (nat, Seq<char>), b: (nat, Seq<char>), c: (nat, Seq<char>))
    requires
        ranks_before(a, b),
        ranks_before(b, c),
    ensures
        ranks_before(a, c),
{
    if a.0 == b.0 && b.0 == c.0 {
        lemma_text_lt_transitive(a.1, b.1, c.1);
    }
}

impl View for TagContainer {
    type V = Map<Seq<char>, nat>;

    closed spec fn view(&self) -> Map<Seq<char>, nat> {
        tag_counts(self.inner@)
    }
}

impl TagContainer {
    /// Every recorded tag is recorded once, with a count of at least one.
    pub closed spec fn wf(&self) -> bool {
        distinct_tags(self.inner@) && forall|i: int|
            0 <= i < self.inner@.len() ==> #[trigger] self.inner@[i].0 >= 1
    }

    pub fn new() -> (r: Self)
        ensures
            r.wf(),
            r@ == Map::<Seq<char>, nat>::empty(),
    {
        TagContainer { inner: Vec::new() }
    }

    fn find(&self, tag: &str) -> (r: Option<usize>)
        requires
            self.wf(),
        ensures
            r matches Some(i) ==> i < self.inner@.len() && self.inner@[i as int].1@ == tag@,
            r is None ==> !self@.contains_key(tag@),
    {
        let t = String::from_str(tag);
        let mut i: usize = 0;
        while i < self.inner.len()
            invariant
                i <= self.inner@.len(),
                t@ == tag@,
                forall|j: int| 0 <= j < i ==> self.inner@[j].1@ != tag@,
            decreases self.inner@.len() - i,
        {
            if self.inner[i].1 == t {
                return Some(i);
            }
            i = i + 1;
        }
        proof {
            lemma_domain(self.inner@, tag@);
        }
        None
    }

    /// Counts one more occurrence of `tag`; a count that has reached the
    /// largest `u16` stays there.
    pub fn insert(&mut self, tag: &str)
        requires
            old(self).wf(),
        ensures
            final(self).wf(),
            final(self)@ == bump(old(self)@, tag@),
    {
        match self.find(tag) {
            Some(i) => {
                proof {
                    lemma_lookup(self.inner@, i as int);
                }
                let n = self.inner[i].0;
                if n < u16::MAX {
                    let c: u16 = n + 1;
                    let t = String::from_str(tag);
                    proof {
                        lemma_update(self.inner@, i as int, CountAndTag(c, t));
                    }
                    self.inner.set(i, CountAndTag(c, t));
                } else {
                    proof {
                        assert(old(self)@.insert(tag@, n as nat) =~= old(self)@);
                    }
                }
            },
            None => {
                let t = String::from_str(tag);
                self.inner.push(CountAndTag(1, t));
                proof {
                    assert(self.inner@.drop_last() =~= old(self).inner@);
                    assert forall|j: int| 0 <= j < old(self).inner@.len() implies self.inner@[j].1@
                        != tag@ by {
                        if old(self).inner@[j].1@ == tag@ {
                            lemma_domain(old(self).inner@, tag@);
                        }
                    }
                }
            },
        }
    }

    /// Counts one occurrence of `tag` less; a tag whose count reaches zero
    /// is no longer recorded.
    pub fn remove(&mut self, tag: &str)
        requires
            old(self).wf(),
        ensures
            final(self).wf(),
            final(self)@ == unbump(old(self)@, tag@),
    {
        match self.find(tag) {
            Some(i) => {
                proof {
                    lemma_lookup(self.inner@, i as int);
                }
                let n = self.inner[i].0;
                if n <= 1 {
                    proof {
                        lemma_remove(self.inner@, i as int);
                    }
                    self.inner.remove(i);
                    proof {
                        assert forall|j: int| 0 <= j < self.inner@.len() implies #[trigger] self.inner@[j].0
                            >= 1 by {
                            if j < i {
                                assert(self.inner@[j] == old(self).inner@[j]);
                            } else {
                                assert(self.inner@[j] == old(self).inner@[j + 1]);
                            }
                        }
                    }
                } else {
                    let c: u16 = n - 1;
                    let t = String::from_str(tag);
                    proof {
                        lemma_update(self.inner@, i as int, CountAndTag(c, t));
                    }
                    self.inner.set(i, CountAndTag(c, t));
                }
            },
            None => {},
        }
    }

    /// How many entries carry `tag`, if any does.
    pub fn count(&self, tag: &str) -> (r: Option<&u16>)
        requires
            self.wf(),
        ensures
            r is Some <==> self@.contains_key(tag@),
            r matches Some(n) ==> *n as nat == self@[tag@],
    {
        match self.find(tag) {
            Some(i) => {
                proof {
                    lemma_lookup(self.inner@, i as int);
                }
                Some(&self.inner[i].0)
            },
            None => None,
        }
    }

    /// Every recorded tag once with its count, by descending count and,
    /// among equal counts, by ascending tag.
    pub fn sorted(&self) -> (r: Vec<CountAndTag>)
        requires
            self.wf(),
        ensures
            forall|i: int|
                0 <= i < r@.len() ==> self@.contains_key(#[trigger] r@[i].1@) && self@[r@[i].1@]
                    == r@[i].0 as nat,
            forall|k: Seq<char>| #[trigger]
                self@.contains_key(k) ==> exists|i: int| 0 <= i < r@.len() && r@[i].1@ == k,
            forall|i: int, j: int|
                0 <= i < j < r@.len() ==> ranks_before(item(#[trigger] r@[i]), item(#[trigger] r@[j])),
    {
        let mut out: Vec<CountAndTag> = Vec::new();
        let mut m: usize = 0;
        proof {
            reveal(listed_from);
            reveal(ranked);
        }
        while m < self.inner.len()
            invariant
                self.wf(),
                m <= self.inner@.len(),
                listed_from(out@, self.inner@, m as int),
                ranked(out@),
            decreases self.inner@.len() - m,
        {
            let next = &self.inner[m];
            let ghost nx = item(*next);
            proof {
                lemma_fresh(out@, self.inner@, m as int);
            }
            let mut j: usize = 0;
            while j < out.len() && !ranks_first(next, &out[j])
                invariant
                    0 <= j <= out@.len(),
                    forall|k: int| 0 <= k < j ==> ranks_before(item(#[trigger] out@[k]), nx),
                    forall|k: int| 0 <= k < out@.len() ==> (#[trigger] out@[k]).1@ != nx.1,
                    nx == item(*next),
                decreases out@.len() - j,
            {
                proof {
                    lemma_ranks_total(item(out@[j as int]), nx);
                }
                j = j + 1;
            }
            let ghost before = out@;
            let x = CountAndTag(next.0, next.1.clone());
            out.insert(j, x);
            proof {
                lemma_insert_listed(before, j as int, x, self.inner@, m as int);
                lemma_insert_ranked(before, j as int, x);
            }
            m = m + 1;
        }
        proof {
            reveal(listed_from);
            reveal(ranked);
            assert forall|i: int| 0 <= i < out@.len() implies self@.contains_key(#[trigger] out@[i].1@)
                && self@[out@[i].1@] == out@[i].0 as nat by {
                let x = choose|x: int| 0 <= x < m && item(out@[i]) == item(self.inner@[x]);
                lemma_lookup(self.inner@, x);
            }
            assert forall|k: Seq<char>| #[trigger] self@.contains_key(k) implies exists|i: int|
                0 <= i < out@.len() && out@[i].1@ == k by {
                lemma_domain(self.inner@, k);
                let x = choose|x: int| 0 <= x < self.inner@.len() && self.inner@[x].1@ == k;
                let i = choose|i: int| 0 <= i < out@.len() && item(out@[i]) == item(#[trigger] self.inner@[x]);
            }
        }
        out
    }
}

impl TagContainer {
    /// The recorded tags that `pattern` matches somewhere, in ranked order.
    pub fn sorted_matching(&self, pattern: &Pattern) -> (r: Vec<CountAndTag>)
        requires
            self.wf(),
        ensures
            forall|i: int|
                0 <= i < r@.len() ==> self@.contains_key(#[trigger] r@[i].1@) && self@[r@[i].1@]
                    == r@[i].0 as nat && regex_is_match(pattern.source(), r@[i].1@),
            forall|k: Seq<char>|
                #[trigger] self@.contains_key(k) && regex_is_match(pattern.source(), k) ==> exists|i: int|
                    0 <= i < r@.len() && r@[i].1@ == k,
            forall|i: int, j: int|
                0 <= i < j < r@.len() ==> ranks_before(item(#[trigger] r@[i]), item(#[trigger] r@[j])),
    {
        let all = self.sorted();
        let ghost pat = pattern.source();
        proof {
            reveal(ranked);
            reveal(kept_matching);
        }
        let mut out: Vec<CountAndTag> = Vec::new();
        let mut i: usize = 0;
        while i < all.len()
            invariant
                pat == pattern.source(),
                i <= all@.len(),
                ranked(all@),
                ranked(out@),
                kept_matching(out@, all@, i as int, pat),
            decreases all@.len() - i,
        {
            let x = &all[i];
            if pattern.is_match(x.1.as_str()) {
                let ghost before = out@;
                out.push(CountAndTag(x.0, x.1.clone()));
                proof {
                    lemma_keep_push(before, all@, i as int, pat, out@);
                }
            } else {
                proof {
                    lemma_keep_skip(out@, all@, i as int, pat);
                }
            }
            i = i + 1;
        }
        proof {
            reveal(ranked);
            reveal(kept_matching);
            assert forall|a: int| 0 <= a < out@.len() implies self@.contains_key(#[trigger] out@[a].1@)
                && self@[out@[a].1@] == out@[a].0 as nat && regex_is_match(pat, out@[a].1@) by {
                let k = choose|k: int| 0 <= k < all@.len() && item(#[trigger] out@[a]) == item(all@[k]);
                assert(out@[a].1@ == all@[k].1@);
            }
            assert forall|key: Seq<char>|
                #[trigger] self@.contains_key(key) && regex_is_match(pat, key) implies exists|a: int|
                0 <= a < out@.len() && out@[a].1@ == key by {
                let x = choose|x: int| 0 <= x < all@.len() && all@[x].1@ == key;
                let a = choose|a: int| 0 <= a < out@.len() && item(out@[a]) == item(#[trigger] all@[x]);
                assert(out@[a].1@ == key);
            }
        }
        out
    }
}

/// `out` holds, in order, exactly the items among the first `i` of `all`
/// whose tag `pat` matches.
#[verifier::opaque]
spec fn kept_matching(out: Seq<CountAndTag>, all: Seq<CountAndTag>, i: int, pat: Seq<char>) -> bool {
    &&& forall|a: int|
        0 <= a < out.len() ==> exists|k: int| 0 <= k < i && item(#[trigger] out[a]) == item(all[k])
    &&& forall|a: int| 0 <= a < out.len() ==> regex_is_match(pat, (#[trigger] out[a]).1@)
    &&& forall|k: int|
        0 <= k < i && regex_is_match(pat, all[k].1@) ==> exists|a: int|
            0 <= a < out.len() && item(out[a]) == item(#[trigger] all[k])
}

proof fn lemma_keep_skip(out: Seq<CountAndTag>, all: Seq<CountAndTag>, i: int, pat: Seq<char>)
    requires
        0 <= i < all.len(),
        kept_matching(out, all, i, pat),
        !regex_is_match(pat, all[i].1@),
    ensures
        kept_matching(out, all, i + 1, pat),
{
    reveal(kept_matching);
    assert forall|a: int| 0 <= a < out.len() implies exists|k: int|
        0 <= k < i + 1 && item(#[trigger] out[a]) == item(all[k]) by {
        let k = choose|k: int| 0 <= k < i && item(out[a]) == item(all[k]);
    }
}

proof fn lemma_keep_push(
    before: Seq<CountAndTag>,
    all: Seq<CountAndTag>,
    i: int,
    pat: Seq<char>,
    after: Seq<CountAndTag>,
)
    requires
        0 <= i < all.len(),
        kept_matching(before, all, i, pat),
        ranked(before),
        ranked(all),
        regex_is_match(pat, all[i].1@),
        after.len() == before.len() + 1,
        forall|a: int| 0 <= a < before.len() ==> after[a] == before[a],
        item(after[before.len() as int]) == item(all[i]),
    ensures
        kept_matching(after, all, i + 1, pat),
        ranked(after),
{
    lemma_keep_push_listed(before, all, i, pat, after);
    lemma_keep_push_ranked(before, all, i, pat, after);
}

proof fn lemma_keep_push_listed(
    before: Seq<CountAndTag>,
    all: Seq<CountAndTag>,
    i: int,
    pat: Seq<char>,
    after: Seq<CountAndTag>,
)
    requires
        0 <= i < all.len(),
        kept_matching(before, all, i, pat),
        regex_is_match(pat, all[i].1@),
        after.len() == before.len() + 1,
        forall|a: int| 0 <= a < before.len() ==> after[a] == before[a],
        item(after[before.len() as int]) == item(all[i]),
    ensures
        kept_matching(after, all, i + 1, pat),
{
    reveal(kept_matching);
    let n = before.len() as int;
    assert(after[n].1@ == all[i].1@);
    assert forall|a: int| 0 <= a < after.len() implies exists|k: int|
        0 <= k < i + 1 && item(#[trigger] after[a]) == item(all[k]) by {
        if a < n {
            assert(after[a] == before[a]);
            let k = choose|k: int| 0 <= k < i && item(before[a]) == item(all[k]);
        }
    }
    assert forall|a: int| 0 <= a < after.len() implies regex_is_match(pat, (#[trigger] after[a]).1@) by {
        if a < n {
            assert(after[a] == before[a]);
        }
    }
    assert forall|k: int|
        0 <= k < i + 1 && regex_is_match(pat, all[k].1@) implies exists|a: int|
        0 <= a < after.len() && item(after[a]) == item(#[trigger] all[k]) by {
        if k < i {
            let a = choose|a: int| 0 <= a < before.len() && item(before[a]) == item(all[k]);
            assert(after[a] == before[a]);
        } else {
            assert(item(after[n]) == item(all[k]));
        }
    }
}

proof fn lemma_keep_push_ranked(
    before: Seq<CountAndTag>,
    all: Seq<CountAndTag>,
    i: int,
    pat: Seq<char>,
    after: Seq<CountAndTag>,
)
    requires
        0 <= i < all.len(),
        kept_matching(before, all, i, pat),
        ranked(before),
        ranked(all),
        after.len() == before.len() + 1,
        forall|a: int| 0 <= a < before.len() ==> after[a] == before[a],
        item(after[before.len() as int]) == item(all[i]),
    ensures
        ranked(after),
{
    reveal(ranked);
    let n = before.len() as int;
    assert forall|a: int| 0 <= a < n implies ranks_before(item(#[trigger] before[a]), item(all[i])) by {
        reveal(kept_matching);
        let k = choose|k: int| 0 <= k < i && item(before[a]) == item(all[k]);
        assert(ranks_before(item(all[k]), item(all[i])));
    }
    assert forall|a: int, b: int| 0 <= a < b < after.len() implies ranks_before(
        item(#[trigger] after[a]),
        item(#[trigger] after[b]),
    ) by {
        assert(after[a] == before[a]);
        if b < n {
            assert(after[b] == before[b]);
        }
    }
}

fn ranks_first(a: &CountAndTag, b: &CountAndTag) -> (r: bool)
    ensures
        r == ranks_before(item(*a), item(*b)),
{
    a.0 > b.0 || (a.0 == b.0 && text_less(a.1.as_str(), b.1.as_str()))
}

/// `out` holds, by count and tag, exactly the first `m` items of `src`.
#[verifier::opaque]
spec fn listed_from(out: Seq<CountAndTag>, src: Seq<CountAndTag>, m: int) -> bool {
    &&& forall|k: int|
        0 <= k < out.len() ==> exists|x: int| 0 <= x < m && item(#[trigger] out[k]) == item(src[x])
    &&& forall|x: int|
        0 <= x < m ==> exists|k: int| 0 <= k < out.len() && item(out[k]) == item(#[trigger] src[x])
}

#[verifier::opaque]
spec fn ranked(out: Seq<CountAndTag>) -> bool {
    forall|i: int, j: int|
        0 <= i < j < out.len() ==> ranks_before(item(#[trigger] out[i]), item(#[trigger] out[j]))
}

proof fn lemma_fresh(out: Seq<CountAndTag>, src: Seq<CountAndTag>, m: int)
    requires
        distinct_tags(src),
        0 <= m < src.len(),
        listed_from(out, src, m),
    ensures
        forall|k: int| 0 <= k < out.len() ==> (#[trigger] out[k]).1@ != src[m].1@,
{
    reveal(listed_from);
    assert forall|k: int| 0 <= k < out.len() implies (#[trigger] out[k]).1@ != src[m].1@ by {
        let x = choose|x: int| 0 <= x < m && item(out[k]) == item(src[x]);
        assert(x != m);
    }
}

proof fn lemma_insert_listed(before: Seq<CountAndTag>, j: int, x: CountAndTag, src: Seq<CountAndTag>, m: int)
    requires
        0 <= j <= before.len(),
        0 <= m < src.len(),
        item(x) == item(src[m]),
        listed_from(before, src, m),
    ensures
        listed_from(before.insert(j, x), src, m + 1),
{
    reveal(listed_from);
    let after = before.insert(j, x);
    assert forall|k: int|
        0 <= k < after.len() implies exists|y: int| 0 <= y < m + 1 && item(#[trigger] after[k]) == item(src[y]) by {
        if k < j {
            assert(after[k] == before[k]);
        } else if k > j {
            assert(after[k] == before[k - 1]);
        } else {
            assert(item(after[k]) == item(src[m]));
        }
    }
    assert forall|y: int| 0 <= y < m + 1 implies exists|k: int|
        0 <= k < after.len() && item(after[k]) == item(#[trigger] src[y]) by {
        if y < m {
            let k = choose|k: int| 0 <= k < before.len() && item(before[k]) == item(src[y]);
            if k < j {
                assert(after[k] == before[k]);
            } else {
                assert(after[k + 1] == before[k]);
            }
        } else {
            assert(item(after[j]) == item(src[y]));
        }
    }
}

proof fn lemma_insert_ranked(before: Seq<CountAndTag>, j: int, x: CountAndTag)
    requires
        0 <= j <= before.len(),
        ranked(before),
        forall|k: int| 0 <= k < j ==> ranks_before(item(#[trigger] before[k]), item(x)),
        j < before.len() ==> ranks_before(item(x), item(before[j])),
    ensures
        ranked(before.insert(j, x)),
{
    reveal(ranked);
    let after = before.insert(j, x);
    let nx = item(x);
    assert forall|k: int| j <= k < before.len() implies ranks_before(nx, item(#[trigger] before[k])) by {
        if k > j {
            lemma_ranks_transitive(nx, item(before[j]), item(before[k]));
        }
    }
    assert forall|a: int, b: int| 0 <= a < b < after.len() implies ranks_before(
        item(#[trigger] after[a]),
        item(#[trigger] after[b]),
    ) by {
        if a < j {
            assert(after[a] == before[a]);
        } else if a > j {
            assert(after[a] == before[a - 1]);
        }
        if b < j {
            assert(after[b] == before[b]);
        } else if b > j {
            assert(after[b] == before[b - 1]);
        }
    }
}

} // verus!
