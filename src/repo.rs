use vstd::prelude::*;

use crate::codec::{clean_tag, clean_tags, encode, encode_file_name, lemma_round_trip};
use crate::entry::{
    decoded_path,
    entry_less, entry_lt, lemma_entry_lt_asymmetric, lemma_entry_lt_transitive, same_tags,
    sorted_entries, EntryView, JrnEntry,
};
use crate::config::same_text;
use crate::error::JrnError;
use crate::ignore::{ignored_by, IgnorePatterns};
use crate::path::{component_bounds, dir_of, file_name, lemma_file_name_join};
use crate::settings::Settings;
use crate::tag_container::{bump_all, item, ranks_before, unbump_all, CountAndTag, TagContainer};
use crate::pattern::{regex_compiles, regex_is_match, Pattern};
use crate::text::views;
use crate::time::TimeStamp;
use crate::codec::decode;

verus! {

/// The in-memory index of a journal on disk: its entries in entry order
/// and how often each tag occurs.
pub struct JrnRepo {
    root_path: String,
    config: Settings,
    ignore: IgnorePatterns,
    entries: Vec<JrnEntry>,
    tags: TagContainer,
}

/// Whether a tag list and the file name it makes can be read back.
pub open spec fn nameable(tags: Seq<Seq<char>>, name: Seq<char>, delim: char) -> bool {
    clean_tags(tags, delim) && !name.contains('/')
}

/// How often `t` occurs in a tag list.
pub open spec fn occurrences(tags: Seq<Seq<char>>, t: Seq<char>) -> nat
    decreases tags.len(),
{
    if tags.len() == 0 {
        0
    } else {
        occurrences(tags.drop_last(), t) + if tags.last() == t {
            1nat
        } else {
            0nat
        }
    }
}

/// How often `t` occurs over the tag lists of all entries.
pub open spec fn tally(es: Seq<EntryView>, t: Seq<char>) -> nat
    decreases es.len(),
{
    if es.len() == 0 {
        0
    } else {
        tally(es.drop_last(), t) + occurrences(es.last().1, t)
    }
}

/// The count that a tag index records for `t`; zero if it records none.
pub open spec fn count_of(m: Map<Seq<char>, nat>, t: Seq<char>) -> nat {
    if m.contains_key(t) {
        m[t]
    } else {
        0
    }
}

/// The tag index counts exactly the tags of the entries, each count
/// within what a `u16` holds.
pub open spec fn counts_agree(m: Map<Seq<char>, nat>, es: Seq<EntryView>) -> bool {
    &&& forall|t: Seq<char>|
        #![trigger count_of(m, t)]
        #![trigger tally(es, t)]
        count_of(m, t) == tally(es, t) && tally(es, t) <= u16::MAX as nat
    &&& forall|t: Seq<char>| #[trigger] m.contains_key(t) ==> m[t] > 0
}

/// Whether the entries `es` leave room to count the tags `tags` too.
pub open spec fn room_for(es: Seq<EntryView>, tags: Seq<Seq<char>>) -> bool {
    forall|t: Seq<char>|
        #[trigger] occurrences(tags, t) > 0 ==> tally(es, t) + occurrences(tags, t) <= u16::MAX as nat
}

proof fn lemma_occurrences_witness(tags: Seq<Seq<char>>, t: Seq<char>)
    requires
        occurrences(tags, t) > 0,
    ensures
        exists|i: int| 0 <= i < tags.len() && tags[i] == t,
    decreases tags.len(),
{
    if tags.last() != t {
        lemma_occurrences_witness(tags.drop_last(), t);
        let i = choose|i: int| 0 <= i < tags.len() - 1 && tags.drop_last()[i] == t;
        assert(tags[i] == t);
    }
}

proof fn lemma_tally_insert(es: Seq<EntryView>, j: int, x: EntryView, t: Seq<char>)
    requires
        0 <= j <= es.len(),
    ensures
        tally(es.insert(j, x), t) == tally(es, t) + occurrences(x.1, t),
    decreases es.len(),
{
    let after = es.insert(j, x);
    if j == es.len() {
        assert(after.drop_last() =~= es);
        assert(after.last() == x);
    } else {
        assert(after.drop_last() =~= es.drop_last().insert(j, x));
        assert(after.last() == es.last());
        lemma_tally_insert(es.drop_last(), j, x, t);
    }
}

proof fn lemma_bump_all_at(m: Map<Seq<char>, nat>, ts: Seq<Seq<char>>, t: Seq<char>)
    requires
        m.contains_key(t) ==> m[t] > 0,
        count_of(m, t) + occurrences(ts, t) <= u16::MAX as nat,
    ensures
        count_of(bump_all(m, ts), t) == count_of(m, t) + occurrences(ts, t),
        bump_all(m, ts).contains_key(t) ==> bump_all(m, ts)[t] > 0,
    decreases ts.len(),
{
    if ts.len() > 0 {
        lemma_bump_all_at(m, ts.drop_last(), t);
    }
}

proof fn lemma_unbump_all_at(m: Map<Seq<char>, nat>, ts: Seq<Seq<char>>, t: Seq<char>)
    requires
        m.contains_key(t) ==> m[t] > 0,
        occurrences(ts, t) <= count_of(m, t),
    ensures
        count_of(unbump_all(m, ts), t) == count_of(m, t) - occurrences(ts, t),
        unbump_all(m, ts).contains_key(t) ==> unbump_all(m, ts)[t] > 0,
    decreases ts.len(),
{
    if ts.len() > 0 {
        lemma_unbump_all_at(m, ts.drop_last(), t);
    }
}

/// How often `t` occurs in `tags`.
fn occurrences_in(tags: &Vec<String>, t: &str) -> (r: usize)
    ensures
        r == occurrences(views(tags@), t@),
        r <= tags@.len(),
{
    let ghost vs = views(tags@);
    let mut n: usize = 0;
    let mut i: usize = 0;
    proof {
        assert(vs.take(0) =~= Seq::<Seq<char>>::empty());
    }
    while i < tags.len()
        invariant
            vs == views(tags@),
            i <= tags@.len(),
            n <= i,
            n == occurrences(vs.take(i as int), t@),
        decreases tags@.len() - i,
    {
        proof {
            assert(vs.take(i + 1).drop_last() =~= vs.take(i as int));
            assert(vs.take(i + 1).last() == tags@[i as int]@);
        }
        if same_text(tags[i].as_str(), t) {
            n = n + 1;
        }
        i = i + 1;
    }
    proof {
        assert(vs.take(tags@.len() as int) =~= vs);
    }
    n
}

proof fn lemma_insert_sorted(es: Seq<EntryView>, j: int, x: EntryView)
    requires
        sorted_entries(es),
        0 <= j <= es.len(),
        forall|k: int| 0 <= k < j ==> !entry_lt(x, #[trigger] es[k]),
        j < es.len() ==> entry_lt(x, es[j]),
    ensures
        sorted_entries(es.insert(j, x)),
{
    let after = es.insert(j, x);
    assert forall|a: int, b: int| 0 <= a < b < after.len() implies !entry_lt(
        #[trigger] after[b],
        #[trigger] after[a],
    ) by {
        if a == j {
            let y = es[b - 1];
            assert(after[b] == y);
            if entry_lt(y, x) {
                if b - 1 == j {
                    lemma_entry_lt_asymmetric(x, es[j]);
                } else {
                    lemma_entry_lt_transitive(y, x, es[j]);
                }
            }
        } else if b == j {
            assert(after[a] == es[a]);
        } else {
            let ia = if a < j { a } else { a - 1 };
            let ib = if b < j { b } else { b - 1 };
            assert(after[a] == es[ia]);
            assert(after[b] == es[ib]);
        }
    }
}

fn contains_char(s: &str, c: char) -> (r: bool)
    ensures
        r == s@.contains(c),
{
    let n = s.unicode_len();
    let mut i: usize = 0;
    while i < n
        invariant
            n == s@.len(),
            i <= n,
            forall|k: int| 0 <= k < i ==> s@[k] != c,
        decreases n - i,
    {
        if s.get_char(i) == c {
            return true;
        }
        i = i + 1;
    }
    false
}

fn check_tags(tags: &Vec<String>, delim: char) -> (r: bool)
    ensures
        r == clean_tags(views(tags@), delim),
{
    let mut i: usize = 0;
    while i < tags.len()
        invariant
            i <= tags@.len(),
            forall|k: int| 0 <= k < i ==> clean_tag(#[trigger] views(tags@)[k], delim),
        decreases tags@.len() - i,
    {
        let t = tags[i].as_str();
        if t.unicode_len() == 0 || contains_char(t, delim) {
            proof {
                assert(!clean_tag(views(tags@)[i as int], delim));
            }
            return false;
        }
        i = i + 1;
    }
    true
}

impl JrnRepo {
    pub closed spec fn entries_view(&self) -> Seq<EntryView> {
        self.entries@.map_values(|e: JrnEntry| e@)
    }

    pub closed spec fn root(&self) -> Seq<char> {
        self.root_path@
    }

    /// The directory the journal lives in.
    pub fn root_path(&self) -> (r: &str)
        ensures
            r@ == self.root(),
    {
        self.root_path.as_str()
    }

    pub closed spec fn tag_counts(&self) -> Map<Seq<char>, nat> {
        self.tags@
    }

    pub closed spec fn settings(&self) -> Settings {
        self.config
    }

    pub closed spec fn ignore_patterns(&self) -> Seq<Seq<char>> {
        self.ignore.patterns()
    }

    /// Entries are in entry order, and each one's file name reads back as
    /// its time stamp and tags.
    pub closed spec fn wf(&self) -> bool {
        &&& self.ignore.wf()
        &&& self.tags.wf()
        &&& sorted_entries(self.entries_view())
        &&& counts_agree(self.tags@, self.entries_view())
        &&& forall|i: int|
            0 <= i < self.entries@.len() ==> (#[trigger] self.entries@[i]).reads_back(&self.config)
                && self.entries@[i].creation_time.wf()
    }

    /// What the index keeps true: its entries are in entry order, and the
    /// file name of every entry reads back under the settings as exactly
    /// that entry's time stamp and tags.
    pub proof fn lemma_index_invariant(&self)
        requires
            self.wf(),
        ensures
            sorted_entries(self.entries_view()),
            counts_agree(self.tag_counts(), self.entries_view()),
            forall|i: int|
                0 <= i < self.entries_view().len() ==> decoded_path(
                    (#[trigger] self.entries_view()[i]).2,
                    &self.settings(),
                ) == Some((self.entries_view()[i].0, self.entries_view()[i].1))
                    && self.entries_view()[i].0.wf(),
    {
        assert forall|i: int| 0 <= i < self.entries_view().len() implies decoded_path(
            (#[trigger] self.entries_view()[i]).2,
            &self.settings(),
        ) == Some((self.entries_view()[i].0, self.entries_view()[i].1))
            && self.entries_view()[i].0.wf() by {
            assert(self.entries_view()[i] == self.entries@[i]@);
            assert(self.entries@[i].reads_back(&self.config));
        }
    }

    /// Whether, with the tags `removed` no longer counted, the tags `added`
    /// could be counted too.
    fn room_after(&self, removed: &Vec<String>, added: &Vec<String>) -> (r: bool)
        requires
            self.wf(),
            forall|t: Seq<char>| occurrences(views(removed@), t) <= tally(self.entries_view(), t),
        ensures
            r == forall|u: Seq<char>|
                #[trigger] occurrences(views(added@), u) > 0 ==> tally(self.entries_view(), u)
                    - occurrences(views(removed@), u) + occurrences(views(added@), u)
                    <= u16::MAX as nat,
    {
        let mut i: usize = 0;
        while i < added.len()
            invariant
                self.wf(),
                forall|t: Seq<char>| occurrences(views(removed@), t) <= tally(self.entries_view(), t),
                i <= added@.len(),
                forall|k: int|
                    0 <= k < i ==> tally(self.entries_view(), #[trigger] views(added@)[k])
                        - occurrences(views(removed@), views(added@)[k]) + occurrences(
                        views(added@),
                        views(added@)[k],
                    ) <= u16::MAX as nat,
            decreases added@.len() - i,
        {
            let t = added[i].as_str();
            let c: usize = match self.tags.count(t) {
                Some(n) => *n as usize,
                None => 0,
            };
            proof {
                assert(c == count_of(self.tags@, t@));
                assert(views(added@)[i as int] == t@);
            }
            let rem = occurrences_in(removed, t);
            let add = occurrences_in(added, t);
            if add > 65535 - (c - rem) {
                return false;
            }
            i = i + 1;
        }
        proof {
            assert forall|u: Seq<char>| #[trigger] occurrences(views(added@), u) > 0 implies tally(
                self.entries_view(),
                u,
            ) - occurrences(views(removed@), u) + occurrences(views(added@), u) <= u16::MAX as nat by {
                lemma_occurrences_witness(views(added@), u);
                let k = choose|k: int| 0 <= k < views(added@).len() && views(added@)[k] == u;
            }
        }
        true
    }

    /// An empty index over the journal at `root_path`.
    pub fn init(config: Settings, ignore: IgnorePatterns, root_path: String) -> (r: Self)
        requires
            ignore.wf(),
        ensures
            r.wf(),
            r.entries_view() == Seq::<EntryView>::empty(),
            r.tag_counts() == Map::<Seq<char>, nat>::empty(),
            r.settings() == config,
            r.ignore_patterns() == ignore.patterns(),
            r.root() == root_path@,
    {
        let r = JrnRepo { root_path, config, ignore, entries: Vec::new(), tags: TagContainer::new() };
        proof {
            assert(r.entries_view() =~= Seq::<EntryView>::empty());
            assert forall|t: Seq<char>| count_of(r.tags@, t) == tally(r.entries_view(), t) by {}
        }
        r
    }

    pub fn entries(&self) -> (r: &Vec<JrnEntry>)
        ensures
            r@.map_values(|e: JrnEntry| e@) == self.entries_view(),
    {
        &self.entries
    }

    pub fn config(&self) -> (r: &Settings)
        ensures
            *r == self.settings(),
    {
        &self.config
    }

    pub fn tags(&self) -> (r: &TagContainer)
        requires
            self.wf(),
        ensures
            r@ == self.tag_counts(),
            r.wf(),
    {
        &self.tags
    }

    fn count_tags(&mut self, tags: &Vec<String>)
        requires
            old(self).tags.wf(),
        ensures
            final(self).tags.wf(),
            final(self).tags@ == bump_all(old(self).tags@, views(tags@)),
            final(self).entries == old(self).entries,
            final(self).config == old(self).config,
            final(self).ignore == old(self).ignore,
            final(self).root_path == old(self).root_path,
    {
        let mut i: usize = 0;
        proof {
            assert(views(tags@).take(0) =~= Seq::<Seq<char>>::empty());
        }
        while i < tags.len()
            invariant
                i <= tags@.len(),
                self.tags.wf(),
                self.tags@ == bump_all(old(self).tags@, views(tags@).take(i as int)),
                self.entries == old(self).entries,
                self.config == old(self).config,
                self.ignore == old(self).ignore,
                self.root_path == old(self).root_path,
            decreases tags@.len() - i,
        {
            proof {
                assert(views(tags@).take(i + 1).drop_last() =~= views(tags@).take(i as int));
            }
            self.tags.insert(tags[i].as_str());
            i = i + 1;
        }
        proof {
            assert(views(tags@).take(tags@.len() as int) =~= views(tags@));
        }
    }

    fn uncount_tags(&mut self, tags: &Vec<String>)
        requires
            old(self).tags.wf(),
        ensures
            final(self).tags.wf(),
            final(self).tags@ == unbump_all(old(self).tags@, views(tags@)),
            final(self).entries == old(self).entries,
            final(self).config == old(self).config,
            final(self).ignore == old(self).ignore,
            final(self).root_path == old(self).root_path,
    {
        let mut i: usize = 0;
        proof {
            assert(views(tags@).take(0) =~= Seq::<Seq<char>>::empty());
        }
        while i < tags.len()
            invariant
                i <= tags@.len(),
                self.tags.wf(),
                self.tags@ == unbump_all(old(self).tags@, views(tags@).take(i as int)),
                self.entries == old(self).entries,
                self.config == old(self).config,
                self.ignore == old(self).ignore,
                self.root_path == old(self).root_path,
            decreases tags@.len() - i,
        {
            proof {
                assert(views(tags@).take(i + 1).drop_last() =~= views(tags@).take(i as int));
            }
            self.tags.remove(tags[i].as_str());
            i = i + 1;
        }
        proof {
            assert(views(tags@).take(tags@.len() as int) =~= views(tags@));
        }
    }

    /// Records an entry whose file name reads back under the settings: it
    /// takes its place in entry order and its tags are counted.
    pub fn add_entry(&mut self, entry: JrnEntry)
        requires
            old(self).wf(),
            entry.reads_back(&old(self).settings()),
            entry.creation_time.wf(),
            room_for(old(self).entries_view(), entry@.1),
        ensures
            final(self).wf(),
            exists|j: int|
                0 <= j <= old(self).entries_view().len() && final(self).entries_view() == old(
                    self,
                ).entries_view().insert(j, entry@),
            final(self).tag_counts() == bump_all(old(self).tag_counts(), entry@.1),
            final(self).settings() == old(self).settings(),
            final(self).ignore_patterns() == old(self).ignore_patterns(),
    {
        let ghost m0 = self.tags@;
        self.count_tags(&entry.tags);
        let ghost es = self.entries_view();
        let ghost ev = entry@;
        let ghost before = self.entries@;
        let mut j: usize = 0;
        while j < self.entries.len() && !entry_less(&entry, &self.entries[j])
            invariant
                j <= self.entries@.len(),
                es == self.entries_view(),
                ev == entry@,
                forall|k: int| 0 <= k < j ==> !entry_lt(ev, #[trigger] es[k]),
            decreases self.entries@.len() - j,
        {
            proof {
                assert(es[j as int] == self.entries@[j as int]@);
            }
            j = j + 1;
        }
        proof {
            if j < self.entries@.len() {
                assert(es[j as int] == self.entries@[j as int]@);
            }
            lemma_insert_sorted(es, j as int, ev);
        }
        self.entries.insert(j, entry);
        proof {
            assert(self.entries@ == before.insert(j as int, entry));
            assert(self.entries_view() =~= es.insert(j as int, ev));
            assert forall|i: int| 0 <= i < self.entries@.len() implies (#[trigger] self.entries@[i]).reads_back(
                &self.config,
            ) && self.entries@[i].creation_time.wf() by {
                if i < j {
                    assert(self.entries@[i] == before[i]);
                } else if i > j {
                    assert(self.entries@[i] == before[i - 1]);
                }
            }
            assert forall|t: Seq<char>|
                count_of(self.tags@, t) == tally(self.entries_view(), t) && tally(self.entries_view(), t)
                    <= u16::MAX as nat by {
                lemma_tally_insert(es, j as int, ev, t);
                assert(count_of(m0, t) == tally(es, t));
                lemma_bump_all_at(m0, ev.1, t);
            }
            assert forall|t: Seq<char>| #[trigger] self.tags@.contains_key(t) implies self.tags@[t] > 0 by {
                assert(count_of(m0, t) == tally(es, t));
                lemma_bump_all_at(m0, ev.1, t);
            }
        }
    }

    /// Takes one path of the depth-first walk. A path that an ignore rule
    /// matches is skipped with all it holds; a directory is to be entered
    /// (the result); a file whose name reads back as an entry is recorded.
    pub fn visit(&mut self, path: &str, is_dir: bool) -> (descend: bool)
        requires
            old(self).wf(),
        ensures
            final(self).wf(),
            descend == (!ignored_by(old(self).ignore_patterns(), path@) && is_dir),
            final(self).settings() == old(self).settings(),
            final(self).ignore_patterns() == old(self).ignore_patterns(),
            ({
                let d = decoded_path(path@, &old(self).settings());
                if ignored_by(old(self).ignore_patterns(), path@) || is_dir || d is None || !room_for(
                    old(self).entries_view(),
                    d.unwrap().1,
                ) {
                    final(self).entries_view() == old(self).entries_view() && final(self).tag_counts()
                        == old(self).tag_counts()
                } else {
                    let (t, tags) = d->0;
                    &&& exists|j: int|
                        0 <= j <= old(self).entries_view().len() && final(self).entries_view() == old(
                            self,
                        ).entries_view().insert(j, (t, tags, path@))
                    &&& final(self).tag_counts() == bump_all(old(self).tag_counts(), tags)
                }
            }),
    {
        if self.ignore.matches(path) {
            return false;
        }
        if is_dir {
            return true;
        }
        match JrnEntry::read_entry(path, &self.config) {
            Some(entry) => {
                let none: Vec<String> = Vec::new();
                proof {
                    assert(views(none@) =~= Seq::<Seq<char>>::empty());
                    assert forall|t: Seq<char>| occurrences(views(none@), t) == 0 by {}
                }
                if self.room_after(&none, &entry.tags) {
                    self.add_entry(entry);
                }
            },
            None => {},
        }
        false
    }

    /// A new entry made at `creation_time` with the requested tags followed
    /// by the configured ones, named by the codec. It is not recorded:
    /// that is for `add_entry`, once its file exists.
    pub fn new_entry(&self, creation_time: TimeStamp, tags: &Vec<String>) -> (r: Result<JrnEntry, JrnError>)
        requires
            self.wf(),
            creation_time.wf(),
        ensures
            ({
                let all = views(tags@) + self.settings().config_tags();
                let name = encode(
                    creation_time,
                    all,
                    self.settings().tag_start(),
                    self.settings().tag_deliminator(),
                );
                let ok = nameable(all, name, self.settings().tag_deliminator());
                let taken = exists|i: int|
                    0 <= i < self.entries_view().len() && (#[trigger] self.entries_view()[i]).0
                        == creation_time && self.entries_view()[i].1 == all;
                let room = room_for(self.entries_view(), all);
                &&& (r matches Err(e) && e is InvalidName) <==> !ok
                &&& (r matches Err(e) && e is AlreadyExists) <==> ok && taken
                &&& (r matches Err(e) && e is TagCountFull) <==> ok && !taken && !room
                &&& r is Ok <==> ok && !taken && room
                &&& r matches Ok(e) ==> e@ == (creation_time, all, name) && e.reads_back(
                    &self.settings(),
                ) && e.creation_time.wf()
            }),
    {
        let all = self.config.entry_tags(tags);
        let name = encode_file_name(
            &creation_time,
            &all,
            self.config.get_tag_start(),
            self.config.get_tag_deliminator(),
        );
        if !check_tags(&all, self.config.get_tag_deliminator()) || contains_char(name.as_str(), '/') {
            return Err(JrnError::InvalidName(name));
        }
        let mut i: usize = 0;
        while i < self.entries.len()
            invariant
                self.wf(),
                i <= self.entries@.len(),
                views(all@) == views(tags@) + self.settings().config_tags(),
                name@ == encode(
                    creation_time,
                    views(all@),
                    self.settings().tag_start(),
                    self.settings().tag_deliminator(),
                ),
                nameable(views(all@), name@, self.settings().tag_deliminator()),
                forall|k: int|
                    0 <= k < i ==> !((#[trigger] self.entries_view()[k]).0 == creation_time
                        && self.entries_view()[k].1 == views(all@)),
            decreases self.entries@.len() - i,
        {
            let e = &self.entries[i];
            proof {
                assert(self.entries_view()[i as int] == e@);
            }
            if e.creation_time == creation_time && same_tags(&e.tags, &all) {
                proof {
                    assert(self.entries_view()[i as int].0 == creation_time);
                    assert(self.entries_view()[i as int].1 == views(all@));
                }
                return Err(JrnError::AlreadyExists);
            }
            i = i + 1;
        }
        let none: Vec<String> = Vec::new();
        proof {
            assert(views(none@) =~= Seq::<Seq<char>>::empty());
            assert forall|t: Seq<char>| occurrences(views(none@), t) == 0 by {}
        }
        if !self.room_after(&none, &all) {
            return Err(JrnError::TagCountFull);
        }
        let entry = JrnEntry { creation_time, tags: all, file_path: name };
        proof {
            lemma_round_trip(
                creation_time,
                views(entry.tags@),
                self.config.tag_start(),
                self.config.tag_deliminator(),
            );
            crate::time::lemma_stamp_round_trip(creation_time);
            assert(entry.file_path@.len() >= 15);
            lemma_file_name_join(Seq::empty(), entry.file_path@);
            assert(Seq::<char>::empty() + entry.file_path@ =~= entry.file_path@);
        }
        Ok(entry)
    }

    /// The newest entry, if there is one.
    pub fn latest(&self) -> (r: Option<&JrnEntry>)
        ensures
            r is None <==> self.entries_view().len() == 0,
            r matches Some(e) ==> e@ == self.entries_view().last(),
    {
        let n = self.entries.len();
        if n == 0 {
            None
        } else {
            Some(&self.entries[n - 1])
        }
    }

    /// The newest entry with `tag` appended: its file keeps its directory
    /// and takes the name that the longer tag list makes. It is not
    /// recorded: that is for `replace_latest`, once the file is renamed.
    pub fn tagged_latest(&self, tag: &str) -> (r: Result<JrnEntry, JrnError>)
        requires
            self.wf(),
        ensures
            self.entries_view().len() == 0 <==> (r matches Err(e) && e is NoEntry),
            self.entries_view().len() > 0 ==> ({
                let last = self.entries_view().last();
                let tags = last.1.push(tag@);
                let name = encode(
                    last.0,
                    tags,
                    self.settings().tag_start(),
                    self.settings().tag_deliminator(),
                );
                let ok = nameable(tags, name, self.settings().tag_deliminator());
                let room = room_for(self.entries_view().drop_last(), tags);
                &&& (r matches Err(e) && e is InvalidName) <==> !ok
                &&& (r matches Err(e) && e is TagCountFull) <==> ok && !room
                &&& r is Ok <==> ok && room
                &&& r matches Ok(e) ==> e@ == (last.0, tags, dir_of(last.2) + name) && e.reads_back(
                    &self.settings(),
                ) && e.creation_time.wf()
            }),
    {
        let n = self.entries.len();
        if n == 0 {
            return Err(JrnError::NoEntry);
        }
        let last = &self.entries[n - 1];
        proof {
            assert(self.entries_view().last() == last@);
        }
        let mut tags: Vec<String> = Vec::new();
        let mut i: usize = 0;
        while i < last.tags.len()
            invariant
                i <= last.tags@.len(),
                views(tags@) == views(last.tags@).take(i as int),
            decreases last.tags@.len() - i,
        {
            let t = last.tags[i].clone();
            let ghost before = tags@;
            tags.push(t);
            proof {
                assert(t@ == last.tags@[i as int]@);
                assert(views(tags@) =~= views(before).push(t@));
                assert(views(tags@) =~= views(last.tags@).take(i + 1));
            }
            i = i + 1;
        }
        let ghost before = tags@;
        tags.push(String::from_str(tag));
        proof {
            assert(views(last.tags@).take(last.tags@.len() as int) =~= views(last.tags@));
            assert(views(tags@) =~= views(before).push(tag@));
        }
        let name = encode_file_name(
            &last.creation_time,
            &tags,
            self.config.get_tag_start(),
            self.config.get_tag_deliminator(),
        );
        if !check_tags(&tags, self.config.get_tag_deliminator()) || contains_char(name.as_str(), '/') {
            return Err(JrnError::InvalidName(name));
        }
        proof {
            let es = self.entries_view();
            assert(es.last() == last@);
            assert forall|t: Seq<char>| occurrences(views(last.tags@), t) <= tally(es, t) by {}
            assert forall|t: Seq<char>|
                tally(es.drop_last(), t) == tally(es, t) - occurrences(views(last.tags@), t) by {}
        }
        if !self.room_after(&last.tags, &tags) {
            return Err(JrnError::TagCountFull);
        }
        let (start, end) = component_bounds(last.file_path.as_str());
        let mut path = String::from_str(last.file_path.as_str().substring_char(0, start));
        path.append(name.as_str());
        let entry = JrnEntry { creation_time: last.creation_time, tags, file_path: path };
        proof {
            let p = last.file_path@;
            assert(p.subrange(start as int, end as int).len() == end - start);
            assert(dir_of(p) =~= p.take(start as int));
            crate::time::lemma_stamp_round_trip(last.creation_time);
            assert(name@.len() >= 15);
            lemma_round_trip(
                last.creation_time,
                views(entry.tags@),
                self.config.tag_start(),
                self.config.tag_deliminator(),
            );
            lemma_file_name_join(p.take(start as int), name@);
        }
        Ok(entry)
    }

    /// Forgets the newest entry and uncounts its tags; gives it back.
    pub fn remove_latest(&mut self) -> (r: Option<JrnEntry>)
        requires
            old(self).wf(),
        ensures
            final(self).wf(),
            final(self).settings() == old(self).settings(),
            final(self).ignore_patterns() == old(self).ignore_patterns(),
            r is None <==> old(self).entries_view().len() == 0,
            r is None ==> final(self).entries_view() == old(self).entries_view()
                && final(self).tag_counts() == old(self).tag_counts(),
            r matches Some(e) ==> e@ == old(self).entries_view().last() && final(self).entries_view()
                == old(self).entries_view().drop_last() && final(self).tag_counts() == unbump_all(
                old(self).tag_counts(),
                e@.1,
            ),
    {
        let ghost before = self.entries@;
        match self.entries.pop() {
            Some(e) => {
                proof {
                    assert(self.entries@ =~= before.drop_last());
                    assert(self.entries_view() =~= before.map_values(|e: JrnEntry| e@).drop_last());
                    assert(e@ == before.map_values(|e: JrnEntry| e@).last());
                    assert forall|a: int, b: int|
                        0 <= a < b < self.entries_view().len() implies !entry_lt(
                        #[trigger] self.entries_view()[b],
                        #[trigger] self.entries_view()[a],
                    ) by {
                        assert(self.entries_view()[a] == old(self).entries_view()[a]);
                        assert(self.entries_view()[b] == old(self).entries_view()[b]);
                    }
                    assert forall|i: int| 0 <= i < self.entries@.len() implies (#[trigger] self.entries@[i]).reads_back(
                        &self.config,
                    ) && self.entries@[i].creation_time.wf() by {
                        assert(self.entries@[i] == before[i]);
                    }
                }
                let ghost m0 = self.tags@;
                let ghost es = old(self).entries_view();
                self.uncount_tags(&e.tags);
                proof {
                    assert(es.drop_last() =~= self.entries_view());
                    assert forall|t: Seq<char>|
                        count_of(self.tags@, t) == tally(self.entries_view(), t) && tally(
                            self.entries_view(),
                            t,
                        ) <= u16::MAX as nat by {
                        assert(count_of(m0, t) == tally(es, t));
                        lemma_unbump_all_at(m0, e@.1, t);
                    }
                    assert forall|t: Seq<char>| #[trigger] self.tags@.contains_key(t) implies self.tags@[t]
                        > 0 by {
                        assert(count_of(m0, t) == tally(es, t));
                        lemma_unbump_all_at(m0, e@.1, t);
                    }
                }
                Some(e)
            },
            None => None,
        }
    }

    /// Puts `entry` in the place of the newest entry: the newest is
    /// forgotten and its tags uncounted, then `entry` is recorded.
    pub fn replace_latest(&mut self, entry: JrnEntry)
        requires
            old(self).wf(),
            old(self).entries_view().len() > 0,
            entry.reads_back(&old(self).settings()),
            entry.creation_time.wf(),
            room_for(old(self).entries_view().drop_last(), entry@.1),
        ensures
            final(self).wf(),
            final(self).settings() == old(self).settings(),
            final(self).ignore_patterns() == old(self).ignore_patterns(),
            exists|j: int|
                0 <= j < old(self).entries_view().len() && final(self).entries_view() == old(
                    self,
                ).entries_view().drop_last().insert(j, entry@),
            final(self).tag_counts() == bump_all(
                unbump_all(old(self).tag_counts(), old(self).entries_view().last().1),
                entry@.1,
            ),
    {
        let removed = self.remove_latest();
        self.add_entry(entry);
    }

    /// The recorded tags that `pattern` matches somewhere, each with its
    /// count, by descending count and then ascending tag.
    pub fn list_tags(&self, pattern: &str) -> (r: Result<Vec<CountAndTag>, JrnError>)
        requires
            self.wf(),
        ensures
            r is Ok <==> regex_compiles(pattern@),
            r matches Err(e) ==> e is InvalidRegex,
            r matches Ok(v) ==> forall|i: int|
                0 <= i < v@.len() ==> self.tag_counts().contains_key(#[trigger] v@[i].1@)
                    && self.tag_counts()[v@[i].1@] == v@[i].0 as nat && regex_is_match(
                    pattern@,
                    v@[i].1@,
                ),
            r matches Ok(v) ==> forall|k: Seq<char>|
                self.tag_counts().contains_key(k) && regex_is_match(pattern@, k) ==> #[trigger] is_listed(
                    v@,
                    k,
                ),
            r matches Ok(v) ==> forall|i: int, j: int|
                0 <= i < j < v@.len() ==> ranks_before(item(#[trigger] v@[i]), item(#[trigger] v@[j])),
    {
        match Pattern::compile(pattern) {
            Some(p) => {
                let v = self.tags.sorted_matching(&p);
                proof {
                    assert(self.tag_counts() == self.tags@);
                    assert(p.source() == pattern@);
                    assert forall|k: Seq<char>|
                        self.tag_counts().contains_key(k) && regex_is_match(pattern@, k)
                            implies #[trigger] is_listed(v@, k) by {
                        assert(self.tags@.contains_key(k));
                    }
                    assert forall|i: int| 0 <= i < v@.len() implies self.tag_counts().contains_key(
                        #[trigger] v@[i].1@,
                    ) && self.tag_counts()[v@[i].1@] == v@[i].0 as nat && regex_is_match(pattern@, v@[i].1@) by {
                        assert(self.tags@.contains_key(v@[i].1@));
                    }
                }
                Ok(v)
            },
            None => Err(JrnError::InvalidRegex),
        }
    }

    /// The indices of the entries whose file name `pattern` matches, in
    /// entry order; with `most_recent`, only the last that many of them.
    pub fn list_entries(&self, pattern: &str, most_recent: Option<usize>) -> (r: Result<Vec<usize>, JrnError>)
        requires
            self.wf(),
        ensures
            r is Ok <==> crate::pattern::regex_compiles(pattern@),
            r matches Err(e) ==> e is InvalidRegex,
            r matches Ok(v) ==> v@.map_values(|i: usize| i as int) == keep_last(
                matching_indices(self.entries_view(), pattern@),
                most_recent,
            ),
    {
        let filter = match crate::entry::JrnEntryFilter::from_pattern(pattern) {
            Ok(f) => f,
            Err(e) => {
                return Err(e);
            },
        };
        let ghost es = self.entries_view();
        let mut found: Vec<usize> = Vec::new();
        let mut i: usize = 0;
        proof {
            assert(es.take(0) =~= Seq::<EntryView>::empty());
            assert(found@.map_values(|i: usize| i as int) =~= Seq::<int>::empty());
        }
        while i < self.entries.len()
            invariant
                es == self.entries_view(),
                filter.pattern() == pattern@,
                i <= self.entries@.len(),
                found@.map_values(|k: usize| k as int) == matching_indices(es.take(i as int), pattern@),
            decreases self.entries@.len() - i,
        {
            proof {
                assert(es.take(i + 1).drop_last() =~= es.take(i as int));
                assert(es.take(i + 1).last() == self.entries@[i as int]@);
            }
            if filter.matches(&self.entries[i]) {
                let ghost before = found@;
                found.push(i);
                proof {
                    assert(found@.map_values(|k: usize| k as int) =~= before.map_values(|k: usize| k as int).push(
                        i as int,
                    ));
                }
            }
            i = i + 1;
        }
        proof {
            assert(es.take(es.len() as int) =~= es);
        }
        let ghost all = found@.map_values(|k: usize| k as int);
        match most_recent {
            Some(k) => {
                if k < found.len() {
                    let skip = found.len() - k;
                    let mut kept: Vec<usize> = Vec::new();
                    let mut m: usize = skip;
                    proof {
                        assert(kept@.map_values(|x: usize| x as int) =~= all.subrange(skip as int, skip as int));
                    }
                    while m < found.len()
                        invariant
                            skip <= m <= found@.len(),
                            all == found@.map_values(|x: usize| x as int),
                            kept@.map_values(|x: usize| x as int) == all.subrange(skip as int, m as int),
                        decreases found@.len() - m,
                    {
                        let ghost before = kept@;
                        kept.push(found[m]);
                        proof {
                            assert(all[m as int] == found@[m as int] as int);
                            assert(kept@.map_values(|x: usize| x as int) =~= before.map_values(|x: usize| x as int).push(all[m as int]));
                            assert(kept@.map_values(|x: usize| x as int) =~= all.subrange(skip as int, m + 1));
                        }
                        m = m + 1;
                    }
                    proof {
                        assert(all.subrange(skip as int, found@.len() as int) =~= all.skip(skip as int));
                    }
                    Ok(kept)
                } else {
                    Ok(found)
                }
            },
            None => Ok(found),
        }
    }
}

/// Whether some item of `v` carries `tag`.
pub open spec fn is_listed(v: Seq<CountAndTag>, tag: Seq<char>) -> bool {
    exists|i: int| 0 <= i < v.len() && v[i].1@ == tag
}

/// The indices of the entries whose file name `pattern` matches, in order.
pub open spec fn matching_indices(es: Seq<EntryView>, pattern: Seq<char>) -> Seq<int>
    decreases es.len(),
{
    if es.len() == 0 {
        Seq::empty()
    } else {
        let prev = matching_indices(es.drop_last(), pattern);
        if file_name(es.last().2) matches Some(n) && crate::pattern::regex_is_match(pattern, n) {
            prev.push(es.len() - 1)
        } else {
            prev
        }
    }
}

/// The last `n` items of `s`, or all of them if there are no more.
pub open spec fn keep_last(s: Seq<int>, n: Option<usize>) -> Seq<int> {
    match n {
        Some(k) => if k < s.len() {
            s.skip(s.len() - k)
        } else {
            s
        },
        None => s,
    }
}

} // verus!
