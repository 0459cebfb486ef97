use vstd::prelude::*;

use crate::codec::decode;
use crate::error::JrnError;
use crate::order::{
    lemma_tags_lt_asymmetric, lemma_tags_lt_transitive, lemma_text_lt_asymmetric,
    lemma_text_lt_transitive, tags_lt, text_less, text_lt,
};
use crate::path::{file_name, file_name_of};
use crate::pattern::{regex_compiles, regex_is_match, Pattern};
use crate::settings::Settings;
use crate::text::views;
use crate::time::TimeStamp;

verus! {

/// A journal entry: when it was made, its tags, and the file that holds it.
#[derive(Debug)]
pub struct JrnEntry {
    pub creation_time: TimeStamp,
    pub tags: Vec<String>,
    pub file_path: String,
}

pub type EntryView = (TimeStamp, Seq<Seq<char>>, Seq<char>);

impl View for JrnEntry {
    type V = EntryView;

    open spec fn view(&self) -> EntryView {
        (self.creation_time, views(self.tags@), self.file_path@)
    }
}

/// The time stamp and tags that the file name of `path` writes under
/// `config`, if it has a file name and that is an entry's.
pub open spec fn decoded_path(path: Seq<char>, config: &Settings) -> Option<(TimeStamp, Seq<Seq<char>>)> {
    match file_name(path) {
        Some(n) => decode(n, config.tag_start(), config.tag_deliminator()),
        None => None,
    }
}

/// Chronological order of time stamps.
pub open spec fn time_lt(a: TimeStamp, b: TimeStamp) -> bool {
    a.year < b.year || (a.year == b.year && (a.month < b.month || (a.month == b.month && (a.day
        < b.day || (a.day == b.day && (a.hour < b.hour || (a.hour == b.hour && a.minute
        < b.minute)))))))
}

/// The order of entries: by time stamp, then tags, then path.
pub open spec fn entry_lt(a: EntryView, b: EntryView) -> bool {
    time_lt(a.0, b.0) || (a.0 == b.0 && (tags_lt(a.1, b.1) || (a.1 == b.1 && text_lt(a.2, b.2))))
}

pub proof fn lemma_entry_lt_asymmetric(a: EntryView, b: EntryView)
    requires
        entry_lt(a, b),
    ensures
        !entry_lt(b, a),
{
    if a.0 == b.0 {
        if tags_lt(a.1, b.1) {
            lemma_tags_lt_asymmetric(a.1, b.1);
        } else {
            lemma_text_lt_asymmetric(a.2, b.2);
        }
    }
}

pub proof fn lemma_entry_lt_transitive(a: EntryView, b: EntryView, c: EntryView)
    requires
        entry_lt(a, b),
        entry_lt(b, c),
    ensures
        entry_lt(a, c),
{
    if a.0 == b.0 && b.0 == c.0 {
        if tags_lt(a.1, b.1) && tags_lt(b.1, c.1) {
            lemma_tags_lt_transitive(a.1, b.1, c.1);
        } else if tags_lt(a.1, b.1) {
        } else if tags_lt(b.1, c.1) {
        } else {
            lemma_text_lt_transitive(a.2, b.2, c.2);
        }
        if a.1 == c.1 && tags_lt(a.1, b.1) {
            lemma_tags_lt_asymmetric(a.1, b.1);
        }
    }
}

/// No entry comes before one that precedes it.
pub open spec fn sorted_entries(es: Seq<EntryView>) -> bool {
    forall|i: int, j: int| 0 <= i < j < es.len() ==> !entry_lt(#[trigger] es[j], #[trigger] es[i])
}

fn time_less(a: &TimeStamp, b: &TimeStamp) -> (r: bool)
    ensures
        r == time_lt(*a, *b),
{
    a.year < b.year || (a.year == b.year && (a.month < b.month || (a.month == b.month && (a.day
        < b.day || (a.day == b.day && (a.hour < b.hour || (a.hour == b.hour && a.minute
        < b.minute)))))))
}

/// Whether two tag lists are the same, tag by tag.
pub fn same_tags(a: &Vec<String>, b: &Vec<String>) -> (r: bool)
    ensures
        r == (views(a@) == views(b@)),
{
    if a.len() != b.len() {
        proof {
            assert(views(a@).len() != views(b@).len());
        }
        return false;
    }
    let mut i: usize = 0;
    while i < a.len()
        invariant
            a@.len() == b@.len(),
            i <= a@.len(),
            forall|k: int| 0 <= k < i ==> a@[k]@ == b@[k]@,
        decreases a@.len() - i,
    {
        if a[i] != b[i] {
            proof {
                assert(views(a@)[i as int] != views(b@)[i as int]);
            }
            return false;
        }
        i = i + 1;
    }
    proof {
        assert(views(a@) =~= views(b@));
    }
    true
}

fn tags_less(a: &Vec<String>, b: &Vec<String>) -> (r: bool)
    ensures
        r == tags_lt(views(a@), views(b@)),
{
    let ghost va = views(a@);
    let ghost vb = views(b@);
    let mut i: usize = 0;
    proof {
        assert(va.skip(0) =~= va);
        assert(vb.skip(0) =~= vb);
    }
    while i < a.len() && i < b.len()
        invariant
            va == views(a@),
            vb == views(b@),
            i <= a@.len(),
            i <= b@.len(),
            tags_lt(va, vb) == tags_lt(va.skip(i as int), vb.skip(i as int)),
        decreases a@.len() - i,
    {
        proof {
            assert(va.skip(i as int)[0] == a@[i as int]@);
            assert(vb.skip(i as int)[0] == b@[i as int]@);
        }
        if a[i] != b[i] {
            return text_less(a[i].as_str(), b[i].as_str());
        }
        proof {
            assert(va.skip(i as int).drop_first() =~= va.skip(i + 1));
            assert(vb.skip(i as int).drop_first() =~= vb.skip(i + 1));
        }
        i = i + 1;
    }
    i < b.len() && i == a.len()
}

/// Whether entry `a` comes before entry `b`.
pub fn entry_less(a: &JrnEntry, b: &JrnEntry) -> (r: bool)
    ensures
        r == entry_lt(a@, b@),
{
    if time_less(&a.creation_time, &b.creation_time) {
        return true;
    }
    if a.creation_time != b.creation_time {
        return false;
    }
    if tags_less(&a.tags, &b.tags) {
        return true;
    }
    if !same_tags(&a.tags, &b.tags) {
        return false;
    }
    text_less(a.file_path.as_str(), b.file_path.as_str())
}

impl JrnEntry {
    /// Whether the entry's file name, read under `config`, gives back its
    /// time stamp and tags.
    pub open spec fn reads_back(&self, config: &Settings) -> bool {
        decoded_path(self.file_path@, config) == Some((self.creation_time, views(self.tags@)))
    }

    /// The entry that the file at `path` holds, if its name is an entry's
    /// under `config`.
    pub fn read_entry(path: &str, config: &Settings) -> (r: Option<Self>)
        ensures
            r is Some <==> decoded_path(path@, config) is Some,
            r matches Some(e) ==> e.file_path@ == path@ && e.reads_back(config) && e.creation_time.wf(),
    {
        let name = match file_name_of(path) {
            Some(n) => n,
            None => {
                return None;
            },
        };
        match config.read_file_name(name) {
            Some((creation_time, tags)) => {
                proof {
                    crate::time::lemma_parse_stamp_wf(name@.take(15));
                }
                Some(JrnEntry { creation_time, tags, file_path: String::from_str(path) })
            },
            None => None,
        }
    }

    pub fn file_path_str(&self) -> (r: &str)
        ensures
            r@ == self.file_path@,
    {
        self.file_path.as_str()
    }

    /// The file name of the entry's path.
    pub fn file_name(&self) -> (r: Option<&str>)
        ensures
            r is Some <==> file_name(self.file_path@) is Some,
            r matches Some(n) ==> file_name(self.file_path@) == Some(n@),
    {
        file_name_of(self.file_path.as_str())
    }
}

/// A filter on entries: a regular expression that must match somewhere in
/// an entry's file name.
pub struct JrnEntryFilter {
    pattern: Pattern,
}

impl JrnEntryFilter {
    pub closed spec fn pattern(&self) -> Seq<char> {
        self.pattern.source()
    }

    pub fn from_pattern(re: &str) -> (r: Result<Self, JrnError>)
        ensures
            r is Ok <==> regex_compiles(re@),
            r matches Ok(f) ==> f.pattern() == re@,
            r matches Err(e) ==> e is InvalidRegex,
    {
        match Pattern::compile(re) {
            Some(pattern) => Ok(JrnEntryFilter { pattern }),
            None => Err(JrnError::InvalidRegex),
        }
    }

    pub fn matches(&self, entry: &JrnEntry) -> (r: bool)
        ensures
            r == (file_name(entry.file_path@) matches Some(n) && regex_is_match(self.pattern(), n)),
    {
        match entry.file_name() {
            Some(n) => self.pattern.is_match(n),
            None => false,
        }
    }
}

} // verus!
