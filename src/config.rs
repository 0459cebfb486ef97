use vstd::prelude::*;

use crate::text::{split_tokens, tokens, views, Separator};

verus! {

/// Where a setting comes from, from farthest to nearest: nearer scopes
/// override farther ones.
#[derive(Debug, Clone, Copy, PartialEq, Eq, PartialOrd, Ord, Hash, Structural)]
pub enum ConfigScope {
    Default,
    System,
    User,
    Local,
}

/// The closed set of keys of a configuration file.
#[derive(Debug, Clone, Copy, PartialEq, Eq, Hash, Structural)]
pub enum ConfigKey {
    /// `core.editor`: the editor command.
    CoreEditor,
    /// `core.editor.args`: the editor's arguments, as one text.
    EditorArgs,
    /// `tag.start`: the character between time stamp and tags.
    TagStart,
    /// `tag.deliminator`: the character between two tags.
    TagDeliminator,
    /// `tag.local`: tags given to every new entry; each scope adds its own.
    LocalTags,
}

/// Why a line of a configuration file is not a setting.
#[derive(Debug)]
pub enum ConfigParseError {
    NoDeliminator,
    UnknownMeaning(String),
}

/// A setting as a file states it: a key and, unless the value was left
/// empty, a value.
#[derive(Debug, PartialEq)]
pub struct NaiveConfigEntry {
    pub key: ConfigKey,
    pub value: Option<String>,
}

/// The settings of one configuration file, in file order.
#[derive(Debug)]
pub struct NaiveConfig {
    pub inner: Vec<NaiveConfigEntry>,
}

/// A setting together with the scope that states it.
#[derive(Debug)]
pub struct ScopedConfigEntry {
    pub scope: ConfigScope,
    pub key: ConfigKey,
    pub value: Option<String>,
}

/// All settings of all scopes, farthest scope first.
#[derive(Debug)]
pub struct Config {
    inner: Vec<ScopedConfigEntry>,
}

pub type SettingView = (ConfigKey, Option<Seq<char>>);

pub type ScopedView = (ConfigScope, ConfigKey, Option<Seq<char>>);

pub open spec fn value_view(v: Option<String>) -> Option<Seq<char>> {
    match v {
        Some(s) => Some(s@),
        None => None,
    }
}

impl View for NaiveConfigEntry {
    type V = SettingView;

    open spec fn view(&self) -> SettingView {
        (self.key, value_view(self.value))
    }
}

impl View for ScopedConfigEntry {
    type V = ScopedView;

    open spec fn view(&self) -> ScopedView {
        (self.scope, self.key, value_view(self.value))
    }
}

impl View for NaiveConfig {
    type V = Seq<SettingView>;

    open spec fn view(&self) -> Seq<SettingView> {
        self.inner@.map_values(|e: NaiveConfigEntry| e@)
    }
}

impl View for Config {
    type V = Seq<ScopedView>;

    closed spec fn view(&self) -> Seq<ScopedView> {
        self.inner@.map_values(|e: ScopedConfigEntry| e@)
    }
}

impl ConfigScope {
    /// Position from farthest (0) to nearest (3).
    pub open spec fn rank(self) -> int {
        match self {
            ConfigScope::Default => 0,
            ConfigScope::System => 1,
            ConfigScope::User => 2,
            ConfigScope::Local => 3,
        }
    }

    pub fn level(&self) -> (r: u8)
        ensures
            r as int == self.rank(),
    {
        match self {
            ConfigScope::Default => 0,
            ConfigScope::System => 1,
            ConfigScope::User => 2,
            ConfigScope::Local => 3,
        }
    }

    /// The settings of this scope: the compiled-in defaults for `Default`;
    /// for the other scopes those of the file's `content`, if it could be
    /// read.
    pub fn get_config(self, content: Option<&str>) -> (r: Option<Config>)
        ensures
            self == ConfigScope::Default ==> r is Some && r->0@ == default_settings(),
            self != ConfigScope::Default ==> (r is Some <==> content is Some),
            self != ConfigScope::Default ==> (content matches Some(c) ==> r->0@ == scoped(
                parse_config(c@),
                self,
            )),
    {
        match self {
            ConfigScope::Default => Some(Config::default()),
            _ => match content {
                Some(c) => Some(NaiveConfig::parse(c).into_scoped(self)),
                None => None,
            },
        }
    }
}

pub open spec fn key_named(s: Seq<char>) -> Option<ConfigKey> {
    if s == "core.editor"@ {
        Some(ConfigKey::CoreEditor)
    } else if s == "core.editor.args"@ {
        Some(ConfigKey::EditorArgs)
    } else if s == "tag.start"@ {
        Some(ConfigKey::TagStart)
    } else if s == "tag.deliminator"@ {
        Some(ConfigKey::TagDeliminator)
    } else if s == "tag.local"@ {
        Some(ConfigKey::LocalTags)
    } else {
        None
    }
}

/// The characters of the Unicode White_Space property.
pub open spec fn is_white_space(c: char) -> bool {
    ('\u{9}' <= c <= '\u{d}') || c == ' ' || c == '\u{85}' || c == '\u{a0}' || c == '\u{1680}'
        || ('\u{2000}' <= c <= '\u{200a}') || c == '\u{2028}' || c == '\u{2029}' || c == '\u{202f}'
        || c == '\u{205f}' || c == '\u{3000}'
}

pub open spec fn trim_start(s: Seq<char>) -> Seq<char>
    decreases s.len(),
{
    if s.len() > 0 && is_white_space(s[0]) {
        trim_start(s.drop_first())
    } else {
        s
    }
}

pub open spec fn trim_end(s: Seq<char>) -> Seq<char>
    decreases s.len(),
{
    if s.len() > 0 && is_white_space(s.last()) {
        trim_end(s.drop_last())
    } else {
        s
    }
}

/// The text of `s` without leading and trailing white space.
pub open spec fn trimmed(s: Seq<char>) -> Seq<char> {
    trim_end(trim_start(s))
}

/// Relies on str::trim: the text without the leading and trailing
/// characters of the Unicode White_Space property, as its documentation
/// states.
#[verifier::external_body]
pub(crate) fn trim(s: &str) -> (r: &str)
    ensures
        r@ == trimmed(s@),
{
    s.trim()
}

fn has_text(v: &Option<String>) -> (r: bool)
    ensures
        r == (value_view(*v) is Some && value_view(*v)->0.len() > 0),
{
    match v {
        Some(s) => s.as_str().unicode_len() > 0,
        None => false,
    }
}

pub(crate) fn same_text(a: &str, b: &str) -> (r: bool)
    ensures
        r == (a@ == b@),
{
    String::from_str(a) == String::from_str(b)
}

/// The text that names a key in a configuration file.
pub open spec fn key_text(k: ConfigKey) -> Seq<char> {
    match k {
        ConfigKey::CoreEditor => "core.editor"@,
        ConfigKey::EditorArgs => "core.editor.args"@,
        ConfigKey::TagStart => "tag.start"@,
        ConfigKey::TagDeliminator => "tag.deliminator"@,
        ConfigKey::LocalTags => "tag.local"@,
    }
}

/// Each key's name reads back as that key.
pub proof fn lemma_key_name_round_trip(k: ConfigKey)
    ensures
        key_named(key_text(k)) == Some(k),
{
    reveal_strlit("core.editor");
    reveal_strlit("core.editor.args");
    reveal_strlit("tag.start");
    reveal_strlit("tag.deliminator");
    reveal_strlit("tag.local");
    let e = "core.editor"@;
    let a = "core.editor.args"@;
    let st = "tag.start"@;
    let d = "tag.deliminator"@;
    let l = "tag.local"@;
    assert(e.len() == 11 && a.len() == 16 && st.len() == 9 && d.len() == 15 && l.len() == 9);
    assert(st[4] == 's' && l[4] == 'l');
    assert(a != e);
    assert(st != e && st != a);
    assert(d != e && d != a && d != st);
    assert(l != e && l != a && l != st && l != d);
}

impl ConfigKey {
    /// The text that names this key in a configuration file.
    pub fn name(&self) -> (r: &'static str)
        ensures
            r@ == key_text(*self),
    {
        match self {
            ConfigKey::CoreEditor => "core.editor",
            ConfigKey::EditorArgs => "core.editor.args",
            ConfigKey::TagStart => "tag.start",
            ConfigKey::TagDeliminator => "tag.deliminator",
            ConfigKey::LocalTags => "tag.local",
        }
    }

    /// The key that a (trimmed) key text names.
    pub fn from_name(s: &str) -> (r: Option<ConfigKey>)
        ensures
            r == key_named(s@),
    {
        if same_text(s, "core.editor") {
            Some(ConfigKey::CoreEditor)
        } else if same_text(s, "core.editor.args") {
            Some(ConfigKey::EditorArgs)
        } else if same_text(s, "tag.start") {
            Some(ConfigKey::TagStart)
        } else if same_text(s, "tag.deliminator") {
            Some(ConfigKey::TagDeliminator)
        } else if same_text(s, "tag.local") {
            Some(ConfigKey::LocalTags)
        } else {
            None
        }
    }
}

pub open spec fn first_equals_at(l: Seq<char>, i: int) -> bool {
    0 <= i < l.len() && l[i] == '=' && forall|j: int| 0 <= j < i ==> l[j] != '='
}

/// The setting that one line states: a known key before its first `=`, the
/// value after it, both trimmed; an empty value states no value.
pub open spec fn parse_line(l: Seq<char>) -> Option<SettingView> {
    if exists|i: int| first_equals_at(l, i) {
        let i = choose|i: int| first_equals_at(l, i);
        match key_named(trimmed(l.take(i))) {
            Some(k) => Some(
                (
                    k,
                    if trimmed(l.skip(i + 1)).len() == 0 {
                        None
                    } else {
                        Some(trimmed(l.skip(i + 1)))
                    },
                ),
            ),
            None => None,
        }
    } else {
        None
    }
}

/// The settings that the non-empty lines of a file state, in order; lines
/// that state none are skipped.
pub open spec fn parse_config(s: Seq<char>) -> Seq<SettingView> {
    tokens(s, Separator::Char('\n')).filter_map(|l: Seq<char>| parse_line(l))
}

pub open spec fn scoped(settings: Seq<SettingView>, scope: ConfigScope) -> Seq<ScopedView> {
    settings.map_values(|e: SettingView| (scope, e.0, e.1))
}

/// The compiled-in defaults.
pub open spec fn default_settings() -> Seq<ScopedView> {
    seq![
        (ConfigScope::Default, ConfigKey::CoreEditor, Some("vim"@)),
        (ConfigScope::Default, ConfigKey::EditorArgs, Some("+star"@)),
        (ConfigScope::Default, ConfigKey::TagStart, Some("-"@)),
        (ConfigScope::Default, ConfigKey::TagDeliminator, Some("_"@)),
    ]
}

/// Whether an entry gives `key` a value: an empty value counts as unset.
pub open spec fn defines(e: ScopedView, key: ConfigKey) -> bool {
    e.1 == key && e.2 is Some && e.2->0.len() > 0
}

/// The entry that decides the value of `key`: one that gives it a value,
/// of the nearest such scope, the last of them within that scope.
pub open spec fn deciding_entry(s: Seq<ScopedView>, key: ConfigKey) -> Option<int>
    decreases s.len(),
{
    if s.len() == 0 {
        None
    } else {
        let prev = deciding_entry(s.drop_last(), key);
        if defines(s.last(), key) && (prev is None || s[prev->0].0.rank() <= s.last().0.rank()) {
            Some(s.len() - 1)
        } else {
            prev
        }
    }
}

/// The effective value of `key`.
pub open spec fn effective_value(s: Seq<ScopedView>, key: ConfigKey) -> Option<Seq<char>> {
    match deciding_entry(s, key) {
        Some(i) => s[i].2,
        None => None,
    }
}

/// The effective value of `key`, or `fallback` where no scope gives one.
pub open spec fn effective_or(s: Seq<ScopedView>, key: ConfigKey, fallback: Seq<char>) -> Seq<char> {
    match effective_value(s, key) {
        Some(v) => v,
        None => fallback,
    }
}

/// The tags that all scopes configure for new entries, farthest scope
/// first: each value split into its tokens. Duplicates are kept on
/// purpose: a tag configured by two scopes is given twice, so every scope's
/// list shows in the file name as that scope wrote it.
pub open spec fn configured_tags(s: Seq<ScopedView>) -> Seq<Seq<char>>
    decreases s.len(),
{
    if s.len() == 0 {
        Seq::empty()
    } else {
        configured_tags(s.drop_last()) + if defines(s.last(), ConfigKey::LocalTags) {
            tokens(s.last().2->0, Separator::Deliminators)
        } else {
            Seq::empty()
        }
    }
}

/// Scope precedence: a key has an effective value exactly when some scope
/// gives it one, and that value is given by an entry of the nearest scope
/// that gives one: no entry of a nearer scope defines the key.
pub proof fn lemma_nearest_scope_wins(s: Seq<ScopedView>, key: ConfigKey)
    ensures
        effective_value(s, key) is None <==> forall|j: int| 0 <= j < s.len() ==> !defines(s[j], key),
        effective_value(s, key) matches Some(v) ==> exists|i: int|
            0 <= i < s.len() && defines(s[i], key) && s[i].2 == Some(v) && forall|j: int|
                0 <= j < s.len() && defines(s[j], key) ==> s[j].0.rank() <= s[i].0.rank(),
    decreases s.len(),
{
    lemma_deciding_entry(s, key);
}

proof fn lemma_deciding_entry(s: Seq<ScopedView>, key: ConfigKey)
    ensures
        deciding_entry(s, key) is None <==> forall|j: int| 0 <= j < s.len() ==> !defines(s[j], key),
        deciding_entry(s, key) matches Some(i) ==> 0 <= i < s.len() && defines(s[i], key) && forall|j: int|
            0 <= j < s.len() && defines(s[j], key) ==> s[j].0.rank() <= s[i].0.rank(),
    decreases s.len(),
{
    if s.len() > 0 {
        let init = s.drop_last();
        lemma_deciding_entry(init, key);
        assert forall|j: int| 0 <= j < init.len() implies init[j] == s[j] by {}
        if deciding_entry(s, key) is None {
            assert forall|j: int| 0 <= j < s.len() implies !defines(s[j], key) by {
                if j < s.len() - 1 {
                    assert(init[j] == s[j]);
                }
            }
        }
    }
}

impl NaiveConfigEntry {
    pub fn new(key: ConfigKey, value: Option<&str>) -> (r: Self)
        ensures
            r.key == key,
            value_view(r.value) == match value {
                Some(v) => Some(v@),
                None => None,
            },
    {
        NaiveConfigEntry {
            key,
            value: match value {
                Some(v) => Some(String::from_str(v)),
                None => None,
            },
        }
    }

    /// The setting that one line of a configuration file states.
    pub fn parse(line: &str) -> (r: Result<NaiveConfigEntry, ConfigParseError>)
        ensures
            r is Ok <==> parse_line(line@) is Some,
            r matches Ok(e) ==> parse_line(line@) == Some(e@),
    {
        let n = line.unicode_len();
        let mut i: usize = 0;
        while i < n && line.get_char(i) != '='
            invariant
                n == line@.len(),
                i <= n,
                forall|j: int| 0 <= j < i ==> line@[j] != '=',
            decreases n - i,
        {
            i = i + 1;
        }
        if i == n {
            proof {
                assert forall|k: int| !first_equals_at(line@, k) by {}
            }
            return Err(ConfigParseError::NoDeliminator);
        }
        proof {
            assert(first_equals_at(line@, i as int));
            let c = choose|c: int| first_equals_at(line@, c);
            if c < i {
                assert(line@[c] != '=');
            }
            if c > i {
                assert(line@[i as int] != '=');
            }
            assert(c == i);
        }
        let head = line.substring_char(0, i);
        proof {
            assert(head@ =~= line@.take(i as int));
        }
        let key_text = trim(head);
        match ConfigKey::from_name(key_text) {
            None => Err(ConfigParseError::UnknownMeaning(String::from_str(key_text))),
            Some(key) => {
                let v = trim(line.substring_char(i + 1, n));
                proof {
                    assert(line@.subrange(i + 1, n as int) =~= line@.skip(i + 1));
                }
                let value = if v.unicode_len() == 0 {
                    None
                } else {
                    Some(String::from_str(v))
                };
                Ok(NaiveConfigEntry { key, value })
            },
        }
    }
}

impl NaiveConfig {
    /// The settings that the lines of a configuration file state; lines
    /// that state none are skipped.
    pub fn parse(s: &str) -> (r: NaiveConfig)
        ensures
            r@ == parse_config(s@),
    {
        let lines = split_tokens(s, Separator::Char('\n'));
        let ghost ls = views(lines@);
        let mut inner: Vec<NaiveConfigEntry> = Vec::new();
        let mut i: usize = 0;
        proof {
            assert(ls.take(0) =~= Seq::<Seq<char>>::empty());
            assert(inner@.map_values(|e: NaiveConfigEntry| e@) =~= Seq::<SettingView>::empty());
        }
        while i < lines.len()
            invariant
                i <= lines@.len(),
                ls == views(lines@),
                inner@.map_values(|e: NaiveConfigEntry| e@) == ls.take(i as int).filter_map(
                    |l: Seq<char>| parse_line(l),
                ),
            decreases lines@.len() - i,
        {
            proof {
                assert(ls.take(i + 1).drop_last() =~= ls.take(i as int));
                assert(ls.take(i + 1).last() == lines@[i as int]@);
            }
            match NaiveConfigEntry::parse(lines[i].as_str()) {
                Ok(e) => {
                    proof {
                        assert(inner@.push(e).map_values(|e: NaiveConfigEntry| e@) =~= inner@.map_values(
                            |e: NaiveConfigEntry| e@,
                        ) + seq![e@]);
                    }
                    inner.push(e);
                },
                Err(_) => {},
            }
            i = i + 1;
        }
        proof {
            assert(ls.take(lines@.len() as int) =~= ls);
        }
        NaiveConfig { inner }
    }

    /// These settings, as stated by `scope`.
    pub fn into_scoped(self, scope: ConfigScope) -> (r: Config)
        ensures
            r@ == scoped(self@, scope),
    {
        let ghost all = self@;
        let mut inner: Vec<ScopedConfigEntry> = Vec::new();
        let mut i: usize = 0;
        proof {
            assert(inner@.map_values(|e: ScopedConfigEntry| e@) =~= scoped(all.take(0), scope));
        }
        while i < self.inner.len()
            invariant
                all == self@,
                i <= self.inner@.len(),
                inner@.map_values(|e: ScopedConfigEntry| e@) == scoped(all.take(i as int), scope),
            decreases self.inner@.len() - i,
        {
            let e = &self.inner[i];
            let value = match &e.value {
                Some(v) => Some(v.clone()),
                None => None,
            };
            proof {
                assert(value_view(value) == value_view(e.value));
            }
            let ghost prev = inner@;
            inner.push(ScopedConfigEntry { scope, key: e.key, value });
            proof {
                assert(all[i as int] == e@);
                assert(inner@ == prev.push(inner@.last()));
                assert(inner@.map_values(|e: ScopedConfigEntry| e@) =~= prev.map_values(
                    |e: ScopedConfigEntry| e@,
                ).push((scope, e.key, value_view(e.value))));
                assert(all.take(i + 1) =~= all.take(i as int).push(all[i as int]));
                assert(inner@.map_values(|e: ScopedConfigEntry| e@) =~= scoped(all.take(i + 1), scope));
            }
            i = i + 1;
        }
        proof {
            assert(all.take(all.len() as int) =~= all);
        }
        Config { inner }
    }
}

impl std::str::FromStr for NaiveConfig {
    type Err = ConfigParseError;

    fn from_str(s: &str) -> Result<Self, Self::Err> {
        Ok(NaiveConfig::parse(s))
    }
}

impl Default for Config {
    fn default() -> (r: Config)
        ensures
            r@ == default_settings(),
    {
        let mut inner: Vec<ScopedConfigEntry> = Vec::new();
        inner.push(default_entry(ConfigKey::CoreEditor, "vim"));
        inner.push(default_entry(ConfigKey::EditorArgs, "+star"));
        inner.push(default_entry(ConfigKey::TagStart, "-"));
        inner.push(default_entry(ConfigKey::TagDeliminator, "_"));
        let r = Config { inner };
        proof {
            assert(r@ =~= default_settings());
        }
        r
    }
}

fn default_entry(key: ConfigKey, value: &str) -> (r: ScopedConfigEntry)
    ensures
        r@ == (ConfigScope::Default, key, Some(value@)),
{
    ScopedConfigEntry { scope: ConfigScope::Default, key, value: Some(String::from_str(value)) }
}

pub open spec fn read_scope(content: Option<&str>, scope: ConfigScope) -> Seq<ScopedView> {
    match content {
        Some(c) => scoped(parse_config(c@), scope),
        None => Seq::empty(),
    }
}

impl Config {
    /// The settings of all scopes: the compiled-in defaults, then the
    /// contents of the system, user and local configuration files that
    /// could be read. Never fails.
    pub fn find_or_default(system: Option<&str>, user: Option<&str>, local: Option<&str>) -> (r: Config)
        ensures
            r@ == default_settings() + read_scope(system, ConfigScope::System) + read_scope(
                user,
                ConfigScope::User,
            ) + read_scope(local, ConfigScope::Local),
    {
        let mut result = Config::default();
        let found = [
            (ConfigScope::System, system),
            (ConfigScope::User, user),
            (ConfigScope::Local, local),
        ];
        let mut i: usize = 0;
        while i < 3
            invariant
                i <= 3,
                found@ == seq![
                    (ConfigScope::System, system),
                    (ConfigScope::User, user),
                    (ConfigScope::Local, local),
                ],
                i == 0 ==> result@ == default_settings(),
                i == 1 ==> result@ == default_settings() + read_scope(system, ConfigScope::System),
                i == 2 ==> result@ == default_settings() + read_scope(system, ConfigScope::System)
                    + read_scope(user, ConfigScope::User),
                i == 3 ==> result@ == default_settings() + read_scope(system, ConfigScope::System)
                    + read_scope(user, ConfigScope::User) + read_scope(local, ConfigScope::Local),
            decreases 3 - i,
        {
            let (scope, content) = found[i];
            match scope.get_config(content) {
                Some(cfg) => {
                    result = result.merge(cfg);
                },
                None => {
                    proof {
                        assert(result@ + read_scope(content, scope) =~= result@);
                    }
                },
            }
            i = i + 1;
        }
        result
    }

    /// All settings of `self`, then all of `other`.
    pub fn merge(self, other: Config) -> (r: Config)
        ensures
            r@ == self@ + other@,
    {
        let mut inner = self.inner;
        let mut more = other.inner;
        inner.append(&mut more);
        let r = Config { inner };
        proof {
            assert(r@ =~= self@ + other@);
        }
        r
    }

    /// Adds a setting stated by `scope`.
    pub fn set(&mut self, scope: ConfigScope, key: ConfigKey, value: &str)
        ensures
            final(self)@ == old(self)@.push(
                (scope, key, if value@.len() == 0 { None } else { Some(value@) }),
            ),
    {
        let v = if value.unicode_len() == 0 {
            None
        } else {
            Some(String::from_str(value))
        };
        self.inner.push(ScopedConfigEntry { scope, key, value: v });
        proof {
            assert(self@ =~= old(self)@.push((scope, key, if value@.len() == 0 { None } else { Some(value@) })));
        }
    }

    /// The effective value of `key`: that of the nearest scope that gives
    /// one, if any does.
    pub fn get_value(&self, key: ConfigKey) -> (r: Option<String>)
        ensures
            value_view(r) == effective_value(self@, key),
    {
        let ghost s = self@;
        let mut best: Option<usize> = None;
        let mut i: usize = 0;
        while i < self.inner.len()
            invariant
                s == self@,
                s.len() == self.inner@.len(),
                i <= s.len(),
                match best {
                    Some(b) => deciding_entry(s.take(i as int), key) == Some(b as int) && b < i,
                    None => deciding_entry(s.take(i as int), key) is None,
                },
            decreases s.len() - i,
        {
            let e = &self.inner[i];
            proof {
                assert(s.take(i + 1).drop_last() =~= s.take(i as int));
                assert(s.take(i + 1).last() == e@);
                if let Some(b) = best {
                    assert(s.take(i as int)[b as int] == s[b as int]);
                }
            }
            if e.key == key && has_text(&e.value) {
                match best {
                    None => {
                        best = Some(i);
                    },
                    Some(b) => {
                        if self.inner[b].scope.level() <= e.scope.level() {
                            best = Some(i);
                        }
                    },
                }
            }
            i = i + 1;
        }
        proof {
            assert(s.take(s.len() as int) =~= s);
        }
        match best {
            Some(b) => {
                proof {
                    assert(s[b as int] == self.inner@[b as int]@);
                }
                match &self.inner[b].value {
                    Some(v) => Some(v.clone()),
                    None => None,
                }
            },
            None => None,
        }
    }

    /// The effective editor command.
    pub fn get_editor(&self) -> (r: String)
        ensures
            r@ == effective_or(self@, ConfigKey::CoreEditor, "vim"@),
    {
        match self.get_value(ConfigKey::CoreEditor) {
            Some(v) => v,
            None => String::from_str("vim"),
        }
    }

    /// The tags that all scopes configure for new entries, farthest scope
    /// first.
    pub fn get_config_tags(&self) -> (r: Vec<String>)
        ensures
            views(r@) == configured_tags(self@),
    {
        let ghost s = self@;
        let mut out: Vec<String> = Vec::new();
        let mut i: usize = 0;
        proof {
            assert(s.take(0) =~= Seq::<ScopedView>::empty());
            assert(views(out@) =~= Seq::<Seq<char>>::empty());
        }
        while i < self.inner.len()
            invariant
                s == self@,
                s.len() == self.inner@.len(),
                i <= s.len(),
                views(out@) == configured_tags(s.take(i as int)),
            decreases s.len() - i,
        {
            let e = &self.inner[i];
            proof {
                assert(s.take(i + 1).drop_last() =~= s.take(i as int));
                assert(s.take(i + 1).last() == e@);
            }
            if e.key == ConfigKey::LocalTags && has_text(&e.value) {
                match &e.value {
                    Some(v) => {
                        let mut more = split_tokens(v.as_str(), Separator::Deliminators);
                        let ghost prev = views(out@);
                        let ghost add = views(more@);
                        out.append(&mut more);
                        proof {
                            assert(views(out@) =~= prev + add);
                        }
                    },
                    None => {
                        proof {
                            assert(views(out@) =~= views(out@) + Seq::<Seq<char>>::empty());
                        }
                    },
                }
            } else {
                proof {
                    assert(views(out@) =~= views(out@) + Seq::<Seq<char>>::empty());
                }
            }
            i = i + 1;
        }
        proof {
            assert(s.take(s.len() as int) =~= s);
        }
        out
    }
}

} // verus!
