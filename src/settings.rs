use vstd::prelude::*;

use crate::codec::{decode, decode_file_name, encode, encode_file_name};
use crate::config::{
    configured_tags, default_settings, effective_or, read_scope, Config, ConfigKey, ConfigScope,
};
use crate::deliminate::{deliminated, Deliminated};
use crate::text::{split_tokens, tokens, views, Separator};
use crate::time::TimeStamp;

verus! {

/// The first character of `v`, or `d` if it has none.
pub open spec fn first_or(v: Seq<char>, d: char) -> char {
    if v.len() > 0 {
        v[0]
    } else {
        d
    }
}

/// The effective settings that naming and editing use.
#[derive(Debug)]
pub struct Settings {
    editor: String,
    editor_args: Vec<String>,
    tag_start: char,
    tag_deliminator: char,
    config_tags: Vec<String>,
}

fn first_char_or(v: Option<String>, d: char) -> (r: char)
    ensures
        r == first_or(
            match v {
                Some(s) => s@,
                None => seq![d],
            },
            d,
        ),
{
    match v {
        Some(s) => if s.as_str().unicode_len() > 0 {
            s.as_str().get_char(0)
        } else {
            d
        },
        None => d,
    }
}

fn tokens_of_args(v: &str) -> (r: Vec<String>)
    ensures
        views(r@) == deliminated(v@),
{
    match v.deliminate() {
        Some(args) => args,
        None => Vec::new(),
    }
}

impl Settings {
    pub closed spec fn editor(&self) -> Seq<char> {
        self.editor@
    }

    pub closed spec fn editor_args(&self) -> Seq<Seq<char>> {
        views(self.editor_args@)
    }

    pub closed spec fn tag_start(&self) -> char {
        self.tag_start
    }

    pub closed spec fn tag_deliminator(&self) -> char {
        self.tag_deliminator
    }

    pub closed spec fn config_tags(&self) -> Seq<Seq<char>> {
        views(self.config_tags@)
    }

    /// The effective settings of `config`: for each key the value of the
    /// nearest scope that gives one, else the compiled-in default; the
    /// configured tags of all scopes together.
    pub fn from_config(config: &Config) -> (r: Settings)
        ensures
            r.editor() == effective_or(config@, ConfigKey::CoreEditor, "vim"@),
            r.editor_args() == deliminated(effective_or(config@, ConfigKey::EditorArgs, "+star"@)),
            r.tag_start() == first_or(effective_or(config@, ConfigKey::TagStart, seq!['-']), '-'),
            r.tag_deliminator() == first_or(
                effective_or(config@, ConfigKey::TagDeliminator, seq!['_']),
                '_',
            ),
            r.config_tags() == configured_tags(config@),
    {
        let editor = config.get_editor();
        let args = match config.get_value(ConfigKey::EditorArgs) {
            Some(a) => tokens_of_args(a.as_str()),
            None => tokens_of_args("+star"),
        };
        let tag_start = first_char_or(config.get_value(ConfigKey::TagStart), '-');
        let tag_deliminator = first_char_or(config.get_value(ConfigKey::TagDeliminator), '_');
        Settings { editor, editor_args: args, tag_start, tag_deliminator, config_tags: config.get_config_tags() }
    }

    /// The effective settings of the compiled-in defaults and the system,
    /// user and local configuration files that could be read.
    pub fn find_or_default(system: Option<&str>, user: Option<&str>, local: Option<&str>) -> (r: Settings)
        ensures
            ({
                let all = default_settings() + read_scope(system, ConfigScope::System) + read_scope(
                    user,
                    ConfigScope::User,
                ) + read_scope(local, ConfigScope::Local);
                &&& r.editor() == effective_or(all, ConfigKey::CoreEditor, "vim"@)
                &&& r.editor_args() == deliminated(effective_or(all, ConfigKey::EditorArgs, "+star"@))
                &&& r.tag_start() == first_or(effective_or(all, ConfigKey::TagStart, seq!['-']), '-')
                &&& r.tag_deliminator() == first_or(
                    effective_or(all, ConfigKey::TagDeliminator, seq!['_']),
                    '_',
                )
                &&& r.config_tags() == configured_tags(all)
            }),
    {
        Settings::from_config(&Config::find_or_default(system, user, local))
    }

    pub fn get_editor(&self) -> (r: &str)
        ensures
            r@ == self.editor(),
    {
        self.editor.as_str()
    }

    /// The editor's arguments, split into tokens.
    pub fn get_editor_args(&self) -> (r: &Vec<String>)
        ensures
            views(r@) == self.editor_args(),
    {
        &self.editor_args
    }

    pub fn get_tag_start(&self) -> (r: char)
        ensures
            r == self.tag_start(),
    {
        self.tag_start
    }

    pub fn get_tag_deliminator(&self) -> (r: char)
        ensures
            r == self.tag_deliminator(),
    {
        self.tag_deliminator
    }

    /// The tags that every new entry gets after the requested ones.
    pub fn get_config_tags(&self) -> (r: &Vec<String>)
        ensures
            views(r@) == self.config_tags(),
    {
        &self.config_tags
    }

    /// Overrides one setting for the rest of the process. An empty value
    /// sets nothing; the tag characters take the value's first character;
    /// arguments and configured tags are split into tokens.
    pub fn set(&mut self, arg: ConfigKey, s: &str)
        ensures
            s@.len() == 0 ==> *final(self) == *old(self),
            s@.len() > 0 ==> {
                &&& final(self).editor() == if arg == ConfigKey::CoreEditor {
                    s@
                } else {
                    old(self).editor()
                }
                &&& final(self).editor_args() == if arg == ConfigKey::EditorArgs {
                    deliminated(s@)
                } else {
                    old(self).editor_args()
                }
                &&& final(self).tag_start() == if arg == ConfigKey::TagStart {
                    s@[0]
                } else {
                    old(self).tag_start()
                }
                &&& final(self).tag_deliminator() == if arg == ConfigKey::TagDeliminator {
                    s@[0]
                } else {
                    old(self).tag_deliminator()
                }
                &&& final(self).config_tags() == if arg == ConfigKey::LocalTags {
                    tokens(s@, Separator::Deliminators)
                } else {
                    old(self).config_tags()
                }
            },
    {
        if s.unicode_len() == 0 {
            return ;
        }
        match arg {
            ConfigKey::CoreEditor => {
                self.editor = String::from_str(s);
            },
            ConfigKey::EditorArgs => {
                self.editor_args = tokens_of_args(s);
            },
            ConfigKey::TagStart => {
                self.tag_start = s.get_char(0);
            },
            ConfigKey::TagDeliminator => {
                self.tag_deliminator = s.get_char(0);
            },
            ConfigKey::LocalTags => {
                self.config_tags = split_tokens(s, Separator::Deliminators);
            },
        }
    }

    /// The requested tags followed by the configured ones.
    pub fn entry_tags(&self, tags: &Vec<String>) -> (r: Vec<String>)
        ensures
            views(r@) == views(tags@) + self.config_tags(),
    {
        let mut all: Vec<String> = Vec::new();
        let mut i: usize = 0;
        while i < tags.len()
            invariant
                i <= tags@.len(),
                views(all@) == views(tags@).take(i as int),
            decreases tags@.len() - i,
        {
            let t = tags[i].clone();
            let ghost before = all@;
            all.push(t);
            proof {
                assert(t@ == tags@[i as int]@);
                assert(views(all@) =~= views(before).push(t@));
                assert(views(all@) =~= views(tags@).take(i + 1));
            }
            i = i + 1;
        }
        let mut j: usize = 0;
        while j < self.config_tags.len()
            invariant
                j <= self.config_tags@.len(),
                views(all@) == views(tags@) + self.config_tags().take(j as int),
            decreases self.config_tags@.len() - j,
        {
            let t = self.config_tags[j].clone();
            let ghost before = all@;
            all.push(t);
            proof {
                assert(t@ == self.config_tags@[j as int]@);
                assert(views(all@) =~= views(before).push(t@));
                assert(views(all@) =~= views(tags@) + self.config_tags().take(j + 1));
            }
            j = j + 1;
        }
        proof {
            assert(self.config_tags().take(self.config_tags@.len() as int) =~= self.config_tags());
        }
        all
    }

    /// The file name of a new entry made at `time`: the requested tags
    /// first, then the configured ones.
    pub fn format_file_name(&self, time: &TimeStamp, tags: &Vec<String>) -> (r: String)
        requires
            time.wf(),
        ensures
            r@ == encode(
                *time,
                views(tags@) + self.config_tags(),
                self.tag_start(),
                self.tag_deliminator(),
            ),
    {
        let all = self.entry_tags(tags);
        encode_file_name(time, &all, self.tag_start, self.tag_deliminator)
    }

    /// The path of a new entry made at `time` in the current directory: its
    /// file name.
    pub fn build_path(&self, time: &TimeStamp, tags: &Vec<String>) -> (r: String)
        requires
            time.wf(),
        ensures
            r@ == encode(
                *time,
                views(tags@) + self.config_tags(),
                self.tag_start(),
                self.tag_deliminator(),
            ),
    {
        self.format_file_name(time, tags)
    }

    /// The time stamp and tags that a file name writes, if it is an
    /// entry's under these settings.
    pub fn read_file_name(&self, name: &str) -> (r: Option<(TimeStamp, Vec<String>)>)
        ensures
            r is Some <==> decode(name@, self.tag_start(), self.tag_deliminator()) is Some,
            r matches Some(p) ==> decode(name@, self.tag_start(), self.tag_deliminator()) == Some(
                (p.0, views(p.1@)),
            ),
    {
        decode_file_name(name, self.tag_start, self.tag_deliminator)
    }
}

impl Default for Settings {
    /// The compiled-in settings.
    fn default() -> (r: Settings)
        ensures
            r.editor() == "vim"@,
            r.editor_args() == deliminated("+star"@),
            r.tag_start() == '-',
            r.tag_deliminator() == '_',
            r.config_tags() == Seq::<Seq<char>>::empty(),
    {
        let r = Settings {
            editor: String::from_str("vim"),
            editor_args: tokens_of_args("+star"),
            tag_start: '-',
            tag_deliminator: '_',
            config_tags: Vec::new(),
        };
        proof {
            assert(views(r.config_tags@) =~= Seq::<Seq<char>>::empty());
        }
        r
    }
}

} // verus!
