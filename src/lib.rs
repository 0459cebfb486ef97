//! A local journal whose entries are plain files named by their creation
//! time and tags: layered configuration, ignore rules, the file-name codec,
//! a tag-frequency index and the in-memory repository index.

pub mod codec;
pub mod config;
pub mod deliminate;
pub mod entry;
pub mod error;
pub mod ignore;
pub mod order;
pub mod path;
pub mod pattern;
pub mod repo;
pub mod settings;
pub mod tag_container;
pub mod text;
pub mod time;

pub use codec::{decode_file_name, encode_file_name};
pub use config::{
    Config, ConfigKey, ConfigParseError, ConfigScope, NaiveConfig, NaiveConfigEntry,
    ScopedConfigEntry,
};
pub use deliminate::{Deliminated, IsDeliminator};
pub use entry::{JrnEntry, JrnEntryFilter};
pub use error::JrnError;
pub use ignore::IgnorePatterns;
pub use repo::JrnRepo;
pub use settings::Settings;
pub use tag_container::{CountAndTag, TagContainer};
pub use text::{split_tokens, Separator};
pub use time::TimeStamp;
