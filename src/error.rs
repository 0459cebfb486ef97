use vstd::prelude::*;

verus! {

/// Failures that the journal reports to its caller.
#[derive(Debug)]
pub enum JrnError {
    /// The editor could not be launched.
    EditorNotFound,
    /// A file could not be created, read, written, renamed or deleted.
    IO(String),
    /// A path or a file is not valid text.
    InvalidUnicode,
    /// A pattern is not a valid regular expression.
    InvalidRegex,
    /// An entry with the same time stamp and tags already exists.
    AlreadyExists,
    /// Tags that would make a file name that does not read back as the same
    /// entry: an empty tag, one holding the tag delimiter, or a name
    /// holding a path separator.
    InvalidName(String),
    /// A tag would occur more often than the tag index can count.
    TagCountFull,
    /// There is no entry to act on.
    NoEntry,
}

} // verus!
