//! The failures this crate reports.

use vstd::prelude::*;

verus! {

/// Why an operation on the repository could not be completed.
#[derive(Clone, Copy, Debug, PartialEq, Eq, Structural)]
pub enum GitError {
    /// No loose object is stored under the requested id.
    ObjectNotFound,
    /// A loose object does not inflate, or its header is not well formed.
    CorruptObject,
    /// The index file has a format version other than 2.
    UnsupportedIndexVersion,
    /// The index file has a bad signature or ends too early.
    InvalidIndex,
    /// A commit has no tree or no blank line before its message.
    MalformedCommit,
    /// A tree entry refers to an object that is neither blob nor tree.
    UnknownObjectType,
    /// A line of the ignore file is not a well-formed glob pattern.
    IgnorePatternError,
}

} // verus!
