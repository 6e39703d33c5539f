//! The errors of this crate.

use vstd::prelude::*;

verus! {

/// What went wrong. The variants on malformed input carry the text that was
/// refused.
#[derive(Clone, Debug, PartialEq, Eq)]
pub enum Error {
    /// The lines are not laid out as a message: subject, empty line, body
    /// and trailers.
    MalformedMessage,
    /// The text is not a trailer of the form `Key: value`.
    MalformedTrailer(String),
    /// The text is not a filter of the form `name:value` with a known name.
    MalformedFilterSpec(String),
    /// The commit or reference that was asked for is not in the repository.
    NotFound,
    /// The reference exists already and was not to be overwritten.
    AlreadyExists,
    /// The reference no longer has the value that the update was planned on.
    WriteConflict,
    /// The commit comes too late: it names itself as a parent, or a commit
    /// that is in the repository already names it as one.
    OutOfOrder,
}

} // verus!
