//! The failures a repository operation can report.  All of them are returned
//! as values; none of the library's verified functions panics.

use vstd::prelude::*;

verus! {

/// Why a command could not be carried out.
#[derive(Clone, Copy, Debug, PartialEq, Eq, Structural)]
pub enum ResponseError {
    /// Unrecognized command keyword or unrecognized list filter.
    InvalidInput,
    /// Empty input line, or a required argument was not supplied.
    NoArguments,
    /// An operation referenced an id absent from the store.
    TaskNotFound,
    /// Malformed persisted document, or a numeric argument that does not
    /// parse as an integer.
    ParseError,
    /// The backing file could not be created, read, or written.  Produced by
    /// the surrounding program, never by the library itself.
    IOFailure,
}

} // verus!
