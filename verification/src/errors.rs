//! The closed error taxonomy of the archive. Client-caused conditions are
//! distinguished from each other so that a boundary adapter can map each kind
//! to a transport status exactly once. The in-memory core cannot itself fail
//! at persistence or indexing; an adapter that wraps external storage reports
//! such failures through its own channel.

use vstd::prelude::*;

verus! {

/// Every failure the archive core can report.
#[derive(Clone, Copy, Debug, PartialEq, Eq, Structural)]
pub enum RepoError {
    /// A document identifier string does not match the identifier grammar.
    InvalidIdentifier,
    /// The referenced document, fragment, or inbox entry does not exist in
    /// the expected state.
    NotFound,
    /// A fragment index exceeds the bundle's fragment count.
    OutOfRange,
    /// A raw upload cannot be parsed as a structurally valid document.
    UnsupportedFormat,
}

impl RepoError {
    /// A fixed human-readable message for the error kind.
    pub fn describe(&self) -> (r: &'static str)
        ensures
            (*self is InvalidIdentifier) ==> r@ == "invalid document identifier"@,
            (*self is NotFound) ==> r@ == "not found"@,
            (*self is OutOfRange) ==> r@ == "fragment index out of range"@,
            (*self is UnsupportedFormat) ==> r@ == "unsupported document format"@,
    {
        match self {
            RepoError::InvalidIdentifier => "invalid document identifier",
            RepoError::NotFound => "not found",
            RepoError::OutOfRange => "fragment index out of range",
            RepoError::UnsupportedFormat => "unsupported document format",
        }
    }
}

} // verus!
