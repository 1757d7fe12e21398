//! Shared value types: entity visibility and the error taxonomy.

use vstd::prelude::*;

verus! {

/// Visibility attribute carried on every entity. The store records it but
/// never interprets it; redaction is the API caller's concern.
#[derive(Debug, Clone, Copy, PartialEq, Eq, Structural)]
pub enum ObjectVisibility {
    /// Child assignments visible to everyone
    Public,
    /// Child assignments only visible to logged-in users
    Private,
}

/// The kinds of failure an operation can report.
#[derive(Debug, Clone, Copy, PartialEq, Eq, Structural)]
#[non_exhaustive]
pub enum ErrorKind {
    DatabaseError,
    NotFound,
    InvalidInput,
    InternalError,
    Other,
}

/// An error: a kind from the fixed taxonomy plus a human-readable message.
#[derive(Debug, Clone)]
pub struct Error {
    kind: ErrorKind,
    message: String,
}

impl Error {
    /// The kind, for use in specifications.
    pub closed spec fn spec_kind(&self) -> ErrorKind {
        self.kind
    }

    /// The message, for use in specifications.
    pub closed spec fn spec_message(&self) -> Seq<char> {
        self.message@
    }

    pub fn new(kind: ErrorKind, message: &str) -> (r: Error)
        ensures
            r.spec_kind() == kind,
            r.spec_message() == message@,
    {
        Error { kind, message: message.to_owned() }
    }

    pub fn kind(&self) -> (r: ErrorKind)
        ensures
            r == self.spec_kind(),
    {
        self.kind
    }

    /// The message carried by the error.
    pub fn message(&self) -> (r: &str)
        ensures
            r@ == self.spec_message(),
    {
        self.message.as_str()
    }
}

} // verus!
