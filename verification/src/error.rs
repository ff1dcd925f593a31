//! The error type shared by every fallible operation of the store.

use vstd::prelude::*;

verus! {

/// What went wrong, as a machine-readable class. The description on
/// [`Error`] is for humans; contracts speak about the kind.
#[derive(Clone, Copy, Debug, PartialEq, Eq, Structural)]
pub enum ErrorKind {
    /// The operation targeted a key with no stored entry.
    NotFound,
    /// A create targeted a key that already has a stored entry.
    AlreadyExists,
    /// An identifier or entry name is outside the encoding's bounds or
    /// alphabet, or serialized data is too short for its type.
    Encoding,
    /// A stored schema hash matches neither the current type nor any of its
    /// predecessors.
    SchemaMismatch,
    /// An underlying input/output failure, reported by an unverified shell.
    Io,
    /// Any other failure.
    Other,
}

/// A failure of a store operation: a kind plus a human-readable description.
#[derive(Debug)]
pub struct Error {
    kind: ErrorKind,
    description: String,
}

impl Error {
    /// The kind of this error.
    pub closed spec fn spec_kind(&self) -> ErrorKind {
        self.kind
    }

    /// The description of this error.
    pub closed spec fn spec_description(&self) -> Seq<char> {
        self.description@
    }

    /// Creates an error of kind [`ErrorKind::Other`] from a description.
    pub fn new(description: String) -> (r: Error)
        ensures
            r.spec_kind() == ErrorKind::Other,
            r.spec_description() == description@,
    {
        Error { kind: ErrorKind::Other, description }
    }

    /// Creates an error of the given kind from a description.
    pub fn with_kind(kind: ErrorKind, description: String) -> (r: Error)
        ensures
            r.spec_kind() == kind,
            r.spec_description() == description@,
    {
        Error { kind, description }
    }

    pub fn kind(&self) -> (k: ErrorKind)
        ensures
            k == self.spec_kind(),
    {
        self.kind
    }

    pub fn description(&self) -> (r: &str)
        ensures
            r@ == self.spec_description(),
    {
        self.description.as_str()
    }
}

} // verus!
