//! The error type shared by the whole library.

use vstd::prelude::*;

verus! {

/// What went wrong, at the type level: a bad date or argument, disk
/// contents that violate the schema or referential integrity, a
/// read/write failure reported by a storage backend, or an operation a
/// backend does not implement.
#[derive(Clone, Copy, PartialEq, Eq, Structural, Debug)]
pub enum DbErrorKind {
    InvalidInput,
    InvalidData,
    Io,
    Unsupported,
}

/// An error with its kind and a human-readable message.
#[derive(Debug)]
pub struct DbError {
    pub kind: DbErrorKind,
    pub message: String,
}

impl DbError {
    /// Builds an error of the given kind.
    pub fn new(kind: DbErrorKind, message: String) -> (r: DbError)
        ensures
            r.kind == kind,
            r.message == message,
    {
        DbError { kind, message }
    }

    /// The kind of this error.
    pub fn get_kind(&self) -> (r: DbErrorKind)
        ensures
            r == self.kind,
    {
        self.kind
    }

    /// The message of this error, for display by callers.
    pub fn get_message(&self) -> (r: &String)
        ensures
            r == &self.message,
    {
        &self.message
    }
}

} // verus!
