//! Errors of the asset system.

use vstd::prelude::*;

verus! {

/// The failures that the asset system tells apart.
#[derive(Clone, Copy, Debug, PartialEq, Eq, Structural)]
pub enum ErrorKind {
    /// The import source knows no such asset.
    NotFound,
    /// Bytes were delivered but could not be decoded into asset data.
    Import,
    /// Asset data could not be turned into the asset.
    Process,
    /// A typed query named a type other than the one the asset is registered with.
    TypeMismatch,
}

/// A failure together with a message for the user.
#[derive(Debug)]
pub struct Error {
    pub kind: ErrorKind,
    pub message: String,
}

impl Clone for Error {
    fn clone(&self) -> (e: Error)
        ensures
            e == *self,
    {
        Error { kind: self.kind, message: self.message.clone() }
    }
}

impl Error {
    /// A failure of the given kind with a message for the user.
    pub fn new(kind: ErrorKind, message: String) -> (e: Error)
        ensures
            e.kind == kind,
            e.message == message,
    {
        Error { kind, message }
    }

    /// What kind of failure this is.
    pub fn kind(&self) -> (k: ErrorKind)
        ensures
            k == self.kind,
    {
        self.kind
    }
}

} // verus!
