//! The error taxonomy of the library.

use vstd::prelude::*;

verus! {

/// What went wrong, as the contracts speak of it.
#[derive(Clone, Copy, Debug, PartialEq, Eq, Structural)]
pub enum ErrorKind {
    /// A note, fragment or image that was addressed is absent.
    NotFound,
    /// A structural edit violates a fragment-kind precondition, such as
    /// splitting an image fragment.
    InvalidOperation,
    /// A fragment index beyond the bounds of the note's content.
    OutOfRange,
    /// Storage, network or filesystem failure, reported by the caller that
    /// performed the access.
    IOFailure,
    /// No usable caret state.
    SelectionUnavailable,
}

/// An error of the library: its kind, and a human-readable account.
#[derive(Clone, Debug)]
pub struct InternalError {
    pub kind: ErrorKind,
    pub what: String,
}

impl InternalError {
    pub fn new(kind: ErrorKind, what: &str) -> (r: InternalError)
        ensures
            r.kind == kind,
            r.what@ == what@,
    {
        InternalError { kind, what: what.to_owned() }
    }

    /// The human-readable account of the error.
    pub fn message(&self) -> (r: &str)
        ensures
            r@ == self.what@,
    {
        self.what.as_str()
    }
}

pub type InternalResult<T> = Result<T, InternalError>;

} // verus!
