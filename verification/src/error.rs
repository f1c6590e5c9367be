//! The error that every fallible operation of this crate reports.

use vstd::prelude::*;

verus! {

/// What went wrong, in the coarse sense that a caller branches on.
#[derive(Debug, Clone, Copy, PartialEq, Eq, Structural)]
pub enum ErrorKind {
    /// The request contradicts the table or itself.
    DataInvalid,
}

/// A failed operation: its kind and a message for people.
#[derive(Debug)]
pub struct Error {
    pub kind: ErrorKind,
    pub message: String,
}

impl Error {
    /// An error of the given kind with the given message.
    pub fn new(kind: ErrorKind, message: String) -> (error: Self)
        ensures
            error == (Error { kind, message }),
    {
        Error { kind, message }
    }

    /// Whether this is a `DataInvalid` error whose message reads `message`.
    pub open spec fn says(self, message: Seq<char>) -> bool {
        self.kind == ErrorKind::DataInvalid && self.message@ == message
    }
}

} // verus!
