//! Errors of the library.
use vstd::prelude::*;

verus! {

/// What sort of error occurred.
#[derive(Clone, Copy, Debug, PartialEq, Eq, Structural)]
pub enum ErrorKind {
    /// The data does not follow its format.
    InvalidData,
    /// The data ends too early.
    UnexpectedEof,
    /// The data goes on, but the rest is not there yet.
    WouldBlock,
    /// The data could not be had.
    Other,
}

/// An error with a message for people.
#[derive(Clone, Debug, PartialEq, Eq)]
pub struct Error {
    pub kind: ErrorKind,
    pub message: String,
}

impl View for Error {
    type V = (ErrorKind, Seq<char>);

    open spec fn view(&self) -> (ErrorKind, Seq<char>) {
        (self.kind, self.message@)
    }
}

/// The error for data that does not follow its format.
pub open spec fn bad(message: Seq<char>) -> (ErrorKind, Seq<char>) {
    (ErrorKind::InvalidData, message)
}

/// Whether the result `r` is the one that `s` describes.
pub open spec fn agrees<T>(r: Result<T, Error>, s: Result<T, (ErrorKind, Seq<char>)>) -> bool {
    match (r, s) {
        (Ok(a), Ok(b)) => a == b,
        (Err(e), Err(f)) => e@ == f,
        _ => false,
    }
}

/// The error for data that does not follow its format.
pub fn invalid(message: &str) -> (e: Error)
    ensures
        e@ == bad(message@),
{
    Error { kind: ErrorKind::InvalidData, message: message.to_owned() }
}

/// The error for data that does not follow its format, from a message that was put together.
pub fn invalid_text(message: String) -> (e: Error)
    ensures
        e@ == bad(message@),
{
    Error { kind: ErrorKind::InvalidData, message }
}

impl Error {
    /// The same error with `prefix` before its message.
    pub fn within(self, prefix: &str) -> (e: Error)
        ensures
            e@ == (self.kind, prefix@ + self.message@),
    {
        let mut message = prefix.to_owned();
        message.append(self.message.as_str());
        Error { kind: self.kind, message }
    }
}

} // verus!
