//! The library's error type.

use vstd::prelude::*;
use vstd::string::*;

verus! {

/// What went wrong.
#[derive(Clone, Copy, Debug, PartialEq, Eq, Structural)]
pub enum ErrorKind {
    /// The image container is not one this library reads.
    Format,
    /// More than 32 bits were asked of a single read or write.
    BitWidth,
    /// The byte store ended before the request was complete.
    IoExhausted,
    /// The hidden bytes are not valid text.
    Encoding,
    /// The image has too few pixels for the payload.
    Capacity,
    /// Anything else.
    Other,
}

/// An error with its kind and a message for the user.
#[derive(Debug)]
pub struct Error {
    kind: ErrorKind,
    message: String,
}

impl Error {
    /// The kind of this error.
    pub closed spec fn spec_kind(&self) -> ErrorKind {
        self.kind
    }

    /// The message of this error.
    pub closed spec fn message(&self) -> Seq<char> {
        self.message@
    }

    /// An error of kind [`ErrorKind::Other`] with the given message.
    pub fn new(message: &str) -> (e: Error)
        ensures
            e.kind() == ErrorKind::Other,
            e.message() == message@,
    {
        Error { kind: ErrorKind::Other, message: String::from_str(message) }
    }

    /// An error of the given kind with the given message.
    pub fn with_kind(kind: ErrorKind, message: &str) -> (e: Error)
        ensures
            e.kind() == kind,
            e.message() == message@,
    {
        Error { kind, message: String::from_str(message) }
    }

    #[verifier::when_used_as_spec(spec_kind)]
    pub fn kind(&self) -> (k: ErrorKind)
        ensures
            k == self.kind(),
    {
        self.kind
    }

    pub fn description(&self) -> (s: &str)
        ensures
            s@ == self.message(),
    {
        self.message.as_str()
    }

    /// The message as it is shown to the user: the words `Err: ` and the description.
    pub fn to_string(&self) -> (s: String)
        ensures
            s@ == "Err: "@ + self.message(),
    {
        String::from_str("Err: ").concat(self.message.as_str())
    }
}

} // verus!
