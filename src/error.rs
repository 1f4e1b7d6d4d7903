//! The failures that the store, the protocol and the client report.

use vstd::prelude::*;
use vstd::string::StringExecFns;

verus! {

/// What went wrong.
pub enum ErrorKind {
    /// An operating system I/O failure, with its message.
    Io(String),
    /// A record or message that could not be encoded or decoded.
    Serde(String),
    /// A failure reported by the alternate storage backend.
    Sled(String),
    /// `remove` of a key that the store does not hold.
    KeyNotFound,
    /// Bytes that are not UTF-8 where text was expected.
    FromUtf8Error,
    /// An error message that the server sent back to a client.
    StringError(String),
    /// A broken internal expectation, such as a reply that does not match its request.
    UnexpectedError(String),
}

/// An error of the store.
pub struct Error {
    pub kind: ErrorKind,
}

/// The result of the store's operations.
pub type Result<T> = std::result::Result<T, Error>;

/// The text shown for an error of kind `k`.
pub open spec fn message_of(k: ErrorKind) -> Seq<char> {
    match k {
        ErrorKind::Io(m) => m@,
        ErrorKind::Serde(m) => m@,
        ErrorKind::Sled(m) => m@,
        ErrorKind::KeyNotFound => "Key not found"@,
        ErrorKind::FromUtf8Error => "Can not convert bytes into string"@,
        ErrorKind::StringError(m) => m@,
        ErrorKind::UnexpectedError(m) => "Unexpected: "@ + m@,
    }
}

impl Error {
    pub fn new(kind: ErrorKind) -> (r: Error)
        ensures
            r.kind == kind,
    {
        Error { kind }
    }

    /// The error's text, as a server sends it back to a client.
    pub fn message(&self) -> (r: String)
        ensures
            r@ == message_of(self.kind),
    {
        match &self.kind {
            ErrorKind::Io(m) => m.clone(),
            ErrorKind::Serde(m) => m.clone(),
            ErrorKind::Sled(m) => m.clone(),
            ErrorKind::KeyNotFound => String::from_str("Key not found"),
            ErrorKind::FromUtf8Error => String::from_str("Can not convert bytes into string"),
            ErrorKind::StringError(m) => m.clone(),
            ErrorKind::UnexpectedError(m) => {
                let mut s = String::from_str("Unexpected: ");
                s.append(m.as_str());
                s
            },
        }
    }
}

} // verus!
