//! The error type of the engine.

use vstd::prelude::*;

verus! {

/// What went wrong.
#[derive(Clone, Copy, Debug, PartialEq, Eq, Structural)]
pub enum ErrorKind {
    /// The file system rejected an operation, or a file offset or a
    /// generation number has no successor.
    Io,
    /// A record could not be encoded or decoded.
    Codec,
    /// `remove` was called on a key that has no value.
    KeyNotFound,
    /// Stored bytes are not the record that the key directory promised.
    Integrity,
}

/// An error, by kind and with a message for people.
#[derive(Debug)]
pub struct KvsError {
    /// The kind that callers match on.
    pub kind: ErrorKind,
    /// A message field describing the error.
    pub msg: String,
}

/// Crate level result type.
pub type Result<T> = core::result::Result<T, KvsError>;

/// The message that the engine gives an error of each kind.
pub open spec fn message_of(kind: ErrorKind) -> Seq<char> {
    match kind {
        ErrorKind::Io => "Log position out of range"@,
        ErrorKind::Codec => "Record cannot be encoded"@,
        ErrorKind::KeyNotFound => "Key not found"@,
        ErrorKind::Integrity => "Unexpected record in the log"@,
    }
}

impl KvsError {
    /// The error is of kind `kind`, with the engine's message for it.
    pub open spec fn plain(&self, kind: ErrorKind) -> bool {
        self.kind == kind && self.msg@ == message_of(kind)
    }

    /// The engine's error of the given kind.
    pub fn of(kind: ErrorKind) -> (e: KvsError)
        ensures
            e.plain(kind),
    {
        let msg = match kind {
            ErrorKind::Io => "Log position out of range",
            ErrorKind::Codec => "Record cannot be encoded",
            ErrorKind::KeyNotFound => "Key not found",
            ErrorKind::Integrity => "Unexpected record in the log",
        };
        KvsError::new(kind, msg)
    }

    /// An error of the given kind with the given message.
    pub fn new(kind: ErrorKind, msg: &str) -> (e: KvsError)
        ensures
            e.kind == kind,
            e.msg@ == msg@,
    {
        KvsError { kind, msg: String::from_str(msg) }
    }

    /// An I/O error, with the message that the file system gave.
    pub fn io(msg: String) -> (e: KvsError)
        ensures
            e.kind == ErrorKind::Io,
            e.msg == msg,
    {
        KvsError { kind: ErrorKind::Io, msg }
    }

    /// The message, for printing.
    pub fn message(&self) -> (s: String)
        ensures
            s@ == self.msg@,
    {
        self.msg.clone()
    }
}

/// The error of a `remove` on an absent key.
pub fn key_not_found() -> (e: KvsError)
    ensures
        e.plain(ErrorKind::KeyNotFound),
{
    KvsError::of(ErrorKind::KeyNotFound)
}

/// An error that is a message and nothing more: what a serializer
/// reports of a value that it cannot write.
#[derive(Debug)]
pub enum MessageError {
    /// The message.
    Message(String),
}

impl MessageError {
    /// The message of the error.
    pub open spec fn text(&self) -> Seq<char> {
        match self {
            MessageError::Message(msg) => msg@,
        }
    }

    /// The error with the given message.
    pub fn custom(msg: &str) -> (e: MessageError)
        ensures
            e.text() == msg@,
    {
        MessageError::Message(String::from_str(msg))
    }

    /// The message, for printing.
    pub fn message(&self) -> (s: String)
        ensures
            s@ == self.text(),
    {
        match self {
            MessageError::Message(msg) => msg.clone(),
        }
    }
}

} // verus!
