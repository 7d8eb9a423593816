//! The error type shared by every layer of the store.
use vstd::prelude::*;

verus! {

/// What can go wrong when a file image is opened, read, decoded or rewritten.
#[derive(Debug, Clone, Copy, PartialEq, Eq, Structural)]
pub enum RecordError {
    /// The target of an open is not a directory.
    NotADirectory,
    /// A file does not start with the expected header.
    BadHeader,
    /// The records of a file cannot be parsed back.
    Corrupt,
    /// A positional read ran past the end of the file.
    ShortRead,
    /// A value could not be encoded.
    Encode,
    /// Stored bytes could not be decoded.
    Decode,
    /// The underlying storage failed.
    Io,
    /// An index could not be compacted; its pending entries are kept.
    FlushFailed,
    /// A submitted record uses a field name that starts with `__`.
    ReservedField,
}

impl RecordError {
    /// A short description of the error.
    pub fn to_string(&self) -> String {
        match self {
            RecordError::NotADirectory => String::from_str("not a directory"),
            RecordError::BadHeader => String::from_str("invalid file header"),
            RecordError::Corrupt => String::from_str("corrupt record file"),
            RecordError::ShortRead => String::from_str("short read"),
            RecordError::Encode => String::from_str("encode error"),
            RecordError::Decode => String::from_str("decode error"),
            RecordError::Io => String::from_str("i/o error"),
            RecordError::FlushFailed => String::from_str("index flush failed"),
            RecordError::ReservedField => String::from_str("fields cannot start with __"),
        }
    }
}

} // verus!
