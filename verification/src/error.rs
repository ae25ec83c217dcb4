use vstd::prelude::*;

verus! {

/// The closed set of error kinds threaded through every component.
#[derive(Debug, Clone, PartialEq, Eq)]
pub enum KvsError {
    /// An underlying file or socket failure, carrying its message.
    Io(String),
    /// A framing, compression, or schema decode failure.
    Serde(String),
    /// Removal of a key that is not present in the store.
    KeyNotFound,
    /// A position referenced by the index did not decode to the expected
    /// record shape; it indicates a corrupted log or a program bug.
    UnexpectedCommandType,
    /// A byte sequence that had to be UTF-8 was not, with the cause.
    Utf8(String),
    /// An error propagated from the alternative tree-store engine.
    Sled(String),
    /// A textual error, used for cross-process propagation and for
    /// synthetic conditions.
    StringError(String),
}

impl KvsError {
    /// A human-readable rendering of the error, one line, for front ends.
    pub fn message(&self) -> (r: String)
        ensures
            match self {
                KvsError::KeyNotFound => r@ == "Key not found"@,
                KvsError::UnexpectedCommandType => r@ == "Unexpected command type"@,
                _ => true,
            },
    {
        match self {
            KvsError::Io(m) => String::from_str("IO error: ").concat(m.as_str()),
            KvsError::Serde(m) => String::from_str("serde error: ").concat(m.as_str()),
            KvsError::KeyNotFound => String::from_str("Key not found"),
            KvsError::UnexpectedCommandType => String::from_str("Unexpected command type"),
            KvsError::Utf8(m) => String::from_str("UTF-8 error: ").concat(m.as_str()),
            KvsError::Sled(m) => String::from_str("sled error: ").concat(m.as_str()),
            KvsError::StringError(m) => m.clone(),
        }
    }
}

/// The result alias used by every component of this crate.
pub type Result<T> = core::result::Result<T, KvsError>;

} // verus!
