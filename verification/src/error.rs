//! Error and result types for the public API.

use crate::path::SPath;
use vstd::prelude::*;

verus! {

/// Result type used throughout the public API.
pub type SdbResult<T> = Result<T, SdbError>;

/// Errors returned by StratoDB.
#[derive(Debug)]
#[allow(inconsistent_fields)]
pub enum SdbError {
    /// An error originating from the underlying storage engine, carried as its
    /// rendered message so that the engine stays an implementation detail.
    Engine(String),
    /// A path string could not be parsed into an [`SPath`].
    InvalidPath(String),
    /// A table name was rejected (empty or reserved).
    InvalidTableName(String),
    /// No node exists at the requested path.
    PathNotFound(SPath),
    /// The node at a path was not of the kind the operation required.
    UnexpectedNode {
        /// The path that was being accessed.
        path: SPath,
        /// The node kind the operation required.
        expected: &'static str,
        /// The node kind actually stored.
        found: &'static str,
    },
    /// A scalar could not be read as the requested Rust type.
    TypeMismatch {
        /// The Rust type the caller asked for.
        expected: &'static str,
        /// The scalar variant actually stored.
        found: &'static str,
    },
    /// A list index referenced a position past the end of the list.
    IndexOutOfRange {
        /// The list-element path that was rejected.
        path: SPath,
        /// The requested index.
        index: u64,
        /// The current list length.
        len: u64,
    },
    /// Stored bytes could not be decoded (corruption or format skew).
    Corrupt(String),
    /// A unique index constraint was violated.
    UniqueViolation {
        /// The name of the violated index.
        index: String,
    },
    /// The on-disk format/schema does not match this build.
    SchemaMismatch(String),
    /// A data access cannot be fulfilled.
    CannotAccess(String),
    /// A key could not be rebuilt from the given bytes or text.
    BadKey(String),
}

impl SdbError {
    /// Wraps a storage-engine error, given as its rendered message.
    pub fn engine(message: String) -> (e: SdbError)
        ensures
            e == SdbError::Engine(message),
    {
        SdbError::Engine(message)
    }
}

/// A `Corrupt` error carrying `msg`.
pub fn corrupt(msg: &str) -> (e: SdbError)
    ensures
        e is Corrupt,
{
    SdbError::Corrupt(msg.to_string())
}

} // verus!
