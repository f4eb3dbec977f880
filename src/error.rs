//! Failures of the store.

use vstd::prelude::*;

verus! {

/// Why opening, decoding or saving the database failed.
#[derive(Debug, PartialEq, Eq)]
pub enum DbError {
    /// A file or directory could not be created, read, written or renamed.
    IoUnavailable { path: String },
    /// The database bytes are too short, too large or do not parse.
    DatabaseCorrupted,
    /// The database carries a schema version other than the current one.
    UnsupportedSchema { version: u32 },
    /// The database could not be encoded.
    SerializationFailure,
}

} // verus!
