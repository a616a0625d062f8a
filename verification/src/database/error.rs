//! Errors of the database layer.
use vstd::prelude::*;

verus! {

/// Why a database operation failed.
#[derive(Debug)]
pub enum DatabaseError {
    /// redb reported a failure (opening, transaction, table, storage or commit).
    Redb(redb::Error),
    /// Stored bytes do not decode.
    Corrupted,
    /// A value could not be encoded.
    Encoding,
    /// The key does not exist.
    NotFound,
    /// The key is in the trash.
    Trashed,
    /// The key is not in the trash.
    NotTrashed,
    /// The key already exists.
    AlreadyExists,
    /// No attachment has this file name.
    AttachmentNotFound(String),
    /// An attachment already has this file name.
    AttachmentExists(String),
}

} // verus!
