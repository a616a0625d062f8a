//! Error kinds of the store's public API.
use vstd::prelude::*;

verus! {

/// An I/O failure reported by the operating system.
#[verifier::external_type_specification]
#[verifier::external_body]
pub struct ExIoError(std::io::Error);

/// Top-level error of the store.
#[derive(Debug)]
pub enum CoreError {
    Storage(StorageError),
    Clipboard(ClipboardError),
    Validation(ValidationError),
}

/// Failures of the storage layer.
#[derive(Debug)]
pub enum StorageError {
    Database(String),
    BlobNotFound(String),
    KeyNotFound(String),
    KeyAlreadyExists(String),
    Io(std::io::Error),
}

/// Failures of clipboard access.
#[derive(Debug)]
pub enum ClipboardError {
    Access(String),
    UnsupportedFormat,
}

/// Refused inputs.
#[derive(Debug)]
pub enum ValidationError {
    InvalidKey(String),
    ValueTooLarge { size: u64, max: u64 },
}

} // verus!
