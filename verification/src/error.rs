//! The error type shared by every layer of the store.

use vstd::prelude::*;

verus! {

/// What can go wrong in the store.
#[derive(Debug, Clone, Copy, PartialEq, Eq, Structural)]
pub enum Error {
    /// An insert named a key that the index already holds.
    KeyAlreadyExists,
    /// A page frame's stored checksum does not match its payload, or the
    /// frame declares a payload longer than a frame can hold.
    ChecksumMismatch,
    /// The bytes handed to the page decoder are not an encoded page.
    Malformed,
    /// A page's encoding does not fit in one frame.
    PageTooLarge,
    /// A positioned write reaches beyond the addressable range of its image.
    IO,
    /// A log record does not start with the record sentinel.
    LogMagicMismatch,
    /// A log record's stored checksum does not match its payload.
    LogCrcMismatch,
    /// A value is too long to be framed as a log record, or the log is full.
    LogAppendFailed,
    /// A locator is too short to cover a record header.
    LogReadFailed,
}

/// The result type of the store's fallible operations.
pub type Result<T> = core::result::Result<T, Error>;

} // verus!
