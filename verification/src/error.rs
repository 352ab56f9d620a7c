//! Error taxonomy. Every condition in the sync core is recoverable; none
//! terminates the process.

use vstd::prelude::*;

verus! {

/// Errors of the application-facing services.
#[derive(Debug)]
pub enum AppError {
    DatabaseError(String),
    NotFound(String),
    InvalidCredentials,
    CryptoError(String),
    InvalidData(String),
}

/// Errors of the sync core.
///
/// Transport failures trigger backoff-then-retry; protocol failures drop
/// the frame and keep the connection; storage failures are logged per item;
/// the capacity condition is surfaced synchronously with nothing mutated.
#[derive(Debug)]
pub enum SyncError {
    /// Connect, send or receive failed.
    Transport(String),
    /// A frame could not be decoded.
    Protocol,
    /// Persistence failed while reconciling or deleting.
    Storage(String),
    /// The device registry is full.
    Capacity,
}

} // verus!
