//! Core of a clipboard synchronizer: connection lifecycle, the wire
//! protocol and its codec, last-write-wins reconciliation against the
//! local store, a bounded cache, and device-binding quota management.

pub mod accounts;
pub mod cache;
pub mod clipboard;
pub mod connection;
pub mod coordinator;
pub mod crypto;
pub mod devices;
pub mod error;
pub mod ids;
pub mod item;
pub mod jsondec;
pub mod jsonenc;
pub mod protocol;
pub mod requests;
pub mod store;
pub mod strutil;
