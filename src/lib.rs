//! An append-only, crash-recoverable record store ("freezer").
//!
//! Records are numbered from 1 and stored back to back in size-capped data
//! files; a fixed-width index locates the end of each record. The whole
//! directory is held as plain bytes, so that every step of appending,
//! retrieving, truncating and recovering is proved against its contract.
//! Reading and writing real files is left to the caller.
pub mod bytes;
pub mod cache;
pub mod codec;
pub mod freezer;
pub mod index;
pub mod laws;
pub mod layout;
pub mod recovery;
