//! Write-ahead journal of an embedded key-value store.
//!
//! A journal is an ordered run of immutable, checksummed segments ("eras").
//! Each era holds one serialized transaction behind a 32-byte digest and an
//! index from every key it mentions to the last operation on that key.
//!
//! The library never touches the file system: it computes the bytes of a new
//! era, checks and indexes the bytes of an existing one, and decides which
//! file names form a journal. Reading and writing those bytes is the caller's
//! part.

pub mod cache;
pub mod digest;
pub mod dir;
pub mod era;
pub mod error;
pub mod journal;
pub mod slice;
pub mod transaction;
