//! A segmented, append-only commit log.
//!
//! A ledger is a byte stream split into size-bounded segments. Each segment
//! pairs a log of variable-length records with a fixed-width index that maps
//! a record's logical offset to the byte position where its encoding starts.
//! The library holds the contents of both files as byte vectors and states
//! every operation over those bytes; making them durable is the caller's part.

pub mod encoding;
pub mod log;
pub mod types;
pub mod index;
pub mod handle;
pub mod segment;
pub mod ledger;
pub mod files;
pub mod placement;
