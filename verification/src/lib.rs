//! An append-only key-value log: every write is a length-prefixed record at
//! the end of one byte log, and an in-memory index maps each live key to the
//! offset of its latest record. The index is a cache that a scan of the log
//! reproduces exactly.

pub mod codec;
pub mod error;
pub mod laws;
pub mod recovery;
pub mod store;
