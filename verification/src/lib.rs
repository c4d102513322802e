//! An embedded, single-writer, append-only key-value storage engine in the
//! Bitcask family. This crate is the engine core: the log-structured record
//! format with CRC framing, the in-memory key index with snapshot iteration,
//! recovery of the index from segment contents, batched writes with atomic
//! commit, segment rotation, and compaction. Segment contents are held as
//! byte buffers in the exact on-disk format; an embedding shell is expected
//! to mirror appends to files and to hand segment contents back at open.

#![verifier::loop_isolation(false)]

pub mod batched;
pub mod config;
pub mod errors;
pub mod index;
pub mod iter;
pub mod merge;
pub mod file_handle;
pub mod records;
pub mod skiplist;
pub mod store;

