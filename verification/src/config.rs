//! Engine configuration.

use vstd::prelude::*;

use crate::index::IndexType;

verus! {

/// Options of the store as a whole.
#[derive(Debug, Clone)]
pub struct StoreConfig {
    /// Path of the engine directory, for the embedding shell.
    pub dir: Vec<u8>,
    /// Flush the active segment after every non-batch append.
    pub sync_every_write: bool,
    /// Which key index implementation to build.
    pub index_type: IndexType,
}

/// Options of each segment file.
#[derive(Debug, Clone, Copy)]
pub struct FileConfig {
    /// Segment rotation threshold in bytes.
    pub max_file_size: u64,
}

/// Options of batched writes.
#[derive(Debug, Clone, Copy)]
pub struct BatchedConfig {
    /// Maximum number of staged entries before `BatchOverflow`.
    pub max_batch_size: usize,
    /// Flush after every batch commit.
    pub sync_every_write: bool,
}

/// The three configuration sections together.
#[derive(Debug, Clone)]
pub struct Config {
    pub store: StoreConfig,
    pub file: FileConfig,
    pub batched: BatchedConfig,
}

} // verus!
