//! Error kinds exposed by the engine.

use vstd::prelude::*;

use crate::records::LogRecord;

verus! {

/// The phase in which a merge failed.
#[derive(Debug, PartialEq, Eq, Clone, Copy, Structural)]
pub enum MergePhase {
    Compact,
    Validate,
    Combine,
    Clean,
}

/// Every failure the engine reports, each a distinct variant.
#[derive(Debug, PartialEq)]
pub enum Errors {
    /// Creating the store directory failed.
    CreateDirFailure { dir: Vec<u8> },
    /// The store directory does not exist.
    DirNotFound { dir: Vec<u8> },
    /// A positional read failed.
    FileIoReadError,
    /// A file write failed.
    FileIoWriteError,
    /// Flushing a file to durable storage failed.
    FileIoSyncError,
    /// Opening or creating a file failed.
    FileInitError,
    /// An append would push the active segment past its size cap.
    BufferOverflow,
    /// Updating the key index failed.
    IndexUpdateError,
    /// The caller passed an empty key.
    KeyIsEmpty,
    /// No live entry exists for the key.
    KeyNotFound,
    /// The index points into a segment that is not loaded.
    StoreFileNotFound { file_id: u32 },
    /// End of the record stream; handled internally, never surfaced.
    Eof,
    /// A record failed its integrity check.
    CrcMismatch { expected: u32, got: u32 },
    /// The staging buffer of a batch reached its configured capacity.
    BatchOverflow,
    /// A non-batch record variant was converted to batch form.
    InvalidBatchedRecordType { record: LogRecord },
    /// A compaction is already in flight.
    MergeInProgress,
    /// No pending merge was found to finalize.
    MergeNotFound,
    /// A merge failed in the given phase.
    MergeFailure { phase: MergePhase },
    /// Another engine instance holds the directory's exclusive lock.
    ExclusiveStartFailure { dir: Vec<u8> },
    /// Releasing the directory lock on shutdown failed.
    UnlockFailure,
    /// A record's stated extent runs past the end of its segment.
    BinarySizeMismatch { expected: u32, got: u32 },
    /// A record carries a type byte outside the known range.
    InvalidRecordType { tag: u8 },
}

} // verus!
