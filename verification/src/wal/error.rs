//! Redo log errors.
use vstd::prelude::*;

verus! {

/// Redo log errors.
#[derive(Debug)]
pub enum WalError {
    /// I/O error of the log file.
    Io(std::io::Error),
    /// A record's CRC does not match its bytes.
    RecordCrcMismatch {
        /// LSN the record claims.
        lsn: u64,
    },
    /// The log ends inside a record.
    Truncated,
    /// Malformed log.
    InvalidRecord(String),
    /// Checkpoint slot corrupt.
    CheckpointCorrupt,
    /// The LSN space is used up.
    LsnExhausted,
    /// A record's LSN is not the next one.
    OutOfOrder {
        /// LSN expected.
        expected: u64,
        /// LSN found.
        got: u64,
    },
}

} // verus!
