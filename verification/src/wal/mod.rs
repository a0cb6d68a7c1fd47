//! Redo log: append-only records, a checkpoint slot and replay.
pub mod error;
pub mod log;
pub mod record;

pub use error::WalError;

pub use record::{RedoRecord, CHECKPOINT_MAGIC};
pub use log::Wal;
