//! FerrumDB storage engine core: pages, row and key codecs, B+Trees,
//! tablespace allocation, buffer pool, redo log and the storage engine.
pub mod btree;
pub mod buffer;
pub mod crc;
pub mod engine;
pub mod page;
pub mod space;
pub mod text;
pub mod wal;
