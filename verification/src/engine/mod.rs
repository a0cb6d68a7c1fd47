//! Storage engine: table catalog, the `StorageEngine` interface and the
//! engine over a tablespace (clustered and secondary B+Trees).
pub mod catalog;
pub mod engine;
pub mod ferrum_engine;
pub mod forest;

pub use catalog::{validate_index_meta, IndexEntry, TableCatalog, TableMeta};
pub use engine::{EngineError, IndexMeta, RangeBound, StorageEngine, TransactionId};
pub use ferrum_engine::FerrumEngine;

