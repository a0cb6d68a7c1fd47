//! The storage engine interface and its types.
use crate::page::row::{Row, Schema, Value};
use vstd::prelude::*;

verus! {

/// Transaction id.
pub type TransactionId = u64;

/// Secondary index metadata.
#[derive(Debug, Clone, PartialEq, Eq)]
pub struct IndexMeta {
    /// Index name, unique within its table.
    pub name: String,
    /// Indexed columns, as schema column positions.
    pub columns: Vec<usize>,
    /// Whether index keys are unique.
    pub is_unique: bool,
}

/// Bounds of a range scan: `start` included, `end` excluded; `None` is unbounded.
#[derive(Debug, Clone, PartialEq, Eq)]
pub struct RangeBound {
    /// Lower bound (included); `None` from the smallest key.
    pub start: Option<Value>,
    /// Upper bound (excluded); `None` to the largest key.
    pub end: Option<Value>,
}

impl RangeBound {
    /// The unbounded range.
    pub fn full() -> (r: Self)
        ensures
            r.start is None,
            r.end is None,
    {
        RangeBound { start: None, end: None }
    }
}

/// Storage engine errors.
#[derive(Debug)]
pub enum EngineError {
    /// No table of that name.
    TableNotFound(String),
    /// Primary key or unique index conflict.
    DuplicateKey,
    /// No row with that primary key.
    RowNotFound(String),
    /// Not implemented.
    Unsupported(String),
    /// Internal error (storage, corruption, invalid request).
    Internal(String),
}

/// The storage engine interface used by the SQL layer.
pub trait StorageEngine {
    /// The engine's own consistency, which every operation keeps; an engine
    /// that does not describe it has none to keep.
    closed spec fn engine_valid(&self) -> bool {
        true
    }

    /// Creates a table with `schema`; a primary key is required.
    fn create_table(&mut self, name: &str, schema: Schema) -> (r: Result<(), EngineError>)
        requires
            old(self).engine_valid(),
        ensures
            final(self).engine_valid(),
    ;

    /// Drops a table and frees its pages.
    fn drop_table(&mut self, name: &str) -> (r: Result<(), EngineError>)
        requires
            old(self).engine_valid(),
        ensures
            final(self).engine_valid(),
    ;

    /// Inserts a row; a primary key or unique index conflict is `DuplicateKey`.
    fn insert(&mut self, table: &str, row: Row) -> (r: Result<(), EngineError>)
        requires
            old(self).engine_valid(),
        ensures
            final(self).engine_valid(),
    ;

    /// Replaces the row with primary key `pk`; the primary key column cannot change.
    fn update(&mut self, table: &str, pk: Value, row: Row) -> (r: Result<(), EngineError>)
        requires
            old(self).engine_valid(),
        ensures
            final(self).engine_valid(),
    ;

    /// Deletes the row with primary key `pk`; a missing row is not an error.
    fn delete(&mut self, table: &str, pk: Value) -> (r: Result<(), EngineError>)
        requires
            old(self).engine_valid(),
        ensures
            final(self).engine_valid(),
    ;

    /// The row with primary key `pk`.
    fn get_by_pk(&self, table: &str, pk: Value) -> (r: Result<Option<Row>, EngineError>)
        requires
            self.engine_valid(),
    ;

    /// The rows whose primary key lies in `range`, in key order.
    fn scan(&self, table: &str, range: RangeBound) -> (r: Result<Vec<Row>, EngineError>)
        requires
            self.engine_valid(),
    ;

    /// Creates a secondary index.
    fn create_index(&mut self, table: &str, meta: IndexMeta) -> (r: Result<(), EngineError>)
        requires
            old(self).engine_valid(),
        ensures
            final(self).engine_valid(),
    ;

    /// The first row (smallest primary key) whose first index column equals `key`.
    fn get_by_index(&self, table: &str, index: &str, key: Value) -> (r: Result<
        Option<Row>,
        EngineError,
    >)
        requires
            self.engine_valid(),
    ;

    /// The rows whose first index column lies in `range`, in index key order.
    fn scan_index(&self, table: &str, index: &str, range: RangeBound) -> (r: Result<
        Vec<Row>,
        EngineError,
    >)
        requires
            self.engine_valid(),
    ;

    /// Starts a transaction.
    fn begin(&mut self) -> (r: Result<TransactionId, EngineError>)
        requires
            old(self).engine_valid(),
        ensures
            final(self).engine_valid(),
    ;

    /// Commits a transaction.
    fn commit(&mut self, tx: TransactionId) -> (r: Result<(), EngineError>)
        requires
            old(self).engine_valid(),
        ensures
            final(self).engine_valid(),
    ;

    /// Rolls a transaction back.
    fn rollback(&mut self, tx: TransactionId) -> (r: Result<(), EngineError>)
        requires
            old(self).engine_valid(),
        ensures
            final(self).engine_valid(),
    ;
}

} // verus!
