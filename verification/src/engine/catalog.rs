//! In-memory table catalog: tables by name, each with its clustered tree and
//! secondary indexes.
use super::engine::{EngineError, IndexMeta};
use crate::btree::persistent::PersistentBtree;
use crate::page::row::Schema;
use vstd::prelude::*;
use vstd::string::StringExecFns;

verus! {

broadcast use vstd::string::to_string_from_display_ensures_for_str;

/// A secondary index: its metadata and its tree.
pub struct IndexEntry {
    /// Index metadata.
    pub meta: IndexMeta,
    /// The index tree.
    pub tree: PersistentBtree,
}

/// A table: its name, schema, clustered tree and secondary indexes.
pub struct TableMeta {
    /// Table name.
    pub name: String,
    /// Columns and primary key.
    pub schema: Schema,
    /// Clustered (primary key) tree.
    pub clustered: PersistentBtree,
    /// Secondary indexes, in creation order.
    pub indexes: Vec<IndexEntry>,
}

/// The tables, in creation order; names are distinct.
pub struct TableCatalog {
    tables: Vec<TableMeta>,
}

/// Whether two strings are equal.
pub fn str_eq(a: &str, b: &str) -> (r: bool)
    ensures
        r == (a@ == b@),
{
    a.to_string() == b.to_string()
}

/// `prefix` followed by `s`.
fn message(prefix: &str, s: &str) -> (r: String)
    ensures
        r@ == prefix@ + s@,
{
    prefix.to_string().concat(s)
}

/// The error `validate_index_meta` reports, if any: no columns, or a column
/// beyond the schema.
pub open spec fn spec_index_meta_ok(meta: IndexMeta, schema: Schema) -> bool {
    meta.columns@.len() > 0 && forall|i: int|
        0 <= i < meta.columns@.len() ==> #[trigger] meta.columns@[i] < schema.columns@.len()
}

/// Checks index metadata against a schema: the index has columns and they
/// all lie in the schema; else `Internal`.
pub fn validate_index_meta(meta: &IndexMeta, schema: &Schema) -> (r: Result<(), EngineError>)
    ensures
        r is Ok <==> spec_index_meta_ok(*meta, *schema),
        r matches Err(e) ==> e is Internal,
{
    if meta.columns.len() == 0 {
        return Err(EngineError::Internal(message("index has no columns: ", meta.name.as_str())));
    }
    let mut i: usize = 0;
    while i < meta.columns.len()
        invariant
            i <= meta.columns@.len(),
            forall|j: int| 0 <= j < i ==> #[trigger] meta.columns@[j] < schema.columns@.len(),
        decreases meta.columns@.len() - i,
    {
        if meta.columns[i] >= schema.columns.len() {
            return Err(
                EngineError::Internal(
                    message("index references a column out of range: ", meta.name.as_str()),
                ),
            );
        }
        i = i + 1;
    }
    Ok(())
}

/// `after` is `before` with index `e` added to table `i`, nothing else
/// changed.
pub open spec fn index_added(before: Seq<TableMeta>, after: Seq<TableMeta>, i: int, e: IndexEntry) -> bool {
    &&& after.len() == before.len()
    &&& 0 <= i < before.len()
    &&& forall|k: int| 0 <= k < before.len() && k != i ==> after[k] == before[k]
    &&& after[i].name == before[i].name
    &&& after[i].schema == before[i].schema
    &&& after[i].clustered == before[i].clustered
    &&& after[i].indexes@ == before[i].indexes@.push(e)
}

/// The indexes of table `t` have distinct names.
pub open spec fn index_names_distinct(t: TableMeta) -> bool {
    forall|a: int, b: int|
        0 <= a < b < t.indexes@.len() ==> (#[trigger] t.indexes@[a]).meta.name@ != (#[trigger] t.indexes@[b]).meta.name@
}

impl TableCatalog {
    /// The tables.
    pub closed spec fn tables_view(&self) -> Seq<TableMeta> {
        self.tables@
    }

    /// The table names.
    pub open spec fn names(&self) -> Seq<Seq<char>> {
        self.tables_view().map_values(|t: TableMeta| t.name@)
    }

    /// Table names are distinct, and so are the index names of each table.
    pub open spec fn wf(&self) -> bool {
        &&& self.names().no_duplicates()
        &&& forall|i: int| 0 <= i < self.tables_view().len() ==> index_names_distinct(#[trigger] self.tables_view()[i])
    }

    /// In a well-formed catalog a table name names one table.
    pub proof fn lemma_unique_name(&self, i: int, k: int)
        requires
            self.wf(),
            0 <= i < self.tables_view().len(),
            0 <= k < self.tables_view().len(),
            self.tables_view()[i].name@ == self.tables_view()[k].name@,
        ensures
            i == k,
    {
        assert(self.names()[i] == self.names()[k]);
    }

    /// An empty catalog.
    pub fn new() -> (r: Self)
        ensures
            r.wf(),
            r.tables_view() == Seq::<TableMeta>::empty(),
    {
        let r = TableCatalog { tables: Vec::new() };
        assert(r.names() =~= Seq::<Seq<char>>::empty());
        r
    }

    /// Position of the table named `name`.
    fn position(&self, name: &str) -> (r: Option<usize>)
        ensures
            match r {
                Some(i) => i < self.tables_view().len() && self.tables_view()[i as int].name@ == name@
                    && forall|j: int| 0 <= j < i ==> self.tables_view()[j].name@ != name@,
                None => forall|j: int|
                    0 <= j < self.tables_view().len() ==> self.tables_view()[j].name@ != name@,
            },
    {
        let mut i: usize = 0;
        while i < self.tables.len()
            invariant
                i <= self.tables@.len(),
                forall|j: int| 0 <= j < i ==> self.tables@[j].name@ != name@,
            decreases self.tables@.len() - i,
        {
            if str_eq(self.tables[i].name.as_str(), name) {
                return Some(i);
            }
            i = i + 1;
        }
        None
    }

    /// Registers a table; an existing name gives `Internal`.
    pub fn add_table(&mut self, name: String, schema: Schema, clustered: PersistentBtree) -> (r:
        Result<(), EngineError>)
        requires
            old(self).wf(),
        ensures
            final(self).wf(),
            old(self).names().contains(name@) ==> (r matches Err(EngineError::Internal(_)))
                && final(self).tables_view() == old(self).tables_view(),
            !old(self).names().contains(name@) ==> r is Ok && final(self).tables_view().len()
                == old(self).tables_view().len() + 1 && final(self).tables_view().drop_last()
                == old(self).tables_view() && final(self).tables_view().last().name@ == name@
                && final(self).tables_view().last().schema == schema
                && final(self).tables_view().last().clustered == clustered
                && final(self).tables_view().last().indexes@.len() == 0,
    {
        match self.position(name.as_str()) {
            Some(i) => {
                proof {
                    assert(self.names()[i as int] == name@);
                }
                return Err(EngineError::Internal(message("table already exists: ", name.as_str())));
            },
            None => {},
        }
        proof {
            assert(!self.names().contains(name@)) by {
                if self.names().contains(name@) {
                    let k = choose|k: int| 0 <= k < self.names().len() && self.names()[k] == name@;
                    assert(self.tables@[k].name@ == name@);
                }
            }
        }
        let ghost before = self.tables@;
        self.tables.push(TableMeta { name, schema, clustered, indexes: Vec::new() });
        proof {
            assert(self.tables@.drop_last() =~= before);
            assert(self.names() =~= old(self).names().push(self.tables@.last().name@));
            assert forall|a: int, b: int|
                0 <= a < self.names().len() && 0 <= b < self.names().len() && a != b implies self.names()[a]
                != self.names()[b] by {
                if a == self.names().len() - 1 {
                    assert(old(self).names()[b] == self.names()[b]);
                } else if b == self.names().len() - 1 {
                    assert(old(self).names()[a] == self.names()[a]);
                }
            }
        }
        Ok(())
    }

    /// The table named `name`, or `TableNotFound(name)`.
    pub fn get(&self, name: &str) -> (r: Result<&TableMeta, EngineError>)
        ensures
            match r {
                Ok(t) => self.names().contains(name@) && t.name@ == name@ && exists|i: int|
                    0 <= i < self.tables_view().len() && self.tables_view()[i] == *t,
                Err(e) => !self.names().contains(name@) && (e matches EngineError::TableNotFound(m) && m@ == name@),
            },
    {
        match self.position(name) {
            Some(i) => {
                proof {
                    assert(self.names()[i as int] == name@);
                }
                Ok(&self.tables[i])
            },
            None => {
                proof {
                    assert(!self.names().contains(name@)) by {
                        if self.names().contains(name@) {
                            let k = choose|k: int|
                                0 <= k < self.names().len() && self.names()[k] == name@;
                            assert(self.tables@[k].name@ == name@);
                        }
                    }
                }
                Err(EngineError::TableNotFound(name.to_string()))
            },
        }
    }

    /// The table named `name`, mutable (its name must be kept), or
    /// `TableNotFound(name)`.
    pub fn get_mut(&mut self, name: &str) -> (r: Result<&mut TableMeta, EngineError>)
        ensures
            match r {
                Ok(t) => old(self).names().contains(name@) && t.name@ == name@ && exists|i: int|
                    0 <= i < old(self).tables_view().len() && old(self).tables_view()[i] == *t
                        && final(self).tables_view() == old(self).tables_view().update(i, *final(t)),
                Err(e) => !old(self).names().contains(name@) && final(self).tables_view() == old(self).tables_view() && (e matches EngineError::TableNotFound(m) && m@ == name@),
            },
    {
        match self.position(name) {
            Some(i) => {
                proof {
                    assert(self.names()[i as int] == name@);
                }
                Ok(&mut self.tables[i])
            },
            None => {
                proof {
                    assert(!self.names().contains(name@)) by {
                        if self.names().contains(name@) {
                            let k = choose|k: int|
                                0 <= k < self.names().len() && self.names()[k] == name@;
                            assert(self.tables@[k].name@ == name@);
                        }
                    }
                }
                Err(EngineError::TableNotFound(name.to_string()))
            },
        }
    }

    /// Adds a secondary index to table `table`: `TableNotFound` without the
    /// table; `Internal` for metadata that `validate_index_meta` rejects or a
    /// name already used by an index of the table.
    #[verifier::loop_isolation(false)]
    pub fn add_index(&mut self, table: &str, meta: IndexMeta, tree: PersistentBtree) -> (r: Result<
        (),
        EngineError,
    >)
        requires
            old(self).wf(),
        ensures
            final(self).wf(),
            final(self).names() == old(self).names(),
            final(self).tables_view().len() == old(self).tables_view().len(),
            forall|i: int|
                0 <= i < old(self).tables_view().len() ==> (#[trigger] final(self).tables_view()[i]).schema
                    == old(self).tables_view()[i].schema,
            !old(self).names().contains(table@) ==> r matches Err(EngineError::TableNotFound(_)),
            r is Ok ==> exists|i: int|
                0 <= i < old(self).tables_view().len() && old(self).tables_view()[i].name@ == table@
                    && spec_index_meta_ok(meta, old(self).tables_view()[i].schema) && index_added(
                    old(self).tables_view(),
                    final(self).tables_view(),
                    i,
                    (IndexEntry { meta: meta, tree: tree }),
                ),
            r is Err ==> final(self).tables_view() == old(self).tables_view(),
            forall|i: int|
                0 <= i < old(self).tables_view().len() && #[trigger] old(self).tables_view()[i].name@
                    == table@ ==> {
                    &&& r is Ok <==> (spec_index_meta_ok(meta, old(self).tables_view()[i].schema)
                        && forall|j: int|
                        0 <= j < old(self).tables_view()[i].indexes@.len() ==> (#[trigger] old(
                            self,
                        ).tables_view()[i].indexes@[j]).meta.name@ != meta.name@)
                    &&& r matches Err(e) ==> e is Internal
                },
    {
        let i = match self.position(table) {
            Some(i) => {
                proof {
                    assert(self.names()[i as int] == table@);
                }
                i
            },
            None => {
                proof {
                    assert(!self.names().contains(table@)) by {
                        if self.names().contains(table@) {
                            let k = choose|k: int|
                                0 <= k < self.names().len() && self.names()[k] == table@;
                            assert(self.tables@[k].name@ == table@);
                        }
                    }
                }
                return Err(EngineError::TableNotFound(table.to_string()));
            },
        };
        proof {
            assert forall|q: int|
                0 <= q < old(self).tables_view().len() && #[trigger] old(self).tables_view()[q].name@
                    == table@ implies q == i by {
                self.lemma_unique_name(q, i as int);
            }
        }
        match validate_index_meta(&meta, &self.tables[i].schema) {
            Ok(()) => {},
            Err(e) => {
                return Err(e);
            },
        }
        let mut k: usize = 0;
        while k < self.tables[i].indexes.len()
            invariant
                i < self.tables@.len(),
                k <= self.tables@[i as int].indexes@.len(),
                forall|q: int| 0 <= q < k ==> (#[trigger] self.tables@[i as int].indexes@[q]).meta.name@ != meta.name@,
            decreases self.tables@[i as int].indexes@.len() - k,
        {
            if str_eq(self.tables[i].indexes[k].meta.name.as_str(), meta.name.as_str()) {
                assert(self.tables@[i as int].indexes@[k as int].meta.name@ == meta.name@);
                return Err(
                    EngineError::Internal(message("index already exists: ", meta.name.as_str())),
                );
            }
            k = k + 1;
        }
        let ghost entry = IndexEntry { meta, tree };
        self.tables[i].indexes.push(IndexEntry { meta, tree });
        proof {
            assert(self.names() =~= old(self).names());
            assert(index_added(old(self).tables_view(), self.tables_view(), i as int, entry));
            assert forall|t: int| 0 <= t < self.tables_view().len() implies index_names_distinct(
                #[trigger] self.tables_view()[t],
            ) by {
                if t == i {
                    let ix = self.tables_view()[t].indexes@;
                    assert forall|a: int, b: int| 0 <= a < b < ix.len() implies (#[trigger] ix[a]).meta.name@
                        != (#[trigger] ix[b]).meta.name@ by {
                        if b < ix.len() - 1 {
                            assert(ix[a] == old(self).tables_view()[t].indexes@[a]);
                            assert(ix[b] == old(self).tables_view()[t].indexes@[b]);
                        } else {
                            assert(ix[a] == old(self).tables_view()[t].indexes@[a]);
                        }
                    }
                } else {
                    assert(self.tables_view()[t] == old(self).tables_view()[t]);
                }
            }
        }
        Ok(())
    }

    /// The secondary index `index` of table `table`: `TableNotFound` with
    /// the table's name without the table, `Internal` without the index.
    #[verifier::loop_isolation(false)]
    pub fn index(&self, table: &str, index: &str) -> (r: Result<&IndexEntry, EngineError>)
        ensures
            !self.names().contains(table@) ==> (r matches Err(EngineError::TableNotFound(m)) && m@ == table@),
            r matches Ok(e) ==> e.meta.name@ == index@ && exists|i: int, j: int|
                0 <= i < self.tables_view().len() && self.tables_view()[i].name@ == table@ && 0 <= j
                    < self.tables_view()[i].indexes@.len() && self.tables_view()[i].indexes@[j] == *e,
            self.wf() ==> forall|i: int|
                0 <= i < self.tables_view().len() && #[trigger] self.tables_view()[i].name@ == table@
                    ==> {
                    &&& r is Ok <==> exists|j: int|
                        0 <= j < self.tables_view()[i].indexes@.len() && (#[trigger] self.tables_view()[i].indexes@[j]).meta.name@
                            == index@
                    &&& r matches Err(e) ==> e is Internal
                },
    {
        let t = match self.get(table) {
            Ok(t) => t,
            Err(e) => {
                proof {
                    assert forall|q: int| 0 <= q < self.tables_view().len() implies #[trigger] self.tables_view()[q].name@
                        != table@ by {
                        assert(self.names()[q] == self.tables_view()[q].name@);
                    }
                }
                return Err(e);
            },
        };
        proof {
            if self.wf() {
                let i0 = choose|i: int| 0 <= i < self.tables_view().len() && self.tables_view()[i] == *t;
                assert forall|q: int|
                    0 <= q < self.tables_view().len() && #[trigger] self.tables_view()[q].name@ == table@
                        implies self.tables_view()[q] == *t by {
                    self.lemma_unique_name(q, i0);
                }
            }
        }
        let mut k: usize = 0;
        while k < t.indexes.len()
            invariant
                k <= t.indexes@.len(),
                forall|q: int| 0 <= q < k ==> (#[trigger] t.indexes@[q]).meta.name@ != index@,
            decreases t.indexes@.len() - k,
        {
            if str_eq(t.indexes[k].meta.name.as_str(), index) {
                return Ok(&t.indexes[k]);
            }
            k = k + 1;
        }
        Err(EngineError::Internal(message("index not found: ", index)))
    }

    /// Position of the table named `table` and of its index `index`.
    #[verifier::loop_isolation(false)]
    pub(crate) fn index_position(&self, table: &str, index: &str) -> (r: Result<
        (usize, usize),
        EngineError,
    >)
        ensures
            !self.names().contains(table@) ==> r matches Err(EngineError::TableNotFound(_)),
            r matches Ok((i, j)) ==> i < self.tables_view().len() && self.tables_view()[i as int].name@
                == table@ && j < self.tables_view()[i as int].indexes@.len()
                && self.tables_view()[i as int].indexes@[j as int].meta.name@ == index@,
    {
        let i = match self.position(table) {
            Some(i) => {
                proof {
                    assert(self.names()[i as int] == table@);
                }
                i
            },
            None => {
                proof {
                    assert(!self.names().contains(table@)) by {
                        if self.names().contains(table@) {
                            let k = choose|k: int|
                                0 <= k < self.names().len() && self.names()[k] == table@;
                            assert(self.tables@[k].name@ == table@);
                        }
                    }
                }
                return Err(EngineError::TableNotFound(table.to_string()));
            },
        };
        let mut k: usize = 0;
        while k < self.tables[i].indexes.len()
            invariant
                i < self.tables@.len(),
                k <= self.tables@[i as int].indexes@.len(),
            decreases self.tables@[i as int].indexes@.len() - k,
        {
            if str_eq(self.tables[i].indexes[k].meta.name.as_str(), index) {
                return Ok((i, k));
            }
            k = k + 1;
        }
        Err(EngineError::Internal(message("index not found: ", index)))
    }

    /// The secondary index `index` of table `table`, mutable:
    /// `TableNotFound` without the table, `Internal` without the index.
    pub fn index_mut(&mut self, table: &str, index: &str) -> (r: Result<&mut IndexEntry, EngineError>)
        ensures
            !old(self).names().contains(table@) ==> r matches Err(EngineError::TableNotFound(_)),
            r matches Ok(e) ==> e.meta.name@ == index@,
    {
        let (i, j) = match self.index_position(table, index) {
            Ok(p) => p,
            Err(e) => return Err(e),
        };
        Ok(&mut self.tables[i].indexes[j])
    }

    /// Table at position `i`.
    pub(crate) fn table_at(&self, i: usize) -> (r: &TableMeta)
        requires
            i < self.tables_view().len(),
        ensures
            *r == self.tables_view()[i as int],
    {
        &self.tables[i]
    }

    /// Table at position `i`, mutable; its name must be kept.
    pub(crate) fn table_at_mut(&mut self, i: usize) -> (r: &mut TableMeta)
        requires
            i < old(self).tables_view().len(),
        ensures
            *r == old(self).tables_view()[i as int],
            final(self).tables_view() == old(self).tables_view().update(i as int, *final(r)),
    {
        &mut self.tables[i]
    }

    /// Position of the table named `name`, or `TableNotFound(name)`.
    pub(crate) fn table_position(&self, name: &str) -> (r: Result<usize, EngineError>)
        ensures
            match r {
                Ok(i) => i < self.tables_view().len() && self.tables_view()[i as int].name@ == name@
                    && self.names().contains(name@),
                Err(e) => !self.names().contains(name@) && (e matches EngineError::TableNotFound(m)
                    && m@ == name@),
            },
    {
        match self.position(name) {
            Some(i) => {
                proof {
                    assert(self.names()[i as int] == name@);
                }
                Ok(i)
            },
            None => {
                proof {
                    assert(!self.names().contains(name@)) by {
                        if self.names().contains(name@) {
                            let k = choose|k: int|
                                0 <= k < self.names().len() && self.names()[k] == name@;
                            assert(self.tables@[k].name@ == name@);
                        }
                    }
                }
                Err(EngineError::TableNotFound(name.to_string()))
            },
        }
    }

}

impl Default for TableCatalog {
    fn default() -> (r: Self)
        ensures
            r.wf(),
            r.tables_view() == Seq::<TableMeta>::empty(),
    {
        TableCatalog::new()
    }
}

} // verus!
