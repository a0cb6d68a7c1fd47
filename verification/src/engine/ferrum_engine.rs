//! The engine: each table is a clustered B+Tree (primary key encoding to row
//! encoding) plus one B+Tree per secondary index (index key followed by the
//! primary key encoding, to the primary key encoding), all in one tablespace.
use super::catalog::{spec_index_meta_ok, str_eq, IndexEntry, TableCatalog, TableMeta};
use super::engine::{EngineError, IndexMeta, RangeBound, StorageEngine, TransactionId};
use crate::btree::error::{spec_btree_message, BTreeError};
use crate::page::error::spec_page_message;
use crate::space::error::spec_space_message;
use crate::text::{joined, spec_decimal, with_number};
use crate::btree::persistent::{stored_in_leaf, PersistentBtree, ENTRY_MAX, MAX_STEPS};
use crate::page::error::PageError;
use crate::page::key::{
    decode_key, encode_index_key, spec_decode_key, encode_key, encode_pk, encode_secondary_key,
    primary_key_type, spec_encode_key, spec_encode_keys, spec_successor, spec_upper_bound, successor,
    upper_bound,
};
use crate::page::page::{Page, PAGE_SIZE};
use crate::page::row::{
    decode_row, encode_row, lemma_row_round_trip, spec_decode_row, spec_is_row_encoding,
    spec_row_encodable, spec_bitmap_len, spec_payload, ColumnType, Row, Schema, Value,
    ValueView,
};
use crate::space::error::SpaceError;
use crate::space::page_source::{PageImage, PageSource};
use crate::space::space::{spec_readable, Space};
use super::forest::{forest_wf, is_tree, lemma_forest_add, lemma_forest_frame, lemma_forest_step, tree_at, tree_count};
use crate::btree::ptree::{byte_lookup, byte_put, ByteEntry};
use crate::btree::pscan::byte_range;
use crate::btree::persistent::kv_entries;
use vstd::prelude::*;

verus! {

/// Read-only access to a tablespace as a page source: writes and
/// allocations are refused with `NotInitialized`.
struct SpaceReader<'a> {
    space: &'a Space,
}

impl<'a> PageSource for SpaceReader<'a> {
    /// Allocation promises nothing about which page it hands out.
    open spec fn fresh_alloc(&self) -> bool {
        false
    }

    /// Reads of readable pages succeed.
    open spec fn reads_succeed(&self) -> bool {
        true
    }

    /// The superblock cannot be written through a reader.
    open spec fn has_root(&self) -> bool {
        false
    }

    /// Writes are refused.
    open spec fn writable(&self) -> bool {
        false
    }

    /// Allocations are refused.
    open spec fn alloc_room(&self) -> nat {
        0
    }

    closed spec fn pages(&self) -> Map<u32, PageImage> {
        spec_readable(self.space@.pages)
    }

    closed spec fn valid(&self) -> bool {
        self.space.wf()
    }

    fn read_page(&mut self, page_id: u32) -> (r: Result<Page, SpaceError>) {
        self.space.read_page_ref(page_id)
    }

    fn write_page(&mut self, page_id: u32, page: &Page) -> (r: Result<(), SpaceError>) {
        Err(SpaceError::NotInitialized)
    }

    fn allocate_page(&mut self) -> (r: Result<u32, SpaceError>) {
        Err(SpaceError::NotInitialized)
    }

    fn set_root_page_id(&mut self, page_id: u32) -> (r: Result<(), SpaceError>) {
        Err(SpaceError::NotInitialized)
    }
}

/// The message for a row of `got` values where the schema has `expected`
/// columns.
fn arity_message(got: usize, expected: usize) -> (r: String)
    ensures
        r@ == "row has "@ + spec_decimal(got as nat) + " values, schema expects "@ + spec_decimal(
            expected as nat,
        ),
{
    with_number("row has ", got as u64).concat(with_number(" values, schema expects ", expected as u64).as_str())
}

/// The message for an index column `column` beyond a row of `got` values.
fn index_column_message(got: usize, column: usize) -> (r: String)
    ensures
        r@ == "row has "@ + spec_decimal(got as nat) + " values, index column "@ + spec_decimal(
            column as nat,
        ) + " out of range"@,
{
    with_number("row has ", got as u64).concat(with_number(" values, index column ", column as u64).as_str()).concat(
        " out of range",
    )
}

/// A B+Tree error as an engine error: `Internal` with `"btree: "` and its
/// message.
fn btree_err(e: BTreeError) -> (r: EngineError)
    ensures
        r is Internal,
        !(e matches BTreeError::Space(SpaceError::Io(_))) ==> (r matches EngineError::Internal(m) && m@
            == "btree: "@ + spec_btree_message(e)),
{
    EngineError::Internal(joined("btree: ", e.message().as_str()))
}

/// A tablespace error as an engine error: `Internal` with `"space: "` and
/// its message.
fn space_err(e: SpaceError) -> (r: EngineError)
    ensures
        r is Internal,
        !(e is Io) ==> (r matches EngineError::Internal(m) && m@ == "space: "@ + spec_space_message(e)),
{
    EngineError::Internal(joined("space: ", e.message().as_str()))
}

/// A page error as an engine error: `Internal` with `"page: "` and its
/// message.
fn page_err(e: PageError) -> (r: EngineError)
    ensures
        r is Internal,
        r matches EngineError::Internal(m) && m@ == "page: "@ + spec_page_message(e),
{
    EngineError::Internal(joined("page: ", e.message().as_str()))
}

/// A schema rows can be encoded with: a type per column and a primary key
/// column inside the row.
pub open spec fn schema_ok(s: Schema) -> bool {
    &&& s.types@.len() >= s.columns@.len()
    &&& s.primary_key matches Some(p) ==> p < s.columns@.len()
}

/// A copy of a schema.
fn copy_schema(s: &Schema) -> (r: Schema)
    ensures
        r.columns@ == s.columns@,
        r.types@ == s.types@,
        r.primary_key == s.primary_key,
{
    let columns = s.columns.clone();
    let types = s.types.clone();
    proof {
        assert(columns@ =~= s.columns@);
        assert(types@ =~= s.types@);
    }
    Schema { columns, types, primary_key: s.primary_key }
}

/// The storage engine over one tablespace.
pub struct FerrumEngine {
    space: Space,
    catalog: TableCatalog,
}

impl FerrumEngine {
    /// The tablespace.
    pub closed spec fn space_view(&self) -> Space {
        self.space
    }

    /// The catalog.
    pub closed spec fn catalog_view(&self) -> TableCatalog {
        self.catalog
    }

    /// The tablespace is well formed, table names are distinct and every
    /// schema can encode rows.
    pub open spec fn wf(&self) -> bool {
        &&& self.space_view().wf()
        &&& self.catalog_view().wf()
        &&& forall|i: int|
            0 <= i < self.catalog_view().tables_view().len() ==> schema_ok(
                #[trigger] self.catalog_view().tables_view()[i].schema,
            )
    }

    /// The readable pages of the tablespace.
    pub open spec fn pages(&self) -> Map<u32, PageImage> {
        spec_readable(self.space_view()@.pages)
    }

    /// The engine is well formed, its tablespace hands out pages not in use
    /// (its free list is empty), and the trees of its tables are well formed
    /// and share no page.
    pub open spec fn sound(&self) -> bool {
        &&& self.wf()
        &&& self.space_view().fresh_alloc()
        &&& forest_wf(self.catalog_view().tables_view(), self.pages())
    }

    /// Tree `j` of table `i` can be walked within the step budget.
    pub open spec fn walkable_tree(&self, i: int, j: int) -> bool {
        tree_at(self.catalog_view().tables_view(), i, j).walkable(self.pages())
    }

    /// The entries of tree `j` of table `i` (the clustered tree for `j == 0`,
    /// else index `j - 1`).
    pub open spec fn tree_entries(&self, i: int, j: int) -> Seq<ByteEntry> {
        tree_at(self.catalog_view().tables_view(), i, j).entries_in(self.pages())
    }

    /// An engine over `space` with an empty catalog.
    pub fn new(space: Space) -> (r: Self)
        requires
            space.wf(),
        ensures
            r.wf(),
            r.space_view() == space,
            r.catalog_view().tables_view().len() == 0,
            space.fresh_alloc() ==> r.sound(),
    {
        FerrumEngine { space, catalog: TableCatalog::new() }
    }

    /// Opens the tablespace whose file holds `image`, or creates one when
    /// there is no file or its page 0 is not a superblock
    /// (`SuperblockInvalidMagic`); other opening errors give `Internal`.
    pub fn open_or_create(image: Option<&[u8]>) -> (r: Result<Self, EngineError>)
        requires
            image matches Some(b) ==> b@.len() / (PAGE_SIZE as nat) <= u32::MAX,
        ensures
            r matches Ok(e) ==> e.wf() && e.catalog_view().tables_view().len() == 0,
            r matches Ok(e) ==> (e.space_view().fresh_alloc() ==> e.sound()),
            image is None ==> (r matches Ok(e) && e.sound()),
            r matches Err(e) ==> e is Internal,
    {
        match image {
            None => Ok(FerrumEngine::new(Space::create())),
            Some(bytes) => match Space::open(bytes) {
                Ok(s) => Ok(FerrumEngine::new(s)),
                Err(SpaceError::SuperblockInvalidMagic) => Ok(FerrumEngine::new(Space::create())),
                Err(e) => Err(space_err(e)),
            },
        }
    }

    /// The bytes of the tablespace file.
    pub fn image(&self) -> (r: Vec<u8>)
        ensures
            r@ == crate::space::space::spec_flatten(self.space_view()@.pages),
    {
        self.space.image()
    }

    /// Number of pages in the tablespace.
    pub fn page_count(&self) -> (r: u32)
        requires
            self.wf(),
        ensures
            r == self.space_view()@.page_count(),
    {
        self.space.page_count()
    }

    /// Root page ids of the clustered tree and of each secondary index of
    /// `table`; `TableNotFound` without the table.
    pub fn root_ids(&self, table: &str) -> (r: Result<(u32, Vec<(String, u32)>), EngineError>)
        ensures
            !self.catalog_view().names().contains(table@) ==> r matches Err(
                EngineError::TableNotFound(_),
            ),
            r matches Ok((c, ids)) ==> exists|i: int|
                0 <= i < self.catalog_view().tables_view().len()
                    && self.catalog_view().tables_view()[i].name@ == table@
                    && self.catalog_view().tables_view()[i].clustered@.root_page_id == c
                    && ids@.len() == self.catalog_view().tables_view()[i].indexes@.len()
                    && forall|j: int| 0 <= j < ids@.len() ==> {
                        &&& (#[trigger] ids@[j]).0@ == self.catalog_view().tables_view()[i].indexes@[j].meta.name@
                        &&& ids@[j].1 == self.catalog_view().tables_view()[i].indexes@[j].tree@.root_page_id
                    },
            self.catalog_view().names().contains(table@) ==> r is Ok,
    {
        let meta = match self.catalog.get(table) {
            Ok(m) => m,
            Err(e) => return Err(e),
        };
        let clustered = meta.clustered.root_page_id();
        let mut out: Vec<(String, u32)> = Vec::new();
        let mut j: usize = 0;
        while j < meta.indexes.len()
            invariant
                j <= meta.indexes@.len(),
                out@.len() == j,
                forall|q: int| 0 <= q < j ==> {
                    &&& (#[trigger] out@[q]).0@ == meta.indexes@[q].meta.name@
                    &&& out@[q].1 == meta.indexes@[q].tree@.root_page_id
                },
            decreases meta.indexes@.len() - j,
        {
            out.push((meta.indexes[j].meta.name.clone(), meta.indexes[j].tree.root_page_id()));
            j = j + 1;
        }
        Ok((clustered, out))
    }

    /// Values of the index columns of `row`; a column beyond the row gives
    /// `Internal`.
    fn index_values(meta: &IndexMeta, row: &Row) -> (r: Result<Vec<Value>, EngineError>)
        ensures
            r matches Ok(v) ==> v@.len() == meta.columns@.len() && (forall|j: int|
                0 <= j < v@.len() ==> #[trigger] meta.columns@[j] < row.values@.len()) && (forall|
                j: int|
                0 <= j < v@.len() ==> (#[trigger] v@[j])@ == row.values@[meta.columns@[j] as int]@),
            r matches Ok(v) ==> v@.map_values(|x: Value| x@) == index_values_of(meta.columns@, row@),
            r matches Err(e) ==> e is Internal,
            r is Err <==> exists|j: int|
                0 <= j < meta.columns@.len() && #[trigger] meta.columns@[j] >= row.values@.len(),
    {
        let mut out: Vec<Value> = Vec::new();
        let mut j: usize = 0;
        while j < meta.columns.len()
            invariant
                j <= meta.columns@.len(),
                out@.len() == j,
                forall|k: int| 0 <= k < j ==> #[trigger] meta.columns@[k] < row.values@.len(),
                forall|k: int|
                    0 <= k < j ==> (#[trigger] out@[k])@ == row.values@[meta.columns@[k] as int]@,
            decreases meta.columns@.len() - j,
        {
            let c = meta.columns[j];
            if c >= row.values.len() {
                return Err(EngineError::Internal(index_column_message(row.values.len(), c)));
            }
            let v = row.values[c].duplicate();
            out.push(v);
            j = j + 1;
        }
        proof {
            assert(out@.map_values(|x: Value| x@) =~= index_values_of(meta.columns@, row@));
        }
        Ok(out)
    }

    /// Whether the index tree holds a key starting with `index_key`: the
    /// keys starting with it are exactly those in `[index_key, successor)`.
    fn unique_index_conflict<S: PageSource>(
        source: &mut S,
        tree: &PersistentBtree,
        index_key: &[u8],
    ) -> (r: Result<bool, EngineError>)
        requires
            (*old(source)).valid(),
        ensures
            (*final(source)).valid(),
            (*final(source)).pages() == (*old(source)).pages(),
            r matches Err(e) ==> e is Internal,
            spec_successor(index_key@) is None ==> r is Err,
            tree.wf_in((*old(source)).pages()) ==> (r matches Ok(b) ==> (spec_successor(index_key@) matches Some(
                e,
            ) && b == (byte_range(tree.entries_in((*old(source)).pages()), index_key@, e).len() > 0))),
            (*old(source)).reads_succeed() && tree.wf_in((*old(source)).pages()) && tree.walkable(
                (*old(source)).pages(),
            ) && spec_successor(index_key@) is Some ==> r is Ok,
    {
        let end = match successor(index_key) {
            Some(e) => e,
            None => {
                return Err(EngineError::Internal("index key has no finite successor".to_string()));
            },
        };
        match tree.scan_range(source, index_key, end.as_slice()) {
            Ok(hits) => {
                assert(kv_entries(hits@).len() == hits@.len());
                Ok(hits.len() != 0)
            },
            Err(e) => Err(btree_err(e)),
        }
    }
}

/// A stored leaf entry of `pages` with key `key` holds an encoding of `row`.
pub open spec fn row_stored(
    pages: Map<u32, PageImage>,
    key: Seq<u8>,
    schema: Schema,
    row: Seq<crate::page::row::ValueView>,
) -> bool {
    exists|v: Seq<u8>|
        stored_in_leaf(pages, key, v) && #[trigger] spec_decode_row(
            v,
            schema.types@,
            schema.columns@.len(),
        ) == Some(row)
}

/// Writes a new row: the clustered entry, then an entry in every index.
/// When `t` is table `ti` of a well-formed forest `tables` over a
/// tablespace that hands out fresh pages, a success stores `row_bytes`
/// under `pk_bytes` in the clustered tree and `pk_bytes` under the row's
/// key in every index, keeps the forest well formed, and leaves the trees
/// of the other tables reading as before.
#[verifier::loop_isolation(false)]
/// Pages that inserting into the index trees `ixs[j..]` may allocate: a
/// page per level of each tree and one more.
pub open spec fn index_budget(ixs: Seq<IndexEntry>, j: int) -> int
    decreases ixs.len() - j,
{
    if j < 0 || j >= ixs.len() {
        0
    } else {
        ixs[j].tree@.height + 1 + index_budget(ixs, j + 1)
    }
}

/// The budget is never negative.
proof fn lemma_budget_nonneg(ixs: Seq<IndexEntry>, j: int)
    ensures
        index_budget(ixs, j) >= 0,
    decreases ixs.len() - j,
{
    if 0 <= j < ixs.len() {
        lemma_budget_nonneg(ixs, j + 1);
    }
}

/// Index `e` takes `row` (primary key `pk`) in `pages`: its columns lie in
/// the row, its key for the row is at most `ENTRY_MAX` bytes long, and its
/// tree holds only such entries, is at most `MAX_STEPS` high and not at its
/// entry count limit.
pub open spec fn index_fits(e: IndexEntry, pages: Map<u32, PageImage>, row: Seq<ValueView>, pk: ValueView) -> bool {
    &&& forall|k: int| 0 <= k < e.meta.columns@.len() ==> #[trigger] e.meta.columns@[k] < row.len()
    &&& secondary_key(e.meta.columns@, row, pk).len() <= ENTRY_MAX
    &&& e.tree.small_in(pages)
    &&& e.tree@.height <= MAX_STEPS
    &&& e.tree@.len < usize::MAX
}

fn write_new_row(
    t: &mut TableMeta,
    space: &mut Space,
    pk_bytes: &Vec<u8>,
    row_bytes: Vec<u8>,
    row: &Row,
    pk_value: &Value,
    Ghost(tables): Ghost<Seq<TableMeta>>,
    Ghost(ti): Ghost<int>,
) -> (r: Result<(), EngineError>)
    requires
        old(space).wf(),
    ensures
        final(space).wf(),
        final(t).name == old(t).name,
        final(t).schema == old(t).schema,
        final(t).indexes@.len() == old(t).indexes@.len(),
        forall|j: int|
            0 <= j < final(t).indexes@.len() ==> (#[trigger] final(t).indexes@[j]).meta == old(t).indexes@[j].meta,
        r matches Err(e) ==> e is Internal,
        0 <= ti < tables.len() && tables[ti] == *old(t) && (*old(space)).fresh_alloc() && forest_wf(
            tables,
            spec_readable(old(space)@.pages),
        ) && r is Ok ==> row_written(
            tables,
            tables.update(ti, *final(t)),
            spec_readable(old(space)@.pages),
            spec_readable(final(space)@.pages),
            ti,
            pk_bytes@,
            row_bytes@,
            row@,
            pk_value@,
        ) && (*final(space)).fresh_alloc(),
        0 <= ti < tables.len() && tables[ti] == *old(t) && (*old(space)).fresh_alloc() && forest_wf(
            tables,
            spec_readable(old(space)@.pages),
        ) && (forall|k: int|
            0 <= k < old(t).indexes@.len() ==> index_fits(
                #[trigger] old(t).indexes@[k],
                spec_readable(old(space)@.pages),
                row@,
                pk_value@,
            )) && old(t).clustered.small_in(spec_readable(old(space)@.pages)) && old(t).clustered@.len
            < usize::MAX && old(t).clustered@.height <= MAX_STEPS && (*old(space)).alloc_room() > old(
            t,
        ).clustered@.height + index_budget(old(t).indexes@, 0) && pk_bytes@.len() <= ENTRY_MAX
            && row_bytes@.len() <= ENTRY_MAX ==> r is Ok,
{
    let ghost p0 = spec_readable(space@.pages);
    let ghost premise = 0 <= ti < tables.len() && tables[ti] == *t && space.fresh_alloc()
        && forest_wf(tables, p0);
    let ghost sure = premise && (forall|k: int|
        0 <= k < t.indexes@.len() ==> index_fits(#[trigger] t.indexes@[k], p0, row@, pk_value@))
        && t.clustered.small_in(p0) && t.clustered@.len < usize::MAX && t.clustered@.height <= MAX_STEPS
        && space.alloc_room() > t.clustered@.height + index_budget(t.indexes@, 0)
        && pk_bytes@.len() <= ENTRY_MAX && row_bytes@.len() <= ENTRY_MAX;
    proof {
        lemma_budget_nonneg(t.indexes@, 0);
    }
    let ghost t_old = *t;
    if t.clustered.len() == usize::MAX || t.clustered.height() == usize::MAX {
        return Err(EngineError::Internal("clustered tree is full".to_string()));
    }
    match t.clustered.insert(space, pk_bytes.clone(), row_bytes) {
        Ok(()) => {},
        Err(e) => return Err(btree_err(e)),
    }
    proof {
        if premise {
            assert(tree_at(tables, ti, 0).wf_in(p0));
            lemma_forest_step(tables, tables.update(ti, *t), p0, spec_readable(space@.pages), ti, 0);
        }
    }
    let mut j: usize = 0;
    while j < t.indexes.len()
        invariant
            space.wf(),
            t.name == old(t).name,
            t.schema == old(t).schema,
            t.indexes@.len() == t_old.indexes@.len(),
            forall|k: int| 0 <= k < t.indexes@.len() ==> (#[trigger] t.indexes@[k]).meta == t_old.indexes@[k].meta,
            j <= t.indexes@.len(),
            t_old == *old(t),
            0 <= ti < tables.len() && tables[ti] == *old(t) && (*old(space)).fresh_alloc() && forest_wf(
                tables,
                spec_readable(old(space)@.pages),
            ) && (forall|k: int|
                0 <= k < old(t).indexes@.len() ==> index_fits(
                    #[trigger] old(t).indexes@[k],
                    spec_readable(old(space)@.pages),
                    row@,
                    pk_value@,
                )) && old(t).clustered.small_in(spec_readable(old(space)@.pages)) && old(t).clustered@.len
                < usize::MAX && old(t).clustered@.height <= MAX_STEPS && (*old(space)).alloc_room() > old(
                t,
            ).clustered@.height + index_budget(old(t).indexes@, 0) && pk_bytes@.len() <= ENTRY_MAX
                && row_bytes@.len() <= ENTRY_MAX ==> sure,
            sure ==> premise,
            premise ==> 0 <= ti < tables.len() && tables[ti] == t_old,
            sure ==> space.alloc_room() >= index_budget(t_old.indexes@, j as int),
            sure ==> forall|k: int|
                0 <= k < t_old.indexes@.len() ==> index_fits(#[trigger] t_old.indexes@[k], p0, row@, pk_value@),
            sure ==> pk_bytes@.len() <= ENTRY_MAX,
            premise ==> {
                let pc = spec_readable(space@.pages);
                let tc = tables.update(ti, *t);
                &&& space.fresh_alloc()
                &&& forest_wf(tc, pc)
                &&& tree_at(tc, ti, 0).entries_in(pc) == byte_put(
                    tree_at(tables, ti, 0).entries_in(p0),
                    pk_bytes@,
                    row_bytes@,
                )
                &&& forall|k: int|
                    0 <= k < j ==> (#[trigger] tree_at(tc, ti, k + 1)).entries_in(pc) == byte_put(
                        tree_at(tables, ti, k + 1).entries_in(p0),
                        secondary_key(t_old.indexes@[k].meta.columns@, row@, pk_value@),
                        pk_bytes@,
                    )
                &&& forall|k: int|
                    j <= k < t.indexes@.len() ==> (#[trigger] tree_at(tc, ti, k + 1)) == tree_at(
                        tables,
                        ti,
                        k + 1,
                    ) && tree_at(tc, ti, k + 1).entries_in(pc) == tree_at(tables, ti, k + 1).entries_in(p0)
                        && tree_at(tc, ti, k + 1).small_in(pc) == tree_at(tables, ti, k + 1).small_in(p0)
                &&& forall|i: int, jj: int|
                    is_tree(tables, i, jj) && i != ti ==> (#[trigger] tree_at(tc, i, jj)).entries_in(pc)
                        == tree_at(tables, i, jj).entries_in(p0)
            },
        decreases t.indexes@.len() - j,
    {
        let vals = match FerrumEngine::index_values(&t.indexes[j].meta, row) {
            Ok(v) => v,
            Err(e) => return Err(e),
        };
        let full_key = encode_secondary_key(vals.as_slice(), pk_value);
        let ghost room = space.alloc_room();
        proof {
            if sure {
                let tc = tables.update(ti, *t);
                let pc = spec_readable(space@.pages);
                assert(tree_at(tc, ti, j + 1) == tree_at(tables, ti, j + 1));
                assert(t.indexes@[j as int].tree == t_old.indexes@[j as int].tree);
                assert(index_fits(t_old.indexes@[j as int], p0, row@, pk_value@));
                lemma_budget_nonneg(t_old.indexes@, j + 1);
                assert(room >= t_old.indexes@[j as int].tree@.height + 1 + index_budget(t_old.indexes@, j + 1));
                assert(tree_at(tc, ti, j + 1).small_in(pc));
                assert(tree_at(tc, ti, j + 1).wf_in(pc));
                assert(full_key@ == secondary_key(t_old.indexes@[j as int].meta.columns@, row@, pk_value@));
                assert(room <= u32::MAX);
            }
        }
        if t.indexes[j].tree.len() == usize::MAX || t.indexes[j].tree.height() == usize::MAX {
            return Err(EngineError::Internal("index tree is full".to_string()));
        }
        let ghost tb = *t;
        let ghost pb = spec_readable(space@.pages);
        let ghost fk = full_key@;
        match t.indexes[j].tree.insert(space, full_key, pk_bytes.clone()) {
            Ok(()) => {},
            Err(e) => return Err(btree_err(e)),
        }
        proof {
            if premise {
                let tcb = tables.update(ti, tb);
                let tca = tables.update(ti, *t);
                assert(fk == secondary_key(t_old.indexes@[j as int].meta.columns@, row@, pk_value@));
                assert(tree_at(tcb, ti, j + 1).wf_in(pb));
                assert forall|k: int| 0 <= k < tree_count(tcb[ti]) && k != j + 1 implies tree_at(tca, ti, k)
                    == tree_at(tcb, ti, k) by {
                    if k > 0 {
                        assert(t.indexes@[k - 1] == tb.indexes@[k - 1]);
                    }
                }
                lemma_forest_step(tcb, tca, pb, spec_readable(space@.pages), ti, j + 1);
            }
        }
        j = j + 1;
    }
    Ok(())
}

/// Every unique index of `t` can be checked for `row`: its tree is well
/// formed and walkable, its columns lie in the row, and the key prefix of
/// the row's index values has a successor.
pub open spec fn unique_checkable(t: TableMeta, pages: Map<u32, PageImage>, row: Seq<ValueView>) -> bool {
    forall|j: int|
        0 <= j < t.indexes@.len() && (#[trigger] t.indexes@[j]).meta.is_unique ==> {
            &&& t.indexes@[j].tree.wf_in(pages)
            &&& t.indexes@[j].tree.walkable(pages)
            &&& forall|k: int| 0 <= k < t.indexes@[j].meta.columns@.len() ==> #[trigger] t.indexes@[j].meta.columns@[k] < row.len()
            &&& spec_successor(spec_encode_keys(index_values_of(t.indexes@[j].meta.columns@, row))) is Some
        }
}

/// Whether a unique index of `t` already holds the index values of `row`.
/// With every index tree of `t` well formed, `true` means some unique index
/// holds them and `false` that none does; when every unique index can be
/// checked, the answer comes.
#[verifier::loop_isolation(false)]
fn unique_conflict(t: &TableMeta, space: &Space, row: &Row) -> (r: Result<bool, EngineError>)
    requires
        space.wf(),
    ensures
        unique_checkable(*t, spec_readable(space@.pages), row@) ==> r is Ok,
        r matches Err(e) ==> e is Internal,
        (forall|j: int|
            0 <= j < t.indexes@.len() ==> (#[trigger] t.indexes@[j]).tree.wf_in(
                spec_readable(space@.pages),
            )) ==> (r == Ok::<bool, EngineError>(true) ==> unique_taken(
            *t,
            spec_readable(space@.pages),
            row@,
        )) && (r == Ok::<bool, EngineError>(false) ==> !unique_taken(
            *t,
            spec_readable(space@.pages),
            row@,
        )),
{
    let ghost pages = spec_readable(space@.pages);
    let ghost premise = forall|j: int|
        0 <= j < t.indexes@.len() ==> (#[trigger] t.indexes@[j]).tree.wf_in(pages);
    let mut reader = SpaceReader { space };
    let mut j: usize = 0;
    while j < t.indexes.len()
        invariant
            reader.valid(),
            reader.pages() == pages,
            j <= t.indexes@.len(),
            premise ==> forall|k: int| 0 <= k < j ==> !index_taken(#[trigger] t.indexes@[k], pages, row@),
        decreases t.indexes@.len() - j,
    {
        if t.indexes[j].meta.is_unique {
            let vals = match FerrumEngine::index_values(&t.indexes[j].meta, row) {
                Ok(v) => v,
                Err(e) => return Err(e),
            };
            let key = encode_index_key(vals.as_slice());
            proof {
                if premise {
                    assert(t.indexes@[j as int].tree.wf_in(pages));
                }
            }
            match FerrumEngine::unique_index_conflict(&mut reader, &t.indexes[j].tree, key.as_slice()) {
                Ok(true) => {
                    proof {
                        if premise {
                            assert(index_taken(t.indexes@[j as int], pages, row@));
                        }
                    }
                    return Ok(true);
                },
                Ok(false) => {},
                Err(e) => return Err(e),
            }
        }
        j = j + 1;
    }
    Ok(false)
}

/// After a table is changed in place with its name and schema kept, the
/// engine stays well formed and the names stay.
proof fn lemma_table_rewritten(before: TableCatalog, after: TableCatalog, i: int, t: TableMeta)
    requires
        before.wf(),
        0 <= i < before.tables_view().len(),
        t.name == before.tables_view()[i].name,
        t.schema == before.tables_view()[i].schema,
        t.indexes@.len() == before.tables_view()[i].indexes@.len(),
        forall|j: int|
            0 <= j < t.indexes@.len() ==> (#[trigger] t.indexes@[j]).meta == before.tables_view()[i].indexes@[j].meta,
        after.tables_view() == before.tables_view().update(i, t),
    ensures
        after.wf(),
        after.names() == before.names(),
        after.tables_view().len() == before.tables_view().len(),
        forall|k: int|
            0 <= k < before.tables_view().len() ==> (#[trigger] after.tables_view()[k]).schema
                == before.tables_view()[k].schema,
{
    assert(after.names() =~= before.names());
    assert forall|k: int| 0 <= k < after.tables_view().len() implies super::catalog::index_names_distinct(
        #[trigger] after.tables_view()[k],
    ) by {
        if k == i {
            assert(super::catalog::index_names_distinct(before.tables_view()[i]));
            assert forall|a: int, b: int| 0 <= a < b < t.indexes@.len() implies (#[trigger] t.indexes@[a]).meta.name@
                != (#[trigger] t.indexes@[b]).meta.name@ by {
                assert(t.indexes@[a].meta == before.tables_view()[i].indexes@[a].meta);
                assert(t.indexes@[b].meta == before.tables_view()[i].indexes@[b].meta);
            }
        }
    }
}

/// Index names of a table are distinct: an index named as index `j` is
/// index `j`.
proof fn lemma_index_names_unique(t: TableMeta, j: int)
    requires
        super::catalog::index_names_distinct(t),
        0 <= j < t.indexes@.len(),
    ensures
        forall|q: int|
            0 <= q < t.indexes@.len() && (#[trigger] t.indexes@[q]).meta.name@ == t.indexes@[j].meta.name@
                ==> q == j,
{
    assert forall|q: int|
        0 <= q < t.indexes@.len() && (#[trigger] t.indexes@[q]).meta.name@ == t.indexes@[j].meta.name@ implies q
        == j by {
        if q < j {
            assert(t.indexes@[q].meta.name@ != t.indexes@[j].meta.name@);
        } else if j < q {
            assert(t.indexes@[j].meta.name@ != t.indexes@[q].meta.name@);
        }
    }
}

/// The values of the columns `cols` of a row.
pub open spec fn index_values_of(cols: Seq<usize>, row: Seq<ValueView>) -> Seq<ValueView> {
    cols.map_values(|c: usize| row[c as int])
}

/// The key an index on columns `cols` stores for a row whose primary key is
/// `pk`: the encodings of the index values, then that of the primary key.
pub open spec fn secondary_key(cols: Seq<usize>, row: Seq<ValueView>, pk: ValueView) -> Seq<u8> {
    spec_encode_keys(index_values_of(cols, row)) + spec_encode_key(pk)
}

/// Index `e` is unique and already holds a key that starts with the
/// encoding of the index values of `row`.
pub open spec fn index_taken(e: IndexEntry, pages: Map<u32, PageImage>, row: Seq<ValueView>) -> bool {
    let ik = spec_encode_keys(index_values_of(e.meta.columns@, row));
    &&& e.meta.is_unique
    &&& forall|j: int| 0 <= j < e.meta.columns@.len() ==> #[trigger] e.meta.columns@[j] < row.len()
    &&& spec_successor(ik) matches Some(end) && byte_range(e.tree.entries_in(pages), ik, end).len() > 0
}

/// Some unique index of `t` already holds the index values of `row`.
pub open spec fn unique_taken(t: TableMeta, pages: Map<u32, PageImage>, row: Seq<ValueView>) -> bool {
    exists|j: int| 0 <= j < t.indexes@.len() && index_taken(#[trigger] t.indexes@[j], pages, row)
}

/// Table `ti` of forest `t0` over pages `p0` became table `ti` of `t1`
/// over `p1` by storing a row: `row_bytes` under `pk_bytes` in its
/// clustered tree and `pk_bytes` under the row's key in each index; the
/// forest is well formed and the other tables' trees read as before.
pub open spec fn row_written(
    t0: Seq<TableMeta>,
    t1: Seq<TableMeta>,
    p0: Map<u32, PageImage>,
    p1: Map<u32, PageImage>,
    ti: int,
    pk_bytes: Seq<u8>,
    row_bytes: Seq<u8>,
    row: Seq<ValueView>,
    pk: ValueView,
) -> bool {
    &&& forest_wf(t1, p1)
    &&& t1.len() == t0.len()
    &&& forall|i: int| 0 <= i < t0.len() ==> tree_count(#[trigger] t1[i]) == tree_count(t0[i])
    &&& tree_at(t1, ti, 0).entries_in(p1) == byte_put(tree_at(t0, ti, 0).entries_in(p0), pk_bytes, row_bytes)
    &&& forall|k: int|
        0 <= k < t0[ti].indexes@.len() ==> (#[trigger] tree_at(t1, ti, k + 1)).entries_in(p1) == byte_put(
            tree_at(t0, ti, k + 1).entries_in(p0),
            secondary_key(t0[ti].indexes@[k].meta.columns@, row, pk),
            pk_bytes,
        )
    &&& forall|i: int, j: int|
        is_tree(t0, i, j) && i != ti ==> (#[trigger] tree_at(t1, i, j)).entries_in(p1) == tree_at(t0, i, j).entries_in(
            p0,
        )
}

/// Table `i` of engine `e` already holds a row with the primary key of
/// `row`, or a unique index of it holds the row's index values.
pub open spec fn row_taken(e: FerrumEngine, i: int, row: Seq<ValueView>) -> bool {
    let t = e.catalog_view().tables_view()[i];
    ||| byte_lookup(e.tree_entries(i, 0), spec_encode_key(row[t.schema.primary_key->0 as int])) is Some
    ||| unique_taken(t, e.pages(), row)
}

/// `row` fits table `i` of `e` and its trees: the row has the schema's
/// arity and types and a primary key column; its key and row encodings are
/// at most `ENTRY_MAX` bytes long; the clustered tree holds only such
/// entries, can be walked and is not at its entry count limit; every index
/// takes the row (see [`index_fits`]) and every unique index can be checked
/// for it; and the tablespace has room for a page per level of every tree
/// of the table and one more per tree.
pub open spec fn insert_fits(e: FerrumEngine, i: int, row: Seq<ValueView>) -> bool {
    let t = e.catalog_view().tables_view()[i];
    let c = tree_at(e.catalog_view().tables_view(), i, 0);
    let pk = row[t.schema.primary_key->0 as int];
    &&& t.schema.primary_key is Some
    &&& spec_row_encodable(row, t.schema.types@, t.schema.columns@.len())
    &&& spec_encode_key(pk).len() <= ENTRY_MAX
    &&& spec_bitmap_len(row.len()) + spec_payload(row).len() <= ENTRY_MAX
    &&& e.walkable_tree(i, 0)
    &&& c.small_in(e.pages())
    &&& c@.len < usize::MAX
    &&& forall|k: int| 0 <= k < t.indexes@.len() ==> index_fits(#[trigger] t.indexes@[k], e.pages(), row, pk)
    &&& unique_checkable(t, e.pages(), row)
    &&& e.space_view().alloc_room() > c@.height + index_budget(t.indexes@, 0)
}

/// Engine `e1` is `e0` with `row` stored in table `i`: an encoding of the
/// row under the key encoding of its primary key in the clustered tree,
/// the primary key encoding under the row's key in every index; the other
/// tables read as before.
pub open spec fn row_inserted(e0: FerrumEngine, e1: FerrumEngine, i: int, row: Seq<ValueView>) -> bool {
    let t0 = e0.catalog_view().tables_view()[i];
    let pk = row[t0.schema.primary_key->0 as int];
    &&& t0.schema.primary_key is Some
    &&& spec_row_encodable(row, t0.schema.types@, t0.schema.columns@.len())
    &&& e1.catalog_view().tables_view().len() == e0.catalog_view().tables_view().len()
    &&& e1.catalog_view().tables_view()[i].schema == t0.schema
    &&& forall|k: int|
        0 <= k < e0.catalog_view().tables_view().len() ==> tree_count(
            #[trigger] e1.catalog_view().tables_view()[k],
        ) == tree_count(e0.catalog_view().tables_view()[k])
    &&& exists|rb: Seq<u8>|
        spec_is_row_encoding(rb, row) && e1.tree_entries(i, 0) == byte_put(
            e0.tree_entries(i, 0),
            spec_encode_key(pk),
            rb,
        )
    &&& forall|j: int|
        0 <= j < t0.indexes@.len() ==> #[trigger] e1.tree_entries(i, j + 1) == byte_put(
            e0.tree_entries(i, j + 1),
            secondary_key(t0.indexes@[j].meta.columns@, row, pk),
            spec_encode_key(pk),
        )
    &&& forall|k: int, j: int|
        is_tree(e0.catalog_view().tables_view(), k, j) && k != i ==> #[trigger] e1.tree_entries(k, j)
            == e0.tree_entries(k, j)
}

/// Law of storing rows: once a row is stored in table `i` of a sound
/// engine, looking up its primary key gives the row back (when its
/// non-null columns have concrete types), every other key gives what it
/// gave before, and every index of the table maps the row's key to the
/// row's primary key.
pub proof fn lemma_insert_then_get(e0: FerrumEngine, e1: FerrumEngine, i: int, row: Seq<ValueView>, other: Seq<u8>)
    requires
        e0.sound(),
        0 <= i < e0.catalog_view().tables_view().len(),
        row_inserted(e0, e1, i, row),
        forall|c: int|
            0 <= c < row.len() && !(row[c] is Null) ==> e0.catalog_view().tables_view()[i].schema.types@[c]
                != ColumnType::Any,
    ensures
        ({
            let t = e0.catalog_view().tables_view()[i];
            let key = spec_encode_key(row[t.schema.primary_key->0 as int]);
            &&& row_lookup(e1.tree_entries(i, 0), key, t.schema) == Some(Some(row))
            &&& other != key ==> row_lookup(e1.tree_entries(i, 0), other, t.schema) == row_lookup(
                e0.tree_entries(i, 0),
                other,
                t.schema,
            )
            &&& forall|j: int|
                0 <= j < t.indexes@.len() ==> byte_lookup(
                    #[trigger] e1.tree_entries(i, j + 1),
                    secondary_key(t.indexes@[j].meta.columns@, row, row[t.schema.primary_key->0 as int]),
                ) == Some(key)
        }),
{
    let tables = e0.catalog_view().tables_view();
    let t = tables[i];
    let pk = row[t.schema.primary_key->0 as int];
    let key = spec_encode_key(pk);
    let rb = choose|rb: Seq<u8>|
        spec_is_row_encoding(rb, row) && e1.tree_entries(i, 0) == byte_put(e0.tree_entries(i, 0), key, rb);
    assert(tree_at(tables, i, 0).wf_in(e0.pages()));
    crate::btree::ptree::lemma_ptree_sorted(e0.pages(), t.clustered@.root_page_id, None, None, t.clustered@.height, None);
    crate::btree::ptree::lemma_byte_put_lookup(e0.tree_entries(i, 0), key, rb, other);
    assert(schema_ok(t.schema));
    lemma_row_round_trip(rb, row, t.schema.types@);
    assert forall|j: int| 0 <= j < t.indexes@.len() implies byte_lookup(
        #[trigger] e1.tree_entries(i, j + 1),
        secondary_key(t.indexes@[j].meta.columns@, row, pk),
    ) == Some(key) by {
        let ix = tree_at(tables, i, j + 1);
        assert(ix.wf_in(e0.pages()));
        crate::btree::ptree::lemma_ptree_sorted(e0.pages(), ix@.root_page_id, None, None, ix@.height, None);
        crate::btree::ptree::lemma_byte_put_lookup(
            e0.tree_entries(i, j + 1),
            secondary_key(t.indexes@[j].meta.columns@, row, pk),
            key,
            key,
        );
    }
}

/// The lower key of a scan over `range`: the encoding of its start, or the
/// empty key.
pub open spec fn range_start(range: RangeBound) -> Seq<u8> {
    match range.start {
        Some(v) => spec_encode_key(v@),
        None => Seq::empty(),
    }
}

/// The upper key (excluded) of a primary key scan over `range` in a table
/// with `schema`: the encoding of its end, or the upper bound of the key
/// type.
pub open spec fn range_end(range: RangeBound, schema: Schema) -> Seq<u8> {
    match range.end {
        Some(v) => spec_encode_key(v@),
        None => spec_upper_bound(schema.types@[schema.primary_key->0 as int]),
    }
}

/// `rows` are the decoded values of the entries `es`, in order.
pub open spec fn rows_decoded(es: Seq<ByteEntry>, rows: Seq<Row>, schema: Schema) -> bool {
    &&& rows.len() == es.len()
    &&& forall|q: int|
        0 <= q < es.len() ==> spec_decode_row(es[q].1, schema.types@, schema.columns@.len()) == Some(
            (#[trigger] rows[q])@,
        )
}

/// Every index entry of `hits` leads to a row of the clustered entries `cl`.
pub open spec fn hits_resolve(cl: Seq<ByteEntry>, hits: Seq<ByteEntry>, schema: Schema) -> bool {
    forall|q: int|
        0 <= q < hits.len() ==> exists|row: Seq<ValueView>| index_hit_row(cl, #[trigger] hits[q].1, row, schema)
}

/// Every entry of `es` holds a row that decodes under `schema`.
pub open spec fn rows_decode(es: Seq<ByteEntry>, schema: Schema) -> bool {
    forall|q: int|
        0 <= q < es.len() ==> spec_decode_row(#[trigger] es[q].1, schema.types@, schema.columns@.len()) is Some
}

/// The row an index entry holding primary key encoding `pk_bytes` leads
/// to: the primary key decodes with the table's key type, and the clustered
/// entries `rows` hold a row under its encoding that decodes as `row`.
pub open spec fn index_hit_row(rows: Seq<ByteEntry>, pk_bytes: Seq<u8>, row: Seq<ValueView>, schema: Schema) -> bool {
    spec_decode_key(pk_bytes, schema.types@[schema.primary_key->0 as int]) matches Some((pv, n))
        && row_lookup(rows, spec_encode_key(pv), schema) == Some(Some(row))
}

/// What a lookup of `key` through the index entries `ix` gives in a table
/// with clustered entries `rows`: the entries whose key starts with the
/// encoding of `key`; none gives no row; else the first one's primary key
/// is looked up in `rows`. `None` stands for an error: no successor of the
/// key encoding, a primary key that does not decode, a missing or
/// undecodable row.
pub open spec fn index_get(rows: Seq<ByteEntry>, ix: Seq<ByteEntry>, key: ValueView, schema: Schema) -> Option<Option<Seq<ValueView>>> {
    let p = spec_encode_keys(seq![key]);
    match spec_successor(p) {
        None => None,
        Some(end) => {
            let hits = byte_range(ix, p, end);
            if hits.len() == 0 {
                Some(None)
            } else if exists|row: Seq<ValueView>| index_hit_row(rows, hits[0].1, row, schema) {
                Some(Some(choose|row: Seq<ValueView>| index_hit_row(rows, hits[0].1, row, schema)))
            } else {
                None
            }
        },
    }
}

/// The lower key of an index scan over `range`.
pub open spec fn index_range_start(range: RangeBound) -> Seq<u8> {
    match range.start {
        Some(v) => spec_encode_keys(seq![v@]),
        None => Seq::empty(),
    }
}

/// The upper key (excluded) of an index scan over `range`: the encoding of
/// its end, or the upper bound of the type of the index's first column.
pub open spec fn index_range_end(range: RangeBound, meta: IndexMeta, schema: Schema) -> Seq<u8> {
    match range.end {
        Some(v) => spec_encode_keys(seq![v@]),
        None => spec_upper_bound(schema.types@[meta.columns@[0] as int]),
    }
}

/// `rows` are, in order, the rows the index entries `hits` lead to in the
/// clustered entries `cl`.
pub open spec fn rows_via_index(cl: Seq<ByteEntry>, hits: Seq<ByteEntry>, rows: Seq<Row>, schema: Schema) -> bool {
    &&& rows.len() == hits.len()
    &&& forall|q: int| 0 <= q < hits.len() ==> index_hit_row(cl, hits[q].1, (#[trigger] rows[q])@, schema)
}

/// What a lookup of `key` in the clustered entries `es` of a table with
/// `schema` gives: `None` when the stored row does not decode, else the
/// decoded row, or no row when the key is absent.
pub open spec fn row_lookup(es: Seq<ByteEntry>, key: Seq<u8>, schema: Schema) -> Option<Option<Seq<ValueView>>> {
    match byte_lookup(es, key) {
        Some(b) => match spec_decode_row(b, schema.types@, schema.columns@.len()) {
            Some(row) => Some(Some(row)),
            None => None,
        },
        None => Some(None),
    }
}

/// The values of an optional row.
pub open spec fn opt_row_view(o: Option<Row>) -> Option<Seq<ValueView>> {
    match o {
        Some(row) => Some(row@),
        None => None,
    }
}

/// A name missing from the catalog names no table.
proof fn lemma_absent_name(cat: TableCatalog, name: Seq<char>)
    requires
        !cat.names().contains(name),
    ensures
        forall|q: int| 0 <= q < cat.tables_view().len() ==> #[trigger] cat.tables_view()[q].name@ != name,
{
    assert forall|q: int| 0 <= q < cat.tables_view().len() implies #[trigger] cat.tables_view()[q].name@ != name by {
        assert(cat.names()[q] == cat.tables_view()[q].name@);
    }
}

/// Table names are distinct: a table named as table `i` is table `i`.
proof fn lemma_names_unique(cat: TableCatalog, i: int)
    requires
        cat.wf(),
        0 <= i < cat.tables_view().len(),
    ensures
        forall|k: int|
            0 <= k < cat.tables_view().len() && #[trigger] cat.tables_view()[k].name@
                == cat.tables_view()[i].name@ ==> k == i,
{
    assert forall|k: int|
        0 <= k < cat.tables_view().len() && #[trigger] cat.tables_view()[k].name@
            == cat.tables_view()[i].name@ implies k == i by {
        assert(cat.names()[k] == cat.names()[i]);
    }
}

impl StorageEngine for FerrumEngine {
    open spec fn engine_valid(&self) -> bool {
        self.wf()
    }

    /// Creates table `name`: a schema without a primary key, with fewer
    /// column types than columns or with a primary key column out of range
    /// gives `Internal`, nothing changed; so does an existing name (after
    /// allocating the tree). In
    /// a sound engine the new table's clustered tree is empty, the engine
    /// stays sound and every other tree reads as before.
    fn create_table(&mut self, name: &str, schema: Schema) -> (r: Result<(), EngineError>)
        ensures
            old(self).catalog_view().names().contains(name@) ==> r is Err,
            schema.primary_key is None || !schema_ok(schema) ==> (r matches Err(EngineError::Internal(_)))
                && *final(self) == *old(self),
            r is Ok ==> final(self).catalog_view().names() == old(self).catalog_view().names().push(
                name@,
            ),
            old(self).sound() ==> final(self).sound(),
            old(self).sound() && r is Ok ==> final(self).tree_entries(
                old(self).catalog_view().tables_view().len() as int,
                0,
            ) == Seq::<ByteEntry>::empty() && forall|i: int, j: int|
                is_tree(old(self).catalog_view().tables_view(), i, j) ==> final(self).tree_entries(i, j)
                    == old(self).tree_entries(i, j),
            old(self).sound() && !old(self).catalog_view().names().contains(name@) && schema.primary_key
                is Some && schema_ok(schema) && old(self).space_view()@.pages.len() < u32::MAX ==> r is Ok,
    {
        if schema.primary_key.is_none() {
            return Err(
                EngineError::Internal("create_table requires a primary key".to_string()),
            );
        }
        if schema.types.len() < schema.columns.len() {
            return Err(EngineError::Internal("schema has fewer types than columns".to_string()));
        }
        match schema.primary_key {
            Some(p) => {
                if p >= schema.columns.len() {
                    return Err(
                        EngineError::Internal("primary key column out of range".to_string()),
                    );
                }
            },
            None => {},
        }
        let ghost t0 = self.catalog.tables_view();
        let ghost p0 = self.pages();
        let tree = match PersistentBtree::create(&mut self.space) {
            Ok(t) => t,
            Err(e) => {
                proof {
                    if old(self).sound() {
                        lemma_forest_frame(t0, p0, self.pages());
                    }
                }
                return Err(btree_err(e));
            },
        };
        let ghost p1 = self.pages();
        let ghost before = self.catalog;
        let r = self.catalog.add_table(name.to_string(), schema, tree);
        proof {
            if r is Ok {
                assert(self.catalog.names() =~= before.names().push(name@));
                assert forall|i: int| 0 <= i < self.catalog.tables_view().len() implies schema_ok(
                    #[trigger] self.catalog.tables_view()[i].schema,
                ) by {
                    if i < before.tables_view().len() {
                        assert(self.catalog.tables_view()[i] == before.tables_view()[i]);
                    }
                }
            }
            if old(self).sound() {
                let t1 = self.catalog.tables_view();
                if r is Ok {
                    let n = t0.len() as int;
                    assert(t1[n].clustered == tree);
                    assert forall|i: int, j: int| is_tree(t1, i, j) && (i != n || j != 0) implies is_tree(
                        t0,
                        i,
                        j,
                    ) && tree_at(t1, i, j) == tree_at(t0, i, j) by {
                        assert(t1.drop_last()[i] == t1[i]);
                    }
                    lemma_forest_add(t0, t1, p0, p1, n, 0);
                } else {
                    lemma_forest_frame(t0, p0, p1);
                }
            }
        }
        r
    }

    /// Dropping tables is not available: `Unsupported`, nothing changed.
    fn drop_table(&mut self, name: &str) -> (r: Result<(), EngineError>)
        ensures
            r matches Err(EngineError::Unsupported(_)),
            *final(self) == *old(self),
    {
        Err(EngineError::Unsupported("drop_table".to_string()))
    }

    /// Inserts `row` into `table`: `TableNotFound` without the table;
    /// `Internal` for a row whose arity differs from the schema; then
    /// `DuplicateKey` when the clustered tree holds the primary key or a
    /// unique index holds the row's index key, in which case nothing is
    /// written. Otherwise the clustered tree and every index get the row. In
    /// a sound engine, `DuplicateKey` comes exactly for such a row, and a
    /// success stores an encoding of the row under its key and the row's
    /// key in every index, keeping the engine sound; a row that is not taken
    /// and fits the table and its trees (see [`insert_fits`]) is inserted.
    fn insert(&mut self, table: &str, row: Row) -> (r: Result<(), EngineError>)
        ensures
            !old(self).catalog_view().names().contains(table@) ==> r matches Err(
                EngineError::TableNotFound(_),
            ),
            r matches Err(EngineError::DuplicateKey) ==> *final(self) == *old(self),
            final(self).catalog_view().names() == old(self).catalog_view().names(),
            old(self).sound() ==> forall|i: int|
                0 <= i < old(self).catalog_view().tables_view().len()
                    && #[trigger] old(self).catalog_view().tables_view()[i].name@ == table@ ==> {
                    &&& r matches Err(EngineError::DuplicateKey) ==> row_taken(*old(self), i, row@)
                    &&& r is Ok ==> !row_taken(*old(self), i, row@) && final(self).sound()
                        && row_inserted(*old(self), *final(self), i, row@)
                    &&& row.values@.len() != old(self).catalog_view().tables_view()[i].schema.columns@.len()
                        ==> (r matches Err(EngineError::Internal(_))) && *final(self) == *old(self)
                    &&& row.values@.len() == old(self).catalog_view().tables_view()[i].schema.columns@.len()
                        && old(self).catalog_view().tables_view()[i].schema.primary_key is Some
                        && old(self).walkable_tree(i, 0) && unique_checkable(
                        old(self).catalog_view().tables_view()[i],
                        old(self).pages(),
                        row@,
                    ) && row_taken(*old(self), i, row@) ==> r == Err::<(), EngineError>(EngineError::DuplicateKey)
                    &&& insert_fits(*old(self), i, row@) && !row_taken(*old(self), i, row@) ==> r is Ok
                },
    {
        let ti = match self.catalog.table_position(table) {
            Ok(i) => i,
            Err(e) => {
                proof {
                    assert forall|i: int| 0 <= i < self.catalog.tables_view().len()
                        implies #[trigger] self.catalog.tables_view()[i].name@ != table@ by {
                        assert(self.catalog.names()[i] == self.catalog.tables_view()[i].name@);
                    }
                }
                return Err(e);
            },
        };
        let ghost tables = self.catalog.tables_view();
        let ghost pages = self.pages();
        let schema = copy_schema(&self.catalog.table_at(ti).schema);
        proof {
            assert(schema_ok(self.catalog.tables_view()[ti as int].schema));
            lemma_names_unique(self.catalog, ti as int);
        }
        if row.values.len() != schema.columns.len() {
            return Err(
                EngineError::Internal(arity_message(row.values.len(), schema.columns.len())),
            );
        }
        let pk_idx = match schema.primary_key {
            Some(p) => p,
            None => {
                return Err(EngineError::Internal("table has no primary key".to_string()));
            },
        };
        let pk_value = row.values[pk_idx].duplicate();
        let pk_bytes = match encode_pk(&row, &schema) {
            Ok(b) => b,
            Err(e) => return Err(page_err(e)),
        };
        {
            let t = self.catalog.table_at(ti);
            proof {
                if old(self).sound() {
                    assert(tree_at(tables, ti as int, 0).wf_in(pages));
                    assert forall|j: int| 0 <= j < t.indexes@.len() implies (#[trigger] t.indexes@[j]).tree.wf_in(
                        pages,
                    ) by {
                        assert(tree_at(tables, ti as int, j + 1).wf_in(pages));
                    }
                }
            }
            let mut reader = SpaceReader { space: &self.space };
            match t.clustered.get(&mut reader, pk_bytes.as_slice()) {
                Err(e) => return Err(btree_err(e)),
                Ok(Some(_)) => return Err(EngineError::DuplicateKey),
                Ok(None) => {},
            }
            match unique_conflict(t, &self.space, &row) {
                Ok(true) => return Err(EngineError::DuplicateKey),
                Ok(false) => {},
                Err(e) => return Err(e),
            }
        }
        let row_bytes = match encode_row(&row, &schema) {
            Ok(b) => b,
            Err(e) => return Err(page_err(e)),
        };
        let ghost rb = row_bytes@;
        let ghost before = self.catalog;
        let t = self.catalog.table_at_mut(ti);
        let r = write_new_row(
            t,
            &mut self.space,
            &pk_bytes,
            row_bytes,
            &row,
            &pk_value,
            Ghost(tables),
            Ghost(ti as int),
        );
        proof {
            lemma_table_rewritten(before, self.catalog, ti as int, self.catalog.tables_view()[ti as int]);
            if old(self).sound() && r is Ok {
                assert(self.catalog.tables_view() == tables.update(ti as int, self.catalog.tables_view()[ti as int]));
                assert(spec_is_row_encoding(rb, row@));
                assert(spec_row_encodable(row@, schema.types@, schema.columns@.len()));
            }
        }
        r
    }

    /// Updating rows is not available: `Unsupported`, nothing changed.
    fn update(&mut self, table: &str, pk: Value, row: Row) -> (r: Result<(), EngineError>)
        ensures
            r matches Err(EngineError::Unsupported(_)),
            *final(self) == *old(self),
    {
        Err(EngineError::Unsupported("update".to_string()))
    }

    /// Deleting rows is not available: `Unsupported`, nothing changed.
    fn delete(&mut self, table: &str, pk: Value) -> (r: Result<(), EngineError>)
        ensures
            r matches Err(EngineError::Unsupported(_)),
            *final(self) == *old(self),
    {
        Err(EngineError::Unsupported("delete".to_string()))
    }

    /// The row of `table` with primary key `pk`: it is decoded from a leaf
    /// entry stored under the key encoding of `pk`. `TableNotFound` without
    /// the table. In a sound engine, the answer is the row the clustered
    /// tree holds under that key, decoded, or none when it holds none.
    fn get_by_pk(&self, table: &str, pk: Value) -> (r: Result<Option<Row>, EngineError>)
        ensures
            !self.catalog_view().names().contains(table@) ==> r matches Err(
                EngineError::TableNotFound(_),
            ),
            r matches Ok(Some(row)) ==> exists|i: int|
                0 <= i < self.catalog_view().tables_view().len()
                    && self.catalog_view().tables_view()[i].name@ == table@ && row_stored(
                    spec_readable(self.space_view()@.pages),
                    spec_encode_key(pk@),
                    self.catalog_view().tables_view()[i].schema,
                    row@,
                ),
            self.sound() ==> forall|i: int|
                0 <= i < self.catalog_view().tables_view().len()
                    && #[trigger] self.catalog_view().tables_view()[i].name@ == table@ ==> (r matches Ok(
                    o,
                ) ==> row_lookup(
                    self.tree_entries(i, 0),
                    spec_encode_key(pk@),
                    self.catalog_view().tables_view()[i].schema,
                ) == Some(opt_row_view(o))),
            self.sound() ==> forall|i: int|
                0 <= i < self.catalog_view().tables_view().len()
                    && #[trigger] self.catalog_view().tables_view()[i].name@ == table@ ==> (self.walkable_tree(i, 0)
                    && row_lookup(
                    self.tree_entries(i, 0),
                    spec_encode_key(pk@),
                    self.catalog_view().tables_view()[i].schema,
                ) is Some ==> r is Ok),
    {
        let meta = match self.catalog.get(table) {
            Ok(m) => m,
            Err(e) => {
                proof {
                    lemma_absent_name(self.catalog, table@);
                }
                return Err(e);
            },
        };
        let ghost i = choose|i: int|
            0 <= i < self.catalog.tables_view().len() && self.catalog.tables_view()[i] == *meta;
        proof {
            assert(schema_ok(self.catalog.tables_view()[i].schema));
            if self.sound() {
                assert(tree_at(self.catalog.tables_view(), i, 0).wf_in(self.pages()));
                lemma_names_unique(self.catalog, i);
            }
        }
        let pk_enc = encode_key(&pk);
        let mut reader = SpaceReader { space: &self.space };
        let found = match meta.clustered.get(&mut reader, pk_enc.as_slice()) {
            Ok(f) => f,
            Err(e) => return Err(btree_err(e)),
        };
        match found {
            Some(bytes) => match decode_row(bytes.as_slice(), &meta.schema) {
                Ok(row) => {
                    proof {
                        assert(spec_decode_row(
                            bytes@,
                            meta.schema.types@,
                            meta.schema.columns@.len(),
                        ) == Some(row@));
                    }
                    Ok(Some(row))
                },
                Err(e) => Err(page_err(e)),
            },
            None => Ok(None),
        }
    }

    /// The rows of `table` whose primary key lies in `range`, in primary
    /// key order. `TableNotFound` without the table. In a sound engine they
    /// are the rows the clustered tree holds under keys from the encoding of
    /// the start (or the empty key) up to the encoding of the end (or the
    /// upper bound of the key type), decoded.
    #[verifier::loop_isolation(false)]
    fn scan(&self, table: &str, range: RangeBound) -> (r: Result<Vec<Row>, EngineError>)
        ensures
            !self.catalog_view().names().contains(table@) ==> r matches Err(
                EngineError::TableNotFound(_),
            ),
            self.sound() ==> forall|i: int|
                0 <= i < self.catalog_view().tables_view().len()
                    && #[trigger] self.catalog_view().tables_view()[i].name@ == table@ ==> (r matches Ok(
                    rows,
                ) ==> rows_decoded(
                    byte_range(
                        self.tree_entries(i, 0),
                        range_start(range),
                        range_end(range, self.catalog_view().tables_view()[i].schema),
                    ),
                    rows@,
                    self.catalog_view().tables_view()[i].schema,
                )),
            self.sound() ==> forall|i: int|
                0 <= i < self.catalog_view().tables_view().len()
                    && #[trigger] self.catalog_view().tables_view()[i].name@ == table@ ==> (self.walkable_tree(i, 0)
                    && self.catalog_view().tables_view()[i].schema.primary_key is Some && rows_decode(
                    byte_range(
                        self.tree_entries(i, 0),
                        range_start(range),
                        range_end(range, self.catalog_view().tables_view()[i].schema),
                    ),
                    self.catalog_view().tables_view()[i].schema,
                ) ==> r is Ok),
    {
        let meta = match self.catalog.get(table) {
            Ok(m) => m,
            Err(e) => {
                proof {
                    lemma_absent_name(self.catalog, table@);
                }
                return Err(e);
            },
        };
        let ghost i = choose|i: int|
            0 <= i < self.catalog.tables_view().len() && self.catalog.tables_view()[i] == *meta;
        proof {
            assert(schema_ok(self.catalog.tables_view()[i].schema));
            if self.sound() {
                assert(tree_at(self.catalog.tables_view(), i, 0).wf_in(self.pages()));
                lemma_names_unique(self.catalog, i);
            }
        }
        let pk_type = match primary_key_type(&meta.schema) {
            Ok(t) => t,
            Err(e) => return Err(page_err(e)),
        };
        let start_enc = match &range.start {
            Some(v) => encode_key(v),
            None => Vec::new(),
        };
        let end_enc = match &range.end {
            Some(v) => encode_key(v),
            None => upper_bound(pk_type),
        };
        proof {
            assert(start_enc@ == range_start(range));
            assert(end_enc@ == range_end(range, meta.schema));
        }
        let mut reader = SpaceReader { space: &self.space };
        let hits = match meta.clustered.scan_range(&mut reader, start_enc.as_slice(), end_enc.as_slice()) {
            Ok(h) => h,
            Err(e) => return Err(btree_err(e)),
        };
        let ghost es = kv_entries(hits@);
        let ghost ok = self.sound() && self.walkable_tree(i, 0) && rows_decode(es, meta.schema);
        let mut rows: Vec<Row> = Vec::new();
        let mut k: usize = 0;
        while k < hits.len()
            invariant
                k <= hits@.len(),
                schema_ok(meta.schema),
                es == kv_entries(hits@),
                rows@.len() == k,
                ok ==> rows_decode(es, meta.schema),
                forall|q: int|
                    0 <= q < k ==> spec_decode_row(
                        es[q].1,
                        meta.schema.types@,
                        meta.schema.columns@.len(),
                    ) == Some((#[trigger] rows@[q])@),
            decreases hits@.len() - k,
        {
            match decode_row(hits[k].1.as_slice(), &meta.schema) {
                Ok(row) => rows.push(row),
                Err(e) => {
                    assert(es[k as int].1 == hits@[k as int].1@);
                    return Err(page_err(e));
                },
            }
            k = k + 1;
        }
        Ok(rows)
    }

    /// Creates index `meta` on `table`: `TableNotFound` without the table,
    /// `Internal` for metadata `validate_index_meta` rejects or an index
    /// name already in use (after allocating its tree). The new index starts
    /// empty (rows already in the table are not added to it); in a sound
    /// engine the engine stays sound and every other tree reads as before.
    fn create_index(&mut self, table: &str, meta: IndexMeta) -> (r: Result<(), EngineError>)
        ensures
            !old(self).catalog_view().names().contains(table@) ==> r matches Err(
                EngineError::TableNotFound(_),
            ),
            final(self).catalog_view().names() == old(self).catalog_view().names(),
            old(self).sound() ==> final(self).sound(),
            old(self).sound() && r is Ok ==> exists|i: int|
                0 <= i < old(self).catalog_view().tables_view().len()
                    && old(self).catalog_view().tables_view()[i].name@ == table@ && final(self).tree_entries(
                    i,
                    tree_count(old(self).catalog_view().tables_view()[i]),
                ) == Seq::<ByteEntry>::empty() && forall|k: int, j: int|
                    is_tree(old(self).catalog_view().tables_view(), k, j) ==> final(self).tree_entries(
                        k,
                        j,
                    ) == old(self).tree_entries(k, j),
            old(self).sound() ==> forall|i: int|
                0 <= i < old(self).catalog_view().tables_view().len()
                    && #[trigger] old(self).catalog_view().tables_view()[i].name@ == table@ ==> {
                    &&& spec_index_meta_ok(meta, old(self).catalog_view().tables_view()[i].schema)
                        && (forall|j: int|
                        0 <= j < old(self).catalog_view().tables_view()[i].indexes@.len() ==> (
                        #[trigger] old(self).catalog_view().tables_view()[i].indexes@[j]).meta.name@
                            != meta.name@) && old(self).space_view()@.pages.len() < u32::MAX ==> r is Ok
                    &&& r matches Err(e) ==> e is Internal
                },
    {
        {
            let t = match self.catalog.get(table) {
                Ok(t) => t,
                Err(e) => {
                    proof {
                        lemma_absent_name(self.catalog, table@);
                    }
                    return Err(e);
                },
            };
            proof {
                if self.sound() {
                    let i0 = choose|i: int|
                        0 <= i < self.catalog.tables_view().len() && self.catalog.tables_view()[i] == *t;
                    assert forall|q: int|
                        0 <= q < self.catalog.tables_view().len() && #[trigger] self.catalog.tables_view()[q].name@
                            == table@ implies q == i0 by {
                        self.catalog.lemma_unique_name(q, i0);
                    }
                }
            }
            match super::catalog::validate_index_meta(&meta, &t.schema) {
                Ok(()) => {},
                Err(e) => return Err(e),
            }
        }
        let ghost t0 = self.catalog.tables_view();
        let ghost p0 = self.pages();
        let tree = match PersistentBtree::create(&mut self.space) {
            Ok(t) => t,
            Err(e) => {
                proof {
                    if old(self).sound() {
                        lemma_forest_frame(t0, p0, self.pages());
                    }
                }
                return Err(btree_err(e));
            },
        };
        let ghost p1 = self.pages();
        let ghost entry = IndexEntry { meta, tree };
        let r = self.catalog.add_index(table, meta, tree);
        proof {
            assert forall|i: int| 0 <= i < self.catalog.tables_view().len() implies schema_ok(
                #[trigger] self.catalog.tables_view()[i].schema,
            ) by {
                assert(self.catalog.tables_view()[i].schema == old(self).catalog.tables_view()[i].schema);
            }
            if old(self).sound() {
                let t1 = self.catalog.tables_view();
                if r is Ok {
                    let i = choose|i: int|
                        0 <= i < t0.len() && t0[i].name@ == table@ && super::catalog::index_added(
                            t0,
                            t1,
                            i,
                            entry,
                        );
                    let nj = tree_count(t0[i]);
                    assert(tree_at(t1, i, nj) == tree);
                    assert forall|k: int, j: int| is_tree(t1, k, j) && (k != i || j != nj) implies is_tree(
                        t0,
                        k,
                        j,
                    ) && tree_at(t1, k, j) == tree_at(t0, k, j) by {
                        if k == i && j > 0 {
                            assert(t1[i].indexes@[j - 1] == t0[i].indexes@[j - 1]);
                        }
                    }
                    lemma_forest_add(t0, t1, p0, p1, i, nj);
                } else {
                    lemma_forest_frame(t0, p0, p1);
                }
            }
        }
        r
    }

    /// The row of `table` whose first index column of `index` equals `key`
    /// and whose primary key is smallest, looked up in the clustered tree.
    /// `TableNotFound` without the table, `Internal` without the index. In
    /// a sound engine the answer is what `index_get` describes for an index
    /// of the table with that name.
    fn get_by_index(&self, table: &str, index: &str, key: Value) -> (r: Result<
        Option<Row>,
        EngineError,
    >)
        ensures
            !self.catalog_view().names().contains(table@) ==> r matches Err(
                EngineError::TableNotFound(_),
            ),
            self.sound() ==> forall|i: int|
                0 <= i < self.catalog_view().tables_view().len()
                    && #[trigger] self.catalog_view().tables_view()[i].name@ == table@ ==> (r matches Ok(
                    o,
                ) ==> forall|j: int|
                    0 <= j < self.catalog_view().tables_view()[i].indexes@.len()
                        && (#[trigger] self.catalog_view().tables_view()[i].indexes@[j]).meta.name@ == index@
                        ==> index_get(
                        self.tree_entries(i, 0),
                        self.tree_entries(i, j + 1),
                        key@,
                        self.catalog_view().tables_view()[i].schema,
                    ) == Some(opt_row_view(o))),
            self.sound() ==> forall|i: int, j: int|
                0 <= i < self.catalog_view().tables_view().len()
                    && #[trigger] self.catalog_view().tables_view()[i].name@ == table@ && 0 <= j
                    < self.catalog_view().tables_view()[i].indexes@.len()
                    && (#[trigger] self.catalog_view().tables_view()[i].indexes@[j]).meta.name@ == index@
                    ==> (self.walkable_tree(i, 0) && self.walkable_tree(i, j + 1)
                    && self.catalog_view().tables_view()[i].schema.primary_key is Some && index_get(
                    self.tree_entries(i, 0),
                    self.tree_entries(i, j + 1),
                    key@,
                    self.catalog_view().tables_view()[i].schema,
                ) is Some ==> r is Ok),
    {
        let meta = match self.catalog.get(table) {
            Ok(m) => m,
            Err(e) => {
                proof {
                    lemma_absent_name(self.catalog, table@);
                }
                return Err(e);
            },
        };
        let ghost i = choose|i: int|
            0 <= i < self.catalog.tables_view().len() && self.catalog.tables_view()[i] == *meta;
        proof {
            assert(schema_ok(self.catalog.tables_view()[i].schema));
            if self.sound() {
                lemma_names_unique(self.catalog, i);
            }
        }
        let entry = match self.catalog.index(table, index) {
            Ok(e) => e,
            Err(e) => return Err(e),
        };
        let ghost (i2, j) = choose|i2: int, j: int|
            0 <= i2 < self.catalog.tables_view().len() && self.catalog.tables_view()[i2].name@ == table@
                && 0 <= j < self.catalog.tables_view()[i2].indexes@.len()
                && self.catalog.tables_view()[i2].indexes@[j] == *entry;
        proof {
            if self.sound() {
                assert(i2 == i);
                assert(tree_at(self.catalog.tables_view(), i, 0).wf_in(self.pages()));
                assert(tree_at(self.catalog.tables_view(), i, j + 1).wf_in(self.pages()));
                lemma_index_names_unique(self.catalog.tables_view()[i], j);
            }
        }
        let pk_type = match primary_key_type(&meta.schema) {
            Ok(t) => t,
            Err(e) => return Err(page_err(e)),
        };
        let keys = vec![key];
        let p = encode_index_key(keys.as_slice());
        assert(keys@.map_values(|v: Value| v@) =~= seq![key@]);
        let end = match successor(p.as_slice()) {
            Some(e) => e,
            None => {
                return Err(EngineError::Internal("index key has no finite successor".to_string()));
            },
        };
        let mut reader = SpaceReader { space: &self.space };
        let hits = match entry.tree.scan_range(&mut reader, p.as_slice(), end.as_slice()) {
            Ok(h) => h,
            Err(e) => return Err(btree_err(e)),
        };
        let ghost es = kv_entries(hits@);
        if hits.len() == 0 {
            return Ok(None);
        }
        let pk_val = match decode_key(hits[0].1.as_slice(), pk_type) {
            Ok((v, _)) => v,
            Err(e) => return Err(page_err(e)),
        };
        assert(es[0].1 == hits@[0].1@);
        let pk_enc = encode_key(&pk_val);
        let found = match meta.clustered.get(&mut reader, pk_enc.as_slice()) {
            Ok(f) => f,
            Err(e) => return Err(btree_err(e)),
        };
        match found {
            Some(row_bytes) => match decode_row(row_bytes.as_slice(), &meta.schema) {
                Ok(row) => {
                    proof {
                        if self.sound() {
                            assert(index_hit_row(
                                meta.clustered.entries_in(self.pages()),
                                es[0].1,
                                row@,
                                meta.schema,
                            ));
                        }
                    }
                    Ok(Some(row))
                },
                Err(e) => Err(page_err(e)),
            },
            None => Err(
                EngineError::Internal(
                    "secondary index points to missing primary key row".to_string(),
                ),
            ),
        }
    }

    /// The rows of `table` whose first column of `index` lies in `range`, in
    /// index key order, each looked up in the clustered tree.
    /// `TableNotFound` without the table, `Internal` without the index. In
    /// a sound engine they are the rows `rows_via_index` describes for an
    /// index of the table with that name.
    #[verifier::loop_isolation(false)]
    fn scan_index(&self, table: &str, index: &str, range: RangeBound) -> (r: Result<
        Vec<Row>,
        EngineError,
    >)
        ensures
            !self.catalog_view().names().contains(table@) ==> r matches Err(
                EngineError::TableNotFound(_),
            ),
            self.sound() ==> forall|i: int|
                0 <= i < self.catalog_view().tables_view().len()
                    && #[trigger] self.catalog_view().tables_view()[i].name@ == table@ ==> (r matches Ok(
                    rows,
                ) ==> forall|j: int|
                    0 <= j < self.catalog_view().tables_view()[i].indexes@.len()
                        && (#[trigger] self.catalog_view().tables_view()[i].indexes@[j]).meta.name@ == index@
                        ==> rows_via_index(
                        self.tree_entries(i, 0),
                        byte_range(
                            self.tree_entries(i, j + 1),
                            index_range_start(range),
                            index_range_end(
                                range,
                                self.catalog_view().tables_view()[i].indexes@[j].meta,
                                self.catalog_view().tables_view()[i].schema,
                            ),
                        ),
                        rows@,
                        self.catalog_view().tables_view()[i].schema,
                    )),
            self.sound() ==> forall|i: int, j: int|
                0 <= i < self.catalog_view().tables_view().len()
                    && #[trigger] self.catalog_view().tables_view()[i].name@ == table@ && 0 <= j
                    < self.catalog_view().tables_view()[i].indexes@.len()
                    && (#[trigger] self.catalog_view().tables_view()[i].indexes@[j]).meta.name@ == index@
                    ==> (self.walkable_tree(i, 0) && self.walkable_tree(i, j + 1)
                    && self.catalog_view().tables_view()[i].schema.primary_key is Some
                    && spec_index_meta_ok(
                    self.catalog_view().tables_view()[i].indexes@[j].meta,
                    self.catalog_view().tables_view()[i].schema,
                ) && hits_resolve(
                    self.tree_entries(i, 0),
                    byte_range(
                        self.tree_entries(i, j + 1),
                        index_range_start(range),
                        index_range_end(
                            range,
                            self.catalog_view().tables_view()[i].indexes@[j].meta,
                            self.catalog_view().tables_view()[i].schema,
                        ),
                    ),
                    self.catalog_view().tables_view()[i].schema,
                ) ==> r is Ok),
    {
        let meta = match self.catalog.get(table) {
            Ok(m) => m,
            Err(e) => {
                proof {
                    lemma_absent_name(self.catalog, table@);
                }
                return Err(e);
            },
        };
        let ghost i = choose|i: int|
            0 <= i < self.catalog.tables_view().len() && self.catalog.tables_view()[i] == *meta;
        proof {
            assert(schema_ok(self.catalog.tables_view()[i].schema));
            if self.sound() {
                lemma_names_unique(self.catalog, i);
            }
        }
        let entry = match self.catalog.index(table, index) {
            Ok(e) => e,
            Err(e) => return Err(e),
        };
        let ghost (i2, j) = choose|i2: int, j: int|
            0 <= i2 < self.catalog.tables_view().len() && self.catalog.tables_view()[i2].name@ == table@
                && 0 <= j < self.catalog.tables_view()[i2].indexes@.len()
                && self.catalog.tables_view()[i2].indexes@[j] == *entry;
        proof {
            if self.sound() {
                assert(i2 == i);
                assert(tree_at(self.catalog.tables_view(), i, 0).wf_in(self.pages()));
                assert(tree_at(self.catalog.tables_view(), i, j + 1).wf_in(self.pages()));
                lemma_index_names_unique(self.catalog.tables_view()[i], j);
            }
        }
        let pk_type = match primary_key_type(&meta.schema) {
            Ok(t) => t,
            Err(e) => return Err(page_err(e)),
        };
        if entry.meta.columns.len() == 0 || entry.meta.columns[0] >= meta.schema.types.len() {
            return Err(EngineError::Internal("index has no valid first column".to_string()));
        }
        let first_col_type = meta.schema.types[entry.meta.columns[0]];
        let start_enc = match &range.start {
            Some(v) => {
                let ks = vec![v.duplicate()];
                assert(ks@.map_values(|x: Value| x@) =~= seq![v@]);
                encode_index_key(ks.as_slice())
            },
            None => Vec::new(),
        };
        let end_enc = match &range.end {
            Some(v) => {
                let ks = vec![v.duplicate()];
                assert(ks@.map_values(|x: Value| x@) =~= seq![v@]);
                encode_index_key(ks.as_slice())
            },
            None => upper_bound(first_col_type),
        };
        proof {
            assert(start_enc@ == index_range_start(range));
            assert(end_enc@ == index_range_end(range, entry.meta, meta.schema));
        }
        let mut reader = SpaceReader { space: &self.space };
        let hits = match entry.tree.scan_range(&mut reader, start_enc.as_slice(), end_enc.as_slice()) {
            Ok(h) => h,
            Err(e) => return Err(btree_err(e)),
        };
        let ghost es = kv_entries(hits@);
        let ghost cl = meta.clustered.entries_in(reader.pages());
        let ghost ok = self.sound() && self.walkable_tree(i, 0) && hits_resolve(cl, es, meta.schema);
        let mut rows: Vec<Row> = Vec::new();
        let mut k: usize = 0;
        while k < hits.len()
            invariant
                k <= hits@.len(),
                schema_ok(meta.schema),
                reader.valid(),
                reader.pages() == self.pages(),
                es == kv_entries(hits@),
                rows@.len() == k,
                self.sound() ==> meta.clustered.wf_in(reader.pages()),
                ok ==> hits_resolve(cl, es, meta.schema) && meta.clustered.walkable(reader.pages())
                    && reader.reads_succeed(),
                self.sound() ==> forall|q: int|
                    0 <= q < k ==> index_hit_row(cl, es[q].1, (#[trigger] rows@[q])@, meta.schema),
            decreases hits@.len() - k,
        {
            proof {
                if ok {
                    assert(es[k as int].1 == hits@[k as int].1@);
                    assert(exists|row: Seq<ValueView>| index_hit_row(cl, es[k as int].1, row, meta.schema));
                }
            }
            let pk_val = match decode_key(hits[k].1.as_slice(), pk_type) {
                Ok((v, _)) => v,
                Err(e) => return Err(page_err(e)),
            };
            let pk_enc = encode_key(&pk_val);
            let found = match meta.clustered.get(&mut reader, pk_enc.as_slice()) {
                Ok(f) => f,
                Err(e) => return Err(btree_err(e)),
            };
            let row_bytes = match found {
                Some(b) => b,
                None => {
                    return Err(
                        EngineError::Internal(
                            "secondary index points to missing primary key row".to_string(),
                        ),
                    );
                },
            };
            match decode_row(row_bytes.as_slice(), &meta.schema) {
                Ok(row) => {
                    assert(es[k as int].1 == hits@[k as int].1@);
                    rows.push(row);
                },
                Err(e) => return Err(page_err(e)),
            }
            k = k + 1;
        }
        Ok(rows)
    }

    /// Transactions are not available: `Unsupported`.
    fn begin(&mut self) -> (r: Result<TransactionId, EngineError>)
        ensures
            r matches Err(EngineError::Unsupported(_)),
            *final(self) == *old(self),
    {
        Err(EngineError::Unsupported("begin".to_string()))
    }

    /// Transactions are not available: `Unsupported`.
    fn commit(&mut self, tx: TransactionId) -> (r: Result<(), EngineError>)
        ensures
            r matches Err(EngineError::Unsupported(_)),
            *final(self) == *old(self),
    {
        Err(EngineError::Unsupported("commit".to_string()))
    }

    /// Transactions are not available: `Unsupported`.
    fn rollback(&mut self, tx: TransactionId) -> (r: Result<(), EngineError>)
        ensures
            r matches Err(EngineError::Unsupported(_)),
            *final(self) == *old(self),
    {
        Err(EngineError::Unsupported("rollback".to_string()))
    }
}

} // verus!
