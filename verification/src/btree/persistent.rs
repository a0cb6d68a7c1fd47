//! Persistent B+Tree: nodes live in pages of a `PageSource`.
//!
//! Keys and values are byte strings ordered as slices are; the root page id is
//! kept by the caller (for instance in the superblock), the tree holds a copy.
//! Inserts split full nodes on the way back up and grow a new root when the
//! old one splits. Deletes remove the entry from its leaf and do not merge.
//!
//! Walks that follow page links give up with `InvalidNodeKind(0)` after
//! `MAX_STEPS` pages, so that a corrupted tree with a cycle cannot hold a
//! walk forever; a node that would not fit in a page gives `Page(PageFull)`.
use super::error::BTreeError;
use super::node::ORDER;
use super::persist::{
    decode_node_from_page, encode_node_to_page, slices_view, spec_decode, spec_lp_size,
    spec_node_size, vecs_view, DecodedNode, EncodedNode, NodeView, KIND_INTERNAL, KIND_LEAF,
};
use super::ptree::{
    chained, lemma_byte_lookup_at, lemma_leaf_offset, byte_entries_sorted, byte_in_bounds, byte_lookup, bytes_sorted, is_byte_split_point,
    is_route_child, leaf_entries, leaf_entries_at, leaves_entries, lemma_byte_middle,
    lemma_byte_split_unique, lemma_lex_steps, lemma_node_shape, lemma_ptree_leaves,
    lemma_ptree_sorted, lemma_route_child, lemma_route_child_unique, lemma_route_leaf,
    lemma_leaves_entries_add, lemma_run_pages_member, node_at, ptree_entries, ptree_leaves, ptree_pages, ptree_wf, route_leaf,
    first_leaf,
    ByteEntry,
};
use super::pedit::{
    confined, unchanged_outside,
    insert_post, lemma_insert_absorb, lemma_insert_keep, lemma_insert_new_root,
    lemma_insert_split, lemma_remove_at, lemma_leaf_put, lemma_leaf_rewrite, lemma_leaf_split, lemma_leaf_wf,
};
use super::pscan::{
    lemma_closed_covers, lemma_pages_closed, byte_range, is_lower_child, lemma_lower_child_unique, lemma_range_add, lemma_range_none,
    lemma_range_one, lemma_route_leaf_left, route_leaf_left,
};
use super::ptree::{byte_put, byte_remove};
use super::tree::{child_hi, child_lo};
use crate::page::key::lemma_lex_order;
use crate::page::error::PageError;
use crate::page::key::{bytes_eq, bytes_lt, lex_lt};
use crate::page::page::{Page, PageType, PAGE_USER_DATA_SIZE};
use crate::space::page_source::{PageImage, PageSource};
use vstd::prelude::*;
use vstd::slice::*;

verus! {

broadcast use vstd::slice::group_slice_axioms;

/// A key and its value.
pub type KvPair = (Vec<u8>, Vec<u8>);

/// Most pages a single walk visits.
pub const MAX_STEPS: u64 = 0x1_0000_0000;

/// A persistent B+Tree: its root page id, height and entry count.
pub struct PersistentBtree {
    root_page_id: u32,
    height: usize,
    len: usize,
}

/// The fields of a `PersistentBtree`.
pub struct TreeMeta {
    /// Root page id.
    pub root_page_id: u32,
    /// Height (a lone leaf has height 1).
    pub height: nat,
    /// Entries inserted (an overwrite counts too) less entries deleted.
    pub len: nat,
}

impl View for PersistentBtree {
    type V = TreeMeta;

    closed spec fn view(&self) -> TreeMeta {
        TreeMeta {
            root_page_id: self.root_page_id,
            height: self.height as nat,
            len: self.len as nat,
        }
    }
}

/// A split node: the key pushed up and the new right sibling.
struct Split {
    up_key: Vec<u8>,
    right_page_id: u32,
}

/// Page `pid` holds a leaf whose entry `i` is `key` with `value`.
pub open spec fn leaf_entry(
    pages: Map<u32, PageImage>,
    pid: u32,
    i: int,
    key: Seq<u8>,
    value: Seq<u8>,
) -> bool {
    &&& pages.contains_key(pid)
    &&& spec_decode(pages[pid].data) matches Ok(NodeView::Leaf { keys, values, .. })
    &&& 0 <= i < keys.len()
    &&& i < values.len()
    &&& keys[i] == key
    &&& values[i] == value
}

/// The keys and values of a list of pairs, as bytes.
pub open spec fn kv_entries(out: Seq<KvPair>) -> Seq<ByteEntry> {
    out.map_values(|p: KvPair| (p.0@, p.1@))
}

/// The bytes of an optional value.
pub open spec fn opt_bytes(o: Option<Vec<u8>>) -> Option<Seq<u8>> {
    match o {
        Some(v) => Some(v@),
        None => None,
    }
}

/// Some leaf page holds `key` with `value`.
pub open spec fn stored_in_leaf(pages: Map<u32, PageImage>, key: Seq<u8>, value: Seq<u8>) -> bool {
    exists|pid: u32, i: int| #[trigger] leaf_entry(pages, pid, i, key, value)
}

/// Entry `i` (with key `key`) of the leaf in page `pid` is removed, and no
/// other page changed.
pub open spec fn removed_from_leaf(
    before: Map<u32, PageImage>,
    after: Map<u32, PageImage>,
    pid: u32,
    i: int,
    key: Seq<u8>,
) -> bool {
    &&& before.contains_key(pid)
    &&& after.dom() == before.dom()
    &&& forall|j: u32| j != pid && #[trigger] before.contains_key(j) ==> after[j] == before[j]
    &&& match spec_decode(before[pid].data) {
        Ok(NodeView::Leaf { keys, values, next_leaf }) => {
            &&& 0 <= i < keys.len()
            &&& keys[i] == key
            &&& spec_decode(after[pid].data) == Ok::<NodeView, BTreeError>(
                NodeView::Leaf { keys: keys.remove(i), values: values.remove(i), next_leaf },
            )
        },
        _ => false,
    }
}

/// A node read from a page has at most `ORDER` keys, and a leaf as many
/// values as keys.
proof fn lemma_decode_arity(ud: Seq<u8>)
    ensures
        spec_decode(ud) matches Ok(NodeView::Leaf { keys, values, .. }) ==> keys.len()
            == values.len() && keys.len() <= ORDER,
        spec_decode(ud) matches Ok(NodeView::Internal { keys, children }) ==> keys.len()
            <= ORDER && children.len() <= ORDER + 1,
{
    if ud.len() >= 8 {
        let kc = crate::page::bytes::le_u16_at(ud, 4) as nat;
        lemma_parse_len(ud, 8, kc);
        if let Ok((keys, cur)) = super::persist::spec_parse_lps(ud, 8, kc) {
            lemma_parse_len(ud, cur, kc);
        }
    }
}

/// Parsing `n` strings gives `n` strings.
proof fn lemma_parse_len(ud: Seq<u8>, cur: int, n: nat)
    ensures
        super::persist::spec_parse_lps(ud, cur, n) matches Ok((items, c)) ==> items.len() == n
            && c >= cur,
    decreases n,
{
    if n > 0 {
        lemma_parse_len(ud, cur, (n - 1) as nat);
    }
}

/// Parsing strings ends right after them: `cur` plus their encoded size,
/// within the data once at least one was parsed.
proof fn lemma_parse_size(ud: Seq<u8>, cur: int, n: nat)
    requires
        0 <= cur,
    ensures
        super::persist::spec_parse_lps(ud, cur, n) matches Ok((items, c)) ==> c == cur
            + spec_lp_size(items) && (n > 0 ==> c <= ud.len()),
    decreases n,
{
    if n > 0 {
        lemma_parse_size(ud, cur, (n - 1) as nat);
        if let Ok((items, c)) = super::persist::spec_parse_lps(ud, cur, (n - 1) as nat) {
            let len = crate::page::bytes::le_u32_at(ud, c);
            if !(c + 4 > ud.len() || c + 4 + len > ud.len()) {
                lemma_parse_len(ud, cur, (n - 1) as nat);
                let x = ud.subrange(c + 4, c + 4 + len);
                assert(x.len() == len);
                assert(items.push(x).drop_last() =~= items);
                assert(spec_lp_size(items.push(x)) == spec_lp_size(items) + 4 + x.len());
            }
        }
    }
}

/// A leaf read from a page fits in a page.
proof fn lemma_decoded_leaf_size(ud: Seq<u8>)
    requires
        ud.len() == PAGE_USER_DATA_SIZE,
    ensures
        spec_decode(ud) matches Ok(NodeView::Leaf { keys, values, .. }) ==> spec_lp_size(keys)
            + spec_lp_size(values) + 8 <= PAGE_USER_DATA_SIZE,
{
    if ud.len() >= 8 {
        let kc = crate::page::bytes::le_u16_at(ud, 4) as nat;
        lemma_parse_size(ud, 8, kc);
        if let Ok((keys, cur)) = super::persist::spec_parse_lps(ud, 8, kc) {
            lemma_parse_size(ud, cur, kc);
            lemma_parse_len(ud, 8, kc);
            lemma_parse_len(ud, cur, kc);
            if kc == 0 {
                assert(keys =~= Seq::<Seq<u8>>::empty());
            }
        }
    }
}

/// Removing a string takes its encoded size off the total.
proof fn lemma_lp_size_remove(s: Seq<Seq<u8>>, i: int)
    requires
        0 <= i < s.len(),
    ensures
        spec_lp_size(s.remove(i)) + 4 + s[i].len() == spec_lp_size(s),
    decreases s.len(),
{
    if i == s.len() - 1 {
        assert(s.remove(i) =~= s.drop_last());
    } else {
        lemma_lp_size_remove(s.drop_last(), i);
        assert(s.remove(i).drop_last() =~= s.drop_last().remove(i));
        assert(s.remove(i).last() == s.last());
    }
}

/// Longest key or value for which a leaf insertion is sure to fit: a node
/// of up to `ORDER` such keys and values fits in a page.
pub const ENTRY_MAX: usize = 120;

/// Every string of `s` is at most `ENTRY_MAX` bytes long.
pub open spec fn all_small(s: Seq<Seq<u8>>) -> bool {
    forall|i: int| 0 <= i < s.len() ==> (#[trigger] s[i]).len() <= ENTRY_MAX
}

/// Every key and value held in the subtree of height `d` at `pid` is at
/// most `ENTRY_MAX` bytes long.
pub open spec fn ptree_small(pages: Map<u32, PageImage>, pid: u32, d: nat) -> bool
    decreases d,
{
    match node_at(pages, pid) {
        NodeView::Leaf { keys, values, .. } => all_small(keys) && all_small(values),
        NodeView::Internal { keys, children } => all_small(keys) && (d > 1 ==> forall|i: int|
            0 <= i < children.len() ==> ptree_small(pages, #[trigger] children[i], (d - 1) as nat)),
    }
}

/// Smallness of a subtree reads the same in any page map that agrees on its
/// pages.
pub proof fn lemma_small_frame(p: Map<u32, PageImage>, q: Map<u32, PageImage>, pid: u32, d: nat)
    requires
        forall|x: u32| #[trigger] ptree_pages(p, pid, d).contains(x) ==> q.contains_key(x) && q[x] == p[x],
    ensures
        ptree_small(q, pid, d) == ptree_small(p, pid, d),
    decreases d,
{
    assert(ptree_pages(p, pid, d).contains(pid));
    assert(node_at(q, pid) == node_at(p, pid));
    if let NodeView::Internal { keys, children } = node_at(p, pid) {
        if d > 1 {
            let e = (d - 1) as nat;
            assert forall|i: int| 0 <= i < children.len() implies ptree_small(q, #[trigger] children[i], e)
                == ptree_small(p, children[i], e) by {
                assert forall|x: u32| #[trigger] ptree_pages(p, children[i], e).contains(x) implies q.contains_key(x)
                    && q[x] == p[x] by {
                    lemma_run_pages_member(p, children, e, x);
                    assert(ptree_pages(p, pid, d).contains(x));
                }
                lemma_small_frame(p, q, children[i], e);
            }
        }
    }
}

/// An internal node of at most `ORDER` small keys fits.
proof fn lemma_small_internal_fits(ks: Seq<Seq<u8>>, cs: Seq<u32>)
    requires
        all_small(ks),
        ks.len() <= ORDER,
        cs.len() == ks.len() + 1,
    ensures
        internal_fits(ks, cs),
{
    lemma_lp_size_small(ks);
    assert(ks.len() * (4 + ENTRY_MAX) <= ORDER * (4 + ENTRY_MAX)) by (nonlinear_arith)
        requires ks.len() <= ORDER;
}

/// A part of a sequence of small strings holds small strings.
proof fn lemma_small_subrange(s: Seq<Seq<u8>>, a: int, b: int)
    requires
        all_small(s),
        0 <= a <= b <= s.len(),
    ensures
        all_small(s.subrange(a, b)),
{
    assert forall|q: int| 0 <= q < s.subrange(a, b).len() implies (#[trigger] s.subrange(a, b)[q]).len() <= ENTRY_MAX by {
        assert(s.subrange(a, b)[q] == s[a + q]);
    }
}

/// Inserting a small string keeps a sequence of small strings small.
proof fn lemma_small_insert(s: Seq<Seq<u8>>, i: int, x: Seq<u8>)
    requires
        all_small(s),
        0 <= i <= s.len(),
        x.len() <= ENTRY_MAX,
    ensures
        all_small(s.insert(i, x)),
{
    assert forall|q: int| 0 <= q < s.insert(i, x).len() implies (#[trigger] s.insert(i, x)[q]).len() <= ENTRY_MAX by {
        if q < i {
            assert(s.insert(i, x)[q] == s[q]);
        } else if q > i {
            assert(s.insert(i, x)[q] == s[q - 1]);
        }
    }
}

/// An insertion of `key` and `value` below `page_id` is sure to succeed:
/// the store reads, writes and allocates fresh pages, with room for one
/// allocation per level; the subtree is well formed, covers the key, and
/// holds only small keys and values, as do `key` and `value`; the budget
/// covers its height.
pub open spec fn insert_sure<S: PageSource>(
    src: S,
    page_id: u32,
    key: Seq<u8>,
    value: Seq<u8>,
    budget: u64,
    lo: Option<Seq<u8>>,
    hi: Option<Seq<u8>>,
    d: nat,
    after: Option<u32>,
) -> bool {
    &&& src.reads_succeed()
    &&& src.writable()
    &&& src.fresh_alloc()
    &&& src.alloc_room() >= d
    &&& ptree_wf(src.pages(), page_id, lo, hi, d, after)
    &&& byte_in_bounds(key, lo, hi)
    &&& ptree_small(src.pages(), page_id, d)
    &&& key.len() <= ENTRY_MAX
    &&& value.len() <= ENTRY_MAX
    &&& budget >= d
}

/// Strings of at most `ENTRY_MAX` bytes take at most `4 + ENTRY_MAX` bytes
/// each.
proof fn lemma_lp_size_small(s: Seq<Seq<u8>>)
    requires
        all_small(s),
    ensures
        spec_lp_size(s) <= s.len() * (4 + ENTRY_MAX),
    decreases s.len(),
{
    if s.len() > 0 {
        assert(all_small(s.drop_last())) by {
            assert forall|i: int| 0 <= i < s.drop_last().len() implies (#[trigger] s.drop_last()[i]).len() <= ENTRY_MAX by {
                assert(s.drop_last()[i] == s[i]);
            }
        }
        lemma_lp_size_small(s.drop_last());
        assert(s.last().len() <= ENTRY_MAX);
    }
}

/// A leaf of at most `ORDER` small keys and as many small values fits.
proof fn lemma_small_leaf_fits(ks: Seq<Seq<u8>>, vs: Seq<Seq<u8>>)
    requires
        all_small(ks),
        all_small(vs),
        ks.len() <= ORDER,
        vs.len() == ks.len(),
    ensures
        leaf_fits(ks, vs),
{
    lemma_lp_size_small(ks);
    lemma_lp_size_small(vs);
    assert(ks.len() * (4 + ENTRY_MAX) <= ORDER * (4 + ENTRY_MAX)) by (nonlinear_arith)
        requires ks.len() <= ORDER;
}

/// First position whose key does not sort before `target` (all keys before
/// it do).
fn lower_bound_keys(keys: &Vec<Vec<u8>>, target: &[u8]) -> (r: usize)
    ensures
        r <= keys@.len(),
        forall|j: int| 0 <= j < r ==> lex_lt(#[trigger] keys@[j]@, target@),
        r < keys@.len() ==> !lex_lt(keys@[r as int]@, target@),
{
    let mut i: usize = 0;
    while i < keys.len()
        invariant
            i <= keys@.len(),
            forall|j: int| 0 <= j < i ==> lex_lt(#[trigger] keys@[j]@, target@),
        decreases keys@.len() - i,
    {
        if !bytes_lt(keys[i].as_slice(), target) {
            return i;
        }
        i = i + 1;
    }
    i
}

/// Child to descend into for `key`: past a separator equal to it when
/// `right_on_equal`. With ascending separators and `right_on_equal`, it is
/// the child a lookup of `key` descends into.
fn child_index(keys: &Vec<Vec<u8>>, key: &[u8], right_on_equal: bool) -> (r: usize)
    ensures
        r <= keys@.len(),
        right_on_equal && bytes_sorted(vecs_view(keys@)) ==> is_route_child(vecs_view(keys@), key@, r as int),
        !right_on_equal && bytes_sorted(vecs_view(keys@)) ==> is_lower_child(vecs_view(keys@), key@, r as int),
{
    let idx = lower_bound_keys(keys, key);
    let ghost ks = vecs_view(keys@);
    proof {
        if !right_on_equal && bytes_sorted(ks) {
            assert forall|j: int| 0 <= j < idx implies lex_lt(#[trigger] ks[j], key@) by {
                assert(ks[j] == keys@[j]@);
            }
            assert forall|j: int| idx <= j < ks.len() implies !lex_lt(#[trigger] ks[j], key@) by {
                if j > idx {
                    assert(lex_lt(ks[idx as int], ks[j]));
                    lemma_lex_steps(key@, ks[idx as int], ks[j]);
                    lemma_lex_order(key@, ks[j], key@);
                }
            }
        }
    }
    if right_on_equal && idx < keys.len() && bytes_eq(keys[idx].as_slice(), key) {
        proof {
            if bytes_sorted(ks) {
                lemma_lex_order(key@, key@, key@);
                assert forall|j: int| 0 <= j < idx + 1 implies !lex_lt(key@, #[trigger] ks[j]) by {
                    lemma_lex_order(ks[j], key@, key@);
                }
                assert forall|j: int| idx + 1 <= j < ks.len() implies lex_lt(key@, #[trigger] ks[j]) by {
                    assert(lex_lt(ks[idx as int], ks[j]));
                }
            }
        }
        idx + 1
    } else {
        proof {
            if right_on_equal && bytes_sorted(ks) {
                assert forall|j: int| 0 <= j < idx implies !lex_lt(key@, #[trigger] ks[j]) by {
                    lemma_lex_order(ks[j], key@, key@);
                }
                assert forall|j: int| idx <= j < ks.len() implies lex_lt(key@, #[trigger] ks[j]) by {
                    lemma_lex_order(ks[idx as int], key@, key@);
                    if j > idx {
                        assert(lex_lt(ks[idx as int], ks[j]));
                        lemma_lex_steps(key@, ks[idx as int], ks[j]);
                    }
                }
            }
        }
        idx
    }
}

/// A copy of a byte vector.
fn copy_bytes(v: &Vec<u8>) -> (r: Vec<u8>)
    ensures
        r@ == v@,
{
    slice_to_vec(v.as_slice())
}

/// The slices of a list of byte vectors.
fn as_slices(v: &Vec<Vec<u8>>) -> (r: Vec<&[u8]>)
    ensures
        slices_view(r@) == vecs_view(v@),
{
    let mut out: Vec<&[u8]> = Vec::new();
    let mut i: usize = 0;
    while i < v.len()
        invariant
            i <= v@.len(),
            slices_view(out@) == vecs_view(v@.take(i as int)),
        decreases v@.len() - i,
    {
        let ghost prev = out@;
        let sl = v[i].as_slice();
        out.push(sl);
        assert(out@ == prev.push(sl));
        assert(slices_view(out@) =~= slices_view(prev).push(v@[i as int]@));
        assert(vecs_view(v@.take(i + 1)) =~= vecs_view(v@.take(i as int)).push(v@[i as int]@));
        i = i + 1;
    }
    assert(v@.take(i as int) =~= v@);
    out
}

/// `spec_lp_size` of the strings, if at most `budget`.
fn lp_size_within(items: &Vec<Vec<u8>>, budget: usize) -> (r: Option<usize>)
    ensures
        match r {
            Some(n) => n == spec_lp_size(vecs_view(items@)) && n <= budget,
            None => spec_lp_size(vecs_view(items@)) > budget,
        },
{
    let mut total: usize = 0;
    let mut i: usize = 0;
    while i < items.len()
        invariant
            i <= items@.len(),
            total <= budget,
            total == spec_lp_size(vecs_view(items@.take(i as int))),
        decreases items@.len() - i,
    {
        let len = items[i].len();
        proof {
            let t = vecs_view(items@.take(i + 1));
            assert(t.drop_last() =~= vecs_view(items@.take(i as int)));
            assert(t.last() == items@[i as int]@);
        }
        if budget - total < 4 || len > budget - total - 4 {
            proof {
                lemma_lp_size_prefix(vecs_view(items@), i + 1);
                assert(vecs_view(items@).take(i + 1) =~= vecs_view(items@.take(i + 1)));
            }
            return None;
        }
        total = total + 4 + len;
        i = i + 1;
    }
    assert(items@.take(i as int) =~= items@);
    Some(total)
}

/// The encoded size of a prefix bounds that of the whole.
proof fn lemma_lp_size_prefix(s: Seq<Seq<u8>>, k: int)
    requires
        0 <= k <= s.len(),
    ensures
        spec_lp_size(s.take(k)) <= spec_lp_size(s),
    decreases s.len(),
{
    if k < s.len() {
        assert(s.drop_last().take(k) =~= s.take(k));
        lemma_lp_size_prefix(s.drop_last(), k);
    } else {
        assert(s.take(k) =~= s);
    }
}

/// A leaf with these keys and values encodes within one page.
pub open spec fn leaf_fits(keys: Seq<Seq<u8>>, values: Seq<Seq<u8>>) -> bool {
    &&& spec_lp_size(keys) + spec_lp_size(values) + 13 <= PAGE_USER_DATA_SIZE
    &&& keys.len() <= ORDER
    &&& values.len() == keys.len()
}

/// An internal node with these keys and children encodes within one page.
pub open spec fn internal_fits(keys: Seq<Seq<u8>>, children: Seq<u32>) -> bool {
    &&& spec_lp_size(keys) + 12 + 4 * children.len() <= PAGE_USER_DATA_SIZE
    &&& keys.len() <= ORDER
    &&& children.len() == keys.len() + 1
}

/// An index page holding a leaf; a leaf that would not fit gives `Page(PageFull)`.
fn build_leaf_page(
    page_id: u32,
    keys: &Vec<Vec<u8>>,
    values: &Vec<Vec<u8>>,
    next_leaf: Option<u32>,
) -> (r: Result<Page, BTreeError>)
    ensures
        r matches Ok(p) ==> p.wf() && p@.header.page_id == page_id && p@.header.page_type
            == PageType::Index && spec_decode(p@.data) == Ok::<NodeView, BTreeError>(
            NodeView::Leaf { keys: vecs_view(keys@), values: vecs_view(values@), next_leaf },
        ),
        r is Ok <==> leaf_fits(vecs_view(keys@), vecs_view(values@)),
{
    let ks = match lp_size_within(keys, PAGE_USER_DATA_SIZE) {
        Some(n) => n,
        None => return Err(BTreeError::Page(PageError::PageFull)),
    };
    let vs = match lp_size_within(values, PAGE_USER_DATA_SIZE) {
        Some(n) => n,
        None => return Err(BTreeError::Page(PageError::PageFull)),
    };
    if ks + vs + 13 > PAGE_USER_DATA_SIZE {
        return Err(BTreeError::Page(PageError::PageFull));
    }
    let mut page = Page::new(page_id, PageType::Index);
    let node = EncodedNode {
        kind: KIND_LEAF,
        keys: as_slices(keys),
        children: None,
        values: Some(as_slices(values)),
        next_leaf,
    };
    let ghost nv = node@;
    proof {
        vstd::bytes::lemma_auto_spec_u32_to_from_le_bytes();
        assert(super::persist::spec_next_bytes(next_leaf).len() <= 5);
    }
    match encode_node_to_page(&mut page, node) {
        Ok(()) => {},
        Err(e) => return Err(e),
    }
    proof {
        super::persist::lemma_node_round_trip(nv);
    }
    Ok(page)
}

/// An index page holding an internal node; one that would not fit gives
/// `Page(PageFull)`.
fn build_internal_page(page_id: u32, keys: &Vec<Vec<u8>>, children: &Vec<u32>) -> (r: Result<
    Page,
    BTreeError,
>)
    ensures
        r matches Ok(p) ==> p.wf() && p@.header.page_id == page_id && p@.header.page_type
            == PageType::Index && spec_decode(p@.data) == Ok::<NodeView, BTreeError>(
            NodeView::Internal { keys: vecs_view(keys@), children: children@ },
        ),
        r is Ok <==> internal_fits(vecs_view(keys@), children@),
{
    let ks = match lp_size_within(keys, PAGE_USER_DATA_SIZE) {
        Some(n) => n,
        None => return Err(BTreeError::Page(PageError::PageFull)),
    };
    if children.len() > (PAGE_USER_DATA_SIZE - 12) / 4 || ks + 12 + 4 * children.len()
        > PAGE_USER_DATA_SIZE {
        return Err(BTreeError::Page(PageError::PageFull));
    }
    let mut page = Page::new(page_id, PageType::Index);
    let node = EncodedNode {
        kind: KIND_INTERNAL,
        keys: as_slices(keys),
        children: Some(slice_to_vec(children.as_slice())),
        values: None,
        next_leaf: None,
    };
    let ghost nv = node@;
    match encode_node_to_page(&mut page, node) {
        Ok(()) => {},
        Err(e) => return Err(e),
    }
    proof {
        super::persist::lemma_node_round_trip(nv);
    }
    Ok(page)
}

/// The tree of height `d` at `root` is well formed and can be opened
/// within the step budget and the range of `usize`.
pub open spec fn openable(pages: Map<u32, PageImage>, root: u32, d: nat) -> bool {
    &&& ptree_wf(pages, root, None, None, d, None)
    &&& d <= MAX_STEPS
    &&& d <= usize::MAX
    &&& ptree_leaves(pages, root, d).len() <= MAX_STEPS
    &&& ptree_entries(pages, root, d).len() <= usize::MAX
}

/// Arity facts of every decoded node.
spec fn node_arity_ok(n: DecodedNode) -> bool {
    match n {
        DecodedNode::Leaf { keys, values, .. } => keys@.len() == values@.len() && keys@.len()
            <= ORDER,
        DecodedNode::Internal { keys, children } => keys@.len() <= ORDER && children@.len()
            <= ORDER + 1,
    }
}

/// Whether `x` occurs in `v`.
fn contains_id(v: &Vec<u32>, x: u32) -> (r: bool)
    ensures
        r == v@.contains(x),
{
    let mut i: usize = 0;
    while i < v.len()
        invariant
            i <= v@.len(),
            forall|j: int| 0 <= j < i ==> v@[j] != x,
        decreases v@.len() - i,
    {
        if v[i] == x {
            return true;
        }
        i = i + 1;
    }
    false
}

/// Reads and decodes page `pid`, turning a read error into `Space`.
fn load_node<S: PageSource>(source: &mut S, pid: u32) -> (r: Result<DecodedNode, BTreeError>)
    requires
        (*old(source)).valid(),
    ensures
        (*final(source)).valid(),
        (*final(source)).pages() == (*old(source)).pages(),
        (*final(source)).fresh_alloc() == (*old(source)).fresh_alloc(),
        (*final(source)).reads_succeed() == (*old(source)).reads_succeed(),
        (*final(source)).writable() == (*old(source)).writable(),
        (*final(source)).alloc_room() == (*old(source)).alloc_room(),
        (*old(source)).reads_succeed() && (*old(source)).pages().contains_key(pid) ==> match r {
            Ok(_) => true,
            Err(e) => spec_decode((*old(source)).pages()[pid].data) == Err::<NodeView, BTreeError>(e),
        },
        r matches Ok(n) ==> (*old(source)).pages().contains_key(pid) && spec_decode(
            (*old(source)).pages()[pid].data,
        ) == Ok::<NodeView, BTreeError>(n@) && node_arity_ok(n) && (*old(source)).pages()[pid].data.len()
            == PAGE_USER_DATA_SIZE,
{
    let r = DecodedNode::load(source, pid);
    proof {
        if r is Ok {
            lemma_decode_arity((*old(source)).pages()[pid].data);
        }
    }
    r
}

/// Descends from `root` to the leaf whose range holds `key`. In a
/// well-formed tree of height `height`, with `right_on_equal`, that is the
/// leaf a lookup of `key` reaches.
fn find_leaf<S: PageSource>(
    source: &mut S,
    root: u32,
    key: &[u8],
    right_on_equal: bool,
    Ghost(height): Ghost<nat>,
) -> (r: Result<u32, BTreeError>)
    requires
        (*old(source)).valid(),
    ensures
        (*final(source)).valid(),
        (*final(source)).pages() == (*old(source)).pages(),
        (*final(source)).fresh_alloc() == (*old(source)).fresh_alloc(),
        (*final(source)).reads_succeed() == (*old(source)).reads_succeed(),
        (*final(source)).writable() == (*old(source)).writable(),
        (*final(source)).alloc_room() == (*old(source)).alloc_room(),
        (*old(source)).reads_succeed() && ptree_wf((*old(source)).pages(), root, None, None, height, None)
            && height <= MAX_STEPS ==> r is Ok,
        right_on_equal && ptree_wf((*old(source)).pages(), root, None, None, height, None) ==> (r matches Ok(
            leaf,
        ) ==> leaf == route_leaf((*old(source)).pages(), root, key@, height).0),
        !right_on_equal && ptree_wf((*old(source)).pages(), root, None, None, height, None) ==> (r matches Ok(
            leaf,
        ) ==> leaf == route_leaf_left((*old(source)).pages(), root, key@, height).0),
{
    let ghost pages = source.pages();
    let ghost premise = right_on_equal && ptree_wf(pages, root, None, None, height, None);
    let ghost premise_left = !right_on_equal && ptree_wf(pages, root, None, None, height, None);
    let ghost mut lo: Option<Seq<u8>> = None;
    let ghost mut hi: Option<Seq<u8>> = None;
    let ghost mut d: nat = height;
    let ghost mut after: Option<u32> = None;
    let ghost ok = source.reads_succeed() && ptree_wf(pages, root, None, None, height, None)
        && height <= MAX_STEPS;
    let mut page_id = root;
    let mut steps: u64 = 0;
    loop
        invariant
            source.valid(),
            source.pages() == pages,
            source.fresh_alloc() == (*old(source)).fresh_alloc(),
            source.reads_succeed() == (*old(source)).reads_succeed(),
            source.writable() == (*old(source)).writable(),
            source.alloc_room() == (*old(source)).alloc_room(),
            pages == (*old(source)).pages(),
            steps <= MAX_STEPS,
            ok == ((*old(source)).reads_succeed() && ptree_wf(pages, root, None, None, height, None)
                && height <= MAX_STEPS),
            ok ==> steps + d == height && ptree_wf(pages, page_id, lo, hi, d, after),
            premise == (right_on_equal && ptree_wf(pages, root, None, None, height, None)),
            premise ==> ptree_wf(pages, page_id, lo, hi, d, after),
            premise ==> byte_in_bounds(key@, lo, hi),
            premise ==> route_leaf(pages, root, key@, height).0 == route_leaf(pages, page_id, key@, d).0,
            premise_left == (!right_on_equal && ptree_wf(pages, root, None, None, height, None)),
            premise_left ==> ptree_wf(pages, page_id, lo, hi, d, after),
            premise_left ==> route_leaf_left(pages, root, key@, height).0 == route_leaf_left(
                pages,
                page_id,
                key@,
                d,
            ).0,
        decreases MAX_STEPS - steps,
    {
        proof {
            if ok {
                lemma_node_shape(pages, page_id, lo, hi, d, after);
            }
        }
        if steps == MAX_STEPS {
            return Err(BTreeError::InvalidNodeKind(0));
        }
        steps = steps + 1;
        match load_node(source, page_id) {
            Err(e) => return Err(e),
            Ok(DecodedNode::Leaf { .. }) => return Ok(page_id),
            Ok(DecodedNode::Internal { keys, children }) => {
                let ci = child_index(&keys, key, right_on_equal);
                proof {
                    if ok {
                        lemma_node_shape(pages, page_id, lo, hi, d, after);
                    }
                }
                if ci >= children.len() {
                    return Err(
                        BTreeError::ArityMismatch {
                            keys: keys.len(),
                            children: children.len(),
                            values: 0,
                        },
                    );
                }
                proof {
                    if premise {
                        lemma_node_shape(pages, page_id, lo, hi, d, after);
                        let ks = vecs_view(keys@);
                        lemma_route_child_unique(ks, key@, ci as int);
                        lemma_route_child(ks, key@, lo, hi);
                        let e = (d - 1) as nat;
                        after = super::ptree::next_after(pages, children@, ci as int, e, after);
                        lo = child_lo(ks, ci as int, lo);
                        hi = child_hi(ks, ci as int, hi);
                        d = e;
                    }
                    if premise_left {
                        lemma_node_shape(pages, page_id, lo, hi, d, after);
                        let ks = vecs_view(keys@);
                        lemma_lower_child_unique(ks, key@, ci as int);
                        let e = (d - 1) as nat;
                        after = super::ptree::next_after(pages, children@, ci as int, e, after);
                        lo = child_lo(ks, ci as int, lo);
                        hi = child_hi(ks, ci as int, hi);
                        d = e;
                    }
                }
                page_id = children[ci];
            },
        }
    }
}

/// Height of the tree rooted at `root`, following first children. For a
/// well-formed tree of height `d` at `root`, that is `d`.
fn compute_height<S: PageSource>(source: &mut S, root: u32, Ghost(d): Ghost<nat>) -> (r: Result<usize, BTreeError>)
    requires
        (*old(source)).valid(),
    ensures
        (*final(source)).valid(),
        (*final(source)).pages() == (*old(source)).pages(),
        r matches Ok(h) ==> h >= 1,
        (*final(source)).reads_succeed() == (*old(source)).reads_succeed(),
        (*final(source)).writable() == (*old(source)).writable(),
        (*final(source)).alloc_room() == (*old(source)).alloc_room(),
        (*final(source)).fresh_alloc() == (*old(source)).fresh_alloc(),
        (*old(source)).reads_succeed() && ptree_wf((*old(source)).pages(), root, None, None, d, None)
            && d <= usize::MAX ==> r is Ok,
        ptree_wf((*old(source)).pages(), root, None, None, d, None) ==> (r matches Ok(h) ==> h == d),
{
    let ghost pages = source.pages();
    let ghost premise = ptree_wf(pages, root, None, None, d, None);
    let ghost mut lo: Option<Seq<u8>> = None;
    let ghost mut hi: Option<Seq<u8>> = None;
    let ghost mut after: Option<u32> = None;
    let mut h: usize = 1;
    let mut cur = root;
    proof {
        if premise {
            lemma_node_shape(pages, root, None, None, d, None);
        }
    }
    loop
        invariant
            source.valid(),
            source.pages() == pages,
            pages == (*old(source)).pages(),
            source.reads_succeed() == (*old(source)).reads_succeed(),
            source.writable() == (*old(source)).writable(),
            source.alloc_room() == (*old(source)).alloc_room(),
            source.fresh_alloc() == (*old(source)).fresh_alloc(),
            1 <= h,
            premise == ptree_wf(pages, root, None, None, d, None),
            premise ==> h <= d && ptree_wf(pages, cur, lo, hi, (d - (h - 1)) as nat, after),
        decreases usize::MAX - h,
    {
        proof {
            if premise {
                lemma_node_shape(pages, cur, lo, hi, (d - (h - 1)) as nat, after);
            }
        }
        match load_node(source, cur) {
            Err(e) => return Err(e),
            Ok(DecodedNode::Leaf { .. }) => {
                proof {
                    if premise {
                        lemma_node_shape(pages, cur, lo, hi, (d - (h - 1)) as nat, after);
                    }
                }
                return Ok(h);
            },
            Ok(DecodedNode::Internal { keys, children }) => {
                proof {
                    if premise {
                        lemma_node_shape(pages, cur, lo, hi, (d - (h - 1)) as nat, after);
                    }
                }
                if children.len() == 0 {
                    return Ok(h);
                }
                if h == usize::MAX {
                    return Err(BTreeError::InvalidNodeKind(0));
                }
                proof {
                    if premise {
                        let e = (d - (h - 1) - 1) as nat;
                        let ks = vecs_view(keys@);
                        assert(ptree_wf(
                            pages,
                            children@[0],
                            child_lo(ks, 0, lo),
                            child_hi(ks, 0, hi),
                            e,
                            super::ptree::next_after(pages, children@, 0, e, after),
                        ));
                        after = super::ptree::next_after(pages, children@, 0, e, after);
                        lo = child_lo(ks, 0, lo);
                        hi = child_hi(ks, 0, hi);
                    }
                }
                cur = children[0];
                h = h + 1;
            },
        }
    }
}

/// Number of entries in the leaves, walking the chain from the leftmost
/// leaf. For a well-formed tree of height `d` at `root`, that is the number
/// of its entries.
fn count_leaves<S: PageSource>(source: &mut S, root: u32, Ghost(d): Ghost<nat>) -> (r: Result<usize, BTreeError>)
    requires
        (*old(source)).valid(),
    ensures
        (*final(source)).valid(),
        (*final(source)).pages() == (*old(source)).pages(),
        ptree_wf((*old(source)).pages(), root, None, None, d, None) ==> (r matches Ok(n) ==> n
            == ptree_entries((*old(source)).pages(), root, d).len()),
        (*final(source)).reads_succeed() == (*old(source)).reads_succeed(),
        (*final(source)).writable() == (*old(source)).writable(),
        (*final(source)).alloc_room() == (*old(source)).alloc_room(),
        (*final(source)).fresh_alloc() == (*old(source)).fresh_alloc(),
        (*old(source)).reads_succeed() && ptree_wf((*old(source)).pages(), root, None, None, d, None)
            && d <= MAX_STEPS && ptree_leaves((*old(source)).pages(), root, d).len() <= MAX_STEPS
            && ptree_entries((*old(source)).pages(), root, d).len() <= usize::MAX ==> r is Ok,
{
    let ghost pages = source.pages();
    let ghost premise = ptree_wf(pages, root, None, None, d, None);
    let ghost ok = source.reads_succeed() && premise && d <= MAX_STEPS && ptree_leaves(pages, root, d).len()
        <= MAX_STEPS && ptree_entries(pages, root, d).len() <= usize::MAX;
    let ghost mut lo: Option<Seq<u8>> = None;
    let ghost mut hi: Option<Seq<u8>> = None;
    let ghost mut after: Option<u32> = None;
    let ghost mut e: nat = d;
    let mut cur = root;
    let mut steps: u64 = 0;
    loop
        invariant_except_break
            ok ==> steps + e == d,
        invariant
            source.valid(),
            source.pages() == (*old(source)).pages(),
            pages == (*old(source)).pages(),
            steps <= MAX_STEPS,
            premise == ptree_wf(pages, root, None, None, d, None),
            premise ==> ptree_wf(pages, cur, lo, hi, e, after) && first_leaf(pages, cur, e)
                == first_leaf(pages, root, d),
            source.reads_succeed() == (*old(source)).reads_succeed(),
            source.writable() == (*old(source)).writable(),
            source.alloc_room() == (*old(source)).alloc_room(),
            source.fresh_alloc() == (*old(source)).fresh_alloc(),
            ok == ((*old(source)).reads_succeed() && premise && d <= MAX_STEPS && ptree_leaves(pages, root, d).len()
                <= MAX_STEPS && ptree_entries(pages, root, d).len() <= usize::MAX),
        ensures
            premise ==> node_at(pages, cur) is Leaf,
        decreases MAX_STEPS - steps,
    {
        proof {
            if premise {
                lemma_node_shape(pages, cur, lo, hi, e, after);
            }
        }
        if steps == MAX_STEPS {
            return Err(BTreeError::InvalidNodeKind(0));
        }
        steps = steps + 1;
        match load_node(source, cur) {
            Err(e) => return Err(e),
            Ok(DecodedNode::Leaf { .. }) => break ,
            Ok(DecodedNode::Internal { keys, children }) => {
                if children.len() == 0 {
                    return Err(
                        BTreeError::ArityMismatch { keys: keys.len(), children: 0, values: 0 },
                    );
                }
                proof {
                    if premise {
                        lemma_node_shape(pages, cur, lo, hi, e, after);
                        let e2 = (e - 1) as nat;
                        let ks = vecs_view(keys@);
                        after = super::ptree::next_after(pages, children@, 0, e2, after);
                        lo = child_lo(ks, 0, lo);
                        hi = child_hi(ks, 0, hi);
                        e = e2;
                    }
                }
                cur = children[0];
            },
        }
    }
    let ghost ls = ptree_leaves(pages, root, d);
    proof {
        if premise {
            lemma_node_shape(pages, cur, lo, hi, e, after);
            lemma_ptree_leaves(pages, root, None, None, d, None);
            assert(ls.subrange(0, 0) =~= Seq::<u32>::empty());
            assert(leaves_entries(pages, Seq::<u32>::empty()) == Seq::<ByteEntry>::empty());
        }
    }
    let mut total: usize = 0;
    let mut next = Some(cur);
    let ghost mut t: int = 0;
    let mut steps: u64 = 0;
    while next.is_some()
        invariant
            source.valid(),
            source.pages() == (*old(source)).pages(),
            pages == (*old(source)).pages(),
            steps <= MAX_STEPS,
            premise == ptree_wf(pages, root, None, None, d, None),
            source.reads_succeed() == (*old(source)).reads_succeed(),
            source.writable() == (*old(source)).writable(),
            source.alloc_room() == (*old(source)).alloc_room(),
            source.fresh_alloc() == (*old(source)).fresh_alloc(),
            ls == ptree_leaves(pages, root, d),
            ok == ((*old(source)).reads_succeed() && premise && d <= MAX_STEPS && ptree_leaves(pages, root, d).len()
                <= MAX_STEPS && ptree_entries(pages, root, d).len() <= usize::MAX),
            ok ==> steps == t,
            premise ==> {
                &&& 0 <= t <= ls.len()
                &&& chained(pages, ls, None)
                &&& leaves_entries(pages, ls) == ptree_entries(pages, root, d)
                &&& (next matches Some(c) ==> t < ls.len() && ls[t] == c)
                &&& (next is None ==> t == ls.len())
                &&& total == leaves_entries(pages, ls.subrange(0, t)).len()
            },
        decreases MAX_STEPS - steps,
    {
        if steps == MAX_STEPS {
            return Err(BTreeError::InvalidNodeKind(0));
        }
        steps = steps + 1;
        let pid = match next {
            Some(p) => p,
            None => 0,
        };
        match load_node(source, pid) {
            Err(e) => return Err(e),
            Ok(DecodedNode::Leaf { keys, values, next_leaf }) => {
                proof {
                    if ok {
                        assert(node_at(pages, pid) == NodeView::Leaf {
                            keys: vecs_view(keys@),
                            values: vecs_view(values@),
                            next_leaf,
                        });
                        assert(ls.subrange(0, t + 1).drop_last() =~= ls.subrange(0, t));
                        assert(leaf_entries_at(pages, ls[t]).len() == keys@.len());
                        super::ptree::lemma_leaves_entries_add(pages, ls.subrange(0, t + 1), ls.subrange(t + 1, ls.len() as int));
                        assert(ls.subrange(0, t + 1) + ls.subrange(t + 1, ls.len() as int) =~= ls);
                    }
                }
                if keys.len() > usize::MAX - total {
                    return Err(BTreeError::InvalidNodeKind(0));
                }
                total = total + keys.len();
                proof {
                    if premise {
                        assert(node_at(pages, pid) == NodeView::Leaf {
                            keys: vecs_view(keys@),
                            values: vecs_view(values@),
                            next_leaf,
                        });
                        assert(ls.subrange(0, t + 1).drop_last() =~= ls.subrange(0, t));
                        assert(leaf_entries_at(pages, ls[t]).len() == keys@.len());
                        if t + 1 < ls.len() {
                            assert(node_at(pages, ls[t])->Leaf_next_leaf == Some(ls[t + 1]));
                        } else {
                            assert(ls.last() == ls[t]);
                        }
                        t = t + 1;
                    }
                }
                next = next_leaf;
            },
            Ok(DecodedNode::Internal { .. }) => return Err(BTreeError::InvalidNodeKind(0)),
        }
    }
    proof {
        if premise {
            assert(ls.subrange(0, ls.len() as int) =~= ls);
        }
    }
    Ok(total)
}

/// The key pushed up and the new right page of a split, if any.
spec fn split_view(s: Option<Split>) -> Option<(Seq<u8>, u32)> {
    match s {
        Some(sp) => Some((sp.up_key@, sp.right_page_id)),
        None => None,
    }
}

/// Inserts into the leaf at `page_id`, whose keys, values and link are
/// given: an existing key gets the new value, else the pair goes in at its
/// place; a leaf that reaches `ORDER` keys splits, the upper half moving to
/// a new page linked in after it.
#[verifier::rlimit(40)]
#[verifier::spinoff_prover]
fn insert_leaf<S: PageSource>(
    source: &mut S,
    page_id: u32,
    keys: Vec<Vec<u8>>,
    values: Vec<Vec<u8>>,
    next_leaf: Option<u32>,
    key: Vec<u8>,
    value: Vec<u8>,
    Ghost(lo): Ghost<Option<Seq<u8>>>,
    Ghost(hi): Ghost<Option<Seq<u8>>>,
    Ghost(d): Ghost<nat>,
    Ghost(after): Ghost<Option<u32>>,
) -> (r: Result<Option<Split>, BTreeError>)
    requires
        (*old(source)).valid(),
        keys@.len() == values@.len(),
        (*old(source)).pages().contains_key(page_id),
        spec_decode((*old(source)).pages()[page_id].data) == Ok::<NodeView, BTreeError>(
            NodeView::Leaf { keys: vecs_view(keys@), values: vecs_view(values@), next_leaf },
        ),
    ensures
        (*final(source)).valid(),
        (*old(source)).fresh_alloc() ==> (*final(source)).fresh_alloc(),
        (*final(source)).reads_succeed() == (*old(source)).reads_succeed(),
        (*final(source)).writable() == (*old(source)).writable(),
        (*final(source)).alloc_room() + 1 >= (*old(source)).alloc_room(),
        (*old(source)).writable() && (*old(source)).alloc_room() > 0 && page_id != 0 && all_small(
            vecs_view(keys@),
        ) && all_small(vecs_view(values@)) && key@.len() <= ENTRY_MAX && value@.len() <= ENTRY_MAX
            ==> r is Ok && (r matches Ok(Some(sp)) ==> sp.up_key@.len() <= ENTRY_MAX),
        r matches Ok(None) ==> (*final(source)).alloc_room() == (*old(source)).alloc_room(),
        (*old(source)).fresh_alloc() && ptree_wf((*old(source)).pages(), page_id, lo, hi, d, after)
            && byte_in_bounds(key@, lo, hi) ==> (r matches Ok(s) ==> insert_post(
            (*old(source)).pages(),
            (*final(source)).pages(),
            page_id,
            lo,
            hi,
            d,
            after,
            key@,
            value@,
            split_view(s),
        )),
{
    let mut keys = keys;
    let mut values = values;
    let ghost p0 = source.pages();
    let ghost k = key@;
    let ghost v = value@;
    let ghost ks0 = vecs_view(keys@);
    let ghost vs0 = vecs_view(values@);
    let ghost premise = source.fresh_alloc() && ptree_wf(p0, page_id, lo, hi, d, after)
        && byte_in_bounds(k, lo, hi);
    let ghost small = source.writable() && source.alloc_room() > 0 && page_id != 0 && all_small(ks0)
        && all_small(vs0) && k.len() <= ENTRY_MAX && v.len() <= ENTRY_MAX;
    proof {
        lemma_decode_arity(p0[page_id].data);
    }
    let idx = lower_bound_keys(&keys, key.as_slice());
    proof {
        if premise {
            lemma_node_shape(p0, page_id, lo, hi, d, after);
            assert forall|j: int| 0 <= j < idx implies lex_lt(#[trigger] ks0[j], k) by {
                assert(ks0[j] == keys@[j]@);
            }
            lemma_leaf_put(ks0, vs0, k, v, idx as int);
        }
    }
    if idx < keys.len() && bytes_eq(keys[idx].as_slice(), key.as_slice()) {
        values.set(idx, value);
        proof {
            if small {
                assert(vecs_view(keys@) == ks0);
                assert(vecs_view(values@) =~= vs0.update(idx as int, v));
                lemma_small_leaf_fits(vecs_view(keys@), vecs_view(values@));
            }
        }
        assert(vecs_view(values@) =~= vs0.update(idx as int, v));
        let new_page = match build_leaf_page(page_id, &keys, &values, next_leaf) {
            Ok(p) => p,
            Err(e) => return Err(e),
        };
        match source.write_page(page_id, &new_page) {
            Ok(()) => {},
            Err(e) => return Err(BTreeError::Space(e)),
        }
        proof {
            if premise {
                lemma_leaf_rewrite(
                    p0,
                    source.pages(),
                    page_id,
                    lo,
                    hi,
                    after,
                    k,
                    v,
                    ks0,
                    vs0.update(idx as int, v),
                );
            }
        }
        return Ok(None);
    }
    keys.insert(idx, key);
    values.insert(idx, value);
    let ghost nks = vecs_view(keys@);
    let ghost nvs = vecs_view(values@);
    assert(nks =~= ks0.insert(idx as int, k));
    assert(nvs =~= vs0.insert(idx as int, v));
    if keys.len() >= ORDER {
        let mid = keys.len() / 2;
        let right_keys = keys.split_off(mid);
        let right_values = values.split_off(mid);
        proof {
            if small {
                assert(all_small(nks) && all_small(nvs)) by {
                    assert forall|q: int| 0 <= q < nks.len() implies (#[trigger] nks[q]).len() <= ENTRY_MAX by {
                        if q < idx { assert(nks[q] == ks0[q]); } else if q > idx { assert(nks[q] == ks0[q - 1]); }
                    }
                    assert forall|q: int| 0 <= q < nvs.len() implies (#[trigger] nvs[q]).len() <= ENTRY_MAX by {
                        if q < idx { assert(nvs[q] == vs0[q]); } else if q > idx { assert(nvs[q] == vs0[q - 1]); }
                    }
                }
                assert(vecs_view(keys@) =~= nks.subrange(0, mid as int));
                assert(vecs_view(values@) =~= nvs.subrange(0, mid as int));
                assert(vecs_view(right_keys@) =~= nks.subrange(mid as int, nks.len() as int));
                assert(vecs_view(right_values@) =~= nvs.subrange(mid as int, nvs.len() as int));
                assert(all_small(vecs_view(keys@)) && all_small(vecs_view(values@))) by {
                    assert forall|q: int| 0 <= q < vecs_view(keys@).len() implies (#[trigger] vecs_view(keys@)[q]).len() <= ENTRY_MAX by {
                        assert(vecs_view(keys@)[q] == nks[q]);
                    }
                    assert forall|q: int| 0 <= q < vecs_view(values@).len() implies (#[trigger] vecs_view(values@)[q]).len() <= ENTRY_MAX by {
                        assert(vecs_view(values@)[q] == nvs[q]);
                    }
                }
                assert(all_small(vecs_view(right_keys@)) && all_small(vecs_view(right_values@))) by {
                    assert forall|q: int| 0 <= q < vecs_view(right_keys@).len() implies (#[trigger] vecs_view(right_keys@)[q]).len() <= ENTRY_MAX by {
                        assert(vecs_view(right_keys@)[q] == nks[mid + q]);
                    }
                    assert forall|q: int| 0 <= q < vecs_view(right_values@).len() implies (#[trigger] vecs_view(right_values@)[q]).len() <= ENTRY_MAX by {
                        assert(vecs_view(right_values@)[q] == nvs[mid + q]);
                    }
                }
                lemma_small_leaf_fits(vecs_view(keys@), vecs_view(values@));
                lemma_small_leaf_fits(vecs_view(right_keys@), vecs_view(right_values@));
            }
        }
        assert(vecs_view(keys@) =~= nks.subrange(0, mid as int));
        assert(vecs_view(values@) =~= nvs.subrange(0, mid as int));
        assert(vecs_view(right_keys@) =~= nks.subrange(mid as int, nks.len() as int));
        assert(vecs_view(right_values@) =~= nvs.subrange(mid as int, nvs.len() as int));
        let up_key = copy_bytes(&right_keys[0]);
        proof {
            if small {
                assert(right_keys@[0]@ == vecs_view(right_keys@)[0]);
            }
        }
        let right_id = match source.allocate_page() {
            Ok(id) => id,
            Err(e) => return Err(BTreeError::Space(e)),
        };
        let right_page = match build_leaf_page(right_id, &right_keys, &right_values, next_leaf) {
            Ok(p) => p,
            Err(e) => return Err(e),
        };
        match source.write_page(right_id, &right_page) {
            Ok(()) => {},
            Err(e) => return Err(BTreeError::Space(e)),
        }
        let left_page = match build_leaf_page(page_id, &keys, &values, Some(right_id)) {
            Ok(p) => p,
            Err(e) => return Err(e),
        };
        match source.write_page(page_id, &left_page) {
            Ok(()) => {},
            Err(e) => return Err(BTreeError::Space(e)),
        }
        proof {
            if premise {
                let p2 = source.pages();
                assert forall|x: u32|
                    x != page_id && x != right_id && x != 0 && #[trigger] p0.contains_key(x) implies p2.contains_key(
                        x,
                    ) && p2[x] == p0[x] by {}
                assert(up_key@ == nks[mid as int]);
                lemma_leaf_split(p0, p2, page_id, lo, hi, after, k, v, nks, nvs, mid as int, right_id);
            }
        }
        Ok(Some(Split { up_key, right_page_id: right_id }))
    } else {
        proof {
            if small {
                assert(all_small(nks) && all_small(nvs)) by {
                    assert forall|q: int| 0 <= q < nks.len() implies (#[trigger] nks[q]).len() <= ENTRY_MAX by {
                        if q < idx { assert(nks[q] == ks0[q]); } else if q > idx { assert(nks[q] == ks0[q - 1]); }
                    }
                    assert forall|q: int| 0 <= q < nvs.len() implies (#[trigger] nvs[q]).len() <= ENTRY_MAX by {
                        if q < idx { assert(nvs[q] == vs0[q]); } else if q > idx { assert(nvs[q] == vs0[q - 1]); }
                    }
                }
                lemma_small_leaf_fits(nks, nvs);
            }
        }
        let new_page = match build_leaf_page(page_id, &keys, &values, next_leaf) {
            Ok(p) => p,
            Err(e) => return Err(e),
        };
        match source.write_page(page_id, &new_page) {
            Ok(()) => {},
            Err(e) => return Err(BTreeError::Space(e)),
        }
        proof {
            if premise {
                lemma_leaf_rewrite(p0, source.pages(), page_id, lo, hi, after, k, v, nks, nvs);
            }
        }
        Ok(None)
    }
}

impl PersistentBtree {
    /// Creates an empty tree in `source`: a new page holding an empty leaf
    /// becomes the root. The caller records the root page id.
    pub fn create<S: PageSource>(source: &mut S) -> (r: Result<Self, BTreeError>)
        requires
            (*old(source)).valid(),
        ensures
            (*final(source)).valid(),
            r matches Ok(t) ==> {
                &&& t@.height == 1
                &&& t@.len == 0
                &&& (*final(source)).pages().contains_key(t@.root_page_id)
                &&& (*final(source)).pages()[t@.root_page_id].page_id == t@.root_page_id
                &&& (*final(source)).pages()[t@.root_page_id].page_type == PageType::Index
                &&& spec_decode((*final(source)).pages()[t@.root_page_id].data) == Ok::<
                    NodeView,
                    BTreeError,
                >(
                    NodeView::Leaf {
                        keys: Seq::empty(),
                        values: Seq::empty(),
                        next_leaf: None,
                    },
                )
            },
            (*old(source)).fresh_alloc() ==> (*final(source)).fresh_alloc() && (r matches Ok(t)
                ==> t.wf_in((*final(source)).pages()) && t.entries_in((*final(source)).pages())
                == Seq::<ByteEntry>::empty() && confined(
                (*old(source)).pages(),
                (*final(source)).pages(),
                Set::empty(),
                t.pages_in((*final(source)).pages()),
            )),
            (*old(source)).fresh_alloc() ==> unchanged_outside(
                (*old(source)).pages(),
                (*final(source)).pages(),
                Set::empty(),
            ),
            (*final(source)).reads_succeed() == (*old(source)).reads_succeed(),
            (*final(source)).writable() == (*old(source)).writable(),
            (*final(source)).alloc_room() + 1 >= (*old(source)).alloc_room(),
            (*old(source)).writable() && (*old(source)).alloc_room() > 0 ==> r is Ok,
    {
        let ghost p0 = source.pages();
        let root_id = match source.allocate_page() {
            Ok(id) => id,
            Err(e) => return Err(BTreeError::Space(e)),
        };
        proof {
            if (*old(source)).fresh_alloc() {
                let p1 = source.pages();
                assert forall|x: u32| #[trigger] p0.contains_key(x) && !Set::<u32>::empty().contains(x) && x != 0 implies p1.contains_key(x) && p1[x] == p0[x] by {
                    assert(x != root_id);
                }
            }
        }
        let empty: Vec<Vec<u8>> = Vec::new();
        proof {
            assert(vecs_view(empty@) =~= Seq::<Seq<u8>>::empty());
        }
        let page = match build_leaf_page(root_id, &empty, &empty, None) {
            Ok(p) => p,
            Err(e) => return Err(e),
        };
        match source.write_page(root_id, &page) {
            Ok(()) => {},
            Err(e) => return Err(BTreeError::Space(e)),
        }
        assert(vecs_view(empty@) =~= Seq::<Seq<u8>>::empty());
        let t = PersistentBtree { root_page_id: root_id, height: 1, len: 0 };
        proof {
            if (*old(source)).fresh_alloc() {
                lemma_leaf_wf(source.pages(), root_id, None, None, None);
                assert(t.entries_in(source.pages()) =~= Seq::<ByteEntry>::empty());
                assert(t.pages_in(source.pages()) == set![root_id]);
            }
        }
        Ok(t)
    }

    /// Opens the tree whose root is page `root_page_id`: the root must
    /// decode; the height and entry count are computed from the pages.
    pub fn open<S: PageSource>(source: &mut S, root_page_id: u32) -> (r: Result<Self, BTreeError>)
        requires
            (*old(source)).valid(),
        ensures
            (*final(source)).valid(),
            (*final(source)).pages() == (*old(source)).pages(),
            r matches Ok(t) ==> {
                &&& t@.root_page_id == root_page_id
                &&& t@.height >= 1
                &&& (*old(source)).pages().contains_key(root_page_id)
                &&& spec_decode((*old(source)).pages()[root_page_id].data) is Ok
            },
            (exists|d: nat| ptree_wf((*old(source)).pages(), root_page_id, None, None, d, None)) ==> (
            r matches Ok(t) ==> t.wf_in((*old(source)).pages()) && t@.len == t.entries_in(
                (*old(source)).pages(),
            ).len()),
            (*final(source)).reads_succeed() == (*old(source)).reads_succeed(),
            (*final(source)).writable() == (*old(source)).writable(),
            (*final(source)).alloc_room() == (*old(source)).alloc_room(),
            (*final(source)).fresh_alloc() == (*old(source)).fresh_alloc(),
            (*old(source)).reads_succeed() && (exists|d: nat| #[trigger] openable((*old(source)).pages(), root_page_id, d))
                ==> r is Ok,
    {
        let ghost pages = source.pages();
        let ghost d = if exists|d: nat| #[trigger] openable(pages, root_page_id, d) {
            choose|d: nat| #[trigger] openable(pages, root_page_id, d)
        } else {
            choose|d: nat| ptree_wf(pages, root_page_id, None, None, d, None)
        };
        proof {
            if openable(pages, root_page_id, d) {
                lemma_node_shape(pages, root_page_id, None, None, d, None);
            }
        }
        match load_node(source, root_page_id) {
            Ok(_) => {},
            Err(e) => return Err(e),
        }
        let height = match compute_height(source, root_page_id, Ghost(d)) {
            Ok(h) => h,
            Err(e) => return Err(e),
        };
        let len = match count_leaves(source, root_page_id, Ghost(d)) {
            Ok(n) => n,
            Err(e) => return Err(e),
        };
        Ok(PersistentBtree { root_page_id, height, len })
    }

    /// The root page id.
    pub fn root_page_id(&self) -> (r: u32)
        ensures
            r == self@.root_page_id,
    {
        self.root_page_id
    }

    /// The height (a lone leaf has height 1).
    pub fn height(&self) -> (r: usize)
        ensures
            r == self@.height,
    {
        self.height
    }

    /// Entries inserted (overwrites included) less entries deleted.
    pub fn len(&self) -> (r: usize)
        ensures
            r == self@.len,
    {
        self.len
    }

    /// Whether the count is zero.
    pub fn is_empty(&self) -> (r: bool)
        ensures
            r == (self@.len == 0),
    {
        self.len == 0
    }

    /// The tree is well formed in `pages`.
    pub open spec fn wf_in(&self, pages: Map<u32, PageImage>) -> bool {
        ptree_wf(pages, self@.root_page_id, None, None, self@.height, None)
    }

    /// Every key and value the tree holds in `pages` is at most
    /// `ENTRY_MAX` bytes long.
    pub open spec fn small_in(&self, pages: Map<u32, PageImage>) -> bool {
        ptree_small(pages, self@.root_page_id, self@.height)
    }

    /// The tree can be walked within the step budget: its height and its
    /// number of leaves are at most `MAX_STEPS`.
    pub open spec fn walkable(&self, pages: Map<u32, PageImage>) -> bool {
        &&& self@.height <= MAX_STEPS
        &&& ptree_leaves(pages, self@.root_page_id, self@.height).len() <= MAX_STEPS
    }

    /// The pages the tree uses in `pages`.
    pub open spec fn pages_in(&self, pages: Map<u32, PageImage>) -> Set<u32> {
        ptree_pages(pages, self@.root_page_id, self@.height)
    }

    /// The entries of the tree in `pages`, in key order.
    pub open spec fn entries_in(&self, pages: Map<u32, PageImage>) -> Seq<ByteEntry> {
        ptree_entries(pages, self@.root_page_id, self@.height)
    }

    /// Looks `key` up: descends to the leaf whose range holds it, then
    /// follows the leaf chain while the key sorts after a whole leaf. A value
    /// found is the one stored with `key` in a leaf page; in a well-formed
    /// tree, the answer is the value the tree holds for `key`, if any.
    pub fn get<S: PageSource>(&self, source: &mut S, key: &[u8]) -> (r: Result<
        Option<Vec<u8>>,
        BTreeError,
    >)
        requires
            (*old(source)).valid(),
        ensures
            (*final(source)).valid(),
            (*final(source)).pages() == (*old(source)).pages(),
            (*final(source)).reads_succeed() == (*old(source)).reads_succeed(),
            (*final(source)).writable() == (*old(source)).writable(),
            (*final(source)).alloc_room() == (*old(source)).alloc_room(),
            (*final(source)).fresh_alloc() == (*old(source)).fresh_alloc(),
            (*old(source)).reads_succeed() && self.wf_in((*old(source)).pages()) && self.walkable(
                (*old(source)).pages(),
            ) ==> r is Ok,
            r matches Ok(Some(v)) ==> stored_in_leaf((*old(source)).pages(), key@, v@),
            self.wf_in((*old(source)).pages()) ==> (r matches Ok(o) ==> opt_bytes(o) == byte_lookup(
                self.entries_in((*old(source)).pages()),
                key@,
            )),
    {
        let ghost pages = source.pages();
        let ghost premise = self.wf_in(pages);
        let ghost ok = source.reads_succeed() && premise && self.walkable(pages);
        let leaf = match find_leaf(source, self.root_page_id, key, true, Ghost(self@.height)) {
            Ok(p) => p,
            Err(e) => return Err(e),
        };
        let ghost ls = ptree_leaves(pages, self@.root_page_id, self@.height);
        let ghost es = self.entries_in(pages);
        let ghost j = route_leaf(pages, self@.root_page_id, key@, self@.height).1;
        proof {
            if premise {
                lemma_route_leaf(pages, self@.root_page_id, None, None, self@.height, None, key@);
                lemma_ptree_leaves(pages, self@.root_page_id, None, None, self@.height, None);
                lemma_ptree_sorted(pages, self@.root_page_id, None, None, self@.height, None);
                let a = leaves_entries(pages, ls.subrange(0, j));
                let c = leaf_entries_at(pages, leaf);
                let b = leaves_entries(pages, ls.subrange(j + 1, ls.len() as int));
                lemma_byte_middle(a, c, b, key@, Seq::empty());
            }
        }
        let mut cur = leaf;
        let ghost mut t: int = j;
        let mut steps: u64 = 0;
        loop
            invariant
                source.valid(),
                source.pages() == pages,
                pages == (*old(source)).pages(),
                steps <= MAX_STEPS,
                premise == self.wf_in(pages),
                es == self.entries_in(pages),
                source.reads_succeed() == (*old(source)).reads_succeed(),
                source.writable() == (*old(source)).writable(),
                source.alloc_room() == (*old(source)).alloc_room(),
                source.fresh_alloc() == (*old(source)).fresh_alloc(),
                ls == ptree_leaves(pages, self@.root_page_id, self@.height),
                ok == ((*old(source)).reads_succeed() && premise && self.walkable(pages)),
                ok ==> steps == t - j,
                premise ==> {
                    &&& 0 <= j <= t < ls.len()
                    &&& ls[t] == cur
                    &&& chained(pages, ls, None)
                    &&& leaves_entries(pages, ls) == es
                    &&& byte_entries_sorted(es)
                    &&& byte_entries_sorted(leaf_entries_at(pages, ls[j]))
                    &&& byte_lookup(es, key@) == byte_lookup(leaf_entries_at(pages, ls[j]), key@)
                    &&& t > j ==> byte_lookup(es, key@) is None
                },
            decreases MAX_STEPS - steps,
        {
            if steps == MAX_STEPS {
                return Err(BTreeError::InvalidNodeKind(0));
            }
            steps = steps + 1;
            match load_node(source, cur) {
                Err(e) => return Err(e),
                Ok(DecodedNode::Leaf { keys, values, next_leaf }) => {
                    let idx = lower_bound_keys(&keys, key);
                    let ghost c = leaf_entries(vecs_view(keys@), vecs_view(values@));
                    proof {
                        if premise {
                            assert(node_at(pages, cur) == NodeView::Leaf {
                                keys: vecs_view(keys@),
                                values: vecs_view(values@),
                                next_leaf,
                            });
                            assert(leaf_entries_at(pages, cur) == c);
                        }
                    }
                    if idx < keys.len() && bytes_eq(keys[idx].as_slice(), key) {
                        let v = copy_bytes(&values[idx]);
                        assert(leaf_entry(pages, cur, idx as int, key@, v@));
                        proof {
                            if premise {
                                lemma_leaf_offset(pages, ls, t, idx as int);
                                lemma_byte_lookup_at(
                                    es,
                                    leaves_entries(pages, ls.subrange(0, t)).len() + idx,
                                    key@,
                                );
                            }
                        }
                        return Ok(Some(v));
                    }
                    proof {
                        if premise && t == j {
                            assert(is_byte_split_point(c, key@, idx as int)) by {
                                assert forall|q: int| idx <= q < c.len() implies !lex_lt(#[trigger] c[q].0, key@) by {
                                    if q > idx {
                                        assert(lex_lt(c[idx as int].0, c[q].0));
                                        lemma_lex_steps(key@, c[idx as int].0, c[q].0);
                                        lemma_lex_order(key@, c[q].0, key@);
                                    }
                                }
                            }
                            lemma_byte_split_unique(c, key@, idx as int);
                        }
                    }
                    if idx >= keys.len() {
                        match next_leaf {
                            Some(n) => {
                                proof {
                                    if premise {
                                        assert(t + 1 < ls.len());
                                        t = t + 1;
                                    }
                                }
                                cur = n;
                            },
                            None => return Ok(None),
                        }
                    } else {
                        return Ok(None);
                    }
                },
                Ok(DecodedNode::Internal { .. }) => return Err(BTreeError::InvalidNodeKind(0)),
            }
        }
    }

    /// Inserts `key` with `value`; an existing key gets the new value (the
    /// count grows either way). A root that splits is replaced by a new
    /// internal root over the two halves, and the height grows by one. In a
    /// well-formed tree whose store allocates fresh pages, the tree stays
    /// well formed and holds its entries with `(key, value)` stored.
    pub fn insert<S: PageSource>(&mut self, source: &mut S, key: Vec<u8>, value: Vec<u8>) -> (r:
        Result<(), BTreeError>)
        requires
            (*old(source)).valid(),
            old(self)@.len < usize::MAX,
            old(self)@.height < usize::MAX,
        ensures
            (*final(source)).valid(),
            (*old(source)).fresh_alloc() ==> (*final(source)).fresh_alloc(),
            (*final(source)).reads_succeed() == (*old(source)).reads_succeed(),
            (*final(source)).writable() == (*old(source)).writable(),
            (*old(source)).reads_succeed() && (*old(source)).writable() && (*old(source)).fresh_alloc()
                && (*old(source)).alloc_room() > old(self)@.height && old(self).wf_in((*old(source)).pages())
                && old(self).small_in((*old(source)).pages()) && old(self)@.height <= MAX_STEPS
                && key@.len() <= ENTRY_MAX && value@.len() <= ENTRY_MAX ==> r is Ok
                && (*final(source)).alloc_room() + old(self)@.height + 1 >= (*old(source)).alloc_room(),
            r is Err ==> final(self)@ == old(self)@,
            r is Ok ==> final(self)@.len == old(self)@.len + 1,
            r is Ok ==> final(self)@.height == old(self)@.height || final(self)@.height == old(
                self,
            )@.height + 1,
            r is Ok && final(self)@.height == old(self)@.height ==> final(self)@.root_page_id == old(
                self,
            )@.root_page_id,
            old(self).wf_in((*old(source)).pages()) && (*old(source)).fresh_alloc() && r is Ok
                && final(self)@.height == old(self)@.height + 1 ==> final(self)@.root_page_id != old(
                self,
            )@.root_page_id && !(*old(source)).pages().contains_key(final(self)@.root_page_id)
                && (*final(source)).pages().contains_key(final(self)@.root_page_id),
            old(self).wf_in((*old(source)).pages()) && (*old(source)).fresh_alloc() ==> (r is Ok
                ==> final(self).wf_in((*final(source)).pages()) && final(self).entries_in(
                (*final(source)).pages(),
            ) == byte_put(old(self).entries_in((*old(source)).pages()), key@, value@) && confined(
                (*old(source)).pages(),
                (*final(source)).pages(),
                old(self).pages_in((*old(source)).pages()),
                final(self).pages_in((*final(source)).pages()),
            )),
    {
        let ghost p0 = source.pages();
        let ghost k = key@;
        let ghost v = value@;
        let ghost d = self@.height;
        let ghost premise = self.wf_in(p0) && source.fresh_alloc();
        let ghost sure = source.reads_succeed() && source.writable() && source.fresh_alloc()
            && source.alloc_room() > d && self.wf_in(p0) && self.small_in(p0) && d <= MAX_STEPS
            && k.len() <= ENTRY_MAX && v.len() <= ENTRY_MAX;
        let ghost room0 = source.alloc_room();
        proof {
            if sure {
                assert(insert_sure(*source, self.root_page_id, k, v, MAX_STEPS, None, None, d, None));
            }
        }
        let split_opt = match self.insert_into(
            source,
            self.root_page_id,
            key,
            value,
            MAX_STEPS,
            Ghost(None),
            Ghost(None),
            Ghost(d),
            Ghost(None),
        ) {
            Ok(s) => s,
            Err(e) => return Err(e),
        };
        let ghost p1 = source.pages();
        if let Some(split) = split_opt {
            let ghost up = split.up_key@;
            let new_root_id = match source.allocate_page() {
                Ok(id) => id,
                Err(e) => return Err(BTreeError::Space(e)),
            };
            assert(premise ==> !p0.contains_key(new_root_id) && new_root_id != old(self)@.root_page_id) by {
                if premise {
                    assert(!p1.contains_key(new_root_id) && new_root_id != 0);
                    if p0.contains_key(new_root_id) {
                        assert(p1.contains_key(new_root_id));
                    }
                    lemma_node_shape(p0, old(self)@.root_page_id, None, None, d, None);
                }
            }
            let mut keys: Vec<Vec<u8>> = Vec::new();
            keys.push(split.up_key);
            let mut children: Vec<u32> = Vec::new();
            children.push(self.root_page_id);
            children.push(split.right_page_id);
            proof {
                if sure {
                    assert(vecs_view(keys@) =~= seq![up]);
                    assert(all_small(seq![up]));
                    lemma_small_internal_fits(vecs_view(keys@), children@);
                }
            }
            let new_root = match build_internal_page(new_root_id, &keys, &children) {
                Ok(p) => p,
                Err(e) => return Err(e),
            };
            match source.write_page(new_root_id, &new_root) {
                Ok(()) => {},
                Err(e) => return Err(BTreeError::Space(e)),
            }
            proof {
                if premise {
                    assert(vecs_view(keys@) =~= seq![up]);
                    assert(children@ =~= seq![old(self)@.root_page_id, split.right_page_id]);
                    lemma_insert_new_root(
                        p0,
                        p1,
                        source.pages(),
                        old(self)@.root_page_id,
                        d,
                        k,
                        v,
                        up,
                        split.right_page_id,
                        new_root_id,
                    );
                }
            }
            self.root_page_id = new_root_id;
            self.height = self.height + 1;
        }
        self.len = self.len + 1;
        Ok(())
    }

    /// Inserts into the subtree at `page_id`; a node that reaches `ORDER`
    /// keys splits and the split is returned for the parent. Below a
    /// well-formed subtree with keys in `[lo, hi)` holding `key`'s range, of
    /// height `d` and linked to `after`, the store allocating fresh pages,
    /// the outcome is described by `insert_post`.
    fn insert_into<S: PageSource>(
        &self,
        source: &mut S,
        page_id: u32,
        key: Vec<u8>,
        value: Vec<u8>,
        budget: u64,
        Ghost(lo): Ghost<Option<Seq<u8>>>,
        Ghost(hi): Ghost<Option<Seq<u8>>>,
        Ghost(d): Ghost<nat>,
        Ghost(after): Ghost<Option<u32>>,
    ) -> (r: Result<Option<Split>, BTreeError>)
        requires
            (*old(source)).valid(),
        ensures
            (*final(source)).valid(),
            (*old(source)).fresh_alloc() ==> (*final(source)).fresh_alloc(),
            (*old(source)).fresh_alloc() && ptree_wf((*old(source)).pages(), page_id, lo, hi, d, after)
                && byte_in_bounds(key@, lo, hi) ==> (r matches Ok(s) ==> insert_post(
                (*old(source)).pages(),
                (*final(source)).pages(),
                page_id,
                lo,
                hi,
                d,
                after,
                key@,
                value@,
                split_view(s),
            )),
            (*final(source)).reads_succeed() == (*old(source)).reads_succeed(),
            (*final(source)).writable() == (*old(source)).writable(),
            insert_sure(*old(source), page_id, key@, value@, budget, lo, hi, d, after) ==> r is Ok
                && (*final(source)).alloc_room() + d >= (*old(source)).alloc_room() && (r matches Ok(
                Some(sp),
            ) ==> sp.up_key@.len() <= ENTRY_MAX),
        decreases budget, 1nat,
    {
        let ghost sure = insert_sure(*source, page_id, key@, value@, budget, lo, hi, d, after);
        proof {
            if sure {
                lemma_node_shape(source.pages(), page_id, lo, hi, d, after);
            }
        }
        let node = match load_node(source, page_id) {
            Ok(n) => n,
            Err(e) => return Err(e),
        };
        match node {
            DecodedNode::Leaf { keys, values, next_leaf } => insert_leaf(
                source,
                page_id,
                keys,
                values,
                next_leaf,
                key,
                value,
                Ghost(lo),
                Ghost(hi),
                Ghost(d),
                Ghost(after),
            ),
            DecodedNode::Internal { keys, children } => self.insert_internal(
                source,
                page_id,
                keys,
                children,
                key,
                value,
                budget,
                Ghost(lo),
                Ghost(hi),
                Ghost(d),
                Ghost(after),
            ),
        }
    }

    /// Inserts below the internal node at `page_id`, whose separators and
    /// children are given: descends into the child whose range holds `key`,
    /// takes in a split of that child after it, and splits in turn when it
    /// reaches `ORDER` separators.
    #[verifier::rlimit(40)]
    #[verifier::spinoff_prover]
    fn insert_internal<S: PageSource>(
        &self,
        source: &mut S,
        page_id: u32,
        keys: Vec<Vec<u8>>,
        children: Vec<u32>,
        key: Vec<u8>,
        value: Vec<u8>,
        budget: u64,
        Ghost(lo): Ghost<Option<Seq<u8>>>,
        Ghost(hi): Ghost<Option<Seq<u8>>>,
        Ghost(d): Ghost<nat>,
        Ghost(after): Ghost<Option<u32>>,
    ) -> (r: Result<Option<Split>, BTreeError>)
        requires
            (*old(source)).valid(),
            (*old(source)).pages().contains_key(page_id),
            spec_decode((*old(source)).pages()[page_id].data) == Ok::<NodeView, BTreeError>(
                NodeView::Internal { keys: vecs_view(keys@), children: children@ },
            ),
        ensures
            (*final(source)).valid(),
            (*old(source)).fresh_alloc() ==> (*final(source)).fresh_alloc(),
            (*old(source)).fresh_alloc() && ptree_wf((*old(source)).pages(), page_id, lo, hi, d, after)
                && byte_in_bounds(key@, lo, hi) ==> (r matches Ok(s) ==> insert_post(
                (*old(source)).pages(),
                (*final(source)).pages(),
                page_id,
                lo,
                hi,
                d,
                after,
                key@,
                value@,
                split_view(s),
            )),
            (*final(source)).reads_succeed() == (*old(source)).reads_succeed(),
            (*final(source)).writable() == (*old(source)).writable(),
            insert_sure(*old(source), page_id, key@, value@, budget, lo, hi, d, after) ==> r is Ok
                && (*final(source)).alloc_room() + d >= (*old(source)).alloc_room() && (r matches Ok(
                Some(sp),
            ) ==> sp.up_key@.len() <= ENTRY_MAX),
        decreases budget, 0nat,
    {
        let mut keys = keys;
        let mut children = children;
        let ghost p0 = source.pages();
        let ghost k = key@;
        let ghost v = value@;
        let ghost ks0 = vecs_view(keys@);
        let ghost cs0 = children@;
        let ghost premise = source.fresh_alloc() && ptree_wf(p0, page_id, lo, hi, d, after)
            && byte_in_bounds(k, lo, hi);
        let ghost sure = insert_sure(*source, page_id, k, v, budget, lo, hi, d, after);
        let ghost room0 = source.alloc_room();
        proof {
            if sure {
                lemma_node_shape(p0, page_id, lo, hi, d, after);
                assert(all_small(ks0));
            }
        }
        let ci = child_index(&keys, key.as_slice(), true);
        if ci >= children.len() {
            return Err(
                BTreeError::ArityMismatch { keys: keys.len(), children: children.len(), values: 0 },
            );
        }
        if budget == 0 {
            return Err(BTreeError::InvalidNodeKind(0));
        }
        let ghost e = (d - 1) as nat;
        let ghost clo = child_lo(ks0, ci as int, lo);
        let ghost chi = child_hi(ks0, ci as int, hi);
        let ghost cafter = super::ptree::next_after(p0, cs0, ci as int, e, after);
        proof {
            if premise {
                lemma_node_shape(p0, page_id, lo, hi, d, after);
                lemma_route_child_unique(ks0, k, ci as int);
                lemma_route_child(ks0, k, lo, hi);
            }
        }
        let child_id = children[ci];
        proof {
            if sure {
                assert(ptree_small(p0, cs0[ci as int], e));
                assert(insert_sure(*source, child_id, k, v, (budget - 1) as u64, clo, chi, e, cafter));
            }
        }
        let split_opt = match self.insert_into(
            source,
            child_id,
            key,
            value,
            budget - 1,
            Ghost(clo),
            Ghost(chi),
            Ghost(e),
            Ghost(cafter),
        ) {
            Ok(s) => s,
            Err(e) => return Err(e),
        };
        let ghost p1 = source.pages();
        let split = match split_opt {
            None => {
                proof {
                    if premise {
                        lemma_insert_keep(p0, p1, page_id, lo, hi, d, after, ci as int, k, v);
                    }
                }
                return Ok(None);
            },
            Some(s) => s,
        };
        let ghost up = split.up_key@;
        let ghost right = split.right_page_id;
        keys.insert(ci, split.up_key);
        children.insert(ci + 1, split.right_page_id);
        let ghost ks2 = vecs_view(keys@);
        let ghost cs2 = children@;
        assert(ks2 =~= ks0.insert(ci as int, up));
        proof {
            if sure {
                lemma_small_insert(ks0, ci as int, up);
                assert(cs2.len() == ks2.len() + 1);
                assert(p1.contains_key(page_id));
            }
        }
        if keys.len() >= ORDER {
            let mid = keys.len() / 2;
            if mid + 1 > children.len() {
                return Err(
                    BTreeError::ArityMismatch {
                        keys: keys.len(),
                        children: children.len(),
                        values: 0,
                    },
                );
            }
            let up_key = keys.remove(mid);
            let right_keys = keys.split_off(mid);
            let right_children = children.split_off(mid + 1);
            assert(up_key@ == ks2[mid as int]);
            assert(vecs_view(keys@) =~= ks2.subrange(0, mid as int));
            assert(vecs_view(right_keys@) =~= ks2.subrange(mid + 1, ks2.len() as int));
            assert(children@ =~= cs2.subrange(0, mid + 1));
            assert(right_children@ =~= cs2.subrange(mid + 1, cs2.len() as int));
            proof {
                if sure {
                    lemma_small_subrange(ks2, 0, mid as int);
                    lemma_small_subrange(ks2, mid + 1, ks2.len() as int);
                    lemma_small_internal_fits(vecs_view(keys@), children@);
                    lemma_small_internal_fits(vecs_view(right_keys@), right_children@);
                    assert(ks2[mid as int].len() <= ENTRY_MAX);
                }
            }
            let right_id = match source.allocate_page() {
                Ok(id) => id,
                Err(e) => return Err(BTreeError::Space(e)),
            };
            let right_page = match build_internal_page(right_id, &right_keys, &right_children) {
                Ok(p) => p,
                Err(e) => return Err(e),
            };
            match source.write_page(right_id, &right_page) {
                Ok(()) => {},
                Err(e) => return Err(BTreeError::Space(e)),
            }
            let left_page = match build_internal_page(page_id, &keys, &children) {
                Ok(p) => p,
                Err(e) => return Err(e),
            };
            match source.write_page(page_id, &left_page) {
                Ok(()) => {},
                Err(e) => return Err(BTreeError::Space(e)),
            }
            proof {
                if premise {
                    let p2 = source.pages();
                    assert forall|x: u32|
                        x != page_id && x != right_id && x != 0 && #[trigger] p1.contains_key(
                            x,
                        ) implies p2.contains_key(x) && p2[x] == p1[x] by {}
                    lemma_insert_split(
                        p0,
                        p1,
                        p2,
                        page_id,
                        lo,
                        hi,
                        d,
                        after,
                        ci as int,
                        k,
                        v,
                        up,
                        right,
                        mid as int,
                        right_id,
                    );
                }
            }
            return Ok(Some(Split { up_key, right_page_id: right_id }));
        }
        proof {
            if sure {
                lemma_small_internal_fits(ks2, cs2);
            }
        }
        let new_page = match build_internal_page(page_id, &keys, &children) {
            Ok(p) => p,
            Err(e) => return Err(e),
        };
        match source.write_page(page_id, &new_page) {
            Ok(()) => {},
            Err(e) => return Err(BTreeError::Space(e)),
        }
        proof {
            if premise {
                lemma_insert_absorb(p0, p1, source.pages(), page_id, lo, hi, d, after, ci as int, k, v, up, right);
            }
        }
        Ok(None)
    }

    /// Entries with `start <= key < end`, in leaf-chain order: from the leaf
    /// that may hold `start`, up to the first key not below `end`. Every
    /// entry returned sorts below `end` and is stored in a leaf page; in a
    /// well-formed tree they are exactly the tree's entries in that range,
    /// in key order.
    #[verifier::rlimit(40)]
    #[verifier::spinoff_prover]
    pub fn scan_range<S: PageSource>(&self, source: &mut S, start: &[u8], end: &[u8]) -> (r:
        Result<Vec<KvPair>, BTreeError>)
        requires
            (*old(source)).valid(),
        ensures
            (*final(source)).valid(),
            (*final(source)).pages() == (*old(source)).pages(),
            (*final(source)).fresh_alloc() == (*old(source)).fresh_alloc(),
            (*final(source)).reads_succeed() == (*old(source)).reads_succeed(),
            (*final(source)).writable() == (*old(source)).writable(),
            (*final(source)).alloc_room() == (*old(source)).alloc_room(),
            (*old(source)).reads_succeed() && self.wf_in((*old(source)).pages()) && self.walkable(
                (*old(source)).pages(),
            ) ==> r is Ok,
            r matches Ok(out) ==> forall|i: int|
                0 <= i < out@.len() ==> lex_lt(#[trigger] out@[i].0@, end@) && stored_in_leaf(
                    (*old(source)).pages(),
                    out@[i].0@,
                    out@[i].1@,
                ),
            self.wf_in((*old(source)).pages()) ==> (r matches Ok(out) ==> kv_entries(out@)
                == byte_range(self.entries_in((*old(source)).pages()), start@, end@)),
    {
        let leaf = match find_leaf(source, self.root_page_id, start, false, Ghost(self@.height)) {
            Ok(p) => p,
            Err(e) => return Err(e),
        };
        let ghost pages = source.pages();
        let ghost premise = self.wf_in(pages);
        let ghost ok = (*old(source)).reads_succeed() && premise && self.walkable(pages);
        let ghost ls = ptree_leaves(pages, self@.root_page_id, self@.height);
        let ghost es = self.entries_in(pages);
        let ghost j0 = route_leaf_left(pages, self@.root_page_id, start@, self@.height).1;
        let mut out: Vec<KvPair> = Vec::new();
        proof {
            if premise {
                lemma_route_leaf_left(pages, self@.root_page_id, None, None, self@.height, None, start@);
                lemma_ptree_leaves(pages, self@.root_page_id, None, None, self@.height, None);
                lemma_ptree_sorted(pages, self@.root_page_id, None, None, self@.height, None);
                lemma_range_none(leaves_entries(pages, ls.subrange(0, j0)), start@, end@);
                assert(kv_entries(out@) =~= Seq::<ByteEntry>::empty());
            }
        }
        let mut cur = Some(leaf);
        let ghost mut t: int = j0;
        let mut steps: u64 = 0;
        while cur.is_some()
            invariant
                source.valid(),
                source.pages() == pages,
                source.fresh_alloc() == (*old(source)).fresh_alloc(),
                pages == (*old(source)).pages(),
                steps <= MAX_STEPS,
                forall|i: int|
                    0 <= i < out@.len() ==> lex_lt(#[trigger] out@[i].0@, end@) && stored_in_leaf(
                        pages,
                        out@[i].0@,
                        out@[i].1@,
                    ),
                premise == self.wf_in(pages),
                es == self.entries_in(pages),
                source.reads_succeed() == (*old(source)).reads_succeed(),
                source.writable() == (*old(source)).writable(),
                source.alloc_room() == (*old(source)).alloc_room(),
                ls == ptree_leaves(pages, self@.root_page_id, self@.height),
                ok == ((*old(source)).reads_succeed() && premise && self.walkable(pages)),
                ok ==> 0 <= j0 && steps == t - j0,
                premise ==> {
                    &&& 0 <= t <= ls.len()
                    &&& chained(pages, ls, None)
                    &&& leaves_entries(pages, ls) == es
                    &&& byte_entries_sorted(es)
                    &&& (cur matches Some(c) ==> t < ls.len() && ls[t] == c)
                    &&& (cur is None ==> t == ls.len())
                    &&& kv_entries(out@) == byte_range(leaves_entries(pages, ls.subrange(0, t)), start@, end@)
                },
            decreases MAX_STEPS - steps,
        {
            if steps == MAX_STEPS {
                return Err(BTreeError::InvalidNodeKind(0));
            }
            steps = steps + 1;
            let pid = match cur {
                Some(p) => p,
                None => 0,
            };
            match load_node(source, pid) {
                Err(e) => return Err(e),
                Ok(DecodedNode::Leaf { keys, values, next_leaf }) => {
                    let ghost c = leaf_entries(vecs_view(keys@), vecs_view(values@));
                    let ghost pe = leaves_entries(pages, ls.subrange(0, t));
                    proof {
                        if premise {
                            assert(node_at(pages, pid) == NodeView::Leaf {
                                keys: vecs_view(keys@),
                                values: vecs_view(values@),
                                next_leaf,
                            });
                            assert(leaf_entries_at(pages, ls[t]) == c);
                            assert forall|a: int, b: int| 0 <= a < b < c.len() implies lex_lt(
                                #[trigger] c[a].0,
                                #[trigger] c[b].0,
                            ) by {
                                lemma_leaf_offset(pages, ls, t, a);
                                lemma_leaf_offset(pages, ls, t, b);
                            }
                        }
                    }
                    let idx = lower_bound_keys(&keys, start);
                    proof {
                        if premise {
                            assert forall|q: int| 0 <= q < c.subrange(0, idx as int).len() implies !byte_in_bounds(
                                #[trigger] c.subrange(0, idx as int)[q].0,
                                Some(start@),
                                Some(end@),
                            ) by {
                                assert(c.subrange(0, idx as int)[q].0 == keys@[q]@);
                            }
                            lemma_range_none(c.subrange(0, idx as int), start@, end@);
                            lemma_range_add(pe, c.subrange(0, idx as int), start@, end@);
                            assert(byte_range(pe, start@, end@) + Seq::<ByteEntry>::empty() =~= byte_range(
                                pe,
                                start@,
                                end@,
                            ));
                        }
                    }
                    let mut i = idx;
                    while i < keys.len()
                        invariant
                            source.valid(),
                            source.pages() == pages,
                            source.fresh_alloc() == (*old(source)).fresh_alloc(),
                            pages == (*old(source)).pages(),
                            idx <= i <= keys@.len(),
                            keys@.len() == values@.len(),
                            pages.contains_key(pid),
                            spec_decode(pages[pid].data) == Ok::<NodeView, BTreeError>(
                                NodeView::Leaf {
                                    keys: vecs_view(keys@),
                                    values: vecs_view(values@),
                                    next_leaf,
                                },
                            ),
                            c == leaf_entries(vecs_view(keys@), vecs_view(values@)),
                            idx < keys@.len() ==> !lex_lt(keys@[idx as int]@, start@),
                            forall|j: int|
                                0 <= j < out@.len() ==> lex_lt(#[trigger] out@[j].0@, end@)
                                    && stored_in_leaf(pages, out@[j].0@, out@[j].1@),
                            premise == self.wf_in(pages),
                            es == self.entries_in(pages),
                            source.reads_succeed() == (*old(source)).reads_succeed(),
                            source.writable() == (*old(source)).writable(),
                            source.alloc_room() == (*old(source)).alloc_room(),
                            ls == ptree_leaves(pages, self@.root_page_id, self@.height),
                            ok == ((*old(source)).reads_succeed() && premise && self.walkable(pages)),
                            ok ==> 0 <= j0 && steps == t - j0 + 1,
                            premise ==> {
                                &&& 0 <= t < ls.len()
                                &&& ls[t] == pid
                                &&& chained(pages, ls, None)
                                &&& leaves_entries(pages, ls) == es
                                &&& byte_entries_sorted(es)
                                &&& leaf_entries_at(pages, ls[t]) == c
                                &&& pe == leaves_entries(pages, ls.subrange(0, t))
                                &&& (forall|a: int, b: int|
                                    0 <= a < b < c.len() ==> lex_lt(#[trigger] c[a].0, #[trigger] c[b].0))
                                &&& kv_entries(out@) == byte_range(pe + c.subrange(0, i as int), start@, end@)
                            },
                        decreases keys@.len() - i,
                    {
                        if !bytes_lt(keys[i].as_slice(), end) {
                            proof {
                                if premise {
                                    let m = pe.len() + i;
                                    lemma_leaf_offset(pages, ls, t, i as int);
                                    let tail = es.subrange(m, es.len() as int);
                                    assert forall|q: int| 0 <= q < tail.len() implies !byte_in_bounds(
                                        #[trigger] tail[q].0,
                                        Some(start@),
                                        Some(end@),
                                    ) by {
                                        assert(tail[q] == es[m + q]);
                                        if q > 0 {
                                            assert(lex_lt(es[m].0, es[m + q].0));
                                            lemma_lex_steps(end@, es[m].0, es[m + q].0);
                                            lemma_lex_order(end@, es[m + q].0, end@);
                                        }
                                    }
                                    lemma_range_none(tail, start@, end@);
                                    let post = ls.subrange(t + 1, ls.len() as int);
                                    assert(ls =~= ls.subrange(0, t) + seq![ls[t]] + post);
                                    lemma_leaves_entries_add(pages, ls.subrange(0, t) + seq![ls[t]], post);
                                    lemma_leaves_entries_add(pages, ls.subrange(0, t), seq![ls[t]]);
                                    assert(seq![ls[t]].drop_last() =~= Seq::<u32>::empty());
                                    assert(leaves_entries(pages, Seq::<u32>::empty()) == Seq::<ByteEntry>::empty());
                                    assert(leaves_entries(pages, seq![ls[t]]) =~= c);
                                    assert(es.subrange(0, m) =~= pe + c.subrange(0, i as int));
                                    assert(es =~= es.subrange(0, m) + tail);
                                    lemma_range_add(es.subrange(0, m), tail, start@, end@);
                                    assert(byte_range(es.subrange(0, m), start@, end@)
                                        + Seq::<ByteEntry>::empty() =~= byte_range(
                                        es.subrange(0, m),
                                        start@,
                                        end@,
                                    ));
                                }
                            }
                            return Ok(out);
                        }
                        let k = copy_bytes(&keys[i]);
                        let v = copy_bytes(&values[i]);
                        assert(leaf_entry(pages, pid, i as int, k@, v@));
                        let ghost prev = out@;
                        out.push((k, v));
                        proof {
                            if premise {
                                let ci = c[i as int];
                                assert(ci == (k@, v@));
                                if i > idx {
                                    assert(lex_lt(c[idx as int].0, c[i as int].0));
                                    lemma_lex_steps(start@, c[idx as int].0, c[i as int].0);
                                    lemma_lex_order(start@, c[i as int].0, start@);
                                }
                                assert(byte_in_bounds(ci.0, Some(start@), Some(end@)));
                                let before = pe + c.subrange(0, i as int);
                                assert(pe + c.subrange(0, i + 1) =~= before + seq![ci]);
                                lemma_range_add(before, seq![ci], start@, end@);
                                lemma_range_one(ci, start@, end@);
                                assert(kv_entries(out@) =~= kv_entries(prev).push(ci));
                                assert(kv_entries(out@) =~= kv_entries(prev) + seq![ci]);
                            }
                        }
                        i = i + 1;
                    }
                    proof {
                        if premise {
                            assert(ls.subrange(0, t + 1).drop_last() =~= ls.subrange(0, t));
                            assert(c.subrange(0, c.len() as int) =~= c);
                            assert(leaves_entries(pages, ls.subrange(0, t + 1)) == pe + c);
                            if t + 1 < ls.len() {
                                assert(node_at(pages, ls[t])->Leaf_next_leaf == Some(ls[t + 1]));
                            } else {
                                assert(ls.last() == ls[t]);
                            }
                            t = t + 1;
                        }
                    }
                    cur = next_leaf;
                },
                Ok(DecodedNode::Internal { .. }) => return Err(BTreeError::InvalidNodeKind(0)),
            }
        }
        proof {
            if premise {
                assert(ls.subrange(0, ls.len() as int) =~= ls);
            }
        }
        Ok(out)
    }

    /// Deletes `key`: finds its leaf as `get` does and removes the entry from
    /// that leaf page (nodes are not merged). Returns whether an entry was
    /// removed. In a well-formed tree, one was exactly when the tree held
    /// `key`, and the tree stays well formed, holding its entries less `key`.
    pub fn delete<S: PageSource>(&mut self, source: &mut S, key: &[u8]) -> (r: Result<
        bool,
        BTreeError,
    >)
        requires
            (*old(source)).valid(),
        ensures
            (*final(source)).valid(),
            (*final(source)).fresh_alloc() == (*old(source)).fresh_alloc(),
            (*final(source)).reads_succeed() == (*old(source)).reads_succeed(),
            (*final(source)).writable() == (*old(source)).writable(),
            (*final(source)).alloc_room() == (*old(source)).alloc_room(),
            (*old(source)).reads_succeed() && (*old(source)).writable() && old(self).wf_in(
                (*old(source)).pages(),
            ) && old(self).walkable((*old(source)).pages()) ==> r is Ok,
            r is Err ==> final(self)@ == old(self)@,
            r == Ok::<bool, BTreeError>(false) ==> final(self)@ == old(self)@
                && (*final(source)).pages() == (*old(source)).pages(),
            r == Ok::<bool, BTreeError>(true) ==> {
                &&& final(self)@.root_page_id == old(self)@.root_page_id
                &&& final(self)@.height == old(self)@.height
                &&& final(self)@.len == if old(self)@.len > 0 {
                    (old(self)@.len - 1) as nat
                } else {
                    0
                }
                &&& exists|pid: u32, i: int|
                    #[trigger] removed_from_leaf(
                        (*old(source)).pages(),
                        (*final(source)).pages(),
                        pid,
                        i,
                        key@,
                    )
            },
            old(self).wf_in((*old(source)).pages()) ==> (r matches Ok(b) ==> {
                &&& b == (byte_lookup(old(self).entries_in((*old(source)).pages()), key@) is Some)
                &&& final(self).wf_in((*final(source)).pages())
                &&& final(self).entries_in((*final(source)).pages()) == byte_remove(
                    old(self).entries_in((*old(source)).pages()),
                    key@,
                )
            }),
    {
        let ghost pages = source.pages();
        let ghost premise = self.wf_in(pages);
        let ghost ok = source.reads_succeed() && source.writable() && premise && self.walkable(pages);
        let leaf = match find_leaf(source, self.root_page_id, key, true, Ghost(self@.height)) {
            Ok(p) => p,
            Err(e) => return Err(e),
        };
        let ghost ls = ptree_leaves(pages, self@.root_page_id, self@.height);
        let ghost es = self.entries_in(pages);
        let ghost j = route_leaf(pages, self@.root_page_id, key@, self@.height).1;
        proof {
            if premise {
                lemma_route_leaf(pages, self@.root_page_id, None, None, self@.height, None, key@);
                lemma_ptree_leaves(pages, self@.root_page_id, None, None, self@.height, None);
                lemma_ptree_sorted(pages, self@.root_page_id, None, None, self@.height, None);
                let a = leaves_entries(pages, ls.subrange(0, j));
                let c = leaf_entries_at(pages, leaf);
                let b = leaves_entries(pages, ls.subrange(j + 1, ls.len() as int));
                lemma_byte_middle(a, c, b, key@, Seq::empty());
            }
        }
        let mut cur = leaf;
        let ghost mut t: int = j;
        let mut steps: u64 = 0;
        loop
            invariant
                source.valid(),
                source.pages() == pages,
                source.fresh_alloc() == (*old(source)).fresh_alloc(),
                pages == (*old(source)).pages(),
                self@ == old(self)@,
                steps <= MAX_STEPS,
                premise == self.wf_in(pages),
                es == self.entries_in(pages),
                source.reads_succeed() == (*old(source)).reads_succeed(),
                source.writable() == (*old(source)).writable(),
                source.alloc_room() == (*old(source)).alloc_room(),
                ls == ptree_leaves(pages, self@.root_page_id, self@.height),
                ok == ((*old(source)).reads_succeed() && (*old(source)).writable() && premise
                    && self.walkable(pages)),
                ok ==> steps == t - j,
                premise ==> {
                    &&& 0 <= j <= t < ls.len()
                    &&& ls[t] == cur
                    &&& ls[j] == route_leaf(pages, self@.root_page_id, key@, self@.height).0
                    &&& chained(pages, ls, None)
                    &&& leaves_entries(pages, ls) == es
                    &&& byte_entries_sorted(es)
                    &&& byte_entries_sorted(leaf_entries_at(pages, ls[j]))
                    &&& byte_lookup(es, key@) == byte_lookup(leaf_entries_at(pages, ls[j]), key@)
                    &&& t > j ==> byte_lookup(es, key@) is None
                },
            decreases MAX_STEPS - steps,
        {
            if steps == MAX_STEPS {
                return Err(BTreeError::InvalidNodeKind(0));
            }
            steps = steps + 1;
            match load_node(source, cur) {
                Err(e) => return Err(e),
                Ok(DecodedNode::Leaf { mut keys, mut values, next_leaf }) => {
                    let idx = lower_bound_keys(&keys, key);
                    let ghost old_keys = vecs_view(keys@);
                    let ghost old_values = vecs_view(values@);
                    let ghost c = leaf_entries(old_keys, old_values);
                    proof {
                        if premise {
                            assert(node_at(pages, cur) == NodeView::Leaf {
                                keys: old_keys,
                                values: old_values,
                                next_leaf,
                            });
                            assert(leaf_entries_at(pages, cur) == c);
                        }
                    }
                    if idx < keys.len() && bytes_eq(keys[idx].as_slice(), key) {
                        proof {
                            if premise {
                                lemma_leaf_offset(pages, ls, t, idx as int);
                                lemma_byte_lookup_at(
                                    es,
                                    leaves_entries(pages, ls.subrange(0, t)).len() + idx,
                                    key@,
                                );
                                assert(t == j);
                            }
                        }
                        proof {
                            lemma_decoded_leaf_size(pages[cur].data);
                            lemma_lp_size_remove(old_keys, idx as int);
                            lemma_lp_size_remove(old_values, idx as int);
                        }
                        keys.remove(idx);
                        values.remove(idx);
                        proof {
                            assert(vecs_view(keys@) =~= old_keys.remove(idx as int));
                            assert(vecs_view(values@) =~= old_values.remove(idx as int));
                        }
                        let new_page = match build_leaf_page(cur, &keys, &values, next_leaf) {
                            Ok(p) => p,
                            Err(e) => return Err(e),
                        };
                        match source.write_page(cur, &new_page) {
                            Ok(()) => {},
                            Err(e) => return Err(BTreeError::Space(e)),
                        }
                        if self.len > 0 {
                            self.len = self.len - 1;
                        }
                        proof {
                            assert(vecs_view(keys@) =~= old_keys.remove(idx as int));
                            assert(vecs_view(values@) =~= old_values.remove(idx as int));
                            assert(source.pages().dom() =~= pages.dom());
                            assert(removed_from_leaf(pages, source.pages(), cur, idx as int, key@));
                            if premise {
                                lemma_remove_at(
                                    pages,
                                    source.pages(),
                                    self@.root_page_id,
                                    None,
                                    None,
                                    self@.height,
                                    None,
                                    key@,
                                    idx as int,
                                );
                            }
                        }
                        return Ok(true);
                    }
                    proof {
                        if premise && t == j {
                            assert(is_byte_split_point(c, key@, idx as int)) by {
                                assert forall|q: int| idx <= q < c.len() implies !lex_lt(#[trigger] c[q].0, key@) by {
                                    if q > idx {
                                        assert(lex_lt(c[idx as int].0, c[q].0));
                                        lemma_lex_steps(key@, c[idx as int].0, c[q].0);
                                        lemma_lex_order(key@, c[q].0, key@);
                                    }
                                }
                            }
                            lemma_byte_split_unique(c, key@, idx as int);
                        }
                    }
                    if idx >= keys.len() {
                        match next_leaf {
                            Some(n) => {
                                proof {
                                    if premise {
                                        assert(t + 1 < ls.len());
                                        t = t + 1;
                                    }
                                }
                                cur = n;
                            },
                            None => return Ok(false),
                        }
                    } else {
                        return Ok(false);
                    }
                },
                Ok(DecodedNode::Internal { .. }) => return Err(BTreeError::InvalidNodeKind(0)),
            }
        }
    }

    /// Ids of all node pages of the tree (root, internal nodes, leaves), each
    /// once, the root first: a walk from the root along child and leaf
    /// links. In a well-formed tree they are exactly the pages it uses.
    pub fn all_node_page_ids<S: PageSource>(&self, source: &mut S) -> (r: Result<
        Vec<u32>,
        BTreeError,
    >)
        requires
            (*old(source)).valid(),
        ensures
            (*final(source)).valid(),
            (*final(source)).pages() == (*old(source)).pages(),
            (*final(source)).reads_succeed() == (*old(source)).reads_succeed(),
            (*final(source)).writable() == (*old(source)).writable(),
            (*final(source)).alloc_room() == (*old(source)).alloc_room(),
            (*final(source)).fresh_alloc() == (*old(source)).fresh_alloc(),
            (*old(source)).reads_succeed() && self.wf_in((*old(source)).pages()) && self.pages_in(
                (*old(source)).pages(),
            ).len() <= MAX_STEPS ==> r is Ok,
            r matches Ok(ids) ==> {
                &&& ids@.no_duplicates()
                &&& ids@.len() >= 1
                &&& ids@[0] == self@.root_page_id
                &&& forall|i: int|
                    0 <= i < ids@.len() ==> (*old(source)).pages().contains_key(#[trigger] ids@[i])
            },
            self.wf_in((*old(source)).pages()) ==> (r matches Ok(ids) ==> forall|x: u32|
                #[trigger] self.pages_in((*old(source)).pages()).contains(x) <==> ids@.contains(x)),
    {
        let ghost pages = source.pages();
        let ghost premise = self.wf_in(pages);
        let ghost tp = self.pages_in(pages);
        let ghost ok = (*old(source)).reads_succeed() && premise && tp.len() <= MAX_STEPS;
        proof {
            super::pedit::lemma_ptree_pages_finite(pages, self@.root_page_id, self@.height);
            if premise {
                super::pedit::lemma_ptree_pages_in(pages, self@.root_page_id, None, None, self@.height, None);
            }
        }
        let mut out: Vec<u32> = Vec::new();
        let mut stack: Vec<u32> = Vec::new();
        stack.push(self.root_page_id);
        proof {
            if premise {
                lemma_ptree_sorted(pages, self@.root_page_id, None, None, self@.height, None);
                assert(stack@[0] == self@.root_page_id);
            }
        }
        let mut budget: u64 = MAX_STEPS;
        while stack.len() > 0
            invariant
                source.valid(),
                source.pages() == pages,
                pages == (*old(source)).pages(),
                out@.no_duplicates(),
                out@.len() == 0 ==> stack@ == seq![self@.root_page_id],
                out@.len() > 0 ==> out@[0] == self@.root_page_id,
                forall|i: int| 0 <= i < out@.len() ==> pages.contains_key(#[trigger] out@[i]),
                premise == self.wf_in(pages),
                tp == self.pages_in(pages),
                tp.finite(),
                source.reads_succeed() == (*old(source)).reads_succeed(),
                source.writable() == (*old(source)).writable(),
                source.alloc_room() == (*old(source)).alloc_room(),
                source.fresh_alloc() == (*old(source)).fresh_alloc(),
                ok == ((*old(source)).reads_succeed() && premise && tp.len() <= MAX_STEPS),
                ok ==> budget + out@.len() == MAX_STEPS,
                premise ==> forall|x: u32| #[trigger] tp.contains(x) ==> super::ptree::decodes(pages, x),
                premise ==> {
                    &&& forall|i: int| 0 <= i < out@.len() ==> tp.contains(#[trigger] out@[i])
                    &&& forall|i: int| 0 <= i < stack@.len() ==> tp.contains(#[trigger] stack@[i])
                    &&& out@.contains(self@.root_page_id) || stack@.contains(self@.root_page_id)
                    &&& forall|x: u32, c: u32|
                        #[trigger] out@.contains(x) && node_at(pages, x) is Internal
                            && #[trigger] node_at(pages, x)->Internal_children.contains(c) ==> out@.contains(c)
                            || stack@.contains(c)
                },
            decreases budget, stack@.len(),
        {
            let ghost stack0 = stack@;
            let pid = match stack.pop() {
                Some(p) => p,
                None => 0,
            };
            proof {
                assert(stack0 == stack@.push(pid));
                assert forall|y: u32| stack0.contains(y) && y != pid implies stack@.contains(y) by {
                    let k = choose|k: int| 0 <= k < stack0.len() && stack0[k] == y;
                    assert(stack@[k] == y);
                }
                if premise {
                    assert(tp.contains(stack0[stack0.len() - 1]));
                }
            }
            if contains_id(&out, pid) {
                proof {
                    if premise {
                        assert forall|i: int| 0 <= i < stack@.len() implies tp.contains(#[trigger] stack@[i]) by {
                            assert(stack@[i] == stack0[i]);
                        }
                        assert forall|x: u32, c: u32|
                            #[trigger] out@.contains(x) && node_at(pages, x) is Internal
                                && #[trigger] node_at(pages, x)->Internal_children.contains(c) implies out@.contains(c)
                                || stack@.contains(c) by {
                            if c != pid && stack0.contains(c) {
                                assert(stack@.contains(c));
                            }
                        }
                        if self@.root_page_id != pid && stack0.contains(self@.root_page_id) {
                            assert(stack@.contains(self@.root_page_id));
                        }
                    }
                }
                continue;
            }
            proof {
                if ok {
                    out@.unique_seq_to_set();
                    assert(out@.to_set().subset_of(tp.remove(pid))) by {
                        assert forall|y: u32| out@.to_set().contains(y) implies tp.remove(pid).contains(y) by {
                            let k = choose|k: int| 0 <= k < out@.len() && out@[k] == y;
                        }
                    }
                    vstd::set_lib::lemma_len_subset(out@.to_set(), tp.remove(pid));
                }
            }
            if budget == 0 {
                return Err(BTreeError::InvalidNodeKind(0));
            }
            budget = budget - 1;
            let ghost stack1 = stack@;
            match load_node(source, pid) {
                Err(e) => return Err(e),
                Ok(DecodedNode::Internal { children, .. }) => {
                    proof {
                        if premise {
                            lemma_pages_closed(pages, self@.root_page_id, None, None, self@.height, None, pid);
                        }
                    }
                    let mut i: usize = 0;
                    while i < children.len()
                        invariant
                            i <= children@.len(),
                            stack@ == stack1 + children@.take(i as int),
                        decreases children@.len() - i,
                    {
                        stack.push(children[i]);
                        i = i + 1;
                        assert(stack@ =~= stack1 + children@.take(i as int));
                    }
                    assert(children@.take(children@.len() as int) =~= children@);
                    proof {
                        if premise {
                            assert(node_at(pages, pid)->Internal_children == children@);
                            assert forall|i: int| 0 <= i < stack@.len() implies tp.contains(#[trigger] stack@[i]) by {
                                if i < stack1.len() {
                                    assert(stack@[i] == stack1[i]);
                                    assert(stack1[i] == stack0[i]);
                                } else {
                                    assert(stack@[i] == children@[i - stack1.len()]);
                                    assert(children@.contains(children@[i - stack1.len()]));
                                }
                            }
                        }
                    }
                },
                Ok(DecodedNode::Leaf { next_leaf, .. }) => {
                    proof {
                        if premise {
                            lemma_pages_closed(pages, self@.root_page_id, None, None, self@.height, None, pid);
                        }
                    }
                    if let Some(n) = next_leaf {
                        stack.push(n);
                    }
                    proof {
                        if premise {
                            assert forall|i: int| 0 <= i < stack@.len() implies tp.contains(#[trigger] stack@[i]) by {
                                if i < stack1.len() {
                                    assert(stack@[i] == stack1[i]);
                                    assert(stack1[i] == stack0[i]);
                                }
                            }
                        }
                    }
                },
            }
            let ghost out0 = out@;
            out.push(pid);
            proof {
                assert(out@ == out0.push(pid));
                assert forall|y: u32| out0.contains(y) implies out@.contains(y) by {
                    let k = choose|k: int| 0 <= k < out0.len() && out0[k] == y;
                    assert(out@[k] == y);
                }
                assert(out@[out0.len() as int] == pid);
                assert forall|y: u32| stack1.contains(y) implies stack@.contains(y) by {
                    let k = choose|k: int| 0 <= k < stack1.len() && stack1[k] == y;
                    assert(stack@[k] == y);
                }
                if premise {
                    assert forall|i: int| 0 <= i < out@.len() implies tp.contains(#[trigger] out@[i]) by {
                        if i < out0.len() {
                            assert(out@[i] == out0[i]);
                        } else {
                            assert(stack0[stack0.len() - 1] == pid);
                        }
                    }
                    if self@.root_page_id != pid && stack0.contains(self@.root_page_id) {
                        assert(stack1.contains(self@.root_page_id));
                    }
                    if out0.contains(self@.root_page_id) {
                        assert(out@.contains(self@.root_page_id));
                    }
                    assert forall|x: u32, c: u32|
                        #[trigger] out@.contains(x) && node_at(pages, x) is Internal
                            && #[trigger] node_at(pages, x)->Internal_children.contains(c) implies out@.contains(c)
                            || stack@.contains(c) by {
                        if x == pid {
                            let k = choose|k: int|
                                0 <= k < node_at(pages, x)->Internal_children.len()
                                    && node_at(pages, x)->Internal_children[k] == c;
                            assert(stack@[stack1.len() + k] == c);
                        } else {
                            let k = choose|k: int| 0 <= k < out@.len() && out@[k] == x;
                            assert(out0[k] == x);
                            assert(out0.contains(x));
                            if c == pid {
                            } else if stack0.contains(c) {
                                assert(stack1.contains(c));
                            }
                        }
                    }
                }
            }
        }
        proof {
            if premise {
                lemma_closed_covers(pages, self@.root_page_id, None, None, self@.height, None, out@.to_set());
                assert forall|x: u32| #[trigger] tp.contains(x) implies out@.contains(x) by {
                    assert(out@.to_set().contains(x));
                }
                assert forall|x: u32| out@.contains(x) implies tp.contains(x) by {
                    let k = choose|k: int| 0 <= k < out@.len() && out@[k] == x;
                }
            }
        }
        if out.len() == 0 {
            return Err(BTreeError::InvalidNodeKind(0));
        }
        Ok(out)
    }
}

} // verus!
