//! Scans and walks over the persistent B+Tree model: the entries between
//! two keys, the leaf a scan starts from, and the pages a walk from the
//! root reaches.
use super::persist::NodeView;
use super::ptree::{
    byte_in_bounds, bytes_sorted, leaves_entries, lemma_leaves_entries_add, lemma_lex_steps,
    lemma_node_shape, lemma_ptree_leaves, lemma_ptree_run_leaves, lemma_ptree_run_sorted,
    lemma_run_leaves_add, lemma_run_leaves_one, lemma_run_pages_member, lemma_ptree_sorted,
    first_leaf, next_after, node_at, ptree_leaves, ptree_pages, ptree_run_entries,
    ptree_run_leaves, ptree_wf, ByteEntry,
};
use super::tree::{child_hi, child_lo};
use crate::page::key::{lemma_lex_order, lex_lt};
use crate::space::page_source::PageImage;
use vstd::prelude::*;

verus! {

/// Whether an entry's key lies in `[start, end)`.
pub open spec fn in_range(start: Seq<u8>, end: Seq<u8>) -> spec_fn(ByteEntry) -> bool {
    |e: ByteEntry| byte_in_bounds(e.0, Some(start), Some(end))
}

/// The entries of `es` whose keys lie in `[start, end)`, in order.
pub open spec fn byte_range(es: Seq<ByteEntry>, start: Seq<u8>, end: Seq<u8>) -> Seq<ByteEntry> {
    es.filter(in_range(start, end))
}

/// Ranges of concatenated entries concatenate.
pub proof fn lemma_range_add(a: Seq<ByteEntry>, b: Seq<ByteEntry>, start: Seq<u8>, end: Seq<u8>)
    ensures
        byte_range(a + b, start, end) == byte_range(a, start, end) + byte_range(b, start, end),
{
    Seq::filter_distributes_over_add(a, b, in_range(start, end));
}

/// The range of one entry: the entry if its key lies in range, else nothing.
pub proof fn lemma_range_one(e: ByteEntry, start: Seq<u8>, end: Seq<u8>)
    ensures
        byte_range(seq![e], start, end) == if byte_in_bounds(e.0, Some(start), Some(end)) {
            seq![e]
        } else {
            Seq::<ByteEntry>::empty()
        },
{
    reveal_with_fuel(Seq::filter, 2);
    assert(seq![e].drop_last() =~= Seq::<ByteEntry>::empty());
    assert(Seq::<ByteEntry>::empty().push(e) =~= seq![e]);
}

/// Entries none of whose keys lie in range have an empty range.
pub proof fn lemma_range_none(es: Seq<ByteEntry>, start: Seq<u8>, end: Seq<u8>)
    requires
        forall|i: int| 0 <= i < es.len() ==> !byte_in_bounds(#[trigger] es[i].0, Some(start), Some(end)),
    ensures
        byte_range(es, start, end) == Seq::<ByteEntry>::empty(),
    decreases es.len(),
{
    reveal(Seq::filter);
    if es.len() > 0 {
        let pre = es.drop_last();
        assert forall|i: int| 0 <= i < pre.len() implies !byte_in_bounds(#[trigger] pre[i].0, Some(start), Some(end)) by {
            assert(pre[i] == es[i]);
        }
        lemma_range_none(pre, start, end);
        assert(!byte_in_bounds(es[es.len() - 1].0, Some(start), Some(end)));
    }
}

/// `ci` is past the separators below `k` and before those not below it.
pub open spec fn is_lower_child(keys: Seq<Seq<u8>>, k: Seq<u8>, ci: int) -> bool {
    &&& 0 <= ci <= keys.len()
    &&& forall|j: int| 0 <= j < ci ==> lex_lt(#[trigger] keys[j], k)
    &&& forall|j: int| ci <= j < keys.len() ==> !lex_lt(#[trigger] keys[j], k)
}

/// The child a scan from `k` descends into below separators `keys`: past
/// the separators below `k` (a separator equal to `k` sends it left).
pub open spec fn lower_child(keys: Seq<Seq<u8>>, k: Seq<u8>) -> int {
    choose|ci: int| is_lower_child(keys, k, ci)
}

/// Ascending separators have a lower child for every key.
pub proof fn lemma_lower_child_exists(keys: Seq<Seq<u8>>, k: Seq<u8>)
    requires
        bytes_sorted(keys),
    ensures
        is_lower_child(keys, k, lower_child(keys, k)),
    decreases keys.len(),
{
    if keys.len() == 0 {
        assert(is_lower_child(keys, k, 0));
    } else {
        let pre = keys.drop_last();
        let last = keys.len() - 1;
        lemma_lower_child_exists(pre, k);
        let c = lower_child(pre, k);
        if c < last {
            assert(!lex_lt(pre[c], k));
            assert(lex_lt(keys[c], keys[last]));
            lemma_lex_steps(k, keys[c], keys[last]);
            lemma_lex_order(k, keys[last], k);
            assert(is_lower_child(keys, k, c)) by {
                assert forall|j: int| 0 <= j < c implies lex_lt(#[trigger] keys[j], k) by {
                    assert(pre[j] == keys[j]);
                }
                assert forall|j: int| c <= j < keys.len() implies !lex_lt(#[trigger] keys[j], k) by {
                    if j < last {
                        assert(pre[j] == keys[j]);
                    }
                }
            }
        } else if lex_lt(keys[last], k) {
            assert(is_lower_child(keys, k, keys.len() as int)) by {
                assert forall|j: int| 0 <= j < keys.len() implies lex_lt(#[trigger] keys[j], k) by {
                    if j < last {
                        assert(pre[j] == keys[j]);
                    }
                }
            }
        } else {
            assert(is_lower_child(keys, k, last)) by {
                assert forall|j: int| 0 <= j < last implies lex_lt(#[trigger] keys[j], k) by {
                    assert(pre[j] == keys[j]);
                }
            }
        }
    }
}

/// A lower child is the lower child.
pub proof fn lemma_lower_child_unique(keys: Seq<Seq<u8>>, k: Seq<u8>, ci: int)
    requires
        is_lower_child(keys, k, ci),
    ensures
        lower_child(keys, k) == ci,
{
    let c = lower_child(keys, k);
    assert(is_lower_child(keys, k, c));
    if c < ci {
        assert(lex_lt(keys[c], k));
    } else if ci < c {
        assert(lex_lt(keys[ci], k));
    }
}

/// The leaf a scan from `k` starts at below page `pid`, and its position
/// among the subtree's leaves.
pub open spec fn route_leaf_left(pages: Map<u32, PageImage>, pid: u32, k: Seq<u8>, d: nat) -> (u32, int)
    decreases d,
{
    match node_at(pages, pid) {
        NodeView::Internal { keys, children } => if d <= 1 {
            (pid, 0)
        } else {
            let ci = lower_child(keys, k);
            let e = (d - 1) as nat;
            let below = route_leaf_left(pages, children[ci], k, e);
            (below.0, ptree_run_leaves(pages, children.subrange(0, ci), e).len() + below.1)
        },
        _ => (pid, 0),
    }
}

/// In a well-formed subtree, the leaf a scan from `k` starts at is one of
/// its leaves, and every entry of the leaves before it sorts below `k`.
pub proof fn lemma_route_leaf_left(
    pages: Map<u32, PageImage>,
    pid: u32,
    lo: Option<Seq<u8>>,
    hi: Option<Seq<u8>>,
    d: nat,
    after: Option<u32>,
    k: Seq<u8>,
)
    requires
        ptree_wf(pages, pid, lo, hi, d, after),
    ensures
        ({
            let (leaf, j) = route_leaf_left(pages, pid, k, d);
            let ls = ptree_leaves(pages, pid, d);
            let a = leaves_entries(pages, ls.subrange(0, j));
            &&& 0 <= j < ls.len()
            &&& ls[j] == leaf
            &&& forall|t: int| 0 <= t < a.len() ==> lex_lt(#[trigger] a[t].0, k)
        }),
    decreases d,
{
    lemma_ptree_leaves(pages, pid, lo, hi, d, after);
    lemma_node_shape(pages, pid, lo, hi, d, after);
    let ls = ptree_leaves(pages, pid, d);
    match node_at(pages, pid) {
        NodeView::Leaf { .. } => {
            assert(ls.subrange(0, 0) =~= Seq::<u32>::empty());
            assert(leaves_entries(pages, Seq::<u32>::empty()) == Seq::<ByteEntry>::empty());
        },
        NodeView::Internal { keys, children } => {
            let e = (d - 1) as nat;
            lemma_lower_child_exists(keys, k);
            let ci = lower_child(keys, k);
            let cpid = children[ci];
            lemma_route_leaf_left(
                pages,
                cpid,
                child_lo(keys, ci, lo),
                child_hi(keys, ci, hi),
                e,
                next_after(pages, children, ci, e, after),
                k,
            );
            let (leaf, jc) = route_leaf_left(pages, cpid, k, e);
            let pre = children.subrange(0, ci);
            let post = children.subrange(ci + 1, children.len() as int);
            let rl_pre = ptree_run_leaves(pages, pre, e);
            let cl = ptree_leaves(pages, cpid, e);
            assert(children =~= pre + seq![cpid] + post);
            lemma_run_leaves_add(pages, pre + seq![cpid], post, e);
            lemma_run_leaves_add(pages, pre, seq![cpid], e);
            lemma_run_leaves_one(pages, cpid, e);
            let j = rl_pre.len() + jc;
            assert(route_leaf_left(pages, pid, k, d) == (leaf, j));
            assert(ls[j] == cl[jc]);
            assert(ls.subrange(0, j) =~= rl_pre + cl.subrange(0, jc));
            lemma_leaves_entries_add(pages, rl_pre, cl.subrange(0, jc));
            let pa = leaves_entries(pages, rl_pre);
            let ca = leaves_entries(pages, cl.subrange(0, jc));
            if ci > 0 {
                lemma_ptree_run_leaves(pages, keys, children, lo, hi, e, after, 0, ci);
                lemma_ptree_run_sorted(pages, keys, children, lo, hi, e, after, 0, ci);
                assert forall|t: int| 0 <= t < pa.len() implies lex_lt(#[trigger] pa[t].0, k) by {
                    assert(byte_in_bounds(pa[t].0, child_lo(keys, 0, lo), Some(keys[ci - 1])));
                    lemma_lex_order(pa[t].0, keys[ci - 1], k);
                }
            } else {
                assert(pre =~= Seq::<u32>::empty());
                assert(ptree_run_leaves(pages, Seq::<u32>::empty(), e) == Seq::<u32>::empty());
                assert(leaves_entries(pages, Seq::<u32>::empty()) == Seq::<ByteEntry>::empty());
            }
            let a = leaves_entries(pages, ls.subrange(0, j));
            assert forall|t: int| 0 <= t < a.len() implies lex_lt(#[trigger] a[t].0, k) by {
                if t < pa.len() {
                    assert(a[t] == pa[t]);
                } else {
                    assert(a[t] == ca[t - pa.len()]);
                }
            }
        },
    }
}

/// The first leaf of a well-formed subtree is one of its pages.
pub proof fn lemma_first_leaf_in(
    pages: Map<u32, PageImage>,
    pid: u32,
    lo: Option<Seq<u8>>,
    hi: Option<Seq<u8>>,
    d: nat,
    after: Option<u32>,
)
    requires
        ptree_wf(pages, pid, lo, hi, d, after),
    ensures
        ptree_pages(pages, pid, d).contains(first_leaf(pages, pid, d)),
    decreases d,
{
    lemma_node_shape(pages, pid, lo, hi, d, after);
    match node_at(pages, pid) {
        NodeView::Internal { keys, children } => {
            let e = (d - 1) as nat;
            lemma_first_leaf_in(
                pages,
                children[0],
                child_lo(keys, 0, lo),
                child_hi(keys, 0, hi),
                e,
                next_after(pages, children, 0, e, after),
            );
            lemma_run_pages_member(pages, children, e, first_leaf(pages, children[0], e));
        },
        _ => {},
    }
}

/// The pages of a well-formed subtree are closed under the links a walk
/// follows: the children of an internal node are pages of the subtree, and
/// so is the leaf a leaf links to, but for the last leaf's link `after`.
pub proof fn lemma_pages_closed(
    pages: Map<u32, PageImage>,
    pid: u32,
    lo: Option<Seq<u8>>,
    hi: Option<Seq<u8>>,
    d: nat,
    after: Option<u32>,
    x: u32,
)
    requires
        ptree_wf(pages, pid, lo, hi, d, after),
        ptree_pages(pages, pid, d).contains(x),
    ensures
        node_at(pages, x) matches NodeView::Internal { children, .. } ==> forall|c: u32|
            children.contains(c) ==> ptree_pages(pages, pid, d).contains(c),
        node_at(pages, x) matches NodeView::Leaf { next_leaf, .. } ==> (next_leaf matches Some(n) ==> (
        ptree_pages(pages, pid, d).contains(n) || after == Some(n))),
    decreases d,
{
    lemma_node_shape(pages, pid, lo, hi, d, after);
    match node_at(pages, pid) {
        NodeView::Leaf { .. } => {
            assert(x == pid);
        },
        NodeView::Internal { keys, children } => {
            let e = (d - 1) as nat;
            if x == pid {
                assert forall|c: u32| children.contains(c) implies ptree_pages(pages, pid, d).contains(c) by {
                    let i = choose|i: int| 0 <= i < children.len() && children[i] == c;
                    lemma_ptree_sorted(
                        pages,
                        children[i],
                        child_lo(keys, i, lo),
                        child_hi(keys, i, hi),
                        e,
                        next_after(pages, children, i, e, after),
                    );
                    lemma_run_pages_member(pages, children, e, c);
                }
            } else {
                lemma_run_pages_member(pages, children, e, x);
                let i = choose|i: int| 0 <= i < children.len() && #[trigger] ptree_pages(pages, children[i], e).contains(x);
                let ca = next_after(pages, children, i, e, after);
                lemma_pages_closed(pages, children[i], child_lo(keys, i, lo), child_hi(keys, i, hi), e, ca, x);
                assert forall|c: u32| #[trigger] ptree_pages(pages, children[i], e).contains(c) implies ptree_pages(
                    pages,
                    pid,
                    d,
                ).contains(c) by {
                    lemma_run_pages_member(pages, children, e, c);
                }
                if i + 1 < children.len() {
                    lemma_first_leaf_in(
                        pages,
                        children[i + 1],
                        child_lo(keys, i + 1, lo),
                        child_hi(keys, i + 1, hi),
                        e,
                        next_after(pages, children, i + 1, e, after),
                    );
                    lemma_run_pages_member(pages, children, e, first_leaf(pages, children[i + 1], e));
                }
            }
        },
    }
}

/// A set of pages holding the root of a well-formed subtree and, with each
/// internal node it holds, the node's children, holds every page of the
/// subtree.
pub proof fn lemma_closed_covers(
    pages: Map<u32, PageImage>,
    pid: u32,
    lo: Option<Seq<u8>>,
    hi: Option<Seq<u8>>,
    d: nat,
    after: Option<u32>,
    s: Set<u32>,
)
    requires
        ptree_wf(pages, pid, lo, hi, d, after),
        s.contains(pid),
        forall|x: u32, c: u32|
            #[trigger] s.contains(x) && node_at(pages, x) is Internal && #[trigger] node_at(pages, x)->Internal_children.contains(c)
                ==> s.contains(c),
    ensures
        forall|x: u32| #[trigger] ptree_pages(pages, pid, d).contains(x) ==> s.contains(x),
    decreases d,
{
    lemma_node_shape(pages, pid, lo, hi, d, after);
    match node_at(pages, pid) {
        NodeView::Leaf { .. } => {},
        NodeView::Internal { keys, children } => {
            let e = (d - 1) as nat;
            assert forall|i: int, x: u32| 0 <= i < children.len() && #[trigger] ptree_pages(pages, children[i], e).contains(x)
                implies s.contains(x) by {
                assert(children.contains(children[i]));
                lemma_closed_covers(
                    pages,
                    children[i],
                    child_lo(keys, i, lo),
                    child_hi(keys, i, hi),
                    e,
                    next_after(pages, children, i, e, after),
                    s,
                );
            }
            assert forall|x: u32| #[trigger] ptree_pages(pages, pid, d).contains(x) implies s.contains(x) by {
                if x != pid {
                    lemma_run_pages_member(pages, children, e, x);
                }
            }
        },
    }
}

} // verus!
