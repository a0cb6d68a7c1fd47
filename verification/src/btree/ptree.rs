//! The model of a persistent B+Tree: the tree of node pages below a root page
//! and the sorted entries it holds, ordered by `lex_lt` on the key bytes.
use super::persist::{spec_decode, NodeView};
use super::tree::{child_hi, child_lo};
use crate::page::key::{lemma_lex_order, lex_lt};
use crate::space::page_source::PageImage;
use vstd::prelude::*;

verus! {

/// A key and its value, as bytes.
pub type ByteEntry = (Seq<u8>, Seq<u8>);

/// Byte keys strictly ascending.
pub open spec fn bytes_sorted(ks: Seq<Seq<u8>>) -> bool {
    forall|i: int, j: int| 0 <= i < j < ks.len() ==> lex_lt(#[trigger] ks[i], #[trigger] ks[j])
}

/// Entry keys strictly ascending.
pub open spec fn byte_entries_sorted(es: Seq<ByteEntry>) -> bool {
    forall|i: int, j: int| 0 <= i < j < es.len() ==> lex_lt(#[trigger] es[i].0, #[trigger] es[j].0)
}

/// `k` lies in `[lo, hi)`; a missing bound is no bound.
pub open spec fn byte_in_bounds(k: Seq<u8>, lo: Option<Seq<u8>>, hi: Option<Seq<u8>>) -> bool {
    &&& (lo matches Some(l) ==> !lex_lt(k, l))
    &&& (hi matches Some(h) ==> lex_lt(k, h))
}

/// Every entry key lies in `[lo, hi)`.
pub open spec fn byte_entries_within(es: Seq<ByteEntry>, lo: Option<Seq<u8>>, hi: Option<Seq<u8>>) -> bool {
    forall|i: int| 0 <= i < es.len() ==> byte_in_bounds(#[trigger] es[i].0, lo, hi)
}

/// `i` splits the sorted entries `es` at `k`.
pub open spec fn is_byte_split_point(es: Seq<ByteEntry>, k: Seq<u8>, i: int) -> bool {
    &&& 0 <= i <= es.len()
    &&& forall|j: int| 0 <= j < i ==> lex_lt(#[trigger] es[j].0, k)
    &&& forall|j: int| i <= j < es.len() ==> !lex_lt(#[trigger] es[j].0, k)
}

/// Where `k` goes in the sorted entries `es`.
pub open spec fn byte_split_point(es: Seq<ByteEntry>, k: Seq<u8>) -> int {
    choose|i: int| is_byte_split_point(es, k, i)
}

/// Whether `es` holds key `k` at position `i`.
pub open spec fn byte_key_at(es: Seq<ByteEntry>, k: Seq<u8>, i: int) -> bool {
    0 <= i < es.len() && es[i].0 == k
}

/// The value stored with `k` in the sorted entries `es`.
pub open spec fn byte_lookup(es: Seq<ByteEntry>, k: Seq<u8>) -> Option<Seq<u8>> {
    let i = byte_split_point(es, k);
    if byte_key_at(es, k, i) {
        Some(es[i].1)
    } else {
        None
    }
}

/// The sorted entries `es` with `(k, v)` stored in key order.
pub open spec fn byte_put(es: Seq<ByteEntry>, k: Seq<u8>, v: Seq<u8>) -> Seq<ByteEntry> {
    let i = byte_split_point(es, k);
    if byte_key_at(es, k, i) {
        es.update(i, (k, v))
    } else {
        es.insert(i, (k, v))
    }
}

/// The sorted entries `es` without an entry for `k`.
pub open spec fn byte_remove(es: Seq<ByteEntry>, k: Seq<u8>) -> Seq<ByteEntry> {
    let i = byte_split_point(es, k);
    if byte_key_at(es, k, i) {
        es.remove(i)
    } else {
        es
    }
}

/// `a < b <= c` gives `a < c`; `a <= b < c` gives `a < c`; `a <= b <= c`
/// gives `a <= c`.
pub proof fn lemma_lex_steps(a: Seq<u8>, b: Seq<u8>, c: Seq<u8>)
    ensures
        lex_lt(a, b) && !lex_lt(c, b) ==> lex_lt(a, c),
        !lex_lt(b, a) && lex_lt(b, c) ==> lex_lt(a, c),
        !lex_lt(b, a) && !lex_lt(c, b) ==> !lex_lt(c, a),
{
    lemma_lex_order(a, b, c);
    lemma_lex_order(b, c, a);
    lemma_lex_order(c, a, b);
    lemma_lex_order(a, c, b);
    lemma_lex_order(b, a, c);
    lemma_lex_order(c, b, a);
}

/// Sorted entries have a split point at every key.
pub proof fn lemma_byte_split_exists(es: Seq<ByteEntry>, k: Seq<u8>)
    requires
        byte_entries_sorted(es),
    ensures
        is_byte_split_point(es, k, byte_split_point(es, k)),
    decreases es.len(),
{
    if es.len() == 0 {
        assert(is_byte_split_point(es, k, 0));
    } else {
        let pre = es.drop_last();
        lemma_byte_split_exists(pre, k);
        let i = byte_split_point(pre, k);
        let last = es.len() - 1;
        if i < last {
            assert forall|j: int| i <= j < es.len() implies !lex_lt(#[trigger] es[j].0, k) by {
                if j == last {
                    assert(pre[i] == es[i]);
                    assert(lex_lt(es[i].0, es[last].0));
                    lemma_lex_steps(k, es[i].0, es[last].0);
                    lemma_lex_order(k, es[last].0, k);
                } else {
                    assert(pre[j] == es[j]);
                }
            }
            assert forall|j: int| 0 <= j < i implies lex_lt(#[trigger] es[j].0, k) by {
                assert(pre[j] == es[j]);
            }
            assert(is_byte_split_point(es, k, i));
        } else if lex_lt(es[last].0, k) {
            assert forall|j: int| 0 <= j < es.len() implies lex_lt(#[trigger] es[j].0, k) by {
                if j < last {
                    assert(pre[j] == es[j]);
                }
            }
            assert(is_byte_split_point(es, k, es.len() as int));
        } else {
            assert forall|j: int| 0 <= j < last implies lex_lt(#[trigger] es[j].0, k) by {
                assert(pre[j] == es[j]);
            }
            assert(is_byte_split_point(es, k, last));
        }
    }
}

/// A split point is the split point.
pub proof fn lemma_byte_split_unique(es: Seq<ByteEntry>, k: Seq<u8>, i: int)
    requires
        is_byte_split_point(es, k, i),
    ensures
        byte_split_point(es, k) == i,
{
    let c = byte_split_point(es, k);
    assert(is_byte_split_point(es, k, c));
    if c < i {
        assert(lex_lt(es[c].0, k));
    } else if i < c {
        assert(lex_lt(es[i].0, k));
    }
}

/// Looking up, storing or removing `k` in entries `a + c + b` whose part `a`
/// sorts below `k` and whose part `b` sorts above it touches `c` alone.
pub proof fn lemma_byte_middle(a: Seq<ByteEntry>, c: Seq<ByteEntry>, b: Seq<ByteEntry>, k: Seq<u8>, v: Seq<u8>)
    requires
        byte_entries_sorted(c),
        forall|j: int| 0 <= j < a.len() ==> lex_lt(#[trigger] a[j].0, k),
        forall|j: int| 0 <= j < b.len() ==> lex_lt(k, #[trigger] b[j].0),
    ensures
        byte_split_point(a + c + b, k) == a.len() + byte_split_point(c, k),
        byte_lookup(a + c + b, k) == byte_lookup(c, k),
        byte_put(a + c + b, k, v) == a + byte_put(c, k, v) + b,
        byte_remove(a + c + b, k) == a + byte_remove(c, k) + b,
{
    let es = a + c + b;
    lemma_byte_split_exists(c, k);
    let i = byte_split_point(c, k);
    let p = a.len() + i;
    assert forall|j: int| 0 <= j < p implies lex_lt(#[trigger] es[j].0, k) by {
        if j < a.len() {
            assert(es[j] == a[j]);
        } else {
            assert(es[j] == c[j - a.len()]);
        }
    }
    assert forall|j: int| p <= j < es.len() implies !lex_lt(#[trigger] es[j].0, k) by {
        if j < a.len() + c.len() {
            assert(es[j] == c[j - a.len()]);
        } else {
            assert(es[j] == b[j - a.len() - c.len()]);
            lemma_lex_order(k, es[j].0, k);
        }
    }
    lemma_byte_split_unique(es, k, p);
    if i < c.len() {
        assert(es[p] == c[i]);
    } else if b.len() > 0 {
        assert(es[p] == b[0]);
        lemma_lex_order(k, k, k);
    }
    assert(byte_key_at(es, k, p) == byte_key_at(c, k, i));
    if byte_key_at(c, k, i) {
        assert(es.update(p, (k, v)) =~= a + c.update(i, (k, v)) + b);
        assert(es.remove(p) =~= a + c.remove(i) + b);
    } else {
        assert(es.insert(p, (k, v)) =~= a + c.insert(i, (k, v)) + b);
    }
}

/// Laws of storing: storing `(k, v)` in sorted entries keeps them sorted and
/// `k` then reads back `v`; every other key reads as before.
pub proof fn lemma_byte_put_lookup(es: Seq<ByteEntry>, k: Seq<u8>, v: Seq<u8>, other: Seq<u8>)
    requires
        byte_entries_sorted(es),
    ensures
        byte_entries_sorted(byte_put(es, k, v)),
        byte_lookup(byte_put(es, k, v), k) == Some(v),
        other != k ==> byte_lookup(byte_put(es, k, v), other) == byte_lookup(es, other),
{
    lemma_byte_split_exists(es, k);
    let i = byte_split_point(es, k);
    let found = byte_key_at(es, k, i);
    let es2 = byte_put(es, k, v);
    lemma_lex_order(k, k, k);
    if !found && i < es.len() {
        lemma_lex_order(k, es[i].0, k);
    }
    assert forall|a: int, b: int| 0 <= a < b < es2.len() implies lex_lt(
        #[trigger] es2[a].0,
        #[trigger] es2[b].0,
    ) by {
        if found {
            if a == i {
                assert(es2[a].0 == es[a].0);
            }
            if b == i {
                assert(es2[b].0 == es[b].0);
            }
        } else {
            let oa = if a < i { a } else { a - 1 };
            let ob = if b < i { b } else { b - 1 };
            if a == i {
                if ob > i {
                    assert(lex_lt(es[i].0, es[ob].0));
                    lemma_lex_steps(k, es[i].0, es[ob].0);
                }
            } else if b == i {
                assert(es2[a] == es[oa]);
            } else {
                assert(es2[a] == es[oa] && es2[b] == es[ob]);
            }
        }
    }
    assert(is_byte_split_point(es2, k, i)) by {
        assert forall|j: int| 0 <= j < i implies lex_lt(#[trigger] es2[j].0, k) by {
            assert(es2[j] == es[j]);
        }
        assert forall|j: int| i <= j < es2.len() implies !lex_lt(#[trigger] es2[j].0, k) by {
            if j > i {
                if found {
                    assert(es2[j] == es[j]);
                } else {
                    assert(es2[j] == es[j - 1]);
                }
            }
        }
    }
    lemma_byte_split_unique(es2, k, i);
    if other != k {
        lemma_byte_split_exists(es, other);
        let j = byte_split_point(es, other);
        lemma_lex_order(other, k, other);
        if lex_lt(other, k) {
            assert(j <= i) by {
                if j > i {
                    assert(lex_lt(es[i].0, other));
                    lemma_lex_steps(es[i].0, other, k);
                }
            }
            assert(is_byte_split_point(es2, other, j)) by {
                assert forall|t: int| 0 <= t < j implies lex_lt(#[trigger] es2[t].0, other) by {
                    assert(es2[t] == es[t]);
                }
                assert forall|t: int| j <= t < es2.len() implies !lex_lt(#[trigger] es2[t].0, other) by {
                    if t == i {
                    } else if found || t < i {
                        assert(es2[t] == es[t]);
                    } else {
                        assert(es2[t] == es[t - 1]);
                    }
                }
            }
            lemma_byte_split_unique(es2, other, j);
            if j < i {
                assert(es2[j] == es[j]);
            } else if j < es.len() {
                assert(es[j].0 != other) by {
                    assert(!lex_lt(es[j].0, k));
                }
            }
        } else {
            let j2 = if found { j } else { j + 1 };
            assert(j >= i) by {
                if j < i {
                    assert(lex_lt(es[j].0, k));
                    assert(!lex_lt(es[j].0, other));
                    lemma_lex_steps(other, es[j].0, k);
                }
            }
            if j == i && found {
                assert(false);
            }
            assert(is_byte_split_point(es2, other, j2)) by {
                assert forall|t: int| 0 <= t < j2 implies lex_lt(#[trigger] es2[t].0, other) by {
                    if t == i {
                    } else if found || t < i {
                        assert(es2[t] == es[t]);
                    } else {
                        assert(es2[t] == es[t - 1]);
                    }
                }
                assert forall|t: int| j2 <= t < es2.len() implies !lex_lt(#[trigger] es2[t].0, other) by {
                    if found {
                        assert(es2[t] == es[t]);
                    } else {
                        assert(es2[t] == es[t - 1]);
                    }
                }
            }
            lemma_byte_split_unique(es2, other, j2);
            if j < es.len() {
                assert(es2[j2] == es[j]);
            }
        }
    }
}

/// Laws of removing: removing `k` from sorted entries keeps them sorted and
/// `k` then reads as absent; every other key reads as before.
pub proof fn lemma_byte_remove_lookup(es: Seq<ByteEntry>, k: Seq<u8>, other: Seq<u8>)
    requires
        byte_entries_sorted(es),
    ensures
        byte_entries_sorted(byte_remove(es, k)),
        byte_lookup(byte_remove(es, k), k) is None,
        other != k ==> byte_lookup(byte_remove(es, k), other) == byte_lookup(es, other),
{
    lemma_byte_split_exists(es, k);
    let i = byte_split_point(es, k);
    let found = byte_key_at(es, k, i);
    let es2 = byte_remove(es, k);
    if !found {
        assert(es2 == es);
        return;
    }
    assert forall|a: int, b: int| 0 <= a < b < es2.len() implies lex_lt(
        #[trigger] es2[a].0,
        #[trigger] es2[b].0,
    ) by {
        let oa = if a < i { a } else { a + 1 };
        let ob = if b < i { b } else { b + 1 };
        assert(es2[a] == es[oa] && es2[b] == es[ob]);
    }
    assert(is_byte_split_point(es2, k, i)) by {
        assert forall|j: int| 0 <= j < i implies lex_lt(#[trigger] es2[j].0, k) by {
            assert(es2[j] == es[j]);
        }
        assert forall|j: int| i <= j < es2.len() implies !lex_lt(#[trigger] es2[j].0, k) by {
            assert(es2[j] == es[j + 1]);
            assert(lex_lt(es[i].0, es[j + 1].0));
            lemma_lex_order(es[i].0, es[j + 1].0, k);
        }
    }
    lemma_byte_split_unique(es2, k, i);
    if i < es2.len() {
        assert(es2[i] == es[i + 1]);
        assert(lex_lt(es[i].0, es[i + 1].0));
        lemma_lex_order(k, es[i + 1].0, k);
    }
    if other != k {
        lemma_byte_split_exists(es, other);
        let j = byte_split_point(es, other);
        lemma_lex_order(other, k, other);
        if lex_lt(other, k) {
            assert(j <= i) by {
                if j > i {
                    assert(lex_lt(es[i].0, other));
                    lemma_lex_order(k, other, k);
                }
            }
            assert(is_byte_split_point(es2, other, j)) by {
                assert forall|t: int| 0 <= t < j implies lex_lt(#[trigger] es2[t].0, other) by {
                    assert(es2[t] == es[t]);
                }
                assert forall|t: int| j <= t < es2.len() implies !lex_lt(#[trigger] es2[t].0, other) by {
                    if t < i {
                        assert(es2[t] == es[t]);
                    } else {
                        assert(es2[t] == es[t + 1]);
                        assert(lex_lt(es[i].0, es[t + 1].0));
                        lemma_lex_steps(other, k, es[t + 1].0);
                        lemma_lex_order(other, es[t + 1].0, other);
                    }
                }
            }
            lemma_byte_split_unique(es2, other, j);
            if j < i {
                assert(es2[j] == es[j]);
            } else {
                if j < es2.len() {
                    assert(es2[j] == es[j + 1]);
                    assert(lex_lt(es[i].0, es[j + 1].0));
                    lemma_lex_steps(other, k, es[j + 1].0);
                    lemma_lex_order(other, es[j + 1].0, other);
                }
            }
        } else {
            assert(j > i) by {
                if j <= i {
                    assert(!lex_lt(es[i].0, other));
                    lemma_lex_order(es[i].0, other, es[i].0);
                }
            }
            assert(is_byte_split_point(es2, other, j - 1)) by {
                assert forall|t: int| 0 <= t < j - 1 implies lex_lt(#[trigger] es2[t].0, other) by {
                    if t < i {
                        assert(es2[t] == es[t]);
                    } else {
                        assert(es2[t] == es[t + 1]);
                    }
                }
                assert forall|t: int| j - 1 <= t < es2.len() implies !lex_lt(#[trigger] es2[t].0, other) by {
                    assert(es2[t] == es[t + 1]);
                }
            }
            lemma_byte_split_unique(es2, other, j - 1);
            if j < es.len() {
                assert(es2[j - 1] == es[j]);
            }
        }
    }
}

/// Page `pid` of `pages` decodes as a node.
pub open spec fn decodes(pages: Map<u32, PageImage>, pid: u32) -> bool {
    pages.contains_key(pid) && spec_decode(pages[pid].data) is Ok
}

/// The node held in page `pid`.
pub open spec fn node_at(pages: Map<u32, PageImage>, pid: u32) -> NodeView {
    spec_decode(pages[pid].data)->Ok_0
}

/// The entries of a leaf.
pub open spec fn leaf_entries(keys: Seq<Seq<u8>>, values: Seq<Seq<u8>>) -> Seq<ByteEntry> {
    Seq::new(keys.len(), |i: int| (keys[i], values[i]))
}

/// The entries of the subtree of height `d` at page `pid`, in order.
pub open spec fn ptree_entries(pages: Map<u32, PageImage>, pid: u32, d: nat) -> Seq<ByteEntry>
    decreases d, 0nat,
{
    match node_at(pages, pid) {
        NodeView::Leaf { keys, values, .. } => leaf_entries(keys, values),
        NodeView::Internal { children, .. } => if d <= 1 {
            Seq::empty()
        } else {
            ptree_run_entries(pages, children, (d - 1) as nat)
        },
    }
}

/// The entries of the subtrees of height `d` at the pages `cs`, in order.
pub open spec fn ptree_run_entries(pages: Map<u32, PageImage>, cs: Seq<u32>, d: nat) -> Seq<ByteEntry>
    decreases d, cs.len() + 1,
{
    if cs.len() == 0 {
        Seq::empty()
    } else {
        ptree_run_entries(pages, cs.drop_last(), d) + ptree_entries(pages, cs.last(), d)
    }
}

/// The pages of the subtree of height `d` at page `pid`.
pub open spec fn ptree_pages(pages: Map<u32, PageImage>, pid: u32, d: nat) -> Set<u32>
    decreases d, 0nat,
{
    match node_at(pages, pid) {
        NodeView::Internal { children, .. } => if d <= 1 {
            set![pid]
        } else {
            set![pid] + ptree_run_pages(pages, children, (d - 1) as nat)
        },
        _ => set![pid],
    }
}

/// The pages of the subtrees of height `d` at the pages `cs`.
pub open spec fn ptree_run_pages(pages: Map<u32, PageImage>, cs: Seq<u32>, d: nat) -> Set<u32>
    decreases d, cs.len() + 1,
{
    if cs.len() == 0 {
        Set::empty()
    } else {
        ptree_run_pages(pages, cs.drop_last(), d) + ptree_pages(pages, cs.last(), d)
    }
}

/// The leftmost leaf of the subtree of height `d` at page `pid`.
pub open spec fn first_leaf(pages: Map<u32, PageImage>, pid: u32, d: nat) -> u32
    decreases d,
{
    match node_at(pages, pid) {
        NodeView::Internal { children, .. } => if d <= 1 || children.len() == 0 {
            pid
        } else {
            first_leaf(pages, children[0], (d - 1) as nat)
        },
        _ => pid,
    }
}

/// The leaf that follows the leaves of child `i` of `cs`: the first leaf of
/// the next child, or `after` for the last child.
pub open spec fn next_after(pages: Map<u32, PageImage>, cs: Seq<u32>, i: int, d: nat, after: Option<u32>) -> Option<u32> {
    if i + 1 < cs.len() {
        Some(first_leaf(pages, cs[i + 1], d))
    } else {
        after
    }
}

/// A well-formed subtree of height `d` at page `pid`, with keys in
/// `[lo, hi)`, whose last leaf links to `after`: no node lives in page 0;
/// every node decodes; keys ascend; a leaf has a value per key and links to
/// the leaf that follows it; an internal node has one child more than keys,
/// child `i` lies between separators `i - 1` and `i`, one level lower, and
/// the subtrees of the children use distinct pages, none of them the
/// node's own.
#[verifier::opaque]
pub open spec fn ptree_wf(
    pages: Map<u32, PageImage>,
    pid: u32,
    lo: Option<Seq<u8>>,
    hi: Option<Seq<u8>>,
    d: nat,
    after: Option<u32>,
) -> bool
    decreases d,
{
    &&& d >= 1
    &&& pid != 0
    &&& decodes(pages, pid)
    &&& match node_at(pages, pid) {
        NodeView::Leaf { keys, values, next_leaf } => {
            &&& d == 1
            &&& keys.len() == values.len()
            &&& bytes_sorted(keys)
            &&& forall|i: int| 0 <= i < keys.len() ==> byte_in_bounds(#[trigger] keys[i], lo, hi)
            &&& next_leaf == after
        },
        NodeView::Internal { keys, children } => {
            &&& d > 1
            &&& children.len() == keys.len() + 1
            &&& bytes_sorted(keys)
            &&& forall|i: int| 0 <= i < keys.len() ==> byte_in_bounds(#[trigger] keys[i], lo, hi)
            &&& forall|i: int|
                0 <= i < children.len() ==> ptree_wf(
                    pages,
                    #[trigger] children[i],
                    child_lo(keys, i, lo),
                    child_hi(keys, i, hi),
                    (d - 1) as nat,
                    next_after(pages, children, i, (d - 1) as nat, after),
                )
            &&& forall|i: int|
                0 <= i < children.len() ==> !ptree_pages(pages, #[trigger] children[i], (d - 1) as nat).contains(
                    pid,
                )
            &&& forall|i: int, j: int|
                0 <= i < j < children.len() ==> ptree_pages(pages, #[trigger] children[i], (d - 1) as nat).disjoint(
                    ptree_pages(pages, #[trigger] children[j], (d - 1) as nat),
                )
        },
    }
}

/// The pages of a run are those of its subtrees.
pub proof fn lemma_run_pages_member(pages: Map<u32, PageImage>, cs: Seq<u32>, d: nat, q: u32)
    ensures
        ptree_run_pages(pages, cs, d).contains(q) <==> exists|i: int|
            0 <= i < cs.len() && #[trigger] ptree_pages(pages, cs[i], d).contains(q),
    decreases cs.len(),
{
    if cs.len() > 0 {
        let pre = cs.drop_last();
        let last = cs.len() - 1;
        lemma_run_pages_member(pages, pre, d, q);
        assert(cs.last() == cs[last]);
        if ptree_run_pages(pages, cs, d).contains(q) {
            if ptree_run_pages(pages, pre, d).contains(q) {
                let i = choose|i: int| 0 <= i < pre.len() && #[trigger] ptree_pages(pages, pre[i], d).contains(q);
                assert(pre[i] == cs[i]);
                assert(ptree_pages(pages, cs[i], d).contains(q));
            } else {
                assert(ptree_pages(pages, cs[last], d).contains(q));
            }
        }
        if exists|i: int| 0 <= i < cs.len() && #[trigger] ptree_pages(pages, cs[i], d).contains(q) {
            let i = choose|i: int| 0 <= i < cs.len() && #[trigger] ptree_pages(pages, cs[i], d).contains(q);
            if i < last {
                assert(pre[i] == cs[i]);
                assert(ptree_pages(pages, pre[i], d).contains(q));
            }
        }
    }
}

/// Runs of subtrees concatenate.
pub proof fn lemma_run_add(pages: Map<u32, PageImage>, a: Seq<u32>, b: Seq<u32>, d: nat)
    ensures
        ptree_run_entries(pages, a + b, d) == ptree_run_entries(pages, a, d) + ptree_run_entries(pages, b, d),
        ptree_run_pages(pages, a + b, d) == ptree_run_pages(pages, a, d) + ptree_run_pages(pages, b, d),
    decreases b.len(),
{
    if b.len() == 0 {
        assert(a + b =~= a);
        assert(ptree_run_entries(pages, a, d) + Seq::<ByteEntry>::empty() =~= ptree_run_entries(pages, a, d));
        assert(ptree_run_pages(pages, a, d) + Set::<u32>::empty() =~= ptree_run_pages(pages, a, d));
    } else {
        let ab = a + b;
        assert(ab.drop_last() =~= a + b.drop_last());
        lemma_run_add(pages, a, b.drop_last(), d);
        assert(ab.last() == b.last());
        assert(ptree_run_pages(pages, a + b, d) =~= ptree_run_pages(pages, a, d) + ptree_run_pages(pages, b, d));
    }
}

/// A run of one subtree.
pub proof fn lemma_run_one(pages: Map<u32, PageImage>, c: u32, d: nat)
    ensures
        ptree_run_entries(pages, seq![c], d) == ptree_entries(pages, c, d),
        ptree_run_pages(pages, seq![c], d) == ptree_pages(pages, c, d),
{
    assert(seq![c].drop_last() =~= Seq::<u32>::empty());
    assert(ptree_run_entries(pages, Seq::<u32>::empty(), d) == Seq::<ByteEntry>::empty());
    assert(ptree_run_pages(pages, Seq::<u32>::empty(), d) == Set::<u32>::empty());
    assert(Seq::<ByteEntry>::empty() + ptree_entries(pages, c, d) =~= ptree_entries(pages, c, d));
    assert(Set::<u32>::empty() + ptree_pages(pages, c, d) =~= ptree_pages(pages, c, d));
}

/// Runs agree in two page maps when each of their subtrees does.
pub proof fn lemma_run_frame(p: Map<u32, PageImage>, q: Map<u32, PageImage>, cs: Seq<u32>, d: nat)
    requires
        forall|i: int|
            0 <= i < cs.len() ==> ptree_entries(q, #[trigger] cs[i], d) == ptree_entries(p, cs[i], d)
                && ptree_pages(q, cs[i], d) == ptree_pages(p, cs[i], d),
    ensures
        ptree_run_entries(q, cs, d) == ptree_run_entries(p, cs, d),
        ptree_run_pages(q, cs, d) == ptree_run_pages(p, cs, d),
    decreases cs.len(),
{
    if cs.len() > 0 {
        let pre = cs.drop_last();
        assert forall|i: int| 0 <= i < pre.len() implies ptree_entries(q, #[trigger] pre[i], d) == ptree_entries(
            p,
            pre[i],
            d,
        ) && ptree_pages(q, pre[i], d) == ptree_pages(p, pre[i], d) by {
            assert(pre[i] == cs[i]);
        }
        lemma_run_frame(p, q, pre, d);
        assert(cs.last() == cs[cs.len() - 1]);
    }
}

/// A well-formed subtree reads the same in any page map that agrees on its
/// pages.
pub proof fn lemma_ptree_frame(
    p: Map<u32, PageImage>,
    q: Map<u32, PageImage>,
    pid: u32,
    lo: Option<Seq<u8>>,
    hi: Option<Seq<u8>>,
    d: nat,
    after: Option<u32>,
)
    requires
        ptree_wf(p, pid, lo, hi, d, after),
        forall|x: u32| #[trigger] ptree_pages(p, pid, d).contains(x) ==> q.contains_key(x) && q[x] == p[x],
    ensures
        ptree_wf(q, pid, lo, hi, d, after),
        ptree_entries(q, pid, d) == ptree_entries(p, pid, d),
        ptree_pages(q, pid, d) == ptree_pages(p, pid, d),
        first_leaf(q, pid, d) == first_leaf(p, pid, d),
    decreases d,
{
    reveal(ptree_wf);
    assert(ptree_pages(p, pid, d).contains(pid));
    assert(node_at(q, pid) == node_at(p, pid));
    match node_at(p, pid) {
        NodeView::Leaf { .. } => {},
        NodeView::Internal { keys, children } => {
            let e = (d - 1) as nat;
            assert forall|i: int| 0 <= i < children.len() implies {
                &&& ptree_wf(q, #[trigger] children[i], child_lo(keys, i, lo), child_hi(keys, i, hi), e, next_after(p, children, i, e, after))
                &&& ptree_entries(q, children[i], e) == ptree_entries(p, children[i], e)
                &&& ptree_pages(q, children[i], e) == ptree_pages(p, children[i], e)
                &&& first_leaf(q, children[i], e) == first_leaf(p, children[i], e)
            } by {
                assert forall|x: u32| #[trigger] ptree_pages(p, children[i], e).contains(x) implies q.contains_key(x) && q[x] == p[x] by {
                    lemma_run_pages_member(p, children, e, x);
                    assert(ptree_pages(p, pid, d).contains(x));
                }
                lemma_ptree_frame(p, q, children[i], child_lo(keys, i, lo), child_hi(keys, i, hi), e, next_after(p, children, i, e, after));
            }
            assert forall|i: int| 0 <= i < children.len() implies next_after(q, children, i, e, after) == next_after(p, children, i, e, after) by {
                if i + 1 < children.len() {
                    assert(first_leaf(q, children[i + 1], e) == first_leaf(p, children[i + 1], e));
                }
            }
            lemma_run_frame(p, q, children, e);
            if children.len() > 0 {
                assert(first_leaf(q, children[0], e) == first_leaf(p, children[0], e));
            }
        },
    }
}

/// A well-formed subtree's entries ascend and lie in its bounds, and page 0
/// is none of its pages.
pub proof fn lemma_ptree_sorted(
    pages: Map<u32, PageImage>,
    pid: u32,
    lo: Option<Seq<u8>>,
    hi: Option<Seq<u8>>,
    d: nat,
    after: Option<u32>,
)
    requires
        ptree_wf(pages, pid, lo, hi, d, after),
    ensures
        byte_entries_sorted(ptree_entries(pages, pid, d)),
        byte_entries_within(ptree_entries(pages, pid, d), lo, hi),
        !ptree_pages(pages, pid, d).contains(0),
        ptree_pages(pages, pid, d).contains(pid),
    decreases d, 0nat,
{
    reveal(ptree_wf);
    match node_at(pages, pid) {
        NodeView::Leaf { .. } => {},
        NodeView::Internal { keys, children } => {
            let e = (d - 1) as nat;
            lemma_ptree_run_sorted(pages, keys, children, lo, hi, e, after, 0, children.len() as int);
            assert(children.subrange(0, children.len() as int) =~= children);
        },
    }
}

/// The children `b..c` of a well-formed internal node with separators
/// `keys` and children `cs`: their entries ascend and lie between the lower
/// bound of child `b` and the upper bound of child `c - 1`, and page 0 is
/// none of their pages.
pub proof fn lemma_ptree_run_sorted(
    pages: Map<u32, PageImage>,
    keys: Seq<Seq<u8>>,
    cs: Seq<u32>,
    lo: Option<Seq<u8>>,
    hi: Option<Seq<u8>>,
    d: nat,
    after: Option<u32>,
    b: int,
    c: int,
)
    requires
        0 <= b < c <= cs.len(),
        cs.len() == keys.len() + 1,
        bytes_sorted(keys),
        forall|i: int| 0 <= i < keys.len() ==> byte_in_bounds(#[trigger] keys[i], lo, hi),
        forall|i: int|
            0 <= i < cs.len() ==> ptree_wf(
                pages,
                #[trigger] cs[i],
                child_lo(keys, i, lo),
                child_hi(keys, i, hi),
                d,
                next_after(pages, cs, i, d, after),
            ),
    ensures
        byte_entries_sorted(ptree_run_entries(pages, cs.subrange(b, c), d)),
        byte_entries_within(ptree_run_entries(pages, cs.subrange(b, c), d), child_lo(keys, b, lo), child_hi(keys, c - 1, hi)),
        !ptree_run_pages(pages, cs.subrange(b, c), d).contains(0),
    decreases d, c - b + 1,
{
    let run = cs.subrange(b, c);
    let last = c - 1;
    let le = ptree_entries(pages, cs[last], d);
    lemma_ptree_sorted(pages, cs[last], child_lo(keys, last, lo), child_hi(keys, last, hi), d, next_after(pages, cs, last, d, after));
    assert(run.drop_last() =~= cs.subrange(b, last));
    assert(run.last() == cs[last]);
    if last == b {
        assert(cs.subrange(b, last) =~= Seq::<u32>::empty());
        assert(ptree_run_entries(pages, Seq::<u32>::empty(), d) == Seq::<ByteEntry>::empty());
        assert(ptree_run_pages(pages, Seq::<u32>::empty(), d) == Set::<u32>::empty());
        assert(ptree_run_entries(pages, run, d) =~= le);
    } else {
        lemma_ptree_run_sorted(pages, keys, cs, lo, hi, d, after, b, last);
        let pe = ptree_run_entries(pages, cs.subrange(b, last), d);
        let sep = keys[last - 1];
        assert(byte_in_bounds(sep, lo, hi));
        if last < keys.len() {
            assert(lex_lt(sep, keys[last]));
            if let Some(h) = hi {
                lemma_lex_steps(sep, keys[last], h);
            }
        }
        if b > 0 {
            assert(lex_lt(keys[b - 1], sep));
            lemma_lex_order(keys[b - 1], sep, sep);
        } else if let Some(l) = lo {
            lemma_lex_order(sep, l, sep);
        }
        lemma_concat_sorted(pe, le, child_lo(keys, b, lo), sep, child_hi(keys, last, hi));
        assert(ptree_run_entries(pages, run, d) == pe + le);
    }
}

/// Two ascending runs split by `sep` make one ascending run.
pub proof fn lemma_concat_sorted(
    pe: Seq<ByteEntry>,
    le: Seq<ByteEntry>,
    lb: Option<Seq<u8>>,
    sep: Seq<u8>,
    hb: Option<Seq<u8>>,
)
    requires
        byte_entries_sorted(pe),
        byte_entries_within(pe, lb, Some(sep)),
        byte_entries_sorted(le),
        byte_entries_within(le, Some(sep), hb),
        lb matches Some(l) ==> !lex_lt(sep, l),
        hb matches Some(h) ==> lex_lt(sep, h),
    ensures
        byte_entries_sorted(pe + le),
        byte_entries_within(pe + le, lb, hb),
{
    let es = pe + le;
    assert forall|i: int, j: int| 0 <= i < j < es.len() implies lex_lt(
        #[trigger] es[i].0,
        #[trigger] es[j].0,
    ) by {
        if j >= pe.len() && i < pe.len() {
            assert(es[i] == pe[i]);
            assert(es[j] == le[j - pe.len()]);
            assert(byte_in_bounds(pe[i].0, lb, Some(sep)));
            assert(byte_in_bounds(le[j - pe.len()].0, Some(sep), hb));
            lemma_lex_steps(pe[i].0, sep, le[j - pe.len()].0);
        } else if j < pe.len() {
            assert(es[i] == pe[i]);
            assert(es[j] == pe[j]);
        } else {
            assert(es[i] == le[i - pe.len()]);
            assert(es[j] == le[j - pe.len()]);
        }
    }
    assert forall|i: int| 0 <= i < es.len() implies byte_in_bounds(#[trigger] es[i].0, lb, hb) by {
        if i < pe.len() {
            assert(es[i] == pe[i]);
            assert(byte_in_bounds(pe[i].0, lb, Some(sep)));
            if let Some(h) = hb {
                lemma_lex_steps(pe[i].0, sep, h);
                lemma_lex_order(sep, h, sep);
            }
        } else {
            assert(es[i] == le[i - pe.len()]);
            assert(byte_in_bounds(le[i - pe.len()].0, Some(sep), hb));
            if let Some(l) = lb {
                lemma_lex_steps(l, sep, le[i - pe.len()].0);
            }
        }
    }
}

/// The leaves of the subtree of height `d` at page `pid`, left to right.
pub open spec fn ptree_leaves(pages: Map<u32, PageImage>, pid: u32, d: nat) -> Seq<u32>
    decreases d, 0nat,
{
    match node_at(pages, pid) {
        NodeView::Internal { children, .. } => if d <= 1 {
            seq![pid]
        } else {
            ptree_run_leaves(pages, children, (d - 1) as nat)
        },
        _ => seq![pid],
    }
}

/// The leaves of the subtrees of height `d` at the pages `cs`, left to right.
pub open spec fn ptree_run_leaves(pages: Map<u32, PageImage>, cs: Seq<u32>, d: nat) -> Seq<u32>
    decreases d, cs.len() + 1,
{
    if cs.len() == 0 {
        Seq::empty()
    } else {
        ptree_run_leaves(pages, cs.drop_last(), d) + ptree_leaves(pages, cs.last(), d)
    }
}

/// The entries of the leaf in page `pid` (none if it holds no leaf).
pub open spec fn leaf_entries_at(pages: Map<u32, PageImage>, pid: u32) -> Seq<ByteEntry> {
    match node_at(pages, pid) {
        NodeView::Leaf { keys, values, .. } => leaf_entries(keys, values),
        _ => Seq::empty(),
    }
}

/// The entries of the leaves `ls`, in order.
pub open spec fn leaves_entries(pages: Map<u32, PageImage>, ls: Seq<u32>) -> Seq<ByteEntry>
    decreases ls.len(),
{
    if ls.len() == 0 {
        Seq::empty()
    } else {
        leaves_entries(pages, ls.drop_last()) + leaf_entries_at(pages, ls.last())
    }
}

/// The pages `ls` hold leaves, each linked to the next and the last to
/// `after`.
pub open spec fn chained(pages: Map<u32, PageImage>, ls: Seq<u32>, after: Option<u32>) -> bool {
    &&& forall|t: int| 0 <= t < ls.len() ==> decodes(pages, #[trigger] ls[t]) && node_at(pages, ls[t]) is Leaf
    &&& forall|t: int|
        0 <= t < ls.len() - 1 ==> (#[trigger] node_at(pages, ls[t]))->Leaf_next_leaf == Some(ls[t + 1])
    &&& ls.len() > 0 ==> node_at(pages, ls.last())->Leaf_next_leaf == after
}

/// Leaf entries concatenate.
pub proof fn lemma_leaves_entries_add(pages: Map<u32, PageImage>, a: Seq<u32>, b: Seq<u32>)
    ensures
        leaves_entries(pages, a + b) == leaves_entries(pages, a) + leaves_entries(pages, b),
    decreases b.len(),
{
    if b.len() == 0 {
        assert(a + b =~= a);
        assert(leaves_entries(pages, a) + Seq::<ByteEntry>::empty() =~= leaves_entries(pages, a));
    } else {
        assert((a + b).drop_last() =~= a + b.drop_last());
        lemma_leaves_entries_add(pages, a, b.drop_last());
        assert((a + b).last() == b.last());
    }
}

/// Chained runs of leaves concatenate when the first links to the second.
pub proof fn lemma_chained_add(pages: Map<u32, PageImage>, a: Seq<u32>, b: Seq<u32>, after: Option<u32>)
    requires
        a.len() > 0,
        b.len() > 0,
        chained(pages, a, Some(b[0])),
        chained(pages, b, after),
    ensures
        chained(pages, a + b, after),
{
    let ab = a + b;
    assert forall|t: int| 0 <= t < ab.len() implies decodes(pages, #[trigger] ab[t]) && node_at(pages, ab[t]) is Leaf by {
        if t < a.len() {
            assert(ab[t] == a[t]);
        } else {
            assert(ab[t] == b[t - a.len()]);
        }
    }
    assert forall|t: int| 0 <= t < ab.len() - 1 implies (#[trigger] node_at(pages, ab[t]))->Leaf_next_leaf == Some(
        ab[t + 1],
    ) by {
        if t < a.len() - 1 {
            assert(ab[t] == a[t] && ab[t + 1] == a[t + 1]);
        } else if t == a.len() - 1 {
            assert(ab[t] == a.last() && ab[t + 1] == b[0]);
        } else {
            assert(ab[t] == b[t - a.len()] && ab[t + 1] == b[t - a.len() + 1]);
        }
    }
    assert(ab.last() == b.last());
}

/// The leaves of a well-formed subtree: there is at least one, the first is
/// its first leaf, they are chained to `after`, and they hold its entries.
pub proof fn lemma_ptree_leaves(
    pages: Map<u32, PageImage>,
    pid: u32,
    lo: Option<Seq<u8>>,
    hi: Option<Seq<u8>>,
    d: nat,
    after: Option<u32>,
)
    requires
        ptree_wf(pages, pid, lo, hi, d, after),
    ensures
        ptree_leaves(pages, pid, d).len() >= 1,
        ptree_leaves(pages, pid, d)[0] == first_leaf(pages, pid, d),
        chained(pages, ptree_leaves(pages, pid, d), after),
        leaves_entries(pages, ptree_leaves(pages, pid, d)) == ptree_entries(pages, pid, d),
    decreases d, 0nat,
{
    reveal(ptree_wf);
    match node_at(pages, pid) {
        NodeView::Leaf { .. } => {
            let ls = seq![pid];
            assert(ls.drop_last() =~= Seq::<u32>::empty());
            assert(leaves_entries(pages, Seq::<u32>::empty()) == Seq::<ByteEntry>::empty());
            assert(Seq::<ByteEntry>::empty() + leaf_entries_at(pages, pid) =~= leaf_entries_at(pages, pid));
        },
        NodeView::Internal { keys, children } => {
            let e = (d - 1) as nat;
            lemma_ptree_run_leaves(pages, keys, children, lo, hi, e, after, 0, children.len() as int);
            assert(children.subrange(0, children.len() as int) =~= children);
        },
    }
}

/// The leaves of children `b..c` of a well-formed internal node: at least
/// one, the first is the first leaf of child `b`, chained to what follows
/// child `c - 1`, holding the children's entries.
pub proof fn lemma_ptree_run_leaves(
    pages: Map<u32, PageImage>,
    keys: Seq<Seq<u8>>,
    cs: Seq<u32>,
    lo: Option<Seq<u8>>,
    hi: Option<Seq<u8>>,
    d: nat,
    after: Option<u32>,
    b: int,
    c: int,
)
    requires
        0 <= b < c <= cs.len(),
        forall|i: int|
            0 <= i < cs.len() ==> ptree_wf(
                pages,
                #[trigger] cs[i],
                child_lo(keys, i, lo),
                child_hi(keys, i, hi),
                d,
                next_after(pages, cs, i, d, after),
            ),
    ensures
        ptree_run_leaves(pages, cs.subrange(b, c), d).len() >= 1,
        ptree_run_leaves(pages, cs.subrange(b, c), d)[0] == first_leaf(pages, cs[b], d),
        chained(pages, ptree_run_leaves(pages, cs.subrange(b, c), d), next_after(pages, cs, c - 1, d, after)),
        leaves_entries(pages, ptree_run_leaves(pages, cs.subrange(b, c), d)) == ptree_run_entries(
            pages,
            cs.subrange(b, c),
            d,
        ),
    decreases d, c - b + 1,
{
    let run = cs.subrange(b, c);
    let last = c - 1;
    lemma_ptree_leaves(pages, cs[last], child_lo(keys, last, lo), child_hi(keys, last, hi), d, next_after(pages, cs, last, d, after));
    assert(run.drop_last() =~= cs.subrange(b, last));
    assert(run.last() == cs[last]);
    let ll = ptree_leaves(pages, cs[last], d);
    if last == b {
        assert(cs.subrange(b, last) =~= Seq::<u32>::empty());
        assert(ptree_run_leaves(pages, Seq::<u32>::empty(), d) == Seq::<u32>::empty());
        assert(ptree_run_entries(pages, Seq::<u32>::empty(), d) == Seq::<ByteEntry>::empty());
        assert(ptree_run_leaves(pages, run, d) =~= ll);
        assert(ptree_run_entries(pages, run, d) =~= ptree_entries(pages, cs[last], d));
    } else {
        lemma_ptree_run_leaves(pages, keys, cs, lo, hi, d, after, b, last);
        let pl = ptree_run_leaves(pages, cs.subrange(b, last), d);
        assert(ptree_run_leaves(pages, run, d) == pl + ll);
        assert(next_after(pages, cs, last - 1, d, after) == Some(ll[0]));
        lemma_chained_add(pages, pl, ll, next_after(pages, cs, last, d, after));
        lemma_leaves_entries_add(pages, pl, ll);
        assert((pl + ll)[0] == pl[0]);
    }
}

/// Where key `k` goes in a well-formed internal node at page `pid`: before
/// child `ci` the entries sort below `k`, after it above `k`; so looking up,
/// storing or removing `k` touches child `ci` alone, and the node's leaves
/// are those before child `ci`, the child's, and those after it.
pub proof fn lemma_ptree_descend(
    pages: Map<u32, PageImage>,
    pid: u32,
    lo: Option<Seq<u8>>,
    hi: Option<Seq<u8>>,
    d: nat,
    after: Option<u32>,
    ci: int,
    k: Seq<u8>,
    v: Seq<u8>,
)
    requires
        ptree_wf(pages, pid, lo, hi, d, after),
        node_at(pages, pid) is Internal,
        0 <= ci < node_at(pages, pid)->Internal_children.len(),
        byte_in_bounds(
            k,
            child_lo(node_at(pages, pid)->Internal_keys, ci, lo),
            child_hi(node_at(pages, pid)->Internal_keys, ci, hi),
        ),
    ensures
        ({
            let keys = node_at(pages, pid)->Internal_keys;
            let cs = node_at(pages, pid)->Internal_children;
            let e = (d - 1) as nat;
            let a = ptree_run_entries(pages, cs.subrange(0, ci), e);
            let c = ptree_entries(pages, cs[ci], e);
            let b = ptree_run_entries(pages, cs.subrange(ci + 1, cs.len() as int), e);
            &&& d > 1
            &&& ptree_wf(pages, cs[ci], child_lo(keys, ci, lo), child_hi(keys, ci, hi), e, next_after(pages, cs, ci, e, after))
            &&& ptree_entries(pages, pid, d) == a + c + b
            &&& forall|t: int| 0 <= t < a.len() ==> lex_lt(#[trigger] a[t].0, k)
            &&& forall|t: int| 0 <= t < b.len() ==> lex_lt(k, #[trigger] b[t].0)
            &&& byte_lookup(a + c + b, k) == byte_lookup(c, k)
            &&& byte_put(a + c + b, k, v) == a + byte_put(c, k, v) + b
            &&& byte_remove(a + c + b, k) == a + byte_remove(c, k) + b
            &&& ptree_leaves(pages, pid, d) == ptree_run_leaves(pages, cs.subrange(0, ci), e) + ptree_leaves(
                pages,
                cs[ci],
                e,
            ) + ptree_run_leaves(pages, cs.subrange(ci + 1, cs.len() as int), e)
        }),
{
    reveal(ptree_wf);
    let keys = node_at(pages, pid)->Internal_keys;
    let cs = node_at(pages, pid)->Internal_children;
    let e = (d - 1) as nat;
    let pre = cs.subrange(0, ci);
    let post = cs.subrange(ci + 1, cs.len() as int);
    assert(cs =~= pre + seq![cs[ci]] + post);
    lemma_run_add(pages, pre + seq![cs[ci]], post, e);
    lemma_run_add(pages, pre, seq![cs[ci]], e);
    lemma_run_one(pages, cs[ci], e);
    lemma_run_leaves_add(pages, pre + seq![cs[ci]], post, e);
    lemma_run_leaves_add(pages, pre, seq![cs[ci]], e);
    lemma_run_leaves_one(pages, cs[ci], e);
    let a = ptree_run_entries(pages, pre, e);
    let b = ptree_run_entries(pages, post, e);
    lemma_ptree_sorted(pages, cs[ci], child_lo(keys, ci, lo), child_hi(keys, ci, hi), e, next_after(pages, cs, ci, e, after));
    if ci > 0 {
        lemma_ptree_run_sorted(pages, keys, cs, lo, hi, e, after, 0, ci);
        assert forall|j: int| 0 <= j < a.len() implies lex_lt(#[trigger] a[j].0, k) by {
            assert(byte_in_bounds(a[j].0, lo, Some(keys[ci - 1])));
            lemma_lex_steps(a[j].0, keys[ci - 1], k);
        }
    } else {
        assert(pre =~= Seq::<u32>::empty());
        assert(a == Seq::<ByteEntry>::empty());
    }
    if ci + 1 < cs.len() {
        lemma_ptree_run_sorted(pages, keys, cs, lo, hi, e, after, ci + 1, cs.len() as int);
        assert forall|j: int| 0 <= j < b.len() implies lex_lt(k, #[trigger] b[j].0) by {
            assert(byte_in_bounds(b[j].0, Some(keys[ci]), hi));
            lemma_lex_steps(k, keys[ci], b[j].0);
        }
    } else {
        assert(post =~= Seq::<u32>::empty());
        assert(b == Seq::<ByteEntry>::empty());
    }
    lemma_byte_middle(a, ptree_entries(pages, cs[ci], e), b, k, v);
}

/// Runs of leaves concatenate.
pub proof fn lemma_run_leaves_add(pages: Map<u32, PageImage>, a: Seq<u32>, b: Seq<u32>, d: nat)
    ensures
        ptree_run_leaves(pages, a + b, d) == ptree_run_leaves(pages, a, d) + ptree_run_leaves(pages, b, d),
    decreases b.len(),
{
    if b.len() == 0 {
        assert(a + b =~= a);
        assert(ptree_run_leaves(pages, a, d) + Seq::<u32>::empty() =~= ptree_run_leaves(pages, a, d));
    } else {
        assert((a + b).drop_last() =~= a + b.drop_last());
        lemma_run_leaves_add(pages, a, b.drop_last(), d);
        assert((a + b).last() == b.last());
    }
}

/// A run of leaves of one subtree.
pub proof fn lemma_run_leaves_one(pages: Map<u32, PageImage>, c: u32, d: nat)
    ensures
        ptree_run_leaves(pages, seq![c], d) == ptree_leaves(pages, c, d),
{
    assert(seq![c].drop_last() =~= Seq::<u32>::empty());
    assert(ptree_run_leaves(pages, Seq::<u32>::empty(), d) == Seq::<u32>::empty());
    assert(Seq::<u32>::empty() + ptree_leaves(pages, c, d) =~= ptree_leaves(pages, c, d));
}

/// The shape of the root node of a well-formed subtree.
pub proof fn lemma_node_shape(
    pages: Map<u32, PageImage>,
    pid: u32,
    lo: Option<Seq<u8>>,
    hi: Option<Seq<u8>>,
    d: nat,
    after: Option<u32>,
)
    requires
        ptree_wf(pages, pid, lo, hi, d, after),
    ensures
        d >= 1,
        pid != 0,
        decodes(pages, pid),
        match node_at(pages, pid) {
            NodeView::Leaf { keys, values, next_leaf } => {
                &&& d == 1
                &&& keys.len() == values.len()
                &&& bytes_sorted(keys)
                &&& forall|i: int| 0 <= i < keys.len() ==> byte_in_bounds(#[trigger] keys[i], lo, hi)
                &&& next_leaf == after
            },
            NodeView::Internal { keys, children } => {
                &&& d > 1
                &&& children.len() == keys.len() + 1
                &&& bytes_sorted(keys)
                &&& forall|i: int| 0 <= i < keys.len() ==> byte_in_bounds(#[trigger] keys[i], lo, hi)
                &&& forall|i: int|
                    0 <= i < children.len() ==> ptree_wf(
                        pages,
                        #[trigger] children[i],
                        child_lo(keys, i, lo),
                        child_hi(keys, i, hi),
                        (d - 1) as nat,
                        next_after(pages, children, i, (d - 1) as nat, after),
                    )
            },
        },
{
    reveal(ptree_wf);
}

/// The child a lookup of `k` descends into below separators `keys`: past
/// the separators not above `k` (a separator equal to `k` sends it right).
pub open spec fn route_child(keys: Seq<Seq<u8>>, k: Seq<u8>) -> int {
    choose|ci: int| is_route_child(keys, k, ci)
}

/// `ci` is past the separators not above `k` and before those above it.
pub open spec fn is_route_child(keys: Seq<Seq<u8>>, k: Seq<u8>, ci: int) -> bool {
    &&& 0 <= ci <= keys.len()
    &&& forall|j: int| 0 <= j < ci ==> !lex_lt(k, #[trigger] keys[j])
    &&& forall|j: int| ci <= j < keys.len() ==> lex_lt(k, #[trigger] keys[j])
}

/// The leaf a lookup of `k` reaches from page `pid`, and its position among
/// the subtree's leaves.
pub open spec fn route_leaf(pages: Map<u32, PageImage>, pid: u32, k: Seq<u8>, d: nat) -> (u32, int)
    decreases d,
{
    match node_at(pages, pid) {
        NodeView::Internal { keys, children } => if d <= 1 {
            (pid, 0)
        } else {
            let ci = route_child(keys, k);
            let e = (d - 1) as nat;
            let below = route_leaf(pages, children[ci], k, e);
            (below.0, ptree_run_leaves(pages, children.subrange(0, ci), e).len() + below.1)
        },
        _ => (pid, 0),
    }
}

/// Ascending separators have a routed child for every key.
pub proof fn lemma_route_child_exists(keys: Seq<Seq<u8>>, k: Seq<u8>)
    requires
        bytes_sorted(keys),
    ensures
        is_route_child(keys, k, route_child(keys, k)),
    decreases keys.len(),
{
    if keys.len() == 0 {
        assert(is_route_child(keys, k, 0int));
    } else {
        let pre = keys.drop_last();
        let last = keys.len() - 1;
        lemma_route_child_exists(pre, k);
        let c = route_child(pre, k);
        if c < last {
            assert(lex_lt(k, pre[c]));
            assert(lex_lt(keys[c], keys[last]));
            lemma_lex_order(k, keys[c], keys[last]);
            assert(is_route_child(keys, k, c)) by {
                assert forall|j: int| 0 <= j < c implies !lex_lt(k, #[trigger] keys[j]) by {
                    assert(pre[j] == keys[j]);
                }
                assert forall|j: int| c <= j < keys.len() implies lex_lt(k, #[trigger] keys[j]) by {
                    if j < last {
                        assert(pre[j] == keys[j]);
                    }
                }
            }
        } else if lex_lt(k, keys[last]) {
            assert(is_route_child(keys, k, last)) by {
                assert forall|j: int| 0 <= j < last implies !lex_lt(k, #[trigger] keys[j]) by {
                    assert(pre[j] == keys[j]);
                }
            }
        } else {
            let n = keys.len() as int;
            assert(is_route_child(keys, k, n)) by {
                assert forall|j: int| 0 <= j < n implies !lex_lt(k, #[trigger] keys[j]) by {
                    if j < last {
                        assert(pre[j] == keys[j]);
                    }
                }
            }
        }
    }
}

/// The routed child of ascending separators is the unique one with those
/// properties; `k` lies in its bounds.
pub proof fn lemma_route_child(keys: Seq<Seq<u8>>, k: Seq<u8>, lo: Option<Seq<u8>>, hi: Option<Seq<u8>>)
    requires
        bytes_sorted(keys),
        byte_in_bounds(k, lo, hi),
    ensures
        0 <= route_child(keys, k) <= keys.len(),
        forall|j: int| 0 <= j < route_child(keys, k) ==> !lex_lt(k, #[trigger] keys[j]),
        forall|j: int| route_child(keys, k) <= j < keys.len() ==> lex_lt(k, #[trigger] keys[j]),
        byte_in_bounds(k, child_lo(keys, route_child(keys, k), lo), child_hi(keys, route_child(keys, k), hi)),
{
    lemma_route_child_exists(keys, k);
    let c = route_child(keys, k);
    if c > 0 {
        assert(!lex_lt(k, keys[c - 1]));
    }
}

/// Any index with the routed child's properties is the routed child.
pub proof fn lemma_route_child_unique(keys: Seq<Seq<u8>>, k: Seq<u8>, ci: int)
    requires
        bytes_sorted(keys),
        0 <= ci <= keys.len(),
        forall|j: int| 0 <= j < ci ==> !lex_lt(k, #[trigger] keys[j]),
        forall|j: int| ci <= j < keys.len() ==> lex_lt(k, #[trigger] keys[j]),
    ensures
        route_child(keys, k) == ci,
{
    lemma_route_child_exists(keys, k);
    let c = route_child(keys, k);
    if c < ci {
        assert(lex_lt(k, keys[c]));
    } else if ci < c {
        assert(lex_lt(k, keys[ci]));
    }
}

/// The leaf a lookup of `k` reaches in a well-formed subtree, when `k` lies
/// in its bounds: it is the leaf at that position among the subtree's
/// leaves, and looking up, storing or removing `k` touches that leaf alone.
#[verifier::rlimit(40)]
#[verifier::spinoff_prover]
pub proof fn lemma_route_leaf(
    pages: Map<u32, PageImage>,
    pid: u32,
    lo: Option<Seq<u8>>,
    hi: Option<Seq<u8>>,
    d: nat,
    after: Option<u32>,
    k: Seq<u8>,
)
    requires
        ptree_wf(pages, pid, lo, hi, d, after),
        byte_in_bounds(k, lo, hi),
    ensures
        ({
            let (leaf, j) = route_leaf(pages, pid, k, d);
            let ls = ptree_leaves(pages, pid, d);
            let a = leaves_entries(pages, ls.subrange(0, j));
            let c = leaf_entries_at(pages, leaf);
            let b = leaves_entries(pages, ls.subrange(j + 1, ls.len() as int));
            &&& 0 <= j < ls.len()
            &&& ls[j] == leaf
            &&& ptree_entries(pages, pid, d) == a + c + b
            &&& forall|t: int| 0 <= t < a.len() ==> lex_lt(#[trigger] a[t].0, k)
            &&& forall|t: int| 0 <= t < b.len() ==> lex_lt(k, #[trigger] b[t].0)
            &&& byte_entries_sorted(c)
        }),
    decreases d,
{
    lemma_ptree_leaves(pages, pid, lo, hi, d, after);
    lemma_ptree_sorted(pages, pid, lo, hi, d, after);
    lemma_node_shape(pages, pid, lo, hi, d, after);
    match node_at(pages, pid) {
        NodeView::Leaf { .. } => {
            let ls = ptree_leaves(pages, pid, d);
            assert(ls.subrange(0, 0) =~= Seq::<u32>::empty());
            assert(ls.subrange(1, 1) =~= Seq::<u32>::empty());
            assert(leaves_entries(pages, Seq::<u32>::empty()) == Seq::<ByteEntry>::empty());
            assert(ls =~= seq![pid]);
            assert(Seq::<ByteEntry>::empty() + leaf_entries_at(pages, pid) + Seq::<ByteEntry>::empty()
                =~= leaf_entries_at(pages, pid));
        },
        NodeView::Internal { keys, children } => {
            let e = (d - 1) as nat;
            lemma_route_child(keys, k, lo, hi);
            let ci = route_child(keys, k);
            lemma_ptree_descend(pages, pid, lo, hi, d, after, ci, k, Seq::empty());
            lemma_route_leaf(
                pages,
                children[ci],
                child_lo(keys, ci, lo),
                child_hi(keys, ci, hi),
                e,
                next_after(pages, children, ci, e, after),
                k,
            );
            lemma_route_compose(pages, pid, lo, hi, d, after, k);
        },
    }
}

/// The induction step of `lemma_route_leaf` at an internal node.
#[verifier::rlimit(40)]
#[verifier::spinoff_prover]
proof fn lemma_route_compose(
    pages: Map<u32, PageImage>,
    pid: u32,
    lo: Option<Seq<u8>>,
    hi: Option<Seq<u8>>,
    d: nat,
    after: Option<u32>,
    k: Seq<u8>,
)
    requires
        ptree_wf(pages, pid, lo, hi, d, after),
        node_at(pages, pid) is Internal,
        d > 1,
        node_at(pages, pid)->Internal_children.len() == node_at(pages, pid)->Internal_keys.len() + 1,
        ({
            let keys = node_at(pages, pid)->Internal_keys;
            let cs = node_at(pages, pid)->Internal_children;
            let e = (d - 1) as nat;
            let ci = route_child(keys, k);
            let a = ptree_run_entries(pages, cs.subrange(0, ci), e);
            let c = ptree_entries(pages, cs[ci], e);
            let b = ptree_run_entries(pages, cs.subrange(ci + 1, cs.len() as int), e);
            let (leaf, jc) = route_leaf(pages, cs[ci], k, e);
            let cl = ptree_leaves(pages, cs[ci], e);
            let ca = leaves_entries(pages, cl.subrange(0, jc));
            let cc = leaf_entries_at(pages, leaf);
            let cb = leaves_entries(pages, cl.subrange(jc + 1, cl.len() as int));
            &&& 0 <= ci <= keys.len()
            &&& forall|i: int|
                0 <= i < cs.len() ==> ptree_wf(
                    pages,
                    #[trigger] cs[i],
                    child_lo(keys, i, lo),
                    child_hi(keys, i, hi),
                    e,
                    next_after(pages, cs, i, e, after),
                )
            &&& ptree_entries(pages, pid, d) == a + c + b
            &&& forall|t: int| 0 <= t < a.len() ==> lex_lt(#[trigger] a[t].0, k)
            &&& forall|t: int| 0 <= t < b.len() ==> lex_lt(k, #[trigger] b[t].0)
            &&& ptree_leaves(pages, pid, d) == ptree_run_leaves(pages, cs.subrange(0, ci), e) + cl
                + ptree_run_leaves(pages, cs.subrange(ci + 1, cs.len() as int), e)
            &&& 0 <= jc < cl.len()
            &&& cl[jc] == leaf
            &&& c == ca + cc + cb
            &&& forall|t: int| 0 <= t < ca.len() ==> lex_lt(#[trigger] ca[t].0, k)
            &&& forall|t: int| 0 <= t < cb.len() ==> lex_lt(k, #[trigger] cb[t].0)
            &&& byte_entries_sorted(cc)
        }),
    ensures
        ({
            let (leaf, j) = route_leaf(pages, pid, k, d);
            let ls = ptree_leaves(pages, pid, d);
            let a = leaves_entries(pages, ls.subrange(0, j));
            let c = leaf_entries_at(pages, leaf);
            let b = leaves_entries(pages, ls.subrange(j + 1, ls.len() as int));
            &&& 0 <= j < ls.len()
            &&& ls[j] == leaf
            &&& ptree_entries(pages, pid, d) == a + c + b
            &&& forall|t: int| 0 <= t < a.len() ==> lex_lt(#[trigger] a[t].0, k)
            &&& forall|t: int| 0 <= t < b.len() ==> lex_lt(k, #[trigger] b[t].0)
            &&& byte_entries_sorted(c)
        }),
{
    let keys = node_at(pages, pid)->Internal_keys;
    let children = node_at(pages, pid)->Internal_children;
    let e = (d - 1) as nat;
    let ci = route_child(keys, k);
    let cpid = children[ci];
    let (leaf, jc) = route_leaf(pages, cpid, k, e);
    let pre = children.subrange(0, ci);
    let post = children.subrange(ci + 1, children.len() as int);
    let rl_pre = ptree_run_leaves(pages, pre, e);
    let rl_post = ptree_run_leaves(pages, post, e);
    let cl = ptree_leaves(pages, cpid, e);
    let ls = ptree_leaves(pages, pid, d);
    let j = rl_pre.len() + jc;
    assert(route_leaf(pages, pid, k, d) == (leaf, j));
    assert(ls[j] == cl[jc]);
    if ci > 0 {
        lemma_ptree_run_leaves(pages, keys, children, lo, hi, e, after, 0, ci);
    } else {
        assert(pre =~= Seq::<u32>::empty());
        assert(ptree_run_leaves(pages, Seq::<u32>::empty(), e) == Seq::<u32>::empty());
        assert(ptree_run_entries(pages, Seq::<u32>::empty(), e) == Seq::<ByteEntry>::empty());
        assert(leaves_entries(pages, Seq::<u32>::empty()) == Seq::<ByteEntry>::empty());
    }
    if ci + 1 < children.len() {
        lemma_ptree_run_leaves(pages, keys, children, lo, hi, e, after, ci + 1, children.len() as int);
    } else {
        assert(post =~= Seq::<u32>::empty());
        assert(ptree_run_leaves(pages, Seq::<u32>::empty(), e) == Seq::<u32>::empty());
        assert(ptree_run_entries(pages, Seq::<u32>::empty(), e) == Seq::<ByteEntry>::empty());
        assert(leaves_entries(pages, Seq::<u32>::empty()) == Seq::<ByteEntry>::empty());
    }
    assert(ls.subrange(0, j) =~= rl_pre + cl.subrange(0, jc));
    assert(ls.subrange(j + 1, ls.len() as int) =~= cl.subrange(jc + 1, cl.len() as int) + rl_post);
    lemma_leaves_entries_add(pages, rl_pre, cl.subrange(0, jc));
    lemma_leaves_entries_add(pages, cl.subrange(jc + 1, cl.len() as int), rl_post);
    let ca = leaves_entries(pages, cl.subrange(0, jc));
    let cb = leaves_entries(pages, cl.subrange(jc + 1, cl.len() as int));
    let big_a = ptree_run_entries(pages, pre, e);
    let big_b = ptree_run_entries(pages, post, e);
    let c = leaf_entries_at(pages, leaf);
    assert(ptree_entries(pages, pid, d) =~= (big_a + ca) + c + (cb + big_b));
    let a = leaves_entries(pages, ls.subrange(0, j));
    let b = leaves_entries(pages, ls.subrange(j + 1, ls.len() as int));
    assert(a == big_a + ca);
    assert(b == cb + big_b);
    assert forall|t: int| 0 <= t < a.len() implies lex_lt(#[trigger] a[t].0, k) by {
        if t < big_a.len() {
            assert(a[t] == big_a[t]);
        } else {
            assert(a[t] == ca[t - big_a.len()]);
        }
    }
    assert forall|t: int| 0 <= t < b.len() implies lex_lt(k, #[trigger] b[t].0) by {
        if t < cb.len() {
            assert(b[t] == cb[t]);
        } else {
            assert(b[t] == big_b[t - cb.len()]);
        }
    }
}

/// An entry of sorted entries is what a lookup of its key gives.
pub proof fn lemma_byte_lookup_at(es: Seq<ByteEntry>, i: int, k: Seq<u8>)
    requires
        byte_entries_sorted(es),
        0 <= i < es.len(),
        es[i].0 == k,
    ensures
        byte_lookup(es, k) == Some(es[i].1),
{
    assert forall|j: int| i <= j < es.len() implies !lex_lt(#[trigger] es[j].0, k) by {
        lemma_lex_order(k, k, k);
        if j > i {
            assert(lex_lt(es[i].0, es[j].0));
            lemma_lex_order(k, es[j].0, k);
        }
    }
    assert(is_byte_split_point(es, k, i));
    lemma_byte_split_unique(es, k, i);
}

/// The entries of leaf `t` of `ls` sit in the entries of all of `ls` after
/// those of the leaves before it.
pub proof fn lemma_leaf_offset(pages: Map<u32, PageImage>, ls: Seq<u32>, t: int, i: int)
    requires
        0 <= t < ls.len(),
        0 <= i < leaf_entries_at(pages, ls[t]).len(),
    ensures
        leaves_entries(pages, ls.subrange(0, t)).len() + i < leaves_entries(pages, ls).len(),
        leaves_entries(pages, ls)[leaves_entries(pages, ls.subrange(0, t)).len() + i] == leaf_entries_at(
            pages,
            ls[t],
        )[i],
{
    let pre = ls.subrange(0, t);
    let post = ls.subrange(t + 1, ls.len() as int);
    assert(ls =~= pre + seq![ls[t]] + post);
    lemma_leaves_entries_add(pages, pre + seq![ls[t]], post);
    lemma_leaves_entries_add(pages, pre, seq![ls[t]]);
    assert(seq![ls[t]].drop_last() =~= Seq::<u32>::empty());
    assert(leaves_entries(pages, Seq::<u32>::empty()) == Seq::<ByteEntry>::empty());
    assert(leaves_entries(pages, seq![ls[t]]) =~= leaf_entries_at(pages, ls[t]));
}

} // verus!
