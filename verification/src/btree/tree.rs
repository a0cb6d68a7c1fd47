//! The in-memory B+Tree.
use super::error::BTreeError;
use super::node::{
    compare_keys, key_laws, key_lt, lemma_key_order, lower_bound, KeyOrder, Node, ORDER,
};
use vstd::prelude::*;

verus! {

/// Keys strictly ascending.
pub open spec fn keys_sorted<K: Ord>(ks: Seq<K>) -> bool {
    forall|i: int, j: int| 0 <= i < j < ks.len() ==> key_lt(#[trigger] ks[i], #[trigger] ks[j])
}

/// Entry keys strictly ascending.
pub open spec fn entries_sorted<K: Ord, V>(es: Seq<(K, V)>) -> bool {
    forall|i: int, j: int| 0 <= i < j < es.len() ==> key_lt(#[trigger] es[i].0, #[trigger] es[j].0)
}

/// `k` lies in `[lo, hi)`; a missing bound is no bound.
pub open spec fn in_bounds<K: Ord>(k: K, lo: Option<K>, hi: Option<K>) -> bool {
    &&& (lo matches Some(l) ==> !key_lt(k, l))
    &&& (hi matches Some(h) ==> key_lt(k, h))
}

/// Every entry key lies in `[lo, hi)`.
pub open spec fn entries_within<K: Ord, V>(es: Seq<(K, V)>, lo: Option<K>, hi: Option<K>) -> bool {
    forall|i: int| 0 <= i < es.len() ==> in_bounds(#[trigger] es[i].0, lo, hi)
}

/// Lower bound of child `i` of an internal node with separators `keys`
/// inside `[lo, hi)`.
pub open spec fn child_lo<K>(keys: Seq<K>, i: int, lo: Option<K>) -> Option<K> {
    if i == 0 {
        lo
    } else {
        Some(keys[i - 1])
    }
}

/// Upper bound of child `i` of an internal node with separators `keys`
/// inside `[lo, hi)`.
pub open spec fn child_hi<K>(keys: Seq<K>, i: int, hi: Option<K>) -> Option<K> {
    if i < keys.len() {
        Some(keys[i])
    } else {
        hi
    }
}

/// A well-formed subtree whose keys lie in `[lo, hi)`: keys ascend in every
/// node, a leaf has a value per key, an internal node has one child more
/// than keys, and child `i` lies between separators `i - 1` and `i`.
pub open spec fn node_wf<K: Ord, V>(n: Node<K, V>, lo: Option<K>, hi: Option<K>) -> bool
    decreases n,
{
    match n {
        Node::Leaf { keys, values } => {
            &&& keys@.len() == values@.len()
            &&& keys_sorted(keys@)
            &&& forall|i: int| 0 <= i < keys@.len() ==> in_bounds(#[trigger] keys@[i], lo, hi)
        },
        Node::Internal { keys, children } => {
            &&& children@.len() == keys@.len() + 1
            &&& keys_sorted(keys@)
            &&& forall|i: int| 0 <= i < keys@.len() ==> in_bounds(#[trigger] keys@[i], lo, hi)
            &&& forall|i: int|
                0 <= i < children@.len() ==> node_wf(
                    *#[trigger] children@[i],
                    child_lo(keys@, i, lo),
                    child_hi(keys@, i, hi),
                )
        },
    }
}

/// Height of a subtree along its leftmost path; a leaf has height 1.
pub open spec fn node_height<K, V>(n: Node<K, V>) -> nat
    decreases n,
{
    match n {
        Node::Leaf { .. } => 1,
        Node::Internal { children, .. } => if children@.len() == 0 {
            1
        } else {
            1 + node_height(*children@[0])
        },
    }
}

/// Every leaf below `n` lies `d - 1` levels down: a leaf is balanced at
/// depth 1, an internal node at `d` when it has children and each of them is
/// balanced at `d - 1`.
pub open spec fn balanced_at<K, V>(n: Node<K, V>, d: nat) -> bool
    decreases n,
{
    match n {
        Node::Leaf { .. } => d == 1,
        Node::Internal { children, .. } => {
            &&& d >= 2
            &&& children@.len() >= 1
            &&& forall|i: int|
                0 <= i < children@.len() ==> balanced_at(*#[trigger] children@[i], (d - 1) as nat)
        },
    }
}

/// A subtree balanced at `d` has height `d`.
proof fn lemma_balanced_height<K, V>(n: Node<K, V>, d: nat)
    requires
        balanced_at(n, d),
    ensures
        node_height(n) == d,
    decreases n,
{
    if let Node::Internal { children, .. } = n {
        assert(balanced_at(*children@[0], (d - 1) as nat));
        lemma_balanced_height(*children@[0], (d - 1) as nat);
    }
}

/// `i` splits the sorted entries `es` at `k`: entries before `i` sort below
/// `k`, the others do not.
pub open spec fn is_split_point<K: Ord, V>(es: Seq<(K, V)>, k: K, i: int) -> bool {
    &&& 0 <= i <= es.len()
    &&& forall|j: int| 0 <= j < i ==> key_lt(#[trigger] es[j].0, k)
    &&& forall|j: int| i <= j < es.len() ==> !key_lt(#[trigger] es[j].0, k)
}

/// Where `k` goes in the sorted entries `es`.
pub open spec fn split_point<K: Ord, V>(es: Seq<(K, V)>, k: K) -> int {
    choose|i: int| is_split_point(es, k, i)
}

/// Whether `es` holds an entry with key `k` at position `i`.
pub open spec fn has_key_at<K, V>(es: Seq<(K, V)>, k: K, i: int) -> bool {
    0 <= i < es.len() && es[i].0 == k
}

/// The value stored with `k` in the sorted entries `es`.
pub open spec fn lookup<K: Ord, V>(es: Seq<(K, V)>, k: K) -> Option<V> {
    let i = split_point(es, k);
    if has_key_at(es, k, i) {
        Some(es[i].1)
    } else {
        None
    }
}

/// The sorted entries `es` with `(k, v)` stored: an entry with key `k` is
/// replaced, else the entry goes in key order.
pub open spec fn put<K: Ord, V>(es: Seq<(K, V)>, k: K, v: V) -> Seq<(K, V)> {
    let i = split_point(es, k);
    if has_key_at(es, k, i) {
        es.update(i, (k, v))
    } else {
        es.insert(i, (k, v))
    }
}

/// The sorted entries `es` without an entry for `k`.
pub open spec fn remove_key<K: Ord, V>(es: Seq<(K, V)>, k: K) -> Seq<(K, V)> {
    let i = split_point(es, k);
    if has_key_at(es, k, i) {
        es.remove(i)
    } else {
        es
    }
}

/// `k` lies in the scan range `[start, end)`; a missing bound is no bound.
pub open spec fn in_range<K: Ord>(k: K, start: Option<K>, end: Option<K>) -> bool {
    in_bounds(k, start, end)
}

/// The entries of `es` whose keys lie in `[start, end)`, in order.
pub open spec fn range_entries<K: Ord, V>(es: Seq<(K, V)>, start: Option<K>, end: Option<K>) -> Seq<
    (K, V),
> {
    es.filter(|e: (K, V)| in_range(e.0, start, end))
}

/// Entries of a concatenation of children runs.
proof fn lemma_entries_of_add<K, V>(a: Seq<Box<Node<K, V>>>, b: Seq<Box<Node<K, V>>>)
    ensures
        Node::<K, V>::entries_of(a + b) == Node::<K, V>::entries_of(a) + Node::<K, V>::entries_of(
            b,
        ),
    decreases b.len(),
{
    if b.len() == 0 {
        assert(a + b =~= a);
        assert(Node::<K, V>::entries_of(b) =~= Seq::empty());
    } else {
        let ab = a + b;
        assert(ab.subrange(0, ab.len() - 1) =~= a + b.subrange(0, b.len() - 1));
        lemma_entries_of_add(a, b.subrange(0, b.len() - 1));
        assert(ab[ab.len() - 1] == b[b.len() - 1]);
    }
}

/// Entries of a single child.
proof fn lemma_entries_of_one<K, V>(c: Box<Node<K, V>>)
    ensures
        Node::<K, V>::entries_of(seq![c]) == c.entries(),
{
    assert(seq![c].subrange(0, 0) =~= Seq::<Box<Node<K, V>>>::empty());
    assert(Node::<K, V>::entries_of(Seq::<Box<Node<K, V>>>::empty()) =~= Seq::empty());
    assert(Seq::<(K, V)>::empty() + c.entries() =~= c.entries());
}

/// `a < b <= c` gives `a < c`; `a <= b < c` gives `a < c`; `a <= b <= c`
/// gives `a <= c`.
proof fn lemma_order_steps<K: Ord + Clone>(a: K, b: K, c: K)
    requires
        key_laws::<K>(),
    ensures
        key_lt(a, b) && !key_lt(c, b) ==> key_lt(a, c),
        !key_lt(b, a) && key_lt(b, c) ==> key_lt(a, c),
        !key_lt(b, a) && !key_lt(c, b) ==> !key_lt(c, a),
{
    lemma_key_order::<K>();
}

/// A well-formed subtree's entries ascend and lie in its bounds.
proof fn lemma_wf_entries<K: Ord + Clone, V>(n: Node<K, V>, lo: Option<K>, hi: Option<K>)
    requires
        key_laws::<K>(),
        node_wf(n, lo, hi),
    ensures
        entries_sorted(n.entries()),
        entries_within(n.entries(), lo, hi),
    decreases n,
{
    match n {
        Node::Leaf { keys, values } => {},
        Node::Internal { keys, children } => {
            lemma_wf_children(keys@, children@, lo, hi, 0);
        },
    }
}

/// A run of children `cs` of a well-formed internal node, starting at
/// child `b`: its entries ascend and lie between the lower bound of its
/// first child and the upper bound of its last.
proof fn lemma_wf_children<K: Ord + Clone, V>(
    keys: Seq<K>,
    cs: Seq<Box<Node<K, V>>>,
    lo: Option<K>,
    hi: Option<K>,
    b: int,
)
    requires
        key_laws::<K>(),
        0 <= b,
        1 <= cs.len(),
        b + cs.len() <= keys.len() + 1,
        keys_sorted(keys),
        forall|i: int| 0 <= i < keys.len() ==> in_bounds(#[trigger] keys[i], lo, hi),
        forall|i: int|
            0 <= i < cs.len() ==> node_wf(
                *#[trigger] cs[i],
                child_lo(keys, b + i, lo),
                child_hi(keys, b + i, hi),
            ),
    ensures
        entries_sorted(Node::<K, V>::entries_of(cs)),
        entries_within(
            Node::<K, V>::entries_of(cs),
            child_lo(keys, b, lo),
            child_hi(keys, b + cs.len() - 1, hi),
        ),
    decreases cs,
{
    let last = cs.len() - 1;
    let pre = cs.subrange(0, last);
    let es = Node::<K, V>::entries_of(cs);
    let le = cs[last].entries();
    lemma_wf_entries(*cs[last], child_lo(keys, b + last, lo), child_hi(keys, b + last, hi));
    if last == 0 {
        assert(pre =~= Seq::<Box<Node<K, V>>>::empty());
        assert(Node::<K, V>::entries_of(pre) =~= Seq::empty());
        assert(es =~= le);
    } else {
        assert forall|i: int| 0 <= i < pre.len() implies node_wf(
            *#[trigger] pre[i],
            child_lo(keys, b + i, lo),
            child_hi(keys, b + i, hi),
        ) by {
            assert(pre[i] == cs[i]);
        }
        lemma_wf_children(keys, pre, lo, hi, b);
        let pe = Node::<K, V>::entries_of(pre);
        let sep = keys[b + last - 1];
        let lb = child_lo(keys, b, lo);
        let hb = child_hi(keys, b + last, hi);
        assert(es == pe + le);
        assert(in_bounds(sep, lo, hi));
        if b + last < keys.len() {
            assert(key_lt(sep, keys[b + last]));
        }
        if b > 0 {
            assert(key_lt(keys[b - 1], sep));
        }
        assert forall|i: int, j: int| 0 <= i < j < es.len() implies key_lt(
            #[trigger] es[i].0,
            #[trigger] es[j].0,
        ) by {
            if j >= pe.len() && i < pe.len() {
                assert(es[i] == pe[i]);
                assert(es[j] == le[j - pe.len()]);
                assert(in_bounds(pe[i].0, lb, Some(sep)));
                assert(in_bounds(le[j - pe.len()].0, Some(sep), hb));
                lemma_order_steps(pe[i].0, sep, le[j - pe.len()].0);
            } else if j < pe.len() {
                assert(es[i] == pe[i]);
                assert(es[j] == pe[j]);
            } else {
                assert(es[i] == le[i - pe.len()]);
                assert(es[j] == le[j - pe.len()]);
            }
        }
        assert forall|i: int| 0 <= i < es.len() implies in_bounds(#[trigger] es[i].0, lb, hb) by {
            lemma_key_order::<K>();
            if i < pe.len() {
                assert(es[i] == pe[i]);
                assert(in_bounds(pe[i].0, lb, Some(sep)));
                if let Some(h) = hb {
                    lemma_order_steps(pe[i].0, sep, h);
                }
            } else {
                assert(es[i] == le[i - pe.len()]);
                assert(in_bounds(le[i - pe.len()].0, Some(sep), hb));
                if let Some(l) = lb {
                    lemma_order_steps(l, sep, le[i - pe.len()].0);
                }
            }
        }
    }
}

/// The entries of the children of `cs` from `a` to `b` (excluded).
pub open spec fn run_entries<K, V>(cs: Seq<Box<Node<K, V>>>, a: int, b: int) -> Seq<(K, V)> {
    Node::<K, V>::entries_of(cs.subrange(a, b))
}

/// The entries of a well-formed internal node around child `ci`: the
/// children before it hold keys below separator `ci - 1`, those after it
/// keys at or above separator `ci`.
proof fn lemma_route<K: Ord + Clone, V>(
    keys: Seq<K>,
    cs: Seq<Box<Node<K, V>>>,
    lo: Option<K>,
    hi: Option<K>,
    ci: int,
)
    requires
        key_laws::<K>(),
        cs.len() == keys.len() + 1,
        keys_sorted(keys),
        forall|i: int| 0 <= i < keys.len() ==> in_bounds(#[trigger] keys[i], lo, hi),
        forall|i: int|
            0 <= i < cs.len() ==> node_wf(*#[trigger] cs[i], child_lo(keys, i, lo), child_hi(keys, i, hi)),
        0 <= ci < cs.len(),
    ensures
        Node::<K, V>::entries_of(cs) == run_entries(cs, 0, ci) + cs[ci].entries() + run_entries(
            cs,
            ci + 1,
            cs.len() as int,
        ),
        ci > 0 ==> entries_within(run_entries(cs, 0, ci), lo, Some(keys[ci - 1])),
        ci + 1 < cs.len() ==> entries_within(run_entries(cs, ci + 1, cs.len() as int), Some(keys[ci]), hi),
        entries_sorted(cs[ci].entries()),
        entries_within(cs[ci].entries(), child_lo(keys, ci, lo), child_hi(keys, ci, hi)),
{
    let pre = cs.subrange(0, ci);
    let post = cs.subrange(ci + 1, cs.len() as int);
    assert(cs =~= pre + seq![cs[ci]] + post);
    lemma_entries_of_add(pre + seq![cs[ci]], post);
    lemma_entries_of_add(pre, seq![cs[ci]]);
    lemma_entries_of_one(cs[ci]);
    lemma_wf_entries(*cs[ci], child_lo(keys, ci, lo), child_hi(keys, ci, hi));
    if ci > 0 {
        assert forall|i: int| 0 <= i < pre.len() implies node_wf(
            *#[trigger] pre[i],
            child_lo(keys, 0 + i, lo),
            child_hi(keys, 0 + i, hi),
        ) by {
            assert(pre[i] == cs[i]);
        }
        lemma_wf_children(keys, pre, lo, hi, 0);
    }
    if ci + 1 < cs.len() {
        assert forall|i: int| 0 <= i < post.len() implies node_wf(
            *#[trigger] post[i],
            child_lo(keys, ci + 1 + i, lo),
            child_hi(keys, ci + 1 + i, hi),
        ) by {
            assert(post[i] == cs[ci + 1 + i]);
        }
        lemma_wf_children(keys, post, lo, hi, ci + 1);
    }
}

/// Sorted entries have a split point at every key.
proof fn lemma_split_point_exists<K: Ord + Clone, V>(es: Seq<(K, V)>, k: K)
    requires
        key_laws::<K>(),
        entries_sorted(es),
    ensures
        is_split_point(es, k, split_point(es, k)),
    decreases es.len(),
{
    lemma_key_order::<K>();
    if es.len() == 0 {
        assert(is_split_point(es, k, 0));
    } else {
        let pre = es.drop_last();
        lemma_split_point_exists(pre, k);
        let i = split_point(pre, k);
        let last = es.len() - 1;
        if i < last {
            assert forall|j: int| i <= j < es.len() implies !key_lt(#[trigger] es[j].0, k) by {
                if j == last {
                    assert(pre[i] == es[i]);
                    assert(key_lt(es[i].0, es[last].0));
                } else {
                    assert(pre[j] == es[j]);
                }
            }
            assert forall|j: int| 0 <= j < i implies key_lt(#[trigger] es[j].0, k) by {
                assert(pre[j] == es[j]);
            }
            assert(is_split_point(es, k, i));
        } else if key_lt(es[last].0, k) {
            assert forall|j: int| 0 <= j < es.len() implies key_lt(#[trigger] es[j].0, k) by {
                if j < last {
                    assert(pre[j] == es[j]);
                }
            }
            assert(is_split_point(es, k, es.len() as int));
        } else {
            assert forall|j: int| 0 <= j < last implies key_lt(#[trigger] es[j].0, k) by {
                assert(pre[j] == es[j]);
            }
            assert(is_split_point(es, k, last));
        }
    }
}

/// A split point is the split point.
proof fn lemma_split_point_unique<K: Ord + Clone, V>(es: Seq<(K, V)>, k: K, i: int)
    requires
        is_split_point(es, k, i),
    ensures
        split_point(es, k) == i,
{
    let c = split_point(es, k);
    assert(is_split_point(es, k, c));
    if c < i {
        assert(key_lt(es[c].0, k));
    } else if i < c {
        assert(key_lt(es[i].0, k));
    }
}

/// Looking up, storing or removing `k` in entries `a + c + b` whose part `a`
/// sorts below `k` and whose part `b` sorts above it touches `c` alone.
proof fn lemma_middle<K: Ord + Clone, V>(a: Seq<(K, V)>, c: Seq<(K, V)>, b: Seq<(K, V)>, k: K, v: V)
    requires
        key_laws::<K>(),
        entries_sorted(c),
        forall|j: int| 0 <= j < a.len() ==> key_lt(#[trigger] a[j].0, k),
        forall|j: int| 0 <= j < b.len() ==> key_lt(k, #[trigger] b[j].0),
    ensures
        split_point(a + c + b, k) == a.len() + split_point(c, k),
        lookup(a + c + b, k) == lookup(c, k),
        put(a + c + b, k, v) == a + put(c, k, v) + b,
        remove_key(a + c + b, k) == a + remove_key(c, k) + b,
{
    lemma_key_order::<K>();
    let es = a + c + b;
    lemma_split_point_exists(c, k);
    let i = split_point(c, k);
    let p = a.len() + i;
    assert forall|j: int| 0 <= j < p implies key_lt(#[trigger] es[j].0, k) by {
        if j < a.len() {
            assert(es[j] == a[j]);
        } else {
            assert(es[j] == c[j - a.len()]);
        }
    }
    assert forall|j: int| p <= j < es.len() implies !key_lt(#[trigger] es[j].0, k) by {
        if j < a.len() + c.len() {
            assert(es[j] == c[j - a.len()]);
        } else {
            assert(es[j] == b[j - a.len() - c.len()]);
        }
    }
    lemma_split_point_unique(es, k, p);
    if i < c.len() {
        assert(es[p] == c[i]);
    } else if b.len() > 0 {
        assert(es[p] == b[0]);
    }
    assert(has_key_at(es, k, p) == has_key_at(c, k, i));
    if has_key_at(c, k, i) {
        assert(es.update(p, (k, v)) =~= a + c.update(i, (k, v)) + b);
        assert(es.remove(p) =~= a + c.remove(i) + b);
    } else {
        assert(es.insert(p, (k, v)) =~= a + c.insert(i, (k, v)) + b);
    }
}

/// Inserting `k` at its split point `idx` of the ascending keys `ks`, where
/// `k` is absent and lies in `[lo, hi)`, keeps them ascending and in bounds.
proof fn lemma_insert_key<K: Ord + Clone>(ks: Seq<K>, k: K, idx: int, lo: Option<K>, hi: Option<K>)
    requires
        key_laws::<K>(),
        keys_sorted(ks),
        forall|i: int| 0 <= i < ks.len() ==> in_bounds(#[trigger] ks[i], lo, hi),
        in_bounds(k, lo, hi),
        0 <= idx <= ks.len(),
        forall|j: int| 0 <= j < idx ==> key_lt(#[trigger] ks[j], k),
        forall|j: int| idx <= j < ks.len() ==> key_lt(k, #[trigger] ks[j]),
    ensures
        keys_sorted(ks.insert(idx, k)),
        forall|i: int| 0 <= i < ks.len() + 1 ==> in_bounds(#[trigger] ks.insert(idx, k)[i], lo, hi),
{
    lemma_key_order::<K>();
    let ks2 = ks.insert(idx, k);
    assert forall|i: int, j: int| 0 <= i < j < ks2.len() implies key_lt(
        #[trigger] ks2[i],
        #[trigger] ks2[j],
    ) by {
        if j < idx {
            assert(key_lt(ks[i], ks[j]));
        } else if j == idx {
            assert(key_lt(ks[i], k));
        } else if i < idx {
            assert(key_lt(ks[i], ks[j - 1]));
        } else if i == idx {
            assert(key_lt(k, ks[j - 1]));
        } else {
            assert(key_lt(ks[i - 1], ks[j - 1]));
        }
    }
    assert forall|i: int| 0 <= i < ks.len() + 1 implies in_bounds(#[trigger] ks2[i], lo, hi) by {
        if i < idx {
            assert(ks2[i] == ks[i]);
        } else if i > idx {
            assert(ks2[i] == ks[i - 1]);
        }
    }
}

/// Replacing child `ci` of a well-formed internal node by a node with the
/// same bounds keeps it well formed, and the entries change only there.
proof fn lemma_replace_child<K: Ord + Clone, V>(
    ks: Seq<K>,
    cs: Seq<Box<Node<K, V>>>,
    lo: Option<K>,
    hi: Option<K>,
    ci: int,
    c2: Box<Node<K, V>>,
)
    requires
        key_laws::<K>(),
        cs.len() == ks.len() + 1,
        keys_sorted(ks),
        forall|i: int| 0 <= i < ks.len() ==> in_bounds(#[trigger] ks[i], lo, hi),
        forall|i: int|
            0 <= i < cs.len() ==> node_wf(*#[trigger] cs[i], child_lo(ks, i, lo), child_hi(ks, i, hi)),
        0 <= ci < cs.len(),
        node_wf(*c2, child_lo(ks, ci, lo), child_hi(ks, ci, hi)),
    ensures
        forall|i: int|
            0 <= i < cs.len() ==> node_wf(
                *#[trigger] cs.update(ci, c2)[i],
                child_lo(ks, i, lo),
                child_hi(ks, i, hi),
            ),
        Node::<K, V>::entries_of(cs.update(ci, c2)) == run_entries(cs, 0, ci) + c2.entries()
            + run_entries(cs, ci + 1, cs.len() as int),
{
    let cs2 = cs.update(ci, c2);
    assert forall|i: int| 0 <= i < cs2.len() implies node_wf(
        *#[trigger] cs2[i],
        child_lo(ks, i, lo),
        child_hi(ks, i, hi),
    ) by {
        if i != ci {
            assert(cs2[i] == cs[i]);
        }
    }
    assert(cs2.subrange(0, ci) =~= cs.subrange(0, ci));
    assert(cs2.subrange(ci + 1, cs2.len() as int) =~= cs.subrange(ci + 1, cs.len() as int));
    lemma_route(ks, cs2, lo, hi, ci);
}

/// Replacing child `ci` of a well-formed internal node by the two halves of
/// its split, with the separator between them, keeps it well formed, and the
/// entries change only there.
proof fn lemma_absorb_split<K: Ord + Clone, V>(
    ks: Seq<K>,
    cs: Seq<Box<Node<K, V>>>,
    lo: Option<K>,
    hi: Option<K>,
    ci: int,
    left: Box<Node<K, V>>,
    sep: K,
    right: Box<Node<K, V>>,
)
    requires
        key_laws::<K>(),
        cs.len() == ks.len() + 1,
        keys_sorted(ks),
        forall|i: int| 0 <= i < ks.len() ==> in_bounds(#[trigger] ks[i], lo, hi),
        forall|i: int|
            0 <= i < cs.len() ==> node_wf(*#[trigger] cs[i], child_lo(ks, i, lo), child_hi(ks, i, hi)),
        0 <= ci < cs.len(),
        node_wf(*left, child_lo(ks, ci, lo), Some(sep)),
        node_wf(*right, Some(sep), child_hi(ks, ci, hi)),
        in_bounds(sep, child_lo(ks, ci, lo), child_hi(ks, ci, hi)),
        child_lo(ks, ci, lo) matches Some(l) ==> key_lt(l, sep),
    ensures
        ({
            let ks2 = ks.insert(ci, sep);
            let cs2 = cs.subrange(0, ci) + seq![left, right] + cs.subrange(ci + 1, cs.len() as int);
            &&& cs2.len() == ks2.len() + 1
            &&& keys_sorted(ks2)
            &&& forall|i: int| 0 <= i < ks2.len() ==> in_bounds(#[trigger] ks2[i], lo, hi)
            &&& forall|i: int|
                0 <= i < cs2.len() ==> node_wf(
                    *#[trigger] cs2[i],
                    child_lo(ks2, i, lo),
                    child_hi(ks2, i, hi),
                )
            &&& Node::<K, V>::entries_of(cs2) == run_entries(cs, 0, ci) + left.entries()
                + right.entries() + run_entries(cs, ci + 1, cs.len() as int)
        }),
{
    lemma_key_order::<K>();
    let ks2 = ks.insert(ci, sep);
    let pre = cs.subrange(0, ci);
    let post = cs.subrange(ci + 1, cs.len() as int);
    let cs2 = pre + seq![left, right] + post;
    assert forall|i: int, j: int| 0 <= i < j < ks2.len() implies key_lt(
        #[trigger] ks2[i],
        #[trigger] ks2[j],
    ) by {
        if j < ci {
            assert(key_lt(ks[i], ks[j]));
        } else if j == ci {
            assert(key_lt(ks[ci - 1], sep));
            if i < ci - 1 {
                assert(key_lt(ks[i], ks[ci - 1]));
            }
        } else if i < ci {
            assert(key_lt(ks[i], ks[j - 1]));
        } else if i == ci {
            assert(key_lt(sep, ks[ci]));
            if j - 1 > ci {
                assert(key_lt(ks[ci], ks[j - 1]));
            }
        } else {
            assert(key_lt(ks[i - 1], ks[j - 1]));
        }
    }
    assert forall|i: int| 0 <= i < ks2.len() implies in_bounds(#[trigger] ks2[i], lo, hi) by {
        if i < ci {
            assert(ks2[i] == ks[i]);
        } else if i > ci {
            assert(ks2[i] == ks[i - 1]);
        } else {
            if ci > 0 {
                assert(in_bounds(ks[ci - 1], lo, hi));
                if let Some(l) = lo {
                    lemma_order_steps(l, ks[ci - 1], sep);
                }
            }
            if ci < ks.len() {
                assert(in_bounds(ks[ci], lo, hi));
                if let Some(h) = hi {
                    lemma_order_steps(sep, ks[ci], h);
                }
            }
        }
    }
    assert forall|i: int| 0 <= i < cs2.len() implies node_wf(
        *#[trigger] cs2[i],
        child_lo(ks2, i, lo),
        child_hi(ks2, i, hi),
    ) by {
        if i < ci {
            assert(cs2[i] == cs[i]);
        } else if i == ci {
            assert(cs2[i] == left);
        } else if i == ci + 1 {
            assert(cs2[i] == right);
        } else {
            assert(cs2[i] == cs[i - 1]);
            assert(child_lo(ks2, i, lo) == child_lo(ks, i - 1, lo));
            assert(child_hi(ks2, i, hi) == child_hi(ks, i - 1, hi));
        }
    }
    lemma_entries_of_add(pre + seq![left, right], post);
    lemma_entries_of_add(pre, seq![left, right]);
    assert(seq![left] + seq![right] =~= seq![left, right]);
    lemma_entries_of_add(seq![left], seq![right]);
    lemma_entries_of_one(left);
    lemma_entries_of_one(right);
}

/// Where key `k` goes in a well-formed internal node: before child `ci` the
/// entries sort below `k`, after it above `k`, and `k` lies in child `ci`'s
/// bounds; so looking up, storing or removing `k` touches child `ci` alone.
proof fn lemma_descend<K: Ord + Clone, V>(
    ks: Seq<K>,
    cs: Seq<Box<Node<K, V>>>,
    lo: Option<K>,
    hi: Option<K>,
    ci: int,
    k: K,
    v: V,
)
    requires
        key_laws::<K>(),
        cs.len() == ks.len() + 1,
        keys_sorted(ks),
        forall|i: int| 0 <= i < ks.len() ==> in_bounds(#[trigger] ks[i], lo, hi),
        forall|i: int|
            0 <= i < cs.len() ==> node_wf(*#[trigger] cs[i], child_lo(ks, i, lo), child_hi(ks, i, hi)),
        0 <= ci < cs.len(),
        in_bounds(k, child_lo(ks, ci, lo), child_hi(ks, ci, hi)),
    ensures
        ({
            let a = run_entries(cs, 0, ci);
            let b = run_entries(cs, ci + 1, cs.len() as int);
            let c = cs[ci].entries();
            &&& Node::<K, V>::entries_of(cs) == a + c + b
            &&& forall|j: int| 0 <= j < a.len() ==> key_lt(#[trigger] a[j].0, k)
            &&& forall|j: int| 0 <= j < b.len() ==> key_lt(k, #[trigger] b[j].0)
            &&& lookup(a + c + b, k) == lookup(c, k)
            &&& put(a + c + b, k, v) == a + put(c, k, v) + b
            &&& remove_key(a + c + b, k) == a + remove_key(c, k) + b
        }),
{
    lemma_key_order::<K>();
    lemma_route(ks, cs, lo, hi, ci);
    let a = run_entries(cs, 0, ci);
    let b = run_entries(cs, ci + 1, cs.len() as int);
    if ci > 0 {
        assert forall|j: int| 0 <= j < a.len() implies key_lt(#[trigger] a[j].0, k) by {
            assert(in_bounds(a[j].0, lo, Some(ks[ci - 1])));
            lemma_order_steps(a[j].0, ks[ci - 1], k);
        }
    } else {
        assert(a =~= Seq::<(K, V)>::empty());
    }
    if ci + 1 < cs.len() {
        assert forall|j: int| 0 <= j < b.len() implies key_lt(k, #[trigger] b[j].0) by {
            assert(in_bounds(b[j].0, Some(ks[ci]), hi));
            lemma_order_steps(k, ks[ci], b[j].0);
        }
    } else {
        assert(b =~= Seq::<(K, V)>::empty());
    }
    lemma_middle(a, cs[ci].entries(), b, k, v);
}

/// The child of an internal node with separators `keys` that `key` belongs
/// to: the first separator not below `key` bounds it, and a separator equal
/// to `key` sends it right.
fn child_index<K: Ord + Clone>(keys: &Vec<K>, key: &K, Ghost(lo): Ghost<Option<K>>, Ghost(hi): Ghost<
    Option<K>,
>) -> (ci: usize)
    requires
        key_laws::<K>(),
        keys_sorted(keys@),
        forall|i: int| 0 <= i < keys@.len() ==> in_bounds(#[trigger] keys@[i], lo, hi),
        in_bounds(*key, lo, hi),
    ensures
        ci <= keys@.len(),
        in_bounds(*key, child_lo(keys@, ci as int, lo), child_hi(keys@, ci as int, hi)),
{
    proof {
        super::node::lemma_sorted_nondecreasing(keys@);
    }
    let idx = lower_bound(keys.as_slice(), key);
    proof {
        lemma_key_order::<K>();
    }
    if idx < keys.len() {
        if let KeyOrder::Equal = compare_keys(&keys[idx], key) {
            proof {
                if idx + 1 < keys@.len() {
                    assert(key_lt(keys@[idx as int], keys@[idx + 1]));
                }
            }
            return idx + 1;
        }
    }
    idx
}

/// The scan range predicate on entries.
pub open spec fn range_pred<K: Ord, V>(start: Option<K>, end: Option<K>) -> spec_fn((K, V)) -> bool {
    |e: (K, V)| in_range(e.0, start, end)
}

/// The key and value behind each pair of references.
pub open spec fn deref_pairs<'a, K, V>(s: Seq<(&'a K, &'a V)>) -> Seq<(K, V)> {
    s.map_values(|p: (&'a K, &'a V)| (*p.0, *p.1))
}

/// The value behind an optional reference.
pub open spec fn opt_val<K>(o: Option<&K>) -> Option<K> {
    match o {
        Some(k) => Some(*k),
        None => None,
    }
}

/// Filtering entries that all fail the predicate leaves nothing.
proof fn lemma_filter_none<A>(s: Seq<A>, pred: spec_fn(A) -> bool)
    requires
        forall|i: int| 0 <= i < s.len() ==> !pred(#[trigger] s[i]),
    ensures
        s.filter(pred) == Seq::<A>::empty(),
    decreases s.len(),
{
    reveal(Seq::filter);
    if s.len() > 0 {
        lemma_filter_none(s.drop_last(), pred);
    }
}

/// Filtering entries that all pass the predicate keeps them all.
proof fn lemma_filter_all<A>(s: Seq<A>, pred: spec_fn(A) -> bool)
    requires
        forall|i: int| 0 <= i < s.len() ==> pred(#[trigger] s[i]),
    ensures
        s.filter(pred) == s,
    decreases s.len(),
{
    reveal(Seq::filter);
    if s.len() > 0 {
        lemma_filter_all(s.drop_last(), pred);
        assert(s.drop_last().push(s.last()) =~= s);
    }
}

/// Filtering a sequence grown by one element.
proof fn lemma_filter_push<A>(s: Seq<A>, x: A, pred: spec_fn(A) -> bool)
    ensures
        s.push(x).filter(pred) == if pred(x) {
            s.filter(pred).push(x)
        } else {
            s.filter(pred)
        },
{
    reveal(Seq::filter);
    assert(s.push(x).drop_last() =~= s);
}

/// The runs of children up to `i + 1` are those up to `i` and child `i`.
proof fn lemma_run_step<K, V>(cs: Seq<Box<Node<K, V>>>, i: int)
    requires
        0 <= i < cs.len(),
    ensures
        run_entries(cs, 0, i + 1) == run_entries(cs, 0, i) + cs[i].entries(),
{
    assert(cs.subrange(0, i + 1) =~= cs.subrange(0, i) + seq![cs[i]]);
    lemma_entries_of_add(cs.subrange(0, i), seq![cs[i]]);
    lemma_entries_of_one(cs[i]);
}

/// The runs of children split at `i`.
proof fn lemma_run_split<K, V>(cs: Seq<Box<Node<K, V>>>, i: int)
    requires
        0 <= i <= cs.len(),
    ensures
        Node::<K, V>::entries_of(cs) == run_entries(cs, 0, i) + run_entries(cs, i, cs.len() as int),
{
    assert(cs =~= cs.subrange(0, i) + cs.subrange(i, cs.len() as int));
    lemma_entries_of_add(cs.subrange(0, i), cs.subrange(i, cs.len() as int));
}

/// Laws of storing: storing `(k, v)` in sorted entries keeps them sorted;
/// `k` then reads back `v`, every other key reads as before, and the count
/// grows by one exactly when `k` was absent.
pub proof fn lemma_put_lookup<K: Ord + Clone, V>(es: Seq<(K, V)>, k: K, v: V, other: K)
    requires
        key_laws::<K>(),
        entries_sorted(es),
    ensures
        entries_sorted(put(es, k, v)),
        lookup(put(es, k, v), k) == Some(v),
        other != k ==> lookup(put(es, k, v), other) == lookup(es, other),
        put(es, k, v).len() == es.len() + (if lookup(es, k) is Some {
            0int
        } else {
            1int
        }),
{
    lemma_key_order::<K>();
    lemma_split_point_exists(es, k);
    let i = split_point(es, k);
    let found = has_key_at(es, k, i);
    let es2 = put(es, k, v);
    if !found && i < es.len() {
        assert(key_lt(k, es[i].0));
    }
    assert forall|a: int, b: int| 0 <= a < b < es2.len() implies key_lt(
        #[trigger] es2[a].0,
        #[trigger] es2[b].0,
    ) by {
        if found {
            if a == i {
                assert(es2[a].0 == es[a].0);
            }
            if b == i {
                assert(es2[b].0 == es[b].0);
            }
        } else {
            let oa = if a < i { a } else { a - 1 };
            let ob = if b < i { b } else { b - 1 };
            if a == i {
                if ob > i {
                    assert(key_lt(es[i].0, es[ob].0));
                }
            } else if b == i {
                assert(es2[a] == es[oa]);
            } else {
                assert(es2[a] == es[oa] && es2[b] == es[ob]);
            }
        }
    }
    assert(is_split_point(es2, k, i)) by {
        assert forall|j: int| 0 <= j < i implies key_lt(#[trigger] es2[j].0, k) by {
            assert(es2[j] == es[j]);
        }
        assert forall|j: int| i <= j < es2.len() implies !key_lt(#[trigger] es2[j].0, k) by {
            if j > i {
                if found {
                    assert(es2[j] == es[j]);
                } else {
                    assert(es2[j] == es[j - 1]);
                }
            }
        }
    }
    lemma_split_point_unique(es2, k, i);
    if other != k {
        lemma_split_point_exists(es, other);
        let j = split_point(es, other);
        if key_lt(other, k) {
            assert(j <= i) by {
                if j > i {
                    assert(key_lt(es[i].0, other));
                    assert(!key_lt(es[i].0, k));
                }
            }
            assert(is_split_point(es2, other, j)) by {
                assert forall|t: int| 0 <= t < j implies key_lt(#[trigger] es2[t].0, other) by {
                    assert(es2[t] == es[t]);
                }
                assert forall|t: int| j <= t < es2.len() implies !key_lt(#[trigger] es2[t].0, other) by {
                    if t == i {
                    } else if found || t < i {
                        assert(es2[t] == es[t]);
                    } else {
                        assert(es2[t] == es[t - 1]);
                    }
                }
            }
            lemma_split_point_unique(es2, other, j);
            if j < i {
                assert(es2[j] == es[j]);
            } else if j < es.len() {
                assert(es[j].0 != other) by {
                    assert(!key_lt(es[j].0, k));
                }
            }
        } else {
            let j2 = if found { j } else { j + 1 };
            assert(j >= i) by {
                if j < i {
                    assert(key_lt(es[j].0, k));
                    assert(!key_lt(es[j].0, other));
                }
            }
            if j == i && found {
                assert(key_lt(k, other));
                assert(false);
            }
            assert(is_split_point(es2, other, j2)) by {
                assert forall|t: int| 0 <= t < j2 implies key_lt(#[trigger] es2[t].0, other) by {
                    if t == i {
                        assert(key_lt(k, other));
                    } else if found || t < i {
                        assert(es2[t] == es[t]);
                    } else {
                        assert(es2[t] == es[t - 1]);
                    }
                }
                assert forall|t: int| j2 <= t < es2.len() implies !key_lt(#[trigger] es2[t].0, other) by {
                    if found {
                        assert(es2[t] == es[t]);
                    } else {
                        assert(es2[t] == es[t - 1]);
                    }
                }
            }
            lemma_split_point_unique(es2, other, j2);
            if j < es.len() {
                if found {
                    assert(es2[j2] == es[j]);
                } else {
                    assert(es2[j2] == es[j]);
                }
            }
        }
    }
}

/// Laws of removing: removing `k` from sorted entries keeps them sorted;
/// `k` then reads as absent, every other key reads as before, and the count
/// drops by one exactly when `k` was present.
pub proof fn lemma_remove_lookup<K: Ord + Clone, V>(es: Seq<(K, V)>, k: K, other: K)
    requires
        key_laws::<K>(),
        entries_sorted(es),
    ensures
        entries_sorted(remove_key(es, k)),
        lookup(remove_key(es, k), k) is None,
        other != k ==> lookup(remove_key(es, k), other) == lookup(es, other),
        remove_key(es, k).len() == es.len() - (if lookup(es, k) is Some {
            1int
        } else {
            0int
        }),
{
    lemma_key_order::<K>();
    lemma_split_point_exists(es, k);
    let i = split_point(es, k);
    let found = has_key_at(es, k, i);
    let es2 = remove_key(es, k);
    if !found {
        assert(es2 == es);
        if i < es.len() {
            assert(es[i].0 != k);
        }
        return;
    }
    assert forall|a: int, b: int| 0 <= a < b < es2.len() implies key_lt(
        #[trigger] es2[a].0,
        #[trigger] es2[b].0,
    ) by {
        let oa = if a < i { a } else { a + 1 };
        let ob = if b < i { b } else { b + 1 };
        assert(es2[a] == es[oa] && es2[b] == es[ob]);
    }
    assert(is_split_point(es2, k, i)) by {
        assert forall|j: int| 0 <= j < i implies key_lt(#[trigger] es2[j].0, k) by {
            assert(es2[j] == es[j]);
        }
        assert forall|j: int| i <= j < es2.len() implies !key_lt(#[trigger] es2[j].0, k) by {
            assert(es2[j] == es[j + 1]);
            assert(key_lt(es[i].0, es[j + 1].0));
        }
    }
    lemma_split_point_unique(es2, k, i);
    if i < es2.len() {
        assert(es2[i] == es[i + 1]);
        assert(key_lt(es[i].0, es[i + 1].0));
    }
    if other != k {
        lemma_split_point_exists(es, other);
        let j = split_point(es, other);
        if key_lt(other, k) {
            assert(j <= i) by {
                if j > i {
                    assert(key_lt(es[i].0, other));
                }
            }
            assert(is_split_point(es2, other, j)) by {
                assert forall|t: int| 0 <= t < j implies key_lt(#[trigger] es2[t].0, other) by {
                    assert(es2[t] == es[t]);
                }
                assert forall|t: int| j <= t < es2.len() implies !key_lt(#[trigger] es2[t].0, other) by {
                    if t < i {
                        assert(es2[t] == es[t]);
                    } else {
                        assert(es2[t] == es[t + 1]);
                    }
                }
            }
            lemma_split_point_unique(es2, other, j);
            if j < i {
                assert(es2[j] == es[j]);
            } else {
                assert(es[j].0 == k);
                if j < es2.len() {
                    assert(es2[j] == es[j + 1]);
                    assert(key_lt(k, es[j + 1].0));
                    assert(key_lt(other, es2[j].0));
                }
            }
        } else {
            assert(key_lt(k, other));
            assert(j > i) by {
                if j <= i {
                    assert(!key_lt(es[i].0, other));
                }
            }
            assert(is_split_point(es2, other, j - 1)) by {
                assert forall|t: int| 0 <= t < j - 1 implies key_lt(#[trigger] es2[t].0, other) by {
                    if t < i {
                        assert(es2[t] == es[t]);
                    } else {
                        assert(es2[t] == es[t + 1]);
                    }
                }
                assert forall|t: int| j - 1 <= t < es2.len() implies !key_lt(#[trigger] es2[t].0, other) by {
                    assert(es2[t] == es[t + 1]);
                }
            }
            lemma_split_point_unique(es2, other, j - 1);
            if j < es.len() {
                assert(es2[j - 1] == es[j]);
            }
        }
    }
}

/// Result of a node split: the key pushed up to the parent and the new right
/// sibling, which holds the keys from that key up.
pub struct Split<K, V> {
    /// Separator pushed up into the parent.
    pub key: K,
    /// The new right sibling.
    pub right: Box<Node<K, V>>,
}

/// An in-memory B+Tree over keys ordered by `Ord`.
pub struct BTree<K, V> {
    root: Option<Box<Node<K, V>>>,
    len: usize,
}

/// The entries of a range scan, handed out one at a time in key order.
pub struct ScanIter<'a, K, V> {
    items: Vec<(&'a K, &'a V)>,
    pos: usize,
}

impl<'a, K, V> ScanIter<'a, K, V> {
    /// The entries not handed out yet.
    pub closed spec fn remaining(&self) -> Seq<(K, V)> {
        deref_pairs(self.items@.subrange(self.pos as int, self.items@.len() as int))
    }

    /// Whether the position is inside the entries.
    pub closed spec fn inv(&self) -> bool {
        self.pos <= self.items@.len()
    }

    /// The next entry, or `None` once all are handed out.
    pub fn next(&mut self) -> (r: Option<(&'a K, &'a V)>)
        requires
            old(self).inv(),
        ensures
            final(self).inv(),
            match r {
                None => old(self).remaining().len() == 0 && final(self).remaining() == old(
                    self,
                ).remaining(),
                Some(p) => old(self).remaining().len() > 0 && (*p.0, *p.1) == old(
                    self,
                ).remaining()[0] && final(self).remaining() == old(self).remaining().drop_first(),
            },
    {
        if self.pos < self.items.len() {
            let p = self.items[self.pos];
            self.pos = self.pos + 1;
            proof {
                assert(self.remaining() =~= old(self).remaining().drop_first());
            }
            Some(p)
        } else {
            None
        }
    }
}

impl<K, V> View for BTree<K, V> {
    type V = Seq<(K, V)>;

    /// The entries, in key order.
    closed spec fn view(&self) -> Seq<(K, V)> {
        match self.root {
            None => Seq::empty(),
            Some(n) => n.entries(),
        }
    }
}

impl<K, V> BTree<K, V> {
    /// Height: 0 for the empty tree, else the root's height.
    pub closed spec fn spec_height(&self) -> nat {
        match self.root {
            None => 0,
            Some(n) => node_height(*n),
        }
    }

    /// The entry count matches the entries.
    pub closed spec fn counted(&self) -> bool {
        self.len == self@.len()
    }

    /// The root node, if any.
    pub closed spec fn root_view(&self) -> Option<Node<K, V>> {
        match self.root {
            Some(n) => Some(*n),
            None => None,
        }
    }

    /// Balance: every leaf lies at the depth given by the height.
    pub closed spec fn balanced(&self) -> bool {
        self.root matches Some(n) ==> balanced_at(*n, node_height(*n))
    }

    /// An empty tree.
    pub fn new() -> (r: Self)
        ensures
            r@ == Seq::<(K, V)>::empty(),
            r.counted(),
            r.balanced(),
            r.spec_height() == 0,
    {
        BTree { root: None, len: 0 }
    }

    /// Number of entries.
    pub fn len(&self) -> (r: usize)
        requires
            self.counted(),
        ensures
            r == self@.len(),
    {
        self.len
    }

    /// Whether the tree holds no entries.
    pub fn is_empty(&self) -> (r: bool)
        requires
            self.counted(),
        ensures
            r == (self@.len() == 0),
    {
        self.len == 0
    }

    /// Height (leaves count 1); 0 for the empty tree.
    pub fn height(&self) -> (r: usize)
        requires
            self.spec_height() <= usize::MAX,
        ensures
            r == self.spec_height(),
    {
        match &self.root {
            None => 0,
            Some(n) => Self::height_of(n),
        }
    }

    fn height_of(node: &Node<K, V>) -> (r: usize)
        requires
            node_height(*node) <= usize::MAX,
        ensures
            r == node_height(*node),
        decreases node,
    {
        match node {
            Node::Leaf { .. } => 1,
            Node::Internal { children, .. } => {
                if children.len() == 0 {
                    1
                } else {
                    1 + Self::height_of(&children[0])
                }
            },
        }
    }
}

impl<K: Ord + Clone, V: Clone> BTree<K, V> {
    /// Node ordering of a tree that has a root.
    pub closed spec fn ordered(&self) -> bool {
        self.root matches Some(n) ==> node_wf(*n, None, None)
    }

    /// Well-formedness: the count is right, every node is ordered and all
    /// leaves lie at one depth.
    pub open spec fn wf(&self) -> bool {
        &&& self.counted()
        &&& self.balanced()
        &&& (self.spec_height() > 0 ==> self.ordered())
    }

    /// Law of the tree's shape: the root of a well-formed tree is a
    /// well-formed node (keys ascending, each internal node with one child
    /// more than keys, a value per key in each leaf) with all leaves at the
    /// depth given by the height; the height is 0 exactly for a tree without
    /// a root, and a tree holding entries has a root.
    pub proof fn lemma_shape(&self)
        requires
            self.wf(),
        ensures
            self.root_view() matches Some(n) ==> node_wf(n, None, None) && balanced_at(n, self.spec_height()),
            self.spec_height() == 0 <==> self.root_view() is None,
            self@.len() > 0 ==> self.spec_height() > 0,
    {
    }

    /// The entries of a well-formed tree ascend by key.
    pub proof fn lemma_sorted(&self)
        requires
            key_laws::<K>(),
            self.wf(),
        ensures
            entries_sorted(self@),
    {
        if let Some(n) = self.root {
            lemma_wf_entries(*n, None, None);
        }
    }

    /// The value stored with `key`, cloned.
    pub fn get(&self, key: &K) -> (r: Result<Option<V>, BTreeError>)
        requires
            key_laws::<K>(),
            self.wf(),
        ensures
            r matches Ok(o) && (o is Some <==> lookup(self@, *key) is Some) && (o matches Some(v)
                ==> vstd::pervasive::cloned(lookup(self@, *key)->0, v)),
    {
        let mut cur: &Node<K, V> = match &self.root {
            None => return Ok(None),
            Some(n) => n,
        };
        let ghost mut lo: Option<K> = None;
        let ghost mut hi: Option<K> = None;
        loop
            invariant
                key_laws::<K>(),
                node_wf(*cur, lo, hi),
                in_bounds(*key, lo, hi),
                lookup(self@, *key) == lookup(cur.entries(), *key),
            decreases *cur,
        {
            match cur {
                Node::Leaf { keys, values } => {
                    proof {
        super::node::lemma_sorted_nondecreasing(keys@);
    }
    let idx = lower_bound(keys.as_slice(), key);
                    let ghost es = cur.entries();
                    proof {
                        assert(is_split_point(es, *key, idx as int));
                        lemma_split_point_unique(es, *key, idx as int);
                    }
                    if idx < keys.len() {
                        if let KeyOrder::Equal = compare_keys(&keys[idx], key) {
                            return Ok(Some(values[idx].clone()));
                        }
                    }
                    return Ok(None);
                },
                Node::Internal { keys, children } => {
                    let ci = child_index(keys, key, Ghost(lo), Ghost(hi));
                    proof {
                        lemma_descend(keys@, children@, lo, hi, ci as int, *key, vstd::pervasive::arbitrary());
                        lo = child_lo(keys@, ci as int, lo);
                        hi = child_hi(keys@, ci as int, hi);
                    }
                    cur = &children[ci];
                },
            }
        }
    }
    /// Splits a full leaf in two at its middle key, which is cloned up.
    fn split_leaf(mut keys: Vec<K>, mut values: Vec<V>, Ghost(lo): Ghost<Option<K>>, Ghost(hi): Ghost<
        Option<K>,
    >) -> (r: (Node<K, V>, Split<K, V>))
        requires
            key_laws::<K>(),
            node_wf(Node::Leaf { keys, values }, lo, hi),
            keys@.len() >= ORDER,
        ensures
            node_wf(r.0, lo, Some(r.1.key)),
            node_wf(*r.1.right, Some(r.1.key), hi),
            in_bounds(r.1.key, lo, hi),
            lo matches Some(l) ==> key_lt(l, r.1.key),
            r.0.entries() + r.1.right.entries() == (Node::Leaf { keys, values }).entries(),
            balanced_at(r.0, 1),
            balanced_at(*r.1.right, 1),
    {
        let ghost old_node = Node::Leaf { keys, values };
        let ghost ks = keys@;
        let ghost vs = values@;
        let mid = keys.len() / 2;
        let right_keys = keys.split_off(mid);
        let right_values = values.split_off(mid);
        let up = right_keys[0].clone();
        proof {
            lemma_key_order::<K>();
            assert(vstd::pervasive::strictly_cloned(right_keys@[0], up));
            assert(up == ks[mid as int]);
            assert(key_lt(ks[0], ks[mid as int]));
        }
        let left = Node::Leaf { keys, values };
        let right = Node::Leaf { keys: right_keys, values: right_values };
        proof {
            assert forall|i: int| 0 <= i < right_keys@.len() implies in_bounds(
                #[trigger] right_keys@[i],
                Some(up),
                hi,
            ) by {
                assert(right_keys@[i] == ks[mid + i]);
                if i > 0 {
                    assert(key_lt(ks[mid as int], ks[mid + i]));
                }
            }
            assert forall|i: int| 0 <= i < keys@.len() implies in_bounds(
                #[trigger] keys@[i],
                lo,
                Some(up),
            ) by {
                assert(keys@[i] == ks[i]);
                assert(key_lt(ks[i], ks[mid as int]));
            }
            assert(left.entries() + right.entries() =~= old_node.entries());
        }
        (left, Split { key: up, right: Box::new(right) })
    }

    /// Splits a full internal node in two; its middle key moves up.
    #[verifier::rlimit(40)]
    #[verifier::spinoff_prover]
    fn split_internal(
        mut keys: Vec<K>,
        mut children: Vec<Box<Node<K, V>>>,
        Ghost(lo): Ghost<Option<K>>,
        Ghost(hi): Ghost<Option<K>>,
        Ghost(d): Ghost<nat>,
    ) -> (r: (Node<K, V>, Split<K, V>))
        requires
            key_laws::<K>(),
            node_wf(Node::Internal { keys, children }, lo, hi),
            balanced_at(Node::Internal { keys, children }, d),
            keys@.len() >= ORDER,
        ensures
            node_wf(r.0, lo, Some(r.1.key)),
            node_wf(*r.1.right, Some(r.1.key), hi),
            in_bounds(r.1.key, lo, hi),
            lo matches Some(l) ==> key_lt(l, r.1.key),
            r.0.entries() + r.1.right.entries() == (Node::Internal { keys, children }).entries(),
            balanced_at(r.0, d),
            balanced_at(*r.1.right, d),
    {
        let ghost ks = keys@;
        let ghost cs = children@;
        let mid = keys.len() / 2;
        let up = keys.remove(mid);
        let right_keys = keys.split_off(mid);
        let right_children = children.split_off(mid + 1);
        proof {
            lemma_key_order::<K>();
            assert(key_lt(ks[0], ks[mid as int]));
            assert(keys@ =~= ks.subrange(0, mid as int));
            assert(right_keys@ =~= ks.subrange(mid + 1, ks.len() as int));
            assert forall|i: int| 0 <= i < keys@.len() implies in_bounds(
                #[trigger] keys@[i],
                lo,
                Some(up),
            ) by {
                assert(key_lt(ks[i], ks[mid as int]));
            }
            assert forall|i: int| 0 <= i < children@.len() implies node_wf(
                *#[trigger] children@[i],
                child_lo(keys@, i, lo),
                child_hi(keys@, i, Some(up)),
            ) by {
                assert(children@[i] == cs[i]);
                assert(node_wf(*cs[i], child_lo(ks, i, lo), child_hi(ks, i, hi)));
            }
            assert forall|i: int| 0 <= i < right_keys@.len() implies in_bounds(
                #[trigger] right_keys@[i],
                Some(up),
                hi,
            ) by {
                assert(key_lt(ks[mid as int], ks[mid + 1 + i]));
            }
            assert forall|i: int| 0 <= i < right_children@.len() implies node_wf(
                *#[trigger] right_children@[i],
                child_lo(right_keys@, i, Some(up)),
                child_hi(right_keys@, i, hi),
            ) by {
                assert(right_children@[i] == cs[mid + 1 + i]);
                assert(node_wf(
                    *cs[mid + 1 + i],
                    child_lo(ks, mid + 1 + i, lo),
                    child_hi(ks, mid + 1 + i, hi),
                ));
            }
            assert(cs =~= children@ + right_children@);
            lemma_entries_of_add(children@, right_children@);
            assert forall|i: int| 0 <= i < children@.len() implies balanced_at(
                *#[trigger] children@[i],
                (d - 1) as nat,
            ) by {
                assert(children@[i] == cs[i]);
            }
            assert forall|i: int| 0 <= i < right_children@.len() implies balanced_at(
                *#[trigger] right_children@[i],
                (d - 1) as nat,
            ) by {
                assert(right_children@[i] == cs[mid + 1 + i]);
            }
        }
        let left = Node::Internal { keys, children };
        let right = Node::Internal { keys: right_keys, children: right_children };
        (left, Split { key: up, right: Box::new(right) })
    }

    /// Inserts `(key, value)` into a leaf whose keys lie in `[lo, hi)`.
    fn insert_leaf(
        mut keys: Vec<K>,
        mut values: Vec<V>,
        key: K,
        value: V,
        Ghost(lo): Ghost<Option<K>>,
        Ghost(hi): Ghost<Option<K>>,
    ) -> (r: (Node<K, V>, Option<Split<K, V>>, bool))
        requires
            key_laws::<K>(),
            node_wf(Node::Leaf { keys, values }, lo, hi),
            in_bounds(key, lo, hi),
        ensures
            r.2 == (lookup((Node::Leaf { keys, values }).entries(), key) is None),
            match r.1 {
                None => {
                    &&& node_wf(r.0, lo, hi)
                    &&& r.0.entries() == put((Node::Leaf { keys, values }).entries(), key, value)
                },
                Some(s) => {
                    &&& node_wf(r.0, lo, Some(s.key))
                    &&& node_wf(*s.right, Some(s.key), hi)
                    &&& in_bounds(s.key, lo, hi)
                    &&& (lo matches Some(l) ==> key_lt(l, s.key))
                    &&& r.0.entries() + s.right.entries() == put(
                        (Node::Leaf { keys, values }).entries(),
                        key,
                        value,
                    )
                },
            },
            balanced_at(r.0, 1),
            r.1 matches Some(s) ==> balanced_at(*s.right, 1),
    {
        let ghost old_es = (Node::Leaf { keys, values }).entries();
        let ghost ks = keys@;
        proof {
            super::node::lemma_sorted_nondecreasing(keys@);
        }
        let idx = lower_bound(keys.as_slice(), &key);
        proof {
            assert(is_split_point(old_es, key, idx as int));
            lemma_split_point_unique(old_es, key, idx as int);
        }
        if idx < keys.len() {
            if let KeyOrder::Equal = compare_keys(&keys[idx], &key) {
                values.set(idx, value);
                let n2 = Node::Leaf { keys, values };
                proof {
                    assert(n2.entries() =~= old_es.update(idx as int, (key, value)));
                }
                return (n2, None, false);
            }
        }
        proof {
            lemma_key_order::<K>();
            assert forall|j: int| idx <= j < ks.len() implies key_lt(key, #[trigger] ks[j]) by {
                if j > idx {
                    assert(key_lt(ks[idx as int], ks[j]));
                }
            }
            lemma_insert_key(ks, key, idx as int, lo, hi);
        }
        keys.insert(idx, key);
        values.insert(idx, value);
        proof {
            assert((Node::Leaf { keys, values }).entries() =~= old_es.insert(idx as int, (key, value)));
        }
        if keys.len() >= ORDER {
            let (left, split) = Self::split_leaf(keys, values, Ghost(lo), Ghost(hi));
            (left, Some(split), true)
        } else {
            (Node::Leaf { keys, values }, None, true)
        }
    }

    /// Inserts `(key, value)` below `node`, whose keys lie in `[lo, hi)`.
    /// Returns the updated node, the split it went through if it reached
    /// `ORDER` keys, and whether the key is new (else its value was
    /// replaced).
    fn insert_into(
        node: Node<K, V>,
        key: K,
        value: V,
        Ghost(lo): Ghost<Option<K>>,
        Ghost(hi): Ghost<Option<K>>,
    ) -> (r: (Node<K, V>, Option<Split<K, V>>, bool))
        requires
            key_laws::<K>(),
            node_wf(node, lo, hi),
            balanced_at(node, node_height(node)),
            in_bounds(key, lo, hi),
        ensures
            r.2 == (lookup(node.entries(), key) is None),
            balanced_at(r.0, node_height(node)),
            r.1 matches Some(s) ==> balanced_at(*s.right, node_height(node)),
            match r.1 {
                None => {
                    &&& node_wf(r.0, lo, hi)
                    &&& r.0.entries() == put(node.entries(), key, value)
                },
                Some(s) => {
                    &&& node_wf(r.0, lo, Some(s.key))
                    &&& node_wf(*s.right, Some(s.key), hi)
                    &&& in_bounds(s.key, lo, hi)
                    &&& (lo matches Some(l) ==> key_lt(l, s.key))
                    &&& r.0.entries() + s.right.entries() == put(node.entries(), key, value)
                },
            },
        decreases node,
    {
        match node {
            Node::Leaf { keys, values } => Self::insert_leaf(keys, values, key, value, Ghost(lo), Ghost(hi)),
            Node::Internal { keys, children } => Self::insert_internal(
                keys,
                children,
                key,
                value,
                Ghost(lo),
                Ghost(hi),
            ),
        }
    }

    /// Inserts `(key, value)` below an internal node whose keys lie in
    /// `[lo, hi)`: into the child the key belongs to, taking in the child's
    /// split if it had one.
    #[verifier::rlimit(40)]
    #[verifier::spinoff_prover]
    fn insert_internal(
        mut keys: Vec<K>,
        mut children: Vec<Box<Node<K, V>>>,
        key: K,
        value: V,
        Ghost(lo): Ghost<Option<K>>,
        Ghost(hi): Ghost<Option<K>>,
    ) -> (r: (Node<K, V>, Option<Split<K, V>>, bool))
        requires
            key_laws::<K>(),
            node_wf(Node::Internal { keys, children }, lo, hi),
            balanced_at(Node::Internal { keys, children }, node_height(Node::Internal { keys, children })),
            in_bounds(key, lo, hi),
        ensures
            r.2 == (lookup((Node::Internal { keys, children }).entries(), key) is None),
            balanced_at(r.0, node_height(Node::Internal { keys, children })),
            r.1 matches Some(s) ==> balanced_at(
                *s.right,
                node_height(Node::Internal { keys, children }),
            ),
            match r.1 {
                None => {
                    &&& node_wf(r.0, lo, hi)
                    &&& r.0.entries() == put((Node::Internal { keys, children }).entries(), key, value)
                },
                Some(s) => {
                    &&& node_wf(r.0, lo, Some(s.key))
                    &&& node_wf(*s.right, Some(s.key), hi)
                    &&& in_bounds(s.key, lo, hi)
                    &&& (lo matches Some(l) ==> key_lt(l, s.key))
                    &&& r.0.entries() + s.right.entries() == put(
                        (Node::Internal { keys, children }).entries(),
                        key,
                        value,
                    )
                },
            },
        decreases children@,
    {
        let ci = child_index(&keys, &key, Ghost(lo), Ghost(hi));
        let ghost ks = keys@;
        let ghost cs = children@;
        let ghost clo = child_lo(ks, ci as int, lo);
        let ghost chi = child_hi(ks, ci as int, hi);
        let ghost d = node_height(Node::Internal { keys, children });
        assert(ci < children.len());
        let next = ci + 1;
        proof {
            lemma_descend(ks, cs, lo, hi, ci as int, key, value);
            assert(balanced_at(*cs[ci as int], (d - 1) as nat));
            lemma_balanced_height(*cs[ci as int], (d - 1) as nat);
        }
        let child = children.remove(ci);
        assert(child == cs[ci as int]);
        let (c2, split, inserted) = Self::insert_into(*child, key, value, Ghost(clo), Ghost(chi));
        match split {
            None => {
                children.insert(ci, Box::new(c2));
                proof {
                    assert(children@ =~= cs.update(ci as int, Box::new(c2)));
                    lemma_replace_child(ks, cs, lo, hi, ci as int, Box::new(c2));
                    assert forall|i: int| 0 <= i < children@.len() implies balanced_at(
                        *#[trigger] children@[i],
                        (d - 1) as nat,
                    ) by {
                        if i != ci {
                            assert(children@[i] == cs[i]);
                        }
                    }
                }
                (Node::Internal { keys, children }, None, inserted)
            },
            Some(sp) => {
                let ghost sep = sp.key;
                let ghost right = sp.right;
                children.insert(ci, Box::new(c2));
                children.insert(next, sp.right);
                keys.insert(ci, sp.key);
                proof {
                    assert(keys@ =~= ks.insert(ci as int, sep));
                    assert(children@ =~= cs.subrange(0, ci as int) + seq![Box::new(c2), right]
                        + cs.subrange(ci + 1, cs.len() as int));
                    lemma_absorb_split(ks, cs, lo, hi, ci as int, Box::new(c2), sep, right);
                    assert forall|i: int| 0 <= i < children@.len() implies balanced_at(
                        *#[trigger] children@[i],
                        (d - 1) as nat,
                    ) by {
                        if i < ci {
                            assert(children@[i] == cs[i]);
                        } else if i > ci + 1 {
                            assert(children@[i] == cs[i - 1]);
                        }
                    }
                }
                if keys.len() >= ORDER {
                    let (left, up) = Self::split_internal(keys, children, Ghost(lo), Ghost(hi), Ghost(d));
                    (left, Some(up), inserted)
                } else {
                    (Node::Internal { keys, children }, None, inserted)
                }
            },
        }
    }

    /// Inserts `(key, value)`; an entry with an equal key gets the new value.
    pub fn insert(&mut self, key: K, value: V) -> (r: Result<(), BTreeError>)
        requires
            key_laws::<K>(),
            old(self).wf(),
            old(self)@.len() < usize::MAX,
        ensures
            r is Ok,
            final(self).wf(),
            final(self)@ == put(old(self)@, key, value),
    {
        let ghost old_es = self@;
        match self.root.take() {
            None => {
                let mut keys: Vec<K> = Vec::new();
                let mut values: Vec<V> = Vec::new();
                keys.push(key);
                values.push(value);
                let leaf = Node::Leaf { keys, values };
                proof {
                    assert(is_split_point(old_es, key, 0));
                    lemma_split_point_unique(old_es, key, 0);
                    assert(leaf.entries() =~= old_es.insert(0, (key, value)));
                }
                self.root = Some(Box::new(leaf));
                self.len = 1;
                Ok(())
            },
            Some(root) => {
                let ghost d = node_height(*root);
                proof {
                    lemma_wf_entries(*root, None, None);
                    lemma_split_point_exists(old_es, key);
                }
                let (n2, split, inserted) = Self::insert_into(*root, key, value, Ghost(None), Ghost(None));
                proof {
                    lemma_balanced_height(n2, d);
                }
                match split {
                    None => {
                        self.root = Some(Box::new(n2));
                    },
                    Some(sp) => {
                        let ghost sep = sp.key;
                        let ghost right = sp.right;
                        let mut keys: Vec<K> = Vec::new();
                        keys.push(sp.key);
                        let mut children: Vec<Box<Node<K, V>>> = Vec::new();
                        children.push(Box::new(n2));
                        children.push(sp.right);
                        proof {
                            assert(children@ =~= seq![Box::new(n2)] + seq![right]);
                            lemma_entries_of_add(seq![Box::new(n2)], seq![right]);
                            lemma_entries_of_one(Box::new(n2));
                            lemma_entries_of_one(right);
                            assert(balanced_at(Node::Internal { keys, children }, d + 1));
                        }
                        self.root = Some(Box::new(Node::Internal { keys, children }));
                    },
                }
                if inserted {
                    self.len = self.len + 1;
                }
                Ok(())
            },
        }
    }

    /// Removes the entry for `key` below `node`, whose keys lie in
    /// `[lo, hi)`; says whether there was one.
    fn delete_from(node: Node<K, V>, key: &K, Ghost(lo): Ghost<Option<K>>, Ghost(hi): Ghost<Option<K>>) -> (r: (
        Node<K, V>,
        bool,
    ))
        requires
            key_laws::<K>(),
            node_wf(node, lo, hi),
            balanced_at(node, node_height(node)),
            in_bounds(*key, lo, hi),
        ensures
            node_wf(r.0, lo, hi),
            balanced_at(r.0, node_height(node)),
            r.0.entries() == remove_key(node.entries(), *key),
            r.1 == (lookup(node.entries(), *key) is Some),
        decreases node,
    {
        let ghost old_es = node.entries();
        match node {
            Node::Leaf { mut keys, mut values } => {
                proof {
        super::node::lemma_sorted_nondecreasing(keys@);
    }
    let idx = lower_bound(keys.as_slice(), key);
                proof {
                    lemma_wf_entries(Node::Leaf { keys, values }, lo, hi);
                    assert(is_split_point(old_es, *key, idx as int));
                    lemma_split_point_unique(old_es, *key, idx as int);
                }
                if idx < keys.len() {
                    if let KeyOrder::Equal = compare_keys(&keys[idx], key) {
                        let ghost ks = keys@;
                        keys.remove(idx);
                        values.remove(idx);
                        let n2 = Node::Leaf { keys, values };
                        proof {
                            assert(keys@ =~= ks.remove(idx as int));
                            assert forall|i: int, j: int| 0 <= i < j < keys@.len() implies key_lt(
                                #[trigger] keys@[i],
                                #[trigger] keys@[j],
                            ) by {
                                let oi = if i < idx { i } else { i + 1 };
                                let oj = if j < idx { j } else { j + 1 };
                                assert(keys@[i] == ks[oi] && keys@[j] == ks[oj]);
                            }
                            assert forall|i: int| 0 <= i < keys@.len() implies in_bounds(
                                #[trigger] keys@[i],
                                lo,
                                hi,
                            ) by {
                                let oi = if i < idx { i } else { i + 1 };
                                assert(keys@[i] == ks[oi]);
                            }
                            assert(n2.entries() =~= old_es.remove(idx as int));
                        }
                        return (n2, true);
                    }
                }
                (Node::Leaf { keys, values }, false)
            },
            Node::Internal { keys, children } => Self::delete_internal(keys, children, key, Ghost(lo), Ghost(hi)),
        }
    }

    /// Removes the entry for `key` below an internal node whose keys lie in
    /// `[lo, hi)`: from the child the key belongs to. Nodes are not merged.
    fn delete_internal(
        keys: Vec<K>,
        mut children: Vec<Box<Node<K, V>>>,
        key: &K,
        Ghost(lo): Ghost<Option<K>>,
        Ghost(hi): Ghost<Option<K>>,
    ) -> (r: (Node<K, V>, bool))
        requires
            key_laws::<K>(),
            node_wf(Node::Internal { keys, children }, lo, hi),
            balanced_at(Node::Internal { keys, children }, node_height(Node::Internal { keys, children })),
            in_bounds(*key, lo, hi),
        ensures
            node_wf(r.0, lo, hi),
            balanced_at(r.0, node_height(Node::Internal { keys, children })),
            r.0.entries() == remove_key((Node::Internal { keys, children }).entries(), *key),
            r.1 == (lookup((Node::Internal { keys, children }).entries(), *key) is Some),
        decreases children@,
    {
        let ci = child_index(&keys, key, Ghost(lo), Ghost(hi));
        let ghost ks = keys@;
        let ghost cs = children@;
        let ghost d = node_height(Node::Internal { keys, children });
        proof {
            lemma_descend(ks, cs, lo, hi, ci as int, *key, vstd::pervasive::arbitrary());
            assert(balanced_at(*cs[ci as int], (d - 1) as nat));
            lemma_balanced_height(*cs[ci as int], (d - 1) as nat);
        }
        let child = children.remove(ci);
        assert(child == cs[ci as int]);
        let (c2, removed) = Self::delete_from(
            *child,
            key,
            Ghost(child_lo(ks, ci as int, lo)),
            Ghost(child_hi(ks, ci as int, hi)),
        );
        children.insert(ci, Box::new(c2));
        proof {
            assert(children@ =~= cs.update(ci as int, Box::new(c2)));
            lemma_replace_child(ks, cs, lo, hi, ci as int, Box::new(c2));
            assert forall|i: int| 0 <= i < children@.len() implies balanced_at(
                *#[trigger] children@[i],
                (d - 1) as nat,
            ) by {
                if i != ci {
                    assert(children@[i] == cs[i]);
                }
            }
        }
        (Node::Internal { keys, children }, removed)
    }

    /// Removes the entry for `key`; says whether there was one. Nodes are
    /// not merged; a root left with one child and no key gives way to the
    /// child, and an empty root leaf is dropped.
    pub fn delete(&mut self, key: &K) -> (r: Result<bool, BTreeError>)
        requires
            key_laws::<K>(),
            old(self).wf(),
        ensures
            r matches Ok(b) && b == (lookup(old(self)@, *key) is Some),
            final(self).wf(),
            final(self)@ == remove_key(old(self)@, *key),
    {
        let ghost old_es = self@;
        let root = match self.root.take() {
            None => {
                proof {
                    assert(is_split_point(old_es, *key, 0));
                    lemma_split_point_unique(old_es, *key, 0);
                }
                return Ok(false);
            },
            Some(r) => r,
        };
        let ghost d = node_height(*root);
        let (n2, removed) = Self::delete_from(*root, key, Ghost(None), Ghost(None));
        proof {
            lemma_wf_entries(*root, None, None);
            lemma_split_point_exists(old_es, *key);
            lemma_balanced_height(n2, d);
        }
        if !removed {
            self.root = Some(Box::new(n2));
            return Ok(false);
        }
        proof {
            let i = split_point(old_es, *key);
            assert(has_key_at(old_es, *key, i));
            assert(n2.entries() == old_es.remove(i));
            assert(n2.entries().len() + 1 == old_es.len());
        }
        self.len = self.len - 1;
        match n2 {
            Node::Internal { keys, mut children } => {
                if keys.len() == 0 && children.len() == 1 {
                    let ghost cs = children@;
                    let only = children.remove(0);
                    proof {
                        assert(cs =~= seq![only]);
                        lemma_entries_of_one(only);
                        assert(node_wf(*cs[0], child_lo(keys@, 0, None), child_hi(keys@, 0, None)));
                        assert(balanced_at(*cs[0], (d - 1) as nat));
                        lemma_balanced_height(*cs[0], (d - 1) as nat);
                    }
                    self.root = Some(only);
                } else {
                    self.root = Some(Box::new(Node::Internal { keys, children }));
                }
            },
            Node::Leaf { keys, values } => {
                if keys.len() == 0 {
                    self.root = None;
                } else {
                    self.root = Some(Box::new(Node::Leaf { keys, values }));
                }
            },
        }
        Ok(true)
    }

    /// Appends to `out` the entries below `node` (whose keys lie in
    /// `[lo, hi)`) that fall in `[start, end)`, in order, skipping the
    /// children that cannot hold any.
    fn collect<'a>(
        node: &'a Node<K, V>,
        start: Option<&K>,
        end: Option<&K>,
        out: &mut Vec<(&'a K, &'a V)>,
        Ghost(lo): Ghost<Option<K>>,
        Ghost(hi): Ghost<Option<K>>,
    )
        requires
            key_laws::<K>(),
            node_wf(*node, lo, hi),
        ensures
            deref_pairs(final(out)@) == deref_pairs(old(out)@) + node.entries().filter(
                range_pred(opt_val(start), opt_val(end)),
            ),
        decreases node,
    {
        let ghost pred = range_pred::<K, V>(opt_val(start), opt_val(end));
        let ghost out0 = deref_pairs(out@);
        match node {
            Node::Leaf { keys, values } => {
                let ghost es = node.entries();
                let mut j: usize = 0;
                while j < keys.len()
                    invariant
                        key_laws::<K>(),
                        node_wf(*node, lo, hi),
                        *node == (Node::Leaf { keys: *keys, values: *values }),
                        es == node.entries(),
                        pred == range_pred::<K, V>(opt_val(start), opt_val(end)),
                        out0 == deref_pairs(old(out)@),
                        j <= keys@.len(),
                        deref_pairs(out@) == out0 + es.take(j as int).filter(pred),
                    decreases keys@.len() - j,
                {
                    let inside = match start {
                        Some(s) => match compare_keys(&keys[j], s) {
                            KeyOrder::Less => false,
                            _ => true,
                        },
                        None => true,
                    } && match end {
                        Some(e) => match compare_keys(&keys[j], e) {
                            KeyOrder::Less => true,
                            _ => false,
                        },
                        None => true,
                    };
                    proof {
                        assert(es.take(j + 1) =~= es.take(j as int).push(es[j as int]));
                        lemma_filter_push(es.take(j as int), es[j as int], pred);
                        assert(es[j as int].0 == keys@[j as int]);
                        assert(pred(es[j as int]) == in_range(keys@[j as int], opt_val(start), opt_val(end)));
                    }
                    let ghost before = out@;
                    if inside {
                        out.push((&keys[j], &values[j]));
                        proof {
                            assert(es[j as int] == (keys@[j as int], values@[j as int]));
                            assert(deref_pairs(out@) =~= deref_pairs(before).push(es[j as int]));
                        }
                    }
                    j = j + 1;
                }
                proof {
                    assert(es.take(keys@.len() as int) =~= es);
                }
            },
            Node::Internal { keys, children } => {
                let ghost cs = children@;
                let mut i: usize = 0;
                while i < children.len()
                    invariant
                        key_laws::<K>(),
                        node_wf(*node, lo, hi),
                        *node == (Node::Internal { keys: *keys, children: *children }),
                        cs == children@,
                        pred == range_pred::<K, V>(opt_val(start), opt_val(end)),
                        out0 == deref_pairs(old(out)@),
                        i <= cs.len(),
                        deref_pairs(out@) == out0 + run_entries(cs, 0, i as int).filter(pred),
                    decreases cs.len() - i,
                {
                    proof {
                        lemma_route(keys@, cs, lo, hi, i as int);
                        lemma_run_step(cs, i as int);
                        Seq::filter_distributes_over_add(
                            run_entries(cs, 0, i as int),
                            cs[i as int].entries(),
                            pred,
                        );
                    }
                    if i > 0 {
                        if let Some(e) = end {
                            if let KeyOrder::Less = compare_keys(&keys[i - 1], e) {
                            } else {
                                proof {
                                    lemma_key_order::<K>();
                                    let rest = run_entries(cs, i as int, cs.len() as int);
                                    lemma_wf_children(keys@, cs.subrange(i as int, cs.len() as int), lo, hi, i as int);
                                    assert forall|t: int| 0 <= t < rest.len() implies !pred(#[trigger] rest[t]) by {
                                        assert(in_bounds(rest[t].0, Some(keys@[i - 1]), hi));
                                        lemma_order_steps(*e, keys@[i - 1], rest[t].0);
                                    }
                                    lemma_filter_none(rest, pred);
                                    lemma_run_split(cs, i as int);
                                    Seq::filter_distributes_over_add(
                                        run_entries(cs, 0, i as int),
                                        rest,
                                        pred,
                                    );
                                    assert(run_entries(cs, 0, i as int).filter(pred) + rest.filter(pred)
                                        =~= run_entries(cs, 0, i as int).filter(pred));
                                    assert(node.entries() == Node::<K, V>::entries_of(cs));
                                }
                                return ;
                            }
                        }
                    }
                    let mut skip = false;
                    if i < keys.len() {
                        if let Some(s) = start {
                            if let KeyOrder::Less = compare_keys(s, &keys[i]) {
                            } else {
                                skip = true;
                            }
                        }
                    }
                    if skip {
                        proof {
                            lemma_key_order::<K>();
                            let ce = cs[i as int].entries();
                            assert forall|t: int| 0 <= t < ce.len() implies !pred(#[trigger] ce[t]) by {
                                assert(in_bounds(ce[t].0, child_lo(keys@, i as int, lo), Some(keys@[i as int])));
                                lemma_order_steps(ce[t].0, keys@[i as int], opt_val(start)->0);
                            }
                            lemma_filter_none(ce, pred);
                            assert(run_entries(cs, 0, i + 1).filter(pred) =~= run_entries(cs, 0, i as int).filter(pred));
                        }
                    } else {
                        Self::collect(
                            &children[i],
                            start,
                            end,
                            out,
                            Ghost(child_lo(keys@, i as int, lo)),
                            Ghost(child_hi(keys@, i as int, hi)),
                        );
                    }
                    i = i + 1;
                }
                proof {
                    assert(cs.subrange(0, cs.len() as int) =~= cs);
                }
            },
        }
    }

    fn scan_between<'a>(&'a self, start: Option<&K>, end: Option<&K>) -> (r: ScanIter<'a, K, V>)
        requires
            key_laws::<K>(),
            self.wf(),
        ensures
            r.inv(),
            r.remaining() == range_entries(self@, opt_val(start), opt_val(end)),
    {
        let mut items: Vec<(&'a K, &'a V)> = Vec::new();
        match &self.root {
            None => {
                proof {
                    lemma_filter_none(self@, range_pred::<K, V>(opt_val(start), opt_val(end)));
                }
            },
            Some(n) => {
                Self::collect(n, start, end, &mut items, Ghost(None), Ghost(None));
            },
        }
        let r = ScanIter { items, pos: 0 };
        proof {
            assert(items@.subrange(0, items@.len() as int) =~= items@);
            assert(deref_pairs(Seq::<(&'a K, &'a V)>::empty()) =~= Seq::<(K, V)>::empty());
        }
        r
    }

    /// The entries with `start <= key < end`, in key order.
    pub fn scan_range<'a>(&'a self, start: &'a K, end: &'a K) -> (r: ScanIter<'a, K, V>)
        requires
            key_laws::<K>(),
            self.wf(),
        ensures
            r.inv(),
            r.remaining() == range_entries(self@, Some(*start), Some(*end)),
    {
        self.scan_between(Some(start), Some(end))
    }

    /// All entries, in key order.
    pub fn scan_all<'a>(&'a self) -> (r: ScanIter<'a, K, V>)
        requires
            key_laws::<K>(),
            self.wf(),
        ensures
            r.inv(),
            r.remaining() == self@,
    {
        let r = self.scan_between(None, None);
        proof {
            assert forall|i: int| 0 <= i < self@.len() implies range_pred::<K, V>(None, None)(#[trigger] self@[i]) by {}
            lemma_filter_all(self@, range_pred::<K, V>(None, None));
        }
        r
    }

}

impl<K, V> Default for BTree<K, V> {
    /// An empty tree.
    fn default() -> (r: Self)
        ensures
            r@ == Seq::<(K, V)>::empty(),
            r.counted(),
            r.balanced(),
            r.spec_height() == 0,
    {
        Self::new()
    }
}

} // verus!
