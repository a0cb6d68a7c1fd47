//! B+Tree nodes of the in-memory tree, the node limits, and the key order
//! the tree relies on.
use core::cmp::Ordering;
use vstd::std_specs::cmp::{OrdSpec, PartialEqSpec, PartialOrdSpec};
use super::tree::keys_sorted;
use vstd::prelude::*;

verus! {

/// Order of the B+Trees: a node splits when it reaches `ORDER` keys.
pub const ORDER: usize = 64;

/// Fewest keys a node keeps after a split.
pub const MIN_KEYS: usize = ORDER / 2;

/// `a` sorts strictly before `b` under `K`'s `Ord`.
pub open spec fn key_lt<K: Ord>(a: K, b: K) -> bool {
    a.cmp_spec(&b) == Ordering::Less
}

/// What the tree needs of its key type: `Ord` is a total order that agrees
/// with `==`, and a clone of a key is equal to it.
pub open spec fn key_laws<K: Ord + Clone>() -> bool {
    &&& vstd::laws_cmp::obeys_cmp::<K>()
    &&& vstd::laws_eq::obeys_concrete_eq::<K>()
    &&& forall|a: K, b: K| #[trigger] vstd::pervasive::strictly_cloned(a, b) ==> a == b
}

/// Under `key_laws`, `key_lt` is a strict total order.
pub proof fn lemma_key_order<K: Ord + Clone>()
    requires
        key_laws::<K>(),
    ensures
        forall|a: K| !#[trigger] key_lt(a, a),
        forall|a: K, b: K| #[trigger] key_lt(a, b) ==> !key_lt(b, a),
        forall|a: K, b: K| !#[trigger] key_lt(a, b) && !key_lt(b, a) ==> a == b,
        forall|a: K, b: K, c: K| #[trigger] key_lt(a, b) && #[trigger] key_lt(b, c) ==> key_lt(a, c),
{
    reveal(vstd::laws_cmp::obeys_cmp_ord);
    reveal(vstd::laws_cmp::obeys_partial_cmp_spec_properties);
    reveal(vstd::laws_cmp::obeys_cmp_partial_ord);
    reveal(vstd::laws_eq::obeys_concrete_eq);
    assert forall|a: K| !#[trigger] key_lt(a, a) by {
        assert(a.eq_spec(&a));
        assert(a.partial_cmp_spec(&a) == Some(a.cmp_spec(&a)));
    }
    assert forall|a: K, b: K| #[trigger] key_lt(a, b) implies !key_lt(b, a) by {
        assert(a.partial_cmp_spec(&b) == Some(a.cmp_spec(&b)));
        assert(b.partial_cmp_spec(&a) == Some(b.cmp_spec(&a)));
    }
    assert forall|a: K, b: K| !#[trigger] key_lt(a, b) && !key_lt(b, a) implies a == b by {
        assert(a.partial_cmp_spec(&b) == Some(a.cmp_spec(&b)));
        assert(b.partial_cmp_spec(&a) == Some(b.cmp_spec(&a)));
        if a.cmp_spec(&b) == Ordering::Greater {
            assert(b.partial_cmp_spec(&a) == Some(Ordering::Less));
        }
        assert(a.eq_spec(&b));
    }
    assert forall|a: K, b: K, c: K| #[trigger] key_lt(a, b) && #[trigger] key_lt(b, c) implies key_lt(
        a,
        c,
    ) by {
        assert(a.partial_cmp_spec(&b) == Some(a.cmp_spec(&b)));
        assert(b.partial_cmp_spec(&c) == Some(b.cmp_spec(&c)));
        assert(a.partial_cmp_spec(&c) == Some(a.cmp_spec(&c)));
    }
}

/// Outcome of comparing two keys.
pub enum KeyOrder {
    /// The first key sorts before the second.
    Less,
    /// The keys are equal.
    Equal,
    /// The first key sorts after the second.
    Greater,
}

/// Compares two keys with `K`'s `Ord`.
pub fn compare_keys<K: Ord + Clone>(a: &K, b: &K) -> (r: KeyOrder)
    requires
        key_laws::<K>(),
    ensures
        r is Less <==> key_lt(*a, *b),
        r is Equal <==> *a == *b,
        r is Greater <==> key_lt(*b, *a),
{
    proof {
        lemma_key_order::<K>();
        reveal(vstd::laws_cmp::obeys_cmp_ord);
        reveal(vstd::laws_cmp::obeys_partial_cmp_spec_properties);
        reveal(vstd::laws_cmp::obeys_cmp_partial_ord);
    }
    match a.cmp(b) {
        Ordering::Less => KeyOrder::Less,
        Ordering::Equal => {
            assert(!key_lt(*a, *b) && !key_lt(*b, *a)) by {
                assert(a.partial_cmp_spec(b) == Some(a.cmp_spec(b)));
                assert(b.partial_cmp_spec(a) == Some(b.cmp_spec(a)));
            }
            KeyOrder::Equal
        },
        Ordering::Greater => {
            assert(key_lt(*b, *a)) by {
                assert(a.partial_cmp_spec(b) == Some(a.cmp_spec(b)));
                assert(b.partial_cmp_spec(a) == Some(b.cmp_spec(a)));
            }
            KeyOrder::Greater
        },
    }
}

/// No key of `s` sorts before an earlier one: `s` is sorted, equal keys
/// allowed.
pub open spec fn keys_nondecreasing<K: Ord>(s: Seq<K>) -> bool {
    forall|i: int, j: int| 0 <= i < j < s.len() ==> !key_lt(#[trigger] s[j], #[trigger] s[i])
}

/// Strictly ascending keys are sorted.
pub proof fn lemma_sorted_nondecreasing<K: Ord + Clone>(s: Seq<K>)
    requires
        key_laws::<K>(),
        keys_sorted(s),
    ensures
        keys_nondecreasing(s),
{
    lemma_key_order::<K>();
    assert forall|i: int, j: int| 0 <= i < j < s.len() implies !key_lt(#[trigger] s[j], #[trigger] s[i]) by {
        assert(key_lt(s[i], s[j]));
    }
}

/// Position of the first key of the sorted `keys` that is not below `key`
/// (where `key` would be inserted).
pub fn lower_bound<K: Ord + Clone>(keys: &[K], key: &K) -> (r: usize)
    requires
        key_laws::<K>(),
        keys_nondecreasing(keys@),
    ensures
        r <= keys@.len(),
        forall|j: int| 0 <= j < r ==> key_lt(#[trigger] keys@[j], *key),
        forall|j: int| r <= j < keys@.len() ==> !key_lt(#[trigger] keys@[j], *key),
{
    let mut lo: usize = 0;
    let mut hi: usize = keys.len();
    while lo < hi
        invariant
            key_laws::<K>(),
            keys_nondecreasing(keys@),
            lo <= hi <= keys@.len(),
            forall|j: int| 0 <= j < lo ==> key_lt(#[trigger] keys@[j], *key),
            forall|j: int| hi <= j < keys@.len() ==> !key_lt(#[trigger] keys@[j], *key),
        decreases hi - lo,
    {
        let mid = lo + (hi - lo) / 2;
        match compare_keys(&keys[mid], key) {
            KeyOrder::Less => {
                assert forall|j: int| 0 <= j < mid + 1 implies key_lt(#[trigger] keys@[j], *key) by {
                    lemma_key_order::<K>();
                    if j < mid {
                        assert(!key_lt(keys@[mid as int], keys@[j]));
                        if !key_lt(keys@[j], keys@[mid as int]) {
                            assert(keys@[j] == keys@[mid as int]);
                        }
                    }
                }
                lo = mid + 1;
            },
            _ => {
                assert forall|j: int| mid <= j < keys@.len() implies !key_lt(#[trigger] keys@[j], *key) by {
                    lemma_key_order::<K>();
                    if j > mid {
                        assert(!key_lt(keys@[j], keys@[mid as int]));
                        if !key_lt(keys@[mid as int], keys@[j]) {
                            assert(keys@[j] == keys@[mid as int]);
                        }
                        if key_lt(keys@[j], *key) {
                            assert(key_lt(keys@[mid as int], *key));
                        }
                    }
                }
                hi = mid;
            },
        }
    }
    lo
}

/// A node of the in-memory B+Tree.
///
/// An internal node has `children.len() == keys.len() + 1`; `keys[i]`
/// separates `children[i]` (keys below it) from `children[i + 1]` (keys at or
/// above it). A leaf holds keys in ascending order with their values; leaves
/// are visited left to right through their parents.
pub enum Node<K, V> {
    /// Internal node.
    Internal {
        /// Separator keys, ascending.
        keys: Vec<K>,
        /// Children; one more than the keys.
        children: Vec<Box<Node<K, V>>>,
    },
    /// Leaf node.
    Leaf {
        /// Keys, ascending.
        keys: Vec<K>,
        /// Values, one per key.
        values: Vec<V>,
    },
}

impl<K, V> Node<K, V> {
    /// The entries below this node, left to right.
    pub open spec fn entries(self) -> Seq<(K, V)>
        decreases self,
    {
        match self {
            Node::Leaf { keys, values } => Seq::new(keys@.len(), |i: int| (keys@[i], values@[i])),
            Node::Internal { keys, children } => Self::entries_of(children@),
        }
    }

    /// The entries below a run of children, left to right.
    pub open spec fn entries_of(cs: Seq<Box<Node<K, V>>>) -> Seq<(K, V)>
        decreases cs,
    {
        if cs.len() == 0 {
            Seq::empty()
        } else {
            Self::entries_of(cs.subrange(0, cs.len() - 1)) + cs[cs.len() - 1].entries()
        }
    }
}

impl<K, V> Node<K, V> {
    /// A new empty leaf.
    pub fn new_leaf() -> (r: Box<Self>)
        ensures
            *r matches Node::Leaf { keys, values } && keys@.len() == 0 && values@.len() == 0,
            r.entries() == Seq::<(K, V)>::empty(),
    {
        let r = Box::new(Node::Leaf { keys: Vec::new(), values: Vec::new() });
        assert(r.entries() =~= Seq::<(K, V)>::empty());
        r
    }

    /// A new empty internal node.
    pub fn new_internal() -> (r: Box<Self>)
        ensures
            *r matches Node::Internal { keys, children } && keys@.len() == 0 && children@.len() == 0,
    {
        Box::new(Node::Internal { keys: Vec::new(), children: Vec::new() })
    }

    /// Whether this is a leaf.
    pub fn is_leaf(&self) -> (r: bool)
        ensures
            r == (*self is Leaf),
    {
        match self {
            Node::Leaf { .. } => true,
            Node::Internal { .. } => false,
        }
    }

    /// Number of keys held.
    pub fn key_len(&self) -> (r: usize)
        ensures
            r == match *self {
                Node::Internal { keys, .. } => keys@.len(),
                Node::Leaf { keys, .. } => keys@.len(),
            },
    {
        match self {
            Node::Internal { keys, .. } => keys.len(),
            Node::Leaf { keys, .. } => keys.len(),
        }
    }

    /// Whether the node has reached `ORDER` keys and must split.
    pub fn needs_split(&self) -> (r: bool)
        ensures
            r == (match *self {
                Node::Internal { keys, .. } => keys@.len(),
                Node::Leaf { keys, .. } => keys@.len(),
            } >= ORDER),
    {
        self.key_len() >= ORDER
    }
}

} // verus!
