//! Node <-> page codec.
//!
//! User data layout of a node page (little-endian):
//!
//! ```text
//! kind: u8 (0 = internal, 1 = leaf) | 3 reserved bytes | key_count: u16 | 2 reserved bytes
//! keys: ([len: u32][bytes]) * key_count
//! internal: [child_count: u32][page_id: u32] * child_count
//! leaf:     ([len: u32][bytes]) * key_count, then next leaf [is_some: u8][page_id: u32]
//! ```
use super::error::BTreeError;
use super::node::ORDER;
use crate::page::bytes::{le_u16_at, le_u32_at, read_u16, read_u32, splice, write_slice};
use crate::page::page::{Page, PAGE_USER_DATA_SIZE};
use crate::space::page_source::{zero_data, PageSource};
use crate::space::error::SpaceError;
use vstd::bytes::*;
use vstd::prelude::*;
use vstd::slice::*;

verus! {

broadcast use vstd::slice::group_slice_axioms;

/// Kind byte of an internal node.
pub const KIND_INTERNAL: u8 = 0;

/// Kind byte of a leaf node.
pub const KIND_LEAF: u8 = 1;

/// Length of the node header.
pub const HEADER_BYTES: usize = 8;

/// Offset of the kind byte.
pub const KIND_OFFSET: usize = 0;

/// Offset of the key count.
pub const KEY_COUNT_OFFSET: usize = 4;

/// A node to write: keys and values borrowed as byte slices.
pub struct EncodedNode<'a> {
    /// `KIND_INTERNAL` or `KIND_LEAF`.
    pub kind: u8,
    /// Keys, ascending.
    pub keys: Vec<&'a [u8]>,
    /// Internal node: child page ids (one more than the keys).
    pub children: Option<Vec<u32>>,
    /// Leaf: values (as many as the keys).
    pub values: Option<Vec<&'a [u8]>>,
    /// Leaf: next leaf page id (`None` at the end of the chain).
    pub next_leaf: Option<u32>,
}

/// The contents of an `EncodedNode`.
pub struct EncodedView {
    /// Kind byte.
    pub kind: u8,
    /// Keys.
    pub keys: Seq<Seq<u8>>,
    /// Child page ids.
    pub children: Option<Seq<u32>>,
    /// Values.
    pub values: Option<Seq<Seq<u8>>>,
    /// Next leaf.
    pub next_leaf: Option<u32>,
}

/// The byte sequences behind a list of slices.
pub open spec fn slices_view(s: Seq<&[u8]>) -> Seq<Seq<u8>> {
    s.map_values(|b: &[u8]| b@)
}

/// The byte sequences behind a list of vectors.
pub open spec fn vecs_view(s: Seq<Vec<u8>>) -> Seq<Seq<u8>> {
    s.map_values(|b: Vec<u8>| b@)
}

impl<'a> View for EncodedNode<'a> {
    type V = EncodedView;

    open spec fn view(&self) -> EncodedView {
        EncodedView {
            kind: self.kind,
            keys: slices_view(self.keys@),
            children: match self.children {
                Some(c) => Some(c@),
                None => None,
            },
            values: match self.values {
                Some(v) => Some(slices_view(v@)),
                None => None,
            },
            next_leaf: self.next_leaf,
        }
    }
}

/// A node read from a page.
#[derive(Debug, Clone)]
pub enum DecodedNode {
    /// Internal node.
    Internal {
        /// Separator keys.
        keys: Vec<Vec<u8>>,
        /// Child page ids.
        children: Vec<u32>,
    },
    /// Leaf node.
    Leaf {
        /// Keys.
        keys: Vec<Vec<u8>>,
        /// Values.
        values: Vec<Vec<u8>>,
        /// Next leaf page id.
        next_leaf: Option<u32>,
    },
}

/// The contents of a decoded node.
pub enum NodeView {
    /// Internal node.
    Internal {
        /// Separator keys.
        keys: Seq<Seq<u8>>,
        /// Child page ids.
        children: Seq<u32>,
    },
    /// Leaf node.
    Leaf {
        /// Keys.
        keys: Seq<Seq<u8>>,
        /// Values.
        values: Seq<Seq<u8>>,
        /// Next leaf page id.
        next_leaf: Option<u32>,
    },
}

impl View for DecodedNode {
    type V = NodeView;

    open spec fn view(&self) -> NodeView {
        match self {
            DecodedNode::Internal { keys, children } => NodeView::Internal {
                keys: vecs_view(keys@),
                children: children@,
            },
            DecodedNode::Leaf { keys, values, next_leaf } => NodeView::Leaf {
                keys: vecs_view(keys@),
                values: vecs_view(values@),
                next_leaf: *next_leaf,
            },
        }
    }
}

/// A length-prefixed byte string.
pub open spec fn spec_lp(b: Seq<u8>) -> Seq<u8> {
    spec_u32_to_le_bytes(b.len() as u32) + b
}

/// Length-prefixed byte strings, one after the other.
pub open spec fn spec_lp_all(s: Seq<Seq<u8>>) -> Seq<u8>
    decreases s.len(),
{
    if s.len() == 0 {
        Seq::empty()
    } else {
        spec_lp_all(s.drop_last()) + spec_lp(s.last())
    }
}

/// Encoded length of `spec_lp_all(s)`.
pub open spec fn spec_lp_size(s: Seq<Seq<u8>>) -> nat
    decreases s.len(),
{
    if s.len() == 0 {
        0
    } else {
        spec_lp_size(s.drop_last()) + 4 + s.last().len()
    }
}

/// Little-endian `u32`s, one after the other.
pub open spec fn spec_u32s(s: Seq<u32>) -> Seq<u8>
    decreases s.len(),
{
    if s.len() == 0 {
        Seq::empty()
    } else {
        spec_u32s(s.drop_last()) + spec_u32_to_le_bytes(s.last())
    }
}

/// The 8-byte node header.
pub open spec fn spec_node_header(kind: u8, count: nat) -> Seq<u8> {
    seq![kind, 0u8, 0u8, 0u8] + spec_u16_to_le_bytes(count as u16) + seq![0u8, 0u8]
}

/// Encoding of the next-leaf pointer.
pub open spec fn spec_next_bytes(n: Option<u32>) -> Seq<u8> {
    match n {
        Some(id) => seq![1u8] + spec_u32_to_le_bytes(id),
        None => seq![0u8],
    }
}

/// The bytes written for a node that passes `spec_encode_check`.
pub open spec fn spec_node_bytes(n: EncodedView) -> Seq<u8> {
    let head = spec_node_header(n.kind, n.keys.len()) + spec_lp_all(n.keys);
    if n.kind == KIND_INTERNAL {
        head + spec_u32_to_le_bytes(n.children->0.len() as u32) + spec_u32s(n.children->0)
    } else {
        head + spec_lp_all(n.values->0) + spec_next_bytes(n.next_leaf)
    }
}

/// Size of the encoding of a node: the header and keys, then for an
/// internal node the child count and children, for a leaf the values and the
/// next-leaf link.
pub open spec fn spec_node_size(n: EncodedView) -> nat {
    (HEADER_BYTES + spec_lp_size(n.keys) + if n.kind == KIND_INTERNAL {
        match n.children {
            Some(c) => 4 + 4 * c.len(),
            None => 0,
        }
    } else if n.kind == KIND_LEAF {
        match n.values {
            Some(v) => spec_lp_size(v) + spec_next_bytes(n.next_leaf).len(),
            None => 0,
        }
    } else {
        0
    }) as nat
}

/// The error `encode_node_to_page` reports for a node, if any.
pub open spec fn spec_encode_check(n: EncodedView) -> Result<(), BTreeError> {
    let k = n.keys.len();
    if k > ORDER {
        Err(BTreeError::TooManyKeys { got: k as usize, max: ORDER })
    } else if n.kind == KIND_INTERNAL {
        match n.children {
            None => Err(BTreeError::ArityMismatch { keys: k as usize, children: 0, values: 0 }),
            Some(c) => if c.len() != k + 1 {
                Err(BTreeError::ArityMismatch { keys: k as usize, children: c.len() as usize, values: 0 })
            } else {
                Ok(())
            },
        }
    } else if n.kind == KIND_LEAF {
        match n.values {
            None => Err(BTreeError::ArityMismatch { keys: k as usize, children: 0, values: 0 }),
            Some(v) => if v.len() != k {
                Err(BTreeError::ArityMismatch { keys: k as usize, children: 0, values: v.len() as usize })
            } else {
                Ok(())
            },
        }
    } else {
        Err(BTreeError::InvalidNodeKind(n.kind))
    }
}

/// Parses `n` length-prefixed strings from `ud` at `cur`: the strings and the
/// offset after them, or the number parsed before the data ran out.
pub open spec fn spec_parse_lps(ud: Seq<u8>, cur: int, n: nat) -> Result<(Seq<Seq<u8>>, int), nat>
    decreases n,
{
    if n == 0 {
        Ok((Seq::empty(), cur))
    } else {
        match spec_parse_lps(ud, cur, (n - 1) as nat) {
            Err(k) => Err(k),
            Ok((items, c)) => if c + 4 > ud.len() || c + 4 + le_u32_at(ud, c) > ud.len() {
                Err(items.len())
            } else {
                Ok((items.push(ud.subrange(c + 4, c + 4 + le_u32_at(ud, c))), c + 4 + le_u32_at(ud, c)))
            },
        }
    }
}

/// The `n` little-endian `u32`s stored from `off` on.
pub open spec fn spec_u32s_at(ud: Seq<u8>, off: int, n: nat) -> Seq<u32> {
    Seq::new(n, |i: int| le_u32_at(ud, off + 4 * i))
}

/// What `decode_node_from_page` makes of a user data area.
pub open spec fn spec_decode(ud: Seq<u8>) -> Result<NodeView, BTreeError> {
    if ud.len() < HEADER_BYTES {
        Err(BTreeError::ArityMismatch { keys: 0, children: 0, values: 0 })
    } else {
        let kind = ud[KIND_OFFSET as int];
        let kc = le_u16_at(ud, KEY_COUNT_OFFSET as int) as nat;
        if kc > ORDER {
            Err(BTreeError::TooManyKeys { got: kc as usize, max: ORDER })
        } else {
            match spec_parse_lps(ud, HEADER_BYTES as int, kc) {
                Err(k) => Err(BTreeError::ArityMismatch { keys: k as usize, children: 0, values: 0 }),
                Ok((keys, cur)) => if kind == KIND_INTERNAL {
                    if cur + 4 > ud.len() {
                        Err(BTreeError::ArityMismatch { keys: kc as usize, children: 0, values: 0 })
                    } else {
                        let cc = le_u32_at(ud, cur) as nat;
                        if cc > ORDER + 1 || cur + 4 + cc * 4 > ud.len() {
                            Err(BTreeError::ArityMismatch { keys: kc as usize, children: cc as usize, values: 0 })
                        } else {
                            Ok(NodeView::Internal { keys, children: spec_u32s_at(ud, cur + 4, cc) })
                        }
                    }
                } else if kind == KIND_LEAF {
                    match spec_parse_lps(ud, cur, kc) {
                        Err(v) => Err(BTreeError::ArityMismatch { keys: kc as usize, children: 0, values: v as usize }),
                        Ok((values, c2)) => Ok(
                            NodeView::Leaf {
                                keys,
                                values,
                                next_leaf: if c2 + 5 <= ud.len() && ud[c2] != 0 {
                                    Some(le_u32_at(ud, c2 + 1))
                                } else {
                                    None
                                },
                            },
                        ),
                    }
                } else {
                    Err(BTreeError::InvalidNodeKind(kind))
                },
            }
        }
    }
}

/// The encoded size of length-prefixed strings is their total length plus
/// four bytes each, and bounds each of them.
proof fn lemma_lp_size(s: Seq<Seq<u8>>)
    ensures
        spec_lp_all(s).len() == spec_lp_size(s),
        forall|i: int| 0 <= i < s.len() ==> (#[trigger] s[i]).len() + 4 <= spec_lp_size(s),
    decreases s.len(),
{
    lemma_auto_spec_u32_to_from_le_bytes();
    if s.len() > 0 {
        lemma_lp_size(s.drop_last());
        assert forall|i: int| 0 <= i < s.len() implies (#[trigger] s[i]).len() + 4 <= spec_lp_size(s) by {
            if i < s.len() - 1 {
                assert(s[i] == s.drop_last()[i]);
            }
        }
    }
}

/// Appends `spec_lp_all` of the strings to `out`.
fn append_lps(out: &mut Vec<u8>, items: &Vec<&[u8]>)
    ensures
        final(out)@ == old(out)@ + spec_lp_all(slices_view(items@)),
{
    let ghost start = out@;
    let ghost views = slices_view(items@);
    let mut i: usize = 0;
    while i < items.len()
        invariant
            i <= items@.len(),
            views == slices_view(items@),
            out@ == start + spec_lp_all(views.take(i as int)),
        decreases items@.len() - i,
    {
        let item: &[u8] = items[i];
        let mut len_bytes = u32_to_le_bytes(item.len() as u32);
        out.append(&mut len_bytes);
        let mut body = slice_to_vec(item);
        out.append(&mut body);
        proof {
            assert(views.take(i + 1).drop_last() =~= views.take(i as int));
            assert(views.take(i + 1).last() == item@);
        }
        i = i + 1;
        assert(out@ =~= start + spec_lp_all(views.take(i as int)));
    }
    assert(views.take(i as int) =~= views);
}

/// Appends `spec_u32s` of the ids to `out`.
fn append_u32s(out: &mut Vec<u8>, ids: &Vec<u32>)
    ensures
        final(out)@ == old(out)@ + spec_u32s(ids@),
{
    let ghost start = out@;
    let mut i: usize = 0;
    while i < ids.len()
        invariant
            i <= ids@.len(),
            out@ == start + spec_u32s(ids@.take(i as int)),
        decreases ids@.len() - i,
    {
        let mut b = u32_to_le_bytes(ids[i]);
        out.append(&mut b);
        proof {
            assert(ids@.take(i + 1).drop_last() =~= ids@.take(i as int));
        }
        i = i + 1;
        assert(out@ =~= start + spec_u32s(ids@.take(i as int)));
    }
    assert(ids@.take(i as int) =~= ids@);
}

/// Encodes `node` into the user data of `page`, overwriting all of it (the
/// rest is zeroed). More than `ORDER` keys give `TooManyKeys`; children or
/// values that do not match the kind and key count give `ArityMismatch`;
/// an unknown kind gives `InvalidNodeKind`. On an error the page is unchanged.
/// The node must fit in a page.
pub fn encode_node_to_page(page: &mut Page, node: EncodedNode<'_>) -> (r: Result<(), BTreeError>)
    requires
        old(page).wf(),
        spec_node_size(node@) <= PAGE_USER_DATA_SIZE,
    ensures
        final(page).wf(),
        final(page)@.header == old(page)@.header,
        final(page)@.footer == old(page)@.footer,
        match r {
            Ok(()) => spec_encode_check(node@) is Ok && final(page)@.data == splice(
                zero_data(),
                0,
                spec_node_bytes(node@),
            ),
            Err(e) => spec_encode_check(node@) == Err::<(), BTreeError>(e) && final(page)@
                == old(page)@,
        },
{
    let key_count = node.keys.len();
    if key_count > ORDER {
        return Err(BTreeError::TooManyKeys { got: key_count, max: ORDER });
    }
    if node.kind == KIND_INTERNAL {
        match &node.children {
            None => {
                return Err(BTreeError::ArityMismatch { keys: key_count, children: 0, values: 0 });
            },
            Some(c) => {
                if c.len() != key_count + 1 {
                    return Err(
                        BTreeError::ArityMismatch { keys: key_count, children: c.len(), values: 0 },
                    );
                }
            },
        }
    } else if node.kind == KIND_LEAF {
        match &node.values {
            None => {
                return Err(BTreeError::ArityMismatch { keys: key_count, children: 0, values: 0 });
            },
            Some(v) => {
                if v.len() != key_count {
                    return Err(
                        BTreeError::ArityMismatch { keys: key_count, children: 0, values: v.len() },
                    );
                }
            },
        }
    } else {
        return Err(BTreeError::InvalidNodeKind(node.kind));
    }
    proof {
        lemma_auto_spec_u32_to_from_le_bytes();
        lemma_auto_spec_u16_to_from_le_bytes();
        lemma_lp_size(node@.keys);
        if let Some(v) = node@.values {
            lemma_lp_size(v);
        }
    }
    let mut bytes: Vec<u8> = Vec::new();
    bytes.push(node.kind);
    bytes.push(0);
    bytes.push(0);
    bytes.push(0);
    let mut kc = u16_to_le_bytes(key_count as u16);
    bytes.append(&mut kc);
    bytes.push(0);
    bytes.push(0);
    assert(bytes@ =~= spec_node_header(node.kind, key_count as nat));
    append_lps(&mut bytes, &node.keys);
    if node.kind == KIND_INTERNAL {
        match &node.children {
            Some(c) => {
                let mut count = u32_to_le_bytes(c.len() as u32);
                bytes.append(&mut count);
                append_u32s(&mut bytes, c);
                proof {
                    lemma_u32s_len(c@);
                }
            },
            None => {},
        }
    } else {
        match &node.values {
            Some(v) => {
                append_lps(&mut bytes, v);
            },
            None => {},
        }
        match node.next_leaf {
            Some(id) => {
                bytes.push(1);
                let mut idb = u32_to_le_bytes(id);
                bytes.append(&mut idb);
            },
            None => {
                bytes.push(0);
            },
        }
    }
    assert(bytes@ =~= spec_node_bytes(node@));
    let ud = page.user_data_mut();
    let mut k: usize = 0;
    while k < ud.len()
        invariant
            k <= ud@.len(),
            ud@.len() == PAGE_USER_DATA_SIZE,
            forall|j: int| 0 <= j < k ==> ud@[j] == 0u8,
        decreases ud@.len() - k,
    {
        ud[k] = 0;
        k = k + 1;
    }
    assert(ud@ =~= zero_data());
    write_slice(ud, 0, bytes.as_slice());
    Ok(())
}

/// Once parsing fails, parsing more strings fails the same way.
proof fn lemma_parse_lps_err_stays(ud: Seq<u8>, cur: int, m: nat, n: nat)
    requires
        m <= n,
        spec_parse_lps(ud, cur, m) is Err,
    ensures
        spec_parse_lps(ud, cur, n) == spec_parse_lps(ud, cur, m),
    decreases n - m,
{
    if m < n {
        lemma_parse_lps_err_stays(ud, cur, m, (n - 1) as nat);
    }
}

/// Parses `n` length-prefixed strings from `ud` at `start`.
fn parse_lps(ud: &[u8], start: usize, n: usize) -> (r: Result<(Vec<Vec<u8>>, usize), usize>)
    requires
        start <= ud@.len(),
    ensures
        match r {
            Ok((items, c)) => spec_parse_lps(ud@, start as int, n as nat) == Ok::<
                (Seq<Seq<u8>>, int),
                nat,
            >((vecs_view(items@), c as int)) && c <= ud@.len(),
            Err(k) => spec_parse_lps(ud@, start as int, n as nat) == Err::<(Seq<Seq<u8>>, int), nat>(
                k as nat,
            ),
        },
{
    let mut items: Vec<Vec<u8>> = Vec::new();
    let mut cur = start;
    let mut i: usize = 0;
    assert(vecs_view(items@) =~= Seq::<Seq<u8>>::empty());
    while i < n
        invariant
            i <= n,
            cur <= ud@.len(),
            items@.len() == i,
            spec_parse_lps(ud@, start as int, i as nat) == Ok::<(Seq<Seq<u8>>, int), nat>(
                (vecs_view(items@), cur as int),
            ),
        decreases n - i,
    {
        if ud.len() - cur < 4 {
            proof {
                lemma_parse_lps_err_stays(ud@, start as int, (i + 1) as nat, n as nat);
            }
            return Err(i);
        }
        let len = read_u32(ud, cur) as usize;
        let body = cur + 4;
        if len > ud.len() - body {
            proof {
                lemma_parse_lps_err_stays(ud@, start as int, (i + 1) as nat, n as nat);
            }
            return Err(i);
        }
        let ghost prev = vecs_view(items@);
        let item = slice_to_vec(slice_subrange(ud, body, body + len));
        assert(le_u32_at(ud@, cur as int) == len);
        assert(item@ == ud@.subrange(cur + 4, cur + 4 + le_u32_at(ud@, cur as int)));
        items.push(item);
        assert(vecs_view(items@) =~= prev.push(item@));
        cur = body + len;
        i = i + 1;
    }
    Ok((items, cur))
}

/// Decodes the node held in a page's user data. A key count above `ORDER`
/// gives `TooManyKeys`; data that ends before the keys, children or values
/// it announces gives `ArityMismatch` (with the counts read so far); an
/// unknown kind gives `InvalidNodeKind`.
pub fn decode_node_from_page(page: &Page) -> (r: Result<DecodedNode, BTreeError>)
    ensures
        match r {
            Ok(n) => spec_decode(page@.data) == Ok::<NodeView, BTreeError>(n@),
            Err(e) => spec_decode(page@.data) == Err::<NodeView, BTreeError>(e),
        },
{
    let ud = page.user_data();
    if ud.len() < HEADER_BYTES {
        return Err(BTreeError::ArityMismatch { keys: 0, children: 0, values: 0 });
    }
    let kind = ud[KIND_OFFSET];
    let key_count = read_u16(ud, KEY_COUNT_OFFSET) as usize;
    if key_count > ORDER {
        return Err(BTreeError::TooManyKeys { got: key_count, max: ORDER });
    }
    let (keys, cur) = match parse_lps(ud, HEADER_BYTES, key_count) {
        Ok(p) => p,
        Err(k) => {
            return Err(BTreeError::ArityMismatch { keys: k, children: 0, values: 0 });
        },
    };
    if kind == KIND_INTERNAL {
        if ud.len() - cur < 4 {
            return Err(BTreeError::ArityMismatch { keys: key_count, children: 0, values: 0 });
        }
        let child_count = read_u32(ud, cur) as usize;
        let base = cur + 4;
        if child_count > ORDER + 1 || child_count * 4 > ud.len() - base {
            return Err(
                BTreeError::ArityMismatch { keys: key_count, children: child_count, values: 0 },
            );
        }
        let mut children: Vec<u32> = Vec::new();
        let mut i: usize = 0;
        while i < child_count
            invariant
                i <= child_count,
                ud@.len() <= usize::MAX,
                base + child_count * 4 <= ud@.len(),
                children@ == spec_u32s_at(ud@, base as int, i as nat),
            decreases child_count - i,
        {
            assert(4 * i + 4 <= child_count * 4) by (nonlinear_arith)
                requires
                    i < child_count,
            ;
            assert(base + 4 * i + 4 <= ud@.len());
            let id = read_u32(ud, base + 4 * i);
            children.push(id);
            i = i + 1;
            assert(children@ =~= spec_u32s_at(ud@, base as int, i as nat));
        }
        Ok(DecodedNode::Internal { keys, children })
    } else if kind == KIND_LEAF {
        let (values, c2) = match parse_lps(ud, cur, key_count) {
            Ok(p) => p,
            Err(v) => {
                return Err(BTreeError::ArityMismatch { keys: key_count, children: 0, values: v });
            },
        };
        let next_leaf = if ud.len() - c2 >= 5 && ud[c2] != 0 {
            Some(read_u32(ud, c2 + 1))
        } else {
            None
        };
        Ok(DecodedNode::Leaf { keys, values, next_leaf })
    } else {
        Err(BTreeError::InvalidNodeKind(kind))
    }
}

impl DecodedNode {
    /// The node a page read gives: a read error `e` comes back unchanged as
    /// `Space(e)`; a page read is decoded.
    pub fn from_read(read: Result<Page, SpaceError>) -> (r: Result<Self, BTreeError>)
        ensures
            match read {
                Err(e) => r == Err::<Self, BTreeError>(BTreeError::Space(e)),
                Ok(p) => match r {
                    Ok(n) => spec_decode(p@.data) == Ok::<NodeView, BTreeError>(n@),
                    Err(e) => spec_decode(p@.data) == Err::<NodeView, BTreeError>(e),
                },
            },
    {
        match read {
            Ok(page) => decode_node_from_page(&page),
            Err(e) => Err(BTreeError::Space(e)),
        }
    }

    /// Reads page `page_id` from `source` and decodes it, as
    /// [`DecodedNode::from_read`] does with the read's result: a read error
    /// is reported as `Space` with the store's error, any other error is the
    /// decoding error of the stored page.
    pub fn load<S: PageSource>(source: &mut S, page_id: u32) -> (r: Result<Self, BTreeError>)
        requires
            (*old(source)).valid(),
        ensures
            (*final(source)).valid(),
            (*final(source)).pages() == (*old(source)).pages(),
            (*final(source)).fresh_alloc() == (*old(source)).fresh_alloc(),
            (*final(source)).reads_succeed() == (*old(source)).reads_succeed(),
            (*final(source)).writable() == (*old(source)).writable(),
            (*final(source)).alloc_room() == (*old(source)).alloc_room(),
            (*old(source)).reads_succeed() && (*old(source)).pages().contains_key(page_id) ==> match r {
                Ok(_) => true,
                Err(e) => spec_decode((*old(source)).pages()[page_id].data) == Err::<NodeView, BTreeError>(e),
            },
            r matches Ok(n) ==> (*old(source)).pages().contains_key(page_id) && spec_decode(
                (*old(source)).pages()[page_id].data,
            ) == Ok::<NodeView, BTreeError>(n@) && (*old(source)).pages()[page_id].data.len()
                == PAGE_USER_DATA_SIZE,
            r matches Err(e) ==> e is Space || ((*old(source)).pages().contains_key(page_id)
                && spec_decode((*old(source)).pages()[page_id].data) == Err::<NodeView, BTreeError>(e)),
    {
        let read = source.read_page(page_id);
        Self::from_read(read)
    }
}

/// Parsing length-prefixed strings that were written there gives them back.
proof fn lemma_parse_lps_of(ud: Seq<u8>, cur: int, items: Seq<Seq<u8>>)
    requires
        0 <= cur,
        cur + spec_lp_size(items) <= ud.len(),
        ud.subrange(cur, cur + spec_lp_size(items)) == spec_lp_all(items),
        forall|i: int| 0 <= i < items.len() ==> (#[trigger] items[i]).len() <= u32::MAX,
    ensures
        spec_parse_lps(ud, cur, items.len()) == Ok::<(Seq<Seq<u8>>, int), nat>(
            (items, cur + spec_lp_size(items)),
        ),
    decreases items.len(),
{
    lemma_auto_spec_u32_to_from_le_bytes();
    lemma_lp_size(items);
    if items.len() == 0 {
        assert(items =~= Seq::<Seq<u8>>::empty());
    } else {
        let dl = items.drop_last();
        let last = items.last();
        lemma_lp_size(dl);
        let c = cur + spec_lp_size(dl);
        let d = spec_lp_size(dl) as int;
        let whole = ud.subrange(cur, cur + spec_lp_size(items));
        assert(spec_lp_all(items) == spec_lp_all(dl) + spec_lp(last));
        assert(whole.subrange(0, d) =~= spec_lp_all(dl));
        assert(ud.subrange(cur, c) =~= whole.subrange(0, d));
        assert forall|i: int| 0 <= i < dl.len() implies (#[trigger] dl[i]).len() <= u32::MAX by {
            assert(dl[i] == items[i]);
        }
        lemma_parse_lps_of(ud, cur, dl);
        assert(ud.subrange(c, c + 4) =~= whole.subrange(d, d + 4));
        assert(whole.subrange(d, d + 4) =~= spec_u32_to_le_bytes(last.len() as u32));
        assert(le_u32_at(ud, c) == last.len());
        assert(ud.subrange(c + 4, c + 4 + last.len()) =~= whole.subrange(d + 4, d + 4 + last.len()));
        assert(whole.subrange(d + 4, d + 4 + last.len()) =~= last);
        assert(dl.push(last) =~= items);
    }
}

/// Reading little-endian `u32`s that were written there gives them back.
proof fn lemma_u32s_at_of(ud: Seq<u8>, off: int, c: Seq<u32>)
    requires
        0 <= off,
        off + 4 * c.len() <= ud.len(),
        ud.subrange(off, off + 4 * c.len()) == spec_u32s(c),
    ensures
        spec_u32s_at(ud, off, c.len()) == c,
    decreases c.len(),
{
    lemma_auto_spec_u32_to_from_le_bytes();
    lemma_u32s_len(c);
    if c.len() > 0 {
        let dl = c.drop_last();
        lemma_u32s_len(dl);
        let whole = ud.subrange(off, off + 4 * c.len());
        let d = 4 * dl.len() as int;
        assert(spec_u32s(c) == spec_u32s(dl) + spec_u32_to_le_bytes(c.last()));
        assert(whole.subrange(0, d) =~= spec_u32s(dl));
        assert(ud.subrange(off, off + d) =~= whole.subrange(0, d));
        lemma_u32s_at_of(ud, off, dl);
        let last_off = off + d;
        assert(ud.subrange(last_off, last_off + 4) =~= whole.subrange(d, d + 4));
        assert(whole.subrange(d, d + 4) =~= spec_u32_to_le_bytes(c.last()));
        assert(le_u32_at(ud, last_off) == c.last());
        assert forall|i: int| 0 <= i < c.len() implies spec_u32s_at(ud, off, c.len())[i] == c[i] by {
            if i < dl.len() {
                assert(spec_u32s_at(ud, off, dl.len())[i] == dl[i]);
            }
        }
        assert(spec_u32s_at(ud, off, c.len()) =~= c);
    } else {
        assert(spec_u32s_at(ud, off, c.len()) =~= c);
    }
}

/// The node an encoded node decodes to.
pub open spec fn spec_decoded_of(n: EncodedView) -> NodeView {
    if n.kind == KIND_INTERNAL {
        NodeView::Internal { keys: n.keys, children: n.children->0 }
    } else {
        NodeView::Leaf { keys: n.keys, values: n.values->0, next_leaf: n.next_leaf }
    }
}

/// Decoding the user data that `encode_node_to_page` writes for a node gives
/// the node back: its kind, keys, and children or values and next leaf.
pub proof fn lemma_node_round_trip(n: EncodedView)
    requires
        spec_encode_check(n) is Ok,
        spec_node_size(n) <= PAGE_USER_DATA_SIZE,
    ensures
        spec_decode(splice(zero_data(), 0, spec_node_bytes(n))) == Ok::<NodeView, BTreeError>(
            spec_decoded_of(n),
        ),
{
    lemma_auto_spec_u32_to_from_le_bytes();
    lemma_auto_spec_u16_to_from_le_bytes();
    lemma_lp_size(n.keys);
    let bytes = spec_node_bytes(n);
    let head = spec_node_header(n.kind, n.keys.len()) + spec_lp_all(n.keys);
    let lpk = spec_lp_size(n.keys) as int;
    let ud = splice(zero_data(), 0, bytes);
    let cur = 8 + lpk;
    if n.kind == KIND_INTERNAL {
        let c = n.children->0;
        lemma_u32s_len(c);
        assert(bytes.len() == 8 + lpk + 4 + 4 * c.len());
    } else {
        let v = n.values->0;
        lemma_lp_size(v);
        assert(bytes.len() <= 8 + lpk + spec_lp_size(v) + 5);
    }
    assert(bytes.len() <= PAGE_USER_DATA_SIZE);
    assert(ud.subrange(0, bytes.len() as int) =~= bytes);
    assert(ud.len() == PAGE_USER_DATA_SIZE);
    assert(ud[0] == n.kind);
    assert(ud.subrange(4, 6) =~= spec_u16_to_le_bytes(n.keys.len() as u16));
    assert(le_u16_at(ud, 4) == n.keys.len());
    assert(ud.subrange(8, cur) =~= spec_lp_all(n.keys));
    lemma_parse_lps_of(ud, 8, n.keys);
    if n.kind == KIND_INTERNAL {
        let c = n.children->0;
        assert(ud.subrange(cur, cur + 4) =~= spec_u32_to_le_bytes(c.len() as u32));
        assert(le_u32_at(ud, cur) == c.len());
        assert(ud.subrange(cur + 4, cur + 4 + 4 * c.len()) =~= spec_u32s(c));
        lemma_u32s_at_of(ud, cur + 4, c);
    } else {
        let v = n.values->0;
        lemma_lp_size(v);
        let c2 = cur + spec_lp_size(v) as int;
        assert(ud.subrange(cur, c2) =~= spec_lp_all(v));
        lemma_parse_lps_of(ud, cur, v);
        assert(ud[c2] == spec_next_bytes(n.next_leaf)[0]);
        if let Some(id) = n.next_leaf {
            assert(ud.subrange(c2 + 1, c2 + 5) =~= spec_u32_to_le_bytes(id));
        }
    }
}

/// Encoded length of little-endian `u32`s.
proof fn lemma_u32s_len(s: Seq<u32>)
    ensures
        spec_u32s(s).len() == 4 * s.len(),
    decreases s.len(),
{
    lemma_auto_spec_u32_to_from_le_bytes();
    if s.len() > 0 {
        lemma_u32s_len(s.drop_last());
    }
}

} // verus!
