//! How the persistent B+Tree model changes when node pages are rewritten:
//! runs of children, their frames, and the edits an insert makes to them.
use super::error::BTreeError;
use super::persist::{spec_decode, NodeView};
use super::ptree::{
    byte_entries_sorted, byte_entries_within, byte_in_bounds, byte_put, byte_split_point,
    bytes_sorted, decodes, first_leaf, is_byte_split_point, leaf_entries, lemma_byte_put_lookup,
    lemma_byte_split_exists, lemma_byte_split_unique, lemma_lex_steps, lemma_node_shape,
    lemma_ptree_descend, route_leaf, byte_remove, lemma_route_child, route_child,
    lemma_ptree_frame, lemma_ptree_sorted, lemma_run_add, lemma_run_frame, lemma_run_one,
    lemma_run_pages_member,
    next_after, node_at, ptree_entries, ptree_pages, ptree_run_entries, ptree_run_pages, ptree_wf,
    ByteEntry,
};
use super::tree::{child_hi, child_lo};
use crate::page::key::{lemma_lex_order, lex_lt};
use crate::space::page_source::PageImage;
use vstd::prelude::*;

verus! {

/// Pages of `p0` outside `s` (and other than page 0) are unchanged in `p1`.
pub open spec fn unchanged_outside(p0: Map<u32, PageImage>, p1: Map<u32, PageImage>, s: Set<u32>) -> bool {
    forall|x: u32| #[trigger] p0.contains_key(x) && !s.contains(x) && x != 0 ==> p1.contains_key(x) && p1[x] == p0[x]
}

/// Every page of `s_new` is in `s_old` or was not a page of `p0`.
pub open spec fn old_or_new(p0: Map<u32, PageImage>, s_new: Set<u32>, s_old: Set<u32>) -> bool {
    forall|x: u32| #[trigger] s_new.contains(x) ==> s_old.contains(x) || !p0.contains_key(x)
}

/// A well-formed run of children `cs` with separators `ks` inside
/// `[lo, hi)`, of height `e`, whose last leaf links to `after`.
pub open spec fn run_wf(
    pages: Map<u32, PageImage>,
    ks: Seq<Seq<u8>>,
    cs: Seq<u32>,
    lo: Option<Seq<u8>>,
    hi: Option<Seq<u8>>,
    e: nat,
    after: Option<u32>,
) -> bool {
    &&& cs.len() == ks.len() + 1
    &&& bytes_sorted(ks)
    &&& forall|i: int| 0 <= i < ks.len() ==> byte_in_bounds(#[trigger] ks[i], lo, hi)
    &&& forall|i: int|
        0 <= i < cs.len() ==> ptree_wf(
            pages,
            #[trigger] cs[i],
            child_lo(ks, i, lo),
            child_hi(ks, i, hi),
            e,
            next_after(pages, cs, i, e, after),
        )
    &&& forall|i: int, j: int|
        0 <= i < j < cs.len() ==> ptree_pages(pages, #[trigger] cs[i], e).disjoint(
            ptree_pages(pages, #[trigger] cs[j], e),
        )
}

/// The pages of a well-formed subtree are pages of the map.
pub proof fn lemma_ptree_pages_in(
    pages: Map<u32, PageImage>,
    pid: u32,
    lo: Option<Seq<u8>>,
    hi: Option<Seq<u8>>,
    d: nat,
    after: Option<u32>,
)
    requires
        ptree_wf(pages, pid, lo, hi, d, after),
    ensures
        forall|x: u32| #[trigger] ptree_pages(pages, pid, d).contains(x) ==> pages.contains_key(x) && x != 0
            && decodes(pages, x),
    decreases d,
{
    reveal(ptree_wf);
    lemma_ptree_sorted(pages, pid, lo, hi, d, after);
    match node_at(pages, pid) {
        NodeView::Internal { keys, children } => {
            let e = (d - 1) as nat;
            assert forall|x: u32| #[trigger] ptree_pages(pages, pid, d).contains(x) implies pages.contains_key(x) && x != 0
                && decodes(pages, x) by {
                if x != pid {
                    lemma_run_pages_member(pages, children, e, x);
                    let i = choose|i: int| 0 <= i < children.len() && #[trigger] ptree_pages(pages, children[i], e).contains(x);
                    lemma_ptree_pages_in(
                        pages,
                        children[i],
                        child_lo(keys, i, lo),
                        child_hi(keys, i, hi),
                        e,
                        next_after(pages, children, i, e, after),
                    );
                }
            }
        },
        _ => {},
    }
}

/// The pages of a subtree are finitely many.
pub proof fn lemma_ptree_pages_finite(pages: Map<u32, PageImage>, pid: u32, d: nat)
    ensures
        ptree_pages(pages, pid, d).finite(),
    decreases d, 0nat,
{
    match node_at(pages, pid) {
        NodeView::Internal { children, .. } => {
            if d > 1 {
                lemma_run_pages_finite(pages, children, (d - 1) as nat);
            }
        },
        _ => {},
    }
}

/// The pages of a run of subtrees are finitely many.
pub proof fn lemma_run_pages_finite(pages: Map<u32, PageImage>, cs: Seq<u32>, d: nat)
    ensures
        ptree_run_pages(pages, cs, d).finite(),
    decreases d, cs.len() + 1,
{
    if cs.len() > 0 {
        lemma_run_pages_finite(pages, cs.drop_last(), d);
        lemma_ptree_pages_finite(pages, cs.last(), d);
    }
}

/// A well-formed internal node is a page holding a well-formed run of
/// children one level lower, none of whose pages is its own.
pub proof fn lemma_internal_run(
    pages: Map<u32, PageImage>,
    pid: u32,
    lo: Option<Seq<u8>>,
    hi: Option<Seq<u8>>,
    d: nat,
    after: Option<u32>,
)
    requires
        ptree_wf(pages, pid, lo, hi, d, after),
        node_at(pages, pid) is Internal,
    ensures
        d > 1,
        pid != 0,
        decodes(pages, pid),
        run_wf(
            pages,
            node_at(pages, pid)->Internal_keys,
            node_at(pages, pid)->Internal_children,
            lo,
            hi,
            (d - 1) as nat,
            after,
        ),
        !ptree_run_pages(pages, node_at(pages, pid)->Internal_children, (d - 1) as nat).contains(pid),
        ptree_entries(pages, pid, d) == ptree_run_entries(
            pages,
            node_at(pages, pid)->Internal_children,
            (d - 1) as nat,
        ),
        ptree_pages(pages, pid, d) == set![pid] + ptree_run_pages(
            pages,
            node_at(pages, pid)->Internal_children,
            (d - 1) as nat,
        ),
{
    reveal(ptree_wf);
    let cs = node_at(pages, pid)->Internal_children;
    let e = (d - 1) as nat;
    lemma_run_pages_member(pages, cs, e, pid);
}

/// A page holding an internal node over a well-formed run of children one
/// level lower, none of whose pages is its own, is a well-formed node.
pub proof fn lemma_run_internal(
    pages: Map<u32, PageImage>,
    pid: u32,
    lo: Option<Seq<u8>>,
    hi: Option<Seq<u8>>,
    d: nat,
    after: Option<u32>,
)
    requires
        pid != 0,
        decodes(pages, pid),
        d > 1,
        node_at(pages, pid) is Internal,
        run_wf(
            pages,
            node_at(pages, pid)->Internal_keys,
            node_at(pages, pid)->Internal_children,
            lo,
            hi,
            (d - 1) as nat,
            after,
        ),
        !ptree_run_pages(pages, node_at(pages, pid)->Internal_children, (d - 1) as nat).contains(pid),
    ensures
        ptree_wf(pages, pid, lo, hi, d, after),
{
    reveal(ptree_wf);
    let cs = node_at(pages, pid)->Internal_children;
    let e = (d - 1) as nat;
    assert forall|i: int| 0 <= i < cs.len() implies !ptree_pages(pages, #[trigger] cs[i], e).contains(pid) by {
        lemma_run_pages_member(pages, cs, e, pid);
    }
}

/// A page holding a leaf with ascending keys in `[lo, hi)`, a value per key,
/// linked to `after`, is a well-formed leaf.
pub proof fn lemma_leaf_wf(
    pages: Map<u32, PageImage>,
    pid: u32,
    lo: Option<Seq<u8>>,
    hi: Option<Seq<u8>>,
    after: Option<u32>,
)
    requires
        pid != 0,
        decodes(pages, pid),
        node_at(pages, pid) matches NodeView::Leaf { keys, values, next_leaf } && keys.len()
            == values.len() && bytes_sorted(keys) && (forall|i: int|
            0 <= i < keys.len() ==> byte_in_bounds(#[trigger] keys[i], lo, hi)) && next_leaf == after,
    ensures
        ptree_wf(pages, pid, lo, hi, 1, after),
        ptree_pages(pages, pid, 1) == set![pid],
        first_leaf(pages, pid, 1) == pid,
{
    reveal(ptree_wf);
}

/// A well-formed run reads the same in any page map that agrees on its
/// pages.
pub proof fn lemma_run_wf_frame(
    p: Map<u32, PageImage>,
    q: Map<u32, PageImage>,
    ks: Seq<Seq<u8>>,
    cs: Seq<u32>,
    lo: Option<Seq<u8>>,
    hi: Option<Seq<u8>>,
    e: nat,
    after: Option<u32>,
)
    requires
        run_wf(p, ks, cs, lo, hi, e, after),
        forall|x: u32| #[trigger] ptree_run_pages(p, cs, e).contains(x) ==> q.contains_key(x) && q[x] == p[x],
    ensures
        run_wf(q, ks, cs, lo, hi, e, after),
        ptree_run_entries(q, cs, e) == ptree_run_entries(p, cs, e),
        ptree_run_pages(q, cs, e) == ptree_run_pages(p, cs, e),
        forall|i: int| 0 <= i < cs.len() ==> first_leaf(q, #[trigger] cs[i], e) == first_leaf(p, cs[i], e),
{
    assert forall|i: int| 0 <= i < cs.len() implies {
        &&& ptree_wf(q, #[trigger] cs[i], child_lo(ks, i, lo), child_hi(ks, i, hi), e, next_after(p, cs, i, e, after))
        &&& ptree_entries(q, cs[i], e) == ptree_entries(p, cs[i], e)
        &&& ptree_pages(q, cs[i], e) == ptree_pages(p, cs[i], e)
        &&& first_leaf(q, cs[i], e) == first_leaf(p, cs[i], e)
    } by {
        assert forall|x: u32| #[trigger] ptree_pages(p, cs[i], e).contains(x) implies q.contains_key(x) && q[x] == p[x] by {
            lemma_run_pages_member(p, cs, e, x);
        }
        lemma_ptree_frame(p, q, cs[i], child_lo(ks, i, lo), child_hi(ks, i, hi), e, next_after(p, cs, i, e, after));
    }
    assert forall|i: int| 0 <= i < cs.len() implies next_after(q, cs, i, e, after) == next_after(p, cs, i, e, after) by {
        if i + 1 < cs.len() {
            assert(first_leaf(q, cs[i + 1], e) == first_leaf(p, cs[i + 1], e));
        }
    }
    lemma_run_frame(p, q, cs, e);
}

/// Pages of well-formed children of a run are pages of the map, and page 0
/// is none of them.
proof fn lemma_run_pages_in(
    pages: Map<u32, PageImage>,
    ks: Seq<Seq<u8>>,
    cs: Seq<u32>,
    lo: Option<Seq<u8>>,
    hi: Option<Seq<u8>>,
    e: nat,
    after: Option<u32>,
)
    requires
        run_wf(pages, ks, cs, lo, hi, e, after),
    ensures
        forall|i: int, x: u32|
            0 <= i < cs.len() && #[trigger] ptree_pages(pages, cs[i], e).contains(x) ==> pages.contains_key(x)
                && x != 0,
{
    assert forall|i: int, x: u32| 0 <= i < cs.len() && #[trigger] ptree_pages(pages, cs[i], e).contains(x) implies pages.contains_key(x)
        && x != 0 by {
        lemma_ptree_pages_in(pages, cs[i], child_lo(ks, i, lo), child_hi(ks, i, hi), e, next_after(pages, cs, i, e, after));
    }
}

/// Replacing child `ci` of a well-formed run by its new version, whose
/// pages are its old pages or new ones and whose first leaf is the same,
/// keeps the run well formed; the entries change only there.
pub proof fn lemma_run_replace(
    p0: Map<u32, PageImage>,
    p1: Map<u32, PageImage>,
    ks: Seq<Seq<u8>>,
    cs: Seq<u32>,
    lo: Option<Seq<u8>>,
    hi: Option<Seq<u8>>,
    e: nat,
    after: Option<u32>,
    ci: int,
)
    requires
        run_wf(p0, ks, cs, lo, hi, e, after),
        0 <= ci < cs.len(),
        unchanged_outside(p0, p1, ptree_pages(p0, cs[ci], e)),
        ptree_wf(p1, cs[ci], child_lo(ks, ci, lo), child_hi(ks, ci, hi), e, next_after(p0, cs, ci, e, after)),
        first_leaf(p1, cs[ci], e) == first_leaf(p0, cs[ci], e),
        old_or_new(p0, ptree_pages(p1, cs[ci], e), ptree_pages(p0, cs[ci], e)),
    ensures
        run_wf(p1, ks, cs, lo, hi, e, after),
        ptree_run_entries(p1, cs, e) == ptree_run_entries(p0, cs.subrange(0, ci), e) + ptree_entries(
            p1,
            cs[ci],
            e,
        ) + ptree_run_entries(p0, cs.subrange(ci + 1, cs.len() as int), e),
        old_or_new(p0, ptree_run_pages(p1, cs, e), ptree_run_pages(p0, cs, e)),
        forall|i: int| 0 <= i < cs.len() ==> first_leaf(p1, #[trigger] cs[i], e) == first_leaf(p0, cs[i], e),
{
    lemma_run_pages_in(p0, ks, cs, lo, hi, e, after);
    assert forall|i: int| 0 <= i < cs.len() && i != ci implies {
        &&& ptree_wf(p1, #[trigger] cs[i], child_lo(ks, i, lo), child_hi(ks, i, hi), e, next_after(p0, cs, i, e, after))
        &&& ptree_entries(p1, cs[i], e) == ptree_entries(p0, cs[i], e)
        &&& ptree_pages(p1, cs[i], e) == ptree_pages(p0, cs[i], e)
        &&& first_leaf(p1, cs[i], e) == first_leaf(p0, cs[i], e)
    } by {
        assert forall|x: u32| #[trigger] ptree_pages(p0, cs[i], e).contains(x) implies p1.contains_key(x) && p1[x] == p0[x] by {
            if i < ci {
                assert(ptree_pages(p0, cs[i], e).disjoint(ptree_pages(p0, cs[ci], e)));
            } else {
                assert(ptree_pages(p0, cs[ci], e).disjoint(ptree_pages(p0, cs[i], e)));
            }
            assert(p0.contains_key(x));
        }
        lemma_ptree_frame(p0, p1, cs[i], child_lo(ks, i, lo), child_hi(ks, i, hi), e, next_after(p0, cs, i, e, after));
    }
    assert forall|i: int| 0 <= i < cs.len() implies next_after(p1, cs, i, e, after) == next_after(p0, cs, i, e, after) by {
        if i + 1 < cs.len() {
            assert(first_leaf(p1, cs[i + 1], e) == first_leaf(p0, cs[i + 1], e));
        }
    }
    assert forall|i: int, j: int| 0 <= i < j < cs.len() implies ptree_pages(p1, #[trigger] cs[i], e).disjoint(
        ptree_pages(p1, #[trigger] cs[j], e),
    ) by {
        assert(ptree_pages(p0, cs[i], e).disjoint(ptree_pages(p0, cs[j], e)));
        if i == ci {
            assert forall|x: u32| ptree_pages(p1, cs[i], e).contains(x) implies !ptree_pages(p1, cs[j], e).contains(x) by {
                if ptree_pages(p0, cs[j], e).contains(x) {
                    assert(p0.contains_key(x));
                }
            }
        } else if j == ci {
            assert forall|x: u32| ptree_pages(p1, cs[j], e).contains(x) implies !ptree_pages(p1, cs[i], e).contains(x) by {
                if ptree_pages(p0, cs[i], e).contains(x) {
                    assert(p0.contains_key(x));
                }
            }
        }
    }
    let pre = cs.subrange(0, ci);
    let post = cs.subrange(ci + 1, cs.len() as int);
    assert forall|i: int| 0 <= i < pre.len() implies ptree_entries(p1, #[trigger] pre[i], e) == ptree_entries(p0, pre[i], e)
        && ptree_pages(p1, pre[i], e) == ptree_pages(p0, pre[i], e) by {
        assert(pre[i] == cs[i]);
    }
    assert forall|i: int| 0 <= i < post.len() implies ptree_entries(p1, #[trigger] post[i], e) == ptree_entries(p0, post[i], e)
        && ptree_pages(p1, post[i], e) == ptree_pages(p0, post[i], e) by {
        assert(post[i] == cs[ci + 1 + i]);
    }
    lemma_run_frame(p0, p1, pre, e);
    lemma_run_frame(p0, p1, post, e);
    assert(cs =~= pre + seq![cs[ci]] + post);
    lemma_run_add(p1, pre + seq![cs[ci]], post, e);
    lemma_run_add(p1, pre, seq![cs[ci]], e);
    lemma_run_one(p1, cs[ci], e);
    assert forall|x: u32| #[trigger] ptree_run_pages(p1, cs, e).contains(x) implies ptree_run_pages(p0, cs, e).contains(x)
        || !p0.contains_key(x) by {
        lemma_run_pages_member(p1, cs, e, x);
        lemma_run_pages_member(p0, cs, e, x);
        let i = choose|i: int| 0 <= i < cs.len() && #[trigger] ptree_pages(p1, cs[i], e).contains(x);
        if i != ci {
            assert(ptree_pages(p0, cs[i], e).contains(x));
        } else if ptree_pages(p0, cs[ci], e).contains(x) {
        }
    }
}

/// Separators with `up` inserted at `ci`, between the bounds of child `ci`,
/// stay ascending and in bounds.
proof fn lemma_insert_separator(ks: Seq<Seq<u8>>, lo: Option<Seq<u8>>, hi: Option<Seq<u8>>, ci: int, up: Seq<u8>)
    requires
        bytes_sorted(ks),
        forall|i: int| 0 <= i < ks.len() ==> byte_in_bounds(#[trigger] ks[i], lo, hi),
        0 <= ci <= ks.len(),
        byte_in_bounds(up, child_lo(ks, ci, lo), child_hi(ks, ci, hi)),
        child_lo(ks, ci, lo) matches Some(l) ==> lex_lt(l, up),
    ensures
        bytes_sorted(ks.insert(ci, up)),
        forall|i: int| 0 <= i < ks.len() + 1 ==> byte_in_bounds(#[trigger] ks.insert(ci, up)[i], lo, hi),
{
    let ks2 = ks.insert(ci, up);
    assert forall|i: int, j: int| 0 <= i < j < ks2.len() implies lex_lt(#[trigger] ks2[i], #[trigger] ks2[j]) by {
        if j < ci {
            assert(lex_lt(ks[i], ks[j]));
        } else if j == ci {
            assert(lex_lt(ks[ci - 1], up));
            if i < ci - 1 {
                assert(lex_lt(ks[i], ks[ci - 1]));
                lemma_lex_order(ks[i], ks[ci - 1], up);
            }
        } else if i < ci {
            assert(lex_lt(ks[i], ks[j - 1]));
        } else if i == ci {
            assert(lex_lt(up, ks[ci]));
            if j - 1 > ci {
                assert(lex_lt(ks[ci], ks[j - 1]));
                lemma_lex_order(up, ks[ci], ks[j - 1]);
            }
        } else {
            assert(lex_lt(ks[i - 1], ks[j - 1]));
        }
    }
    assert forall|i: int| 0 <= i < ks.len() + 1 implies byte_in_bounds(#[trigger] ks2[i], lo, hi) by {
        if i < ci {
            assert(ks2[i] == ks[i]);
        } else if i > ci {
            assert(ks2[i] == ks[i - 1]);
        } else {
            if ci > 0 {
                assert(byte_in_bounds(ks[ci - 1], lo, hi));
                if let Some(l) = lo {
                    lemma_lex_steps(l, ks[ci - 1], up);
                    lemma_lex_order(ks[ci - 1], up, l);
                }
            }
            if ci < ks.len() {
                assert(byte_in_bounds(ks[ci], lo, hi));
                if let Some(h) = hi {
                    lemma_lex_order(up, ks[ci], h);
                }
            }
        }
    }
}

/// The untouched children of a run whose child `ci` alone was rewritten
/// keep their trees, entries, pages and first leaves.
proof fn lemma_siblings_kept(
    p0: Map<u32, PageImage>,
    p1: Map<u32, PageImage>,
    ks: Seq<Seq<u8>>,
    cs: Seq<u32>,
    lo: Option<Seq<u8>>,
    hi: Option<Seq<u8>>,
    e: nat,
    after: Option<u32>,
    ci: int,
)
    requires
        run_wf(p0, ks, cs, lo, hi, e, after),
        0 <= ci < cs.len(),
        unchanged_outside(p0, p1, ptree_pages(p0, cs[ci], e)),
    ensures
        forall|i: int|
            0 <= i < cs.len() && i != ci ==> {
                &&& ptree_wf(p1, #[trigger] cs[i], child_lo(ks, i, lo), child_hi(ks, i, hi), e, next_after(p0, cs, i, e, after))
                &&& ptree_entries(p1, cs[i], e) == ptree_entries(p0, cs[i], e)
                &&& ptree_pages(p1, cs[i], e) == ptree_pages(p0, cs[i], e)
                &&& first_leaf(p1, cs[i], e) == first_leaf(p0, cs[i], e)
            },
        forall|i: int, x: u32|
            0 <= i < cs.len() && #[trigger] ptree_pages(p0, cs[i], e).contains(x) ==> p0.contains_key(x) && x != 0,
{
    lemma_run_pages_in(p0, ks, cs, lo, hi, e, after);
    assert forall|i: int| 0 <= i < cs.len() && i != ci implies {
        &&& ptree_wf(p1, #[trigger] cs[i], child_lo(ks, i, lo), child_hi(ks, i, hi), e, next_after(p0, cs, i, e, after))
        &&& ptree_entries(p1, cs[i], e) == ptree_entries(p0, cs[i], e)
        &&& ptree_pages(p1, cs[i], e) == ptree_pages(p0, cs[i], e)
        &&& first_leaf(p1, cs[i], e) == first_leaf(p0, cs[i], e)
    } by {
        assert forall|x: u32| #[trigger] ptree_pages(p0, cs[i], e).contains(x) implies p1.contains_key(x) && p1[x] == p0[x] by {
            if i < ci {
                assert(ptree_pages(p0, cs[i], e).disjoint(ptree_pages(p0, cs[ci], e)));
            } else {
                assert(ptree_pages(p0, cs[ci], e).disjoint(ptree_pages(p0, cs[i], e)));
            }
            assert(p0.contains_key(x));
        }
        lemma_ptree_frame(p0, p1, cs[i], child_lo(ks, i, lo), child_hi(ks, i, hi), e, next_after(p0, cs, i, e, after));
    }
}

/// Child `i` of the run `cs` is well formed in `p1` with its bounds and
/// link of `p0`, and keeps its first leaf.
spec fn kept_child(
    p0: Map<u32, PageImage>,
    p1: Map<u32, PageImage>,
    ks: Seq<Seq<u8>>,
    cs: Seq<u32>,
    lo: Option<Seq<u8>>,
    hi: Option<Seq<u8>>,
    e: nat,
    after: Option<u32>,
    i: int,
) -> bool {
    &&& ptree_wf(p1, cs[i], child_lo(ks, i, lo), child_hi(ks, i, hi), e, next_after(p0, cs, i, e, after))
    &&& first_leaf(p1, cs[i], e) == first_leaf(p0, cs[i], e)
}

/// The children of the run after the split of child `ci` is taken in are
/// well formed with their new bounds and links.
proof fn lemma_absorb_children(
    p0: Map<u32, PageImage>,
    p1: Map<u32, PageImage>,
    ks: Seq<Seq<u8>>,
    cs: Seq<u32>,
    lo: Option<Seq<u8>>,
    hi: Option<Seq<u8>>,
    e: nat,
    after: Option<u32>,
    ci: int,
    up: Seq<u8>,
    right: u32,
)
    requires
        cs.len() == ks.len() + 1,
        0 <= ci < cs.len(),
        forall|i: int|
            0 <= i < cs.len() && i != ci ==> #[trigger] kept_child(p0, p1, ks, cs, lo, hi, e, after, i),
        ptree_wf(p1, cs[ci], child_lo(ks, ci, lo), Some(up), e, Some(first_leaf(p1, right, e))),
        ptree_wf(p1, right, Some(up), child_hi(ks, ci, hi), e, next_after(p0, cs, ci, e, after)),
        first_leaf(p1, cs[ci], e) == first_leaf(p0, cs[ci], e),
    ensures
        forall|i: int|
            0 <= i < cs.len() + 1 ==> ptree_wf(
                p1,
                #[trigger] cs.insert(ci + 1, right)[i],
                child_lo(ks.insert(ci, up), i, lo),
                child_hi(ks.insert(ci, up), i, hi),
                e,
                next_after(p1, cs.insert(ci + 1, right), i, e, after),
            ),
{
    let ks2 = ks.insert(ci, up);
    let cs2 = cs.insert(ci + 1, right);
    assert forall|i: int| 0 <= i < cs2.len() implies ptree_wf(
        p1,
        #[trigger] cs2[i],
        child_lo(ks2, i, lo),
        child_hi(ks2, i, hi),
        e,
        next_after(p1, cs2, i, e, after),
    ) by {
        if i < ci {
            assert(kept_child(p0, p1, ks, cs, lo, hi, e, after, i));
            assert(cs2[i] == cs[i]);
            assert(child_lo(ks2, i, lo) == child_lo(ks, i, lo));
            assert(child_hi(ks2, i, hi) == child_hi(ks, i, hi));
            if i + 1 < ci {
                assert(kept_child(p0, p1, ks, cs, lo, hi, e, after, i + 1));
                assert(cs2[i + 1] == cs[i + 1]);
            } else {
                assert(cs2[i + 1] == cs[ci]);
            }
            assert(next_after(p1, cs2, i, e, after) == next_after(p0, cs, i, e, after));
        } else if i == ci {
            assert(cs2[i] == cs[ci]);
            assert(cs2[i + 1] == right);
            assert(child_lo(ks2, i, lo) == child_lo(ks, ci, lo));
            assert(child_hi(ks2, i, hi) == Some(up));
        } else if i == ci + 1 {
            assert(cs2[i] == right);
            assert(child_lo(ks2, i, lo) == Some(up));
            assert(child_hi(ks2, i, hi) == child_hi(ks, ci, hi));
            if i + 1 < cs2.len() {
                assert(kept_child(p0, p1, ks, cs, lo, hi, e, after, ci + 1));
                assert(cs2[i + 1] == cs[ci + 1]);
            }
            assert(next_after(p1, cs2, i, e, after) == next_after(p0, cs, ci, e, after));
        } else {
            assert(kept_child(p0, p1, ks, cs, lo, hi, e, after, i - 1));
            assert(cs2[i] == cs[i - 1]);
            assert(child_lo(ks2, i, lo) == child_lo(ks, i - 1, lo));
            assert(child_hi(ks2, i, hi) == child_hi(ks, i - 1, hi));
            if i + 1 < cs2.len() {
                assert(kept_child(p0, p1, ks, cs, lo, hi, e, after, i));
                assert(cs2[i + 1] == cs[i]);
            }
            assert(next_after(p1, cs2, i, e, after) == next_after(p0, cs, i - 1, e, after));
        }
    }
}

/// The subtrees of the run after the split of child `ci` is taken in use
/// distinct pages, old ones of the run or new ones.
#[verifier::rlimit(40)]
#[verifier::spinoff_prover]
proof fn lemma_absorb_pages(
    p0: Map<u32, PageImage>,
    p1: Map<u32, PageImage>,
    cs: Seq<u32>,
    e: nat,
    ci: int,
    right: u32,
)
    requires
        0 <= ci < cs.len(),
        forall|i: int, j: int|
            0 <= i < j < cs.len() ==> ptree_pages(p0, #[trigger] cs[i], e).disjoint(ptree_pages(p0, #[trigger] cs[j], e)),
        forall|i: int| 0 <= i < cs.len() && i != ci ==> ptree_pages(p1, #[trigger] cs[i], e) == ptree_pages(p0, cs[i], e),
        forall|i: int, x: u32|
            0 <= i < cs.len() && #[trigger] ptree_pages(p0, cs[i], e).contains(x) ==> p0.contains_key(x),
        ptree_pages(p1, cs[ci], e).disjoint(ptree_pages(p1, right, e)),
        old_or_new(p0, ptree_pages(p1, cs[ci], e), ptree_pages(p0, cs[ci], e)),
        old_or_new(p0, ptree_pages(p1, right, e), ptree_pages(p0, cs[ci], e)),
    ensures
        forall|i: int, j: int|
            0 <= i < j < cs.len() + 1 ==> ptree_pages(p1, #[trigger] cs.insert(ci + 1, right)[i], e).disjoint(
                ptree_pages(p1, #[trigger] cs.insert(ci + 1, right)[j], e),
            ),
        old_or_new(p0, ptree_run_pages(p1, cs.insert(ci + 1, right), e), ptree_run_pages(p0, cs, e)),
{
    let cs2 = cs.insert(ci + 1, right);
    assert forall|i: int, j: int| 0 <= i < j < cs2.len() implies ptree_pages(p1, #[trigger] cs2[i], e).disjoint(
        ptree_pages(p1, #[trigger] cs2[j], e),
    ) by {
        let oi = if i <= ci { i } else { i - 1 };
        let oj = if j <= ci { j } else { j - 1 };
        if (i == ci || i == ci + 1) && (j == ci || j == ci + 1) {
        } else if i == ci || i == ci + 1 {
            assert(cs2[j] == cs[oj]);
            assert(ptree_pages(p0, cs[ci], e).disjoint(ptree_pages(p0, cs[oj], e)));
            assert forall|x: u32| ptree_pages(p1, cs2[i], e).contains(x) implies !ptree_pages(p1, cs2[j], e).contains(x) by {
                if ptree_pages(p0, cs[oj], e).contains(x) {
                    assert(p0.contains_key(x));
                }
            }
        } else if j == ci || j == ci + 1 {
            assert(cs2[i] == cs[oi]);
            assert(ptree_pages(p0, cs[oi], e).disjoint(ptree_pages(p0, cs[ci], e)));
            assert forall|x: u32| ptree_pages(p1, cs2[j], e).contains(x) implies !ptree_pages(p1, cs2[i], e).contains(x) by {
                if ptree_pages(p0, cs[oi], e).contains(x) {
                    assert(p0.contains_key(x));
                }
            }
        } else {
            assert(cs2[i] == cs[oi] && cs2[j] == cs[oj]);
            assert(ptree_pages(p0, cs[oi], e).disjoint(ptree_pages(p0, cs[oj], e)));
        }
    }
    assert forall|x: u32| #[trigger] ptree_run_pages(p1, cs2, e).contains(x) implies ptree_run_pages(p0, cs, e).contains(x)
        || !p0.contains_key(x) by {
        lemma_run_pages_member(p1, cs2, e, x);
        lemma_run_pages_member(p0, cs, e, x);
        let i = choose|i: int| 0 <= i < cs2.len() && #[trigger] ptree_pages(p1, cs2[i], e).contains(x);
        if i < ci {
            assert(cs2[i] == cs[i]);
            assert(ptree_pages(p0, cs[i], e).contains(x));
        } else if i > ci + 1 {
            assert(cs2[i] == cs[i - 1]);
            assert(ptree_pages(p0, cs[i - 1], e).contains(x));
        } else if ptree_pages(p0, cs[ci], e).contains(x) {
        }
    }
}

/// Replacing child `ci` of a well-formed run by the two halves of its split
/// (the left one in the same page), with the separator `up` between them,
/// keeps the run well formed; the entries change only there.
#[verifier::rlimit(60)]
pub proof fn lemma_run_absorb(
    p0: Map<u32, PageImage>,
    p1: Map<u32, PageImage>,
    ks: Seq<Seq<u8>>,
    cs: Seq<u32>,
    lo: Option<Seq<u8>>,
    hi: Option<Seq<u8>>,
    e: nat,
    after: Option<u32>,
    ci: int,
    up: Seq<u8>,
    right: u32,
)
    requires
        run_wf(p0, ks, cs, lo, hi, e, after),
        0 <= ci < cs.len(),
        unchanged_outside(p0, p1, ptree_pages(p0, cs[ci], e)),
        ptree_wf(p1, cs[ci], child_lo(ks, ci, lo), Some(up), e, Some(first_leaf(p1, right, e))),
        ptree_wf(p1, right, Some(up), child_hi(ks, ci, hi), e, next_after(p0, cs, ci, e, after)),
        first_leaf(p1, cs[ci], e) == first_leaf(p0, cs[ci], e),
        ptree_pages(p1, cs[ci], e).disjoint(ptree_pages(p1, right, e)),
        old_or_new(p0, ptree_pages(p1, cs[ci], e), ptree_pages(p0, cs[ci], e)),
        old_or_new(p0, ptree_pages(p1, right, e), ptree_pages(p0, cs[ci], e)),
        byte_in_bounds(up, child_lo(ks, ci, lo), child_hi(ks, ci, hi)),
        child_lo(ks, ci, lo) matches Some(l) ==> lex_lt(l, up),
    ensures
        ({
            let ks2 = ks.insert(ci, up);
            let cs2 = cs.insert(ci + 1, right);
            &&& run_wf(p1, ks2, cs2, lo, hi, e, after)
            &&& ptree_run_entries(p1, cs2, e) == ptree_run_entries(p0, cs.subrange(0, ci), e) + ptree_entries(
                p1,
                cs[ci],
                e,
            ) + ptree_entries(p1, right, e) + ptree_run_entries(p0, cs.subrange(ci + 1, cs.len() as int), e)
            &&& old_or_new(p0, ptree_run_pages(p1, cs2, e), ptree_run_pages(p0, cs, e))
            &&& first_leaf(p1, cs2[0], e) == first_leaf(p0, cs[0], e)
        }),
{
    let ks2 = ks.insert(ci, up);
    let cs2 = cs.insert(ci + 1, right);
    assert(run_wf(p1, ks2, cs2, lo, hi, e, after) && old_or_new(p0, ptree_run_pages(p1, cs2, e), ptree_run_pages(p0, cs, e))) by {
        lemma_siblings_kept(p0, p1, ks, cs, lo, hi, e, after, ci);
        lemma_insert_separator(ks, lo, hi, ci, up);
        assert forall|i: int| 0 <= i < cs.len() && i != ci implies #[trigger] kept_child(p0, p1, ks, cs, lo, hi, e, after, i) by {}
        lemma_absorb_children(p0, p1, ks, cs, lo, hi, e, after, ci, up, right);
        lemma_absorb_pages(p0, p1, cs, e, ci, right);
    }
    let pre = cs.subrange(0, ci);
    let post = cs.subrange(ci + 1, cs.len() as int);
    assert(ptree_run_entries(p1, cs2, e) == ptree_run_entries(p0, pre, e) + ptree_entries(p1, cs[ci], e)
        + ptree_entries(p1, right, e) + ptree_run_entries(p0, post, e)) by {
        lemma_siblings_kept(p0, p1, ks, cs, lo, hi, e, after, ci);
        assert forall|i: int| 0 <= i < pre.len() implies ptree_entries(p1, #[trigger] pre[i], e) == ptree_entries(p0, pre[i], e)
            && ptree_pages(p1, pre[i], e) == ptree_pages(p0, pre[i], e) by {
            assert(pre[i] == cs[i]);
        }
        assert forall|i: int| 0 <= i < post.len() implies ptree_entries(p1, #[trigger] post[i], e) == ptree_entries(p0, post[i], e)
            && ptree_pages(p1, post[i], e) == ptree_pages(p0, post[i], e) by {
            assert(post[i] == cs[ci + 1 + i]);
        }
        lemma_run_frame(p0, p1, pre, e);
        lemma_run_frame(p0, p1, post, e);
        assert(cs2 =~= pre + seq![cs[ci], right] + post);
        assert(seq![cs[ci], right] =~= seq![cs[ci]] + seq![right]);
        lemma_run_add(p1, pre + seq![cs[ci], right], post, e);
        lemma_run_add(p1, pre, seq![cs[ci], right], e);
        lemma_run_add(p1, seq![cs[ci]], seq![right], e);
        lemma_run_one(p1, cs[ci], e);
        lemma_run_one(p1, right, e);
    }
    assert(first_leaf(p1, cs2[0], e) == first_leaf(p0, cs[0], e)) by {
        assert(cs2[0] == cs[0]);
        if ci > 0 {
            lemma_siblings_kept(p0, p1, ks, cs, lo, hi, e, after, ci);
        }
    }
}

/// The separators of a split run.
proof fn lemma_split_separators(ks: Seq<Seq<u8>>, lo: Option<Seq<u8>>, hi: Option<Seq<u8>>, mid: int)
    requires
        bytes_sorted(ks),
        forall|i: int| 0 <= i < ks.len() ==> byte_in_bounds(#[trigger] ks[i], lo, hi),
        0 < mid < ks.len(),
    ensures
        bytes_sorted(ks.subrange(0, mid)),
        bytes_sorted(ks.subrange(mid + 1, ks.len() as int)),
        forall|i: int| 0 <= i < mid ==> byte_in_bounds(#[trigger] ks.subrange(0, mid)[i], lo, Some(ks[mid])),
        forall|i: int|
            0 <= i < ks.len() - mid - 1 ==> byte_in_bounds(
                #[trigger] ks.subrange(mid + 1, ks.len() as int)[i],
                Some(ks[mid]),
                hi,
            ),
        byte_in_bounds(ks[mid], lo, hi),
        lo matches Some(l) ==> lex_lt(l, ks[mid]),
{
    let up = ks[mid];
    let lks = ks.subrange(0, mid);
    let rks = ks.subrange(mid + 1, ks.len() as int);
    assert(lex_lt(ks[0], up));
    assert(byte_in_bounds(ks[0], lo, hi));
    if let Some(l) = lo {
        lemma_lex_steps(l, ks[0], up);
    }
    assert forall|i: int| 0 <= i < mid implies byte_in_bounds(#[trigger] lks[i], lo, Some(up)) by {
        assert(lks[i] == ks[i]);
        assert(lex_lt(ks[i], ks[mid]));
    }
    assert forall|i: int| 0 <= i < ks.len() - mid - 1 implies byte_in_bounds(#[trigger] rks[i], Some(up), hi) by {
        assert(rks[i] == ks[mid + 1 + i]);
        assert(lex_lt(ks[mid], ks[mid + 1 + i]));
        lemma_lex_order(ks[mid], ks[mid + 1 + i], ks[mid]);
    }
    assert forall|i: int, j: int| 0 <= i < j < lks.len() implies lex_lt(#[trigger] lks[i], #[trigger] lks[j]) by {
        assert(lks[i] == ks[i] && lks[j] == ks[j]);
    }
    assert forall|i: int, j: int| 0 <= i < j < rks.len() implies lex_lt(#[trigger] rks[i], #[trigger] rks[j]) by {
        assert(rks[i] == ks[mid + 1 + i] && rks[j] == ks[mid + 1 + j]);
    }
}

/// A well-formed run of children split before child `mid + 1`, separator
/// `mid` moving up: both halves are well formed, the left one linked to the
/// first leaf of the right one.
#[verifier::rlimit(40)]
#[verifier::spinoff_prover]
pub proof fn lemma_run_split(
    pages: Map<u32, PageImage>,
    ks: Seq<Seq<u8>>,
    cs: Seq<u32>,
    lo: Option<Seq<u8>>,
    hi: Option<Seq<u8>>,
    e: nat,
    after: Option<u32>,
    mid: int,
)
    requires
        run_wf(pages, ks, cs, lo, hi, e, after),
        0 < mid < ks.len(),
    ensures
        ({
            let up = ks[mid];
            let lks = ks.subrange(0, mid);
            let lcs = cs.subrange(0, mid + 1);
            let rks = ks.subrange(mid + 1, ks.len() as int);
            let rcs = cs.subrange(mid + 1, cs.len() as int);
            &&& run_wf(pages, lks, lcs, lo, Some(up), e, Some(first_leaf(pages, rcs[0], e)))
            &&& run_wf(pages, rks, rcs, Some(up), hi, e, after)
            &&& ptree_run_entries(pages, cs, e) == ptree_run_entries(pages, lcs, e) + ptree_run_entries(pages, rcs, e)
            &&& ptree_run_pages(pages, cs, e) == ptree_run_pages(pages, lcs, e) + ptree_run_pages(pages, rcs, e)
            &&& ptree_run_pages(pages, lcs, e).disjoint(ptree_run_pages(pages, rcs, e))
            &&& byte_in_bounds(up, lo, hi)
            &&& (lo matches Some(l) ==> lex_lt(l, up))
        }),
{
    let up = ks[mid];
    let lks = ks.subrange(0, mid);
    let lcs = cs.subrange(0, mid + 1);
    let rks = ks.subrange(mid + 1, ks.len() as int);
    let rcs = cs.subrange(mid + 1, cs.len() as int);
    lemma_split_separators(ks, lo, hi, mid);
    assert forall|i: int| 0 <= i < lcs.len() implies ptree_wf(
        pages,
        #[trigger] lcs[i],
        child_lo(lks, i, lo),
        child_hi(lks, i, Some(up)),
        e,
        next_after(pages, lcs, i, e, Some(first_leaf(pages, rcs[0], e))),
    ) by {
        assert(lcs[i] == cs[i]);
        if i + 1 < lcs.len() {
            assert(lcs[i + 1] == cs[i + 1]);
        } else {
            assert(rcs[0] == cs[i + 1]);
        }
    }
    assert forall|i: int| 0 <= i < rcs.len() implies ptree_wf(
        pages,
        #[trigger] rcs[i],
        child_lo(rks, i, Some(up)),
        child_hi(rks, i, hi),
        e,
        next_after(pages, rcs, i, e, after),
    ) by {
        assert(rcs[i] == cs[mid + 1 + i]);
        if i + 1 < rcs.len() {
            assert(rcs[i + 1] == cs[mid + 2 + i]);
        }
    }
    lemma_split_pages(pages, cs, e, mid);
}

/// The pages of a run split before child `mid + 1`.
proof fn lemma_split_pages(pages: Map<u32, PageImage>, cs: Seq<u32>, e: nat, mid: int)
    requires
        0 < mid + 1 < cs.len(),
        forall|i: int, j: int|
            0 <= i < j < cs.len() ==> ptree_pages(pages, #[trigger] cs[i], e).disjoint(ptree_pages(pages, #[trigger] cs[j], e)),
    ensures
        ({
            let lcs = cs.subrange(0, mid + 1);
            let rcs = cs.subrange(mid + 1, cs.len() as int);
            &&& forall|i: int, j: int|
                0 <= i < j < lcs.len() ==> ptree_pages(pages, #[trigger] lcs[i], e).disjoint(ptree_pages(pages, #[trigger] lcs[j], e))
            &&& forall|i: int, j: int|
                0 <= i < j < rcs.len() ==> ptree_pages(pages, #[trigger] rcs[i], e).disjoint(ptree_pages(pages, #[trigger] rcs[j], e))
            &&& ptree_run_entries(pages, cs, e) == ptree_run_entries(pages, lcs, e) + ptree_run_entries(pages, rcs, e)
            &&& ptree_run_pages(pages, cs, e) == ptree_run_pages(pages, lcs, e) + ptree_run_pages(pages, rcs, e)
            &&& ptree_run_pages(pages, lcs, e).disjoint(ptree_run_pages(pages, rcs, e))
        }),
{
    let lcs = cs.subrange(0, mid + 1);
    let rcs = cs.subrange(mid + 1, cs.len() as int);
    assert forall|i: int, j: int| 0 <= i < j < lcs.len() implies ptree_pages(pages, #[trigger] lcs[i], e).disjoint(
        ptree_pages(pages, #[trigger] lcs[j], e),
    ) by {
        assert(lcs[i] == cs[i] && lcs[j] == cs[j]);
    }
    assert forall|i: int, j: int| 0 <= i < j < rcs.len() implies ptree_pages(pages, #[trigger] rcs[i], e).disjoint(
        ptree_pages(pages, #[trigger] rcs[j], e),
    ) by {
        assert(rcs[i] == cs[mid + 1 + i] && rcs[j] == cs[mid + 1 + j]);
    }
    assert(cs =~= lcs + rcs);
    lemma_run_add(pages, lcs, rcs, e);
    assert forall|x: u32| ptree_run_pages(pages, lcs, e).contains(x) implies !ptree_run_pages(pages, rcs, e).contains(x) by {
        lemma_run_pages_member(pages, lcs, e, x);
        lemma_run_pages_member(pages, rcs, e, x);
        let i = choose|i: int| 0 <= i < lcs.len() && #[trigger] ptree_pages(pages, lcs[i], e).contains(x);
        if ptree_run_pages(pages, rcs, e).contains(x) {
            let j = choose|j: int| 0 <= j < rcs.len() && #[trigger] ptree_pages(pages, rcs[j], e).contains(x);
            assert(lcs[i] == cs[i] && rcs[j] == cs[mid + 1 + j]);
            assert(ptree_pages(pages, cs[i], e).disjoint(ptree_pages(pages, cs[mid + 1 + j], e)));
        }
    }
}

/// Page map `p0` became `p1` by changing pages of `s_old` only (page 0
/// aside) and dropping none; a structure that used pages `s_old` now uses
/// `s_new`, each of them one of `s_old` or a page that was not in `p0`.
pub open spec fn confined(p0: Map<u32, PageImage>, p1: Map<u32, PageImage>, s_old: Set<u32>, s_new: Set<u32>) -> bool {
    &&& unchanged_outside(p0, p1, s_old)
    &&& old_or_new(p0, s_new, s_old)
    &&& forall|x: u32| #[trigger] p0.contains_key(x) && x != 0 ==> p1.contains_key(x)
}

/// After `(k, v)` was stored below page `pid` (a subtree of height `d`
/// with keys in `[lo, hi)` whose last leaf links to `after`), page map `p0`
/// became `p1`, and `s` is the split handed to the parent, if any. Pages
/// outside the subtree (but page 0) are unchanged and none is dropped; the
/// subtree keeps its first leaf and uses old pages of its own or new ones.
/// Without a split it stays well formed and holds the entries with `(k, v)`
/// stored; with a split `(up, right)` it holds those below `up` and the new
/// subtree at `right` those from `up` on.
pub open spec fn insert_post(
    p0: Map<u32, PageImage>,
    p1: Map<u32, PageImage>,
    pid: u32,
    lo: Option<Seq<u8>>,
    hi: Option<Seq<u8>>,
    d: nat,
    after: Option<u32>,
    k: Seq<u8>,
    v: Seq<u8>,
    s: Option<(Seq<u8>, u32)>,
) -> bool {
    &&& unchanged_outside(p0, p1, ptree_pages(p0, pid, d))
    &&& forall|x: u32| #[trigger] p0.contains_key(x) && x != 0 ==> p1.contains_key(x)
    &&& first_leaf(p1, pid, d) == first_leaf(p0, pid, d)
    &&& old_or_new(p0, ptree_pages(p1, pid, d), ptree_pages(p0, pid, d))
    &&& match s {
        None => {
            &&& ptree_wf(p1, pid, lo, hi, d, after)
            &&& ptree_entries(p1, pid, d) == byte_put(ptree_entries(p0, pid, d), k, v)
        },
        Some((up, right)) => {
            &&& ptree_wf(p1, pid, lo, Some(up), d, Some(first_leaf(p1, right, d)))
            &&& ptree_wf(p1, right, Some(up), hi, d, after)
            &&& byte_in_bounds(up, lo, hi)
            &&& (lo matches Some(l) ==> lex_lt(l, up))
            &&& ptree_entries(p1, pid, d) + ptree_entries(p1, right, d) == byte_put(
                ptree_entries(p0, pid, d),
                k,
                v,
            )
            &&& ptree_pages(p1, pid, d).disjoint(ptree_pages(p1, right, d))
            &&& old_or_new(p0, ptree_pages(p1, right, d), ptree_pages(p0, pid, d))
        },
    }
}

/// Storing `(k, v)` in a leaf whose keys `idx` splits at `k`: the value at
/// `idx` is replaced when the key is there, else the pair goes in at `idx`.
pub proof fn lemma_leaf_put(ks: Seq<Seq<u8>>, vs: Seq<Seq<u8>>, k: Seq<u8>, v: Seq<u8>, idx: int)
    requires
        ks.len() == vs.len(),
        bytes_sorted(ks),
        0 <= idx <= ks.len(),
        forall|j: int| 0 <= j < idx ==> lex_lt(#[trigger] ks[j], k),
        idx < ks.len() ==> !lex_lt(ks[idx], k),
    ensures
        idx < ks.len() && ks[idx] == k ==> leaf_entries(ks, vs.update(idx, v)) == byte_put(
            leaf_entries(ks, vs),
            k,
            v,
        ),
        !(idx < ks.len() && ks[idx] == k) ==> leaf_entries(ks.insert(idx, k), vs.insert(idx, v))
            == byte_put(leaf_entries(ks, vs), k, v),
{
    let es = leaf_entries(ks, vs);
    assert(is_byte_split_point(es, k, idx)) by {
        assert forall|q: int| 0 <= q < idx implies lex_lt(#[trigger] es[q].0, k) by {
            assert(es[q].0 == ks[q]);
        }
        assert forall|q: int| idx <= q < es.len() implies !lex_lt(#[trigger] es[q].0, k) by {
            assert(es[q].0 == ks[q]);
            if q > idx {
                assert(lex_lt(ks[idx], ks[q]));
                lemma_lex_order(ks[idx], ks[q], k);
                lemma_lex_order(k, ks[idx], ks[q]);
                lemma_lex_order(ks[q], k, ks[idx]);
            }
        }
    }
    lemma_byte_split_unique(es, k, idx);
    if idx < ks.len() && ks[idx] == k {
        assert(leaf_entries(ks, vs.update(idx, v)) =~= es.update(idx, (k, v)));
    } else {
        assert(leaf_entries(ks.insert(idx, k), vs.insert(idx, v)) =~= es.insert(idx, (k, v)));
    }
}

/// A leaf's entries ascend, or lie in bounds, exactly when its keys do.
pub proof fn lemma_leaf_keys(ks: Seq<Seq<u8>>, vs: Seq<Seq<u8>>, lo: Option<Seq<u8>>, hi: Option<Seq<u8>>)
    requires
        ks.len() == vs.len(),
    ensures
        byte_entries_sorted(leaf_entries(ks, vs)) <==> bytes_sorted(ks),
        byte_entries_within(leaf_entries(ks, vs), lo, hi) <==> forall|i: int|
            0 <= i < ks.len() ==> byte_in_bounds(#[trigger] ks[i], lo, hi),
{
    let es = leaf_entries(ks, vs);
    if byte_entries_sorted(es) {
        assert forall|i: int, j: int| 0 <= i < j < ks.len() implies lex_lt(#[trigger] ks[i], #[trigger] ks[j]) by {
            assert(es[i].0 == ks[i] && es[j].0 == ks[j]);
        }
    }
    if bytes_sorted(ks) {
        assert forall|i: int, j: int| 0 <= i < j < es.len() implies lex_lt(#[trigger] es[i].0, #[trigger] es[j].0) by {
            assert(es[i].0 == ks[i] && es[j].0 == ks[j]);
        }
    }
    if byte_entries_within(es, lo, hi) {
        assert forall|i: int| 0 <= i < ks.len() implies byte_in_bounds(#[trigger] ks[i], lo, hi) by {
            assert(es[i].0 == ks[i]);
        }
    }
    if forall|i: int| 0 <= i < ks.len() ==> byte_in_bounds(#[trigger] ks[i], lo, hi) {
        assert forall|i: int| 0 <= i < es.len() implies byte_in_bounds(#[trigger] es[i].0, lo, hi) by {
            assert(es[i].0 == ks[i]);
        }
    }
}

/// Storing a key within bounds keeps sorted entries within them.
pub proof fn lemma_put_within(es: Seq<ByteEntry>, k: Seq<u8>, v: Seq<u8>, lo: Option<Seq<u8>>, hi: Option<Seq<u8>>)
    requires
        byte_entries_sorted(es),
        byte_entries_within(es, lo, hi),
        byte_in_bounds(k, lo, hi),
    ensures
        byte_entries_within(byte_put(es, k, v), lo, hi),
        byte_entries_sorted(byte_put(es, k, v)),
{
    lemma_byte_split_exists(es, k);
    lemma_byte_put_lookup(es, k, v, k);
    let i = byte_split_point(es, k);
    let es2 = byte_put(es, k, v);
    assert forall|j: int| 0 <= j < es2.len() implies byte_in_bounds(#[trigger] es2[j].0, lo, hi) by {
        if es2.len() == es.len() {
            if j != i {
                assert(es2[j] == es[j]);
            }
        } else if j < i {
            assert(es2[j] == es[j]);
        } else if j > i {
            assert(es2[j] == es[j - 1]);
        }
    }
}

/// Rewriting a well-formed leaf with its entries and `(k, v)` stored.
pub proof fn lemma_leaf_rewrite(
    p0: Map<u32, PageImage>,
    p1: Map<u32, PageImage>,
    pid: u32,
    lo: Option<Seq<u8>>,
    hi: Option<Seq<u8>>,
    after: Option<u32>,
    k: Seq<u8>,
    v: Seq<u8>,
    nks: Seq<Seq<u8>>,
    nvs: Seq<Seq<u8>>,
)
    requires
        ptree_wf(p0, pid, lo, hi, 1, after),
        node_at(p0, pid) is Leaf,
        byte_in_bounds(k, lo, hi),
        nks.len() == nvs.len(),
        leaf_entries(nks, nvs) == byte_put(ptree_entries(p0, pid, 1), k, v),
        p1.contains_key(pid),
        spec_decode(p1[pid].data) == Ok::<NodeView, BTreeError>(
            NodeView::Leaf { keys: nks, values: nvs, next_leaf: after },
        ),
        forall|x: u32| x != pid && #[trigger] p0.contains_key(x) ==> p1.contains_key(x) && p1[x] == p0[x],
    ensures
        insert_post(p0, p1, pid, lo, hi, 1, after, k, v, None),
{
    lemma_ptree_sorted(p0, pid, lo, hi, 1, after);
    lemma_put_within(ptree_entries(p0, pid, 1), k, v, lo, hi);
    lemma_leaf_keys(nks, nvs, lo, hi);
    lemma_leaf_wf(p1, pid, lo, hi, after);
}

/// Splitting a leaf with `(k, v)` stored: the leaf at `pid` keeps the
/// entries before `mid` and links to the new leaf at `right`, which holds
/// the rest and links where the old leaf did.
pub proof fn lemma_leaf_split(
    p0: Map<u32, PageImage>,
    p1: Map<u32, PageImage>,
    pid: u32,
    lo: Option<Seq<u8>>,
    hi: Option<Seq<u8>>,
    after: Option<u32>,
    k: Seq<u8>,
    v: Seq<u8>,
    nks: Seq<Seq<u8>>,
    nvs: Seq<Seq<u8>>,
    mid: int,
    right: u32,
)
    requires
        ptree_wf(p0, pid, lo, hi, 1, after),
        node_at(p0, pid) is Leaf,
        byte_in_bounds(k, lo, hi),
        nks.len() == nvs.len(),
        leaf_entries(nks, nvs) == byte_put(ptree_entries(p0, pid, 1), k, v),
        0 < mid < nks.len(),
        right != 0,
        !p0.contains_key(right),
        p1.contains_key(pid),
        spec_decode(p1[pid].data) == Ok::<NodeView, BTreeError>(
            NodeView::Leaf {
                keys: nks.subrange(0, mid),
                values: nvs.subrange(0, mid),
                next_leaf: Some(right),
            },
        ),
        p1.contains_key(right),
        spec_decode(p1[right].data) == Ok::<NodeView, BTreeError>(
            NodeView::Leaf {
                keys: nks.subrange(mid, nks.len() as int),
                values: nvs.subrange(mid, nvs.len() as int),
                next_leaf: after,
            },
        ),
        forall|x: u32|
            x != pid && x != right && x != 0 && #[trigger] p0.contains_key(x) ==> p1.contains_key(x)
                && p1[x] == p0[x],
    ensures
        insert_post(p0, p1, pid, lo, hi, 1, after, k, v, Some((nks[mid], right))),
{
    lemma_node_shape(p0, pid, lo, hi, 1, after);
    lemma_ptree_sorted(p0, pid, lo, hi, 1, after);
    lemma_put_within(ptree_entries(p0, pid, 1), k, v, lo, hi);
    lemma_leaf_keys(nks, nvs, lo, hi);
    let up = nks[mid];
    let lks = nks.subrange(0, mid);
    let lvs = nvs.subrange(0, mid);
    let rks = nks.subrange(mid, nks.len() as int);
    let rvs = nvs.subrange(mid, nvs.len() as int);
    lemma_lex_order(up, up, up);
    assert forall|i: int| 0 <= i < lks.len() implies byte_in_bounds(#[trigger] lks[i], lo, Some(up)) by {
        assert(lks[i] == nks[i]);
        assert(lex_lt(nks[i], nks[mid]));
    }
    assert forall|i: int| 0 <= i < rks.len() implies byte_in_bounds(#[trigger] rks[i], Some(up), hi) by {
        assert(rks[i] == nks[mid + i]);
        if i > 0 {
            assert(lex_lt(nks[mid], nks[mid + i]));
            lemma_lex_order(up, rks[i], up);
        }
    }
    assert forall|i: int, j: int| 0 <= i < j < lks.len() implies lex_lt(#[trigger] lks[i], #[trigger] lks[j]) by {
        assert(lks[i] == nks[i] && lks[j] == nks[j]);
    }
    assert forall|i: int, j: int| 0 <= i < j < rks.len() implies lex_lt(#[trigger] rks[i], #[trigger] rks[j]) by {
        assert(rks[i] == nks[mid + i] && rks[j] == nks[mid + j]);
    }
    lemma_leaf_wf(p1, pid, lo, Some(up), Some(right));
    lemma_leaf_wf(p1, right, Some(up), hi, after);
    assert(byte_in_bounds(nks[0], lo, hi));
    assert(lex_lt(nks[0], up));
    if let Some(l) = lo {
        lemma_lex_steps(l, nks[0], up);
    }
    assert(byte_in_bounds(up, lo, hi));
    assert(leaf_entries(lks, lvs) + leaf_entries(rks, rvs) =~= leaf_entries(nks, nvs));
    assert(ptree_pages(p1, pid, 1).disjoint(ptree_pages(p1, right, 1)));
}

/// Storing `(k, v)` below child `ci` of a well-formed internal node, the
/// child not splitting: the node, unchanged, holds the entries with the pair
/// stored.
pub proof fn lemma_insert_keep(
    p0: Map<u32, PageImage>,
    p1: Map<u32, PageImage>,
    pid: u32,
    lo: Option<Seq<u8>>,
    hi: Option<Seq<u8>>,
    d: nat,
    after: Option<u32>,
    ci: int,
    k: Seq<u8>,
    v: Seq<u8>,
)
    requires
        ptree_wf(p0, pid, lo, hi, d, after),
        node_at(p0, pid) is Internal,
        0 <= ci < node_at(p0, pid)->Internal_children.len(),
        byte_in_bounds(
            k,
            child_lo(node_at(p0, pid)->Internal_keys, ci, lo),
            child_hi(node_at(p0, pid)->Internal_keys, ci, hi),
        ),
        insert_post(
            p0,
            p1,
            node_at(p0, pid)->Internal_children[ci],
            child_lo(node_at(p0, pid)->Internal_keys, ci, lo),
            child_hi(node_at(p0, pid)->Internal_keys, ci, hi),
            (d - 1) as nat,
            next_after(p0, node_at(p0, pid)->Internal_children, ci, (d - 1) as nat, after),
            k,
            v,
            None,
        ),
    ensures
        insert_post(p0, p1, pid, lo, hi, d, after, k, v, None),
{
    let ks = node_at(p0, pid)->Internal_keys;
    let cs = node_at(p0, pid)->Internal_children;
    let e = (d - 1) as nat;
    lemma_internal_run(p0, pid, lo, hi, d, after);
    lemma_ptree_descend(p0, pid, lo, hi, d, after, ci, k, v);
    lemma_run_replace(p0, p1, ks, cs, lo, hi, e, after, ci);
    lemma_run_pages_member(p0, cs, e, pid);
    assert(p1[pid] == p0[pid]);
    lemma_run_internal(p1, pid, lo, hi, d, after);
    lemma_internal_run(p1, pid, lo, hi, d, after);
    assert forall|x: u32| #[trigger] p0.contains_key(x) && !ptree_pages(p0, pid, d).contains(x) && x != 0 implies p1.contains_key(x) && p1[x] == p0[x] by {
        lemma_run_pages_member(p0, cs, e, x);
    }
    let pre = cs.subrange(0, ci);
    let post = cs.subrange(ci + 1, cs.len() as int);
    assert(ptree_entries(p1, pid, d) == byte_put(ptree_entries(p0, pid, d), k, v));
}

/// Storing `(k, v)` below child `ci` of a well-formed internal node, the
/// child splitting into `(up, right)`: the node's children with `right`
/// taken in after child `ci`, and `up` before it, make a well-formed run
/// holding the entries with the pair stored.
#[verifier::rlimit(60)]
#[verifier::spinoff_prover]
proof fn lemma_absorb_facts(
    p0: Map<u32, PageImage>,
    p1: Map<u32, PageImage>,
    pid: u32,
    lo: Option<Seq<u8>>,
    hi: Option<Seq<u8>>,
    d: nat,
    after: Option<u32>,
    ci: int,
    k: Seq<u8>,
    v: Seq<u8>,
    up: Seq<u8>,
    right: u32,
)
    requires
        ptree_wf(p0, pid, lo, hi, d, after),
        node_at(p0, pid) is Internal,
        0 <= ci < node_at(p0, pid)->Internal_children.len(),
        byte_in_bounds(
            k,
            child_lo(node_at(p0, pid)->Internal_keys, ci, lo),
            child_hi(node_at(p0, pid)->Internal_keys, ci, hi),
        ),
        insert_post(
            p0,
            p1,
            node_at(p0, pid)->Internal_children[ci],
            child_lo(node_at(p0, pid)->Internal_keys, ci, lo),
            child_hi(node_at(p0, pid)->Internal_keys, ci, hi),
            (d - 1) as nat,
            next_after(p0, node_at(p0, pid)->Internal_children, ci, (d - 1) as nat, after),
            k,
            v,
            Some((up, right)),
        ),
    ensures
        ({
            let ks = node_at(p0, pid)->Internal_keys;
            let cs = node_at(p0, pid)->Internal_children;
            let e = (d - 1) as nat;
            let ks2 = ks.insert(ci, up);
            let cs2 = cs.insert(ci + 1, right);
            &&& d > 1
            &&& pid != 0
            &&& p0.contains_key(pid)
            &&& p1.contains_key(pid)
            &&& cs.len() == ks.len() + 1
            &&& ptree_pages(p0, pid, d) == set![pid] + ptree_run_pages(p0, cs, e)
            &&& run_wf(p1, ks2, cs2, lo, hi, e, after)
            &&& byte_put(ptree_entries(p0, pid, d), k, v) == ptree_run_entries(p1, cs2, e)
            &&& old_or_new(p0, ptree_run_pages(p1, cs2, e), ptree_run_pages(p0, cs, e))
            &&& !ptree_run_pages(p1, cs2, e).contains(pid)
            &&& first_leaf(p1, cs2[0], e) == first_leaf(p0, pid, d)
            &&& forall|x: u32|
                #[trigger] p0.contains_key(x) && !ptree_pages(p0, pid, d).contains(x) && x != 0
                    ==> p1.contains_key(x) && p1[x] == p0[x]
            &&& forall|x: u32|
                #[trigger] ptree_run_pages(p1, cs2, e).contains(x) ==> p1.contains_key(x) && x != 0
        }),
{
    let ks = node_at(p0, pid)->Internal_keys;
    let cs = node_at(p0, pid)->Internal_children;
    let e = (d - 1) as nat;
    let ks2 = ks.insert(ci, up);
    let cs2 = cs.insert(ci + 1, right);
    let a = ptree_run_entries(p0, cs.subrange(0, ci), e);
    let c = ptree_entries(p0, cs[ci], e);
    let b = ptree_run_entries(p0, cs.subrange(ci + 1, cs.len() as int), e);
    lemma_internal_run(p0, pid, lo, hi, d, after);
    assert(byte_put(ptree_entries(p0, pid, d), k, v) == a + byte_put(c, k, v) + b) by {
        lemma_ptree_descend(p0, pid, lo, hi, d, after, ci, k, v);
    }
    assert({
        &&& run_wf(p1, ks2, cs2, lo, hi, e, after)
        &&& ptree_run_entries(p1, cs2, e) == a + ptree_entries(p1, cs[ci], e) + ptree_entries(p1, right, e) + b
        &&& old_or_new(p0, ptree_run_pages(p1, cs2, e), ptree_run_pages(p0, cs, e))
        &&& first_leaf(p1, cs2[0], e) == first_leaf(p0, cs[0], e)
    }) by {
        lemma_run_absorb(p0, p1, ks, cs, lo, hi, e, after, ci, up, right);
    }
    assert(!ptree_run_pages(p1, cs2, e).contains(pid));
    assert forall|x: u32| #[trigger] ptree_run_pages(p1, cs2, e).contains(x) implies p1.contains_key(x) && x != 0 by {
        lemma_run_pages_in(p1, ks2, cs2, lo, hi, e, after);
        lemma_run_pages_member(p1, cs2, e, x);
    }
    assert forall|x: u32| #[trigger] p0.contains_key(x) && !ptree_pages(p0, pid, d).contains(x) && x != 0 implies p1.contains_key(x) && p1[x] == p0[x] by {
        lemma_run_pages_member(p0, cs, e, x);
    }
    let c1 = ptree_entries(p1, cs[ci], e);
    let r = ptree_entries(p1, right, e);
    assert(a + c1 + r + b =~= a + (c1 + r) + b);
    assert(cs2[0] == cs[0]);
}

/// Storing `(k, v)` below child `ci` of a well-formed internal node, the
/// child splitting into `(up, right)`, and the node rewritten with `up` and
/// `right` taken in after child `ci`: it holds the entries with the pair
/// stored.
#[verifier::rlimit(60)]
#[verifier::spinoff_prover]
pub proof fn lemma_insert_absorb(
    p0: Map<u32, PageImage>,
    p1: Map<u32, PageImage>,
    p2: Map<u32, PageImage>,
    pid: u32,
    lo: Option<Seq<u8>>,
    hi: Option<Seq<u8>>,
    d: nat,
    after: Option<u32>,
    ci: int,
    k: Seq<u8>,
    v: Seq<u8>,
    up: Seq<u8>,
    right: u32,
)
    requires
        ptree_wf(p0, pid, lo, hi, d, after),
        node_at(p0, pid) is Internal,
        0 <= ci < node_at(p0, pid)->Internal_children.len(),
        byte_in_bounds(
            k,
            child_lo(node_at(p0, pid)->Internal_keys, ci, lo),
            child_hi(node_at(p0, pid)->Internal_keys, ci, hi),
        ),
        insert_post(
            p0,
            p1,
            node_at(p0, pid)->Internal_children[ci],
            child_lo(node_at(p0, pid)->Internal_keys, ci, lo),
            child_hi(node_at(p0, pid)->Internal_keys, ci, hi),
            (d - 1) as nat,
            next_after(p0, node_at(p0, pid)->Internal_children, ci, (d - 1) as nat, after),
            k,
            v,
            Some((up, right)),
        ),
        p2.contains_key(pid),
        spec_decode(p2[pid].data) == Ok::<NodeView, BTreeError>(
            NodeView::Internal {
                keys: node_at(p0, pid)->Internal_keys.insert(ci, up),
                children: node_at(p0, pid)->Internal_children.insert(ci + 1, right),
            },
        ),
        forall|x: u32| x != pid && #[trigger] p1.contains_key(x) ==> p2.contains_key(x) && p2[x] == p1[x],
    ensures
        insert_post(p0, p2, pid, lo, hi, d, after, k, v, None),
{
    let ks = node_at(p0, pid)->Internal_keys;
    let cs = node_at(p0, pid)->Internal_children;
    let e = (d - 1) as nat;
    let ks2 = ks.insert(ci, up);
    let cs2 = cs.insert(ci + 1, right);
    lemma_absorb_facts(p0, p1, pid, lo, hi, d, after, ci, k, v, up, right);
    assert({
        &&& run_wf(p2, ks2, cs2, lo, hi, e, after)
        &&& ptree_run_entries(p2, cs2, e) == ptree_run_entries(p1, cs2, e)
        &&& ptree_run_pages(p2, cs2, e) == ptree_run_pages(p1, cs2, e)
        &&& first_leaf(p2, cs2[0], e) == first_leaf(p1, cs2[0], e)
    }) by {
        lemma_run_wf_frame(p1, p2, ks2, cs2, lo, hi, e, after);
    }
    lemma_run_internal(p2, pid, lo, hi, d, after);
    lemma_internal_run(p2, pid, lo, hi, d, after);
}

/// Storing `(k, v)` below child `ci` of a well-formed internal node, the
/// child splitting into `(up, right)`, and the node, with `up` and `right`
/// taken in, splitting in turn at separator `mid`: the node at `pid` keeps
/// the children up to `mid`, a new node at `nr` takes the rest, and
/// separator `mid` goes up.
#[verifier::rlimit(80)]
#[verifier::spinoff_prover]
pub proof fn lemma_insert_split(
    p0: Map<u32, PageImage>,
    p1: Map<u32, PageImage>,
    p2: Map<u32, PageImage>,
    pid: u32,
    lo: Option<Seq<u8>>,
    hi: Option<Seq<u8>>,
    d: nat,
    after: Option<u32>,
    ci: int,
    k: Seq<u8>,
    v: Seq<u8>,
    up: Seq<u8>,
    right: u32,
    mid: int,
    nr: u32,
)
    requires
        ptree_wf(p0, pid, lo, hi, d, after),
        node_at(p0, pid) is Internal,
        0 <= ci < node_at(p0, pid)->Internal_children.len(),
        byte_in_bounds(
            k,
            child_lo(node_at(p0, pid)->Internal_keys, ci, lo),
            child_hi(node_at(p0, pid)->Internal_keys, ci, hi),
        ),
        insert_post(
            p0,
            p1,
            node_at(p0, pid)->Internal_children[ci],
            child_lo(node_at(p0, pid)->Internal_keys, ci, lo),
            child_hi(node_at(p0, pid)->Internal_keys, ci, hi),
            (d - 1) as nat,
            next_after(p0, node_at(p0, pid)->Internal_children, ci, (d - 1) as nat, after),
            k,
            v,
            Some((up, right)),
        ),
        0 < mid <= node_at(p0, pid)->Internal_keys.len(),
        nr != 0,
        !p1.contains_key(nr),
        p2.contains_key(pid),
        spec_decode(p2[pid].data) == Ok::<NodeView, BTreeError>(
            NodeView::Internal {
                keys: node_at(p0, pid)->Internal_keys.insert(ci, up).subrange(0, mid),
                children: node_at(p0, pid)->Internal_children.insert(ci + 1, right).subrange(0, mid + 1),
            },
        ),
        p2.contains_key(nr),
        spec_decode(p2[nr].data) == Ok::<NodeView, BTreeError>(
            NodeView::Internal {
                keys: node_at(p0, pid)->Internal_keys.insert(ci, up).subrange(
                    mid + 1,
                    node_at(p0, pid)->Internal_keys.len() + 1int,
                ),
                children: node_at(p0, pid)->Internal_children.insert(ci + 1, right).subrange(
                    mid + 1,
                    node_at(p0, pid)->Internal_children.len() + 1int,
                ),
            },
        ),
        forall|x: u32|
            x != pid && x != nr && x != 0 && #[trigger] p1.contains_key(x) ==> p2.contains_key(x)
                && p2[x] == p1[x],
    ensures
        insert_post(
            p0,
            p2,
            pid,
            lo,
            hi,
            d,
            after,
            k,
            v,
            Some((node_at(p0, pid)->Internal_keys.insert(ci, up)[mid], nr)),
        ),
{
    let ks = node_at(p0, pid)->Internal_keys;
    let cs = node_at(p0, pid)->Internal_children;
    let e = (d - 1) as nat;
    let ks2 = ks.insert(ci, up);
    let cs2 = cs.insert(ci + 1, right);
    let up2 = ks2[mid];
    let lks = ks2.subrange(0, mid);
    let lcs = cs2.subrange(0, mid + 1);
    let rks = ks2.subrange(mid + 1, ks2.len() as int);
    let rcs = cs2.subrange(mid + 1, cs2.len() as int);
    lemma_absorb_facts(p0, p1, pid, lo, hi, d, after, ci, k, v, up, right);
    lemma_run_split(p1, ks2, cs2, lo, hi, e, after, mid);
    assert({
        &&& run_wf(p2, lks, lcs, lo, Some(up2), e, Some(first_leaf(p1, rcs[0], e)))
        &&& ptree_run_entries(p2, lcs, e) == ptree_run_entries(p1, lcs, e)
        &&& ptree_run_pages(p2, lcs, e) == ptree_run_pages(p1, lcs, e)
        &&& first_leaf(p2, lcs[0], e) == first_leaf(p1, lcs[0], e)
    }) by {
        assert forall|x: u32| #[trigger] ptree_run_pages(p1, lcs, e).contains(x) implies p2.contains_key(x) && p2[x] == p1[x] by {
            assert(ptree_run_pages(p1, cs2, e).contains(x));
        }
        lemma_run_wf_frame(p1, p2, lks, lcs, lo, Some(up2), e, Some(first_leaf(p1, rcs[0], e)));
    }
    assert({
        &&& run_wf(p2, rks, rcs, Some(up2), hi, e, after)
        &&& ptree_run_entries(p2, rcs, e) == ptree_run_entries(p1, rcs, e)
        &&& ptree_run_pages(p2, rcs, e) == ptree_run_pages(p1, rcs, e)
        &&& first_leaf(p2, rcs[0], e) == first_leaf(p1, rcs[0], e)
    }) by {
        assert forall|x: u32| #[trigger] ptree_run_pages(p1, rcs, e).contains(x) implies p2.contains_key(x) && p2[x] == p1[x] by {
            assert(ptree_run_pages(p1, cs2, e).contains(x));
        }
        lemma_run_wf_frame(p1, p2, rks, rcs, Some(up2), hi, e, after);
    }
    assert(!ptree_run_pages(p2, rcs, e).contains(nr)) by {
        if ptree_run_pages(p1, rcs, e).contains(nr) {
            assert(ptree_run_pages(p1, cs2, e).contains(nr));
        }
    }
    lemma_run_internal(p2, nr, Some(up2), hi, d, after);
    lemma_internal_run(p2, nr, Some(up2), hi, d, after);
    assert(first_leaf(p2, nr, d) == first_leaf(p2, rcs[0], e));
    assert(!ptree_run_pages(p2, lcs, e).contains(pid)) by {
        if ptree_run_pages(p1, lcs, e).contains(pid) {
            assert(ptree_run_pages(p1, cs2, e).contains(pid));
        }
    }
    lemma_run_internal(p2, pid, lo, Some(up2), d, Some(first_leaf(p2, nr, d)));
    lemma_internal_run(p2, pid, lo, Some(up2), d, Some(first_leaf(p2, nr, d)));
    assert(lcs[0] == cs2[0]);
    assert(ptree_pages(p2, pid, d).disjoint(ptree_pages(p2, nr, d))) by {
        assert forall|x: u32| ptree_pages(p2, pid, d).contains(x) implies !ptree_pages(p2, nr, d).contains(x) by {
            if ptree_run_pages(p1, lcs, e).contains(x) {
                assert(ptree_run_pages(p1, cs2, e).contains(x));
            }
            if ptree_run_pages(p1, rcs, e).contains(x) {
                assert(ptree_run_pages(p1, cs2, e).contains(x));
            }
        }
    }
    assert(old_or_new(p0, ptree_pages(p2, pid, d), ptree_pages(p0, pid, d))) by {
        assert forall|x: u32| #[trigger] ptree_pages(p2, pid, d).contains(x) implies ptree_pages(p0, pid, d).contains(x) || !p0.contains_key(x) by {
            if ptree_run_pages(p1, lcs, e).contains(x) {
                assert(ptree_run_pages(p1, cs2, e).contains(x));
            }
        }
    }
    assert(old_or_new(p0, ptree_pages(p2, nr, d), ptree_pages(p0, pid, d))) by {
        assert forall|x: u32| #[trigger] ptree_pages(p2, nr, d).contains(x) implies ptree_pages(p0, pid, d).contains(x) || !p0.contains_key(x) by {
            if ptree_run_pages(p1, rcs, e).contains(x) {
                assert(ptree_run_pages(p1, cs2, e).contains(x));
            }
        }
    }
}

/// A root that split into `(up, right)` goes below a new root at `nr`
/// holding `up` between the two: a well-formed tree one level taller,
/// holding the entries with the pair stored.
pub proof fn lemma_insert_new_root(
    p0: Map<u32, PageImage>,
    p1: Map<u32, PageImage>,
    p2: Map<u32, PageImage>,
    root: u32,
    d: nat,
    k: Seq<u8>,
    v: Seq<u8>,
    up: Seq<u8>,
    right: u32,
    nr: u32,
)
    requires
        ptree_wf(p0, root, None, None, d, None),
        insert_post(p0, p1, root, None, None, d, None, k, v, Some((up, right))),
        nr != 0,
        !p1.contains_key(nr),
        p2.contains_key(nr),
        spec_decode(p2[nr].data) == Ok::<NodeView, BTreeError>(
            NodeView::Internal { keys: seq![up], children: seq![root, right] },
        ),
        forall|x: u32| x != nr && x != 0 && #[trigger] p1.contains_key(x) ==> p2.contains_key(x) && p2[x] == p1[x],
    ensures
        ptree_wf(p2, nr, None, None, d + 1, None),
        ptree_entries(p2, nr, d + 1) == byte_put(ptree_entries(p0, root, d), k, v),
        confined(p0, p2, ptree_pages(p0, root, d), ptree_pages(p2, nr, d + 1)),
{
    let ks = seq![up];
    let cs = seq![root, right];
    lemma_node_shape(p0, root, None, None, d, None);
    lemma_ptree_pages_in(p1, root, None, Some(up), d, Some(first_leaf(p1, right, d)));
    lemma_ptree_pages_in(p1, right, Some(up), None, d, None);
    assert(run_wf(p1, ks, cs, None, None, d, None)) by {
        assert(cs[0] == root && cs[1] == right);
        assert(next_after(p1, cs, 0, d, None) == Some(first_leaf(p1, right, d)));
    }
    assert forall|x: u32| #[trigger] ptree_run_pages(p1, cs, d).contains(x) implies p2.contains_key(x) && p2[x] == p1[x] by {
        lemma_run_pages_member(p1, cs, d, x);
        assert(cs[0] == root && cs[1] == right);
    }
    lemma_run_wf_frame(p1, p2, ks, cs, None, None, d, None);
    assert(!ptree_run_pages(p2, cs, d).contains(nr)) by {
        lemma_run_pages_member(p1, cs, d, nr);
        assert(cs[0] == root && cs[1] == right);
    }
    lemma_run_internal(p2, nr, None, None, d + 1, None);
    lemma_internal_run(p2, nr, None, None, d + 1, None);
    assert(cs =~= seq![root] + seq![right]);
    lemma_run_add(p1, seq![root], seq![right], d);
    lemma_run_one(p1, root, d);
    lemma_run_one(p1, right, d);
    assert(ptree_pages(p2, nr, d + 1) == set![nr] + ptree_pages(p1, root, d) + ptree_pages(p1, right, d));
    assert forall|x: u32| #[trigger] p0.contains_key(x) && !ptree_pages(p0, root, d).contains(x) && x != 0 implies p2.contains_key(x) && p2[x] == p0[x] by {
        assert(p1.contains_key(x));
    }
}

/// Removing entry `idx`, whose key is `k`, from the leaf a lookup of `k`
/// reaches below page `pid` (no other page changing): the subtree stays
/// well formed with its first leaf, uses no page it did not use, and its
/// entries lose `k`. That leaf is a page of the subtree.
pub proof fn lemma_remove_at(
    p0: Map<u32, PageImage>,
    p1: Map<u32, PageImage>,
    pid: u32,
    lo: Option<Seq<u8>>,
    hi: Option<Seq<u8>>,
    d: nat,
    after: Option<u32>,
    k: Seq<u8>,
    idx: int,
)
    requires
        ptree_wf(p0, pid, lo, hi, d, after),
        byte_in_bounds(k, lo, hi),
        node_at(p0, route_leaf(p0, pid, k, d).0) matches NodeView::Leaf { keys, values, next_leaf }
            && 0 <= idx < keys.len() && keys[idx] == k && p1.contains_key(
            route_leaf(p0, pid, k, d).0,
        ) && spec_decode(p1[route_leaf(p0, pid, k, d).0].data) == Ok::<NodeView, BTreeError>(
            NodeView::Leaf { keys: keys.remove(idx), values: values.remove(idx), next_leaf },
        ),
        forall|x: u32|
            x != route_leaf(p0, pid, k, d).0 && #[trigger] p0.contains_key(x) ==> p1.contains_key(x)
                && p1[x] == p0[x],
    ensures
        ptree_wf(p1, pid, lo, hi, d, after),
        ptree_entries(p1, pid, d) == byte_remove(ptree_entries(p0, pid, d), k),
        old_or_new(p0, ptree_pages(p1, pid, d), ptree_pages(p0, pid, d)),
        first_leaf(p1, pid, d) == first_leaf(p0, pid, d),
        ptree_pages(p0, pid, d).contains(route_leaf(p0, pid, k, d).0),
    decreases d,
{
    lemma_node_shape(p0, pid, lo, hi, d, after);
    lemma_ptree_sorted(p0, pid, lo, hi, d, after);
    match node_at(p0, pid) {
        NodeView::Leaf { keys, values, next_leaf } => {
            let es = leaf_entries(keys, values);
            let nks = keys.remove(idx);
            let nvs = values.remove(idx);
            lemma_lex_order(k, k, k);
            assert(is_byte_split_point(es, k, idx)) by {
                assert forall|j: int| idx <= j < es.len() implies !lex_lt(#[trigger] es[j].0, k) by {
                    if j > idx {
                        assert(lex_lt(keys[idx], keys[j]));
                        lemma_lex_order(k, keys[j], k);
                    }
                }
            }
            lemma_byte_split_unique(es, k, idx);
            assert(leaf_entries(nks, nvs) =~= es.remove(idx));
            assert forall|i: int| 0 <= i < nks.len() implies byte_in_bounds(#[trigger] nks[i], lo, hi) by {
                if i < idx {
                    assert(nks[i] == keys[i]);
                } else {
                    assert(nks[i] == keys[i + 1]);
                }
            }
            assert forall|i: int, j: int| 0 <= i < j < nks.len() implies lex_lt(#[trigger] nks[i], #[trigger] nks[j]) by {
                let oi = if i < idx { i } else { i + 1 };
                let oj = if j < idx { j } else { j + 1 };
                assert(nks[i] == keys[oi] && nks[j] == keys[oj]);
            }
            lemma_leaf_wf(p1, pid, lo, hi, after);
        },
        NodeView::Internal { keys, children } => {
            let e = (d - 1) as nat;
            lemma_route_child(keys, k, lo, hi);
            let ci = route_child(keys, k);
            let child = children[ci];
            let clo = child_lo(keys, ci, lo);
            let chi = child_hi(keys, ci, hi);
            let cafter = next_after(p0, children, ci, e, after);
            lemma_remove_at(p0, p1, child, clo, chi, e, cafter, k, idx);
            lemma_internal_run(p0, pid, lo, hi, d, after);
            lemma_run_pages_member(p0, children, e, route_leaf(p0, pid, k, d).0);
            lemma_run_pages_member(p0, children, e, pid);
            assert(unchanged_outside(p0, p1, ptree_pages(p0, child, e)));
            assert(byte_remove(ptree_entries(p0, pid, d), k) == ptree_run_entries(p0, children.subrange(0, ci), e)
                + byte_remove(ptree_entries(p0, child, e), k) + ptree_run_entries(
                p0,
                children.subrange(ci + 1, children.len() as int),
                e,
            )) by {
                lemma_ptree_descend(p0, pid, lo, hi, d, after, ci, k, Seq::empty());
            }
            lemma_run_replace(p0, p1, keys, children, lo, hi, e, after, ci);
            assert(p1[pid] == p0[pid]);
            lemma_run_internal(p1, pid, lo, hi, d, after);
            lemma_internal_run(p1, pid, lo, hi, d, after);
        },
    }
}

} // verus!
