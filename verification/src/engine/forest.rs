//! The trees of an engine's tables as one forest: each well formed in the
//! tablespace's pages, no two sharing a page.
use super::catalog::TableMeta;
use crate::btree::pedit::{confined, lemma_ptree_pages_in};
use crate::btree::persistent::{lemma_small_frame, PersistentBtree};
use crate::btree::ptree::lemma_ptree_frame;
use crate::space::page_source::PageImage;
use vstd::prelude::*;

verus! {

/// Number of trees of a table: its clustered tree and one per index.
pub open spec fn tree_count(t: TableMeta) -> int {
    t.indexes@.len() + 1int
}

/// Tree `j` of table `t`: the clustered tree for `j == 0`, else the tree of
/// index `j - 1`.
pub open spec fn table_tree(t: TableMeta, j: int) -> PersistentBtree {
    if j == 0 {
        t.clustered
    } else {
        t.indexes@[j - 1].tree
    }
}

/// Tree `j` of table `i`.
pub open spec fn tree_at(tables: Seq<TableMeta>, i: int, j: int) -> PersistentBtree {
    table_tree(tables[i], j)
}

/// `(i, j)` names a tree of `tables`.
pub open spec fn is_tree(tables: Seq<TableMeta>, i: int, j: int) -> bool {
    0 <= i < tables.len() && 0 <= j < tree_count(tables[i])
}

/// The pages tree `j` of table `i` uses in `pages`.
pub open spec fn tree_pages(tables: Seq<TableMeta>, pages: Map<u32, PageImage>, i: int, j: int) -> Set<u32> {
    tree_at(tables, i, j).pages_in(pages)
}

/// Every tree of every table is well formed in `pages`, and no two trees
/// share a page.
pub open spec fn forest_wf(tables: Seq<TableMeta>, pages: Map<u32, PageImage>) -> bool {
    &&& forall|i: int, j: int| is_tree(tables, i, j) ==> (#[trigger] tree_at(tables, i, j)).wf_in(pages)
    &&& forall|i1: int, j1: int, i2: int, j2: int|
        is_tree(tables, i1, j1) && is_tree(tables, i2, j2) && (i1 != i2 || j1 != j2) ==> (#[trigger] tree_pages(
            tables,
            pages,
            i1,
            j1,
        )).disjoint(#[trigger] tree_pages(tables, pages, i2, j2))
}

/// A tree of the forest that is well formed and shares no page with the
/// pages `s` changed reads the same after the change.
proof fn lemma_tree_kept(t: PersistentBtree, p0: Map<u32, PageImage>, p1: Map<u32, PageImage>, s: Set<u32>)
    requires
        t.wf_in(p0),
        t.pages_in(p0).disjoint(s),
        crate::btree::pedit::unchanged_outside(p0, p1, s),
    ensures
        t.wf_in(p1),
        t.entries_in(p1) == t.entries_in(p0),
        t.pages_in(p1) == t.pages_in(p0),
        t.small_in(p1) == t.small_in(p0),
        forall|x: u32| #[trigger] t.pages_in(p0).contains(x) ==> p0.contains_key(x) && x != 0,
{
    lemma_ptree_pages_in(p0, t@.root_page_id, None, None, t@.height, None);
    assert forall|x: u32| #[trigger] t.pages_in(p0).contains(x) implies p1.contains_key(x) && p1[x] == p0[x] by {
        assert(!s.contains(x));
    }
    lemma_ptree_frame(p0, p1, t@.root_page_id, None, None, t@.height, None);
    lemma_small_frame(p0, p1, t@.root_page_id, t@.height);
}

/// Replacing tree `(ti, tj)` by a well-formed tree whose change of pages is
/// confined to its own pages keeps the forest well formed; every other
/// tree reads as before.
pub proof fn lemma_forest_step(
    t0: Seq<TableMeta>,
    t1: Seq<TableMeta>,
    p0: Map<u32, PageImage>,
    p1: Map<u32, PageImage>,
    ti: int,
    tj: int,
)
    requires
        forest_wf(t0, p0),
        is_tree(t0, ti, tj),
        t1.len() == t0.len(),
        forall|i: int| 0 <= i < t0.len() && i != ti ==> t1[i] == t0[i],
        tree_count(t1[ti]) == tree_count(t0[ti]),
        forall|j: int| 0 <= j < tree_count(t0[ti]) && j != tj ==> tree_at(t1, ti, j) == tree_at(t0, ti, j),
        tree_at(t1, ti, tj).wf_in(p1),
        confined(p0, p1, tree_pages(t0, p0, ti, tj), tree_pages(t1, p1, ti, tj)),
    ensures
        forest_wf(t1, p1),
        forall|i: int, j: int|
            is_tree(t1, i, j) && (i != ti || j != tj) ==> (#[trigger] tree_at(t1, i, j)).entries_in(p1)
                == tree_at(t0, i, j).entries_in(p0) && tree_at(t1, i, j) == tree_at(t0, i, j)
                && tree_at(t1, i, j).small_in(p1) == tree_at(t0, i, j).small_in(p0),
{
    let s = tree_pages(t0, p0, ti, tj);
    assert forall|i: int, j: int| is_tree(t1, i, j) && (i != ti || j != tj) implies {
        &&& is_tree(t0, i, j)
        &&& tree_at(t1, i, j) == tree_at(t0, i, j)
        &&& tree_at(t1, i, j).small_in(p1) == tree_at(t0, i, j).small_in(p0)
        &&& tree_at(t1, i, j).wf_in(p1)
        &&& tree_at(t1, i, j).entries_in(p1) == tree_at(t0, i, j).entries_in(p0)
        &&& tree_pages(t1, p1, i, j) == tree_pages(t0, p0, i, j)
        &&& forall|x: u32| #[trigger] tree_pages(t0, p0, i, j).contains(x) ==> p0.contains_key(x) && x != 0
    } by {
        if i != ti {
            assert(t1[i] == t0[i]);
        }
        assert(tree_at(t0, i, j).wf_in(p0));
        assert(tree_pages(t0, p0, i, j).disjoint(tree_pages(t0, p0, ti, tj)));
        lemma_tree_kept(tree_at(t0, i, j), p0, p1, s);
    }
    assert forall|i1: int, j1: int, i2: int, j2: int|
        is_tree(t1, i1, j1) && is_tree(t1, i2, j2) && (i1 != i2 || j1 != j2) implies (#[trigger] tree_pages(
            t1,
            p1,
            i1,
            j1,
        )).disjoint(#[trigger] tree_pages(t1, p1, i2, j2)) by {
        if (i1 != ti || j1 != tj) && (i2 != ti || j2 != tj) {
            assert(tree_pages(t0, p0, i1, j1).disjoint(tree_pages(t0, p0, i2, j2)));
        } else if i1 == ti && j1 == tj {
            assert(tree_pages(t0, p0, ti, tj).disjoint(tree_pages(t0, p0, i2, j2)));
            assert forall|x: u32| tree_pages(t1, p1, i1, j1).contains(x) implies !tree_pages(t1, p1, i2, j2).contains(x) by {
                if tree_pages(t0, p0, i2, j2).contains(x) {
                    assert(p0.contains_key(x));
                }
            }
        } else {
            assert(tree_pages(t0, p0, i1, j1).disjoint(tree_pages(t0, p0, ti, tj)));
            assert forall|x: u32| tree_pages(t1, p1, i1, j1).contains(x) implies !tree_pages(t1, p1, i2, j2).contains(x) by {
                if tree_pages(t0, p0, i1, j1).contains(x) {
                    assert(p0.contains_key(x));
                }
            }
        }
    }
}

/// Adding a new tree `(ni, nj)`, well formed on pages that were not in use,
/// with no other page changed, keeps the forest well formed; every other
/// tree reads as before.
pub proof fn lemma_forest_add(
    t0: Seq<TableMeta>,
    t1: Seq<TableMeta>,
    p0: Map<u32, PageImage>,
    p1: Map<u32, PageImage>,
    ni: int,
    nj: int,
)
    requires
        forest_wf(t0, p0),
        is_tree(t1, ni, nj),
        forall|i: int, j: int|
            is_tree(t1, i, j) && (i != ni || j != nj) ==> is_tree(t0, i, j) && tree_at(t1, i, j)
                == tree_at(t0, i, j),
        tree_at(t1, ni, nj).wf_in(p1),
        confined(p0, p1, Set::empty(), tree_pages(t1, p1, ni, nj)),
    ensures
        forest_wf(t1, p1),
        forall|i: int, j: int|
            is_tree(t1, i, j) && (i != ni || j != nj) ==> (#[trigger] tree_at(t1, i, j)).entries_in(p1)
                == tree_at(t0, i, j).entries_in(p0),
{
    let s = Set::<u32>::empty();
    assert forall|i: int, j: int| is_tree(t1, i, j) && (i != ni || j != nj) implies {
        &&& tree_at(t1, i, j).wf_in(p1)
        &&& tree_at(t1, i, j).entries_in(p1) == tree_at(t0, i, j).entries_in(p0)
        &&& tree_pages(t1, p1, i, j) == tree_pages(t0, p0, i, j)
        &&& forall|x: u32| #[trigger] tree_pages(t0, p0, i, j).contains(x) ==> p0.contains_key(x) && x != 0
    } by {
        assert(tree_at(t0, i, j).wf_in(p0));
        lemma_tree_kept(tree_at(t0, i, j), p0, p1, s);
    }
    assert forall|i1: int, j1: int, i2: int, j2: int|
        is_tree(t1, i1, j1) && is_tree(t1, i2, j2) && (i1 != i2 || j1 != j2) implies (#[trigger] tree_pages(
            t1,
            p1,
            i1,
            j1,
        )).disjoint(#[trigger] tree_pages(t1, p1, i2, j2)) by {
        if (i1 != ni || j1 != nj) && (i2 != ni || j2 != nj) {
            assert(tree_pages(t0, p0, i1, j1).disjoint(tree_pages(t0, p0, i2, j2)));
        } else if i1 == ni && j1 == nj {
            assert forall|x: u32| tree_pages(t1, p1, i1, j1).contains(x) implies !tree_pages(t1, p1, i2, j2).contains(x) by {
                if tree_pages(t0, p0, i2, j2).contains(x) {
                    assert(p0.contains_key(x));
                }
            }
        } else {
            assert forall|x: u32| tree_pages(t1, p1, i1, j1).contains(x) implies !tree_pages(t1, p1, i2, j2).contains(x) by {
                if tree_pages(t0, p0, i1, j1).contains(x) {
                    assert(p0.contains_key(x));
                }
            }
        }
    }
}

/// A forest stays well formed, each tree reading as before, when no page
/// but page 0 changed.
pub proof fn lemma_forest_frame(t: Seq<TableMeta>, p0: Map<u32, PageImage>, p1: Map<u32, PageImage>)
    requires
        forest_wf(t, p0),
        crate::btree::pedit::unchanged_outside(p0, p1, Set::empty()),
    ensures
        forest_wf(t, p1),
        forall|i: int, j: int|
            is_tree(t, i, j) ==> (#[trigger] tree_at(t, i, j)).entries_in(p1) == tree_at(t, i, j).entries_in(p0),
{
    assert forall|i: int, j: int| is_tree(t, i, j) implies {
        &&& tree_at(t, i, j).wf_in(p1)
        &&& tree_at(t, i, j).entries_in(p1) == tree_at(t, i, j).entries_in(p0)
        &&& tree_pages(t, p1, i, j) == tree_pages(t, p0, i, j)
    } by {
        assert(tree_at(t, i, j).wf_in(p0));
        lemma_tree_kept(tree_at(t, i, j), p0, p1, Set::empty());
    }
    assert forall|i1: int, j1: int, i2: int, j2: int|
        is_tree(t, i1, j1) && is_tree(t, i2, j2) && (i1 != i2 || j1 != j2) implies (#[trigger] tree_pages(
            t,
            p1,
            i1,
            j1,
        )).disjoint(#[trigger] tree_pages(t, p1, i2, j2)) by {
        assert(tree_pages(t, p0, i1, j1).disjoint(tree_pages(t, p0, i2, j2)));
    }
}

} // verus!
