//! The buffer pool.
//!
//! A page is read into a frame on first use and stays cached; a dirty frame
//! is written back before its frame is reused. When every frame is taken, the
//! least recently used clean frame is freed, after writing back at most one
//! dirty frame. A guard borrows the pool mutably, so no other pool operation
//! runs while it lives: the pin it would hold is never observed and frames
//! stay unpinned between operations.
use super::error::BufferError;
use super::frame::{Frame, FrameId};
use super::guard::PageGuard;
use super::lru::{
    lemma_without_absent, lemma_without_at, lemma_without_contains, lemma_without_no_duplicates,
    spec_without, LruOrder,
};
use crate::page::page::Page;
use crate::space::page_source::{image_of, zero_data, PageImage, PageSource};
use crate::space::space::Space;
use std::collections::HashMap;
use vstd::prelude::*;

verus! {

broadcast use vstd::std_specs::hash::group_hash_axioms;

/// A bounded page cache over a page store.
pub struct BufferPool<S: PageSource> {
    source: S,
    frames: Vec<Frame>,
    /// Cached page id to frame.
    pub table: HashMap<u32, FrameId>,
    lru_order: LruOrder,
    capacity: usize,
}

/// After a touch of `fid`, the order holds `fid` and every frame it held.
proof fn lemma_touch_covers(before: Seq<FrameId>, fid: FrameId)
    ensures
        forall|g: FrameId|
            (before.contains(g) || g == fid) ==> #[trigger] (seq![fid] + spec_without(before, fid)).contains(g),
{
    let after = seq![fid] + spec_without(before, fid);
    assert forall|g: FrameId| (before.contains(g) || g == fid) implies #[trigger] after.contains(g) by {
        if g == fid {
            assert(after[0] == fid);
        } else {
            lemma_without_contains(before, fid, g);
            let w = spec_without(before, fid);
            let k = choose|k: int| 0 <= k < w.len() && w[k] == g;
            assert(after[k + 1] == g);
        }
    }
}

/// After `touch`, an order without duplicates has none and holds the
/// frames it held plus the one touched.
pub(crate) proof fn lemma_touch_keeps(before: Seq<FrameId>, after: Seq<FrameId>, fid: FrameId, bound: nat)
    requires
        before.no_duplicates(),
        forall|i: int| 0 <= i < before.len() ==> before[i] < bound,
        fid < bound,
        (exists|i: int|
            0 <= i < before.len() && before[i] == fid && (forall|j: int|
                0 <= j < i ==> before[j] != fid) && after == seq![fid] + before.remove(i)) || (
        !before.contains(fid) && after == seq![fid] + before),
    ensures
        after.no_duplicates(),
        forall|i: int| 0 <= i < after.len() ==> after[i] < bound,
        after == seq![fid] + spec_without(before, fid),
{
    if exists|i: int|
        0 <= i < before.len() && before[i] == fid && (forall|j: int| 0 <= j < i ==> before[j] != fid)
            && after == seq![fid] + before.remove(i) {
        let i = choose|i: int|
            0 <= i < before.len() && before[i] == fid && (forall|j: int|
                0 <= j < i ==> before[j] != fid) && after == seq![fid] + before.remove(i);
        let r = before.remove(i);
        lemma_without_at(before, fid, i);
        assert forall|a: int| 0 <= a < r.len() implies r[a] != fid by {
            if a < i {
            } else {
                assert(r[a] == before[a + 1]);
            }
        }
        assert forall|a: int, b: int| 0 <= a < after.len() && 0 <= b < after.len() && a != b implies after[a]
            != after[b] by {
            if a > 0 && b > 0 {
                let x = if a - 1 < i {
                    a - 1
                } else {
                    a
                };
                let y = if b - 1 < i {
                    b - 1
                } else {
                    b
                };
                assert(after[a] == before[x]);
                assert(after[b] == before[y]);
            } else if a == 0 {
                assert(after[b] == r[b - 1]);
            } else {
                assert(after[a] == r[a - 1]);
            }
        }
        assert forall|a: int| 0 <= a < after.len() implies after[a] < bound by {
            if a > 0 {
                if a - 1 < i {
                    assert(after[a] == before[a - 1]);
                } else {
                    assert(after[a] == before[a]);
                }
            }
        }
    } else {
        lemma_without_absent(before, fid);
        assert forall|a: int, b: int| 0 <= a < after.len() && 0 <= b < after.len() && a != b implies after[a]
            != after[b] by {
            if a > 0 && b > 0 {
                assert(after[a] == before[a - 1]);
                assert(after[b] == before[b - 1]);
            } else if a == 0 {
                assert(after[b] == before[b - 1]);
                assert(before.contains(before[b - 1]));
            } else {
                assert(after[a] == before[a - 1]);
                assert(before.contains(before[a - 1]));
            }
        }
        assert forall|a: int| 0 <= a < after.len() implies after[a] < bound by {
            if a > 0 {
                assert(after[a] == before[a - 1]);
            }
        }
    }
}

/// Position `m` of `c` holds the first frame of `c` that caches a page and
/// is not pinned.
pub open spec fn first_unpinned_at(c: Seq<FrameId>, frames: Seq<Frame>, m: int) -> bool {
    &&& 0 <= m < c.len()
    &&& c[m] < frames.len()
    &&& frames[c[m] as int].page_id is Some
    &&& frames[c[m] as int].pin_count == 0
    &&& forall|j: int|
        0 <= j < m ==> !((#[trigger] frames[c[j] as int]).page_id is Some && frames[c[j] as int].pin_count == 0)
}

/// Frame `fid` is the one a full pool frees: going from the least recently
/// used end of `lru` (which lists frames most recently used first), it is
/// the first frame that caches a page and is not pinned.
pub open spec fn lru_victim(lru: Seq<FrameId>, frames: Seq<Frame>, fid: FrameId) -> bool {
    exists|m: int| 0 <= m < lru.len() && lru.reverse()[m] == fid && first_unpinned_at(lru.reverse(), frames, m)
}

/// The frame at position `m` of the LRU scan `c` is the first unpinned
/// frame with a page when every frame with a page before it is dirty, and
/// each frame with a page comes at or after a clean one.
proof fn lemma_victim(c: Seq<FrameId>, before: Seq<Frame>, now: Seq<Frame>, m: int)
    requires
        0 <= m < c.len(),
        c[m] < before.len(),
        before.len() == now.len(),
        forall|f: int| 0 <= f < now.len() ==> (#[trigger] now[f]).page_id == before[f].page_id,
        forall|f: int| 0 <= f < before.len() ==> (#[trigger] before[f]).pin_count == 0,
        now[c[m] as int].page_id is Some,
        forall|j: int|
            0 <= j < c.len() && (#[trigger] now[c[j] as int]).page_id is Some ==> exists|i: int|
                0 <= i <= j && now[c[i] as int].page_id is Some && !now[c[i] as int].is_dirty,
        forall|j: int| 0 <= j < m ==> (#[trigger] now[c[j] as int]).page_id is None || now[c[j] as int].is_dirty,
        forall|j: int| 0 <= j < c.len() ==> #[trigger] c[j] < before.len(),
    ensures
        first_unpinned_at(c, before, m),
{
    assert(before[c[m] as int].page_id is Some);
    assert forall|j: int| 0 <= j < m implies !((#[trigger] before[c[j] as int]).page_id is Some
        && before[c[j] as int].pin_count == 0) by {
        assert(c[j] < before.len());
        if before[c[j] as int].page_id is Some {
            assert(now[c[j] as int].page_id is Some);
            let i = choose|i: int| 0 <= i <= j && now[c[i] as int].page_id is Some && !now[c[i] as int].is_dirty;
            assert(now[c[i] as int].page_id is None || now[c[i] as int].is_dirty);
        }
    }
}

/// Law of the LRU policy: a full pool has at most one frame to free.
pub proof fn lemma_victim_unique(lru: Seq<FrameId>, frames: Seq<Frame>, a: FrameId, b: FrameId)
    requires
        lru_victim(lru, frames, a),
        lru_victim(lru, frames, b),
    ensures
        a == b,
{
    let c = lru.reverse();
    let ma = choose|m: int| 0 <= m < lru.len() && c[m] == a && first_unpinned_at(c, frames, m);
    let mb = choose|m: int| 0 <= m < lru.len() && c[m] == b && first_unpinned_at(c, frames, m);
    if ma < mb {
        assert(frames[c[ma] as int].page_id is Some);
    } else if mb < ma {
        assert(frames[c[mb] as int].page_id is Some);
    }
}

/// Removing a frame twice removes it once.
proof fn lemma_without_twice(s: Seq<FrameId>, x: FrameId)
    ensures
        spec_without(spec_without(s, x), x) == spec_without(s, x),
{
    lemma_without_contains(s, x, x);
    lemma_without_absent(spec_without(s, x), x);
}

/// Number of dirty frames.
pub open spec fn spec_dirty_count(frames: Seq<Frame>) -> nat
    decreases frames.len(),
{
    if frames.len() == 0 {
        0
    } else {
        spec_dirty_count(frames.drop_last()) + if frames.last().is_dirty {
            1nat
        } else {
            0nat
        }
    }
}

impl<S: PageSource> BufferPool<S> {
    /// Frame `f` is consistent with the table and, if clean and not in
    /// `stale`, with the store.
    closed spec fn frame_ok(&self, f: int, stale: Set<u32>) -> bool {
        let fr = self.frames@[f];
        &&& fr.pin_count == 0
        &&& fr.page_id is None ==> !fr.is_dirty
        &&& fr.page_id matches Some(pid) ==> {
            &&& fr.page.wf()
            &&& self.table@.contains_key(pid)
            &&& self.table@[pid] == f
            &&& (!fr.is_dirty && !stale.contains(pid)) ==> self.source.pages().contains_key(pid)
                && self.source.pages()[pid] == image_of(fr.page@)
        }
    }

    /// Well-formedness, except that cached copies of the pages in `stale`
    /// may be out of date.
    closed spec fn wf_except(&self, stale: Set<u32>) -> bool {
        &&& 1 <= self.capacity
        &&& self.frames@.len() <= self.capacity
        &&& self.source.valid()
        &&& forall|pid: u32| #[trigger]
            self.table@.contains_key(pid) ==> self.table@[pid] < self.frames@.len()
                && self.frames@[self.table@[pid] as int].page_id == Some(pid)
        &&& forall|pid: u32| #[trigger]
            self.table@.contains_key(pid) && !stale.contains(pid) ==> self.source.pages().contains_key(pid)
        &&& forall|f: int|
            0 <= f < self.frames@.len() && (#[trigger] self.frames@[f]).page_id is Some
                ==> self.lru_order@.contains(f as FrameId)
        &&& forall|f: int| 0 <= f < self.frames@.len() ==> #[trigger] self.frame_ok(f, stale)
        &&& self.lru_order@.no_duplicates()
        &&& forall|i: int|
            0 <= i < self.lru_order@.len() ==> #[trigger] self.lru_order@[i] < self.frames@.len()
    }

    /// The pool is consistent: the table and the frames agree, and every
    /// clean cached page equals the stored one.
    pub closed spec fn wf(&self) -> bool {
        self.wf_except(Set::empty())
    }

    /// `frame_ok` depends on the frames, the table and the stored pages only.
    proof fn lemma_same_frames_ok(a: &Self, b: &Self)
        requires
            a.frames@ == b.frames@,
            a.table@ == b.table@,
            a.source.pages() == b.source.pages(),
        ensures
            forall|f: int, stale: Set<u32>| #[trigger] a.frame_ok(f, stale) == b.frame_ok(f, stale),
    {
    }

    /// The pages as seen through the pool: cached copies over the store.
    pub closed spec fn pages(&self) -> Map<u32, PageImage> {
        Map::new(
            |id: u32| self.table@.contains_key(id) || self.source.pages().contains_key(id),
            |id: u32|
                if self.table@.contains_key(id) {
                    image_of(self.frames@[self.table@[id] as int].page@)
                } else {
                    self.source.pages()[id]
                },
        )
    }

    /// Law of flushing: once no cached page is dirty, the store holds
    /// exactly the pages seen through the pool.
    pub proof fn lemma_flushed_pool(&self)
        requires
            self.wf(),
            forall|f: int| 0 <= f < self.frames_view().len() ==> !(#[trigger] self.frames_view()[f]).is_dirty,
        ensures
            self.source_view().pages() == self.pages(),
    {
        assert forall|id: u32| #[trigger] self.table@.contains_key(id) implies self.source.pages().contains_key(id)
            && self.source.pages()[id] == image_of(self.frames@[self.table@[id] as int].page@) by {
            let f = self.table@[id] as int;
            assert(self.frame_ok(f, Set::empty()));
            assert(!self.frames_view()[f].is_dirty);
        }
        assert(self.source.pages() =~= self.pages());
    }

    /// Caching page `page_id` needs no eviction: it is cached already, a
    /// frame is free, or the pool is below capacity.
    pub open spec fn room_for(&self, page_id: u32) -> bool {
        ||| self.table_view().contains_key(page_id)
        ||| exists|f: int| 0 <= f < self.frames_view().len() && (#[trigger] self.frames_view()[f]).page_id is None
        ||| self.frames_view().len() < self.spec_capacity()
    }

    /// The LRU order of the frames, least recently used last.
    pub closed spec fn lru_view(&self) -> Seq<FrameId> {
        self.lru_order@
    }

    /// In a well-formed pool the LRU order holds no frame twice and only
    /// frames of the pool.
    pub proof fn lemma_lru_distinct(&self)
        requires
            self.wf(),
        ensures
            self.lru_view().no_duplicates(),
            forall|i: int| 0 <= i < self.lru_view().len() ==> #[trigger] self.lru_view()[i] < self.frames_view().len(),
    {
    }

    /// Frame capacity.
    pub closed spec fn spec_capacity(&self) -> nat {
        self.capacity as nat
    }

    /// The frames in use.
    pub closed spec fn frames_view(&self) -> Seq<Frame> {
        self.frames@
    }

    /// The underlying store.
    pub closed spec fn source_view(&self) -> S {
        self.source
    }

    /// The cached page ids and their frames.
    pub closed spec fn table_view(&self) -> Map<u32, FrameId> {
        self.table@
    }

    /// A pool over `source` with room for `capacity` frames.
    pub fn with_source(source: S, capacity: usize) -> (r: Self)
        requires
            capacity >= 1,
            source.valid(),
        ensures
            r.wf(),
            r.pages() == source.pages(),
            r.spec_capacity() == capacity,
            r.frames_view().len() == 0,
            r.source_view() == source,
    {
        let r = BufferPool {
            source,
            frames: Vec::new(),
            table: HashMap::new(),
            lru_order: LruOrder::new(),
            capacity,
        };
        assert(r.pages() =~= source.pages());
        r
    }

    /// Gives the underlying store back; cached changes not yet flushed are
    /// dropped with the pool.
    pub fn into_source(self) -> (r: S)
        ensures
            r == self.source_view(),
    {
        self.source
    }

    /// Frame capacity.
    pub fn capacity(&self) -> (r: usize)
        ensures
            r == self.spec_capacity(),
    {
        self.capacity
    }

    /// Frames in use (cached or free).
    pub fn used_frames(&self) -> (r: usize)
        ensures
            r == self.frames_view().len(),
    {
        self.frames.len()
    }

    /// Number of dirty frames.
    pub fn dirty_frame_count(&self) -> (r: usize)
        ensures
            r == spec_dirty_count(self.frames_view()),
    {
        let mut n: usize = 0;
        let mut i: usize = 0;
        while i < self.frames.len()
            invariant
                i <= self.frames@.len(),
                n == spec_dirty_count(self.frames@.take(i as int)),
                n <= i,
            decreases self.frames@.len() - i,
        {
            assert(self.frames@.take(i + 1).drop_last() =~= self.frames@.take(i as int));
            if self.frames[i].is_dirty {
                n = n + 1;
            }
            i = i + 1;
        }
        assert(self.frames@.take(i as int) =~= self.frames@);
        n
    }

    /// Moves `fid` to the front of the LRU order.
    fn touch(&mut self, fid: FrameId)
        requires
            old(self).lru_order@.no_duplicates(),
            forall|i: int|
                0 <= i < old(self).lru_order@.len() ==> #[trigger] old(self).lru_order@[i]
                    < old(self).frames@.len(),
            fid < old(self).frames@.len(),
        ensures
            final(self).lru_order@.no_duplicates(),
            forall|i: int|
                0 <= i < final(self).lru_order@.len() ==> #[trigger] final(self).lru_order@[i]
                    < final(self).frames@.len(),
            final(self).lru_order@ == seq![fid] + spec_without(old(self).lru_order@, fid),
            final(self).frames == old(self).frames,
            final(self).table == old(self).table,
            final(self).source == old(self).source,
            final(self).capacity == old(self).capacity,
    {
        let ghost before = self.lru_order@;
        self.lru_order.touch(fid);
        proof {
            lemma_touch_keeps(before, self.lru_order@, fid, self.frames@.len());
        }
    }

    /// Page `page_id` was fetched into the full pool `before`, giving
    /// `after`, in frame `fid`: the frame the LRU policy frees (see
    /// [`lru_victim`]). Its old page left the page table and the store holds
    /// it as the pool showed it (written back first if it was dirty).
    pub open spec fn evicted_for(before: Self, after: Self, page_id: u32, fid: FrameId) -> bool {
        let old_pid = before.frames_view()[fid as int].page_id->0;
        &&& lru_victim(before.lru_view(), before.frames_view(), fid)
        &&& before.frames_view()[fid as int].page_id is Some
        &&& after.table_view() == before.table_view().remove(old_pid).insert(page_id, fid)
        &&& after.source_view().pages().contains_key(old_pid)
        &&& after.source_view().pages()[old_pid] == before.pages()[old_pid]
    }

    /// The frame caching `page_id`, reading the page in if needed.
    fn fetch_frame(&mut self, page_id: u32) -> (r: Result<FrameId, BufferError>)
        requires
            old(self).wf(),
        ensures
            final(self).wf(),
            final(self).pages() == old(self).pages(),
            final(self).capacity == old(self).capacity,
            final(self).source.fresh_alloc() == old(self).source.fresh_alloc(),
            final(self).source.writable() == old(self).source.writable(),
            final(self).source.reads_succeed() == old(self).source.reads_succeed(),
            final(self).source.alloc_room() == old(self).source.alloc_room(),
            old(self).source.writable() && old(self).source.reads_succeed() && old(self).pages().contains_key(page_id) ==> r is Ok,
            r matches Ok(fid) ==> {
                &&& fid < final(self).frames@.len()
                &&& final(self).frames@[fid as int].page_id == Some(page_id)
                &&& final(self).table@.contains_key(page_id)
                &&& final(self).table@[page_id] == fid
                &&& old(self).pages().contains_key(page_id)
                &&& image_of(final(self).frames@[fid as int].page@) == old(self).pages()[page_id]
            },
            r matches Ok(fid) ==> (old(self).table@.contains_key(page_id) ==> fid == old(self).table@[page_id]
                && final(self).frames@[fid as int] == old(self).frames@[fid as int]) && (!old(self).table@.contains_key(
                page_id,
            ) ==> !final(self).frames@[fid as int].is_dirty),
            old(self).room_for(page_id) ==> (r matches Ok(fid) ==> final(self).frames@.len() >= old(self).frames@.len()
                && forall|f: int|
                0 <= f < old(self).frames@.len() && f != fid ==> #[trigger] final(self).frames@[f]
                    == old(self).frames@[f]),
            !old(self).room_for(page_id) ==> (r matches Ok(fid) ==> Self::evicted_for(*old(self), *final(self), page_id, fid)),
            r matches Ok(fid) ==> final(self).lru_order@ == seq![fid] + spec_without(old(self).lru_order@, fid),
    {
        match self.table.get(&page_id) {
            Some(f) => {
                let fid = *f;
                proof {
                    assert(old(self).frame_ok(fid as int, Set::empty()));
                }
                self.touch(fid);
                proof {
                    Self::lemma_same_frames_ok(&*self, &*old(self));
                    assert(self.pages() =~= old(self).pages());
                    lemma_touch_covers(old(self).lru_order@, fid);
                    assert forall|f: int|
                        0 <= f < self.frames@.len() && (#[trigger] self.frames@[f]).page_id is Some
                            implies self.lru_order@.contains(f as FrameId) by {
                        assert(old(self).lru_order@.contains(f as FrameId));
                    }
                }
                return Ok(fid);
            },
            None => {},
        }
        let fid = match self.acquire_frame() {
            Ok(f) => f,
            Err(e) => return Err(e),
        };
        let ghost mid = *self;
        proof {
            if old(self).pages().contains_key(page_id) {
                assert(!old(self).table@.contains_key(page_id));
                assert(!self.table@.contains_key(page_id));
                assert(self.pages().contains_key(page_id));
                assert(self.source.pages().contains_key(page_id));
            }
        }
        let page = match self.source.read_page(page_id) {
            Ok(p) => p,
            Err(e) => {
                proof {
                    Self::lemma_same_frames_ok(&*self, &mid);
                    assert(self.pages() =~= old(self).pages());
                }
                return Err(BufferError::Space(e));
            },
        };
        let ghost before_lru = self.lru_order@;
        proof {
            lemma_without_twice(old(self).lru_order@, fid);
        }
        self.frames.set(fid, Frame { page_id: Some(page_id), page, pin_count: 0, is_dirty: false });
        self.table.insert(page_id, fid);
        self.touch(fid);
        proof {
            assert forall|f: int| 0 <= f < self.frames@.len() implies #[trigger] self.frame_ok(
                f,
                Set::empty(),
            ) by {
                assert(mid.frame_ok(f, Set::empty()));
            }
            assert(self.pages() =~= old(self).pages());
            lemma_touch_covers(before_lru, fid);
            assert forall|f: int|
                0 <= f < self.frames@.len() && (#[trigger] self.frames@[f]).page_id is Some
                    implies self.lru_order@.contains(f as FrameId) by {
                if f != fid {
                    assert(mid.frames@[f] == self.frames@[f]);
                    assert(before_lru.contains(f as FrameId));
                }
            }
            assert forall|pid: u32| #[trigger]
                self.table@.contains_key(pid) && !Set::<u32>::empty().contains(pid)
                    implies self.source.pages().contains_key(pid) by {
                if pid != page_id {
                    assert(mid.table@.contains_key(pid));
                }
            }
            if !old(self).room_for(page_id) {
                let m = choose|m: int|
                    0 <= m < old(self).lru_order@.len() && old(self).lru_order@.reverse()[m] == fid
                        && first_unpinned_at(old(self).lru_order@.reverse(), old(self).frames@, m);
                let old_pid = old(self).frames@[fid as int].page_id->0;
                assert(old(self).frame_ok(fid as int, Set::empty()));
                assert(old(self).pages().contains_key(old_pid));
                assert(!mid.table@.contains_key(old_pid));
                assert(mid.pages().contains_key(old_pid));
                assert(mid.source.pages().contains_key(old_pid));
                assert(mid.pages()[old_pid] == mid.source.pages()[old_pid]);
                assert(self.source.pages() == mid.source.pages());
                assert(self.table@ =~= old(self).table@.remove(old_pid).insert(page_id, fid));
            }
        }
        Ok(fid)
    }

    /// The first frame caching no page.
    fn find_free(&self) -> (r: Option<FrameId>)
        ensures
            r matches Some(i) ==> i < self.frames@.len() && self.frames@[i as int].page_id is None
                && forall|j: int| 0 <= j < i ==> (#[trigger] self.frames@[j]).page_id is Some,
            r is None ==> forall|j: int| 0 <= j < self.frames@.len() ==> (#[trigger] self.frames@[j]).page_id is Some,
    {
        let mut i: usize = 0;
        while i < self.frames.len()
            invariant
                i <= self.frames@.len(),
                forall|j: int| 0 <= j < i ==> (#[trigger] self.frames@[j]).page_id is Some,
            decreases self.frames@.len() - i,
        {
            if self.frames[i].page_id.is_none() {
                return Some(i);
            }
            i = i + 1;
        }
        None
    }

    /// A free frame: an unused one, a new one while below capacity, or an
    /// evicted one.
    fn acquire_frame(&mut self) -> (r: Result<FrameId, BufferError>)
        requires
            old(self).wf(),
        ensures
            final(self).wf(),
            final(self).pages() == old(self).pages(),
            final(self).capacity == old(self).capacity,
            final(self).source.fresh_alloc() == old(self).source.fresh_alloc(),
            final(self).source.writable() == old(self).source.writable(),
            final(self).source.reads_succeed() == old(self).source.reads_succeed(),
            final(self).source.alloc_room() == old(self).source.alloc_room(),
            forall|pid: u32| #[trigger]
                final(self).table@.contains_key(pid) ==> old(self).table@.contains_key(pid),
            r matches Ok(fid) ==> fid < final(self).frames@.len() && final(self).frames@[fid as int].page_id
                is None,
            old(self).source.writable() ==> r is Ok,
            (exists|f: int| 0 <= f < old(self).frames@.len() && (#[trigger] old(self).frames@[f]).page_id is None)
                || old(self).frames@.len() < old(self).capacity ==> final(self).frames@.len() >= old(self).frames@.len()
                && final(self).frames@.subrange(0, old(self).frames@.len() as int) == old(self).frames@,
            !(exists|f: int| 0 <= f < old(self).frames@.len() && (#[trigger] old(self).frames@[f]).page_id is None)
                && old(self).frames@.len() >= old(self).capacity ==> (r matches Ok(fid) ==> lru_victim(
                old(self).lru_order@,
                old(self).frames@,
                fid,
            ) && final(self).table@ == old(self).table@.remove(old(self).frames@[fid as int].page_id->0)),
            r matches Ok(fid) ==> final(self).lru_order@ == old(self).lru_order@ || final(self).lru_order@
                == spec_without(old(self).lru_order@, fid),
    {
        match self.find_free() {
            Some(i) => return Ok(i),
            None => {},
        }
        if self.frames.len() < self.capacity {
            let idx = self.frames.len();
            let ghost mid = *self;
            self.frames.push(Frame::free());
            proof {
                assert forall|f: int| 0 <= f < self.frames@.len() implies #[trigger] self.frame_ok(
                    f,
                    Set::empty(),
                ) by {
                    if f < idx {
                        assert(mid.frame_ok(f, Set::empty()));
                    }
                }
                assert(self.pages() =~= old(self).pages());
            }
            return Ok(idx);
        }
        proof {
            assert(self.frames@[0].page_id is Some);
        }
        self.evict_lru()
    }

    /// Writes back the first dirty frame in LRU order, then frees the least
    /// recently used clean frame; `PoolFull` when there is none.
    #[verifier::rlimit(80)]
    #[verifier::spinoff_prover]
    fn evict_lru(&mut self) -> (r: Result<FrameId, BufferError>)
        requires
            old(self).wf(),
        ensures
            final(self).wf(),
            final(self).pages() == old(self).pages(),
            final(self).capacity == old(self).capacity,
            final(self).source.fresh_alloc() == old(self).source.fresh_alloc(),
            final(self).source.writable() == old(self).source.writable(),
            final(self).source.reads_succeed() == old(self).source.reads_succeed(),
            final(self).source.alloc_room() == old(self).source.alloc_room(),
            final(self).frames@.len() == old(self).frames@.len(),
            forall|pid: u32| #[trigger]
                final(self).table@.contains_key(pid) ==> old(self).table@.contains_key(pid),
            r matches Ok(fid) ==> fid < final(self).frames@.len() && final(self).frames@[fid as int].page_id
                is None,
            r matches Ok(fid) ==> lru_victim(old(self).lru_order@, old(self).frames@, fid)
                && final(self).table@ == old(self).table@.remove(old(self).frames@[fid as int].page_id->0)
                && final(self).lru_order@ == spec_without(old(self).lru_order@, fid),
            old(self).source.writable() && (exists|f: int|
                0 <= f < old(self).frames@.len() && (#[trigger] old(self).frames@[f]).page_id is Some)
                ==> r is Ok,
    {
        let ghost prem = self.source.writable() && (exists|f: int|
            0 <= f < self.frames@.len() && (#[trigger] self.frames@[f]).page_id is Some);
        let mut any_dirty_flushed = false;
        let candidates = self.lru_order.iter_lru();
        let mut k: usize = 0;
        while k < candidates.len()
            invariant
                self.wf(),
                self.pages() == old(self).pages(),
                self.capacity == old(self).capacity,
                self.source.fresh_alloc() == old(self).source.fresh_alloc(),
                self.source.writable() == old(self).source.writable(),
                self.source.reads_succeed() == old(self).source.reads_succeed(),
                self.source.alloc_room() == old(self).source.alloc_room(),
                self.table@ == old(self).table@,
                self.lru_order@ == old(self).lru_order@,
                candidates@ == self.lru_order@.reverse(),
                k <= candidates@.len(),
                self.frames@.len() == old(self).frames@.len(),
                forall|f: int| 0 <= f < self.frames@.len() ==> (#[trigger] self.frames@[f]).page_id
                    == old(self).frames@[f].page_id,
                prem == (old(self).source.writable() && (exists|f: int|
                    0 <= f < old(self).frames@.len() && (#[trigger] old(self).frames@[f]).page_id is Some)),
                prem && !any_dirty_flushed ==> forall|j: int|
                    0 <= j < k ==> (#[trigger] self.frames@[candidates@[j] as int]).page_id is Some
                        ==> !self.frames@[candidates@[j] as int].is_dirty,
                any_dirty_flushed ==> exists|g: int|
                    0 <= g < self.frames@.len() && (#[trigger] self.frames@[g]).page_id is Some
                        && !self.frames@[g].is_dirty,
                forall|j: int|
                    0 <= j < k && (#[trigger] self.frames@[candidates@[j] as int]).page_id is Some ==> exists|i: int|
                        0 <= i <= j && self.frames@[candidates@[i] as int].page_id is Some
                            && !self.frames@[candidates@[i] as int].is_dirty,
                any_dirty_flushed ==> exists|j: int|
                    0 <= j < k && (#[trigger] self.frames@[candidates@[j] as int]).page_id is Some,
            decreases candidates@.len() - k,
        {
            let fid = candidates[k];
            k = k + 1;
            assert(self.lru_order@[self.lru_order@.len() - 1 - (k - 1)] == fid);
            proof {
                assert(self.frame_ok(fid as int, Set::empty()));
            }
            if self.frames[fid].page_id.is_none() || self.frames[fid].pin_count > 0 {
                continue ;
            }
            if self.frames[fid].is_dirty {
                if any_dirty_flushed {
                    continue ;
                }
                let pid = match self.frames[fid].page_id {
                    Some(p) => p,
                    None => 0,
                };
                let ghost mid = *self;
                proof {
                    assert(self.frame_ok(fid as int, Set::empty()));
                    assert(self.table@.contains_key(pid));
                    assert(!Set::<u32>::empty().contains(pid));
                }
                match self.source.write_page(pid, &self.frames[fid].page) {
                    Ok(()) => {},
                    Err(e) => {
                        proof {
                            assert forall|f: int| 0 <= f < self.frames@.len() implies #[trigger] self.frame_ok(
                                f,
                                Set::empty(),
                            ) by {
                                assert(mid.frame_ok(f, Set::empty()));
                            }
                            assert(self.pages() =~= old(self).pages());
                        }
                        return Err(BufferError::Space(e));
                    },
                }
                self.frames[fid].is_dirty = false;
                any_dirty_flushed = true;
                proof {
                    assert forall|f: int| 0 <= f < self.frames@.len() implies #[trigger] self.frame_ok(
                        f,
                        Set::empty(),
                    ) by {
                        assert(mid.frame_ok(f, Set::empty()));
                        if f != fid {
                            let q = mid.frames@[f];
                            if q.page_id is Some && q.page_id != Some(pid) {
                            }
                        }
                    }
                    assert(self.pages() =~= old(self).pages());
                    assert(self.frames@[fid as int].page_id is Some && !self.frames@[fid as int].is_dirty);
                    assert forall|f: int| 0 <= f < self.frames@.len() implies (#[trigger] self.frames@[f]).page_id
                        == old(self).frames@[f].page_id by {
                        assert(mid.frames@[f].page_id == old(self).frames@[f].page_id);
                    }
                    assert forall|f: int|
                        0 <= f < self.frames@.len() && (#[trigger] self.frames@[f]).page_id is Some
                            implies self.lru_order@.contains(f as FrameId) by {
                        assert(mid.frames@[f].page_id == self.frames@[f].page_id);
                    }
                }
            }
        }
        let ghost flushed = any_dirty_flushed;
        let ghost first = candidates@;
        proof {
            if prem && !flushed {
                let f = choose|f: int|
                    0 <= f < old(self).frames@.len() && (#[trigger] old(self).frames@[f]).page_id is Some;
                assert(self.frames@[f].page_id is Some);
                assert(self.lru_order@.contains(f as FrameId));
                let idx = choose|idx: int| 0 <= idx < self.lru_order@.len() && self.lru_order@[idx] == f as FrameId;
                assert(first[self.lru_order@.len() - 1 - idx] == f as FrameId);
                assert(self.frames@[first[self.lru_order@.len() - 1 - idx] as int].page_id is Some);
                assert(!self.frames@[f].is_dirty);
            }
        }
        let candidates = self.lru_order.iter_lru();
        proof {
            assert forall|f: int| 0 <= f < old(self).frames@.len() implies (#[trigger] old(self).frames@[f]).pin_count == 0 by {
                assert(old(self).frame_ok(f, Set::empty()));
            }
            if prem {
                let g = choose|g: int|
                    0 <= g < self.frames@.len() && (#[trigger] self.frames@[g]).page_id is Some
                        && !self.frames@[g].is_dirty;
                assert(self.frame_ok(g, Set::empty()));
                assert(self.lru_order@.contains(g as FrameId));
                let idx = choose|idx: int| 0 <= idx < self.lru_order@.len() && self.lru_order@[idx] == g as FrameId;
                assert(candidates@[self.lru_order@.len() - 1 - idx] == g as FrameId);
                assert(self.frames@[candidates@[self.lru_order@.len() - 1 - idx] as int].page_id is Some);
            }
        }
        let mut k: usize = 0;
        while k < candidates.len()
            invariant
                self.wf(),
                self.pages() == old(self).pages(),
                self.capacity == old(self).capacity,
                self.source.fresh_alloc() == old(self).source.fresh_alloc(),
                self.source.writable() == old(self).source.writable(),
                self.source.reads_succeed() == old(self).source.reads_succeed(),
                self.source.alloc_room() == old(self).source.alloc_room(),
                self.frames@.len() == old(self).frames@.len(),
                forall|pid: u32| #[trigger]
                    self.table@.contains_key(pid) ==> old(self).table@.contains_key(pid),
                candidates@ == self.lru_order@.reverse(),
                k <= candidates@.len(),
                forall|f: int| 0 <= f < old(self).frames@.len() ==> (#[trigger] old(self).frames@[f]).pin_count == 0,
                self.table@ == old(self).table@,
                self.lru_order@ == old(self).lru_order@,
                forall|f: int| 0 <= f < self.frames@.len() ==> (#[trigger] self.frames@[f]).page_id
                    == old(self).frames@[f].page_id,
                forall|j: int|
                    0 <= j < candidates@.len() && (#[trigger] self.frames@[candidates@[j] as int]).page_id is Some
                        ==> exists|i: int|
                        0 <= i <= j && self.frames@[candidates@[i] as int].page_id is Some
                            && !self.frames@[candidates@[i] as int].is_dirty,
                forall|j: int|
                    0 <= j < k ==> (#[trigger] self.frames@[candidates@[j] as int]).page_id is None
                        || self.frames@[candidates@[j] as int].is_dirty,
                prem ==> exists|m: int|
                    k <= m < candidates@.len() && (#[trigger] self.frames@[candidates@[m] as int]).page_id is Some
                        && self.frames@[candidates@[m] as int].pin_count == 0
                        && !self.frames@[candidates@[m] as int].is_dirty,
            decreases candidates@.len() - k,
        {
            let fid = candidates[k];
            k = k + 1;
            assert(self.lru_order@[self.lru_order@.len() - 1 - (k - 1)] == fid);
            proof {
                assert(self.frame_ok(fid as int, Set::empty()));
            }
            if self.frames[fid].is_evictable() {
                let old_pid = match self.frames[fid].page_id {
                    Some(p) => p,
                    None => 0,
                };
                let ghost mid = *self;
                proof {
                    assert(self.frame_ok(fid as int, Set::empty()));
                    assert(candidates@[k - 1] == fid);
                    lemma_victim(candidates@, old(self).frames@, self.frames@, k - 1);
                    assert(old(self).lru_order@.reverse() == candidates@);
                }
                self.table.remove(&old_pid);
                let ghost before_lru = self.lru_order@;
                self.lru_order.remove(fid);
                self.frames[fid].page_id = None;
                proof {
                    lemma_without_no_duplicates(before_lru, fid);
                    assert forall|i: int|
                        0 <= i < self.lru_order@.len() implies #[trigger] self.lru_order@[i]
                        < self.frames@.len() by {
                        lemma_without_contains(before_lru, fid, self.lru_order@[i]);
                        let j = choose|j: int| 0 <= j < before_lru.len() && before_lru[j] == self.lru_order@[i];
                    }
                    assert forall|f: int| 0 <= f < self.frames@.len() implies #[trigger] self.frame_ok(
                        f,
                        Set::empty(),
                    ) by {
                        assert(mid.frame_ok(f, Set::empty()));
                    }
                    assert(self.pages() =~= old(self).pages());
                    assert forall|f: int|
                        0 <= f < self.frames@.len() && (#[trigger] self.frames@[f]).page_id is Some
                            implies self.lru_order@.contains(f as FrameId) by {
                        assert(mid.frames@[f] == self.frames@[f]);
                        lemma_without_contains(before_lru, fid, f as FrameId);
                    }
                    assert forall|q: u32| #[trigger]
                        self.table@.contains_key(q) && !Set::<u32>::empty().contains(q)
                            implies self.source.pages().contains_key(q) by {
                        assert(mid.table@.contains_key(q));
                    }
                }
                return Ok(fid);
            }
        }
        Err(BufferError::PoolFull)
    }

    /// Drops the cached copy of `pid`, if any; the pool then shows the
    /// stored page.
    fn uncache(&mut self, pid: u32, Ghost(stale): Ghost<Set<u32>>)
        requires
            old(self).wf_except(stale),
        ensures
            final(self).wf_except(stale.remove(pid)),
            final(self).source == old(self).source,
            final(self).capacity == old(self).capacity,
            !final(self).table@.contains_key(pid),
            forall|j: u32| #[trigger]
                final(self).table@.contains_key(j) ==> old(self).table@.contains_key(j),
            forall|j: u32|
                j != pid ==> (#[trigger] final(self).pages().contains_key(j) == old(self).pages().contains_key(j) && (old(self).pages().contains_key(j) ==> final(self).pages()[j] == old(self).pages()[j])),
    {
        let fid = match self.table.get(&pid) {
            Some(f) => *f,
            None => {
                proof {
                    Self::lemma_same_frames_ok(&*self, &*old(self));
                    assert forall|f: int| 0 <= f < self.frames@.len() implies #[trigger] self.frame_ok(
                        f,
                        stale.remove(pid),
                    ) by {
                        assert(old(self).frame_ok(f, stale));
                    }
                }
                return ;
            },
        };
        let ghost mid = *self;
        proof {
            assert(mid.frame_ok(fid as int, stale));
        }
        self.table.remove(&pid);
        let ghost before_lru = self.lru_order@;
        self.lru_order.remove(fid);
        self.frames[fid].page_id = None;
        self.frames[fid].is_dirty = false;
        proof {
            lemma_without_no_duplicates(before_lru, fid);
            assert forall|i: int|
                0 <= i < self.lru_order@.len() implies #[trigger] self.lru_order@[i]
                < self.frames@.len() by {
                lemma_without_contains(before_lru, fid, self.lru_order@[i]);
                let j = choose|j: int| 0 <= j < before_lru.len() && before_lru[j] == self.lru_order@[i];
            }
            assert forall|f: int| 0 <= f < self.frames@.len() implies #[trigger] self.frame_ok(
                f,
                stale.remove(pid),
            ) by {
                assert(mid.frame_ok(f, stale));
            }
            assert forall|f: int|
                0 <= f < self.frames@.len() && (#[trigger] self.frames@[f]).page_id is Some
                    implies self.lru_order@.contains(f as FrameId) by {
                assert(mid.frames@[f] == self.frames@[f]);
                lemma_without_contains(before_lru, fid, f as FrameId);
            }
            assert forall|q: u32| #[trigger]
                self.table@.contains_key(q) && !stale.remove(pid).contains(q)
                    implies self.source.pages().contains_key(q) by {
                assert(mid.table@.contains_key(q));
            }
        }
    }

    /// Allocates a page in the store. Cached copies of the allocated page and
    /// of page 0, which the allocation rewrote in the store, are dropped.
    pub(crate) fn allocate_uncached(&mut self) -> (r: Result<u32, BufferError>)
        requires
            old(self).wf(),
        ensures
            final(self).wf(),
            final(self).spec_capacity() == old(self).spec_capacity(),
            old(self).source_view().fresh_alloc() ==> final(self).source_view().fresh_alloc() && (
            r matches Ok(id) ==> id != 0 && !old(self).pages().contains_key(id)),
            final(self).source_view().writable() == old(self).source_view().writable(),
            final(self).source_view().reads_succeed() == old(self).source_view().reads_succeed(),
            old(self).source_view().alloc_room() > 0 ==> r is Ok,
            final(self).source_view().alloc_room() + 1 >= old(self).source_view().alloc_room(),
            r is Err ==> final(self).pages() == old(self).pages(),
            r matches Ok(id) ==> !final(self).table_view().contains_key(id),
            r matches Ok(id) ==> {
                &&& final(self).pages().contains_key(id)
                &&& final(self).pages()[id].data == zero_data()
                &&& forall|j: u32|
                    j != id && j != 0 ==> (#[trigger] final(self).pages().contains_key(j) == old(self).pages().contains_key(j) && (old(self).pages().contains_key(j) ==> final(self).pages()[j] == old(self).pages()[j]))
            },
    {
        let ghost before = *self;
        let id = match self.source.allocate_page() {
            Ok(id) => id,
            Err(e) => {
                proof {
                    Self::lemma_same_frames_ok(&*self, &before);
                    assert(self.pages() =~= before.pages());
                }
                return Err(BufferError::Space(e));
            },
        };
        let ghost stale = set![id, 0u32];
        proof {
            assert forall|f: int| 0 <= f < self.frames@.len() implies #[trigger] self.frame_ok(
                f,
                stale,
            ) by {
                assert(before.frame_ok(f, Set::empty()));
                if let Some(pid) = self.frames@[f].page_id {
                    if pid != id && pid != 0 {
                        assert(self.source.pages().contains_key(pid)
                            == before.source.pages().contains_key(pid));
                    }
                }
            }
        }
        let ghost s1 = *self;
        self.uncache(id, Ghost(stale));
        self.uncache(0, Ghost(stale.remove(id)));
        proof {
            assert(stale.remove(id).remove(0) =~= Set::<u32>::empty());
            assert forall|j: u32| j != id && j != 0 implies (#[trigger] self.pages().contains_key(j)
                == before.pages().contains_key(j) && (before.pages().contains_key(j)
                ==> self.pages()[j] == before.pages()[j])) by {
                assert(s1.pages().contains_key(j) == before.pages().contains_key(j));
                if before.pages().contains_key(j) {
                    assert(s1.pages()[j] == before.pages()[j]);
                }
            }
        }
        Ok(id)
    }

    /// A page fetched while not cached lands in a clean frame that the
    /// table maps it to, holding the stored page.
    proof fn lemma_fetched_fresh(before: Self, after: Self, id: u32, fid: FrameId)
        requires
            after.wf(),
            !before.table@.contains_key(id),
            fid < after.frames@.len(),
            after.frames@[fid as int].page_id == Some(id),
            after.table@.contains_key(id),
            after.table@[id] == fid,
            !before.table@.contains_key(id) ==> !after.frames@[fid as int].is_dirty,
        ensures
            Self::fresh_frame(after, id, fid),
    {
        assert(after.frame_ok(fid as int, Set::empty()));
    }

    /// Frame `fid` of `pool` caches page `id` clean, as the store holds it,
    /// and the page table maps `id` to it.
    pub open spec fn fresh_frame(pool: Self, id: u32, fid: FrameId) -> bool {
        &&& fid < pool.frames_view().len()
        &&& !pool.frames_view()[fid as int].is_dirty
        &&& pool.table_view().contains_key(id)
        &&& pool.table_view()[id] == fid
        &&& pool.source_view().pages().contains_key(id)
        &&& image_of(pool.frames_view()[fid as int].page@) == pool.source_view().pages()[id]
    }

    /// Allocates a page in the store and caches it.
    fn allocate_frame(&mut self) -> (r: Result<(u32, FrameId), BufferError>)
        requires
            old(self).wf(),
        ensures
            final(self).wf(),
            final(self).capacity == old(self).capacity,
            final(self).source.writable() == old(self).source.writable(),
            final(self).source.reads_succeed() == old(self).source.reads_succeed(),
            final(self).source.alloc_room() + 1 >= old(self).source.alloc_room(),
            old(self).source.writable() && old(self).source.reads_succeed() && old(self).source.alloc_room() > 0 ==> r is Ok,
            r matches Ok((id, fid)) ==> Self::fresh_frame(*final(self), id, fid),
            old(self).source.fresh_alloc() ==> (r matches Ok((id, fid)) ==> id != 0 && !old(self).pages().contains_key(id)),
            r matches Ok((id, fid)) ==> {
                &&& fid < final(self).frames@.len()
                &&& final(self).frames@[fid as int].page_id == Some(id)
                &&& final(self).pages().contains_key(id)
                &&& final(self).pages()[id].data == zero_data()
                &&& image_of(final(self).frames@[fid as int].page@) == final(self).pages()[id]
                &&& forall|j: u32|
                    j != id && j != 0 ==> (#[trigger] final(self).pages().contains_key(j) == old(self).pages().contains_key(j) && (old(self).pages().contains_key(j) ==> final(self).pages()[j] == old(self).pages()[j]))
            },
    {
        let id = match self.allocate_uncached() {
            Ok(id) => id,
            Err(e) => return Err(e),
        };
        let ghost t_mid = self.table@;
        let ghost mid = *self;
        let fid = match self.fetch_frame(id) {
            Ok(f) => f,
            Err(e) => return Err(e),
        };
        proof {
            Self::lemma_fetched_fresh(mid, *self, id, fid);
        }
        Ok((id, fid))
    }

    /// Pins page `page_id` in a frame, reading it in if needed.
    pub fn fetch_page(&mut self, page_id: u32) -> (r: Result<PageGuard<'_, S>, BufferError>)
        requires
            old(self).wf(),
        ensures
            old(self).source_view().writable() && old(self).source_view().reads_succeed() && old(self).pages().contains_key(page_id) ==> r is Ok,
            r matches Ok(g) ==> {
                &&& g.wf()
                &&& g.pool_view().pages() == old(self).pages()
                &&& g.page_id() == page_id
                &&& old(self).pages().contains_key(page_id)
                &&& image_of(g.page_view()@) == old(self).pages()[page_id]
                &&& g.pool_view().spec_capacity() == old(self).spec_capacity()
                &&& g.pool_view().table_view().contains_key(page_id)
                &&& g.pool_view().table_view()[page_id] == g.frame_index()
                &&& old(self).table_view().contains_key(page_id) ==> g.frame_index() == old(self).table_view()[page_id]
                    && g.pool_view().frames_view()[g.frame_index() as int] == old(self).frames_view()[g.frame_index() as int]
                &&& !old(self).table_view().contains_key(page_id) ==> !g.pool_view().frames_view()[g.frame_index() as int].is_dirty
                &&& old(self).room_for(page_id) ==> forall|f: int|
                    0 <= f < old(self).frames_view().len() && f != g.frame_index() ==> #[trigger] g.pool_view().frames_view()[f]
                        == old(self).frames_view()[f]
                &&& !old(self).room_for(page_id) ==> Self::evicted_for(*old(self), g.pool_view(), page_id, g.frame_index())
                &&& g.pool_view().lru_view() == seq![g.frame_index()] + spec_without(old(self).lru_view(), g.frame_index())
            },
    {
        let fid = match self.fetch_frame(page_id) {
            Ok(f) => f,
            Err(e) => return Err(e),
        };
        Ok(PageGuard::new(self, fid))
    }

    /// Allocates a page in the store and pins it in a frame.
    pub fn allocate_page(&mut self) -> (r: Result<PageGuard<'_, S>, BufferError>)
        requires
            old(self).wf(),
        ensures
            old(self).source_view().writable() && old(self).source_view().reads_succeed() && old(self).source_view().alloc_room() > 0 ==> r is Ok,
            r matches Ok(g) ==> {
                &&& g.wf()
                &&& g.pool_view().spec_capacity() == old(self).spec_capacity()
                &&& !g.pool_view().frames_view()[g.frame_index() as int].is_dirty
                &&& g.pool_view().table_view().contains_key(g.page_id())
                &&& g.pool_view().table_view()[g.page_id()] == g.frame_index()
                &&& g.pool_view().source_view().pages().contains_key(g.page_id())
                &&& image_of(g.page_view()@) == g.pool_view().source_view().pages()[g.page_id()]
                &&& g.pool_view().pages().contains_key(g.page_id())
                &&& g.page_view()@.data == zero_data()
                &&& old(self).source_view().fresh_alloc() ==> g.page_id() != 0 && !old(self).pages().contains_key(
                    g.page_id(),
                )
                &&& forall|j: u32|
                    j != g.page_id() && j != 0 ==> (#[trigger] g.pool_view().pages().contains_key(j)
                        == old(self).pages().contains_key(j) && (old(self).pages().contains_key(j)
                        ==> g.pool_view().pages()[j] == old(self).pages()[j]))
            },
    {
        let (_id, fid) = match self.allocate_frame() {
            Ok(p) => p,
            Err(e) => return Err(e),
        };
        Ok(PageGuard::new(self, fid))
    }

    /// The frame caching `page_id`, reading the page in if needed.
    pub(crate) fn fetch_frame_for_source(&mut self, page_id: u32) -> (r: Result<FrameId, BufferError>)
        requires
            old(self).wf(),
        ensures
            final(self).wf(),
            final(self).pages() == old(self).pages(),
            final(self).source_view().fresh_alloc() == old(self).source_view().fresh_alloc(),
            final(self).source_view().writable() == old(self).source_view().writable(),
            final(self).source_view().reads_succeed() == old(self).source_view().reads_succeed(),
            final(self).source_view().alloc_room() == old(self).source_view().alloc_room(),
            old(self).source_view().writable() && old(self).source_view().reads_succeed() && old(self).pages().contains_key(page_id) ==> r is Ok,
            r matches Ok(fid) ==> {
                &&& fid < final(self).frames_view().len()
                &&& final(self).frames_view()[fid as int].page_id == Some(page_id)
                &&& final(self).frames_view()[fid as int].page.wf()
                &&& old(self).pages().contains_key(page_id)
                &&& crate::space::page_source::image_of(final(self).frames_view()[fid as int].page@) == old(self).pages()[page_id]
            },
    {
        let r = self.fetch_frame(page_id);
        proof {
            if let Ok(fid) = r {
                assert(self.frame_ok(fid as int, Set::empty()));
            }
        }
        r
    }

    /// The page in frame `fid`.
    pub(crate) fn frame_page(&self, fid: FrameId) -> (r: &Page)
        requires
            fid < self.frames_view().len(),
        ensures
            *r == self.frames_view()[fid as int].page,
    {
        &self.frames[fid].page
    }

    /// The page id cached in frame `fid`.
    pub(crate) fn frame_page_id(&self, fid: FrameId) -> (r: u32)
        requires
            fid < self.frames_view().len(),
            self.frames_view()[fid as int].page_id is Some,
        ensures
            r == self.frames_view()[fid as int].page_id->0,
    {
        match self.frames[fid].page_id {
            Some(p) => p,
            None => 0,
        }
    }

    /// Mutable access to the page in frame `fid`, which becomes dirty.
    pub(crate) fn frame_page_mut(&mut self, fid: FrameId) -> (r: &mut Page)
        requires
            fid < old(self).frames_view().len(),
        ensures
            *r == old(self).frames_view()[fid as int].page,
            final(self).frames_view() == old(self).frames_view().update(
                fid as int,
                Frame { page: *final(r), is_dirty: true, ..old(self).frames_view()[fid as int] },
            ),
            final(self).table_view() == old(self).table_view(),
            final(self).source_view() == old(self).source_view(),
    {
        self.frames[fid].is_dirty = true;
        &mut self.frames[fid].page
    }

    /// Marks frame `fid` dirty.
    pub(crate) fn mark_dirty(&mut self, fid: FrameId)
        requires
            fid < old(self).frames_view().len(),
        ensures
            final(self).frames_view() == old(self).frames_view().update(
                fid as int,
                Frame { is_dirty: true, ..old(self).frames_view()[fid as int] },
            ),
            final(self).table_view() == old(self).table_view(),
            final(self).source_view() == old(self).source_view(),
    {
        self.frames[fid].is_dirty = true;
    }

    /// Replaces the page cached in frame `fid` and marks it dirty.
    pub(crate) fn set_frame_page(&mut self, fid: FrameId, page: Page)
        requires
            old(self).wf(),
            fid < old(self).frames_view().len(),
            old(self).frames_view()[fid as int].page_id is Some,
            page.wf(),
        ensures
            final(self).wf(),
            final(self).spec_capacity() == old(self).spec_capacity(),
            final(self).source_view() == old(self).source_view(),
            final(self).pages() == old(self).pages().insert(
                old(self).frames_view()[fid as int].page_id->0,
                image_of(page@),
            ),
    {
        let ghost pid = self.frames@[fid as int].page_id->0;
        let ghost mid = *self;
        proof {
            assert(mid.frame_ok(fid as int, Set::empty()));
        }
        self.frames[fid].page = page;
        self.frames[fid].is_dirty = true;
        proof {
            assert forall|f: int| 0 <= f < self.frames@.len() implies #[trigger] self.frame_ok(
                f,
                Set::empty(),
            ) by {
                assert(mid.frame_ok(f, Set::empty()));
            }
            assert(self.pages() =~= old(self).pages().insert(pid, image_of(page@)));
        }
    }

    /// Writes every dirty frame back to the store.
    pub fn flush_all(&mut self) -> (r: Result<(), BufferError>)
        requires
            old(self).wf(),
        ensures
            final(self).wf(),
            final(self).pages() == old(self).pages(),
            final(self).frames_view().len() == old(self).frames_view().len(),
            final(self).source_view().writable() == old(self).source_view().writable(),
            final(self).source_view().reads_succeed() == old(self).source_view().reads_succeed(),
            final(self).source_view().alloc_room() == old(self).source_view().alloc_room(),
            old(self).source_view().writable() ==> r is Ok,
            final(self).spec_capacity() == old(self).spec_capacity(),
            final(self).table_view() == old(self).table_view(),
            forall|f: int|
                0 <= f < old(self).frames_view().len() ==> (#[trigger] final(self).frames_view()[f]).page_id
                    == old(self).frames_view()[f].page_id && final(self).frames_view()[f].page
                    == old(self).frames_view()[f].page,
            r is Ok ==> forall|f: int|
                0 <= f < old(self).frames_view().len() && (#[trigger] old(self).frames_view()[f]).page_id is Some
                    ==> final(self).source_view().pages().contains_key(old(self).frames_view()[f].page_id->0)
                    && final(self).source_view().pages()[old(self).frames_view()[f].page_id->0] == image_of(
                    old(self).frames_view()[f].page@,
                ),
            r is Ok ==> forall|f: int|
                0 <= f < final(self).frames_view().len() ==> !(
                #[trigger] final(self).frames_view()[f]).is_dirty,
    {
        let mut i: usize = 0;
        while i < self.frames.len()
            invariant
                self.wf(),
                self.pages() == old(self).pages(),
                self.frames@.len() == old(self).frames@.len(),
                self.table@ == old(self).table@,
                i <= self.frames@.len(),
                forall|f: int| 0 <= f < i ==> !(#[trigger] self.frames@[f]).is_dirty,
                self.source.writable() == old(self).source.writable(),
                self.source.reads_succeed() == old(self).source.reads_succeed(),
                self.source.alloc_room() == old(self).source.alloc_room(),
                self.capacity == old(self).capacity,
                forall|f: int|
                    0 <= f < old(self).frames@.len() ==> (#[trigger] self.frames@[f]).page_id
                        == old(self).frames@[f].page_id && self.frames@[f].page == old(self).frames@[f].page,
            decreases self.frames@.len() - i,
        {
            if self.frames[i].is_dirty {
                let pid = match self.frames[i].page_id {
                    Some(p) => p,
                    None => 0,
                };
                let ghost mid = *self;
                proof {
                    assert(self.frame_ok(i as int, Set::empty()));
                    assert(self.table@.contains_key(pid));
                    assert(!Set::<u32>::empty().contains(pid));
                }
                match self.source.write_page(pid, &self.frames[i].page) {
                    Ok(()) => {},
                    Err(e) => {
                        proof {
                            Self::lemma_same_frames_ok(&*self, &mid);
                            assert(self.pages() =~= old(self).pages());
                        }
                        return Err(BufferError::Space(e));
                    },
                }
                self.frames[i].is_dirty = false;
                proof {
                    assert forall|f: int| 0 <= f < self.frames@.len() implies #[trigger] self.frame_ok(
                        f,
                        Set::empty(),
                    ) by {
                        assert(mid.frame_ok(f, Set::empty()));
                    }
                    assert(self.pages() =~= old(self).pages());
                }
            }
            i = i + 1;
        }
        proof {
            assert forall|f: int|
                0 <= f < old(self).frames@.len() && (#[trigger] old(self).frames@[f]).page_id is Some
                    implies self.source.pages().contains_key(old(self).frames@[f].page_id->0)
                    && self.source.pages()[old(self).frames@[f].page_id->0] == image_of(old(self).frames@[f].page@) by {
                assert(self.frame_ok(f, Set::empty()));
                assert(self.frames@[f].page_id == old(self).frames@[f].page_id);
            }
        }
        Ok(())
    }

    /// Records `page_id` as the root page id in the superblock of the store
    /// under the pool. A store without a superblock (one the pool was built
    /// on with `with_source` that keeps none) refuses it with
    /// `FrameNotFound(0)`. The store rewrote page 0, so a cached copy of it is
    /// dropped; no other page changes.
    pub fn set_root_page_id(&mut self, page_id: u32) -> (r: Result<(), BufferError>)
        requires
            old(self).wf(),
        ensures
            final(self).wf(),
            final(self).spec_capacity() == old(self).spec_capacity(),
            final(self).source_view().fresh_alloc() == old(self).source_view().fresh_alloc(),
            final(self).source_view().writable() == old(self).source_view().writable(),
            final(self).source_view().reads_succeed() == old(self).source_view().reads_succeed(),
            final(self).source_view().alloc_room() == old(self).source_view().alloc_room(),
            final(self).source_view().has_root() == old(self).source_view().has_root(),
            old(self).source_view().has_root() ==> r is Ok && final(self).source_view().root_id() == Some(
                page_id,
            ),
            r is Err ==> r == Err::<(), BufferError>(BufferError::FrameNotFound(0)) && final(self).pages()
                == old(self).pages() && final(self).source_view().root_id() == old(self).source_view().root_id(),
            forall|j: u32|
                j != 0 ==> (#[trigger] final(self).pages().contains_key(j) == old(self).pages().contains_key(j)
                    && (old(self).pages().contains_key(j) ==> final(self).pages()[j] == old(self).pages()[j])),
    {
        let ghost before = *self;
        match self.source.set_root_page_id(page_id) {
            Ok(()) => {},
            Err(_) => {
                proof {
                    Self::lemma_same_frames_ok(&*self, &before);
                    assert(self.pages() =~= before.pages());
                }
                return Err(BufferError::FrameNotFound(0));
            },
        }
        let ghost stale = set![0u32];
        proof {
            assert forall|f: int| 0 <= f < self.frames@.len() implies #[trigger] self.frame_ok(
                f,
                stale,
            ) by {
                assert(before.frame_ok(f, Set::empty()));
            }
        }
        let ghost s1 = *self;
        self.uncache(0, Ghost(stale));
        proof {
            assert(stale.remove(0) =~= Set::<u32>::empty());
            assert forall|j: u32| j != 0 implies (#[trigger] self.pages().contains_key(j)
                == before.pages().contains_key(j) && (before.pages().contains_key(j)
                ==> self.pages()[j] == before.pages()[j])) by {
                assert(s1.pages().contains_key(j) == before.pages().contains_key(j));
                if before.pages().contains_key(j) {
                    assert(s1.pages()[j] == before.pages()[j]);
                }
            }
        }
        Ok(())
    }
}


impl BufferPool<Space> {
    /// Law of reopening: once a pool over a consistent tablespace has no
    /// dirty frame, a pool opened over the tablespace's image serves exactly
    /// the pages the first pool served.
    pub proof fn lemma_reopen_flushed(p: Self, q: Self)
        requires
            p.wf(),
            p.source_view()@.consistent(),
            forall|f: int| 0 <= f < p.frames_view().len() ==> !(#[trigger] p.frames_view()[f]).is_dirty,
            crate::space::space::spec_open(crate::space::space::spec_flatten(p.source_view()@.pages)) == Ok::<
                crate::space::space::SpaceView,
                crate::space::error::SpaceError,
            >(q.source_view()@),
            q.pages() == q.source_view().pages(),
        ensures
            q.pages() == p.pages(),
    {
        p.lemma_flushed_pool();
        crate::space::space::lemma_image_reopens(p.source_view()@);
    }

    /// A pool over a new tablespace.
    pub fn create(capacity: usize) -> (r: Result<Self, BufferError>)
        requires
            capacity >= 1,
        ensures
            r is Ok,
            r matches Ok(p) ==> p.wf() && p.spec_capacity() == capacity && p.frames_view().len() == 0
                && p.source_view()@.superblock == crate::space::superblock::Superblock::spec_fresh()
                && p.source_view()@.pages == seq![
                crate::space::space::spec_page0_image(crate::space::superblock::Superblock::spec_fresh()),
            ],
    {
        let space = Space::create();
        Ok(BufferPool::with_source(space, capacity))
    }

    /// A pool over the tablespace whose file holds `image`.
    pub fn open(image: &[u8], capacity: usize) -> (r: Result<Self, BufferError>)
        requires
            capacity >= 1,
            image@.len() / (crate::page::page::PAGE_SIZE as nat) <= u32::MAX,
        ensures
            r matches Ok(p) ==> p.wf() && p.spec_capacity() == capacity && p.frames_view().len() == 0,
            r matches Ok(p) ==> crate::space::space::spec_open(image@) == Ok::<
                crate::space::space::SpaceView,
                crate::space::error::SpaceError,
            >(p.source_view()@) && p.pages() == p.source_view().pages(),
            r is Err <==> crate::space::space::spec_open(image@) is Err,
    {
        match Space::open(image) {
            Ok(space) => Ok(BufferPool::with_source(space, capacity)),
            Err(e) => Err(BufferError::Space(e)),
        }
    }
}

} // verus!
