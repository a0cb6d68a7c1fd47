//! Page guards: access to a page cached in the pool.
use super::frame::FrameId;
use super::pool::BufferPool;
use crate::page::page::Page;
use crate::space::page_source::PageSource;
use vstd::prelude::*;

verus! {

/// Access to the page in one frame of a pool; it borrows the pool mutably.
pub struct PageGuard<'a, S: PageSource> {
    pool: &'a mut BufferPool<S>,
    frame_id: FrameId,
}

impl<'a, S: PageSource> PageGuard<'a, S> {
    /// The pool borrowed.
    pub closed spec fn pool_view(&self) -> BufferPool<S> {
        *self.pool
    }

    /// The frame held.
    pub closed spec fn frame_index(&self) -> FrameId {
        self.frame_id
    }

    /// The frame caches a page.
    pub open spec fn wf(&self) -> bool {
        &&& self.pool_view().wf()
        &&& self.frame_index() < self.pool_view().frames_view().len()
        &&& self.pool_view().frames_view()[self.frame_index() as int].page_id is Some
    }

    /// The page id held.
    pub open spec fn page_id(&self) -> u32 {
        self.pool_view().frames_view()[self.frame_index() as int].page_id->0
    }

    /// The page held.
    pub open spec fn page_view(&self) -> Page {
        self.pool_view().frames_view()[self.frame_index() as int].page
    }

    /// A guard on frame `frame_id` of `pool`.
    pub(crate) fn new(pool: &'a mut BufferPool<S>, frame_id: FrameId) -> (r: Self)
        ensures
            r.pool_view() == *old(pool),
            r.frame_index() == frame_id,
    {
        PageGuard { pool, frame_id }
    }

    /// The page id held.
    pub fn id(&self) -> (r: u32)
        requires
            self.wf(),
        ensures
            r == self.page_id(),
    {
        self.pool.frame_page_id(self.frame_id)
    }

    /// The page held.
    pub fn page(&self) -> (r: &Page)
        requires
            self.wf(),
        ensures
            *r == self.page_view(),
    {
        self.pool.frame_page(self.frame_id)
    }

    /// Mutable access to the page held, which becomes dirty.
    pub fn page_mut(&mut self) -> (r: &mut Page)
        requires
            old(self).wf(),
        ensures
            *r == old(self).page_view(),
            final(self).frame_index() == old(self).frame_index(),
            final(self).pool_view().frames_view() == old(self).pool_view().frames_view().update(
                old(self).frame_index() as int,
                super::frame::Frame {
                    page: *final(r),
                    is_dirty: true,
                    ..old(self).pool_view().frames_view()[old(self).frame_index() as int]
                },
            ),
    {
        self.pool.frame_page_mut(self.frame_id)
    }

    /// Marks the page held dirty without changing it.
    pub fn mark_dirty(&mut self)
        requires
            old(self).wf(),
        ensures
            final(self).frame_index() == old(self).frame_index(),
            final(self).pool_view().frames_view() == old(self).pool_view().frames_view().update(
                old(self).frame_index() as int,
                super::frame::Frame {
                    is_dirty: true,
                    ..old(self).pool_view().frames_view()[old(self).frame_index() as int]
                },
            ),
    {
        self.pool.mark_dirty(self.frame_id);
    }
}

} // verus!
