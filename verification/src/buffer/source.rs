//! The buffer pool seen as a `PageSource`, so that a B+Tree runs through it.
use super::error::BufferError;
use super::pool::BufferPool;
use crate::page::page::Page;
use crate::space::error::SpaceError;
use crate::space::page_source::{PageImage, PageSource};
use vstd::prelude::*;

verus! {

/// A `PageSource` that reads and writes through a buffer pool.
pub struct BufferPoolSource<'a, S: PageSource> {
    pool: &'a mut BufferPool<S>,
}

/// The store error reported for a pool error.
pub open spec fn spec_map_buffer_error(e: BufferError) -> SpaceError {
    match e {
        BufferError::Space(s) => s,
        BufferError::PageNotInPool(_) => SpaceError::PageIdOutOfRange(0),
        _ => SpaceError::NotInitialized,
    }
}

/// Maps a pool error to a store error: store errors pass through, a page not
/// in the pool is `PageIdOutOfRange(0)`, the others `NotInitialized`.
fn map_buffer_error(e: BufferError) -> (r: SpaceError)
    ensures
        r == spec_map_buffer_error(e),
{
    match e {
        BufferError::Space(s) => s,
        BufferError::Page(_) => SpaceError::NotInitialized,
        BufferError::Io(_) => SpaceError::NotInitialized,
        BufferError::PoolFull => SpaceError::NotInitialized,
        BufferError::FrameNotFound(_) => SpaceError::NotInitialized,
        BufferError::PageNotInPool(_) => SpaceError::PageIdOutOfRange(0),
    }
}

impl<'a, S: PageSource> BufferPoolSource<'a, S> {
    /// The pool borrowed.
    pub closed spec fn pool_view(&self) -> BufferPool<S> {
        *self.pool
    }

    /// A page source over `pool`.
    pub fn new(pool: &'a mut BufferPool<S>) -> (r: Self)
        ensures
            r.pool_view() == *old(pool),
    {
        BufferPoolSource { pool }
    }

    /// The pool borrowed.
    pub fn pool_mut(&mut self) -> (r: &mut BufferPool<S>)
        ensures
            *r == old(self).pool_view(),
    {
        self.pool
    }
}

impl<'a, S: PageSource> PageSource for BufferPoolSource<'a, S> {
    /// Allocation hands out a page never seen before whenever the store
    /// under the pool does.
    open spec fn fresh_alloc(&self) -> bool {
        self.pool_view().source_view().fresh_alloc()
    }

    /// Reads through the pool may have to write a page back first, so they
    /// succeed when both reads and writes do on the store under the pool.
    open spec fn reads_succeed(&self) -> bool {
        self.pool_view().source_view().reads_succeed() && self.pool_view().source_view().writable()
    }

    /// Writes succeed whenever reads do: the page is fetched first.
    open spec fn writable(&self) -> bool {
        self.pool_view().source_view().reads_succeed() && self.pool_view().source_view().writable()
    }

    /// Whether the store under the pool keeps a superblock.
    open spec fn has_root(&self) -> bool {
        self.pool_view().source_view().has_root()
    }

    /// The root page id the store under the pool records.
    open spec fn root_id(&self) -> Option<u32> {
        self.pool_view().source_view().root_id()
    }

    /// The allocations left to the store under the pool.
    open spec fn alloc_room(&self) -> nat {
        self.pool_view().source_view().alloc_room()
    }

    closed spec fn pages(&self) -> Map<u32, PageImage> {
        (*self.pool).pages()
    }

    closed spec fn valid(&self) -> bool {
        (*self.pool).wf()
    }

    fn read_page(&mut self, page_id: u32) -> (r: Result<Page, SpaceError>) {
        let fid = match self.pool.fetch_frame_for_source(page_id) {
            Ok(f) => f,
            Err(e) => return Err(map_buffer_error(e)),
        };
        Ok(self.pool.frame_page(fid).duplicate())
    }

    fn write_page(&mut self, page_id: u32, page: &Page) -> (r: Result<(), SpaceError>) {
        let fid = match self.pool.fetch_frame_for_source(page_id) {
            Ok(f) => f,
            Err(e) => return Err(map_buffer_error(e)),
        };
        self.pool.set_frame_page(fid, page.duplicate());
        Ok(())
    }

    fn set_root_page_id(&mut self, page_id: u32) -> (r: Result<(), SpaceError>) {
        match self.pool.set_root_page_id(page_id) {
            Ok(()) => Ok(()),
            Err(_) => Err(SpaceError::NotInitialized),
        }
    }

    fn allocate_page(&mut self) -> (r: Result<u32, SpaceError>) {
        match self.pool.allocate_uncached() {
            Ok(id) => Ok(id),
            Err(e) => Err(map_buffer_error(e)),
        }
    }
}

} // verus!
