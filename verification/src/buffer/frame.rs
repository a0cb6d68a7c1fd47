//! Buffer frames.
use crate::page::page::{Page, PageType};
use vstd::prelude::*;

verus! {

/// Index of a frame in the pool.
pub type FrameId = usize;

/// A cached page and its state.
#[derive(Debug, Clone)]
pub struct Frame {
    /// Page cached here; `None` for a free frame.
    pub page_id: Option<u32>,
    /// The cached page.
    pub page: Page,
    /// Number of holders; a pinned frame is never evicted.
    pub pin_count: usize,
    /// Whether the page differs from the store and must be written back.
    pub is_dirty: bool,
}

impl Frame {
    /// A free frame holding a blank placeholder page.
    pub fn free() -> (r: Self)
        ensures
            r.page_id is None,
            r.pin_count == 0,
            !r.is_dirty,
            r.page.wf(),
    {
        Frame { page_id: None, page: Page::new(0, PageType::Free), pin_count: 0, is_dirty: false }
    }

    /// Whether the frame may be evicted: it caches a page, unpinned and clean.
    pub fn is_evictable(&self) -> (r: bool)
        ensures
            r == (self.page_id is Some && self.pin_count == 0 && !self.is_dirty),
    {
        self.page_id.is_some() && self.pin_count == 0 && !self.is_dirty
    }
}

} // verus!
