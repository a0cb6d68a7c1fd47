//! Buffer pool errors.
use crate::page::error::PageError;
use crate::space::error::SpaceError;
use vstd::prelude::*;

verus! {

/// Buffer pool errors.
#[derive(Debug)]
pub enum BufferError {
    /// I/O error.
    Io(std::io::Error),
    /// Error of a page operation.
    Page(PageError),
    /// Error of the page store.
    Space(SpaceError),
    /// No frame can be freed: every cached page is pinned or dirty.
    PoolFull,
    /// Frame index out of range, or the operation is not available.
    FrameNotFound(usize),
    /// Page not cached.
    PageNotInPool(u32),
}

} // verus!
