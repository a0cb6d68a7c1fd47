//! Buffer pool: a bounded cache of pages over a `PageSource`, with LRU
//! eviction and write-back of dirty pages.
pub mod error;
pub mod frame;
pub mod guard;
pub mod lru;
pub mod pool;
pub mod source;

pub use error::BufferError;
pub use frame::{Frame, FrameId};

pub use guard::PageGuard;
pub use lru::LruOrder;
pub use pool::BufferPool;
pub use source::BufferPoolSource;


