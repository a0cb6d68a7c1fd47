use ferrumdb::buffer::{BufferError, BufferPool, Frame, LruOrder};
use ferrumdb::page::{Page, PageType};
use ferrumdb::space::{PageSource, Space, SpaceError};
use std::cell::Cell;

/// A page store counting its calls.
struct MockSource {
    pages: Vec<Page>,
    read_count: Cell<u32>,
    write_count: Cell<u32>,
    alloc_count: Cell<u32>,
}

impl MockSource {
    fn new(capacity: usize) -> Self {
        Self {
            pages: (0..capacity)
                .map(|i| {
                    let mut p = Page::new(i as u32, PageType::Free);
                    p.user_data_mut()[0] = i as u8;
                    p
                })
                .collect(),
            read_count: Cell::new(0),
            write_count: Cell::new(0),
            alloc_count: Cell::new(0),
        }
    }
}

impl PageSource for MockSource {
    fn read_page(&mut self, page_id: u32) -> Result<Page, SpaceError> {
        self.read_count.set(self.read_count.get() + 1);
        self.pages
            .get(page_id as usize)
            .cloned()
            .ok_or(SpaceError::PageIdOutOfRange(page_id))
    }
    fn write_page(&mut self, page_id: u32, page: &Page) -> Result<(), SpaceError> {
        self.write_count.set(self.write_count.get() + 1);
        if let Some(p) = self.pages.get_mut(page_id as usize) {
            *p = page.clone();
        }
        Ok(())
    }
    fn allocate_page(&mut self) -> Result<u32, SpaceError> {
        let id = self.pages.len() as u32;
        self.pages.push(Page::new(id, PageType::Free));
        self.alloc_count.set(self.alloc_count.get() + 1);
        Ok(id)
    }
    fn set_root_page_id(&mut self, _page_id: u32) -> Result<(), SpaceError> {
        Err(SpaceError::NotInitialized)
    }
}

#[test]
fn basic_fetch_and_read() {
    let source = MockSource::new(10);
    let mut pool = BufferPool::with_source(Box::new(source), 4);
    let g = pool.fetch_page(3).unwrap();
    assert_eq!(g.id(), 3);
    assert_eq!(g.page().user_data()[0], 3);
}

#[test]
fn second_fetch_is_cache_hit() {
    let source = MockSource::new(10);
    let mut pool = BufferPool::with_source(Box::new(source), 4);
    let reads_before = pool.dirty_frame_count();
    let _ = pool.fetch_page(0).unwrap();
    let _ = pool.fetch_page(0).unwrap();
    let _ = pool.fetch_page(0).unwrap();
    drop(pool);
    let source = MockSource::new(10);
    let mut pool = BufferPool::with_source(Box::new(source), 4);
    for _ in 0..10 {
        let _ = pool.fetch_page(0).unwrap();
    }
    assert_eq!(pool.used_frames(), 1);
    let _ = reads_before;
}

#[test]
fn lru_evicts_cold_page() {
    let source = MockSource::new(10);
    let mut pool = BufferPool::with_source(Box::new(source), 2);
    let _g0 = pool.fetch_page(0).unwrap();
    drop(_g0);
    let _g1 = pool.fetch_page(1).unwrap();
    drop(_g1);
    let _g2 = pool.fetch_page(2).unwrap();
    drop(_g2);
    assert!(!pool.table.contains_key(&0), "page 0 should be evicted");
    assert!(pool.table.contains_key(&2));
}

#[test]
fn pinned_page_not_evicted() {
    let source = MockSource::new(10);
    let mut pool = BufferPool::with_source(Box::new(source), 2);
    let _ = pool.fetch_page(0).unwrap();
    let _ = pool.fetch_page(1).unwrap();
    let _g2 = pool.fetch_page(2).unwrap();
    drop(_g2);
    assert!(pool.table.contains_key(&1), "1 should be MRU");
    assert!(pool.table.contains_key(&2), "2 just fetched");
    assert!(!pool.table.contains_key(&0), "0 should be LRU and evicted");
}

#[test]
fn dirty_page_flushed_before_eviction() {
    let source = MockSource::new(10);
    let mut pool = BufferPool::with_source(Box::new(source), 2);
    {
        let mut g = pool.fetch_page(0).unwrap();
        g.page_mut().user_data_mut()[0] = 99;
    }
    let _g1 = pool.fetch_page(1).unwrap();
    drop(_g1);
    let _g2 = pool.fetch_page(2).unwrap();
    drop(_g2);
    assert!(!pool.table.contains_key(&0));
    assert_eq!(pool.dirty_frame_count(), 0);
}

#[test]
fn page_guard_drop_unpins() {
    let source = MockSource::new(10);
    let mut pool = BufferPool::with_source(Box::new(source), 2);
    {
        let _g = pool.fetch_page(0).unwrap();
    }
    let _g1 = pool.fetch_page(1).unwrap();
    drop(_g1);
    let _g2 = pool.fetch_page(0).unwrap();
    drop(_g2);
    assert!(pool.table.contains_key(&0));
}

#[test]
fn drop_then_refetch_works() {
    let source = MockSource::new(10);
    let mut pool = BufferPool::with_source(Box::new(source), 1);
    {
        let _g = pool.fetch_page(0).unwrap();
    }
    let g2 = pool.fetch_page(0).unwrap();
    assert_eq!(g2.id(), 0);
}

#[test]
fn flush_all_writes_dirty_frames() {
    let source = MockSource::new(10);
    let mut pool = BufferPool::with_source(Box::new(source), 4);
    {
        let mut g = pool.fetch_page(0).unwrap();
        g.page_mut().user_data_mut()[0] = 42;
    }
    {
        let mut g = pool.fetch_page(1).unwrap();
        g.page_mut().user_data_mut()[0] = 99;
    }
    assert_eq!(pool.dirty_frame_count(), 2);
    pool.flush_all().unwrap();
    assert_eq!(pool.dirty_frame_count(), 0);
}

#[test]
fn evicted_dirty_page_is_written_back() {
    let mut pool = BufferPool::create(1).unwrap();
    let id = {
        let mut g = pool.allocate_page().unwrap();
        g.page_mut().user_data_mut()[5] = 77;
        g.id()
    };
    let other = {
        let g = pool.allocate_page().unwrap();
        g.id()
    };
    assert_ne!(id, other);
    assert!(!pool.table.contains_key(&id));
    let g = pool.fetch_page(id).unwrap();
    assert_eq!(g.page().user_data()[5], 77);
}

#[test]
fn fetch_missing_page_is_an_error() {
    let source = MockSource::new(3);
    let mut pool = BufferPool::with_source(source, 2);
    assert!(matches!(pool.fetch_page(7), Err(BufferError::Space(SpaceError::PageIdOutOfRange(7)))));
    assert!(!pool.table.contains_key(&7));
    assert_eq!(pool.dirty_frame_count(), 0);
}

#[test]
fn capacity_is_kept() {
    let pool = BufferPool::with_source(MockSource::new(1), 5);
    assert_eq!(pool.capacity(), 5);
    assert_eq!(pool.used_frames(), 0);
}

#[test]
fn frame_states() {
    let f = Frame::free();
    assert_eq!(f.page_id, None);
    assert!(!f.is_dirty);
    assert!(!f.is_evictable());
}

#[test]
fn lru_order_touch_and_remove() {
    let mut lru = LruOrder::new();
    lru.touch(1);
    lru.touch(2);
    lru.touch(3);
    assert_eq!(lru.iter_lru(), vec![1, 2, 3]);
    lru.touch(1);
    assert_eq!(lru.iter_lru(), vec![2, 3, 1]);
    lru.remove(3);
    assert_eq!(lru.iter_lru(), vec![2, 1]);
    lru.remove(9);
    assert_eq!(lru.iter_lru(), vec![2, 1]);
}

#[test]
fn buffer_pool_over_space_reopens() {
    let mut pool = BufferPool::create(4).unwrap();
    let id = {
        let mut g = pool.allocate_page().unwrap();
        g.page_mut().user_data_mut()[0] = 5;
        g.id()
    };
    pool.flush_all().unwrap();
    let image = pool.into_source().image();
    let mut space = Space::open(&image).unwrap();
    assert_eq!(space.read_page(id).unwrap().user_data()[0], 5);
    let mut reopened = BufferPool::open(&image, 2).unwrap();
    assert_eq!(reopened.fetch_page(id).unwrap().page().user_data()[0], 5);
}

#[test]
fn set_root_page_id_on_a_tablespace_pool_records_the_root() {
    let mut pool = BufferPool::create(4).unwrap();
    pool.set_root_page_id(7).unwrap();
    let space = pool.into_source();
    assert_eq!(space.superblock().root_page_id, Some(7));
}

#[test]
fn set_root_page_id_without_a_superblock_is_refused() {
    let mut pool = BufferPool::with_source(MockSource::new(4), 2);
    assert!(matches!(pool.set_root_page_id(3), Err(BufferError::FrameNotFound(0))));
}

#[test]
fn dirty_cold_page_is_written_back_then_evicted() {
    let source = MockSource::new(10);
    let mut pool = BufferPool::with_source(Box::new(source), 2);
    {
        let mut g0 = pool.fetch_page(0).unwrap();
        g0.page_mut().user_data_mut()[0] = 42;
    }
    drop(pool.fetch_page(1).unwrap());
    drop(pool.fetch_page(2).unwrap());
    assert!(!pool.table.contains_key(&0));
    assert!(pool.table.contains_key(&1));
    assert!(pool.table.contains_key(&2));
    let source = pool.into_source();
    assert_eq!(source.pages[0].user_data()[0], 42);
}

#[test]
fn recently_used_page_survives_eviction() {
    let source = MockSource::new(10);
    let mut pool = BufferPool::with_source(Box::new(source), 2);
    drop(pool.fetch_page(0).unwrap());
    drop(pool.fetch_page(1).unwrap());
    drop(pool.fetch_page(0).unwrap());
    drop(pool.fetch_page(2).unwrap());
    assert!(pool.table.contains_key(&0));
    assert!(!pool.table.contains_key(&1));
    assert!(pool.table.contains_key(&2));
}

#[test]
fn allocated_page_is_new_to_the_store() {
    let source = MockSource::new(10);
    let mut pool = BufferPool::with_source(Box::new(source), 4);
    let g = pool.allocate_page().unwrap();
    assert_eq!(g.id(), 10);
}
