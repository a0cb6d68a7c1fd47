//! `PageSource`: the page store the B+Trees read, write and allocate from.
use super::error::SpaceError;
use crate::page::page::{Page, PageType, PageView};
use vstd::prelude::*;

verus! {

/// What a store keeps of a page: the header fields that survive a write and
/// the user data (checksums are recomputed on every write).
pub struct PageImage {
    /// Page id recorded in the header.
    pub page_id: u32,
    /// Page type recorded in the header.
    pub page_type: PageType,
    /// LSN recorded in the header.
    pub lsn: u64,
    /// User data area.
    pub data: Seq<u8>,
}

/// The stored form of a page.
pub open spec fn image_of(v: PageView) -> PageImage {
    PageImage {
        page_id: v.header.page_id,
        page_type: v.header.page_type,
        lsn: v.header.lsn,
        data: v.data,
    }
}

/// `PAGE_USER_DATA_SIZE` zero bytes.
pub open spec fn zero_data() -> Seq<u8> {
    Seq::new(crate::page::page::PAGE_USER_DATA_SIZE as nat, |i: int| 0u8)
}

/// A page store: the B+Trees read, write and allocate pages through it.
pub trait PageSource {
    /// The readable pages, by page id; a store that does not describe its
    /// pages has none.
    closed spec fn pages(&self) -> Map<u32, PageImage> {
        Map::empty()
    }

    /// The store's own well-formedness, which every operation keeps; a store
    /// that does not describe it has none to keep.
    closed spec fn valid(&self) -> bool {
        true
    }

    /// Allocation hands out only pages that are not readable yet (never
    /// page 0); a store that does not promise it makes no such promise.
    closed spec fn fresh_alloc(&self) -> bool {
        false
    }

    /// Reads of readable pages succeed; a store that does not promise it
    /// makes no such promise.
    closed spec fn reads_succeed(&self) -> bool {
        false
    }

    /// Writes to readable pages succeed; a store that does not promise it
    /// makes no such promise.
    closed spec fn writable(&self) -> bool {
        false
    }

    /// How many allocations are sure to succeed, one after another; a store
    /// that does not promise any has none.
    closed spec fn alloc_room(&self) -> nat {
        0
    }

    /// Whether the store keeps a superblock whose root page id can be set; a
    /// store that does not describe one has none.
    closed spec fn has_root(&self) -> bool {
        false
    }

    /// The root page id the store's superblock records.
    closed spec fn root_id(&self) -> Option<u32> {
        None
    }

    /// Records `page_id` as the root page id in the store's superblock,
    /// which may rewrite page 0 and no other page. A store with a superblock
    /// succeeds; a refusal changes nothing.
    fn set_root_page_id(&mut self, page_id: u32) -> (r: Result<(), SpaceError>)
        requires
            old(self).valid(),
        ensures
            final(self).valid(),
            final(self).fresh_alloc() == old(self).fresh_alloc(),
            final(self).writable() == old(self).writable(),
            final(self).reads_succeed() == old(self).reads_succeed(),
            final(self).alloc_room() == old(self).alloc_room(),
            final(self).has_root() == old(self).has_root(),
            old(self).has_root() ==> r is Ok && final(self).root_id() == Some(page_id),
            r is Err ==> final(self).pages() == old(self).pages() && final(self).root_id() == old(self).root_id(),
            forall|j: u32|
                j != 0 ==> (#[trigger] final(self).pages().contains_key(j) == old(self).pages().contains_key(j)
                    && (old(self).pages().contains_key(j) ==> final(self).pages()[j] == old(self).pages()[j])),
    ;

    /// Reads page `page_id`; a page that is read is the one stored, and a
    /// store whose reads succeed reads every readable page.
    fn read_page(&mut self, page_id: u32) -> (r: Result<Page, SpaceError>)
        requires
            old(self).valid(),
        ensures
            final(self).valid(),
            final(self).pages() == old(self).pages(),
            final(self).fresh_alloc() == old(self).fresh_alloc(),
            final(self).writable() == old(self).writable(),
            final(self).reads_succeed() == old(self).reads_succeed(),
            final(self).alloc_room() == old(self).alloc_room(),
            old(self).reads_succeed() && old(self).pages().contains_key(page_id) ==> r is Ok,
            r matches Ok(p) ==> p.wf() && old(self).pages().contains_key(page_id) && image_of(p@)
                == old(self).pages()[page_id],
    ;

    /// Writes page `page_id`; once it succeeds, the page is stored as given and
    /// no other page changed; a failed write changes nothing. A writable
    /// store writes every readable page.
    fn write_page(&mut self, page_id: u32, page: &Page) -> (r: Result<(), SpaceError>)
        requires
            old(self).valid(),
            page.wf(),
        ensures
            final(self).valid(),
            final(self).fresh_alloc() == old(self).fresh_alloc(),
            final(self).writable() == old(self).writable(),
            final(self).reads_succeed() == old(self).reads_succeed(),
            final(self).alloc_room() == old(self).alloc_room(),
            old(self).writable() && old(self).pages().contains_key(page_id) ==> r is Ok,
            r is Ok ==> final(self).pages() == old(self).pages().insert(page_id, image_of(page@)),
            r is Err ==> final(self).pages() == old(self).pages(),
    ;

    /// Allocates a page: it is readable with zeroed user data, and no page but
    /// it and the superblock page 0 changed; a failed allocation changes nothing.
    /// With room left, allocation succeeds and uses up one allocation.
    fn allocate_page(&mut self) -> (r: Result<u32, SpaceError>)
        requires
            old(self).valid(),
        ensures
            final(self).valid(),
            final(self).writable() == old(self).writable(),
            final(self).reads_succeed() == old(self).reads_succeed(),
            old(self).alloc_room() > 0 ==> r is Ok,
            final(self).alloc_room() + 1 >= old(self).alloc_room(),
            r matches Ok(id) ==> {
                &&& final(self).pages().contains_key(id)
                &&& final(self).pages()[id].data == zero_data()
                &&& forall|j: u32|
                    j != id && j != 0 ==> (#[trigger] final(self).pages().contains_key(j)
                        == old(self).pages().contains_key(j) && (old(self).pages().contains_key(j)
                        ==> final(self).pages()[j] == old(self).pages()[j]))
            },
            r is Err ==> final(self).pages() == old(self).pages(),
            old(self).fresh_alloc() ==> final(self).fresh_alloc() && (r matches Ok(id) ==> id != 0
                && !old(self).pages().contains_key(id)),
    ;
}

impl<T: PageSource> PageSource for Box<T> {
    open spec fn pages(&self) -> Map<u32, PageImage> {
        (**self).pages()
    }

    open spec fn fresh_alloc(&self) -> bool {
        (**self).fresh_alloc()
    }

    open spec fn writable(&self) -> bool {
        (**self).writable()
    }

    open spec fn reads_succeed(&self) -> bool {
        (**self).reads_succeed()
    }

    open spec fn has_root(&self) -> bool {
        (**self).has_root()
    }

    open spec fn root_id(&self) -> Option<u32> {
        (**self).root_id()
    }

    open spec fn alloc_room(&self) -> nat {
        (**self).alloc_room()
    }

    open spec fn valid(&self) -> bool {
        (**self).valid()
    }

    fn read_page(&mut self, page_id: u32) -> (r: Result<Page, SpaceError>) {
        (**self).read_page(page_id)
    }

    fn write_page(&mut self, page_id: u32, page: &Page) -> (r: Result<(), SpaceError>) {
        (**self).write_page(page_id, page)
    }

    fn allocate_page(&mut self) -> (r: Result<u32, SpaceError>) {
        (**self).allocate_page()
    }

    fn set_root_page_id(&mut self, page_id: u32) -> (r: Result<(), SpaceError>) {
        (**self).set_root_page_id(page_id)
    }
}

impl<'a, T: PageSource> PageSource for &'a mut T {
    open spec fn pages(&self) -> Map<u32, PageImage> {
        (**self).pages()
    }

    open spec fn fresh_alloc(&self) -> bool {
        (**self).fresh_alloc()
    }

    open spec fn writable(&self) -> bool {
        (**self).writable()
    }

    open spec fn reads_succeed(&self) -> bool {
        (**self).reads_succeed()
    }

    open spec fn has_root(&self) -> bool {
        (**self).has_root()
    }

    open spec fn root_id(&self) -> Option<u32> {
        (**self).root_id()
    }

    open spec fn alloc_room(&self) -> nat {
        (**self).alloc_room()
    }

    open spec fn valid(&self) -> bool {
        (**self).valid()
    }

    fn read_page(&mut self, page_id: u32) -> (r: Result<Page, SpaceError>) {
        (**self).read_page(page_id)
    }

    fn write_page(&mut self, page_id: u32, page: &Page) -> (r: Result<(), SpaceError>) {
        (**self).write_page(page_id, page)
    }

    fn allocate_page(&mut self) -> (r: Result<u32, SpaceError>) {
        (**self).allocate_page()
    }

    fn set_root_page_id(&mut self, page_id: u32) -> (r: Result<(), SpaceError>) {
        (**self).set_root_page_id(page_id)
    }
}

} // verus!
