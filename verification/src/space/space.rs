//! The tablespace: page images indexed by page id, with the superblock in
//! page 0 and a free list threaded through freed pages.
//!
//! The tablespace is held as the sequence of its `PAGE_SIZE` page images, the
//! exact bytes of the tablespace file; the file itself is read and written
//! by the caller (`image` gives the bytes to write back).
use super::error::SpaceError;
use super::free_list::{decode_free, encode_free, spec_decode_free, spec_encode_free};
use super::page_source::{image_of, zero_data, PageImage, PageSource};
use super::superblock::{spec_superblock_bytes, Superblock};
use crate::page::bytes::splice;
use crate::page::page::{
    lemma_page_round_trip, spec_from_bytes, spec_to_bytes, Page, PageHeader, PageType,
    PageView, PAGE_SIZE, PAGE_USER_DATA_SIZE,
};
use vstd::prelude::*;
use vstd::slice::*;

verus! {

/// A tablespace.
#[derive(Clone)]
pub struct Space {
    pages: Vec<Vec<u8>>,
    superblock: Superblock,
}

/// The page images and the superblock of a tablespace.
pub struct SpaceView {
    /// Page images by page id, each `PAGE_SIZE` bytes.
    pub pages: Seq<Seq<u8>>,
    /// The in-memory superblock.
    pub superblock: Superblock,
}

impl View for Space {
    type V = SpaceView;

    closed spec fn view(&self) -> SpaceView {
        SpaceView { pages: self.pages@.map_values(|p: Vec<u8>| p@), superblock: self.superblock }
    }
}

/// Header of a blank page.
pub open spec fn blank_header(page_id: u32, page_type: PageType) -> PageHeader {
    PageHeader { page_id, page_type, lsn: 0, checksum: 0 }
}

/// User data of page 0 holding `sb`.
pub open spec fn spec_page0_data(sb: Superblock) -> Seq<u8> {
    splice(zero_data(), 0, spec_superblock_bytes(sb))
}

/// Image of page 0 holding `sb`.
pub open spec fn spec_page0_image(sb: Superblock) -> Seq<u8> {
    spec_to_bytes(blank_header(0, PageType::Superblock), spec_page0_data(sb))
}

/// User data of a freed page whose successor on the free list is `next`.
pub open spec fn spec_free_data(next: Option<u32>) -> Seq<u8> {
    splice(zero_data(), 0, spec_encode_free(next))
}

/// The images of the `PAGE_SIZE` chunks of a file image.
pub open spec fn spec_chunks(image: Seq<u8>) -> Seq<Seq<u8>> {
    Seq::new(
        (image.len() / PAGE_SIZE as nat),
        |i: int| image.subrange(i * PAGE_SIZE, i * PAGE_SIZE + PAGE_SIZE),
    )
}

/// The file image of a sequence of pages.
pub open spec fn spec_flatten(pages: Seq<Seq<u8>>) -> Seq<u8>
    decreases pages.len(),
{
    if pages.len() == 0 {
        Seq::empty()
    } else {
        spec_flatten(pages.drop_last()) + pages.last()
    }
}

/// The readable pages of a sequence of page images.
pub open spec fn spec_readable(pages: Seq<Seq<u8>>) -> Map<u32, PageImage> {
    Map::new(
        |id: u32| id < pages.len() && spec_from_bytes(pages[id as int]) is Ok,
        |id: u32| image_of(spec_from_bytes(pages[id as int])->Ok_0),
    )
}

/// What `open` makes of a file image.
pub open spec fn spec_open(image: Seq<u8>) -> Result<SpaceView, SpaceError> {
    if image.len() == 0 {
        Err(SpaceError::SuperblockInvalidMagic)
    } else if image.len() % (PAGE_SIZE as nat) != 0 {
        Err(SpaceError::SuperblockTruncated { got: image.len() as usize })
    } else {
        match spec_from_bytes(image.subrange(0, PAGE_SIZE as int)) {
            Err(_) => Err(SpaceError::SuperblockInvalidMagic),
            Ok(p0) => match super::superblock::spec_read_superblock(p0.data) {
                Err(e) => Err(e),
                Ok(sb) => if sb.version > 1 {
                    Err(SpaceError::SuperblockVersionUnsupported(sb.version))
                } else {
                    Ok(SpaceView { pages: spec_chunks(image), superblock: sb })
                },
            },
        }
    }
}

/// What `allocate_page` returns and leaves: pop the head of the free list
/// (zeroing its user data) or, with an empty free list, append a blank page;
/// either way page 0 is rewritten from the superblock.
pub open spec fn spec_allocate(v: SpaceView) -> (Result<u32, SpaceError>, SpaceView) {
    match v.superblock.free_list_head {
        Some(h) => if h >= v.pages.len() {
            (Err(SpaceError::PageIdOutOfRange(h)), v)
        } else {
            match spec_from_bytes(v.pages[h as int]) {
                Err(_) => (Err(SpaceError::SuperblockInvalidMagic), v),
                Ok(p) => {
                    let next = spec_decode_free(p.data);
                    if next matches Some(n) && n >= v.pages.len() {
                        (Err(SpaceError::FreeListCorrupted(h)), v)
                    } else {
                        let sb = Superblock { free_list_head: next, ..v.superblock };
                        let w = v.with_superblock(sb);
                        (
                            Ok(h),
                            SpaceView {
                                pages: w.pages.update(h as int, spec_to_bytes(p.header, zero_data())),
                                superblock: sb,
                            },
                        )
                    }
                },
            }
        },
        None => if v.pages.len() >= u32::MAX {
            (Err(SpaceError::PageIdOutOfRange(u32::MAX)), v)
        } else {
            let id = v.pages.len() as u32;
            let w = SpaceView {
                pages: v.pages.push(spec_to_bytes(blank_header(id, PageType::Free), zero_data())),
                superblock: v.superblock,
            };
            (Ok(id), w.with_superblock(v.superblock))
        },
    }
}

/// What `free_page` returns and leaves: the page becomes a `Free` page
/// pointing at the old head, and becomes the head itself.
pub open spec fn spec_free(v: SpaceView, page_id: u32) -> (Result<(), SpaceError>, SpaceView) {
    if page_id == 0 || page_id >= v.pages.len() {
        (Err(SpaceError::PageIdOutOfRange(page_id)), v)
    } else {
        let sb = Superblock { free_list_head: Some(page_id), ..v.superblock };
        let w = SpaceView {
            pages: v.pages.update(
                page_id as int,
                spec_to_bytes(
                    blank_header(page_id, PageType::Free),
                    spec_free_data(v.superblock.free_list_head),
                ),
            ),
            superblock: v.superblock,
        };
        (Ok(()), w.with_superblock(sb))
    }
}

impl SpaceView {
    /// Number of pages.
    pub open spec fn page_count(self) -> nat {
        self.pages.len()
    }

    /// Every image is a full page, there is a page 0 and the count fits in `u32`.
    pub open spec fn wf(self) -> bool {
        &&& 1 <= self.pages.len() <= u32::MAX
        &&& forall|i: int| 0 <= i < self.pages.len() ==> (#[trigger] self.pages[i]).len() == PAGE_SIZE
    }

    /// Page 0 holds the superblock, which carries the current magic and page
    /// size and a supported version.
    pub open spec fn consistent(self) -> bool {
        &&& self.wf()
        &&& self.pages[0] == spec_page0_image(self.superblock)
        &&& self.superblock.magic == crate::page::page::PAGE_MAGIC
        &&& self.superblock.page_size == PAGE_SIZE
        &&& self.superblock.version <= 1
    }

    /// This tablespace after rewriting page 0 from its superblock `sb`.
    pub open spec fn with_superblock(self, sb: Superblock) -> SpaceView {
        SpaceView { pages: self.pages.update(0, spec_page0_image(sb)), superblock: sb }
    }
}

/// Reading back page 0 written from a superblock gives its user data.
proof fn lemma_page0_round_trip(sb: Superblock)
    ensures
        spec_from_bytes(spec_page0_image(sb)) is Ok,
        image_of(spec_from_bytes(spec_page0_image(sb))->Ok_0) == (PageImage {
            page_id: 0,
            page_type: PageType::Superblock,
            lsn: 0,
            data: spec_page0_data(sb),
        }),
        spec_page0_image(sb).len() == PAGE_SIZE,
{
    vstd::bytes::lemma_auto_spec_u32_to_from_le_bytes();
    vstd::bytes::lemma_auto_spec_u64_to_from_le_bytes();
    assert(spec_page0_data(sb).len() == PAGE_USER_DATA_SIZE);
    lemma_page_round_trip(blank_header(0, PageType::Superblock), spec_page0_data(sb));
    crate::page::page::lemma_zero_checksums_layout(
        blank_header(0, PageType::Superblock),
        spec_page0_data(sb),
        crate::page::page::spec_page_checksum(
            blank_header(0, PageType::Superblock),
            spec_page0_data(sb),
        ),
    );
}

/// Reading back a written page gives its header fields and user data.
proof fn lemma_written_image(v: PageView)
    requires
        v.data.len() == PAGE_USER_DATA_SIZE,
    ensures
        spec_from_bytes(spec_to_bytes(v.header, v.data)) is Ok,
        image_of(spec_from_bytes(spec_to_bytes(v.header, v.data))->Ok_0) == image_of(v),
        spec_to_bytes(v.header, v.data).len() == PAGE_SIZE,
{
    lemma_page_round_trip(v.header, v.data);
    crate::page::page::lemma_zero_checksums_layout(
        v.header,
        v.data,
        crate::page::page::spec_page_checksum(v.header, v.data),
    );
}

impl Space {
    /// Every image is a full page, there is a page 0 and the count fits in `u32`.
    pub open spec fn wf(&self) -> bool {
        self@.wf()
    }

    /// A new tablespace: a single page 0 holding a fresh superblock.
    pub fn create() -> (r: Self)
        ensures
            r.wf(),
            r@.superblock == Superblock::spec_fresh(),
            r@.pages == seq![spec_page0_image(Superblock::spec_fresh())],
    {
        let sb = Superblock::fresh();
        let page0 = Self::build_page0(&sb);
        let mut pages: Vec<Vec<u8>> = Vec::new();
        pages.push(page0);
        proof {
            lemma_page0_round_trip(sb);
        }
        assert(pages@.map_values(|p: Vec<u8>| p@) =~= seq![spec_page0_image(sb)]);
        Space { pages, superblock: sb }
    }

    /// Opens a tablespace from the bytes of its file: the length must be a
    /// positive multiple of `PAGE_SIZE`, page 0 must parse and hold a valid
    /// superblock of version at most 1.
    pub fn open(image: &[u8]) -> (r: Result<Self, SpaceError>)
        requires
            image@.len() / (PAGE_SIZE as nat) <= u32::MAX,
        ensures
            match r {
                Ok(s) => s.wf() && spec_open(image@) == Ok::<SpaceView, SpaceError>(s@),
                Err(e) => spec_open(image@) == Err::<SpaceView, SpaceError>(e),
            },
    {
        let len = image.len();
        if len == 0 {
            return Err(SpaceError::SuperblockInvalidMagic);
        }
        if len % PAGE_SIZE != 0 {
            return Err(SpaceError::SuperblockTruncated { got: len });
        }
        let page0 = match Page::from_bytes(slice_subrange(image, 0, PAGE_SIZE)) {
            Ok(p) => p,
            Err(_) => return Err(SpaceError::SuperblockInvalidMagic),
        };
        let sb = Superblock::read_from(&page0)?;
        if sb.version > 1 {
            return Err(SpaceError::SuperblockVersionUnsupported(sb.version));
        }
        let n = len / PAGE_SIZE;
        let mut pages: Vec<Vec<u8>> = Vec::new();
        let mut i: usize = 0;
        while i < n
            invariant
                n == image@.len() / (PAGE_SIZE as nat),
                len == image@.len(),
                i <= n,
                pages@.len() == i,
                forall|j: int|
                    0 <= j < i ==> (#[trigger] pages@[j])@ == image@.subrange(
                        j * PAGE_SIZE,
                        j * PAGE_SIZE + PAGE_SIZE,
                    ),
            decreases n - i,
        {
            assert(i * PAGE_SIZE + PAGE_SIZE <= image@.len()) by (nonlinear_arith)
                requires
                    i < n,
                    n == image@.len() / 16384,
                    PAGE_SIZE == 16384,
            ;
            assert(i * PAGE_SIZE + PAGE_SIZE <= len);
            let chunk = slice_to_vec(slice_subrange(image, i * PAGE_SIZE, i * PAGE_SIZE + PAGE_SIZE));
            pages.push(chunk);
            i = i + 1;
        }
        assert(pages@.map_values(|p: Vec<u8>| p@) =~= spec_chunks(image@));
        Ok(Space { pages, superblock: sb })
    }

    /// Number of pages in the tablespace.
    pub fn page_count(&self) -> (r: u32)
        requires
            self.wf(),
        ensures
            r == self@.page_count(),
    {
        self.pages.len() as u32
    }

    /// The in-memory superblock.
    pub fn superblock(&self) -> (r: &Superblock)
        ensures
            *r == self@.superblock,
    {
        &self.superblock
    }

    /// The bytes of the tablespace file: the page images in page order.
    pub fn image(&self) -> (r: Vec<u8>)
        ensures
            r@ == spec_flatten(self@.pages),
    {
        let mut out: Vec<u8> = Vec::new();
        let mut i: usize = 0;
        while i < self.pages.len()
            invariant
                i <= self@.pages.len(),
                out@ == spec_flatten(self@.pages.take(i as int)),
            decreases self@.pages.len() - i,
        {
            let ghost before = out@;
            let page = self.pages[i].as_slice();
            let mut k: usize = 0;
            while k < page.len()
                invariant
                    k <= page@.len(),
                    out@ == before + page@.take(k as int),
                decreases page@.len() - k,
            {
                out.push(page[k]);
                k = k + 1;
                assert(out@ =~= before + page@.take(k as int));
            }
            assert(self@.pages.take(i + 1).drop_last() =~= self@.pages.take(i as int));
            assert(page@.take(k as int) =~= page@);
            i = i + 1;
        }
        assert(self@.pages.take(i as int) =~= self@.pages);
        out
    }

    /// Records `page_id` as the B+Tree root in the superblock and rewrites page 0.
    pub fn set_root_page_id(&mut self, page_id: u32) -> (r: Result<(), SpaceError>)
        requires
            old(self).wf(),
        ensures
            final(self).wf(),
            r is Ok,
            final(self)@ == old(self)@.with_superblock(
                Superblock { root_page_id: Some(page_id), ..old(self)@.superblock },
            ),
    {
        self.superblock.root_page_id = Some(page_id);
        self.write_superblock();
        Ok(())
    }

    /// Rewrites page 0 from the in-memory superblock.
    fn write_superblock(&mut self)
        requires
            old(self).wf(),
        ensures
            final(self).wf(),
            final(self)@ == old(self)@.with_superblock(old(self)@.superblock),
    {
        proof {
            lemma_page0_round_trip(self.superblock);
        }
        let page0 = Self::build_page0(&self.superblock);
        self.pages.set(0, page0);
        assert(self@.pages =~= old(self)@.with_superblock(old(self)@.superblock).pages);
    }

    /// Reads page `page_id`: it must lie in the tablespace and its image must
    /// parse (else `SuperblockInvalidMagic`).
    pub fn read_page(&mut self, page_id: u32) -> (r: Result<Page, SpaceError>)
        requires
            old(self).wf(),
        ensures
            final(self)@ == old(self)@,
            page_id >= old(self)@.page_count() ==> r == Err::<Page, SpaceError>(
                SpaceError::PageIdOutOfRange(page_id),
            ),
            page_id < old(self)@.page_count() ==> match spec_from_bytes(
                old(self)@.pages[page_id as int],
            ) {
                Ok(v) => r matches Ok(p) && p.wf() && p@ == v,
                Err(_) => r == Err::<Page, SpaceError>(SpaceError::SuperblockInvalidMagic),
            },
    {
        self.read_page_ref(page_id)
    }

    pub(crate) fn read_page_ref(&self, page_id: u32) -> (r: Result<Page, SpaceError>)
        requires
            self.wf(),
        ensures
            page_id >= self@.page_count() ==> r == Err::<Page, SpaceError>(
                SpaceError::PageIdOutOfRange(page_id),
            ),
            page_id < self@.page_count() ==> match spec_from_bytes(self@.pages[page_id as int]) {
                Ok(v) => r matches Ok(p) && p.wf() && p@ == v,
                Err(_) => r == Err::<Page, SpaceError>(SpaceError::SuperblockInvalidMagic),
            },
    {
        if page_id as usize >= self.pages.len() {
            return Err(SpaceError::PageIdOutOfRange(page_id));
        }
        match Page::from_bytes(self.pages[page_id as usize].as_slice()) {
            Ok(p) => Ok(p),
            Err(_) => Err(SpaceError::SuperblockInvalidMagic),
        }
    }

    /// Writes page `page_id`, which must lie in the tablespace.
    pub fn write_page(&mut self, page_id: u32, page: &Page) -> (r: Result<(), SpaceError>)
        requires
            old(self).wf(),
            page.wf(),
        ensures
            final(self).wf(),
            page_id >= old(self)@.page_count() ==> r == Err::<(), SpaceError>(
                SpaceError::PageIdOutOfRange(page_id),
            ) && final(self)@ == old(self)@,
            page_id < old(self)@.page_count() ==> r is Ok && final(self)@ == (SpaceView {
                pages: old(self)@.pages.update(
                    page_id as int,
                    spec_to_bytes(page@.header, page@.data),
                ),
                superblock: old(self)@.superblock,
            }),
    {
        if page_id as usize >= self.pages.len() {
            return Err(SpaceError::PageIdOutOfRange(page_id));
        }
        let bytes = page.to_bytes();
        proof {
            lemma_written_image(page@);
        }
        self.pages.set(page_id as usize, bytes);
        assert(self@.pages =~= old(self)@.pages.update(
            page_id as int,
            spec_to_bytes(page@.header, page@.data),
        ));
        Ok(())
    }

    /// Allocates a page: the head of the free list, its user data zeroed, or,
    /// with an empty free list, a new blank `Free` page at the end. Page 0 is
    /// rewritten from the superblock. A head beyond the tablespace gives
    /// `PageIdOutOfRange`, an unreadable head `SuperblockInvalidMagic`, a
    /// successor beyond the tablespace `FreeListCorrupted(head)`; a
    /// tablespace that already holds `u32::MAX` pages cannot grow and gives
    /// `PageIdOutOfRange(u32::MAX)`.
    pub fn allocate_page(&mut self) -> (r: Result<u32, SpaceError>)
        requires
            old(self).wf(),
        ensures
            final(self).wf(),
            (r, final(self)@) == spec_allocate(old(self)@),
    {
        match self.superblock.free_list_head {
            Some(head_id) => {
                let mut page = match self.read_page(head_id) {
                    Ok(p) => p,
                    Err(e) => return Err(e),
                };
                let next = match decode_free(page.user_data()) {
                    Ok(n) => n,
                    Err(e) => return Err(e),
                };
                if let Some(n) = next {
                    if n as usize >= self.pages.len() {
                        return Err(SpaceError::FreeListCorrupted(head_id));
                    }
                }
                let ghost parsed = page@;
                self.superblock.free_list_head = next;
                self.write_superblock();
                let ud = page.user_data_mut();
                let mut k: usize = 0;
                while k < ud.len()
                    invariant
                        k <= ud@.len(),
                        ud@.len() == PAGE_USER_DATA_SIZE,
                        forall|j: int| 0 <= j < k ==> ud@[j] == 0u8,
                    decreases ud@.len() - k,
                {
                    ud[k] = 0;
                    k = k + 1;
                }
                assert(ud@ =~= zero_data());
                assert(page@.header == parsed.header);
                let res = self.write_page(head_id, &page);
                Ok(head_id)
            },
            None => {
                if self.pages.len() >= u32::MAX as usize {
                    return Err(SpaceError::PageIdOutOfRange(u32::MAX));
                }
                let new_id = self.pages.len() as u32;
                let new_page = Page::new(new_id, PageType::Free);
                let bytes = new_page.to_bytes();
                proof {
                    lemma_written_image(new_page@);
                    assert(new_page@.data =~= zero_data());
                }
                self.pages.push(bytes);
                assert(self@.pages =~= old(self)@.pages.push(
                    spec_to_bytes(blank_header(new_id, PageType::Free), zero_data()),
                ));
                self.write_superblock();
                Ok(new_id)
            },
        }
    }

    /// Returns page `page_id` to the free list: it becomes a `Free` page
    /// pointing at the old head and the new head. Page 0 (the superblock)
    /// and ids beyond the tablespace give `PageIdOutOfRange`.
    pub fn free_page(&mut self, page_id: u32) -> (r: Result<(), SpaceError>)
        requires
            old(self).wf(),
        ensures
            final(self).wf(),
            (r, final(self)@) == spec_free(old(self)@, page_id),
    {
        if page_id == 0 {
            return Err(SpaceError::PageIdOutOfRange(page_id));
        }
        if page_id as usize >= self.pages.len() {
            return Err(SpaceError::PageIdOutOfRange(page_id));
        }
        let mut page = Page::new(page_id, PageType::Free);
        let encoded = encode_free(self.superblock.free_list_head);
        proof {
            vstd::bytes::lemma_auto_spec_u32_to_from_le_bytes();
        }
        crate::page::bytes::write_slice(page.user_data_mut(), 0, encoded.as_slice());
        proof {
            assert(page@.data =~= spec_free_data(old(self)@.superblock.free_list_head));
        }
        let res = self.write_page(page_id, &page);
        self.superblock.free_list_head = Some(page_id);
        self.write_superblock();
        Ok(())
    }

    /// The image of page 0 holding `sb`.
    fn build_page0(sb: &Superblock) -> (r: Vec<u8>)
        ensures
            r@ == spec_page0_image(*sb),
    {
        let mut page = Page::new(0, PageType::Superblock);
        let res = sb.write_into(&mut page);
        proof {
            assert(page@.data == spec_page0_data(*sb));
        }
        page.to_bytes()
    }
}

impl PageSource for Space {
    open spec fn pages(&self) -> Map<u32, PageImage> {
        spec_readable(self@.pages)
    }

    /// With an empty free list, allocation appends a new page.
    open spec fn fresh_alloc(&self) -> bool {
        self@.superblock.free_list_head is None
    }

    open spec fn reads_succeed(&self) -> bool {
        true
    }

    open spec fn has_root(&self) -> bool {
        true
    }

    open spec fn root_id(&self) -> Option<u32> {
        self@.superblock.root_page_id
    }

    open spec fn writable(&self) -> bool {
        true
    }

    /// With an empty free list, allocation appends pages until the
    /// tablespace holds `u32::MAX` pages.
    open spec fn alloc_room(&self) -> nat {
        if self@.superblock.free_list_head is None && self@.pages.len() < u32::MAX {
            (u32::MAX - self@.pages.len()) as nat
        } else {
            0
        }
    }

    open spec fn valid(&self) -> bool {
        self.wf()
    }

    fn read_page(&mut self, page_id: u32) -> (r: Result<Page, SpaceError>) {
        Space::read_page(self, page_id)
    }

    fn write_page(&mut self, page_id: u32, page: &Page) -> (r: Result<(), SpaceError>) {
        let r = Space::write_page(self, page_id, page);
        proof {
            if r is Ok {
                lemma_written_image(page@);
                assert(spec_readable(self@.pages) =~= spec_readable(old(self)@.pages).insert(
                    page_id,
                    image_of(page@),
                ));
            }
        }
        r
    }

    fn set_root_page_id(&mut self, page_id: u32) -> (r: Result<(), SpaceError>) {
        let r = Space::set_root_page_id(self, page_id);
        proof {
            assert forall|j: u32| j != 0 implies (#[trigger] spec_readable(self@.pages).contains_key(j)
                == spec_readable(old(self)@.pages).contains_key(j) && (spec_readable(old(self)@.pages).contains_key(j)
                ==> spec_readable(self@.pages)[j] == spec_readable(old(self)@.pages)[j])) by {
                if j < self@.pages.len() {
                    assert(self@.pages[j as int] == old(self)@.pages[j as int]);
                }
            }
        }
        r
    }

    fn allocate_page(&mut self) -> (r: Result<u32, SpaceError>) {
        let r = Space::allocate_page(self);
        proof {
            if let Ok(id) = r {
                let v = old(self)@;
                lemma_page0_round_trip(self@.superblock);
                match v.superblock.free_list_head {
                    Some(h) => {
                        let p = spec_from_bytes(v.pages[h as int])->Ok_0;
                        lemma_written_image(PageView { data: zero_data(), ..p });
                    },
                    None => {
                        lemma_written_image(
                            PageView {
                                header: blank_header(id, PageType::Free),
                                data: zero_data(),
                                footer: crate::page::page::PageFooter { magic: 0, checksum: 0 },
                            },
                        );
                    },
                }
            }
        }
        r
    }
}

/// Reading back a page written from `h` and `data` gives `data` and the
/// header fields of `h`.
proof fn lemma_header_image(h: PageHeader, data: Seq<u8>)
    requires
        data.len() == PAGE_USER_DATA_SIZE,
    ensures
        spec_from_bytes(spec_to_bytes(h, data)) is Ok,
        spec_from_bytes(spec_to_bytes(h, data))->Ok_0.data == data,
        spec_from_bytes(spec_to_bytes(h, data))->Ok_0.header.page_id == h.page_id,
        spec_to_bytes(h, data).len() == PAGE_SIZE,
{
    lemma_page_round_trip(h, data);
    crate::page::page::lemma_zero_checksums_layout(h, data, crate::page::page::spec_page_checksum(h, data));
}

/// The bytes of full pages: `PAGE_SIZE` per page, page `i` at offset
/// `i * PAGE_SIZE`.
proof fn lemma_flatten(pages: Seq<Seq<u8>>)
    requires
        forall|i: int| 0 <= i < pages.len() ==> (#[trigger] pages[i]).len() == PAGE_SIZE,
    ensures
        spec_flatten(pages).len() == pages.len() * PAGE_SIZE,
        forall|i: int|
            0 <= i < pages.len() ==> spec_flatten(pages).subrange(i * PAGE_SIZE, i * PAGE_SIZE + PAGE_SIZE)
                == #[trigger] pages[i],
    decreases pages.len(),
{
    if pages.len() > 0 {
        let pre = pages.drop_last();
        lemma_flatten(pre);
        let f = spec_flatten(pages);
        let fp = spec_flatten(pre);
        assert forall|i: int| 0 <= i < pages.len() implies f.subrange(i * PAGE_SIZE, i * PAGE_SIZE + PAGE_SIZE)
            == #[trigger] pages[i] by {
            if i < pre.len() {
                assert(pre[i] == pages[i]);
                assert(f.subrange(i * PAGE_SIZE, i * PAGE_SIZE + PAGE_SIZE) =~= fp.subrange(
                    i * PAGE_SIZE,
                    i * PAGE_SIZE + PAGE_SIZE,
                ));
            } else {
                assert(f.subrange(i * PAGE_SIZE, i * PAGE_SIZE + PAGE_SIZE) =~= pages.last());
            }
        }
    }
}

/// Law of persistence: a consistent tablespace opens from its own file bytes
/// as itself.
pub proof fn lemma_image_reopens(v: SpaceView)
    requires
        v.consistent(),
    ensures
        spec_open(spec_flatten(v.pages)) == Ok::<SpaceView, SpaceError>(v),
{
    lemma_flatten(v.pages);
    let image = spec_flatten(v.pages);
    let n = v.pages.len();
    assert(image.len() == n * PAGE_SIZE);
    assert(image.len() % (PAGE_SIZE as nat) == 0);
    assert(image.len() / (PAGE_SIZE as nat) == n);
    assert(image.subrange(0, PAGE_SIZE as int) == v.pages[0]) by {
        assert(image.subrange(0 * PAGE_SIZE, 0 * PAGE_SIZE + PAGE_SIZE) == v.pages[0]);
    }
    lemma_page0_round_trip(v.superblock);
    super::superblock::lemma_superblock_round_trip(v.superblock, zero_data());
    assert(spec_chunks(image) =~= v.pages);
}

/// A new tablespace is consistent.
pub proof fn lemma_fresh_consistent()
    ensures
        (SpaceView {
            pages: seq![spec_page0_image(Superblock::spec_fresh())],
            superblock: Superblock::spec_fresh(),
        }).consistent(),
{
    lemma_page0_round_trip(Superblock::spec_fresh());
}

/// Allocating keeps a tablespace consistent when the free list does not
/// point at page 0.
pub proof fn lemma_allocate_consistent(v: SpaceView)
    requires
        v.consistent(),
        v.superblock.free_list_head != Some(0u32),
    ensures
        spec_allocate(v).1.consistent(),
{
    let r = spec_allocate(v);
    match v.superblock.free_list_head {
        Some(h) => {
            if h < v.pages.len() {
                if let Ok(p) = spec_from_bytes(v.pages[h as int]) {
                    let next = spec_decode_free(p.data);
                    if !(next matches Some(n) && n >= v.pages.len()) {
                        let sb = Superblock { free_list_head: next, ..v.superblock };
                        lemma_page0_round_trip(sb);
                        lemma_header_image(p.header, zero_data());
                        let w = v.with_superblock(sb);
                        let pages2 = w.pages.update(h as int, spec_to_bytes(p.header, zero_data()));
                        assert(r.1 == SpaceView { pages: pages2, superblock: sb });
                        assert(pages2[0] == spec_page0_image(sb));
                        assert forall|i: int| 0 <= i < pages2.len() implies (#[trigger] pages2[i]).len()
                            == PAGE_SIZE by {
                            if i != h && i != 0 {
                                assert(pages2[i] == v.pages[i]);
                            }
                        }
                    }
                }
            }
        },
        None => {
            if v.pages.len() < u32::MAX {
                let nid = v.pages.len() as u32;
                lemma_page0_round_trip(v.superblock);
                lemma_header_image(blank_header(nid, PageType::Free), zero_data());
                let pages2 = v.pages.push(spec_to_bytes(blank_header(nid, PageType::Free), zero_data())).update(
                    0,
                    spec_page0_image(v.superblock),
                );
                assert(r.1.pages == pages2);
                assert forall|i: int| 0 <= i < pages2.len() implies (#[trigger] pages2[i]).len()
                    == PAGE_SIZE by {
                    if i != 0 && i < v.pages.len() {
                        assert(pages2[i] == v.pages[i]);
                    }
                }
            }
        },
    }
}

/// The user data of a freed page: the encoded successor, then zeros.
proof fn lemma_free_data(next: Option<u32>)
    ensures
        spec_free_data(next) == spec_encode_free(next) + zero_data().subrange(
            5,
            PAGE_USER_DATA_SIZE as int,
        ),
        spec_free_data(next).len() == PAGE_USER_DATA_SIZE,
        spec_decode_free(spec_free_data(next)) == next,
{
    vstd::bytes::lemma_auto_spec_u32_to_from_le_bytes();
    assert(spec_encode_free(next).len() == 5);
    assert(spec_free_data(next) =~= spec_encode_free(next) + zero_data().subrange(
        5,
        PAGE_USER_DATA_SIZE as int,
    ));
    super::free_list::lemma_free_round_trip(next, zero_data().subrange(5, PAGE_USER_DATA_SIZE as int));
}

/// Freeing a page keeps a tablespace consistent.
pub proof fn lemma_free_consistent(v: SpaceView, id: u32)
    requires
        v.consistent(),
    ensures
        spec_free(v, id).1.consistent(),
{
    if id != 0 && id < v.pages.len() {
        let sb = Superblock { free_list_head: Some(id), ..v.superblock };
        lemma_page0_round_trip(sb);
        lemma_free_data(v.superblock.free_list_head);
        lemma_header_image(blank_header(id, PageType::Free), spec_free_data(v.superblock.free_list_head));
    }
}

/// Recording a root, and writing a full page image other than page 0, keep
/// a tablespace consistent.
pub proof fn lemma_write_consistent(v: SpaceView, id: u32, root: u32, image: Seq<u8>)
    requires
        v.consistent(),
    ensures
        v.with_superblock(Superblock { root_page_id: Some(root), ..v.superblock }).consistent(),
        id != 0 && id < v.pages.len() && image.len() == PAGE_SIZE ==> (SpaceView {
            pages: v.pages.update(id as int, image),
            superblock: v.superblock,
        }).consistent(),
{
    lemma_page0_round_trip(Superblock { root_page_id: Some(root), ..v.superblock });
}

/// Law of the free list: freeing a page and then allocating gives that page
/// back, and leaves the free list as it was before the free.
pub proof fn lemma_free_then_allocate(v: SpaceView, id: u32)
    requires
        v.wf(),
        0 < id < v.pages.len(),
        v.superblock.free_list_head matches Some(h) ==> h < v.pages.len(),
    ensures
        spec_free(v, id).0 is Ok,
        spec_allocate(spec_free(v, id).1).0 == Ok::<u32, SpaceError>(id),
        spec_allocate(spec_free(v, id).1).1.superblock.free_list_head == v.superblock.free_list_head,
{
    let w = spec_free(v, id).1;
    let data = spec_free_data(v.superblock.free_list_head);
    lemma_free_data(v.superblock.free_list_head);
    lemma_header_image(blank_header(id, PageType::Free), data);
    assert(w.pages[id as int] == spec_to_bytes(blank_header(id, PageType::Free), data));
}

} // verus!
