//! The 16 KiB page: a 32-byte header, the user data area and an 8-byte footer,
//! all little-endian, protected by a CRC-32 over the whole page.
use super::bytes::{le_u32_at, le_u64_at, read_u32, read_u64, splice, write_bytes, write_u32, write_u64};
use vstd::slice::{slice_subrange, slice_to_vec};
use super::error::PageError;
use crate::crc::{crc32, spec_crc32};
use vstd::bytes::*;
use vstd::prelude::*;

verus! {

/// Page size in bytes.
pub const PAGE_SIZE: usize = 16384;

/// Header length.
pub const PAGE_HEADER_SIZE: usize = 32;

/// Footer length.
pub const PAGE_FOOTER_SIZE: usize = 8;

/// Offset of the user data area.
pub const PAGE_USER_DATA_OFFSET: usize = PAGE_HEADER_SIZE;

/// Offset of the footer.
pub const PAGE_FOOTER_OFFSET: usize = PAGE_SIZE - PAGE_FOOTER_SIZE;

/// Length of the user data area.
pub const PAGE_USER_DATA_SIZE: usize = PAGE_SIZE - PAGE_HEADER_SIZE - PAGE_FOOTER_SIZE;

/// Magic number that opens the header and the footer.
pub const PAGE_MAGIC: u32 = 0xFEDB_0001;

/// Header format version.
pub const PAGE_HEADER_VERSION: u32 = 1;

/// Offset of the header checksum field.
pub const HEADER_CHECKSUM_OFFSET: usize = 20;

/// Offset of the footer checksum field.
pub const FOOTER_CHECKSUM_OFFSET: usize = PAGE_FOOTER_OFFSET + 4;

/// Kind of a page.
#[derive(Debug, Clone, Copy, PartialEq, Eq, Structural)]
pub enum PageType {
    /// Free page / free list node.
    Free,
    /// Data page.
    Data,
    /// B+Tree node page.
    Index,
    /// Tablespace superblock.
    Superblock,
}

impl PageType {
    /// The byte that stands for this page type on disk.
    pub open spec fn spec_to_u8(self) -> u8 {
        match self {
            PageType::Free => 0,
            PageType::Data => 1,
            PageType::Index => 2,
            PageType::Superblock => 3,
        }
    }

    /// The page type a byte stands for.
    pub open spec fn spec_from_u8(value: u8) -> Result<PageType, PageError> {
        if value == 0 {
            Ok(PageType::Free)
        } else if value == 1 {
            Ok(PageType::Data)
        } else if value == 2 {
            Ok(PageType::Index)
        } else if value == 3 {
            Ok(PageType::Superblock)
        } else {
            Err(PageError::UnknownPageType(value))
        }
    }

    /// On-disk byte.
    pub fn to_u8(self) -> (r: u8)
        ensures
            r == self.spec_to_u8(),
    {
        match self {
            PageType::Free => 0,
            PageType::Data => 1,
            PageType::Index => 2,
            PageType::Superblock => 3,
        }
    }

    /// Parses the on-disk byte.
    pub fn from_u8(value: u8) -> (r: Result<Self, PageError>)
        ensures
            r == Self::spec_from_u8(value),
    {
        match value {
            0 => Ok(PageType::Free),
            1 => Ok(PageType::Data),
            2 => Ok(PageType::Index),
            3 => Ok(PageType::Superblock),
            other => Err(PageError::UnknownPageType(other)),
        }
    }
}

/// Decoding a page type byte gives back the type it encodes.
pub proof fn lemma_page_type_round_trip(t: PageType)
    ensures
        PageType::spec_from_u8(t.spec_to_u8()) == Ok::<PageType, PageError>(t),
{
}

/// Logical page header.
#[derive(Debug, Clone, Copy, PartialEq, Eq, Structural)]
pub struct PageHeader {
    /// Page number in the tablespace.
    pub page_id: u32,
    /// Page type.
    pub page_type: PageType,
    /// LSN of the last change to the page.
    pub lsn: u64,
    /// CRC-32 written by `to_bytes`.
    pub checksum: u32,
}

impl PageHeader {
    /// New header with `lsn` and `checksum` zero.
    pub fn new(page_id: u32, page_type: PageType) -> (r: Self)
        ensures
            r == (PageHeader { page_id, page_type, lsn: 0, checksum: 0 }),
    {
        PageHeader { page_id, page_type, lsn: 0, checksum: 0 }
    }
}

/// Page footer: copies of the magic and of the checksum.
#[derive(Debug, Clone, Copy, PartialEq, Eq, Structural)]
pub struct PageFooter {
    /// Same magic as the header.
    pub magic: u32,
    /// Same checksum as the header.
    pub checksum: u32,
}

/// An in-memory page.
#[derive(Debug, Clone, PartialEq, Eq)]
pub struct Page {
    header: PageHeader,
    user_data: Vec<u8>,
    footer: PageFooter,
}

/// What a page holds: header, user data and footer.
pub struct PageView {
    /// Header fields.
    pub header: PageHeader,
    /// User data bytes.
    pub data: Seq<u8>,
    /// Footer fields.
    pub footer: PageFooter,
}

impl View for Page {
    type V = PageView;

    closed spec fn view(&self) -> PageView {
        PageView { header: self.header, data: self.user_data@, footer: self.footer }
    }
}

/// The 32 header bytes for `h` with `checksum` in the checksum field.
pub open spec fn spec_header_bytes(h: PageHeader, checksum: u32) -> Seq<u8> {
    spec_u32_to_le_bytes(PAGE_MAGIC) + spec_u32_to_le_bytes(h.page_id) + seq![
        h.page_type.spec_to_u8(),
        0u8,
        0u8,
        0u8,
    ] + spec_u64_to_le_bytes(h.lsn) + spec_u32_to_le_bytes(checksum) + spec_u32_to_le_bytes(
        PAGE_HEADER_VERSION,
    ) + seq![0u8, 0u8, 0u8, 0u8]
}

/// The 8 footer bytes.
pub open spec fn spec_footer_bytes(magic: u32, checksum: u32) -> Seq<u8> {
    spec_u32_to_le_bytes(magic) + spec_u32_to_le_bytes(checksum)
}

/// The full page image for header `h`, user data `data` and checksum value `checksum`.
pub open spec fn spec_layout(h: PageHeader, data: Seq<u8>, checksum: u32) -> Seq<u8> {
    spec_header_bytes(h, checksum) + data + spec_footer_bytes(PAGE_MAGIC, checksum)
}

/// `bytes` with both checksum fields set to zero.
pub open spec fn spec_zero_checksums(bytes: Seq<u8>) -> Seq<u8> {
    splice(
        splice(bytes, HEADER_CHECKSUM_OFFSET as int, spec_u32_to_le_bytes(0)),
        FOOTER_CHECKSUM_OFFSET as int,
        spec_u32_to_le_bytes(0),
    )
}

/// The checksum of a page image: CRC-32 with both checksum fields read as zero.
pub open spec fn spec_checksum_of(bytes: Seq<u8>) -> u32 {
    spec_crc32(spec_zero_checksums(bytes))
}

/// The checksum that `to_bytes` stores for header `h` and user data `data`.
pub open spec fn spec_page_checksum(h: PageHeader, data: Seq<u8>) -> u32 {
    spec_crc32(spec_layout(h, data, 0))
}

/// The image `to_bytes` writes.
pub open spec fn spec_to_bytes(h: PageHeader, data: Seq<u8>) -> Seq<u8> {
    spec_layout(h, data, spec_page_checksum(h, data))
}

/// What `from_bytes` makes of a byte sequence.
pub open spec fn spec_from_bytes(b: Seq<u8>) -> Result<PageView, PageError> {
    if b.len() != PAGE_SIZE {
        Err(PageError::InvalidLength(b.len() as usize))
    } else if le_u32_at(b, 0) != PAGE_MAGIC || le_u32_at(b, PAGE_FOOTER_OFFSET as int)
        != PAGE_MAGIC {
        Err(PageError::InvalidMagic)
    } else if spec_checksum_of(b) != le_u32_at(b, HEADER_CHECKSUM_OFFSET as int)
        || spec_checksum_of(b) != le_u32_at(b, FOOTER_CHECKSUM_OFFSET as int) {
        Err(PageError::ChecksumMismatch)
    } else {
        match PageType::spec_from_u8(b[8]) {
            Err(e) => Err(e),
            Ok(t) => Ok(
                PageView {
                    header: PageHeader {
                        page_id: le_u32_at(b, 4),
                        page_type: t,
                        lsn: le_u64_at(b, 12),
                        checksum: le_u32_at(b, HEADER_CHECKSUM_OFFSET as int),
                    },
                    data: b.subrange(PAGE_USER_DATA_OFFSET as int, PAGE_FOOTER_OFFSET as int),
                    footer: PageFooter {
                        magic: le_u32_at(b, PAGE_FOOTER_OFFSET as int),
                        checksum: le_u32_at(b, FOOTER_CHECKSUM_OFFSET as int),
                    },
                },
            ),
        }
    }
}

impl Page {
    /// A page whose user data area has the fixed length.
    pub open spec fn wf(&self) -> bool {
        self@.data.len() == PAGE_USER_DATA_SIZE
    }

    /// Blank page: zeroed user data, zero lsn and checksum, footer magic set.
    pub fn new(page_id: u32, page_type: PageType) -> (r: Self)
        ensures
            r.wf(),
            r@.header == (PageHeader { page_id, page_type, lsn: 0, checksum: 0 }),
            r@.data == Seq::new(PAGE_USER_DATA_SIZE as nat, |i: int| 0u8),
            r@.footer == (PageFooter { magic: PAGE_MAGIC, checksum: 0 }),
    {
        let user_data = vec![0u8; PAGE_USER_DATA_SIZE];
        let r = Page {
            header: PageHeader::new(page_id, page_type),
            user_data,
            footer: PageFooter { magic: PAGE_MAGIC, checksum: 0 },
        };
        assert(r@.data =~= Seq::new(PAGE_USER_DATA_SIZE as nat, |i: int| 0u8));
        r
    }

    /// A copy of the page.
    pub fn duplicate(&self) -> (r: Page)
        ensures
            r@ == self@,
    {
        Page {
            header: self.header,
            user_data: slice_to_vec(self.user_data.as_slice()),
            footer: self.footer,
        }
    }

    /// The header.
    pub fn header(&self) -> (r: &PageHeader)
        ensures
            *r == self@.header,
    {
        &self.header
    }

    /// The footer.
    pub fn footer(&self) -> (r: &PageFooter)
        ensures
            *r == self@.footer,
    {
        &self.footer
    }

    /// The page id.
    pub fn page_id(&self) -> (r: u32)
        ensures
            r == self@.header.page_id,
    {
        self.header.page_id
    }

    /// The page type.
    pub fn page_type(&self) -> (r: PageType)
        ensures
            r == self@.header.page_type,
    {
        self.header.page_type
    }

    /// The page LSN.
    pub fn lsn(&self) -> (r: u64)
        ensures
            r == self@.header.lsn,
    {
        self.header.lsn
    }

    /// Sets the page LSN.
    pub fn set_lsn(&mut self, lsn: u64)
        ensures
            final(self)@.header == (PageHeader { lsn, ..old(self)@.header }),
            final(self)@.data == old(self)@.data,
            final(self)@.footer == old(self)@.footer,
    {
        self.header.lsn = lsn;
    }

    /// The user data area.
    pub fn user_data(&self) -> (r: &[u8])
        ensures
            r@ == self@.data,
    {
        self.user_data.as_slice()
    }

    /// Mutable access to the user data area (its length cannot change).
    pub fn user_data_mut(&mut self) -> (r: &mut [u8])
        ensures
            r@ == old(self)@.data,
            final(self)@.header == old(self)@.header,
            final(self)@.footer == old(self)@.footer,
            final(self)@.data == final(r)@,
    {
        self.user_data.as_mut_slice()
    }

    /// Serializes the page into `PAGE_SIZE` bytes, computing the checksum.
    pub fn to_bytes(&self) -> (r: Vec<u8>)
        requires
            self.wf(),
        ensures
            r@ == spec_to_bytes(self@.header, self@.data),
    {
        let ghost h = self@.header;
        let ghost d = self@.data;
        proof {
            lemma_auto_spec_u32_to_from_le_bytes();
            lemma_auto_spec_u64_to_from_le_bytes();
        }
        let mut bytes = vec![0u8; PAGE_SIZE];
        Self::write_header_to(&mut bytes, &self.header, 0);
        write_bytes(&mut bytes, PAGE_USER_DATA_OFFSET, self.user_data.as_slice());
        Self::write_footer_to(&mut bytes, PAGE_MAGIC, 0);
        assert(bytes@ =~= spec_layout(h, d, 0));
        proof {
            lemma_zero_checksums_layout(h, d, 0);
        }
        let checksum = Self::compute_checksum(bytes.as_slice());
        Self::write_header_to(&mut bytes, &self.header, checksum);
        Self::write_footer_to(&mut bytes, PAGE_MAGIC, checksum);
        assert(bytes@ =~= spec_layout(h, d, checksum));
        bytes
    }

    /// Parses a page from bytes; the length must be `PAGE_SIZE`, the magic
    /// numbers and checksums must match and the page type must be known.
    pub fn from_bytes(bytes: &[u8]) -> (r: Result<Self, PageError>)
        ensures
            match r {
                Ok(p) => p.wf() && spec_from_bytes(bytes@) == Ok::<PageView, PageError>(p@),
                Err(e) => spec_from_bytes(bytes@) == Err::<PageView, PageError>(e),
            },
    {
        if bytes.len() != PAGE_SIZE {
            return Err(PageError::InvalidLength(bytes.len()));
        }
        Self::verify_magic(bytes)?;
        Self::verify_checksum(bytes)?;
        let header = Self::parse_header(bytes)?;
        let footer = Self::parse_footer(bytes)?;
        let user_data = slice_to_vec(
            slice_subrange(bytes, PAGE_USER_DATA_OFFSET, PAGE_FOOTER_OFFSET),
        );
        Ok(Page { header, user_data, footer })
    }

    /// CRC-32 of the page image with both checksum fields read as zero.
    pub fn compute_checksum(page_bytes: &[u8]) -> (r: u32)
        requires
            page_bytes@.len() == PAGE_SIZE,
        ensures
            r == spec_checksum_of(page_bytes@),
    {
        let mut copy = slice_to_vec(page_bytes);
        write_u32(&mut copy, HEADER_CHECKSUM_OFFSET, 0);
        write_u32(&mut copy, FOOTER_CHECKSUM_OFFSET, 0);
        crc32(copy.as_slice())
    }

    /// Checks both embedded checksums against the recomputed one.
    pub fn verify_checksum(page_bytes: &[u8]) -> (r: Result<(), PageError>)
        requires
            page_bytes@.len() == PAGE_SIZE,
        ensures
            r is Ok <==> (spec_checksum_of(page_bytes@) == le_u32_at(
                page_bytes@,
                HEADER_CHECKSUM_OFFSET as int,
            ) && spec_checksum_of(page_bytes@) == le_u32_at(
                page_bytes@,
                FOOTER_CHECKSUM_OFFSET as int,
            )),
            r is Err ==> r == Err::<(), PageError>(PageError::ChecksumMismatch),
    {
        let expected = Self::compute_checksum(page_bytes);
        let header_checksum = read_u32(page_bytes, HEADER_CHECKSUM_OFFSET);
        let footer_checksum = read_u32(page_bytes, FOOTER_CHECKSUM_OFFSET);
        if expected != header_checksum || expected != footer_checksum {
            return Err(PageError::ChecksumMismatch);
        }
        Ok(())
    }

    fn verify_magic(page_bytes: &[u8]) -> (r: Result<(), PageError>)
        requires
            page_bytes@.len() == PAGE_SIZE,
        ensures
            r is Ok <==> (le_u32_at(page_bytes@, 0) == PAGE_MAGIC && le_u32_at(
                page_bytes@,
                PAGE_FOOTER_OFFSET as int,
            ) == PAGE_MAGIC),
            r is Err ==> r == Err::<(), PageError>(PageError::InvalidMagic),
    {
        let header_magic = read_u32(page_bytes, 0);
        let footer_magic = read_u32(page_bytes, PAGE_FOOTER_OFFSET);
        if header_magic != PAGE_MAGIC || footer_magic != PAGE_MAGIC {
            return Err(PageError::InvalidMagic);
        }
        Ok(())
    }

    fn write_header_to(buf: &mut Vec<u8>, header: &PageHeader, checksum: u32)
        requires
            old(buf)@.len() == PAGE_SIZE,
        ensures
            final(buf)@ == splice(old(buf)@, 0, spec_header_bytes(*header, checksum)),
    {
        proof {
            lemma_auto_spec_u32_to_from_le_bytes();
            lemma_auto_spec_u64_to_from_le_bytes();
        }
        let ghost b0 = buf@;
        let mut hdr: Vec<u8> = Vec::new();
        hdr.append(&mut u32_to_le_bytes(PAGE_MAGIC));
        hdr.append(&mut u32_to_le_bytes(header.page_id));
        hdr.push(header.page_type.to_u8());
        hdr.push(0);
        hdr.push(0);
        hdr.push(0);
        hdr.append(&mut u64_to_le_bytes(header.lsn));
        hdr.append(&mut u32_to_le_bytes(checksum));
        hdr.append(&mut u32_to_le_bytes(PAGE_HEADER_VERSION));
        hdr.push(0);
        hdr.push(0);
        hdr.push(0);
        hdr.push(0);
        assert(hdr@ =~= spec_header_bytes(*header, checksum));
        write_bytes(buf, 0, hdr.as_slice());
    }

    fn write_footer_to(buf: &mut Vec<u8>, magic: u32, checksum: u32)
        requires
            old(buf)@.len() == PAGE_SIZE,
        ensures
            final(buf)@ == splice(
                old(buf)@,
                PAGE_FOOTER_OFFSET as int,
                spec_footer_bytes(magic, checksum),
            ),
    {
        proof {
            lemma_auto_spec_u32_to_from_le_bytes();
        }
        let mut ftr = u32_to_le_bytes(magic);
        ftr.append(&mut u32_to_le_bytes(checksum));
        write_bytes(buf, PAGE_FOOTER_OFFSET, ftr.as_slice());
    }

    fn parse_header(buf: &[u8]) -> (r: Result<PageHeader, PageError>)
        requires
            buf@.len() == PAGE_SIZE,
        ensures
            match PageType::spec_from_u8(buf@[8]) {
                Ok(t) => r == Ok::<PageHeader, PageError>(
                    PageHeader {
                        page_id: le_u32_at(buf@, 4),
                        page_type: t,
                        lsn: le_u64_at(buf@, 12),
                        checksum: le_u32_at(buf@, HEADER_CHECKSUM_OFFSET as int),
                    },
                ),
                Err(e) => r == Err::<PageHeader, PageError>(e),
            },
    {
        let page_type = PageType::from_u8(buf[8])?;
        Ok(
            PageHeader {
                page_id: read_u32(buf, 4),
                page_type,
                lsn: read_u64(buf, 12),
                checksum: read_u32(buf, HEADER_CHECKSUM_OFFSET),
            },
        )
    }

    fn parse_footer(buf: &[u8]) -> (r: Result<PageFooter, PageError>)
        requires
            buf@.len() == PAGE_SIZE,
        ensures
            r == Ok::<PageFooter, PageError>(
                PageFooter {
                    magic: le_u32_at(buf@, PAGE_FOOTER_OFFSET as int),
                    checksum: le_u32_at(buf@, FOOTER_CHECKSUM_OFFSET as int),
                },
            ),
    {
        Ok(
            PageFooter {
                magic: read_u32(buf, PAGE_FOOTER_OFFSET),
                checksum: read_u32(buf, FOOTER_CHECKSUM_OFFSET),
            },
        )
    }
}

/// Zeroing both checksum fields of a page image gives the image with checksum zero.
pub proof fn lemma_zero_checksums_layout(h: PageHeader, data: Seq<u8>, checksum: u32)
    requires
        data.len() == PAGE_USER_DATA_SIZE,
    ensures
        spec_zero_checksums(spec_layout(h, data, checksum)) == spec_layout(h, data, 0),
        spec_layout(h, data, checksum).len() == PAGE_SIZE,
{
    lemma_auto_spec_u32_to_from_le_bytes();
    lemma_auto_spec_u64_to_from_le_bytes();
    assert(spec_zero_checksums(spec_layout(h, data, checksum)) =~= spec_layout(h, data, 0));
}

/// Serializing a page and parsing the bytes back gives the same header, user
/// data and footer, with the checksum fields holding the computed checksum.
pub proof fn lemma_page_round_trip(h: PageHeader, data: Seq<u8>)
    requires
        data.len() == PAGE_USER_DATA_SIZE,
    ensures
        spec_from_bytes(spec_to_bytes(h, data)) == Ok::<PageView, PageError>(
            PageView {
                header: PageHeader { checksum: spec_page_checksum(h, data), ..h },
                data,
                footer: PageFooter { magic: PAGE_MAGIC, checksum: spec_page_checksum(h, data) },
            },
        ),
{
    let c = spec_page_checksum(h, data);
    let b = spec_to_bytes(h, data);
    lemma_zero_checksums_layout(h, data, c);
    lemma_auto_spec_u32_to_from_le_bytes();
    lemma_auto_spec_u64_to_from_le_bytes();
    assert(b.subrange(0, 4) =~= spec_u32_to_le_bytes(PAGE_MAGIC));
    assert(b.subrange(4, 8) =~= spec_u32_to_le_bytes(h.page_id));
    assert(b[8] == h.page_type.spec_to_u8());
    assert(b.subrange(12, 20) =~= spec_u64_to_le_bytes(h.lsn));
    assert(b.subrange(20, 24) =~= spec_u32_to_le_bytes(c));
    assert(b.subrange(16376, 16380) =~= spec_u32_to_le_bytes(PAGE_MAGIC));
    assert(b.subrange(16380, 16384) =~= spec_u32_to_le_bytes(c));
    assert(b.subrange(32, 16376) =~= data);
    lemma_page_type_round_trip(h.page_type);
}

} // verus!
