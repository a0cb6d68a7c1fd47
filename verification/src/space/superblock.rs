//! Superblock: tablespace metadata in the user data area of page 0.
//!
//! Layout (26 bytes, little-endian): magic `u32`, version `u32`, page size
//! `u32`, free list head (`u8` flag + `u32`), root page id (`u8` flag +
//! `u32`), last LSN `u64`.
use super::error::SpaceError;
use crate::page::bytes::{le_u32_at, le_u64_at, read_u32, read_u64, splice, write_slice};
use crate::page::page::{Page, PageType, PAGE_MAGIC, PAGE_SIZE, PAGE_USER_DATA_SIZE};
use vstd::bytes::*;
use vstd::prelude::*;

verus! {

/// Encoded superblock length.
pub const SUPERBLOCK_BYTES: usize = 26;

/// Tablespace metadata.
#[derive(Debug, Clone, PartialEq, Eq, Structural)]
pub struct Superblock {
    /// Copy of `PAGE_MAGIC`.
    pub magic: u32,
    /// Layout version.
    pub version: u32,
    /// Copy of `PAGE_SIZE`.
    pub page_size: u32,
    /// Head of the free page list.
    pub free_list_head: Option<u32>,
    /// Root page of the B+Tree, if recorded.
    pub root_page_id: Option<u32>,
    /// LSN of the last WAL write.
    pub last_lsn: u64,
}

/// Encoding of an optional page id: flag byte then the id (zeros when absent).
pub open spec fn spec_opt_u32_bytes(o: Option<u32>) -> Seq<u8> {
    match o {
        Some(id) => seq![1u8] + spec_u32_to_le_bytes(id),
        None => seq![0u8, 0u8, 0u8, 0u8, 0u8],
    }
}

/// The 26 bytes `write_into` stores.
pub open spec fn spec_superblock_bytes(sb: Superblock) -> Seq<u8> {
    spec_u32_to_le_bytes(sb.magic) + spec_u32_to_le_bytes(sb.version) + spec_u32_to_le_bytes(
        sb.page_size,
    ) + spec_opt_u32_bytes(sb.free_list_head) + spec_opt_u32_bytes(sb.root_page_id)
        + spec_u64_to_le_bytes(sb.last_lsn)
}

/// The optional id stored at `off` (flag byte then id).
pub open spec fn spec_opt_u32_at(ud: Seq<u8>, off: int) -> Option<u32> {
    if ud[off] != 0 {
        Some(le_u32_at(ud, off + 1))
    } else {
        None
    }
}

/// What `read_from` makes of a user data area.
pub open spec fn spec_read_superblock(ud: Seq<u8>) -> Result<Superblock, SpaceError> {
    if le_u32_at(ud, 0) != PAGE_MAGIC {
        Err(SpaceError::SuperblockInvalidMagic)
    } else if le_u32_at(ud, 8) != PAGE_SIZE as u32 {
        Err(
            SpaceError::SuperblockPageSizeMismatch {
                file: le_u32_at(ud, 8),
                build: PAGE_SIZE as u32,
            },
        )
    } else {
        Ok(
            Superblock {
                magic: le_u32_at(ud, 0),
                version: le_u32_at(ud, 4),
                page_size: le_u32_at(ud, 8),
                free_list_head: spec_opt_u32_at(ud, 12),
                root_page_id: spec_opt_u32_at(ud, 17),
                last_lsn: le_u64_at(ud, 22),
            },
        )
    }
}

fn encode_opt_u32(o: Option<u32>) -> (r: Vec<u8>)
    ensures
        r@ == spec_opt_u32_bytes(o),
{
    match o {
        Some(id) => {
            let mut out = vec![1u8];
            out.append(&mut u32_to_le_bytes(id));
            out
        },
        None => {
            let out = vec![0u8; 5];
            assert(out@ =~= spec_opt_u32_bytes(o));
            out
        },
    }
}

impl Superblock {
    /// The superblock of a new tablespace.
    pub open spec fn spec_fresh() -> Superblock {
        Superblock {
            magic: PAGE_MAGIC,
            version: 1,
            page_size: PAGE_SIZE as u32,
            free_list_head: None,
            root_page_id: None,
            last_lsn: 0,
        }
    }

    /// Fresh superblock: current magic, version 1, `PAGE_SIZE`, empty free
    /// list, no root, LSN 0.
    pub fn fresh() -> (r: Self)
        ensures
            r == Superblock::spec_fresh(),
    {
        Superblock {
            magic: PAGE_MAGIC,
            version: 1,
            page_size: PAGE_SIZE as u32,
            free_list_head: None,
            root_page_id: None,
            last_lsn: 0,
        }
    }

    /// Writes the superblock into the user data of a `Superblock` page; other
    /// page types give `SuperblockTruncated` with the type byte as `got`.
    pub fn write_into(&self, page: &mut Page) -> (r: Result<(), SpaceError>)
        requires
            old(page).wf(),
        ensures
            final(page).wf(),
            final(page)@.header == old(page)@.header,
            final(page)@.footer == old(page)@.footer,
            match r {
                Ok(()) => old(page)@.header.page_type == PageType::Superblock && final(page)@.data
                    == splice(old(page)@.data, 0, spec_superblock_bytes(*self)),
                Err(e) => old(page)@.header.page_type != PageType::Superblock && final(page)@
                    == old(page)@ && e == (SpaceError::SuperblockTruncated {
                    got: old(page)@.header.page_type.spec_to_u8() as usize,
                }),
            },
    {
        if page.page_type() != PageType::Superblock {
            return Err(SpaceError::SuperblockTruncated { got: page.page_type().to_u8() as usize });
        }
        proof {
            lemma_auto_spec_u32_to_from_le_bytes();
            lemma_auto_spec_u64_to_from_le_bytes();
        }
        let mut bytes: Vec<u8> = Vec::new();
        bytes.append(&mut u32_to_le_bytes(self.magic));
        bytes.append(&mut u32_to_le_bytes(self.version));
        bytes.append(&mut u32_to_le_bytes(self.page_size));
        bytes.append(&mut encode_opt_u32(self.free_list_head));
        bytes.append(&mut encode_opt_u32(self.root_page_id));
        bytes.append(&mut u64_to_le_bytes(self.last_lsn));
        assert(bytes@ =~= spec_superblock_bytes(*self));
        let ud = page.user_data_mut();
        write_slice(ud, 0, bytes.as_slice());
        Ok(())
    }

    /// Reads the superblock from a page's user data; checks the magic and
    /// the page size.
    pub fn read_from(page: &Page) -> (r: Result<Self, SpaceError>)
        requires
            page.wf(),
        ensures
            r == spec_read_superblock(page@.data),
    {
        let ud = page.user_data();
        let magic = read_u32(ud, 0);
        if magic != PAGE_MAGIC {
            return Err(SpaceError::SuperblockInvalidMagic);
        }
        let version = read_u32(ud, 4);
        let page_size = read_u32(ud, 8);
        if page_size != PAGE_SIZE as u32 {
            return Err(
                SpaceError::SuperblockPageSizeMismatch { file: page_size, build: PAGE_SIZE as u32 },
            );
        }
        let free_list_head = if ud[12] != 0 {
            Some(read_u32(ud, 13))
        } else {
            None
        };
        let root_page_id = if ud[17] != 0 {
            Some(read_u32(ud, 18))
        } else {
            None
        };
        let last_lsn = read_u64(ud, 22);
        Ok(Superblock { magic, version, page_size, free_list_head, root_page_id, last_lsn })
    }
}

/// Reading back a written superblock gives it back, when its magic and page
/// size are the current ones.
pub proof fn lemma_superblock_round_trip(sb: Superblock, data: Seq<u8>)
    requires
        data.len() == PAGE_USER_DATA_SIZE,
        sb.magic == PAGE_MAGIC,
        sb.page_size == PAGE_SIZE,
    ensures
        spec_read_superblock(splice(data, 0, spec_superblock_bytes(sb))) == Ok::<
            Superblock,
            SpaceError,
        >(sb),
{
    lemma_auto_spec_u32_to_from_le_bytes();
    lemma_auto_spec_u64_to_from_le_bytes();
    let ud = splice(data, 0, spec_superblock_bytes(sb));
    let b = spec_superblock_bytes(sb);
    assert(ud.subrange(0, 4) =~= spec_u32_to_le_bytes(sb.magic));
    assert(ud.subrange(4, 8) =~= spec_u32_to_le_bytes(sb.version));
    assert(ud.subrange(8, 12) =~= spec_u32_to_le_bytes(sb.page_size));
    assert(ud.subrange(22, 30) =~= spec_u64_to_le_bytes(sb.last_lsn));
    assert(ud[12] == b[12]);
    assert(ud[17] == b[17]);
    if let Some(id) = sb.free_list_head {
        assert(ud.subrange(13, 17) =~= spec_u32_to_le_bytes(id));
    }
    if let Some(id) = sb.root_page_id {
        assert(ud.subrange(18, 22) =~= spec_u32_to_le_bytes(id));
    }
}

} // verus!
