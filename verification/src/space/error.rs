//! Tablespace errors.
use crate::text::{io_error_text, joined, spec_decimal, with_number};
use vstd::prelude::*;

verus! {

/// The standard library's I/O error, carried through unchanged.
#[verifier::external_type_specification]
#[verifier::external_body]
pub struct ExIoError(std::io::Error);

/// Tablespace errors.
#[derive(Debug)]
pub enum SpaceError {
    /// I/O error of the file holding the tablespace.
    Io(std::io::Error),
    /// Page id beyond the tablespace.
    PageIdOutOfRange(u32),
    /// Free list pointer out of range.
    FreeListCorrupted(u32),
    /// Superblock magic mismatch (or page 0 unreadable).
    SuperblockInvalidMagic,
    /// Page size recorded in the superblock differs from `PAGE_SIZE`.
    SuperblockPageSizeMismatch {
        /// Size recorded in the file.
        file: u32,
        /// `PAGE_SIZE`.
        build: u32,
    },
    /// Superblock version newer than supported.
    SuperblockVersionUnsupported(u32),
    /// Tablespace not initialized.
    NotInitialized,
    /// Input too short to hold a superblock, or of the wrong kind.
    SuperblockTruncated {
        /// Length (or kind) found.
        got: usize,
    },
}

/// The message of a tablespace error other than `Io` (whose text comes
/// from the I/O error).
pub open spec fn spec_space_message(e: SpaceError) -> Seq<char> {
    match e {
        SpaceError::Io(_) => "space io: "@,
        SpaceError::PageIdOutOfRange(p) => "page id out of range: "@ + spec_decimal(p as nat),
        SpaceError::FreeListCorrupted(p) => "free list corrupted at page "@ + spec_decimal(p as nat),
        SpaceError::SuperblockInvalidMagic => "superblock invalid magic"@,
        SpaceError::SuperblockPageSizeMismatch { file, build } => "superblock page size mismatch: file "@
            + spec_decimal(file as nat) + ", build "@ + spec_decimal(build as nat),
        SpaceError::SuperblockVersionUnsupported(v) => "superblock version "@ + spec_decimal(v as nat)
            + " not supported"@,
        SpaceError::NotInitialized => "space not initialized"@,
        SpaceError::SuperblockTruncated { got } => "superblock truncated: "@ + spec_decimal(got as nat)
            + " bytes"@,
    }
}

impl SpaceError {
    /// The error's message; for `Io` it is `"space io: "` followed by the
    /// I/O error's own text, of which nothing is stated.
    pub fn message(&self) -> (r: String)
        ensures
            !(self is Io) ==> r@ == spec_space_message(*self),
    {
        match self {
            SpaceError::Io(e) => joined("space io: ", io_error_text(e).as_str()),
            SpaceError::PageIdOutOfRange(p) => with_number("page id out of range: ", *p as u64),
            SpaceError::FreeListCorrupted(p) => with_number("free list corrupted at page ", *p as u64),
            SpaceError::SuperblockInvalidMagic => String::from_str("superblock invalid magic"),
            SpaceError::SuperblockPageSizeMismatch { file, build } => {
                let a = with_number("superblock page size mismatch: file ", *file as u64);
                let b = with_number(", build ", *build as u64);
                a.concat(b.as_str())
            },
            SpaceError::SuperblockVersionUnsupported(v) => {
                let a = with_number("superblock version ", *v as u64);
                a.concat(" not supported")
            },
            SpaceError::NotInitialized => String::from_str("space not initialized"),
            SpaceError::SuperblockTruncated { got } => {
                let a = with_number("superblock truncated: ", *got as u64);
                a.concat(" bytes")
            },
        }
    }
}

} // verus!
