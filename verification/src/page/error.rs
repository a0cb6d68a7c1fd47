//! Errors raised while reading or writing pages and rows.
use crate::text::{joined, spec_decimal, with_number};
use vstd::prelude::*;

verus! {

/// Errors raised while reading or writing pages and rows.
#[derive(Debug, Clone, PartialEq, Eq)]
pub enum PageError {
    /// The byte length of a page is not `PAGE_SIZE`.
    InvalidLength(usize),
    /// The magic or footer mark does not match.
    InvalidMagic,
    /// The stored checksum does not match the page.
    ChecksumMismatch,
    /// An unknown page type byte.
    UnknownPageType(u8),
    /// The page has no room left.
    PageFull,
    /// A slot id beyond the slot directory.
    SlotOutOfRange(usize),
    /// Bytes that do not encode what was expected.
    EncodingError(String),
}

/// The message of a page error.
pub open spec fn spec_page_message(e: PageError) -> Seq<char> {
    match e {
        PageError::InvalidLength(n) => "invalid page length: expected 16384, got "@ + spec_decimal(n as nat),
        PageError::InvalidMagic => "invalid page magic"@,
        PageError::ChecksumMismatch => "checksum mismatch"@,
        PageError::UnknownPageType(t) => "unknown page type: "@ + spec_decimal(t as nat),
        PageError::PageFull => "page full"@,
        PageError::SlotOutOfRange(i) => "slot out of range: "@ + spec_decimal(i as nat),
        PageError::EncodingError(m) => "encoding error: "@ + m@,
    }
}

impl PageError {
    /// The error's message.
    pub fn message(&self) -> (r: String)
        ensures
            r@ == spec_page_message(*self),
    {
        match self {
            PageError::InvalidLength(n) => with_number("invalid page length: expected 16384, got ", *n as u64),
            PageError::InvalidMagic => String::from_str("invalid page magic"),
            PageError::ChecksumMismatch => String::from_str("checksum mismatch"),
            PageError::UnknownPageType(t) => with_number("unknown page type: ", *t as u64),
            PageError::PageFull => String::from_str("page full"),
            PageError::SlotOutOfRange(i) => with_number("slot out of range: ", *i as u64),
            PageError::EncodingError(m) => joined("encoding error: ", m.as_str()),
        }
    }
}

} // verus!
