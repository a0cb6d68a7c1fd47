//! Encoding of a free page's `next` pointer: `[is_some: u8][next: u32 LE]`.
use super::error::SpaceError;
use crate::page::bytes::{le_u32_at, read_u32};
use vstd::bytes::*;
use vstd::prelude::*;

verus! {

/// Length of the encoded pointer.
pub const FREE_PAGE_BYTES: usize = 5;

/// The 5 bytes encoding `next`.
pub open spec fn spec_encode_free(next: Option<u32>) -> Seq<u8> {
    match next {
        Some(id) => seq![1u8] + spec_u32_to_le_bytes(id),
        None => seq![0u8, 0u8, 0u8, 0u8, 0u8],
    }
}

/// The pointer decoded from the front of `bytes` (at least 5 bytes).
pub open spec fn spec_decode_free(bytes: Seq<u8>) -> Option<u32> {
    if bytes[0] == 0 {
        None
    } else {
        Some(le_u32_at(bytes, 1))
    }
}

/// Encodes the `next` pointer of a free page.
pub fn encode_free(next: Option<u32>) -> (r: Vec<u8>)
    ensures
        r@ == spec_encode_free(next),
{
    proof {
        lemma_auto_spec_u32_to_from_le_bytes();
    }
    match next {
        Some(id) => {
            let mut out: Vec<u8> = vec![1u8];
            out.append(&mut u32_to_le_bytes(id));
            out
        },
        None => {
            let out = vec![0u8; FREE_PAGE_BYTES];
            assert(out@ =~= spec_encode_free(next));
            out
        },
    }
}

/// Decodes the `next` pointer from the front of `bytes`; fewer than 5 bytes
/// give `FreeListCorrupted(0)`.
pub fn decode_free(bytes: &[u8]) -> (r: Result<Option<u32>, SpaceError>)
    ensures
        match r {
            Ok(n) => bytes@.len() >= FREE_PAGE_BYTES && n == spec_decode_free(bytes@),
            Err(e) => bytes@.len() < FREE_PAGE_BYTES && e matches SpaceError::FreeListCorrupted(0),
        },
{
    if bytes.len() < FREE_PAGE_BYTES {
        return Err(SpaceError::FreeListCorrupted(0));
    }
    if bytes[0] == 0 {
        Ok(None)
    } else {
        Ok(Some(read_u32(bytes, 1)))
    }
}

/// Decoding an encoded pointer (followed by anything) gives the pointer back.
pub proof fn lemma_free_round_trip(next: Option<u32>, rest: Seq<u8>)
    ensures
        spec_decode_free(spec_encode_free(next) + rest) == next,
{
    lemma_auto_spec_u32_to_from_le_bytes();
    let b = spec_encode_free(next) + rest;
    assert(b[0] == spec_encode_free(next)[0]);
    if let Some(id) = next {
        assert(b.subrange(1, 5) =~= spec_u32_to_le_bytes(id));
    }
}

} // verus!
