//! CRC-32 (IEEE) checksums, computed by the `crc32fast` crate.
use vstd::prelude::*;

verus! {

/// The CRC-32/IEEE checksum that `crc32fast::hash` returns for a byte sequence.
pub uninterp spec fn spec_crc32(bytes: Seq<u8>) -> u32;

/// Calls `crc32fast::hash`. The contract claims only that the result is a
/// function of the bytes hashed: equal inputs give equal checksums.
#[verifier::external_body]
pub(crate) fn crc32(bytes: &[u8]) -> (r: u32)
    ensures
        r == spec_crc32(bytes@),
{
    crc32fast::hash(bytes)
}

} // verus!
