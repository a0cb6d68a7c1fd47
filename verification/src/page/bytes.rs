//! Little-endian reads and in-place writes on byte buffers.
use vstd::bytes::*;
use vstd::prelude::*;
use vstd::slice::*;

verus! {

broadcast use vstd::slice::group_slice_axioms;

/// `b` with the bytes `s` written starting at offset `off`.
pub open spec fn splice(b: Seq<u8>, off: int, s: Seq<u8>) -> Seq<u8> {
    b.subrange(0, off) + s + b.subrange(off + s.len(), b.len() as int)
}

/// The little-endian `u16` stored at `off`.
pub open spec fn le_u16_at(b: Seq<u8>, off: int) -> u16 {
    spec_u16_from_le_bytes(b.subrange(off, off + 2))
}

/// The little-endian `u32` stored at `off`.
pub open spec fn le_u32_at(b: Seq<u8>, off: int) -> u32 {
    spec_u32_from_le_bytes(b.subrange(off, off + 4))
}

/// The little-endian `u64` stored at `off`.
pub open spec fn le_u64_at(b: Seq<u8>, off: int) -> u64 {
    spec_u64_from_le_bytes(b.subrange(off, off + 8))
}

/// Copies `src` into `buf` at `offset`.
pub fn write_bytes(buf: &mut Vec<u8>, offset: usize, src: &[u8])
    requires
        offset + src@.len() <= old(buf)@.len(),
    ensures
        final(buf)@ == splice(old(buf)@, offset as int, src@),
{
    let mut i: usize = 0;
    while i < src.len()
        invariant
            i <= src@.len(),
            offset + src@.len() <= old(buf)@.len(),
            buf@.len() == old(buf)@.len(),
            buf.len() == old(buf).len(),
            buf@ =~= splice(old(buf)@, offset as int, src@.subrange(0, i as int)),
        decreases src.len() - i,
    {
        buf[offset + i] = src[i];
        i += 1;
        assert(buf@ =~= splice(old(buf)@, offset as int, src@.subrange(0, i as int)));
    }
    assert(src@.subrange(0, src@.len() as int) =~= src@);
}

/// Copies `src` into the slice `buf` at `offset`.
pub fn write_slice(buf: &mut [u8], offset: usize, src: &[u8])
    requires
        offset + src@.len() <= old(buf)@.len(),
        old(buf)@.len() <= usize::MAX,
    ensures
        final(buf)@ == splice(old(buf)@, offset as int, src@),
{
    let mut i: usize = 0;
    while i < src.len()
        invariant
            i <= src@.len(),
            offset + src@.len() <= old(buf)@.len(),
            old(buf)@.len() <= usize::MAX,
            buf@.len() == old(buf)@.len(),
            buf@ =~= splice(old(buf)@, offset as int, src@.subrange(0, i as int)),
        decreases src.len() - i,
    {
        buf[offset + i] = src[i];
        i += 1;
        assert(buf@ =~= splice(old(buf)@, offset as int, src@.subrange(0, i as int)));
    }
    assert(src@.subrange(0, src@.len() as int) =~= src@);
}

/// Writes `value` little-endian at `offset`.
pub fn write_u32(buf: &mut Vec<u8>, offset: usize, value: u32)
    requires
        offset + 4 <= old(buf)@.len(),
    ensures
        final(buf)@ == splice(old(buf)@, offset as int, spec_u32_to_le_bytes(value)),
{
    let bytes = u32_to_le_bytes(value);
    write_bytes(buf, offset, bytes.as_slice());
}

/// Writes `value` little-endian at `offset`.
pub fn write_u64(buf: &mut Vec<u8>, offset: usize, value: u64)
    requires
        offset + 8 <= old(buf)@.len(),
    ensures
        final(buf)@ == splice(old(buf)@, offset as int, spec_u64_to_le_bytes(value)),
{
    proof {
        lemma_auto_spec_u64_to_from_le_bytes();
    }
    let bytes = u64_to_le_bytes(value);
    write_bytes(buf, offset, bytes.as_slice());
}

/// Reads the little-endian `u16` at `offset`.
pub fn read_u16(buf: &[u8], offset: usize) -> (r: u16)
    requires
        offset + 2 <= buf.len(),
    ensures
        r == le_u16_at(buf@, offset as int),
{
    u16_from_le_bytes(slice_subrange(buf, offset, offset + 2))
}

/// Reads the little-endian `u32` at `offset`.
pub fn read_u32(buf: &[u8], offset: usize) -> (r: u32)
    requires
        offset + 4 <= buf.len(),
    ensures
        r == le_u32_at(buf@, offset as int),
{
    u32_from_le_bytes(slice_subrange(buf, offset, offset + 4))
}

/// Reads the little-endian `u64` at `offset`.
pub fn read_u64(buf: &[u8], offset: usize) -> (r: u64)
    requires
        offset + 8 <= buf.len(),
    ensures
        r == le_u64_at(buf@, offset as int),
{
    u64_from_le_bytes(slice_subrange(buf, offset, offset + 8))
}

} // verus!
