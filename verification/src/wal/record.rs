//! Redo records.
//!
//! Layout (little-endian): `lsn: u64 | page_id: u32 | offset: u32 |
//! payload_len: u32 | payload | crc32: u32`, the CRC covering everything
//! before it.
use super::error::WalError;
use crate::crc::{crc32, spec_crc32};
use crate::page::bytes::{le_u32_at, le_u64_at, read_u32, read_u64};
use vstd::bytes::*;
use vstd::prelude::*;
use vstd::slice::*;

verus! {

broadcast use vstd::slice::group_slice_axioms;

/// Magic of a written checkpoint slot.
pub const CHECKPOINT_MAGIC: u32 = 0xFEEDC0DE;

/// Bytes before the payload.
pub const RECORD_HEADER_BYTES: usize = 20;

/// Bytes of the trailing CRC.
pub const CRC_BYTES: usize = 4;

/// One page modification: write `payload` at `offset` in page `page_id`.
#[derive(Debug, Clone, PartialEq, Eq)]
pub struct RedoRecord {
    /// Log sequence number.
    pub lsn: u64,
    /// Page modified.
    pub page_id: u32,
    /// Offset in the page's user data.
    pub offset: u32,
    /// Bytes written.
    pub payload: Vec<u8>,
}

/// The contents of a redo record.
pub struct RecordView {
    /// Log sequence number.
    pub lsn: u64,
    /// Page modified.
    pub page_id: u32,
    /// Offset in the page's user data.
    pub offset: u32,
    /// Bytes written.
    pub payload: Seq<u8>,
}

impl View for RedoRecord {
    type V = RecordView;

    open spec fn view(&self) -> RecordView {
        RecordView {
            lsn: self.lsn,
            page_id: self.page_id,
            offset: self.offset,
            payload: self.payload@,
        }
    }
}

/// The bytes a record's CRC covers.
pub open spec fn spec_record_body(r: RecordView) -> Seq<u8> {
    spec_u64_to_le_bytes(r.lsn) + spec_u32_to_le_bytes(r.page_id) + spec_u32_to_le_bytes(r.offset)
        + spec_u32_to_le_bytes(r.payload.len() as u32) + r.payload
}

/// The encoding of a record.
pub open spec fn spec_encode_record(r: RecordView) -> Seq<u8> {
    spec_record_body(r) + spec_u32_to_le_bytes(spec_crc32(spec_record_body(r)))
}

/// What `decode` makes of the bytes at the front of `b`.
pub open spec fn spec_decode_record(b: Seq<u8>, expected_lsn: Option<u64>) -> Result<
    RecordView,
    WalError,
> {
    if b.len() < RECORD_HEADER_BYTES + CRC_BYTES {
        Err(WalError::Truncated)
    } else {
        let lsn = le_u64_at(b, 0);
        if expected_lsn matches Some(e) && lsn != e {
            Err(WalError::OutOfOrder { expected: expected_lsn->0, got: lsn })
        } else {
            let body_end = RECORD_HEADER_BYTES + le_u32_at(b, 16);
            if b.len() < body_end + CRC_BYTES {
                Err(WalError::Truncated)
            } else if le_u32_at(b, body_end) != spec_crc32(b.subrange(0, body_end)) {
                Err(WalError::RecordCrcMismatch { lsn })
            } else {
                Ok(
                    RecordView {
                        lsn,
                        page_id: le_u32_at(b, 8),
                        offset: le_u32_at(b, 12),
                        payload: b.subrange(RECORD_HEADER_BYTES as int, body_end),
                    },
                )
            }
        }
    }
}

impl RedoRecord {
    /// Encodes the record, CRC last.
    pub fn encode(&self) -> (r: Vec<u8>)
        ensures
            r@ == spec_encode_record(self@),
    {
        proof {
            lemma_auto_spec_u32_to_from_le_bytes();
            lemma_auto_spec_u64_to_from_le_bytes();
        }
        let mut out: Vec<u8> = Vec::new();
        out.append(&mut u64_to_le_bytes(self.lsn));
        out.append(&mut u32_to_le_bytes(self.page_id));
        out.append(&mut u32_to_le_bytes(self.offset));
        out.append(&mut u32_to_le_bytes(self.payload.len() as u32));
        out.append(&mut slice_to_vec(self.payload.as_slice()));
        assert(out@ =~= spec_record_body(self@));
        let crc = crc32(out.as_slice());
        out.append(&mut u32_to_le_bytes(crc));
        out
    }

    /// Decodes the record at the front of `bytes` (bytes after it are
    /// ignored). Fewer bytes than the header, payload and CRC announce give
    /// `Truncated`; a LSN other than `expected_lsn` gives `OutOfOrder`; a CRC
    /// that does not match gives `RecordCrcMismatch`.
    pub fn decode(bytes: &[u8], expected_lsn: Option<u64>) -> (r: Result<Self, WalError>)
        ensures
            match r {
                Ok(rec) => spec_decode_record(bytes@, expected_lsn) == Ok::<RecordView, WalError>(
                    rec@,
                ),
                Err(e) => spec_decode_record(bytes@, expected_lsn) == Err::<RecordView, WalError>(e),
            },
    {
        if bytes.len() < RECORD_HEADER_BYTES + CRC_BYTES {
            return Err(WalError::Truncated);
        }
        let lsn = read_u64(bytes, 0);
        if let Some(expected) = expected_lsn {
            if lsn != expected {
                return Err(WalError::OutOfOrder { expected, got: lsn });
            }
        }
        let page_id = read_u32(bytes, 8);
        let offset = read_u32(bytes, 12);
        let payload_len = read_u32(bytes, 16) as usize;
        if payload_len > bytes.len() - RECORD_HEADER_BYTES - CRC_BYTES {
            return Err(WalError::Truncated);
        }
        let body_end = RECORD_HEADER_BYTES + payload_len;
        let payload = slice_to_vec(slice_subrange(bytes, RECORD_HEADER_BYTES, body_end));
        let stored_crc = read_u32(bytes, body_end);
        let computed = crc32(slice_subrange(bytes, 0, body_end));
        if stored_crc != computed {
            return Err(WalError::RecordCrcMismatch { lsn });
        }
        Ok(RedoRecord { lsn, page_id, offset, payload })
    }

    /// Length of the encoding.
    pub fn encoded_len(&self) -> (r: usize)
        requires
            self.payload@.len() <= usize::MAX - RECORD_HEADER_BYTES - CRC_BYTES,
        ensures
            r == RECORD_HEADER_BYTES + self.payload@.len() + CRC_BYTES,
    {
        RECORD_HEADER_BYTES + self.payload.len() + CRC_BYTES
    }
}

/// Decoding an encoded record, whatever follows it, gives the record back,
/// when its payload length fits the length field.
pub proof fn lemma_record_round_trip(r: RecordView, rest: Seq<u8>)
    requires
        r.payload.len() <= u32::MAX,
    ensures
        spec_decode_record(spec_encode_record(r) + rest, Some(r.lsn)) == Ok::<RecordView, WalError>(
            r,
        ),
        spec_encode_record(r).len() == RECORD_HEADER_BYTES + r.payload.len() + CRC_BYTES,
{
    lemma_auto_spec_u32_to_from_le_bytes();
    lemma_auto_spec_u64_to_from_le_bytes();
    let body = spec_record_body(r);
    let b = spec_encode_record(r) + rest;
    let end = RECORD_HEADER_BYTES + r.payload.len();
    assert(b.subrange(0, 8) =~= spec_u64_to_le_bytes(r.lsn));
    assert(b.subrange(8, 12) =~= spec_u32_to_le_bytes(r.page_id));
    assert(b.subrange(12, 16) =~= spec_u32_to_le_bytes(r.offset));
    assert(b.subrange(16, 20) =~= spec_u32_to_le_bytes(r.payload.len() as u32));
    assert(b.subrange(0, end as int) =~= body);
    assert(b.subrange(end as int, end + 4) =~= spec_u32_to_le_bytes(spec_crc32(body)));
    assert(b.subrange(20, end as int) =~= r.payload);
}

} // verus!
