//! The redo log: its bytes, the next LSN and the checkpoint LSN.
//!
//! Log layout:
//!
//! ```text
//! [header: 8 bytes]      next_lsn (u64 LE)
//! [checkpoint: 12 bytes] magic (u32 LE = CHECKPOINT_MAGIC) + max_flushed_lsn (u64 LE)
//! [record 1][record 2]...
//! ```
//!
//! The log is held as the bytes of its file; the caller reads the file and
//! writes `image` back after each change.
use super::error::WalError;
use super::record::{
    lemma_record_round_trip, spec_decode_record, spec_encode_record, RecordView, RedoRecord,
    CHECKPOINT_MAGIC, CRC_BYTES, RECORD_HEADER_BYTES,
};
use crate::page::bytes::{le_u32_at, le_u64_at, read_u32, read_u64, splice, write_bytes};
use vstd::bytes::*;
use crate::text::{spec_decimal, with_number};
use vstd::prelude::*;
use vstd::slice::*;

verus! {

broadcast use vstd::slice::group_slice_axioms;

/// Length of the header holding `next_lsn`.
pub const HEADER_BYTES: usize = 8;

/// Length of the checkpoint slot.
pub const CHECKPOINT_SLOT_BYTES: usize = 12;

/// Offset of the first record.
pub const DATA_OFFSET: usize = 20;

/// A redo log.
pub struct Wal {
    log: Vec<u8>,
    next_lsn: u64,
    checkpoint_lsn: u64,
    /// The records handed to the target of the last recovery, in the order
    /// of the calls.
    replayed: Ghost<Seq<RecordView>>,
}

/// The bytes and LSNs of a redo log.
pub struct WalView {
    /// Bytes of the log file.
    pub log: Seq<u8>,
    /// LSN the next append gets.
    pub next_lsn: u64,
    /// LSN recorded by the last checkpoint (0 if none).
    pub checkpoint_lsn: u64,
}

/// Hands `rec` to `target`; the trace `before` gets `rec` appended.
fn apply_record<F: FnMut(&RedoRecord) -> Result<(), WalError>>(
    target: &mut F,
    rec: &RedoRecord,
    Ghost(before): Ghost<Seq<RecordView>>,
) -> (r: (Result<(), WalError>, Ghost<Seq<RecordView>>))
    requires
        call_requires(*old(target), (rec,)),
    ensures
        call_ensures(*old(target), (rec,), r.0),
        *final(target) == *old(target),
        r.1@ == before.push(rec@),
{
    let res = target(rec);
    (res, Ghost(before.push(rec@)))
}

impl View for Wal {
    type V = WalView;

    closed spec fn view(&self) -> WalView {
        WalView { log: self.log@, next_lsn: self.next_lsn, checkpoint_lsn: self.checkpoint_lsn }
    }
}

/// The LSN expected after `last` when scanning.
pub open spec fn spec_expected(last: Option<u64>) -> u64 {
    match last {
        Some(l) => (l + 1) as u64,
        None => 1,
    }
}

/// Length of the record `r`'s encoding.
pub open spec fn spec_record_len(r: RecordView) -> int {
    RECORD_HEADER_BYTES + r.payload.len() + CRC_BYTES
}

/// LSN of the last record of the consecutive run starting at `pos`, the
/// previous one being `last`: scanning stops at the first record that does
/// not decode with the next LSN, and after LSN `u64::MAX`.
pub open spec fn spec_scan(log: Seq<u8>, pos: int, last: Option<u64>) -> Option<u64>
    decreases log.len() - pos,
{
    if pos < 0 || pos >= log.len() || last == Some(u64::MAX) {
        last
    } else {
        match spec_decode_record(log.subrange(pos, log.len() as int), Some(spec_expected(last))) {
            Ok(r) => if pos + spec_record_len(r) <= log.len() {
                spec_scan(log, pos + spec_record_len(r), Some(r.lsn))
            } else {
                last
            },
            Err(_) => last,
        }
    }
}

/// The records to replay from `pos` on (those after checkpoint `cp`) and the
/// outcome: the LSN of the last record read, or the first error other than
/// a cut-off record.
pub open spec fn spec_replay(log: Seq<u8>, pos: int, last: u64, cp: u64) -> (
    Seq<RecordView>,
    Result<u64, WalError>,
)
    decreases log.len() - pos,
{
    if pos < 0 || pos >= log.len() || last == u64::MAX {
        (Seq::empty(), Ok(last))
    } else {
        let expected = if last == 0 {
            1u64
        } else {
            (last + 1) as u64
        };
        match spec_decode_record(log.subrange(pos, log.len() as int), Some(expected)) {
            Ok(r) => if pos + spec_record_len(r) <= log.len() {
                let rest = spec_replay(log, pos + spec_record_len(r), r.lsn, cp);
                (if r.lsn > cp {
                    seq![r] + rest.0
                } else {
                    rest.0
                }, rest.1)
            } else {
                (Seq::empty(), Ok(last))
            },
            Err(WalError::Truncated) => (Seq::empty(), Ok(last)),
            Err(e) => (Seq::empty(), Err(e)),
        }
    }
}

/// Law of replay order: the records replayed from `pos` (after `last`, for
/// checkpoint `cp`) all come after the checkpoint and after `last`, and their
/// LSNs strictly increase, so replaying them in sequence applies them in LSN
/// order.
pub proof fn lemma_replay_ascending(log: Seq<u8>, pos: int, last: u64, cp: u64)
    ensures
        forall|k: int|
            0 <= k < spec_replay(log, pos, last, cp).0.len() ==> (#[trigger] spec_replay(log, pos, last, cp).0[k]).lsn
                > cp && spec_replay(log, pos, last, cp).0[k].lsn > last,
        forall|k: int, l: int|
            0 <= k < l < spec_replay(log, pos, last, cp).0.len() ==> (#[trigger] spec_replay(log, pos, last, cp).0[k]).lsn
                < (#[trigger] spec_replay(log, pos, last, cp).0[l]).lsn,
    decreases log.len() - pos,
{
    if pos < 0 || pos >= log.len() || last == u64::MAX {
    } else {
        let expected = if last == 0 {
            1u64
        } else {
            (last + 1) as u64
        };
        match spec_decode_record(log.subrange(pos, log.len() as int), Some(expected)) {
            Ok(r) => {
                if pos + spec_record_len(r) <= log.len() {
                    lemma_replay_ascending(log, pos + spec_record_len(r), r.lsn, cp);
                    let rest = spec_replay(log, pos + spec_record_len(r), r.lsn, cp);
                    let all = spec_replay(log, pos, last, cp).0;
                    assert(r.lsn == expected);
                    if r.lsn > cp {
                        assert(all == seq![r] + rest.0);
                        assert forall|k: int, l: int| 0 <= k < l < all.len() implies (#[trigger] all[k]).lsn
                            < (#[trigger] all[l]).lsn by {
                            if k == 0 {
                                assert(all[l] == rest.0[l - 1]);
                            } else {
                                assert(all[k] == rest.0[k - 1]);
                                assert(all[l] == rest.0[l - 1]);
                            }
                        }
                        assert forall|k: int| 0 <= k < all.len() implies (#[trigger] all[k]).lsn > cp
                            && all[k].lsn > last by {
                            if k > 0 {
                                assert(all[k] == rest.0[k - 1]);
                            }
                        }
                    }
                }
            },
            _ => {},
        }
    }
}

/// The next LSN found by scanning the records of `log`.
pub open spec fn spec_scanned_next(log: Seq<u8>) -> int {
    match spec_scan(log, DATA_OFFSET as int, None) {
        Some(l) => l + 1,
        None => 1,
    }
}

/// The checkpoint LSN recorded in the slot (0 without the magic).
pub open spec fn spec_slot_lsn(log: Seq<u8>) -> u64 {
    if le_u32_at(log, HEADER_BYTES as int) == CHECKPOINT_MAGIC {
        le_u64_at(log, 12)
    } else {
        0
    }
}

/// The checkpoint slot of a new log (all zeros).
pub open spec fn spec_empty_slot() -> Seq<u8> {
    spec_u32_to_le_bytes(0) + spec_u64_to_le_bytes(0)
}

/// A new log: next LSN 1 and an empty checkpoint slot.
pub open spec fn spec_new_log() -> Seq<u8> {
    spec_u64_to_le_bytes(1) + spec_empty_slot()
}

/// Encodings of records, one after the other.
pub open spec fn spec_encs(rs: Seq<RecordView>) -> Seq<u8>
    decreases rs.len(),
{
    if rs.len() == 0 {
        Seq::empty()
    } else {
        spec_encs(rs.drop_last()) + spec_encode_record(rs.last())
    }
}

/// The checkpoint slot holding `cp`.
pub open spec fn spec_slot(cp: u64) -> Seq<u8> {
    spec_u32_to_le_bytes(CHECKPOINT_MAGIC) + spec_u64_to_le_bytes(cp)
}

/// A log with header `next`, checkpoint slot `slot` and records `rs`.
pub open spec fn spec_log_of(next: u64, slot: Seq<u8>, rs: Seq<RecordView>) -> Seq<u8> {
    spec_u64_to_le_bytes(next) + slot + spec_encs(rs)
}

/// Records numbered 1, 2, ... whose payload lengths fit the length field.
pub open spec fn numbered(rs: Seq<RecordView>) -> bool {
    &&& rs.len() < u64::MAX
    &&& forall|i: int| 0 <= i < rs.len() ==> (#[trigger] rs[i]).lsn == i + 1
    &&& forall|i: int| 0 <= i < rs.len() ==> (#[trigger] rs[i]).payload.len() <= u32::MAX
}

proof fn lemma_encs_split(rs: Seq<RecordView>, k: int)
    requires
        0 <= k <= rs.len(),
    ensures
        spec_encs(rs) == spec_encs(rs.take(k)) + spec_encs(rs.skip(k)),
    decreases rs.len(),
{
    if k == rs.len() {
        assert(rs.take(k) =~= rs);
        assert(rs.skip(k) =~= Seq::<RecordView>::empty());
        assert(spec_encs(rs) + Seq::<u8>::empty() =~= spec_encs(rs));
    } else {
        lemma_encs_split(rs.drop_last(), k);
        assert(rs.drop_last().take(k) =~= rs.take(k));
        assert(rs.skip(k).drop_last() =~= rs.drop_last().skip(k));
        assert(rs.skip(k).last() == rs.last());
        assert(spec_encs(rs) =~= spec_encs(rs.take(k)) + spec_encs(rs.skip(k)));
    }
}

proof fn lemma_encs_front(rs: Seq<RecordView>)
    requires
        rs.len() > 0,
    ensures
        spec_encs(rs) == spec_encode_record(rs[0]) + spec_encs(rs.skip(1)),
{
    lemma_encs_split(rs, 1);
    assert(rs.take(1).drop_last() =~= Seq::<RecordView>::empty());
    assert(spec_encs(rs.take(1).drop_last()) == Seq::<u8>::empty());
    assert(rs.take(1).last() == rs[0]);
    assert(spec_encs(rs.take(1)) =~= spec_encode_record(rs[0]));
}

/// Scanning and replaying numbered records from record `k` on.
proof fn lemma_scan_from(pre: Seq<u8>, rs: Seq<RecordView>, k: int, cp: u64)
    requires
        pre.len() == DATA_OFFSET,
        numbered(rs),
        0 <= k <= rs.len(),
    ensures
        ({
            let log = pre + spec_encs(rs);
            let pos = DATA_OFFSET + spec_encs(rs.take(k)).len();
            let n = rs.len();
            let c = if cp < n {
                cp as int
            } else {
                n as int
            };
            &&& spec_scan(log, pos, if k == 0 {
                None
            } else {
                Some(k as u64)
            }) == if n == 0 {
                None::<u64>
            } else {
                Some(n as u64)
            }
            &&& spec_replay(log, pos, k as u64, cp) == (
                rs.subrange(if k >= c {
                    k
                } else {
                    c
                }, n as int),
                Ok::<u64, WalError>(n as u64),
            )
        }),
    decreases rs.len() - k,
{
    let log = pre + spec_encs(rs);
    let pos = DATA_OFFSET + spec_encs(rs.take(k)).len();
    let n = rs.len();
    lemma_encs_split(rs, k);
    assert(log.len() == pos + spec_encs(rs.skip(k)).len());
    if k == n {
        assert(rs.skip(k) =~= Seq::<RecordView>::empty());
        assert(pos == log.len());
        assert(rs.subrange(k, n as int) =~= Seq::<RecordView>::empty());
    } else {
        let r = rs[k];
        let tail = rs.skip(k);
        lemma_encs_front(tail);
        assert(tail[0] == r);
        assert(tail.skip(1) =~= rs.skip(k + 1));
        let rest = spec_encs(rs.skip(k + 1));
        lemma_record_round_trip(r, rest);
        assert(log.subrange(pos, log.len() as int) =~= spec_encode_record(r) + rest);
        assert(r.lsn == k + 1);
        assert(rs.take(k + 1) =~= rs.take(k).push(r));
        assert(rs.take(k + 1).drop_last() =~= rs.take(k));
        assert(spec_encs(rs.take(k + 1)).len() == spec_encs(rs.take(k)).len()
            + spec_record_len(r));
        lemma_scan_from(pre, rs, k + 1, cp);
        let c = if cp < n {
            cp as int
        } else {
            n as int
        };
        if k >= c {
            assert(seq![r] + rs.subrange(k + 1, n as int) =~= rs.subrange(k, n as int));
        }
    }
}

/// A log of numbered records, with the header holding the LSN after the last
/// one, reopens with that next LSN and the slot's checkpoint LSN, and replays
/// exactly the records after the checkpoint LSN.
pub proof fn lemma_reopen_and_replay(slot: Seq<u8>, rs: Seq<RecordView>, cp: u64)
    requires
        slot.len() == CHECKPOINT_SLOT_BYTES,
        numbered(rs),
        spec_slot_lsn(spec_u64_to_le_bytes((rs.len() + 1) as u64) + slot) == cp,
    ensures
        ({
            let log = spec_log_of((rs.len() + 1) as u64, slot, rs);
            let n = rs.len();
            &&& log.len() >= DATA_OFFSET
            &&& le_u64_at(log, 0) == n + 1
            &&& spec_scan(log, DATA_OFFSET as int, None) != Some(u64::MAX)
            &&& spec_scanned_next(log) == n + 1
            &&& spec_slot_lsn(log) == cp
            &&& spec_replay(log, DATA_OFFSET as int, 0, cp) == (
                rs.subrange(if cp < n {
                    cp as int
                } else {
                    n as int
                }, n as int),
                Ok::<u64, WalError>(n as u64),
            )
        }),
{
    lemma_auto_spec_u64_to_from_le_bytes();
    let pre = spec_u64_to_le_bytes((rs.len() + 1) as u64) + slot;
    let log = spec_log_of((rs.len() + 1) as u64, slot, rs);
    assert(log =~= pre + spec_encs(rs));
    assert(rs.take(0) =~= Seq::<RecordView>::empty());
    lemma_scan_from(pre, rs, 0, cp);
    assert(log.subrange(0, 8) =~= spec_u64_to_le_bytes((rs.len() + 1) as u64));
    assert(log.subrange(8, 12) =~= pre.subrange(8, 12));
    assert(log.subrange(12, 20) =~= pre.subrange(12, 20));
}

/// A new log is the empty log of numbered records.
pub proof fn lemma_new_log_shape()
    ensures
        spec_new_log() == spec_log_of(1, spec_empty_slot(), Seq::empty()),
        spec_empty_slot().len() == CHECKPOINT_SLOT_BYTES,
        spec_slot_lsn(spec_new_log()) == 0,
{
    lemma_auto_spec_u64_to_from_le_bytes();
    lemma_auto_spec_u32_to_from_le_bytes();
    assert(spec_new_log() =~= spec_log_of(1, spec_empty_slot(), Seq::empty()));
    assert(spec_new_log().subrange(8, 12) =~= spec_u32_to_le_bytes(0));
}

/// Appending to a log of numbered records gives the log with the new
/// record numbered next and the header moved on.
pub proof fn lemma_append_shape(slot: Seq<u8>, rs: Seq<RecordView>, r: RecordView)
    requires
        slot.len() == CHECKPOINT_SLOT_BYTES,
        r.lsn == rs.len() + 1,
    ensures
        splice(
            spec_log_of((rs.len() + 1) as u64, slot, rs) + spec_encode_record(r),
            0,
            spec_u64_to_le_bytes((rs.len() + 2) as u64),
        ) == spec_log_of((rs.len() + 2) as u64, slot, rs.push(r)),
{
    lemma_auto_spec_u64_to_from_le_bytes();
    assert(rs.push(r).drop_last() =~= rs);
    assert(splice(
        spec_log_of((rs.len() + 1) as u64, slot, rs) + spec_encode_record(r),
        0,
        spec_u64_to_le_bytes((rs.len() + 2) as u64),
    ) =~= spec_log_of((rs.len() + 2) as u64, slot, rs.push(r)));
}

/// A checkpoint replaces the slot and nothing else.
pub proof fn lemma_checkpoint_shape(next: u64, slot: Seq<u8>, rs: Seq<RecordView>, cp: u64)
    requires
        slot.len() == CHECKPOINT_SLOT_BYTES,
    ensures
        splice(spec_log_of(next, slot, rs), HEADER_BYTES as int, spec_slot(cp)) == spec_log_of(
            next,
            spec_slot(cp),
            rs,
        ),
        spec_slot_lsn(spec_u64_to_le_bytes(next) + spec_slot(cp)) == cp,
{
    lemma_auto_spec_u64_to_from_le_bytes();
    lemma_auto_spec_u32_to_from_le_bytes();
    assert(splice(spec_log_of(next, slot, rs), HEADER_BYTES as int, spec_slot(cp)) =~= spec_log_of(
        next,
        spec_slot(cp),
        rs,
    ));
    let pre = spec_u64_to_le_bytes(next) + spec_slot(cp);
    assert(pre.subrange(8, 12) =~= spec_u32_to_le_bytes(CHECKPOINT_MAGIC));
    assert(pre.subrange(12, 20) =~= spec_u64_to_le_bytes(cp));
}

/// The message for a header whose next LSN lags the records scanned.
fn lsn_gap_message(header: u64, scanned: u64) -> (r: String)
    ensures
        r@ == "header next_lsn "@ + spec_decimal(header as nat) + " too far behind scanned "@
            + spec_decimal(scanned as nat),
{
    with_number("header next_lsn ", header).concat(with_number(" too far behind scanned ", scanned).as_str())
}

impl WalView {
    /// The log holds at least the header and the checkpoint slot.
    pub open spec fn wf(self) -> bool {
        self.log.len() >= DATA_OFFSET
    }
}

impl Wal {
    /// The log holds at least the header and the checkpoint slot.
    pub open spec fn wf(&self) -> bool {
        self@.wf()
    }

    /// A new log: next LSN 1, no checkpoint.
    pub fn create() -> (r: Self)
        ensures
            r.wf(),
            r@ == (WalView { log: spec_new_log(), next_lsn: 1, checkpoint_lsn: 0 }),
    {
        proof {
            lemma_auto_spec_u64_to_from_le_bytes();
            lemma_auto_spec_u32_to_from_le_bytes();
        }
        let mut log = u64_to_le_bytes(1);
        log.append(&mut u32_to_le_bytes(0));
        log.append(&mut u64_to_le_bytes(0));
        assert(log@ =~= spec_new_log());
        Wal { log, next_lsn: 1, checkpoint_lsn: 0, replayed: Ghost(Seq::empty()) }
    }

    /// Opens a log from the bytes of its file. The checkpoint LSN is read
    /// from the slot; the next LSN is the larger of the header's and the one
    /// after the consecutive records found. Fewer bytes than the header and
    /// slot, or records that run more than one past the header, give
    /// `InvalidRecord`; a last record with LSN `u64::MAX` gives `LsnExhausted`.
    pub fn open(bytes: &[u8]) -> (r: Result<Self, WalError>)
        ensures
            bytes@.len() < DATA_OFFSET ==> r matches Err(WalError::InvalidRecord(_)),
            bytes@.len() >= DATA_OFFSET ==> {
                let header = le_u64_at(bytes@, 0);
                let last = spec_scan(bytes@, DATA_OFFSET as int, None);
                let scanned = spec_scanned_next(bytes@);
                if last == Some(u64::MAX) {
                    r matches Err(WalError::LsnExhausted)
                } else if scanned > header + 1 {
                    r matches Err(WalError::InvalidRecord(_))
                } else {
                    r matches Ok(w) && w.wf() && w@ == (WalView {
                        log: bytes@,
                        next_lsn: if header >= scanned {
                            header
                        } else {
                            scanned as u64
                        },
                        checkpoint_lsn: spec_slot_lsn(bytes@),
                    })
                }
            },
    {
        if bytes.len() < DATA_OFFSET {
            return Err(
                WalError::InvalidRecord("WAL file shorter than header + checkpoint slot".to_string()),
            );
        }
        let header_next_lsn = read_u64(bytes, 0);
        let mut checkpoint_lsn: u64 = 0;
        let cp_magic = read_u32(bytes, HEADER_BYTES);
        if cp_magic == CHECKPOINT_MAGIC {
            checkpoint_lsn = read_u64(bytes, 12);
        }
        let mut last_lsn: Option<u64> = None;
        let mut pos: usize = DATA_OFFSET;
        while pos < bytes.len()
            invariant
                DATA_OFFSET <= pos <= bytes@.len(),
                spec_scan(bytes@, pos as int, last_lsn) == spec_scan(
                    bytes@,
                    DATA_OFFSET as int,
                    None,
                ),
            ensures
                last_lsn == spec_scan(bytes@, DATA_OFFSET as int, None),
            decreases bytes@.len() - pos,
        {
            if last_lsn == Some(u64::MAX) {
                break ;
            }
            let expected = match last_lsn {
                Some(l) => l + 1,
                None => 1,
            };
            match RedoRecord::decode(slice_subrange(bytes, pos, bytes.len()), Some(expected)) {
                Ok(rec) => {
                    let n = rec.encoded_len();
                    pos = pos + n;
                    last_lsn = Some(rec.lsn);
                },
                Err(_) => {
                    break ;
                },
            }
        }
        let last = match last_lsn {
            Some(l) => l,
            None => 0,
        };
        if last == u64::MAX {
            return Err(WalError::LsnExhausted);
        }
        let scanned_next_lsn = last + 1;
        let next_lsn = if header_next_lsn >= scanned_next_lsn {
            header_next_lsn
        } else {
            scanned_next_lsn
        };
        if scanned_next_lsn - 1 > header_next_lsn {
            return Err(
                WalError::InvalidRecord(lsn_gap_message(header_next_lsn, scanned_next_lsn)),
            );
        }
        Ok(Wal { log: slice_to_vec(bytes), next_lsn, checkpoint_lsn, replayed: Ghost(Seq::empty()) })
    }

    /// The LSN the next append gets.
    pub fn next_lsn(&self) -> (r: u64)
        ensures
            r == self@.next_lsn,
    {
        self.next_lsn
    }

    /// The LSN recorded by the last checkpoint.
    pub fn checkpoint_lsn(&self) -> (r: u64)
        ensures
            r == self@.checkpoint_lsn,
    {
        self.checkpoint_lsn
    }

    /// The bytes of the log file.
    pub fn image(&self) -> (r: &[u8])
        ensures
            r@ == self@.log,
    {
        self.log.as_slice()
    }

    /// Appends a record with the next LSN at the end of the log and rewrites
    /// the header with the new next LSN; returns the record's LSN. With the
    /// next LSN at `u64::MAX` the log is unchanged and `LsnExhausted` returned.
    pub fn append(&mut self, page_id: u32, offset: u32, payload: &[u8]) -> (r: Result<u64, WalError>)
        requires
            old(self).wf(),
        ensures
            final(self).wf(),
            old(self)@.next_lsn == u64::MAX ==> (r matches Err(WalError::LsnExhausted)) && final(self)@
                == old(self)@,
            old(self)@.next_lsn < u64::MAX ==> r == Ok::<u64, WalError>(old(self)@.next_lsn)
                && final(self)@ == (WalView {
                log: splice(
                    old(self)@.log + spec_encode_record(
                        RecordView { lsn: old(self)@.next_lsn, page_id, offset, payload: payload@ },
                    ),
                    0,
                    spec_u64_to_le_bytes((old(self)@.next_lsn + 1) as u64),
                ),
                next_lsn: (old(self)@.next_lsn + 1) as u64,
                checkpoint_lsn: old(self)@.checkpoint_lsn,
            }),
    {
        let lsn = self.next_lsn;
        if lsn == u64::MAX {
            return Err(WalError::LsnExhausted);
        }
        let record = RedoRecord { lsn, page_id, offset, payload: slice_to_vec(payload) };
        let mut bytes = record.encode();
        self.log.append(&mut bytes);
        self.next_lsn = lsn + 1;
        proof {
            lemma_auto_spec_u64_to_from_le_bytes();
        }
        let header = u64_to_le_bytes(self.next_lsn);
        write_bytes(&mut self.log, 0, header.as_slice());
        Ok(lsn)
    }

    /// Records `max_flushed_lsn` in the checkpoint slot.
    pub fn checkpoint(&mut self, max_flushed_lsn: u64) -> (r: Result<(), WalError>)
        requires
            old(self).wf(),
        ensures
            final(self).wf(),
            r is Ok,
            final(self)@ == (WalView {
                log: splice(
                    old(self)@.log,
                    HEADER_BYTES as int,
                    spec_u32_to_le_bytes(CHECKPOINT_MAGIC) + spec_u64_to_le_bytes(max_flushed_lsn),
                ),
                next_lsn: old(self)@.next_lsn,
                checkpoint_lsn: max_flushed_lsn,
            }),
    {
        proof {
            lemma_auto_spec_u32_to_from_le_bytes();
            lemma_auto_spec_u64_to_from_le_bytes();
        }
        let mut slot = u32_to_le_bytes(CHECKPOINT_MAGIC);
        slot.append(&mut u64_to_le_bytes(max_flushed_lsn));
        write_bytes(&mut self.log, HEADER_BYTES, slot.as_slice());
        self.checkpoint_lsn = max_flushed_lsn;
        Ok(())
    }

    /// The records a replay applies (those after the checkpoint LSN, in log
    /// order) and its outcome: the LSN of the last record read, or the first
    /// error other than a cut-off record (`RecordCrcMismatch`, `OutOfOrder`).
    pub fn replay_plan(&self) -> (r: (Vec<RedoRecord>, Result<u64, WalError>))
        requires
            self.wf(),
        ensures
            r.0@.map_values(|x: RedoRecord| x@) == spec_replay(
                self@.log,
                DATA_OFFSET as int,
                0,
                self@.checkpoint_lsn,
            ).0,
            r.1 == spec_replay(self@.log, DATA_OFFSET as int, 0, self@.checkpoint_lsn).1,
    {
        let ghost log = self@.log;
        let ghost cp = self.checkpoint_lsn;
        let ghost target = spec_replay(log, DATA_OFFSET as int, 0, cp);
        let bytes = self.log.as_slice();
        let mut out: Vec<RedoRecord> = Vec::new();
        let mut last_lsn: u64 = 0;
        let mut pos: usize = DATA_OFFSET;
        while pos < bytes.len()
            invariant
                bytes@ == log,
                log == self@.log,
                cp == self.checkpoint_lsn,
                target == spec_replay(log, DATA_OFFSET as int, 0, cp),
                DATA_OFFSET <= pos <= log.len(),
                out@.map_values(|x: RedoRecord| x@) + spec_replay(log, pos as int, last_lsn, cp).0
                    == target.0,
                spec_replay(log, pos as int, last_lsn, cp).1 == target.1,
            ensures
                out@.map_values(|x: RedoRecord| x@) + spec_replay(log, pos as int, last_lsn, cp).0
                    == target.0,
                spec_replay(log, pos as int, last_lsn, cp).1 == target.1,
                spec_replay(log, pos as int, last_lsn, cp).0 == Seq::<RecordView>::empty(),
                spec_replay(log, pos as int, last_lsn, cp).1 == Ok::<u64, WalError>(last_lsn),
            decreases log.len() - pos,
        {
            if last_lsn == u64::MAX {
                break ;
            }
            let expected = if last_lsn == 0 {
                1
            } else {
                last_lsn + 1
            };
            match RedoRecord::decode(slice_subrange(bytes, pos, bytes.len()), Some(expected)) {
                Ok(rec) => {
                    let ghost prev = out@.map_values(|x: RedoRecord| x@);
                    let ghost rv = rec@;
                    pos = pos + rec.encoded_len();
                    last_lsn = rec.lsn;
                    if rec.lsn > self.checkpoint_lsn {
                        out.push(rec);
                        assert(out@.map_values(|x: RedoRecord| x@) =~= prev.push(rv));
                        assert(prev.push(rv) + spec_replay(log, pos as int, last_lsn, cp).0 =~= prev
                            + (seq![rv] + spec_replay(log, pos as int, last_lsn, cp).0));
                    }
                },
                Err(WalError::Truncated) => {
                    break ;
                },
                Err(e) => {
                    assert(spec_replay(log, pos as int, last_lsn, cp).0 == Seq::<RecordView>::empty());
                    assert(out@.map_values(|x: RedoRecord| x@) =~= target.0);
                    return (out, Err(e));
                },
            }
        }
        assert(out@.map_values(|x: RedoRecord| x@) =~= target.0);
        (out, Ok(last_lsn))
    }

    /// The records handed to the target of the last recovery, in the order
    /// of the calls (none before the first recovery).
    pub closed spec fn replayed(&self) -> Seq<RecordView> {
        self.replayed@
    }

    /// Replays the records after the checkpoint LSN into `target`, in log
    /// order, and returns the LSN of the last record read. A cut-off record
    /// at the end ends the replay; a corrupt or out-of-order record, or an
    /// error from `target`, stops it with that error.
    pub fn recover<F: FnMut(&RedoRecord) -> Result<(), WalError>>(&mut self, target: F) -> (r:
        Result<u64, WalError>)
        requires
            old(self).wf(),
            forall|x: &RedoRecord| #[trigger] call_requires(target, (x,)),
        ensures
            final(self)@ == old(self)@,
            final(self).replayed().len() <= spec_replay(
                old(self)@.log,
                DATA_OFFSET as int,
                0,
                old(self)@.checkpoint_lsn,
            ).0.len(),
            forall|k: int|
                0 <= k < final(self).replayed().len() ==> #[trigger] final(self).replayed()[k]
                    == spec_replay(old(self)@.log, DATA_OFFSET as int, 0, old(self)@.checkpoint_lsn).0[k],
            r is Ok ==> final(self).replayed() == spec_replay(
                old(self)@.log,
                DATA_OFFSET as int,
                0,
                old(self)@.checkpoint_lsn,
            ).0,
            final(self).replayed().len() < spec_replay(
                old(self)@.log,
                DATA_OFFSET as int,
                0,
                old(self)@.checkpoint_lsn,
            ).0.len() ==> r is Err,
            forall|k: int|
                0 <= k < final(self).replayed().len() ==> (#[trigger] final(self).replayed()[k]).lsn
                    > old(self)@.checkpoint_lsn,
            forall|k: int, l: int|
                0 <= k < l < final(self).replayed().len() ==> (#[trigger] final(self).replayed()[k]).lsn
                    < (#[trigger] final(self).replayed()[l]).lsn,
            r matches Ok(n) ==> spec_replay(
                old(self)@.log,
                DATA_OFFSET as int,
                0,
                old(self)@.checkpoint_lsn,
            ).1 == Ok::<u64, WalError>(n),
            spec_replay(old(self)@.log, DATA_OFFSET as int, 0, old(self)@.checkpoint_lsn).1 is Err
                ==> r is Err,
            (forall|x: &RedoRecord, res: Result<(), WalError>|
                call_ensures(target, (x,), res) ==> res is Ok) ==> r == spec_replay(
                old(self)@.log,
                DATA_OFFSET as int,
                0,
                old(self)@.checkpoint_lsn,
            ).1,
    {
        let (records, outcome) = self.replay_plan();
        let ghost recs = records@.map_values(|x: RedoRecord| x@);
        proof {
            lemma_replay_ascending(self@.log, DATA_OFFSET as int, 0, self@.checkpoint_lsn);
        }
        let mut apply = target;
        let mut trace: Ghost<Seq<RecordView>> = Ghost(Seq::empty());
        let mut i: usize = 0;
        assert(trace@ =~= recs.take(0));
        while i < records.len()
            invariant
                i <= records@.len(),
                apply == target,
                forall|x: &RedoRecord| #[trigger] call_requires(target, (x,)),
                recs == records@.map_values(|x: RedoRecord| x@),
                recs == spec_replay(old(self)@.log, DATA_OFFSET as int, 0, old(self)@.checkpoint_lsn).0,
                self@ == old(self)@,
                trace@ == recs.take(i as int),
            decreases records@.len() - i,
        {
            let (res, t) = apply_record(&mut apply, &records[i], trace);
            trace = t;
            assert(trace@ =~= recs.take(i + 1));
            match res {
                Ok(()) => {},
                Err(e) => {
                    assert(call_ensures(target, (&records[i as int],), Err::<(), WalError>(e)));
                    self.replayed = trace;
                    proof {
                        lemma_replay_ascending(old(self)@.log, DATA_OFFSET as int, 0, old(self)@.checkpoint_lsn);
                        assert forall|k: int| 0 <= k < trace@.len() implies #[trigger] trace@[k] == recs[k] by {}
                    }
                    return Err(e);
                },
            }
            i = i + 1;
        }
        assert(recs.take(i as int) =~= recs);
        self.replayed = trace;
        outcome
    }
}

} // verus!
