//! Slotted page: variable-length records inside a page's user data area.
//!
//! Layout of the user data area: a 6-byte header (`free_offset`,
//! `free_upper`, `slot_count`, each `u16` LE), the record bytes growing up
//! from offset 6, free space, and the slot directory growing down from the end
//! (4 bytes per slot: `offset` and `len`, `u16` LE; slot `k` of `n` sits at
//! `PAGE_USER_DATA_SIZE - 4 * (n - k)`). A slot `(0, 0)` is a tombstone.
use super::bytes::{le_u16_at, read_u16, splice, write_bytes};
use super::error::PageError;
use super::page::{Page, PageType, PAGE_USER_DATA_SIZE};
use vstd::bytes::*;
use vstd::prelude::*;
use vstd::slice::{slice_subrange, slice_to_vec};

verus! {

broadcast use vstd::slice::group_slice_axioms;

/// Length of the slotted page header.
pub const HEADER_BYTES: usize = 6;

/// Length of one slot directory entry.
pub const SLOT_BYTES: usize = 4;

/// One slot: where a record lies in the user data area, and its length.
#[derive(Debug, Clone, Copy, PartialEq, Eq, Structural)]
pub struct SlotEntry {
    /// Offset of the record in the user data area (header included).
    pub offset: u16,
    /// Record length; 0 marks a tombstone.
    pub len: u16,
}

/// A slotted page in memory.
#[derive(Debug, Clone, PartialEq, Eq)]
pub struct SlottedPage {
    page_id: u32,
    page_type: PageType,
    slots: Vec<SlotEntry>,
    free_offset: u16,
    free_upper: u16,
    records: Vec<u8>,
}

/// The contents of a slotted page.
pub struct SlottedView {
    /// Page id.
    pub page_id: u32,
    /// Page type.
    pub page_type: PageType,
    /// Slot directory.
    pub slots: Seq<SlotEntry>,
    /// End of the record area (user data offset).
    pub free_offset: u16,
    /// Start of the slot directory area (user data offset).
    pub free_upper: u16,
    /// Record bytes (the user data from offset 6 up to `free_offset`).
    pub records: Seq<u8>,
}

impl View for SlottedPage {
    type V = SlottedView;

    closed spec fn view(&self) -> SlottedView {
        SlottedView {
            page_id: self.page_id,
            page_type: self.page_type,
            slots: self.slots@,
            free_offset: self.free_offset,
            free_upper: self.free_upper,
            records: self.records@,
        }
    }
}

/// Consistent offsets: the header, the records, free space and the slot area in order,
/// and the slot directory fits in the area above `free_upper`.
pub open spec fn slotted_wf(v: SlottedView) -> bool {
    &&& HEADER_BYTES <= v.free_offset <= v.free_upper <= PAGE_USER_DATA_SIZE
    &&& v.records.len() == v.free_offset - HEADER_BYTES
    &&& v.slots.len() * SLOT_BYTES <= PAGE_USER_DATA_SIZE - v.free_upper
}

/// The record in slot `slot_id`, or `None` for a missing slot, a tombstone or
/// a slot that points outside the record area.
pub open spec fn spec_get(v: SlottedView, slot_id: int) -> Option<Seq<u8>> {
    if slot_id < 0 || slot_id >= v.slots.len() {
        None
    } else {
        let s = v.slots[slot_id];
        if s.len == 0 || s.offset < HEADER_BYTES || s.offset - HEADER_BYTES + s.len
            > v.records.len() {
            None
        } else {
            Some(
                v.records.subrange(
                    s.offset - HEADER_BYTES,
                    s.offset - HEADER_BYTES + s.len,
                ),
            )
        }
    }
}

/// The state after storing `record` in slot `slot_id` by appending its bytes
/// to the record area.
pub open spec fn spec_append_record(v: SlottedView, slot_id: int, record: Seq<u8>) -> SlottedView {
    let entry = SlotEntry {
        offset: (HEADER_BYTES + v.records.len()) as u16,
        len: record.len() as u16,
    };
    SlottedView {
        slots: if slot_id == v.slots.len() {
            v.slots.push(entry)
        } else {
            v.slots.update(slot_id, entry)
        },
        free_offset: (HEADER_BYTES + v.records.len() + record.len()) as u16,
        free_upper: if slot_id == v.slots.len() {
            (v.free_upper - SLOT_BYTES) as u16
        } else {
            v.free_upper
        },
        records: v.records + record,
        ..v
    }
}

/// Whether `insert` rewrites slot `slot_id` in place (same non-zero length).
pub open spec fn spec_in_place(v: SlottedView, slot_id: int, len: nat) -> bool {
    &&& 0 <= slot_id < v.slots.len()
    &&& v.slots[slot_id].len == len
    &&& len > 0
    &&& v.slots[slot_id].offset >= HEADER_BYTES
    &&& v.slots[slot_id].offset - HEADER_BYTES + len <= v.records.len()
}

/// Bytes `insert` needs from the free space.
pub open spec fn spec_needed(v: SlottedView, slot_id: int, len: nat) -> nat {
    if slot_id == v.slots.len() {
        len + SLOT_BYTES as nat
    } else {
        len
    }
}

/// The slotted header bytes.
pub open spec fn spec_slotted_header(v: SlottedView) -> Seq<u8> {
    spec_u16_to_le_bytes(v.free_offset) + spec_u16_to_le_bytes(v.free_upper)
        + spec_u16_to_le_bytes(v.slots.len() as u16)
}

/// Byte `b` (0..4) of a slot directory entry.
pub open spec fn spec_slot_byte(s: SlotEntry, b: int) -> u8 {
    if b < 2 {
        spec_u16_to_le_bytes(s.offset)[b]
    } else {
        spec_u16_to_le_bytes(s.len)[b - 2]
    }
}

/// Start of the slot directory of `v` in the user data area.
pub open spec fn spec_dir_start(v: SlottedView) -> int {
    PAGE_USER_DATA_SIZE - SLOT_BYTES * v.slots.len()
}

/// The user data image without the slot directory.
pub open spec fn spec_base_bytes(v: SlottedView) -> Seq<u8> {
    Seq::new(
        PAGE_USER_DATA_SIZE as nat,
        |i: int|
            if i < HEADER_BYTES {
                spec_slotted_header(v)[i]
            } else if i < HEADER_BYTES + v.records.len() {
                v.records[i - HEADER_BYTES]
            } else {
                0u8
            },
    )
}

/// The user data image `to_bytes` writes.
pub open spec fn spec_slotted_bytes(v: SlottedView) -> Seq<u8> {
    Seq::new(
        PAGE_USER_DATA_SIZE as nat,
        |i: int|
            if i >= spec_dir_start(v) {
                spec_slot_byte(
                    v.slots[(i - spec_dir_start(v)) / 4],
                    (i - spec_dir_start(v)) % 4,
                )
            } else {
                spec_base_bytes(v)[i]
            },
    )
}

/// Slot `k` of `count` read from a user data image.
pub open spec fn spec_read_slot(ud: Seq<u8>, count: int, k: int) -> SlotEntry {
    SlotEntry {
        offset: le_u16_at(ud, PAGE_USER_DATA_SIZE - SLOT_BYTES * (count - k)),
        len: le_u16_at(ud, PAGE_USER_DATA_SIZE - SLOT_BYTES * (count - k) + 2),
    }
}

/// What `from_page` makes of a page.
pub open spec fn spec_from_page(id: u32, t: PageType, ud: Seq<u8>) -> Option<SlottedView> {
    let fo = le_u16_at(ud, 0);
    let fu = le_u16_at(ud, 2);
    let count = le_u16_at(ud, 4) as int;
    if t != PageType::Data && t != PageType::Index {
        None
    } else if fo < HEADER_BYTES {
        None
    } else if fu < fo {
        None
    } else if fu > PAGE_USER_DATA_SIZE {
        None
    } else if (PAGE_USER_DATA_SIZE - fu) < count * SLOT_BYTES {
        None
    } else {
        Some(
            SlottedView {
                page_id: id,
                page_type: t,
                slots: Seq::new(count as nat, |k: int| spec_read_slot(ud, count, k)),
                free_offset: fo,
                free_upper: fu,
                records: ud.subrange(HEADER_BYTES as int, fo as int),
            },
        )
    }
}

impl SlottedPage {
    /// Consistent offsets (see [`slotted_wf`]).
    pub open spec fn wf(&self) -> bool {
        slotted_wf(self@)
    }

    /// Empty slotted page.
    pub fn new(page_id: u32, page_type: PageType) -> (r: Self)
        ensures
            r.wf(),
            r@ == (SlottedView {
                page_id,
                page_type,
                slots: Seq::empty(),
                free_offset: HEADER_BYTES as u16,
                free_upper: PAGE_USER_DATA_SIZE as u16,
                records: Seq::empty(),
            }),
    {
        let r = SlottedPage {
            page_id,
            page_type,
            slots: Vec::new(),
            free_offset: HEADER_BYTES as u16,
            free_upper: PAGE_USER_DATA_SIZE as u16,
            records: Vec::new(),
        };
        assert(r@.slots =~= Seq::<SlotEntry>::empty());
        assert(r@.records =~= Seq::<u8>::empty());
        r
    }

    /// Page id.
    pub fn page_id(&self) -> (r: u32)
        ensures
            r == self@.page_id,
    {
        self.page_id
    }

    /// Page type.
    pub fn page_type(&self) -> (r: PageType)
        ensures
            r == self@.page_type,
    {
        self.page_type
    }

    /// Number of slots (tombstones included).
    pub fn slot_count(&self) -> (r: usize)
        ensures
            r == self@.slots.len(),
    {
        self.slots.len()
    }

    /// Free bytes between the record area and the slot area.
    pub fn free_space(&self) -> (r: usize)
        requires
            self.wf(),
        ensures
            r == self@.free_upper - self@.free_offset,
    {
        (self.free_upper - self.free_offset) as usize
    }

    /// Stores `record` in slot `slot_id`.
    ///
    /// For an existing slot with a record of the same non-zero length, the
    /// bytes are rewritten in place; otherwise the record is appended to the
    /// record area and the slot (existing, tombstone included, or new when
    /// `slot_id == slot_count()`) points at it.
    ///
    /// Errors: record longer than `u16::MAX` ⇒ `EncodingError`; `slot_id >
    /// slot_count()` ⇒ `SlotOutOfRange`; not enough free space ⇒ `PageFull`.
    /// On error the page is unchanged.
    pub fn insert(&mut self, slot_id: usize, record: &[u8]) -> (r: Result<(), PageError>)
        requires
            old(self).wf(),
        ensures
            final(self).wf(),
            match r {
                Ok(()) => {
                    &&& record@.len() <= u16::MAX
                    &&& slot_id <= old(self)@.slots.len()
                    &&& if spec_in_place(old(self)@, slot_id as int, record@.len()) {
                        final(self)@ == (SlottedView {
                            records: splice(
                                old(self)@.records,
                                old(self)@.slots[slot_id as int].offset - HEADER_BYTES,
                                record@,
                            ),
                            ..old(self)@
                        })
                    } else {
                        &&& spec_needed(old(self)@, slot_id as int, record@.len())
                            <= old(self)@.free_upper - old(self)@.free_offset
                        &&& final(self)@ == spec_append_record(
                            old(self)@,
                            slot_id as int,
                            record@,
                        )
                    }
                },
                Err(e) => {
                    &&& final(self)@ == old(self)@
                    &&& if record@.len() > u16::MAX {
                        e is EncodingError
                    } else if slot_id > old(self)@.slots.len() {
                        e == PageError::SlotOutOfRange(slot_id)
                    } else {
                        &&& !spec_in_place(old(self)@, slot_id as int, record@.len())
                        &&& spec_needed(old(self)@, slot_id as int, record@.len())
                            > old(self)@.free_upper - old(self)@.free_offset
                        &&& e == PageError::PageFull
                    }
                },
            },
    {
        if record.len() > u16::MAX as usize {
            return Err(PageError::EncodingError("record length exceeds u16::MAX".to_string()));
        }
        if slot_id > self.slots.len() {
            return Err(PageError::SlotOutOfRange(slot_id));
        }
        if slot_id < self.slots.len() {
            let existing = self.slots[slot_id];
            let existing_len = existing.len as usize;
            if existing_len == record.len() && existing_len > 0 {
                let ud_offset = existing.offset as usize;
                if ud_offset >= HEADER_BYTES {
                    let rec_offset = ud_offset - HEADER_BYTES;
                    if rec_offset + record.len() <= self.records.len() {
                        write_bytes(&mut self.records, rec_offset, record);
                        return Ok(());
                    }
                }
            }
        }
        let needed = if slot_id == self.slots.len() {
            record.len() + SLOT_BYTES
        } else {
            record.len()
        };
        let available = (self.free_upper - self.free_offset) as usize;
        if available < needed {
            return Err(PageError::PageFull);
        }
        let rec_offset = self.records.len();
        let new_offset = HEADER_BYTES + rec_offset;
        self.records.extend_from_slice(record);
        let new_slot = SlotEntry { offset: new_offset as u16, len: record.len() as u16 };
        if slot_id == self.slots.len() {
            self.slots.push(new_slot);
            self.free_upper = self.free_upper - SLOT_BYTES as u16;
        } else {
            self.slots.set(slot_id, new_slot);
        }
        self.free_offset = (new_offset + record.len()) as u16;
        assert(self@.records =~= old(self)@.records + record@);
        assert(self@ == spec_append_record(old(self)@, slot_id as int, record@));
        Ok(())
    }

    /// The record in slot `slot_id`; `None` for a missing slot or a tombstone.
    pub fn get(&self, slot_id: usize) -> (r: Option<&[u8]>)
        ensures
            match r {
                Some(b) => spec_get(self@, slot_id as int) == Some(b@),
                None => spec_get(self@, slot_id as int) is None,
            },
    {
        if slot_id >= self.slots.len() {
            return None;
        }
        let slot = self.slots[slot_id];
        if slot.len == 0 {
            return None;
        }
        let start = slot.offset as usize;
        if start < HEADER_BYTES {
            return None;
        }
        let rec_start = start - HEADER_BYTES;
        let rec_end = rec_start + slot.len as usize;
        if rec_end > self.records.len() {
            return None;
        }
        Some(slice_subrange(self.records.as_slice(), rec_start, rec_end))
    }

    /// Marks slot `slot_id` as a tombstone.
    pub fn delete(&mut self, slot_id: usize) -> (r: Result<(), PageError>)
        ensures
            match r {
                Ok(()) => slot_id < old(self)@.slots.len() && final(self)@ == (SlottedView {
                    slots: old(self)@.slots.update(
                        slot_id as int,
                        SlotEntry { offset: 0, len: 0 },
                    ),
                    ..old(self)@
                }),
                Err(e) => slot_id >= old(self)@.slots.len() && final(self)@ == old(self)@ && e
                    == PageError::SlotOutOfRange(slot_id),
            },
    {
        if slot_id >= self.slots.len() {
            return Err(PageError::SlotOutOfRange(slot_id));
        }
        self.slots.set(slot_id, SlotEntry { offset: 0, len: 0 });
        Ok(())
    }

    /// Serializes into a user data image (the page header and footer are not touched).
    pub fn to_bytes(&self) -> (r: Vec<u8>)
        requires
            self.wf(),
            self@.slots.len() * SLOT_BYTES <= PAGE_USER_DATA_SIZE,
        ensures
            r@ == spec_slotted_bytes(self@),
    {
        let ghost v = self@;
        proof {
            lemma_auto_spec_u16_to_from_le_bytes();
        }
        let n = self.slots.len();
        let mut out = vec![0u8; PAGE_USER_DATA_SIZE];
        write_bytes(&mut out, 0, u16_to_le_bytes(self.free_offset).as_slice());
        write_bytes(&mut out, 2, u16_to_le_bytes(self.free_upper).as_slice());
        write_bytes(&mut out, 4, u16_to_le_bytes(n as u16).as_slice());
        let rec_end = HEADER_BYTES + self.records.len();
        let target_end = if (self.free_offset as usize) < PAGE_USER_DATA_SIZE {
            self.free_offset as usize
        } else {
            PAGE_USER_DATA_SIZE
        };
        if rec_end <= target_end {
            write_bytes(&mut out, HEADER_BYTES, self.records.as_slice());
        } else {
            let safe_end = target_end;
            write_bytes(
                &mut out,
                HEADER_BYTES,
                slice_subrange(self.records.as_slice(), 0, safe_end - HEADER_BYTES),
            );
        }
        assert(out@ =~= spec_base_bytes(v));
        let mut dir_pos = PAGE_USER_DATA_SIZE;
        let mut k = n;
        while k > 0
            invariant
                v == self@,
                n == v.slots.len(),
                n * SLOT_BYTES <= PAGE_USER_DATA_SIZE,
                k <= n,
                dir_pos == PAGE_USER_DATA_SIZE - SLOT_BYTES * (n - k),
                out@.len() == PAGE_USER_DATA_SIZE,
                forall|i: int|
                    0 <= i < PAGE_USER_DATA_SIZE ==> #[trigger] out@[i] == if i >= dir_pos {
                        spec_slotted_bytes(v)[i]
                    } else {
                        spec_base_bytes(v)[i]
                    },
            decreases k,
        {
            k -= 1;
            dir_pos -= SLOT_BYTES;
            let slot = self.slots[k];
            let ghost before = out@;
            write_bytes(&mut out, dir_pos, u16_to_le_bytes(slot.offset).as_slice());
            write_bytes(&mut out, dir_pos + 2, u16_to_le_bytes(slot.len).as_slice());
            assert forall|i: int| 0 <= i < PAGE_USER_DATA_SIZE implies #[trigger] out@[i] == if i
                >= dir_pos {
                spec_slotted_bytes(v)[i]
            } else {
                spec_base_bytes(v)[i]
            } by {
                if dir_pos <= i < dir_pos + 4 {
                    let ds = spec_dir_start(v);
                    assert(i - ds == 4 * k + (i - dir_pos));
                    assert((i - ds) / 4 == k);
                    assert((i - ds) % 4 == i - dir_pos);
                } else {
                    assert(out@[i] == before[i]);
                }
            }
        }
        assert(out@ =~= spec_slotted_bytes(v));
        out
    }

    /// Parses a slotted page from a `Data` or `Index` page. Fails with
    /// `EncodingError` for another page type or inconsistent header offsets.
    pub fn from_page(page: &Page) -> (r: Result<Self, PageError>)
        requires
            page.wf(),
        ensures
            match r {
                Ok(sp) => sp.wf() && spec_from_page(
                    page@.header.page_id,
                    page@.header.page_type,
                    page@.data,
                ) == Some(sp@),
                Err(e) => spec_from_page(
                    page@.header.page_id,
                    page@.header.page_type,
                    page@.data,
                ) is None && e is EncodingError,
            },
    {
        let page_type = page.page_type();
        if page_type != PageType::Data && page_type != PageType::Index {
            return Err(
                PageError::EncodingError(
                    "SlottedPage requires a Data or Index page".to_string(),
                ),
            );
        }
        let ud = page.user_data();
        let free_offset = read_u16(ud, 0);
        let free_upper = read_u16(ud, 2);
        let slot_count = read_u16(ud, 4) as usize;
        if (free_offset as usize) < HEADER_BYTES {
            return Err(PageError::EncodingError("free_offset inside the header".to_string()));
        }
        if free_upper < free_offset {
            return Err(PageError::EncodingError("free_upper < free_offset".to_string()));
        }
        if free_upper as usize > PAGE_USER_DATA_SIZE {
            return Err(PageError::EncodingError("free_upper out of bounds".to_string()));
        }
        let directory_room = PAGE_USER_DATA_SIZE - free_upper as usize;
        if directory_room < slot_count * SLOT_BYTES {
            return Err(
                PageError::EncodingError("slot directory larger than its area".to_string()),
            );
        }
        let ghost count = slot_count as int;
        let mut slots: Vec<SlotEntry> = Vec::new();
        let mut k: usize = 0;
        while k < slot_count
            invariant
                ud@ == page@.data,
                ud@.len() == PAGE_USER_DATA_SIZE,
                count == slot_count,
                slot_count * SLOT_BYTES <= PAGE_USER_DATA_SIZE,
                k <= slot_count,
                slots@ == Seq::new(k as nat, |j: int| spec_read_slot(ud@, count, j)),
            decreases slot_count - k,
        {
            let dir_pos = PAGE_USER_DATA_SIZE - SLOT_BYTES * (slot_count - k);
            let offset = read_u16(ud, dir_pos);
            let len = read_u16(ud, dir_pos + 2);
            slots.push(SlotEntry { offset, len });
            k += 1;
            assert(slots@ =~= Seq::new(k as nat, |j: int| spec_read_slot(ud@, count, j)));
        }
        let records = slice_to_vec(slice_subrange(ud, HEADER_BYTES, free_offset as usize));
        Ok(
            SlottedPage {
                page_id: page.page_id(),
                page_type,
                slots,
                free_offset,
                free_upper,
                records,
            },
        )
    }

    /// Serializes into a fresh page of the same id and type and parses it back.
    pub fn round_trip(&self) -> (r: Result<SlottedPage, PageError>)
        requires
            self.wf(),
            self@.slots.len() * SLOT_BYTES <= PAGE_USER_DATA_SIZE,
        ensures
            match r {
                Ok(sp) => spec_from_page(
                    self@.page_id,
                    self@.page_type,
                    spec_slotted_bytes(self@),
                ) == Some(sp@),
                Err(e) => spec_from_page(
                    self@.page_id,
                    self@.page_type,
                    spec_slotted_bytes(self@),
                ) is None,
            },
            (self@.page_type == PageType::Data || self@.page_type == PageType::Index) ==> r is Ok
                && r->Ok_0@ == self@,
    {
        let bytes = self.to_bytes();
        let mut page = Page::new(self.page_id, self.page_type);
        let ud = page.user_data_mut();
        let mut i: usize = 0;
        while i < bytes.len()
            invariant
                bytes@.len() == PAGE_USER_DATA_SIZE,
                ud@.len() == PAGE_USER_DATA_SIZE,
                i <= bytes@.len(),
                forall|j: int| 0 <= j < i ==> ud@[j] == bytes@[j],
            decreases bytes.len() - i,
        {
            ud[i] = bytes[i];
            i += 1;
        }
        assert(ud@ =~= bytes@);
        proof {
            if (self@.page_type == PageType::Data || self@.page_type == PageType::Index)
                && self@.slots.len() * SLOT_BYTES <= PAGE_USER_DATA_SIZE - self@.free_upper {
                lemma_slotted_round_trip(self@);
            }
        }
        SlottedPage::from_page(&page)
    }
}

/// Serializing a consistent slotted page of type `Data` or `Index` and
/// parsing it back gives the same page, provided the slot directory fits in
/// the free space (the check `from_page` makes).
pub proof fn lemma_slotted_round_trip(v: SlottedView)
    requires
        slotted_wf(v),
        v.page_type == PageType::Data || v.page_type == PageType::Index,
        v.slots.len() * SLOT_BYTES <= PAGE_USER_DATA_SIZE - v.free_upper,
    ensures
        spec_from_page(v.page_id, v.page_type, spec_slotted_bytes(v)) == Some(v),
{
    lemma_auto_spec_u16_to_from_le_bytes();
    let ud = spec_slotted_bytes(v);
    let n = v.slots.len();
    let ds = spec_dir_start(v);
    assert(ds >= v.free_offset);
    let hdr = spec_slotted_header(v);
    assert(ud.subrange(0, 2) =~= spec_u16_to_le_bytes(v.free_offset)) by {
        assert(ud.subrange(0, 2)[0] == hdr[0]);
    }
    assert(ud.subrange(2, 4) =~= spec_u16_to_le_bytes(v.free_upper));
    assert(ud.subrange(4, 6) =~= spec_u16_to_le_bytes(n as u16));
    assert(n as u16 == n);
    assert(ud.subrange(HEADER_BYTES as int, v.free_offset as int) =~= v.records);
    let count = n as int;
    assert forall|k: int| 0 <= k < n implies #[trigger] spec_read_slot(ud, count, k)
        == v.slots[k] by {
        let pos = PAGE_USER_DATA_SIZE - SLOT_BYTES * (count - k);
        assert(pos - ds == 4 * k);
        assert((pos - ds) / 4 == k && (pos - ds) % 4 == 0);
        assert((pos + 1 - ds) / 4 == k && (pos + 1 - ds) % 4 == 1);
        assert((pos + 2 - ds) / 4 == k && (pos + 2 - ds) % 4 == 2);
        assert((pos + 3 - ds) / 4 == k && (pos + 3 - ds) % 4 == 3);
        assert(ud.subrange(pos, pos + 2) =~= spec_u16_to_le_bytes(v.slots[k].offset));
        assert(ud.subrange(pos + 2, pos + 4) =~= spec_u16_to_le_bytes(v.slots[k].len));
    }
    assert(Seq::new(n, |k: int| spec_read_slot(ud, count, k)) =~= v.slots);
}

} // verus!
