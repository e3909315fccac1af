use crate::bitmap::{bit_at, bitmap_get, bitmap_set, lemma_set_bit_at, set_bit_at};
use crate::bitmap::lemma_zero_byte;
use crate::codec::{
    copy_into, lemma_splice_other, lemma_splice_same, read_u16, read_u32, splice, u16_at, u32_at,
    write_u16, write_u32, write_u8, zero_bytes,
};
use crate::storage::page::page::{Page, PageError};
use crate::types::{PageId, SlotId, MAX_SLOTS, PAGE_SIZE};
use vstd::prelude::*;
use vstd::slice::slice_subrange;

verus! {

/// Bytes of one entry of the slot directory: an offset and a length.
pub const SLOT_SIZE: usize = 4;

/// Bytes of a page id in a page image.
pub const PAGE_ID_SIZE: usize = 4;

/// Bytes of a slot id in a page image.
pub const SLOT_ID_SIZE: usize = 1;

/// Bytes of the offset at which the free space ends.
pub const FREE_START_SIZE: usize = 2;

/// Bytes of the bitmap of live slots: one bit for each slot, rounded up.
pub const VALID_SLOT_BITMAP_SIZE: usize = 32;

/// Bytes that precede the payload: the fixed fields, the bitmap of live slots
/// and the slot directory.
pub const PAGE_HEADER_SIZE: usize = 2 * PAGE_ID_SIZE + SLOT_ID_SIZE + FREE_START_SIZE
    + VALID_SLOT_BITMAP_SIZE + MAX_SLOTS * SLOT_SIZE;

/// Bytes of a data page that hold records.
pub const PAYLOAD_SIZE: usize = PAGE_SIZE - PAGE_HEADER_SIZE;

/// Position of the bitmap of live slots in a page image.
pub const VALID_SLOTS_AT: usize = 2 * PAGE_ID_SIZE + SLOT_ID_SIZE + FREE_START_SIZE;

/// Position of the slot directory in a page image.
pub const SLOTS_AT: usize = VALID_SLOTS_AT + VALID_SLOT_BITMAP_SIZE;

/// Size of what precedes the payload in a data page's image.
pub fn get_page_header_size() -> (size: usize)
    ensures
        size == PAGE_HEADER_SIZE,
        size == 1063,
{
    PAGE_HEADER_SIZE
}

/// One entry of the slot directory: where a record lies in the payload.
/// The entry with offset 0 and length 0 stands for "no record".
#[derive(Copy, Clone, Debug, PartialEq, Eq, Structural)]
pub struct Slot {
    pub offset: u16,
    pub length: u16,
}

/// A node of a table heap: records in a payload that fills from its end,
/// named by the entries of a slot directory.
#[derive(Copy, Clone, Debug)]
pub struct DataPage {
    id: PageId,
    next_id: PageId,
    next_slot: SlotId,
    free_start: u16,
    slots: [Slot; MAX_SLOTS],
    valid_slots: [u8; VALID_SLOT_BITMAP_SIZE],
    data: [u8; PAYLOAD_SIZE],
}

/// The mathematical content of a data page.
pub struct DataPageView {
    pub id: PageId,
    /// Next page of the heap chain, 0 at the tail.
    pub next_id: PageId,
    /// Number of slots handed out so far.
    pub next_slot: SlotId,
    /// Records occupy the payload from this offset to its end.
    pub free_start: u16,
    /// Bitmap of live slots, `VALID_SLOT_BITMAP_SIZE` bytes.
    pub valid: Seq<u8>,
    /// The slot directory, `MAX_SLOTS` entries.
    pub slots: Seq<Slot>,
    /// The payload, `PAYLOAD_SIZE` bytes.
    pub data: Seq<u8>,
}

impl DataPageView {
    /// The bit of slot `slot` is set: a record was put there and not deleted.
    pub open spec fn live(self, slot: int) -> bool {
        bit_at(self.valid, slot)
    }

    /// The directory has an entry for `slot`.
    pub open spec fn present(self, slot: int) -> bool {
        0 <= slot < MAX_SLOTS && !(self.slots[slot].offset == 0 && self.slots[slot].length == 0)
    }

    /// The payload bytes that the directory entry of `slot` names.
    pub open spec fn bytes_of(self, slot: int) -> Seq<u8> {
        self.data.subrange(
            self.slots[slot].offset as int,
            self.slots[slot].offset + self.slots[slot].length,
        )
    }

    /// The record that `slot` holds: it is live and its entry is present.
    pub open spec fn record(self, slot: int) -> Option<Seq<u8>> {
        if self.live(slot) && self.present(slot) {
            Some(self.bytes_of(slot))
        } else {
            None
        }
    }

    /// The entries of two slots name payload ranges that do not overlap.
    pub open spec fn apart(self, a: int, b: int) -> bool {
        self.slots[a].offset + self.slots[a].length <= self.slots[b].offset
            || self.slots[b].offset + self.slots[b].length <= self.slots[a].offset
    }

    /// The entry of `slot` lies in the used part of the payload.
    pub open spec fn in_payload(self, slot: int) -> bool {
        self.free_start <= self.slots[slot].offset && self.slots[slot].offset
            + self.slots[slot].length <= PAYLOAD_SIZE
    }

    /// The invariant of a data page: every live slot was handed out, lies in
    /// the used part of the payload, and overlaps no other live slot.
    pub open spec fn wf(self) -> bool {
        &&& self.valid.len() == VALID_SLOT_BITMAP_SIZE
        &&& self.slots.len() == MAX_SLOTS
        &&& self.data.len() == PAYLOAD_SIZE
        &&& self.free_start <= PAYLOAD_SIZE
        &&& forall|i: int| #[trigger] self.live(i) ==> 0 <= i < self.next_slot && self.in_payload(i)
        &&& forall|i: int, j: int|
            #[trigger] self.live(i) && #[trigger] self.live(j) && i != j ==> self.apart(i, j)
    }

    /// The empty page with the given id.
    pub open spec fn empty(id: PageId) -> DataPageView {
        DataPageView {
            id,
            next_id: 0,
            next_slot: 0,
            free_start: PAYLOAD_SIZE as u16,
            valid: Seq::new(VALID_SLOT_BITMAP_SIZE as nat, |i: int| 0u8),
            slots: Seq::new(MAX_SLOTS as nat, |i: int| Slot { offset: 0, length: 0 }),
            data: Seq::new(PAYLOAD_SIZE as nat, |i: int| 0u8),
        }
    }

    /// The page after `record` was put into slot `next_slot`, just below `free_start`.
    pub open spec fn inserted(self, record: Seq<u8>) -> DataPageView {
        let offset = (self.free_start - record.len()) as u16;
        DataPageView {
            next_slot: (self.next_slot + 1) as SlotId,
            free_start: offset,
            valid: set_bit_at(self.valid, self.next_slot as int, true),
            slots: self.slots.update(
                self.next_slot as int,
                Slot { offset, length: record.len() as u16 },
            ),
            data: splice(self.data, offset as int, record),
            ..self
        }
    }

    /// The page after the bytes of `slot` were overwritten by `record`.
    pub open spec fn updated(self, slot: int, record: Seq<u8>) -> DataPageView {
        DataPageView { data: splice(self.data, self.slots[slot].offset as int, record), ..self }
    }

    /// The page after `slot` was marked as deleted.
    pub open spec fn deleted(self, slot: int) -> DataPageView {
        DataPageView { valid: set_bit_at(self.valid, slot, false), ..self }
    }

    /// The live records of the slots below `upto`, in ascending slot order.
    pub open spec fn records_below(self, upto: int) -> Seq<(SlotId, Seq<u8>)>
        decreases upto,
    {
        if upto <= 0 {
            Seq::empty()
        } else {
            let before = self.records_below(upto - 1);
            match self.record(upto - 1) {
                Some(bytes) => before.push(((upto - 1) as SlotId, bytes)),
                None => before,
            }
        }
    }

    /// The fields that a page image holds, read off by position.
    pub open spec fn from_image(bytes: Seq<u8>) -> DataPageView {
        DataPageView {
            id: u32_at(bytes, 0),
            next_id: u32_at(bytes, 4),
            next_slot: bytes[8],
            free_start: u16_at(bytes, 9),
            valid: bytes.subrange(VALID_SLOTS_AT as int, SLOTS_AT as int),
            slots: Seq::new(
                MAX_SLOTS as nat,
                |i: int|
                    Slot {
                        offset: u16_at(bytes, SLOTS_AT + 4 * i),
                        length: u16_at(bytes, SLOTS_AT + 4 * i + 2),
                    },
            ),
            data: bytes.subrange(PAGE_HEADER_SIZE as int, PAGE_SIZE as int),
        }
    }
}

impl View for DataPage {
    type V = DataPageView;

    closed spec fn view(&self) -> DataPageView {
        DataPageView {
            id: self.id,
            next_id: self.next_id,
            next_slot: self.next_slot,
            free_start: self.free_start,
            valid: self.valid_slots@,
            slots: self.slots@,
            data: self.data@,
        }
    }
}


/// Putting a record into a page keeps the invariant, leaves the records of
/// all other slots as they were, and makes the new record readable at its
/// slot, unless the record is empty and the payload was already full (its
/// directory entry then reads as "no record").
pub proof fn lemma_inserted(v: DataPageView, record: Seq<u8>)
    requires
        v.wf(),
        v.next_slot < MAX_SLOTS,
        record.len() <= v.free_start,
    ensures
        v.inserted(record).wf(),
        forall|i: int| i != v.next_slot ==> v.inserted(record).record(i) == v.record(i),
        record.len() > 0 || v.free_start > 0 ==> v.inserted(record).record(v.next_slot as int)
            == Some(record),
{
    let w = v.inserted(record);
    let ns = v.next_slot as int;
    let offset = v.free_start - record.len();
    assert forall|i: int| w.live(i) == (if i == ns {
        true
    } else {
        v.live(i)
    }) by {
        lemma_set_bit_at(v.valid, ns, true, i);
    }
    assert(!v.live(ns));
    assert forall|i: int| #[trigger] w.live(i) implies 0 <= i < w.next_slot && w.in_payload(i) by {
        if i != ns {
            assert(v.live(i));
        }
    }
    assert forall|i: int, j: int| #[trigger]
        w.live(i) && #[trigger] w.live(j) && i != j implies w.apart(i, j) by {
        if i != ns {
            assert(v.live(i));
        }
        if j != ns {
            assert(v.live(j));
        }
    }
    assert forall|i: int| i != ns implies w.record(i) == v.record(i) by {
        if v.live(i) {
            lemma_splice_other(
                v.data,
                offset,
                record,
                v.slots[i].offset as int,
                v.slots[i].offset + v.slots[i].length,
            );
        }
    }
    lemma_splice_same(v.data, offset, record);
}

/// Overwriting a record in place keeps the invariant, makes the new bytes
/// the record of that slot and leaves every other slot's record as it was.
pub proof fn lemma_updated(v: DataPageView, slot: int, record: Seq<u8>)
    requires
        v.wf(),
        v.live(slot),
        v.present(slot),
        record.len() == v.slots[slot].length,
    ensures
        v.updated(slot, record).wf(),
        v.updated(slot, record).record(slot) == Some(record),
        forall|i: int| i != slot ==> v.updated(slot, record).record(i) == v.record(i),
{
    let w = v.updated(slot, record);
    let offset = v.slots[slot].offset as int;
    assert forall|i: int| w.live(i) == v.live(i) by {}
    lemma_splice_same(v.data, offset, record);
    assert forall|i: int| i != slot implies w.record(i) == v.record(i) by {
        if v.live(i) {
            assert(v.apart(i, slot));
            lemma_splice_other(
                v.data,
                offset,
                record,
                v.slots[i].offset as int,
                v.slots[i].offset + v.slots[i].length,
            );
        }
    }
    assert forall|i: int| #[trigger] w.live(i) implies 0 <= i < w.next_slot && w.in_payload(i) by {
        assert(v.live(i));
    }
    assert forall|i: int, j: int| #[trigger]
        w.live(i) && #[trigger] w.live(j) && i != j implies w.apart(i, j) by {
        assert(v.live(i));
        assert(v.live(j));
    }
}

/// Deleting a live record keeps the invariant, leaves its slot without a
/// record and every other slot's record as it was.
pub proof fn lemma_deleted(v: DataPageView, slot: int)
    requires
        v.wf(),
        v.live(slot),
    ensures
        v.deleted(slot).wf(),
        v.deleted(slot).record(slot) is None,
        forall|i: int| i != slot ==> v.deleted(slot).record(i) == v.record(i),
{
    let w = v.deleted(slot);
    assert forall|i: int| w.live(i) == (if i == slot {
        false
    } else {
        v.live(i)
    }) by {
        lemma_set_bit_at(v.valid, slot, false, i);
    }
    assert forall|i: int| #[trigger] w.live(i) implies 0 <= i < w.next_slot && w.in_payload(i) by {
        assert(v.live(i));
    }
    assert forall|i: int, j: int| #[trigger]
        w.live(i) && #[trigger] w.live(j) && i != j implies w.apart(i, j) by {
        assert(v.live(i));
        assert(v.live(j));
    }
}

/// In a page that meets its invariant, the entry of every live slot below
/// `next_slot` lies within the payload, and it is present unless it names
/// the empty range at offset 0.
pub proof fn lemma_live_slot_in_payload(v: DataPageView, slot: int)
    requires
        v.wf(),
        0 <= slot < v.next_slot,
        v.live(slot),
    ensures
        slot < MAX_SLOTS,
        v.slots[slot].offset + v.slots[slot].length <= PAYLOAD_SIZE,
        v.slots[slot].length > 0 || v.slots[slot].offset > 0 ==> v.present(slot),
{
}

impl Page for DataPage {
    open spec fn wf(&self) -> bool {
        self@.wf()
    }

    open spec fn id_of(view: DataPageView) -> PageId {
        view.id
    }

    /// An image stands for the page whose fields it holds, if that page
    /// meets the invariant of data pages.
    open spec fn decode(bytes: Seq<u8>) -> Option<DataPageView> {
        if bytes.len() == PAGE_SIZE && DataPageView::from_image(bytes).wf() {
            Some(DataPageView::from_image(bytes))
        } else {
            None
        }
    }

    open spec fn spec_new(id: PageId) -> DataPageView {
        DataPageView::empty(id)
    }

    fn new(id: PageId) -> (page: Self) {
        let slots = no_slots();
        let valid_slots: [u8; VALID_SLOT_BITMAP_SIZE] = zero_bytes();
        let data: [u8; PAYLOAD_SIZE] = zero_bytes();
        let page = DataPage {
            id,
            next_id: 0,
            next_slot: 0,
            free_start: PAYLOAD_SIZE as u16,
            slots,
            valid_slots,
            data,
        };
        proof {
            assert(page@.valid =~= DataPageView::empty(id).valid);
            assert(page@.slots =~= DataPageView::empty(id).slots);
            assert(page@.data =~= DataPageView::empty(id).data);
            lemma_empty_wf(id);
        }
        page
    }

    /// Layout: id (4), next id (4), next slot (1), free start (2), bitmap of
    /// live slots (32), slot directory (4 per slot), payload.
    fn serialize(&self) -> (buf: [u8; PAGE_SIZE])
        ensures
            DataPageView::from_image(buf@) == self@,
    {
        let mut buf: [u8; PAGE_SIZE] = zero_bytes();
        write_u32(&mut buf, 0, self.id);
        write_u32(&mut buf, 4, self.next_id);
        write_u8(&mut buf, 8, self.next_slot);
        write_u16(&mut buf, 9, self.free_start);
        copy_into(&mut buf, VALID_SLOTS_AT, self.valid_slots.as_slice());
        let mut i: usize = 0;
        while i < MAX_SLOTS
            invariant
                i <= MAX_SLOTS,
                u32_at(buf@, 0) == self.id,
                u32_at(buf@, 4) == self.next_id,
                buf@[8] == self.next_slot,
                u16_at(buf@, 9) == self.free_start,
                buf@.subrange(VALID_SLOTS_AT as int, SLOTS_AT as int) == self.valid_slots@,
                forall|j: int|
                    0 <= j < i
                        ==> u16_at(buf@, SLOTS_AT + 4 * j) == (#[trigger] self.slots@[j]).offset
                        && u16_at(buf@, SLOTS_AT + 4 * j + 2) == self.slots@[j].length,
            decreases MAX_SLOTS - i,
        {
            let slot = self.slots[i];
            write_u16(&mut buf, SLOTS_AT + 4 * i, slot.offset);
            write_u16(&mut buf, SLOTS_AT + 4 * i + 2, slot.length);
            i += 1;
        }
        copy_into(&mut buf, PAGE_HEADER_SIZE, self.data.as_slice());
        proof {
            let img = DataPageView::from_image(buf@);
            assert(img.slots =~= self@.slots);
            assert(img.valid =~= self@.valid);
            assert(img.data =~= self@.data);
        }
        buf
    }

    fn deserialize(buf: &[u8; PAGE_SIZE]) -> (page: Option<Self>) {
        let id = read_u32(buf, 0);
        let next_id = read_u32(buf, 4);
        let next_slot = buf[8];
        let free_start = read_u16(buf, 9);
        let mut valid_slots: [u8; VALID_SLOT_BITMAP_SIZE] = zero_bytes();
        copy_into(&mut valid_slots, 0, slice_subrange(buf.as_slice(), VALID_SLOTS_AT, SLOTS_AT));
        let mut slots = no_slots();
        let mut i: usize = 0;
        while i < MAX_SLOTS
            invariant
                i <= MAX_SLOTS,
                forall|j: int|
                    0 <= j < i ==> #[trigger] slots@[j] == DataPageView::from_image(buf@).slots[j],
            decreases MAX_SLOTS - i,
        {
            let offset = read_u16(buf, SLOTS_AT + 4 * i);
            let length = read_u16(buf, SLOTS_AT + 4 * i + 2);
            slots[i] = Slot { offset, length };
            i += 1;
        }
        let mut data: [u8; PAYLOAD_SIZE] = zero_bytes();
        copy_into(&mut data, 0, slice_subrange(buf.as_slice(), PAGE_HEADER_SIZE, PAGE_SIZE));
        let page = DataPage { id, next_id, next_slot, free_start, slots, valid_slots, data };
        proof {
            let img = DataPageView::from_image(buf@);
            assert(page@.valid =~= img.valid);
            assert(page@.slots =~= img.slots);
            assert(page@.data =~= img.data);
        }
        if page.check() {
            Some(page)
        } else {
            None
        }
    }

    fn is_valid(&self) -> (ok: bool) {
        self.check()
    }

    #[inline]
    fn get_id(&self) -> (id: PageId) {
        self.id
    }

    /// The free space is what lies below `free_start`; the space of deleted
    /// records is not given back.
    #[inline]
    fn get_free_space(&self) -> (space: usize)
        ensures
            space == self@.free_start,
    {
        self.free_start as usize
    }

    /// A page is empty as long as no slot was handed out.
    #[inline]
    fn is_empty(&self) -> (empty: bool)
        ensures
            empty == (self@.next_slot == 0),
    {
        self.next_slot == 0
    }

    fn clear(&mut self) {
        *self = DataPage::new(self.id);
    }
}

/// A slot directory without entries.
fn no_slots() -> (slots: [Slot; MAX_SLOTS])
    ensures
        slots@ == Seq::new(MAX_SLOTS as nat, |i: int| (Slot { offset: 0, length: 0 })),
{
    let mut slots = [Slot { offset: 0, length: 0 };MAX_SLOTS];
    let mut i: usize = 0;
    while i < MAX_SLOTS
        invariant
            i <= MAX_SLOTS,
            forall|j: int| 0 <= j < i ==> slots@[j] == (Slot { offset: 0, length: 0 }),
        decreases MAX_SLOTS - i,
    {
        slots[i] = Slot { offset: 0, length: 0 };
        i += 1;
    }
    assert(slots@ =~= Seq::new(MAX_SLOTS as nat, |i: int| Slot { offset: 0, length: 0 }));
    slots
}

/// The empty page meets the invariant and holds no record.
pub proof fn lemma_empty_wf(id: PageId)
    ensures
        DataPageView::empty(id).wf(),
        forall|i: int| DataPageView::empty(id).record(i) is None,
{
    let v = DataPageView::empty(id);
    assert forall|i: int| !v.live(i) by {
        if 0 <= i < 8 * v.valid.len() {
            lemma_zero_byte((i % 8) as u8);
        }
    }
}

impl DataPage {
    /// Tells whether the page meets the invariant of data pages.
    fn check(&self) -> (ok: bool)
        ensures
            ok == self@.wf(),
    {
        if self.free_start as usize > PAYLOAD_SIZE {
            return false;
        }
        let mut i: usize = 0;
        while i < 8 * VALID_SLOT_BITMAP_SIZE
            invariant
                i <= 8 * VALID_SLOT_BITMAP_SIZE,
                self.free_start <= PAYLOAD_SIZE,
                forall|a: int|
                    0 <= a < i && #[trigger] self@.live(a) ==> a < self@.next_slot
                        && self@.in_payload(a),
            decreases 8 * VALID_SLOT_BITMAP_SIZE - i,
        {
            if bitmap_get(self.valid_slots.as_slice(), i) {
                if i >= self.next_slot as usize {
                    assert(self@.live(i as int));
                    return false;
                }
                let slot = self.slots[i];
                if slot.offset < self.free_start || slot.offset as usize + slot.length as usize
                    > PAYLOAD_SIZE {
                    assert(self@.live(i as int));
                    return false;
                }
            }
            i += 1;
        }
        let mut a: usize = 0;
        while a < MAX_SLOTS
            invariant
                a <= MAX_SLOTS,
                forall|i: int| #[trigger] self@.live(i) ==> 0 <= i < self@.next_slot,
                forall|i: int, j: int|
                    0 <= i < a && i < j && #[trigger] self@.live(i) && #[trigger] self@.live(j)
                        ==> self@.apart(i, j),
            decreases MAX_SLOTS - a,
        {
            if bitmap_get(self.valid_slots.as_slice(), a) {
                let first = self.slots[a];
                let mut b: usize = a + 1;
                while b < MAX_SLOTS
                    invariant
                        a < b <= MAX_SLOTS,
                        first == self.slots@[a as int],
                        self@.live(a as int),
                        forall|i: int| #[trigger] self@.live(i) ==> 0 <= i < self@.next_slot,
                        forall|j: int|
                            a < j < b && #[trigger] self@.live(j) ==> self@.apart(a as int, j),
                    decreases MAX_SLOTS - b,
                {
                    if bitmap_get(self.valid_slots.as_slice(), b) {
                        let second = self.slots[b];
                        if !(first.offset as usize + first.length as usize <= second.offset as usize
                            || second.offset as usize + second.length as usize
                            <= first.offset as usize) {
                            assert(self@.live(b as int));
                            assert(!self@.apart(a as int, b as int));
                            return false;
                        }
                    }
                    b += 1;
                }
            }
            a += 1;
        }
        proof {
            assert forall|i: int, j: int| #[trigger]
                self@.live(i) && #[trigger] self@.live(j) && i != j implies self@.apart(i, j) by {
                if i < j {
                    assert(self@.apart(i, j));
                } else {
                    assert(self@.apart(j, i));
                }
            }
        }
        true
    }

    /// The next page of the heap chain, 0 at the tail.
    #[inline]
    pub fn get_next_id(&self) -> (next: PageId)
        ensures
            next == self@.next_id,
    {
        self.next_id
    }

    /// Links the page to the next page of the heap chain.
    #[inline]
    pub fn set_next_id(&mut self, id: PageId)
        ensures
            final(self)@ == (DataPageView { next_id: id, ..old(self)@ }),
            final(self).wf() == old(self).wf(),
            forall|i: int| final(self)@.record(i) == old(self)@.record(i),
    {
        self.next_id = id;
        proof {
            let v = old(self)@;
            let w = self@;
            assert forall|i: int| w.live(i) == v.live(i) by {}
            assert forall|i: int| w.record(i) == v.record(i) by {}
            if v.wf() {
                assert forall|i: int| #[trigger] w.live(i) implies 0 <= i < w.next_slot
                    && w.in_payload(i) by {
                    assert(v.live(i));
                }
                assert forall|i: int, j: int| #[trigger]
                    w.live(i) && #[trigger] w.live(j) && i != j implies w.apart(i, j) by {
                    assert(v.live(i));
                    assert(v.live(j));
                }
            }
            if w.wf() {
                assert forall|i: int| #[trigger] v.live(i) implies 0 <= i < v.next_slot
                    && v.in_payload(i) by {
                    assert(w.live(i));
                }
                assert forall|i: int, j: int| #[trigger]
                    v.live(i) && #[trigger] v.live(j) && i != j implies v.apart(i, j) by {
                    assert(w.live(i));
                    assert(w.live(j));
                }
            }
        }
    }

    /// Puts a record into the page and returns its slot. Returns `None`, and
    /// leaves the page as it was, when all slots were handed out or the
    /// record is longer than the free space.
    pub fn insert_record(&mut self, record: &[u8]) -> (slot: Option<SlotId>)
        requires
            old(self).wf(),
        ensures
            final(self).wf(),
            match slot {
                Some(s) => {
                    &&& old(self)@.next_slot < MAX_SLOTS
                    &&& record@.len() <= old(self)@.free_start
                    &&& s == old(self)@.next_slot
                    &&& final(self)@ == old(self)@.inserted(record@)
                    &&& (record@.len() > 0 || old(self)@.free_start > 0 ==> final(self)@.record(
                        s as int,
                    ) == Some(record@))
                },
                None => {
                    &&& (old(self)@.next_slot == MAX_SLOTS || record@.len() > old(self)@.free_start)
                    &&& final(self)@ == old(self)@
                },
            },
            forall|i: int| i != old(self)@.next_slot
                ==> final(self)@.record(i) == old(self)@.record(i),
    {
        if self.next_slot as usize >= MAX_SLOTS {
            return None;
        }
        if record.len() > self.free_start as usize {
            return None;
        }
        let record_len: u16 = record.len() as u16;
        let offset: u16 = self.free_start - record_len;
        let slot: SlotId = self.next_slot;
        proof {
            lemma_inserted(self@, record@);
        }
        copy_into(&mut self.data, offset as usize, record);
        bitmap_set(&mut self.valid_slots, slot as usize, true);
        self.slots[slot as usize] = Slot { offset, length: record_len };
        self.free_start = offset;
        self.next_slot = slot + 1;
        proof {
            let w = old(self)@.inserted(record@);
            assert(self@.valid =~= w.valid);
            assert(self@.slots =~= w.slots);
            assert(self@.data =~= w.data);
        }
        Some(slot)
    }

    /// Returns the record of a slot: its bytes if the slot is live and its
    /// directory entry is present, `None` otherwise.
    pub fn get_record(&self, slot_id: SlotId) -> (record: Option<&[u8]>)
        requires
            self.wf(),
        ensures
            match record {
                Some(bytes) => self@.record(slot_id as int) == Some(bytes@),
                None => self@.record(slot_id as int) is None,
            },
    {
        if !bitmap_get(self.valid_slots.as_slice(), slot_id as usize) {
            return None;
        }
        if slot_id as usize >= MAX_SLOTS {
            return None;
        }
        let slot = self.slots[slot_id as usize];
        if slot.offset == 0 && slot.length == 0 {
            return None;
        }
        assert(self@.live(slot_id as int));
        let start: usize = slot.offset as usize;
        let end: usize = start + slot.length as usize;
        Some(slice_subrange(self.data.as_slice(), start, end))
    }

    /// Overwrites the record of a slot in place. The new record must have
    /// the length of the old one: a record never grows or shrinks in its page.
    pub fn update_record(&mut self, slot_id: SlotId, new_record: &[u8]) -> (res: Result<
        (),
        PageError,
    >)
        requires
            old(self).wf(),
        ensures
            final(self).wf(),
            match res {
                Ok(()) => {
                    &&& old(self)@.record(slot_id as int) is Some
                    &&& new_record@.len() == old(self)@.record(slot_id as int).unwrap().len()
                    &&& final(self)@ == old(self)@.updated(slot_id as int, new_record@)
                    &&& final(self)@.record(slot_id as int) == Some(new_record@)
                },
                Err(e) => {
                    &&& final(self)@ == old(self)@
                    &&& e == PageError::InvalidSlot || e == PageError::RecordSizeChanged
                    &&& e == PageError::InvalidSlot <==> old(self)@.record(slot_id as int) is None
                    &&& e == PageError::RecordSizeChanged <==> old(self)@.record(slot_id as int)
                        is Some && new_record@.len() != old(self)@.record(
                        slot_id as int,
                    ).unwrap().len()
                },
            },
            res is Err <==> (old(self)@.record(slot_id as int) is None || new_record@.len()
                != old(self)@.record(slot_id as int).unwrap().len()),
            forall|i: int| i != slot_id ==> final(self)@.record(i) == old(self)@.record(i),
    {
        if !bitmap_get(self.valid_slots.as_slice(), slot_id as usize) {
            return Err(PageError::InvalidSlot);
        }
        if slot_id as usize >= MAX_SLOTS {
            return Err(PageError::InvalidSlot);
        }
        let slot = self.slots[slot_id as usize];
        if slot.offset == 0 && slot.length == 0 {
            return Err(PageError::InvalidSlot);
        }
        assert(self@.live(slot_id as int));
        if new_record.len() == slot.length as usize {
            proof {
                lemma_updated(self@, slot_id as int, new_record@);
            }
            copy_into(&mut self.data, slot.offset as usize, new_record);
            proof {
                let w = old(self)@.updated(slot_id as int, new_record@);
                assert(self@.data =~= w.data);
            }
            Ok(())
        } else {
            Err(PageError::RecordSizeChanged)
        }
    }

    /// Marks the record of a slot as deleted. Its bytes and its directory
    /// entry stay where they are, and its space is not given back.
    pub fn delete_record(&mut self, slot_id: SlotId) -> (res: Result<(), PageError>)
        requires
            old(self).wf(),
        ensures
            final(self).wf(),
            match res {
                Ok(()) => old(self)@.live(slot_id as int) && final(self)@ == old(self)@.deleted(
                    slot_id as int,
                ) && final(self)@.record(slot_id as int) is None,
                Err(e) => e == PageError::InvalidSlot && !old(self)@.live(slot_id as int)
                    && final(self)@ == old(self)@,
            },
            forall|i: int| i != slot_id ==> final(self)@.record(i) == old(self)@.record(i),
    {
        if bitmap_get(self.valid_slots.as_slice(), slot_id as usize) {
            proof {
                lemma_deleted(self@, slot_id as int);
            }
            bitmap_set(&mut self.valid_slots, slot_id as usize, false);
            return Ok(());
        }
        Err(PageError::InvalidSlot)
    }

    /// Returns the live records of the page with their slots, in ascending
    /// slot order.
    pub fn iter_record(&self) -> (records: Vec<(SlotId, &[u8])>)
        requires
            self.wf(),
        ensures
            records@.len() == self@.records_below(MAX_SLOTS as int).len(),
            forall|k: int|
                0 <= k < records@.len() ==> (#[trigger] records@[k]).0 == self@.records_below(
                    MAX_SLOTS as int,
                )[k].0 && records@[k].1@ == self@.records_below(MAX_SLOTS as int)[k].1,
    {
        let mut records: Vec<(SlotId, &[u8])> = Vec::new();
        let mut i: usize = 0;
        while i < MAX_SLOTS
            invariant
                i <= MAX_SLOTS,
                self.wf(),
                records@.len() == self@.records_below(i as int).len(),
                forall|k: int|
                    0 <= k < records@.len() ==> (#[trigger] records@[k]).0 == self@.records_below(
                        i as int,
                    )[k].0 && records@[k].1@ == self@.records_below(i as int)[k].1,
            decreases MAX_SLOTS - i,
        {
            match self.get_record(i as SlotId) {
                Some(bytes) => {
                    records.push((i as SlotId, bytes));
                },
                None => {},
            }
            i += 1;
        }
        records
    }
}

} // verus!
