use crate::bitmap::{
    bit_at, bit_of, bitmap_get, bitmap_set, lemma_full_byte, lemma_set_bit_at, lemma_zero_byte,
    set_bit_at,
};
use crate::codec::{copy_into, read_u32, u32_at, write_u32, zero_bytes};
use crate::storage::page::page::Page;
use crate::types::{PageId, PAGE_SIZE};
use vstd::prelude::*;
use vstd::slice::slice_subrange;

verus! {

/// Bytes of a header page that precede its bitmap: id, next and offset.
pub const MAX_HEADERS: usize = 12;

/// Size in bytes of the bitmap of a header page.
pub const FREE_HEADER_SIZE: usize = PAGE_SIZE - MAX_HEADERS;

/// Number of page ids that one header page covers.
pub const HEADER_SPAN: usize = FREE_HEADER_SIZE * 8;

/// A node of the free list: a bitmap over a range of page ids, in which a
/// set bit marks an id that is in use.
#[derive(Copy, Clone, Debug)]
pub struct HeaderPage {
    id: PageId,
    next: PageId,
    offset: u32,
    free_slot: [u8; FREE_HEADER_SIZE],
}

/// The mathematical content of a header page.
pub struct HeaderPageView {
    pub id: PageId,
    /// Next header page of the free list, 0 at the tail.
    pub next: PageId,
    /// The page ids that the page covers are `offset + 1 ..= offset + HEADER_SPAN`.
    pub offset: u32,
    /// The bitmap, `FREE_HEADER_SIZE` bytes; bit `i` stands for the id `offset + i + 1`.
    pub bits: Seq<u8>,
}

impl HeaderPageView {
    /// The bitmap has its full length, and the ids that the page covers
    /// are page ids.
    pub open spec fn wf(self) -> bool {
        &&& self.bits.len() == FREE_HEADER_SIZE
        &&& self.offset + HEADER_SPAN <= u32::MAX
    }

    /// The page id lies in the range that this page covers.
    pub open spec fn covers(self, page_id: int) -> bool {
        self.offset < page_id <= self.offset + HEADER_SPAN
    }

    /// The page id is covered by this page and marked as in use.
    pub open spec fn allocated(self, page_id: int) -> bool {
        self.covers(page_id) && bit_at(self.bits, page_id - self.offset - 1)
    }

    /// Bit `index` is clear and every bit before it is set.
    pub open spec fn first_free(self, index: int) -> bool {
        &&& 0 <= index < HEADER_SPAN
        &&& !bit_at(self.bits, index)
        &&& forall|j: int| 0 <= j < index ==> bit_at(self.bits, j)
    }

    /// Every bit is set: the page has no id left to hand out.
    pub open spec fn full(self) -> bool {
        forall|j: int| 0 <= j < HEADER_SPAN ==> bit_at(self.bits, j)
    }

    /// The empty header page with the given id: it covers the ids from 1 on
    /// and none of them is in use.
    pub open spec fn empty(id: PageId) -> HeaderPageView {
        HeaderPageView {
            id,
            next: 0,
            offset: 0,
            bits: Seq::new(FREE_HEADER_SIZE as nat, |i: int| 0u8),
        }
    }

    /// The fields that a page image holds, read off by position.
    pub open spec fn from_image(bytes: Seq<u8>) -> HeaderPageView {
        HeaderPageView {
            id: u32_at(bytes, 0),
            next: u32_at(bytes, 4),
            offset: u32_at(bytes, 8),
            bits: bytes.subrange(MAX_HEADERS as int, PAGE_SIZE as int),
        }
    }
}

impl View for HeaderPage {
    type V = HeaderPageView;

    closed spec fn view(&self) -> HeaderPageView {
        HeaderPageView {
            id: self.id,
            next: self.next,
            offset: self.offset,
            bits: self.free_slot@,
        }
    }
}

/// No id of the empty header page is in use.
pub proof fn lemma_empty_header(id: PageId)
    ensures
        HeaderPageView::empty(id).wf(),
        forall|i: int| !bit_at(HeaderPageView::empty(id).bits, i),
        forall|p: int| !HeaderPageView::empty(id).allocated(p),
{
    let v = HeaderPageView::empty(id);
    assert forall|i: int| !bit_at(v.bits, i) by {
        if 0 <= i < 8 * v.bits.len() {
            lemma_zero_byte((i % 8) as u8);
        }
    }
}

impl HeaderPage {
    /// The next header page of the free list, if there is one.
    pub fn get_next(self) -> (next: Option<PageId>)
        ensures
            next == (if self@.next != 0 {
                Some(self@.next)
            } else {
                None::<PageId>
            }),
    {
        if self.next != 0 {
            Some(self.next)
        } else {
            None
        }
    }

    /// Links the page to the next header page of the free list.
    pub fn set_next(&mut self, next: PageId)
        ensures
            final(self)@ == (HeaderPageView { next, ..old(self)@ }),
    {
        self.next = next;
    }

    /// The page ids that the page covers start just above this offset.
    pub fn get_offset(&self) -> (offset: usize)
        ensures
            offset == self@.offset,
    {
        self.offset as usize
    }

    /// Makes the page cover the range of the header with the given index in
    /// the free list: header 0 covers the first `HEADER_SPAN` ids, header 1
    /// the next ones, and so on.
    pub fn set_offset(&mut self, index: usize)
        requires
            (index + 1) * HEADER_SPAN <= u32::MAX,
        ensures
            final(self)@ == (HeaderPageView {
                offset: (index * HEADER_SPAN) as u32,
                ..old(self)@
            }),
    {
        assert(HEADER_SPAN == 32672);
        self.offset = (index * HEADER_SPAN) as u32;
    }

    /// Tells whether the page covers the id and marks it as in use.
    pub fn is_allocated(&self, page_id: usize) -> (used: bool)
        requires
            self.wf(),
        ensures
            used == self@.allocated(page_id as int),
    {
        let offset: usize = self.offset as usize;
        if page_id <= offset || page_id > offset + HEADER_SPAN {
            return false;
        }
        bitmap_get(self.free_slot.as_slice(), page_id - offset - 1)
    }

    /// Hands out the smallest id of the page that is not in use and marks it
    /// as in use. Returns `None`, and changes nothing, when the page is full.
    pub fn allocate_header(&mut self) -> (page_id: Option<PageId>)
        requires
            old(self).wf(),
        ensures
            final(self).wf(),
            match page_id {
                Some(id) => {
                    let index = id - old(self)@.offset - 1;
                    &&& old(self)@.first_free(index)
                    &&& final(self)@ == (HeaderPageView {
                        bits: set_bit_at(old(self)@.bits, index, true),
                        ..old(self)@
                    })
                    &&& !old(self)@.allocated(id as int)
                    &&& forall|p: int|
                        final(self)@.allocated(p) == (p == id || old(self)@.allocated(p))
                },
                None => old(self)@.full() && final(self)@ == old(self)@,
            },
    {
        match self.get_slot() {
            Some(index) => {
                bitmap_set(&mut self.free_slot, index, true);
                let id: PageId = (self.offset as usize + index + 1) as PageId;
                proof {
                    assert forall|p: int|
                        self@.allocated(p) == (p == id || old(self)@.allocated(p)) by {
                        lemma_set_bit_at(old(self)@.bits, index as int, true, p - self@.offset - 1);
                    }
                }
                Some(id)
            },
            None => None,
        }
    }

    /// Marks an id of the page as free again. The id must be one that the
    /// page covers and that is in use.
    pub fn deallocate_header(&mut self, page_id: usize)
        requires
            old(self).wf(),
            old(self)@.allocated(page_id as int),
        ensures
            final(self).wf(),
            final(self)@ == (HeaderPageView {
                bits: set_bit_at(old(self)@.bits, page_id - old(self)@.offset - 1, false),
                ..old(self)@
            }),
            forall|p: int| final(self)@.allocated(p) == (p != page_id && old(self)@.allocated(p)),
    {
        let index: usize = page_id - self.offset as usize - 1;
        bitmap_set(&mut self.free_slot, index, false);
        proof {
            assert forall|p: int|
                self@.allocated(p) == (p != page_id && old(self)@.allocated(p)) by {
                lemma_set_bit_at(old(self)@.bits, index as int, false, p - self@.offset - 1);
            }
        }
    }

    /// Returns the index of the first clear bit, if there is one.
    pub fn get_slot(&self) -> (slot: Option<usize>)
        requires
            self.wf(),
        ensures
            match slot {
                Some(index) => self@.first_free(index as int),
                None => self@.full(),
            },
    {
        let mut b: usize = 0;
        while b < FREE_HEADER_SIZE
            invariant
                b <= FREE_HEADER_SIZE,
                self.wf(),
                forall|j: int| 0 <= j < 8 * b ==> bit_at(self@.bits, j),
            decreases FREE_HEADER_SIZE - b,
        {
            let byte: u8 = self.free_slot[b];
            if byte != 0xff {
                let mut k: usize = 0;
                while k < 8
                    invariant
                        k <= 8,
                        b < FREE_HEADER_SIZE,
                        self.wf(),
                        byte == self@.bits[b as int],
                        byte != 0xff,
                        forall|j: int| 0 <= j < 8 * b + k ==> bit_at(self@.bits, j),
                    decreases 8 - k,
                {
                    if !bitmap_get(self.free_slot.as_slice(), 8 * b + k) {
                        return Some(8 * b + k);
                    }
                    k += 1;
                }
                proof {
                    lemma_full_byte(byte);
                    assert forall|q: u8| q < 8 implies bit_of(byte, q) by {
                        assert(bit_at(self@.bits, 8 * b + q));
                    }
                }
                assert(false);
            } else {
                proof {
                    lemma_full_byte(byte);
                    assert forall|j: int| 0 <= j < 8 * (b + 1) implies bit_at(self@.bits, j) by {
                        if j >= 8 * b {
                            assert(bit_of(byte, (j % 8) as u8));
                        }
                    }
                }
            }
            b += 1;
        }
        None
    }
}

impl Page for HeaderPage {
    open spec fn wf(&self) -> bool {
        self@.wf()
    }

    open spec fn id_of(view: HeaderPageView) -> PageId {
        view.id
    }

    /// An image stands for the page whose fields it holds, if the range
    /// that the page covers ends within the page ids.
    open spec fn decode(bytes: Seq<u8>) -> Option<HeaderPageView> {
        if bytes.len() == PAGE_SIZE && HeaderPageView::from_image(bytes).wf() {
            Some(HeaderPageView::from_image(bytes))
        } else {
            None
        }
    }

    open spec fn spec_new(id: PageId) -> HeaderPageView {
        HeaderPageView::empty(id)
    }

    fn new(id: PageId) -> (page: Self) {
        let page = HeaderPage { id, next: 0, offset: 0, free_slot: zero_bytes() };
        proof {
            assert(page@.bits =~= HeaderPageView::empty(id).bits);
        }
        page
    }

    /// Layout: id (4), next (4), offset (4), bitmap.
    fn serialize(&self) -> (buf: [u8; PAGE_SIZE])
        ensures
            HeaderPageView::from_image(buf@) == self@,
    {
        let mut buf: [u8; PAGE_SIZE] = zero_bytes();
        write_u32(&mut buf, 0, self.id);
        write_u32(&mut buf, 4, self.next);
        write_u32(&mut buf, 8, self.offset);
        copy_into(&mut buf, MAX_HEADERS, self.free_slot.as_slice());
        proof {
            assert(HeaderPageView::from_image(buf@).bits =~= self@.bits);
        }
        buf
    }

    fn deserialize(buf: &[u8; PAGE_SIZE]) -> (page: Option<Self>) {
        let id = read_u32(buf, 0);
        let next = read_u32(buf, 4);
        let offset = read_u32(buf, 8);
        let mut free_slot: [u8; FREE_HEADER_SIZE] = zero_bytes();
        copy_into(&mut free_slot, 0, slice_subrange(buf.as_slice(), MAX_HEADERS, PAGE_SIZE));
        let page = HeaderPage { id, next, offset, free_slot };
        proof {
            assert(page@.bits =~= HeaderPageView::from_image(buf@).bits);
        }
        if page.is_valid() {
            Some(page)
        } else {
            None
        }
    }

    fn is_valid(&self) -> (ok: bool) {
        self.offset <= u32::MAX - HEADER_SPAN as u32
    }

    fn get_id(&self) -> (id: PageId) {
        self.id
    }

    /// The index of the first clear bit, or `usize::MAX` in a full page.
    fn get_free_space(&self) -> (space: usize)
        ensures
            if self@.full() {
                space == usize::MAX
            } else {
                self@.first_free(space as int)
            },
    {
        match self.get_slot() {
            Some(index) => index,
            None => usize::MAX,
        }
    }

    /// Tells whether the page has no id left to hand out.
    fn is_empty(&self) -> (exhausted: bool)
        ensures
            exhausted == self@.full(),
    {
        self.get_slot().is_none()
    }

    fn clear(&mut self) {
        *self = HeaderPage::new(self.id);
    }
}

} // verus!
