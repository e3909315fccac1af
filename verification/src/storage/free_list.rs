use crate::bitmap::bit_at;
use crate::storage::disk_manager::DiskManager;
use crate::storage::page::header_page::{
    lemma_empty_header, HEADER_SPAN, HeaderPage, HeaderPageView,
};
use crate::storage::page::page::Page;
use crate::types::PageId;
use std::collections::HashMap;
use vstd::prelude::*;

verus! {

/// Greatest number of header pages of a free list: the last one ends within
/// the page ids.
pub const MAX_HEADER_PAGES: usize = 131457;

/// The page ids of header page `k` lie just above this number: header page 1
/// covers the first `HEADER_SPAN` ids, header page 2 the next ones, and so on.
pub open spec fn span_start(k: int) -> int {
    (k - 1) * 32672
}

/// The header page that covers the page id.
pub open spec fn header_of(page_id: int) -> int {
    (page_id - 1) / 32672 + 1
}

/// A header page can be appended to a chain of `head` header pages if the
/// new page, number `head + 1`, still ends within the page ids.
pub open spec fn can_grow(head: PageId) -> bool {
    head < MAX_HEADER_PAGES
}

/// What a well-formed chain of `head` header pages looks like in a store:
/// page `k` links to page `k - 1` and covers the ids of its turn.
pub open spec fn chain_on(pages: Map<PageId, HeaderPageView>, head: PageId) -> bool {
    &&& head <= MAX_HEADER_PAGES
    &&& forall|k: PageId|
        1 <= k <= head ==> {
            &&& #[trigger] pages.contains_key(k)
            &&& pages[k].wf()
            &&& pages[k].id == k
            &&& pages[k].next == k - 1
            &&& pages[k].offset == span_start(k as int)
        }
}

/// A header page in memory.
pub struct HeaderFrame {
    pub header: HeaderPage,
    /// The page was changed since it was last written.
    pub is_dirty: bool,
}

/// Why an id could not be given back to the free list.
#[derive(Copy, Clone, Debug, PartialEq, Eq, Structural)]
pub enum FreeListError {
    /// The free list has no header page.
    Empty,
    /// No header page covers the id.
    NotCovered,
    /// The id is not in use.
    DoubleFree,
}

/// Keeps track of the page ids in use, in a chain of header pages on the
/// header disk, the newest page at the head.
pub struct FreeList<D: DiskManager<HeaderPage>> {
    disk: D,
    head: PageId,
    cache: HashMap<PageId, HeaderFrame>,
}

impl<D: DiskManager<HeaderPage>> FreeList<D> {
    /// The id of the newest header page, which is also their number; 0 if
    /// there is none.
    pub closed spec fn head(&self) -> PageId {
        self.head
    }

    /// The header pages as the header disk holds them.
    pub closed spec fn disk_pages(&self) -> Map<PageId, HeaderPageView> {
        self.disk.pages()
    }

    /// Header page `k` is held in memory.
    pub closed spec fn cached(&self, k: PageId) -> bool {
        self.cache@.contains_key(k)
    }

    /// Header page `k` is held in memory and differs from what the disk holds.
    pub closed spec fn dirty(&self, k: PageId) -> bool {
        self.cache@.contains_key(k) && self.cache@[k].is_dirty
    }

    /// Header page `k` exists, in memory or on disk.
    pub closed spec fn has_header(&self, k: PageId) -> bool {
        self.cache@.contains_key(k) || self.disk.pages().contains_key(k)
    }

    /// Header page `k` as it is now: the copy in memory if there is one, the
    /// one on disk otherwise.
    pub closed spec fn header(&self, k: PageId) -> HeaderPageView {
        if self.cache@.contains_key(k) {
            self.cache@[k].header@
        } else {
            self.disk.pages()[k]
        }
    }

    /// Header page `k` is there and is the `k`-th page of the chain.
    pub open spec fn chained(&self, k: PageId) -> bool {
        &&& self.has_header(k)
        &&& self.header(k).wf()
        &&& self.header(k).id == k
        &&& self.header(k).next == k - 1
        &&& self.header(k).offset == span_start(k as int)
    }

    /// Only pages of the chain are held in memory, and one that is not dirty
    /// is what the disk holds.
    pub closed spec fn cache_ok(&self) -> bool {
        forall|k: PageId| #[trigger]
            self.cache@.contains_key(k) ==> {
                &&& 1 <= k <= self.head
                &&& self.cache@[k].header.wf()
                &&& !self.cache@[k].is_dirty ==> self.disk.pages().contains_key(k)
                    && self.disk.pages()[k] == self.cache@[k].header@
            }
    }

    /// The invariant of the free list: its header pages form the chain
    /// `head, head - 1, .., 1`.
    pub open spec fn wf(&self) -> bool {
        &&& self.head() <= MAX_HEADER_PAGES
        &&& self.cache_ok()
        &&& forall|k: PageId| 1 <= k <= self.head() ==> #[trigger] self.chained(k)
    }

    /// The page id is marked as in use.
    pub open spec fn allocated(&self, page_id: int) -> bool {
        &&& 1 <= page_id <= span_start(self.head() + 1)
        &&& self.header(header_of(page_id) as PageId).allocated(page_id)
    }

    /// The two free lists have the same header pages, in memory and on disk.
    pub open spec fn same_books(&self, other: &Self) -> bool {
        &&& self.head() == other.head()
        &&& self.disk_pages() == other.disk_pages()
        &&& forall|k: PageId| #[trigger] self.header(k) == other.header(k)
        &&& forall|k: PageId| #[trigger] self.has_header(k) == other.has_header(k)
        &&& forall|k: PageId| #[trigger] self.dirty(k) == other.dirty(k)
    }

    /// The two free lists mark the same ids as in use.
    pub open spec fn same_marks(&self, other: &Self) -> bool {
        self.head() == other.head() && forall|p: int| self.allocated(p) == other.allocated(p)
    }

    /// Free lists with the same header pages mark the same ids as in use.
    pub proof fn lemma_same_books(&self, other: &Self)
        requires
            self.same_books(other),
        ensures
            self.same_marks(other),
    {
        assert forall|p: int| self.allocated(p) == other.allocated(p) by {
            if 1 <= p <= span_start(self.head() + 1) {
                let k = header_of(p) as PageId;
                assert(self.header(k) == other.header(k));
            }
        }
    }

    /// Every header page is on disk as it is in memory.
    pub open spec fn persisted(&self) -> bool {
        forall|k: PageId|
            1 <= k <= self.head() ==> #[trigger] self.disk_pages().contains_key(k)
                && self.disk_pages()[k] == self.header(k)
    }

    /// Makes a free list over the chain of `head_page_id` header pages that
    /// the disk holds; 0 for a disk without header pages.
    pub fn new(disk: D, head_page_id: PageId) -> (list: Self)
        requires
            chain_on(disk.pages(), head_page_id),
        ensures
            list.wf(),
            list.head() == head_page_id,
            list.disk_pages() == disk.pages(),
            list.persisted(),
            forall|k: PageId| 1 <= k <= head_page_id ==> list.header(k) == disk.pages()[k],
    {
        let list = FreeList { disk, head: head_page_id, cache: HashMap::new() };
        assert forall|k: PageId| 1 <= k <= list.head() implies #[trigger] list.chained(k) by {
            assert(list.disk.pages().contains_key(k));
        }
        list
    }

    /// The id of the newest header page, 0 if there is none.
    pub fn get_head(&self) -> (head: PageId)
        ensures
            head == self.head(),
    {
        self.head
    }

    /// The header disk.
    pub fn disk(&self) -> (disk: &D)
        ensures
            disk.pages() == self.disk_pages(),
    {
        &self.disk
    }

    /// Gives the header disk back; what was not flushed is lost.
    pub fn into_disk(self) -> (disk: D)
        ensures
            disk.pages() == self.disk_pages(),
    {
        self.disk
    }

    /// Brings header page `page_id` into memory, from disk if need be, and
    /// returns a copy of it.
    fn load_header(&mut self, page_id: PageId) -> (header: HeaderPage)
        requires
            old(self).wf(),
            1 <= page_id <= old(self).head(),
        ensures
            final(self).wf(),
            final(self).same_books(old(self)),
            final(self).cached(page_id),
            header@ == old(self).header(page_id),
            header.wf(),
    {
        assert(self.chained(page_id));
        match self.cache.get(&page_id) {
            Some(frame) => {
                return frame.header;
            },
            None => {},
        }
        match self.disk.read_page(page_id) {
            Some(page) => {
                self.cache.insert(page_id, HeaderFrame { header: page, is_dirty: false });
                proof {
                    assert forall|k: PageId| 1 <= k <= self.head() implies #[trigger] self.chained(
                        k,
                    ) by {
                        assert(old(self).chained(k));
                    }
                }
                page
            },
            None => {
                assert(false);
                HeaderPage::new(page_id)
            },
        }
    }

    /// Puts a changed copy of header page `page_id` back: into memory, and
    /// onto the disk as well if `flush` is set.
    fn store_header(&mut self, page_id: PageId, header: HeaderPage, flush: bool)
        requires
            old(self).wf(),
            1 <= page_id <= old(self).head(),
            header@.wf(),
            header@.id == page_id,
            header@.next == page_id - 1,
            header@.offset == span_start(page_id as int),
        ensures
            final(self).wf(),
            final(self).head() == old(self).head(),
            final(self).header(page_id) == header@,
            forall|k: PageId| k != page_id
                ==> #[trigger] final(self).header(k) == old(self).header(k),
            forall|k: PageId| k != page_id
                ==> #[trigger] final(self).dirty(k) == old(self).dirty(k),
            final(self).dirty(page_id) == !flush,
            final(self).disk_pages() == (if flush {
                old(self).disk_pages().insert(page_id, header@)
            } else {
                old(self).disk_pages()
            }),
    {
        if flush {
            self.disk.write_page(&header);
        }
        self.cache.insert(page_id, HeaderFrame { header, is_dirty: !flush });
        proof {
            assert forall|k: PageId| 1 <= k <= self.head() implies #[trigger] self.chained(k) by {
                assert(old(self).chained(k));
            }
        }
    }

    /// Hands out a page id that is not in use and marks it as in use: the
    /// first free id of the first header page, from the head on, that has
    /// one. Where all header pages are full, a new one becomes the head and
    /// its first id is handed out. With `flush` the changed header page is
    /// written to disk at once, otherwise by the next flush.
    pub fn allocate(&mut self, flush: bool) -> (page_id: PageId)
        requires
            old(self).wf(),
            old(self).has_id(),
        ensures
            final(self).wf(),
            page_id >= 1,
            !old(self).allocated(page_id as int),
            forall|p: int| final(self).allocated(p) == (p == page_id || old(self).allocated(p)),
            old(self).picks(page_id),
            final(self).head() == (if header_of(page_id as int) > old(self).head() {
                (old(self).head() + 1) as PageId
            } else {
                old(self).head()
            }),
            final(self).disk_pages() == (if flush {
                old(self).disk_pages().insert(
                    header_of(page_id as int) as PageId,
                    final(self).header(header_of(page_id as int) as PageId),
                )
            } else {
                old(self).disk_pages()
            }),
            final(self).dirty(header_of(page_id as int) as PageId) == !flush,
    {
        let ghost before = *self;
        let mut curr: PageId = self.head;
        while curr != 0
            invariant
                self.wf(),
                self.same_books(&before),
                before == *old(self),
                before.wf(),
                curr <= self.head(),
                forall|j: PageId| curr < j <= self.head() ==> #[trigger] before.header(j).full(),
            decreases curr,
        {
            let mut header = self.load_header(curr);
            assert(before.chained(curr));
            match header.allocate_header() {
                Some(page_id) => {
                    proof {
                        assert(HEADER_SPAN == 32672);
                        assert(header_of(page_id as int) == curr);
                    }
                    let ghost mid = *self;
                    self.store_header(curr, header, flush);
                    proof {
                        lemma_marks_after_store(&mid, self, curr as PageId);
                        assert forall|p: int|
                            self.allocated(p) == (p == page_id || before.allocated(p)) by {
                            if header_of(p) == curr {
                                assert(self.header(curr) == header@);
                            }
                        }
                    }
                    return page_id;
                },
                None => {},
            }
            curr = curr - 1;
        }
        let ghost mid = *self;
        proof {
            assert(can_grow(before.head())) by {
                if !can_grow(before.head()) {
                    let p = choose|p: int|
                        1 <= p <= span_start(before.head() + 1) && !#[trigger] before.allocated(p);
                    let k = header_of(p) as PageId;
                    assert(1 <= k <= before.head());
                    before.lemma_header_marks(k);
                    assert(before.header(k).full());
                }
            }
            lemma_marks_after_store(&before, &mid, 0);
            assert forall|p: int| mid.allocated(p) == before.allocated(p) by {
                if 1 <= p <= span_start(before.head() + 1) {
                    assert(header_of(p) != 0);
                }
            }
        }
        let page_id = self.create_and_allocate(flush);
        proof {
            assert forall|j: PageId| 1 <= j <= before.head() implies #[trigger] before.header(
                j,
            ).full() by {}
        }
        page_id
    }

    /// The list has an id to hand out: one that is free, or room for one
    /// more header page.
    pub open spec fn has_id(&self) -> bool {
        can_grow(self.head()) || exists|p: int|
            1 <= p <= span_start(self.head() + 1) && !#[trigger] self.allocated(p)
    }

    /// What `allocate` hands out: the first free id of the first header
    /// page, from the head on, that is not full; the first id of the next
    /// header page where all are full.
    pub open spec fn picks(&self, page_id: PageId) -> bool {
        let k = header_of(page_id as int);
        &&& 1 <= k <= self.head() + 1
        &&& forall|j: PageId|
            1 <= j <= self.head() && (k < j || k > self.head()) ==> #[trigger] self.header(j).full()
        &&& if k <= self.head() {
            self.header(k as PageId).first_free(page_id - span_start(k) - 1)
        } else {
            page_id == span_start(k) + 1
        }
    }

    /// What `allocate` hands out, read off the marks alone: an id that is
    /// not in use, after ids in use only on its header page, with no
    /// free id on a newer header page; an id of a new header page only
    /// where every id of the list is in use, and then the first one.
    pub open spec fn first_unused(&self, page_id: PageId) -> bool {
        let k = header_of(page_id as int);
        &&& page_id >= 1
        &&& k <= self.head() + 1
        &&& !self.allocated(page_id as int)
        &&& forall|x: int| span_start(k) < x < page_id ==> self.allocated(x)
        &&& forall|x: int| span_start(k + 1) < x <= span_start(self.head() + 1)
            ==> self.allocated(x)
        &&& k == self.head() + 1 ==> page_id == span_start(k) + 1 && forall|x: int|
            1 <= x <= span_start(self.head() + 1) ==> self.allocated(x)
    }

    /// A header page of the chain is full where every id that it covers is
    /// in use, and bit `i` of it tells whether its `i`-th id is in use.
    proof fn lemma_header_marks(&self, k: PageId)
        requires
            self.wf(),
            1 <= k <= self.head(),
        ensures
            forall|i: int|
                0 <= i < 32672 ==> #[trigger] bit_at(self.header(k).bits, i) == self.allocated(
                    span_start(k as int) + 1 + i,
                ),
            self.header(k).full() == (forall|x: int|
                span_start(k as int) < x <= span_start(k + 1) ==> self.allocated(x)),
    {
        assert(HEADER_SPAN == 32672);
        assert(self.chained(k));
        let v = self.header(k);
        assert forall|i: int| 0 <= i < 32672 implies #[trigger] bit_at(v.bits, i) == self.allocated(
            span_start(k as int) + 1 + i,
        ) by {
            let x = span_start(k as int) + 1 + i;
            assert(header_of(x) == k);
            assert(x - v.offset - 1 == i);
        }
        if v.full() {
            assert forall|x: int| span_start(k as int) < x
                <= span_start(k + 1) implies self.allocated(
                x,
            ) by {
                let i = x - span_start(k as int) - 1;
                assert(bit_at(v.bits, i));
            }
        }
        if forall|x: int| span_start(k as int) < x <= span_start(k + 1) ==> self.allocated(x) {
            assert forall|i: int| 0 <= i < HEADER_SPAN implies bit_at(v.bits, i) by {
                assert(self.allocated(span_start(k as int) + 1 + i));
            }
        }
    }

    /// What `allocate` hands out can be told from the marks alone.
    pub proof fn lemma_picks(&self, page_id: PageId)
        requires
            self.wf(),
        ensures
            self.picks(page_id) == self.first_unused(page_id),
    {
        assert(HEADER_SPAN == 32672);
        let k = header_of(page_id as int);
        let head = self.head();
        if self.picks(page_id) {
            assert forall|x: int| span_start(k + 1) < x
                <= span_start(head + 1) implies self.allocated(
                x,
            ) by {
                let j = header_of(x) as PageId;
                assert(k < j <= head);
                self.lemma_header_marks(j);
                assert(self.header(j).full());
            }
            if k <= head {
                self.lemma_header_marks(k as PageId);
                let idx = page_id - span_start(k) - 1;
                assert(!bit_at(self.header(k as PageId).bits, idx));
                assert forall|x: int| span_start(k) < x < page_id implies self.allocated(x) by {
                    let i = x - span_start(k) - 1;
                    assert(bit_at(self.header(k as PageId).bits, i));
                }
            } else {
                assert forall|x: int| 1 <= x <= span_start(head + 1) implies self.allocated(x) by {
                    let j = header_of(x) as PageId;
                    assert(1 <= j <= head);
                    self.lemma_header_marks(j);
                    assert(self.header(j).full());
                }
            }
            assert(self.first_unused(page_id));
        }
        if self.first_unused(page_id) {
            assert(k >= 1);
            assert forall|j: PageId|
                1 <= j <= head && (k < j || k > head) implies #[trigger] self.header(j).full() by {
                self.lemma_header_marks(j);
                assert forall|x: int| span_start(j as int) < x
                    <= span_start(j + 1) implies self.allocated(
                    x,
                ) by {}
            }
            if k <= head {
                self.lemma_header_marks(k as PageId);
                let v = self.header(k as PageId);
                let idx = page_id - span_start(k) - 1;
                assert(bit_at(v.bits, idx) == self.allocated(span_start(k) + 1 + idx));
                assert forall|i: int| 0 <= i < idx implies bit_at(v.bits, i) by {
                    assert(self.allocated(span_start(k) + 1 + i));
                }
                assert(v.first_free(idx));
            }
            assert(self.picks(page_id));
        }
    }

    /// `allocate` has one id only that it can hand out.
    pub proof fn lemma_picks_unique(&self, p: PageId, q: PageId)
        requires
            self.wf(),
            self.picks(p),
            self.picks(q),
        ensures
            p == q,
    {
        self.lemma_picks(p);
        self.lemma_picks(q);
        assert(HEADER_SPAN == 32672);
        let kp = header_of(p as int);
        let kq = header_of(q as int);
        if kp < kq {
            if kq <= self.head() {
                assert(self.allocated(q as int));
            } else {
                assert(self.allocated(p as int));
            }
        } else if kq < kp {
            if kp <= self.head() {
                assert(self.allocated(p as int));
            } else {
                assert(self.allocated(q as int));
            }
        } else if p < q {
            assert(self.allocated(p as int));
        } else if q < p {
            assert(self.allocated(q as int));
        }
    }

    /// An id that was handed out and given back is the one that is handed
    /// out next: `allocate` picks in `after`, a list with the marks of this
    /// one and the header pages that this one has once it handed out
    /// `page_id`, the id that it picks in this one.
    pub proof fn lemma_reuse(&self, after: &Self, page_id: PageId)
        requires
            self.wf(),
            after.wf(),
            self.picks(page_id),
            after.head() == (if header_of(page_id as int) > self.head() {
                (self.head() + 1) as PageId
            } else {
                self.head()
            }),
            forall|x: int| after.allocated(x) == self.allocated(x),
        ensures
            after.picks(page_id),
            after.has_id(),
    {
        self.lemma_picks(page_id);
        after.lemma_picks(page_id);
        assert(HEADER_SPAN == 32672);
        assert(1 <= page_id <= span_start(after.head() + 1) && !after.allocated(page_id as int));
    }

    /// Appends a new header page to the head of the list and hands out its
    /// first id.
    fn create_and_allocate(&mut self, flush: bool) -> (page_id: PageId)
        requires
            old(self).wf(),
            can_grow(old(self).head()),
        ensures
            final(self).wf(),
            final(self).head() == old(self).head() + 1,
            page_id == span_start(old(self).head() + 1) + 1,
            header_of(page_id as int) == old(self).head() + 1,
            !old(self).allocated(page_id as int),
            forall|p: int| final(self).allocated(p) == (p == page_id || old(self).allocated(p)),
            forall|k: PageId|
                1 <= k <= old(self).head() ==> #[trigger] final(self).header(k) == old(self).header(
                    k,
                ),
            final(self).disk_pages() == (if flush {
                old(self).disk_pages().insert(final(self).head(),
                    final(self).header(final(self).head()))
            } else {
                old(self).disk_pages()
            }),
            final(self).dirty(final(self).head()) == !flush,
    {
        let start: PageId = self.head;
        let id: PageId = start + 1;
        let mut page = HeaderPage::new(id);
        page.set_next(start);
        assert(HEADER_SPAN == 32672);
        page.set_offset(start as usize);
        let ghost fresh = page@;
        proof {
            lemma_empty_header(id);
            assert(fresh.bits == HeaderPageView::empty(id).bits);
            assert(!bit_at(fresh.bits, 0));
            assert(fresh.offset == start * 32672);
        }
        let allocated = match page.allocate_header() {
            Some(page_id) => {
                assert(fresh.first_free(page_id - fresh.offset - 1));
                assert(page_id - fresh.offset - 1 == 0);
                page_id
            },
            None => {
                assert(false);
                0
            },
        };
        self.head = id;
        proof {
            assert forall|k: PageId| 1 <= k <= start implies #[trigger] self.chained(k) by {
                assert(old(self).chained(k));
            }
        }
        if flush {
            self.disk.write_page(&page);
        }
        self.cache.insert(id, HeaderFrame { header: page, is_dirty: !flush });
        proof {
            assert forall|k: PageId| 1 <= k <= self.head() implies #[trigger] self.chained(k) by {
                if k <= start {
                    assert(old(self).chained(k));
                }
            }
            assert forall|p: int|
                self.allocated(p) == (p == allocated || old(self).allocated(p)) by {
                let k = header_of(p);
                if 1 <= p && k <= start {
                    assert(old(self).chained(k as PageId));
                    assert(self.header(k as PageId) == old(self).header(k as PageId));
                }
            }
        }
        allocated
    }

    /// Marks a page id as free again. Fails, and changes nothing, if the
    /// list has no header page, if no header page covers the id, or if the
    /// id is not in use.
    pub fn deallocate(&mut self, page_id: PageId, flush: bool) -> (res: Result<(), FreeListError>)
        requires
            old(self).wf(),
        ensures
            final(self).wf(),
            final(self).head() == old(self).head(),
            match res {
                Ok(()) => {
                    &&& old(self).allocated(page_id as int)
                    &&& forall|p: int|
                        final(self).allocated(p) == (p != page_id && old(self).allocated(p))
                    &&& final(self).disk_pages() == (if flush {
                        old(self).disk_pages().insert(
                            header_of(page_id as int) as PageId,
                            final(self).header(header_of(page_id as int) as PageId),
                        )
                    } else {
                        old(self).disk_pages()
                    })
                    &&& final(self).dirty(header_of(page_id as int) as PageId) == !flush
                },
                Err(e) => {
                    &&& final(self).same_books(old(self))
                    &&& e == FreeListError::Empty <==> old(self).head() == 0
                    &&& e == FreeListError::NotCovered <==> old(self).head() != 0 && !(1 <= page_id
                        <= span_start(old(self).head() + 1))
                    &&& e == FreeListError::DoubleFree <==> 1 <= page_id <= span_start(
                        old(self).head() + 1,
                    ) && !old(self).allocated(page_id as int)
                },
            },
    {
        if self.head == 0 {
            return Err(FreeListError::Empty);
        }
        let ghost before = *self;
        let mut curr: PageId = self.head;
        while curr != 0
            invariant
                self.wf(),
                self.same_books(&before),
                before == *old(self),
                before.wf(),
                before.head() != 0,
                curr <= self.head(),
                !(span_start(curr + 1) < page_id <= span_start(self.head() + 1)),
            decreases curr,
        {
            let mut header = self.load_header(curr);
            assert(before.chained(curr));
            let offset: usize = header.get_offset();
            assert(HEADER_SPAN == 32672);
            if page_id as usize > offset && page_id as usize <= offset + HEADER_SPAN {
                assert(header_of(page_id as int) == curr);
                if !header.is_allocated(page_id as usize) {
                    return Err(FreeListError::DoubleFree);
                }
                header.deallocate_header(page_id as usize);
                let ghost mid = *self;
                self.store_header(curr, header, flush);
                proof {
                    lemma_marks_after_store(&mid, self, curr as PageId);
                    assert forall|p: int|
                        self.allocated(p) == (p != page_id && before.allocated(p)) by {
                        if header_of(p) == curr {
                            assert(self.header(curr) == header@);
                        }
                    }
                }
                return Ok(());
            }
            curr = curr - 1;
        }
        Err(FreeListError::NotCovered)
    }

    /// Writes header page `page_id` to disk if it is held in memory and was
    /// changed since it was last written.
    pub fn flush_header(&mut self, page_id: PageId)
        requires
            old(self).wf(),
        ensures
            final(self).wf(),
            final(self).head() == old(self).head(),
            forall|k: PageId| #[trigger] final(self).header(k) == old(self).header(k),
            forall|k: PageId| #[trigger] final(self).has_header(k) == old(self).has_header(k),
            forall|k: PageId| #[trigger] final(self).dirty(k) == (k != page_id
                && old(self).dirty(k)),
            final(self).disk_pages() == (if old(self).dirty(page_id) {
                old(self).disk_pages().insert(page_id, old(self).header(page_id))
            } else {
                old(self).disk_pages()
            }),
    {
        let frame = match self.cache.get(&page_id) {
            Some(frame) => HeaderFrame { header: frame.header, is_dirty: frame.is_dirty },
            None => {
                return ;
            },
        };
        if frame.is_dirty {
            assert(self.chained(page_id));
            self.disk.write_page(&frame.header);
            self.cache.insert(page_id, HeaderFrame { header: frame.header, is_dirty: false });
            proof {
                assert forall|k: PageId| 1 <= k <= self.head() implies #[trigger] self.chained(
                    k,
                ) by {
                    assert(old(self).chained(k));
                }
            }
        }
    }

    /// Writes every header page to disk that was changed since it was last
    /// written.
    pub fn flush_all(&mut self)
        requires
            old(self).wf(),
        ensures
            final(self).wf(),
            final(self).head() == old(self).head(),
            forall|k: PageId| #[trigger] final(self).header(k) == old(self).header(k),
            forall|k: PageId| !#[trigger] final(self).dirty(k),
            final(self).persisted(),
            final(self).same_marks(old(self)),
    {
        let mut k: PageId = 0;
        while k < self.head
            invariant
                self.wf(),
                k <= self.head(),
                self.head() == old(self).head(),
                forall|j: PageId| #[trigger] self.header(j) == old(self).header(j),
                forall|j: PageId| 1 <= j <= k ==> !#[trigger] self.dirty(j),
            decreases self.head() - k,
        {
            k = k + 1;
            self.flush_header(k);
        }
        proof {
            self.lemma_clean_is_persisted();
            assert forall|j: PageId| 1 <= j <= self.head() implies #[trigger]
                self.disk_pages().contains_key(j) && self.disk_pages()[j] == self.header(j) by {
                assert(!self.dirty(j));
            }
            lemma_marks_after_store(old(self), self, 0);
            assert forall|p: int| self.allocated(p) == old(self).allocated(p) by {
                if 1 <= p <= span_start(self.head() + 1) {
                    assert(header_of(p) != 0);
                }
            }
        }
    }

    /// A header page that is not dirty is on disk as it is in memory, and no
    /// page beyond the head is dirty.
    proof fn lemma_clean_is_persisted(&self)
        requires
            self.wf(),
        ensures
            forall|k: PageId|
                1 <= k <= self.head() && !self.dirty(k)
                    ==> #[trigger] self.disk_pages().contains_key(
                    k,
                ) && self.disk_pages()[k] == self.header(k),
            forall|k: PageId| !(1 <= k <= self.head()) ==> !#[trigger] self.dirty(k),
    {
        assert forall|k: PageId| 1 <= k <= self.head() && !self.dirty(k) implies #[trigger]
            self.disk_pages().contains_key(k) && self.disk_pages()[k] == self.header(k) by {
            assert(self.chained(k));
        }
    }
}

/// After one header page was put back, the pages of all other ids are
/// marked as before.
proof fn lemma_marks_after_store<D: DiskManager<HeaderPage>>(
    before: &FreeList<D>,
    after: &FreeList<D>,
    k: PageId,
)
    requires
        after.head() == before.head(),
        forall|j: PageId| j != k ==> #[trigger] after.header(j) == before.header(j),
    ensures
        forall|p: int| header_of(p) != k ==> after.allocated(p) == before.allocated(p),
{
    assert forall|p: int| header_of(p) != k implies after.allocated(p) == before.allocated(p) by {
        if 1 <= p <= span_start(before.head() + 1) {
            let j = header_of(p) as PageId;
            assert(j == header_of(p));
            assert(after.header(j) == before.header(j));
        }
    }
}

} // verus!
