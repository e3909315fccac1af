use crate::storage::disk_manager::DiskManager;
use crate::storage::free_list::{header_of, FreeList};
use crate::storage::page::header_page::HeaderPage;
use crate::storage::page::page::{Page, PageError};
use crate::storage::replacement_strategy::ReplacementStrategy;
use crate::types::{NO_FLUSH, PageId};
use std::collections::HashMap;
use vstd::prelude::*;

verus! {

/// A page in memory, with what the buffer pool keeps about it.
pub struct BufferFrame<P: Page> {
    pub page: P,
    /// The page was changed since it was last written.
    pub is_dirty: bool,
    /// The number of guards that hold the page in memory.
    pub pin_count: usize,
}

/// Holds one pin on a page of a buffer pool, from `fetch_page` or
/// `create_page` until `release`.
pub struct PageGuard {
    page_id: PageId,
    is_dirty: bool,
}

/// The page `id` stands at one of the first `k` places of `order`.
spec fn seen(order: Seq<PageId>, k: int, id: PageId) -> bool {
    exists|j: int| 0 <= j < k && #[trigger] order[j] == id
}

/// A bounded cache of the pages of one disk. A page in memory is found by
/// its id; it is written back when it is given up or flushed.
///
/// The page table maps the id of each page in memory to its frame. A
/// frame is changed by taking it out of the table and putting it back.
pub struct BufferPool<
    P: Page,
    D: DiskManager<P>,
    H: DiskManager<HeaderPage>,
    S: ReplacementStrategy,
> {
    frames: HashMap<PageId, BufferFrame<P>>,
    capacity: usize,
    disk: D,
    strategy: S,
    free_list: FreeList<H>,
}

impl<
    P: Page,
    D: DiskManager<P>,
    H: DiskManager<HeaderPage>,
    S: ReplacementStrategy,
> BufferPool<P, D, H, S> {
    /// The greatest number of pages that the pool holds in memory.
    pub closed spec fn capacity(&self) -> usize {
        self.capacity
    }

    /// The number of pages in memory.
    pub closed spec fn len(&self) -> nat {
        self.frames@.len()
    }

    /// The page is in memory.
    pub closed spec fn is_resident(&self, id: PageId) -> bool {
        self.frames@.contains_key(id)
    }

    /// The content of a page in memory.
    pub closed spec fn frame_page(&self, id: PageId) -> P::V {
        self.frames@[id].page@
    }

    /// The page in memory was changed since it was last written.
    pub closed spec fn frame_dirty(&self, id: PageId) -> bool {
        self.frames@.contains_key(id) && self.frames@[id].is_dirty
    }

    /// The number of pins on a page; 0 for a page that is not in memory.
    pub closed spec fn pin_count(&self, id: PageId) -> nat {
        if self.frames@.contains_key(id) {
            self.frames@[id].pin_count as nat
        } else {
            0
        }
    }

    /// The pages as the disk holds them.
    pub closed spec fn disk_pages(&self) -> Map<PageId, P::V> {
        self.disk.pages()
    }

    /// The replacement strategy of the pool.
    pub closed spec fn strategy(&self) -> S {
        self.strategy
    }

    /// The pages that the replacement strategy knows, in its order.
    pub open spec fn candidates(&self) -> Seq<PageId> {
        self.strategy().candidates()
    }

    /// The pages that the replacement strategy knows after it was told that
    /// `page_id` was fetched or created, in its order.
    pub open spec fn touched(&self, page_id: PageId) -> Seq<PageId> {
        self.strategy().touched(page_id)
    }

    /// The free list that the pool takes its page ids from.
    pub closed spec fn free_list(&self) -> FreeList<H> {
        self.free_list
    }

    /// The pages of the pool whatever their place: a page in memory as it
    /// is there, any other page as the disk holds it.
    pub open spec fn store(&self) -> Map<PageId, P::V> {
        Map::new(
            |id: PageId| self.is_resident(id) || self.disk_pages().contains_key(id),
            |id: PageId|
                if self.is_resident(id) {
                    self.frame_page(id)
                } else {
                    self.disk_pages()[id]
                },
        )
    }

    /// No page is pinned.
    pub open spec fn unpinned(&self) -> bool {
        forall|id: PageId| self.pin_count(id) == 0
    }

    /// The page can be given up: it is in memory and not pinned.
    pub open spec fn can_evict(&self, id: PageId) -> bool {
        self.is_resident(id) && self.pin_count(id) == 0
    }

    /// The first page from place `from` on in the order of the replacement
    /// strategy that can be given up.
    pub open spec fn victim_from(&self, from: int) -> Option<PageId>
        decreases self.candidates().len() - from,
    {
        if from < 0 || from >= self.candidates().len() {
            None
        } else if self.can_evict(self.candidates()[from]) {
            Some(self.candidates()[from])
        } else {
            self.victim_from(from + 1)
        }
    }

    /// The page that `evict_one` gives up: the first one in the order of the
    /// replacement strategy that is in memory and not pinned.
    pub open spec fn victim(&self) -> Option<PageId> {
        self.victim_from(0)
    }

    /// `victim_from` finds a page that can be given up if there is one among
    /// the candidates, and only such a page.
    pub proof fn lemma_victim_from(&self, from: int)
        requires
            0 <= from,
        ensures
            match self.victim_from(from) {
                Some(id) => self.can_evict(id) && self.candidates().contains(id),
                None => forall|i: int|
                    from <= i < self.candidates().len() ==> !self.can_evict(self.candidates()[i]),
            },
        decreases self.candidates().len() - from,
    {
        if from < self.candidates().len() && !self.can_evict(self.candidates()[from]) {
            self.lemma_victim_from(from + 1);
        }
    }

    /// The invariant of the page table: no more pages than the capacity;
    /// every page is well-formed and carries the id it is kept under; a
    /// page that is not dirty is what the disk holds; the replacement
    /// strategy knows every page.
    pub closed spec fn table_ok(&self) -> bool {
        &&& self.frames@.dom().finite()
        &&& self.frames@.len() <= self.capacity
        &&& forall|id: PageId| #[trigger]
            self.frames@.contains_key(id) ==> {
                &&& self.frames@[id].page.wf()
                &&& P::id_of(self.frames@[id].page@) == id
                &&& !self.frames@[id].is_dirty ==> self.disk.pages().contains_key(id)
                    && self.disk.pages()[id] == self.frames@[id].page@
                &&& self.strategy.candidates().contains(id)
            }
    }

    /// The invariant of the buffer pool.
    pub open spec fn wf(&self) -> bool {
        self.table_ok() && self.free_list().wf()
    }

    /// The two pools hold the same pages, in memory and on disk, with the
    /// same pins.
    pub open spec fn same_pages(&self, other: &Self) -> bool {
        &&& self.capacity() == other.capacity()
        &&& self.len() == other.len()
        &&& self.disk_pages() == other.disk_pages()
        &&& forall|id: PageId| #[trigger] self.is_resident(id) == other.is_resident(id)
        &&& forall|id: PageId|
            self.is_resident(id) ==> #[trigger] self.frame_page(id) == other.frame_page(id)
        &&& forall|id: PageId| #[trigger] self.frame_dirty(id) == other.frame_dirty(id)
        &&& forall|id: PageId| #[trigger] self.pin_count(id) == other.pin_count(id)
    }

    /// Creates a pool without pages in memory.
    pub fn new(capacity: usize, strategy: S, disk: D, free_list: FreeList<H>) -> (pool: Self)
        requires
            free_list.wf(),
        ensures
            pool.wf(),
            pool.capacity() == capacity,
            pool.len() == 0,
            pool.unpinned(),
            pool.disk_pages() == disk.pages(),
            pool.free_list() == free_list,
            pool.strategy() == strategy,
            forall|id: PageId| !pool.is_resident(id),
    {
        BufferPool { frames: HashMap::new(), capacity, disk, strategy, free_list }
    }

    /// The number of pages in memory.
    pub fn current_size(&self) -> (size: usize)
        requires
            self.wf(),
        ensures
            size == self.len(),
            size <= self.capacity(),
    {
        self.frames.len()
    }

}

impl PageGuard {
    /// The page that the guard holds.
    pub closed spec fn page_id(&self) -> PageId {
        self.page_id
    }

    /// The guard was used to change its page.
    pub closed spec fn wrote(&self) -> bool {
        self.is_dirty
    }

    /// The id of the page that the guard holds.
    pub fn get_page_id(&self) -> (id: PageId)
        ensures
            id == self.page_id(),
    {
        self.page_id
    }

    /// Pins a page that is in memory.
    pub fn new<P: Page, D: DiskManager<P>, H: DiskManager<HeaderPage>, S: ReplacementStrategy>(
        page_id: PageId,
        pool: &mut BufferPool<P, D, H, S>,
    ) -> (guard: PageGuard)
        requires
            old(pool).wf(),
            old(pool).is_resident(page_id),
            old(pool).pin_count(page_id) < usize::MAX,
        ensures
            guard.page_id() == page_id,
            !guard.wrote(),
            final(pool).wf(),
            final(pool).pinned_once(old(pool), page_id),
    {
        let taken = pool.frames.remove(&page_id);
        let mut frame = taken.unwrap();
        frame.pin_count = frame.pin_count + 1;
        pool.frames.insert(page_id, frame);
        proof {
            assert(pool.frames@ =~= old(pool).frames@.insert(page_id, pool.frames@[page_id]));
            pool.lemma_one_frame_changed(old(pool), page_id);
            assert(pool.store() =~= old(pool).store());
        }
        PageGuard { page_id, is_dirty: false }
    }

    /// The page that the guard holds, to read it.
    pub fn read<'a, P: Page, D: DiskManager<P>, H: DiskManager<HeaderPage>, S: ReplacementStrategy>(
        &self,
        pool: &'a BufferPool<P, D, H, S>,
    ) -> (page: &'a P)
        requires
            pool.wf(),
            pool.is_resident(self.page_id()),
        ensures
            page@ == pool.frame_page(self.page_id()),
            page@ == pool.store()[self.page_id()],
            page.wf(),
            P::id_of(page@) == self.page_id(),
    {
        let frame = pool.frames.get(&self.page_id);
        &frame.unwrap().page
    }

    /// Puts `page` in the place of the page that the guard holds and returns
    /// the page that was there. The page counts as changed from now on.
    pub fn write<P: Page, D: DiskManager<P>, H: DiskManager<HeaderPage>, S: ReplacementStrategy>(
        &mut self,
        pool: &mut BufferPool<P, D, H, S>,
        page: P,
    ) -> (previous: P)
        requires
            old(pool).wf(),
            old(pool).is_resident(old(self).page_id()),
            page.wf(),
            P::id_of(page@) == old(self).page_id(),
        ensures
            final(self).page_id() == old(self).page_id(),
            final(self).wrote(),
            previous@ == old(pool).frame_page(old(self).page_id()),
            previous.wf(),
            P::id_of(previous@) == old(self).page_id(),
            final(pool).wf(),
            final(pool).rewritten(old(pool), old(self).page_id(), page@),
    {
        let id = self.page_id;
        self.is_dirty = true;
        let taken = pool.frames.remove(&id);
        let frame = taken.unwrap();
        let previous = frame.page;
        pool.frames.insert(id, BufferFrame { page, is_dirty: true, pin_count: frame.pin_count });
        proof {
            assert(pool.frames@ =~= old(pool).frames@.insert(id, pool.frames@[id]));
            pool.lemma_one_frame_changed(old(pool), id);
        }
        previous
    }
}

impl<
    P: Page,
    D: DiskManager<P>,
    H: DiskManager<HeaderPage>,
    S: ReplacementStrategy,
> BufferPool<P, D, H, S> {
    /// The pool is as `before` but for the content of one page in memory,
    /// which is `content` and counts as changed.
    pub open spec fn rewritten(&self, before: &Self, page_id: PageId, content: P::V) -> bool {
        &&& self.capacity() == before.capacity()
        &&& self.len() == before.len()
        &&& self.disk_pages() == before.disk_pages()
        &&& self.free_list() == before.free_list()
        &&& self.candidates() == before.candidates()
        &&& self.store() == before.store().insert(page_id, content)
        &&& forall|id: PageId| #[trigger] self.is_resident(id) == before.is_resident(id)
        &&& forall|id: PageId|
            self.is_resident(id) && id != page_id ==> #[trigger] self.frame_page(id)
                == before.frame_page(id)
        &&& self.frame_page(page_id) == content
        &&& forall|id: PageId|
            #[trigger] self.frame_dirty(id) == (id == page_id || before.frame_dirty(id))
        &&& forall|id: PageId| #[trigger] self.pin_count(id) == before.pin_count(id)
    }

    /// The pool is as `before` but for one more pin on the page.
    pub open spec fn pinned_once(&self, before: &Self, page_id: PageId) -> bool {
        &&& self.capacity() == before.capacity()
        &&& self.len() == before.len()
        &&& self.disk_pages() == before.disk_pages()
        &&& self.free_list() == before.free_list()
        &&& self.candidates() == before.candidates()
        &&& self.store() == before.store()
        &&& forall|id: PageId| #[trigger] self.is_resident(id) == before.is_resident(id)
        &&& forall|id: PageId|
            self.is_resident(id) ==> #[trigger] self.frame_page(id) == before.frame_page(id)
        &&& forall|id: PageId| #[trigger] self.frame_dirty(id) == before.frame_dirty(id)
        &&& forall|id: PageId|
            #[trigger] self.pin_count(id) == before.pin_count(id) + (if id == page_id {
                1nat
            } else {
                0nat
            })
    }

    /// What follows when the frame of one page in memory changed and
    /// nothing else.
    proof fn lemma_one_frame_changed(&self, before: &Self, id: PageId)
        requires
            before.table_ok(),
            before.frames@.contains_key(id),
            self.frames@ == before.frames@.insert(id, self.frames@[id]),
            self.capacity == before.capacity,
            self.disk == before.disk,
            self.strategy == before.strategy,
            self.free_list == before.free_list,
        ensures
            self.frames@[id].page.wf() && P::id_of(self.frames@[id].page@) == id && (
            !self.frames@[id].is_dirty ==> self.disk.pages().contains_key(id)
                && self.disk.pages()[id] == self.frames@[id].page@) ==> self.table_ok(),
            self.len() == before.len(),
            forall|x: PageId| #[trigger] self.is_resident(x) == before.is_resident(x),
            forall|x: PageId|
                x != id && self.is_resident(x) ==> #[trigger] self.frame_page(x)
                    == before.frame_page(x),
            forall|x: PageId| x != id ==> #[trigger] self.frame_dirty(x) == before.frame_dirty(x),
            forall|x: PageId| x != id ==> #[trigger] self.pin_count(x) == before.pin_count(x),
            self.frame_page(id) == self.frames@[id].page@,
            self.frame_dirty(id) == self.frames@[id].is_dirty,
            self.pin_count(id) == self.frames@[id].pin_count,
            self.store() =~= before.store().insert(id, self.frames@[id].page@),
    {
        assert(self.frames@.dom() =~= before.frames@.dom());
    }
}

impl PageGuard {
    /// Gives the pin back. The page counts as changed if the guard was used
    /// to change it. Returns whether the page is without pins now, so that
    /// whoever waits for a page to give up can go on.
    pub fn release<P: Page, D: DiskManager<P>, H: DiskManager<HeaderPage>, S: ReplacementStrategy>(
        self,
        pool: &mut BufferPool<P, D, H, S>,
    ) -> (unpinned: bool)
        requires
            old(pool).wf(),
            old(pool).pin_count(self.page_id()) > 0,
        ensures
            final(pool).wf(),
            final(pool).unpinned_once(old(pool), self.page_id(), self.wrote()),
            unpinned == (final(pool).pin_count(self.page_id()) == 0),
    {
        proof {
            old(pool).lemma_pinned_is_resident(self.page_id);
        }
        let res = pool.unpin_page(self.page_id, self.is_dirty);
        !pool.is_pinned(self.page_id)
    }
}

impl<
    P: Page,
    D: DiskManager<P>,
    H: DiskManager<HeaderPage>,
    S: ReplacementStrategy,
> BufferPool<P, D, H, S> {
    /// The two pools are the same in all that this module shows of them.
    pub open spec fn same_as(&self, other: &Self) -> bool {
        &&& self.same_pages(other)
        &&& self.candidates() == other.candidates()
        &&& forall|id: PageId| #[trigger] self.touched(id) == other.touched(id)
        &&& self.store() == other.store()
        &&& self.free_list() == other.free_list()
    }

    /// The pool is as `before` but for one pin less on the page, which
    /// counts as changed if `is_dirty` is set.
    pub open spec fn unpinned_once(&self, before: &Self, page_id: PageId, is_dirty: bool) -> bool {
        &&& self.capacity() == before.capacity()
        &&& self.len() == before.len()
        &&& self.disk_pages() == before.disk_pages()
        &&& self.free_list() == before.free_list()
        &&& self.candidates() == before.candidates()
        &&& self.store() == before.store()
        &&& forall|id: PageId| #[trigger] self.is_resident(id) == before.is_resident(id)
        &&& forall|id: PageId|
            self.is_resident(id) ==> #[trigger] self.frame_page(id) == before.frame_page(id)
        &&& forall|id: PageId|
            #[trigger] self.frame_dirty(id) == (before.frame_dirty(id) || (id == page_id
                && is_dirty))
        &&& forall|id: PageId|
            #[trigger] self.pin_count(id) == before.pin_count(id) - (if id == page_id {
                1int
            } else {
                0int
            })
    }

    /// The pool is as `before` but that the page is on disk as it is in
    /// memory and counts as unchanged.
    pub open spec fn flushed(&self, before: &Self, page_id: PageId) -> bool {
        &&& self.capacity() == before.capacity()
        &&& self.len() == before.len()
        &&& self.disk_pages() == (if before.frame_dirty(page_id) {
            before.disk_pages().insert(page_id, before.frame_page(page_id))
        } else {
            before.disk_pages()
        })
        &&& self.free_list() == before.free_list()
        &&& self.candidates() == before.candidates()
        &&& self.store() == before.store()
        &&& forall|id: PageId| #[trigger] self.is_resident(id) == before.is_resident(id)
        &&& forall|id: PageId|
            self.is_resident(id) ==> #[trigger] self.frame_page(id) == before.frame_page(id)
        &&& forall|id: PageId|
            #[trigger] self.frame_dirty(id) == (before.frame_dirty(id) && id != page_id)
        &&& forall|id: PageId| #[trigger] self.pin_count(id) == before.pin_count(id)
    }

    /// The pool is as `before` but that the page left the memory, after it
    /// was written to disk if it was changed.
    pub open spec fn evicted(&self, before: &Self, page_id: PageId) -> bool {
        &&& self.capacity() == before.capacity()
        &&& self.len() == before.len() - 1
        &&& self.disk_pages() == (if before.frame_dirty(page_id) {
            before.disk_pages().insert(page_id, before.frame_page(page_id))
        } else {
            before.disk_pages()
        })
        &&& self.free_list() == before.free_list()
        &&& self.candidates() == before.candidates()
        &&& forall|id: PageId| #[trigger] self.touched(id) == before.touched(id)
        &&& self.store() == before.store()
        &&& forall|id: PageId|
            #[trigger] self.is_resident(id) == (before.is_resident(id) && id != page_id)
        &&& forall|id: PageId|
            self.is_resident(id) ==> #[trigger] self.frame_page(id) == before.frame_page(id)
        &&& forall|id: PageId|
            #[trigger] self.frame_dirty(id) == (before.frame_dirty(id) && id != page_id)
        &&& forall|id: PageId|
            #[trigger] self.pin_count(id) == (if id == page_id {
                0
            } else {
                before.pin_count(id)
            })
    }

    /// No page that was pinned in `before` is out of memory now.
    pub open spec fn keeps_pinned(&self, before: &Self) -> bool {
        forall|id: PageId| before.pin_count(id) > 0 ==> #[trigger] self.is_resident(id)
    }

    /// A well-formed pool never holds more pages in memory than its capacity.
    pub proof fn lemma_within_capacity(&self)
        requires
            self.wf(),
        ensures
            self.len() <= self.capacity(),
    {
    }

    /// The page that gives way is in memory and not pinned: no pinned page
    /// is ever given up.
    pub proof fn lemma_victim_unpinned(&self)
        ensures
            match self.victim() {
                Some(id) => self.is_resident(id) && self.pin_count(id) == 0,
                None => true,
            },
    {
        self.lemma_victim_from(0);
    }

    /// A pinned page is in memory.
    pub proof fn lemma_pinned_is_resident(&self, page_id: PageId)
        ensures
            self.pin_count(page_id) > 0 ==> self.is_resident(page_id),
            self.frame_dirty(page_id) ==> self.is_resident(page_id),
    {
    }

    /// The replacement strategy knows every page in memory.
    pub proof fn lemma_resident_is_candidate(&self, id: PageId)
        requires
            self.wf(),
            self.is_resident(id),
        ensures
            self.candidates().contains(id),
    {
    }

    /// A pool with a page in memory that is not pinned has a page to give
    /// up, so that it can take a page in.
    pub proof fn lemma_evictable_has_victim(&self, id: PageId)
        requires
            self.wf(),
            self.can_evict(id),
        ensures
            self.victim() is Some,
            self.has_room(),
    {
        self.lemma_victim_from(0);
        self.lemma_resident_is_candidate(id);
        let k = choose|k: int| 0 <= k < self.candidates().len() && self.candidates()[k] == id;
        assert(self.can_evict(self.candidates()[k]));
    }

    /// A pool holds a page in memory exactly where it counts one.
    pub proof fn lemma_len_counts(&self)
        requires
            self.wf(),
        ensures
            self.len() > 0 <==> exists|id: PageId| self.is_resident(id),
    {
        if self.len() > 0 {
            let id = self.frames@.dom().choose();
            assert(self.is_resident(id));
        }
        if exists|id: PageId| self.is_resident(id) {
            let id = choose|id: PageId| self.is_resident(id);
            assert(self.frames@.dom().contains(id));
            if self.frames@.dom().len() == 0 {
                assert(self.frames@.dom() =~= Set::<PageId>::empty());
            }
        }
    }

    /// Where no page is pinned, any page in memory can be given up.
    pub proof fn lemma_unpinned_has_victim(&self)
        requires
            self.wf(),
            self.unpinned(),
            self.len() > 0,
        ensures
            self.victim() is Some,
    {
        self.lemma_victim_from(0);
        let id = self.frames@.dom().choose();
        assert(self.frames@.contains_key(id));
        assert(self.strategy.candidates().contains(id));
        assert(self.pin_count(id) == 0);
        let k = choose|k: int| 0 <= k < self.candidates().len() && self.candidates()[k] == id;
        assert(self.can_evict(self.candidates()[k]));
    }

    /// What follows when one frame left the page table and nothing else changed.
    proof fn lemma_frame_removed(&self, before: &Self, gone: PageId)
        requires
            before.table_ok(),
            before.frames@.contains_key(gone),
            self.frames@ == before.frames@.remove(gone),
            self.capacity == before.capacity,
            self.strategy == before.strategy,
            self.free_list == before.free_list,
            self.disk.pages() == before.disk.pages() || (before.frames@[gone].is_dirty
                && self.disk.pages() == before.disk.pages().insert(
                gone,
                before.frames@[gone].page@,
            )),
            !before.frames@[gone].is_dirty ==> self.disk.pages() == before.disk.pages(),
        ensures
            self.table_ok(),
            self.len() == before.len() - 1,
            forall|id: PageId|
                #[trigger] self.is_resident(id) == (before.is_resident(id) && id != gone),
            forall|id: PageId|
                self.is_resident(id) ==> #[trigger] self.frame_page(id) == before.frame_page(id),
            forall|id: PageId|
                #[trigger] self.frame_dirty(id) == (before.frame_dirty(id) && id != gone),
            forall|id: PageId|
                #[trigger] self.pin_count(id) == (if id == gone {
                    0
                } else {
                    before.pin_count(id)
                }),
    {
        assert(self.frames@.dom() =~= before.frames@.dom().remove(gone));
    }

    /// What follows when one frame was added to the page table and nothing
    /// else changed but what the replacement strategy remembers.
    proof fn lemma_frame_added(&self, before: &Self, page_id: PageId)
        requires
            before.table_ok(),
            !before.is_resident(page_id),
            before.frames@.len() < before.capacity,
            self.frames@ == before.frames@.insert(page_id, self.frames@[page_id]),
            self.capacity == before.capacity,
            self.disk == before.disk,
            self.free_list == before.free_list,
            self.strategy.candidates().contains(page_id),
            forall|id: PageId|
                before.strategy.candidates().contains(id)
                    ==> self.strategy.candidates().contains(id),
            self.frames@[page_id].page.wf(),
            P::id_of(self.frames@[page_id].page@) == page_id,
            !self.frames@[page_id].is_dirty ==> self.disk.pages().contains_key(page_id)
                && self.disk.pages()[page_id] == self.frames@[page_id].page@,
        ensures
            self.table_ok(),
            self.len() == before.len() + 1,
            forall|id: PageId|
                #[trigger] self.is_resident(id) == (before.is_resident(id) || id == page_id),
            forall|id: PageId|
                before.is_resident(id) ==> #[trigger] self.frame_page(id) == before.frame_page(id),
            forall|id: PageId|
                id != page_id ==> #[trigger] self.frame_dirty(id) == before.frame_dirty(id),
            forall|id: PageId|
                id != page_id ==> #[trigger] self.pin_count(id) == before.pin_count(id),
            self.frame_page(page_id) == self.frames@[page_id].page@,
            self.frame_dirty(page_id) == self.frames@[page_id].is_dirty,
            self.pin_count(page_id) == self.frames@[page_id].pin_count,
    {
        assert(self.frames@.dom() =~= before.frames@.dom().insert(page_id));
    }

    /// Tells whether the page is in memory and pinned.
    pub fn is_pinned(&self, page_id: PageId) -> (pinned: bool)
        requires
            self.wf(),
        ensures
            pinned == (self.pin_count(page_id) > 0),
    {
        match self.frames.get(&page_id) {
            Some(frame) => frame.pin_count > 0,
            None => false,
        }
    }

    /// Takes one pin from a page in memory; the page counts as changed from
    /// now on if `is_dirty` is set.
    pub fn unpin_page(&mut self, page_id: PageId, is_dirty: bool) -> (res: Result<(), PageError>)
        requires
            old(self).wf(),
        ensures
            final(self).wf(),
            final(self).keeps_pinned(old(self)),
            match res {
                Ok(()) => old(self).pin_count(page_id) > 0 && final(self).unpinned_once(
                    old(self),
                    page_id,
                    is_dirty,
                ),
                Err(e) => {
                    &&& final(self).same_as(old(self))
                    &&& old(self).pin_count(page_id) == 0
                    &&& e == PageError::InvalidPage || e == PageError::PageAlreadyUnpinned
                    &&& e == PageError::InvalidPage <==> !old(self).is_resident(page_id)
                },
            },
    {
        proof {
            assert forall|id: PageId| old(self).pin_count(id) > 0 implies old(self).is_resident(
                id,
            ) by {
                old(self).lemma_pinned_is_resident(id);
            }
        }
        let pins: usize = match self.frames.get(&page_id) {
            Some(frame) => frame.pin_count,
            None => {
                return Err(PageError::InvalidPage);
            },
        };
        if pins == 0 {
            return Err(PageError::PageAlreadyUnpinned);
        }
        let taken = self.frames.remove(&page_id);
        let mut frame = taken.unwrap();
        if is_dirty {
            frame.is_dirty = true;
        }
        frame.pin_count = frame.pin_count - 1;
        self.frames.insert(page_id, frame);
        proof {
            assert(self.frames@ =~= old(self).frames@.insert(page_id, self.frames@[page_id]));
            self.lemma_one_frame_changed(old(self), page_id);
            assert(self.store() =~= old(self).store());
        }
        Ok(())
    }

    /// Writes the page to disk if it is in memory and was changed since it
    /// was last written. Fails if the page is not in memory.
    pub fn flush_page(&mut self, page_id: PageId) -> (res: Result<(), PageError>)
        requires
            old(self).wf(),
        ensures
            final(self).wf(),
            final(self).keeps_pinned(old(self)),
            match res {
                Ok(()) => old(self).is_resident(page_id) && final(self).flushed(old(self), page_id),
                Err(e) => e == PageError::InvalidPage && !old(self).is_resident(page_id)
                    && final(self).same_as(old(self)),
            },
    {
        proof {
            assert forall|id: PageId| old(self).pin_count(id) > 0 implies old(self).is_resident(
                id,
            ) by {
                old(self).lemma_pinned_is_resident(id);
            }
        }
        if !self.frames.contains_key(&page_id) {
            return Err(PageError::InvalidPage);
        }
        self.flush_frame(page_id);
        Ok(())
    }

    /// Writes a page in memory to disk if it was changed since it was last
    /// written.
    fn flush_frame(&mut self, id: PageId)
        requires
            old(self).wf(),
            old(self).is_resident(id),
        ensures
            final(self).wf(),
            final(self).flushed(old(self), id),
    {
        let taken = self.frames.remove(&id);
        let mut frame = taken.unwrap();
        if frame.is_dirty {
            self.disk.write_page(&frame.page);
            frame.is_dirty = false;
        }
        self.frames.insert(id, frame);
        proof {
            assert(self.frames@ =~= old(self).frames@.insert(id, self.frames@[id]));
            let mid = BufferPool { disk: self.disk, ..*old(self) };
            assert(mid.table_ok());
            self.lemma_one_frame_changed(&mid, id);
            assert forall|x: PageId| #[trigger]
                mid.frame_page(x) == old(self).frame_page(x)
                    && mid.frame_dirty(x) == old(self).frame_dirty(x)
                    && mid.pin_count(x) == old(self).pin_count(x)
                && mid.is_resident(x) == old(self).is_resident(x) by {}
            assert(self.store() =~= old(self).store());
        }
    }

    /// Writes to disk every page in memory that is not pinned and was
    /// changed since it was last written. Pinned pages are passed over.
    pub fn flush_all(&mut self)
        requires
            old(self).wf(),
        ensures
            final(self).wf(),
            final(self).keeps_pinned(old(self)),
            final(self).capacity() == old(self).capacity(),
            final(self).len() == old(self).len(),
            final(self).free_list() == old(self).free_list(),
            final(self).candidates() == old(self).candidates(),
            final(self).store() == old(self).store(),
            forall|id: PageId| #[trigger] final(self).is_resident(id) == old(self).is_resident(id),
            forall|id: PageId|
                final(self).is_resident(id)
                    ==> #[trigger] final(self).frame_page(id) == old(self).frame_page(id),
            forall|id: PageId| #[trigger] final(self).pin_count(id) == old(self).pin_count(id),
            forall|id: PageId|
                #[trigger] final(self).frame_dirty(id) == (old(self).frame_dirty(id)
                    && old(self).pin_count(id) > 0),
            forall|id: PageId|
                old(self).frame_dirty(id) && old(self).pin_count(id) == 0
                    ==> #[trigger] final(self).disk_pages().contains_key(id)
                    && final(self).disk_pages()[id] == old(self).frame_page(id),
            forall|id: PageId|
                !(old(self).frame_dirty(id) && old(self).pin_count(id) == 0)
                    ==> (#[trigger] final(self).disk_pages().contains_key(id)
                    == old(self).disk_pages().contains_key(id))
                    && final(self).disk_pages()[id] == old(self).disk_pages()[id],
    {
        proof {
            assert forall|id: PageId| old(self).pin_count(id) > 0 implies old(self).is_resident(
                id,
            ) by {
                old(self).lemma_pinned_is_resident(id);
            }
        }
        let order = self.strategy.get_evict();
        let n: usize = order.len();
        let mut k: usize = 0;
        while k < n
            invariant
                self.wf(),
                k <= n,
                n == order@.len(),
                order@ == old(self).candidates(),
                old(self).wf(),
                self.capacity() == old(self).capacity(),
                self.len() == old(self).len(),
                self.free_list() == old(self).free_list(),
                self.candidates() == old(self).candidates(),
                self.store() == old(self).store(),
                forall|id: PageId| #[trigger] self.is_resident(id) == old(self).is_resident(id),
                forall|id: PageId|
                    self.is_resident(id) ==> #[trigger] self.frame_page(id) == old(self).frame_page(
                        id,
                    ),
                forall|id: PageId| #[trigger] self.pin_count(id) == old(self).pin_count(id),
                forall|id: PageId|
                    #[trigger] self.frame_dirty(id) == (old(self).frame_dirty(id)
                        && (old(self).pin_count(id) > 0 || !seen(order@, k as int, id))),
                forall|id: PageId|
                    old(self).frame_dirty(id) && old(self).pin_count(id) == 0 && seen(
                        order@,
                        k as int,
                        id,
                    ) ==> #[trigger] self.disk_pages().contains_key(id) && self.disk_pages()[id]
                        == old(self).frame_page(id),
                forall|id: PageId|
                    !(old(self).frame_dirty(id) && old(self).pin_count(id) == 0 && seen(
                        order@,
                        k as int,
                        id,
                    )) ==> (#[trigger] self.disk_pages().contains_key(id)
                        == old(self).disk_pages().contains_key(id)) && self.disk_pages()[id]
                        == old(self).disk_pages()[id],
            decreases n - k,
        {
            let ghost prev = *self;
            let here: PageId = order[k];
            let unpinned = match self.frames.get(&here) {
                Some(frame) => frame.pin_count == 0,
                None => false,
            };
            if unpinned {
                self.flush_frame(here);
            }
            proof {
                assert(unpinned == (prev.is_resident(here) && prev.pin_count(here) == 0));
                assert(self.store() =~= old(self).store());
                assert forall|id: PageId|
                    seen(order@, k + 1, id) == (seen(order@, k as int, id) || id == here) by {
                    if seen(order@, k + 1, id) {
                        let j = choose|j: int| 0 <= j < k + 1 && order@[j] == id;
                        if j < k {
                            assert(seen(order@, k as int, id));
                        }
                    }
                    if seen(order@, k as int, id) {
                        let j = choose|j: int| 0 <= j < k && order@[j] == id;
                        assert(0 <= j < k + 1 && order@[j] == id);
                    }
                    if id == here {
                        assert(0 <= k < k + 1 && order@[k as int] == id);
                    }
                }
                assert forall|id: PageId| #[trigger]
                    self.frame_dirty(id) == (old(self).frame_dirty(id) && (old(self).pin_count(id)
                        > 0 || !seen(order@, k + 1, id))) by {
                    assert(prev.frame_dirty(id) == (old(self).frame_dirty(id)
                        && (old(self).pin_count(id) > 0 || !seen(order@, k as int, id))));
                    assert(prev.pin_count(id) == old(self).pin_count(id));
                    assert(seen(order@, k + 1, id) == (seen(order@, k as int, id) || id == here));
                    old(self).lemma_pinned_is_resident(id);
                }
                assert forall|id: PageId|
                    old(self).frame_dirty(id) && old(self).pin_count(id) == 0 && seen(
                        order@,
                        k + 1,
                        id,
                    ) implies #[trigger] self.disk_pages().contains_key(id)
                    && self.disk_pages()[id] == old(self).frame_page(id) by {
                    assert(seen(order@, k + 1, id) == (seen(order@, k as int, id) || id == here));
                    assert(prev.pin_count(id) == old(self).pin_count(id));
                    old(self).lemma_pinned_is_resident(id);
                    assert(prev.is_resident(id));
                    assert(prev.frame_page(id) == old(self).frame_page(id));
                    assert(prev.frame_dirty(id) == (old(self).frame_dirty(id)
                        && (old(self).pin_count(id) > 0 || !seen(order@, k as int, id))));
                    if seen(order@, k as int, id) {
                        assert(prev.disk_pages().contains_key(id));
                    }
                }
                assert forall|id: PageId|
                    !(old(self).frame_dirty(id) && old(self).pin_count(id) == 0 && seen(
                        order@,
                        k + 1,
                        id,
                    )) implies (#[trigger] self.disk_pages().contains_key(id)
                    == old(self).disk_pages().contains_key(id)) && self.disk_pages()[id]
                    == old(self).disk_pages()[id] by {
                    assert(seen(order@, k + 1, id) == (seen(order@, k as int, id) || id == here));
                    assert(prev.pin_count(id) == old(self).pin_count(id));
                    assert(prev.disk_pages().contains_key(id)
                        == old(self).disk_pages().contains_key(id));
                    assert(prev.frame_dirty(id) == (old(self).frame_dirty(id)
                        && (old(self).pin_count(id) > 0 || !seen(order@, k as int, id))));
                    old(self).lemma_pinned_is_resident(id);
                }
            }
            k += 1;
        }
        proof {
            assert forall|id: PageId| old(self).frame_dirty(id) implies seen(order@, n as int,
                id) by {
                old(self).lemma_pinned_is_resident(id);
                old(self).lemma_resident_is_candidate(id);
                let j = choose|j: int| 0 <= j < order@.len() && order@[j] == id;
                assert(0 <= j < n && order@[j] == id);
            }
        }
    }

    /// Gives up one page in memory: the first one in the order of the
    /// replacement strategy that is not pinned. The page is written to disk
    /// first if it was changed. Fails with `PageLatched`, and changes
    /// nothing, if every page in memory is pinned: the caller then waits
    /// for a pin to be released and tries again.
    pub fn evict_one(&mut self) -> (res: Result<PageId, PageError>)
        requires
            old(self).wf(),
        ensures
            final(self).wf(),
            final(self).keeps_pinned(old(self)),
            match res {
                Ok(id) => old(self).victim() == Some(id) && final(self).evicted(old(self), id),
                Err(e) => e == PageError::PageLatched && old(self).victim() is None
                    && final(self).same_as(old(self)),
            },
    {
        proof {
            old(self).lemma_victim_unpinned();
        }
        let order = self.strategy.get_evict();
        let ghost started = *self;
        proof {
            assert(started.table_ok()) by {
                assert(started.frames == old(self).frames);
            }
            assert(started.same_as(old(self))) by {
                assert(started.store() =~= old(self).store());
            }
        }
        let n: usize = order.len();
        let mut k: usize = 0;
        while k < n
            invariant
                k <= n,
                n == order@.len(),
                order@ == old(self).candidates(),
                *self == started,
                started.wf(),
                started.same_as(old(self)),
                old(self).wf(),
                old(self).victim_from(0) == old(self).victim_from(k as int),
            decreases n - k,
        {
            let candidate: PageId = order[k];
            let unpinned = match self.frames.get(&candidate) {
                Some(frame) => frame.pin_count == 0,
                None => false,
            };
            if unpinned {
                proof {
                    assert(started.is_resident(candidate));
                    assert(started.pin_count(candidate) == 0);
                    assert(old(self).can_evict(candidate));
                }
                let taken = self.frames.remove(&candidate);
                let frame = taken.unwrap();
                if frame.is_dirty {
                    self.disk.write_page(&frame.page);
                }
                proof {
                    self.lemma_frame_removed(&started, candidate);
                    assert(old(self).victim() == Some(candidate));
                    assert(self.store() =~= started.store());
                    assert(self.evicted(&started, candidate));
                    assert(old(self).frame_page(candidate) == started.frame_page(candidate));
                    assert(old(self).frame_dirty(candidate) == started.frame_dirty(candidate));
                    assert(self.evicted(old(self), candidate));
                }
                return Ok(candidate);
            }
            proof {
                if started.is_resident(candidate) {
                    assert(started.pin_count(candidate) != 0);
                }
                assert(!old(self).can_evict(candidate));
            }
            k += 1;
        }
        Err(PageError::PageLatched)
    }
}

impl<
    P: Page,
    D: DiskManager<P>,
    H: DiskManager<HeaderPage>,
    S: ReplacementStrategy,
> BufferPool<P, D, H, S> {
    /// The pool can take one more pin on the page: for a page in memory, its
    /// pins can still be counted; for any other page, there is room in
    /// memory or a page can be given up.
    pub open spec fn admits(&self, page_id: PageId) -> bool {
        if self.is_resident(page_id) {
            self.pin_count(page_id) < usize::MAX
        } else {
            self.has_room()
        }
    }

    /// The pool can take a page into memory: there is room, or a page can be
    /// given up.
    pub open spec fn has_room(&self) -> bool {
        self.len() < self.capacity() || self.victim() is Some
    }

    /// The page that leaves the memory when a page is taken in: none while
    /// there is room.
    pub open spec fn makes_room(&self) -> Option<PageId> {
        if self.len() >= self.capacity() {
            self.victim()
        } else {
            None
        }
    }

    /// The greatest number of pages that the pool holds in memory.
    pub fn get_capacity(&self) -> (capacity: usize)
        ensures
            capacity == self.capacity(),
    {
        self.capacity
    }

    /// The free list that the pool takes its page ids from.
    pub fn get_free_list(&self) -> (free_list: &FreeList<H>)
        ensures
            *free_list == self.free_list(),
    {
        &self.free_list
    }

    /// The disk that the pool reads its pages from.
    pub fn get_disk(&self) -> (disk: &D)
        ensures
            disk.pages() == self.disk_pages(),
    {
        &self.disk
    }

    /// Gives the disk of the pages and the free list back; what was not
    /// flushed is lost.
    pub fn into_parts(self) -> (parts: (D, FreeList<H>))
        ensures
            parts.0.pages() == self.disk_pages(),
            parts.1 == self.free_list(),
    {
        (self.disk, self.free_list)
    }

    /// Writes the changed header pages of the free list to disk.
    pub fn flush_free_list(&mut self)
        requires
            old(self).wf(),
        ensures
            final(self).wf(),
            final(self).same_pages(old(self)),
            final(self).candidates() == old(self).candidates(),
            final(self).store() == old(self).store(),
            final(self).free_list().persisted(),
            final(self).free_list().same_marks(&old(self).free_list()),
            forall|k: PageId| !#[trigger] final(self).free_list().dirty(k),
    {
        self.free_list.flush_all();
        proof {
            assert(self.store() =~= old(self).store());
        }
    }

    /// Pins a page and returns a guard for it. A page that is not in memory
    /// is read from disk first; where the memory is full, the page that the
    /// replacement strategy names gives way. Fails with `InvalidPage` if
    /// the page is neither in memory nor on disk, and with `PageLatched` if
    /// no page can give way, or the pins cannot be counted any more.
    pub fn fetch_page(&mut self, page_id: PageId) -> (res: Result<PageGuard, PageError>)
        requires
            old(self).wf(),
        ensures
            final(self).wf(),
            final(self).keeps_pinned(old(self)),
            final(self).capacity() == old(self).capacity(),
            final(self).free_list() == old(self).free_list(),
            final(self).store() == old(self).store(),
            match res {
                Ok(guard) => {
                    &&& guard.page_id() == page_id
                    &&& !guard.wrote()
                    &&& old(self).store().contains_key(page_id)
                    &&& old(self).admits(page_id)
                    &&& final(self).candidates() == old(self).touched(page_id)
                    &&& final(self).is_resident(page_id)
                    &&& final(self).len() == (if old(self).is_resident(page_id)
                        || old(self).makes_room() is Some {
                        old(self).len()
                    } else {
                        old(self).len() + 1
                    })
                    &&& final(self).frame_page(page_id) == old(self).store()[page_id]
                    &&& forall|id: PageId|
                        #[trigger] final(self).pin_count(id) == old(self).pin_count(id) + (if id
                            == page_id {
                            1nat
                        } else {
                            0nat
                        })
                    &&& forall|id: PageId|
                        id != page_id
                            ==> #[trigger] final(self).is_resident(id)
                            == (old(self).is_resident(id)
                            && (old(self).is_resident(page_id)
                            || old(self).makes_room() != Some(id)))
                    &&& forall|id: PageId|
                        final(self).is_resident(id) && id != page_id
                            ==> #[trigger] final(self).frame_page(id) == old(self).frame_page(id)
                    &&& forall|id: PageId|
                        final(self).is_resident(id) ==> #[trigger] final(self).frame_dirty(id)
                            == old(self).frame_dirty(id)
                },
                Err(e) => {
                    &&& final(self).same_as(old(self))
                    &&& e == PageError::InvalidPage || e == PageError::PageLatched
                    &&& e == PageError::InvalidPage <==> !old(self).store().contains_key(page_id)
                    &&& e == PageError::PageLatched <==> old(self).store().contains_key(page_id)
                        && !old(self).admits(page_id)
                },
            },
    {
        proof {
            old(self).lemma_victim_unpinned();
            assert forall|id: PageId| old(self).pin_count(id) > 0 implies old(self).is_resident(
                id,
            ) by {
                old(self).lemma_pinned_is_resident(id);
            }
        }
        let pins = match self.frames.get(&page_id) {
            Some(frame) => Some(frame.pin_count),
            None => None,
        };
        match pins {
            Some(count) => {
                if count == usize::MAX {
                    return Err(PageError::PageLatched);
                }
                let taken = self.frames.remove(&page_id);
                let mut frame = taken.unwrap();
                frame.pin_count = frame.pin_count + 1;
                self.frames.insert(page_id, frame);
                proof {
                    assert(self.frames@ =~= old(self).frames@.insert(page_id,
                        self.frames@[page_id]));
                    self.lemma_one_frame_changed(old(self), page_id);
                    assert(self.store() =~= old(self).store());
                }
                let ghost mid = *self;
                self.strategy.update(page_id);
                proof {
                    self.lemma_strategy_changed(&mid);
                }
                return Ok(PageGuard { page_id, is_dirty: false });
            },
            None => {},
        }
        let page = match self.disk.read_page(page_id) {
            Some(page) => page,
            None => {
                return Err(PageError::InvalidPage);
            },
        };
        if self.frames.len() >= self.capacity {
            match self.evict_one() {
                Ok(_) => {},
                Err(_) => {
                    return Err(PageError::PageLatched);
                },
            }
        }
        let ghost roomy = *self;
        self.frames.insert(page_id, BufferFrame { page, is_dirty: false, pin_count: 1 });
        self.strategy.update(page_id);
        proof {
            assert(roomy.touched(page_id) == old(self).touched(page_id));
            self.lemma_frame_added(&roomy, page_id);
            old(self).lemma_victim_from(0);
            assert(self.store() =~= old(self).store());
            assert forall|id: PageId| #[trigger]
                self.pin_count(id) == old(self).pin_count(id) + (if id == page_id {
                    1nat
                } else {
                    0nat
                }) by {
                assert(roomy.pin_count(id) == old(self).pin_count(id));
            }
        }
        Ok(PageGuard { page_id, is_dirty: false })
    }

    /// What follows when only the replacement strategy changed, and knows at
    /// least the pages it knew.
    proof fn lemma_strategy_changed(&self, before: &Self)
        requires
            before.table_ok(),
            self.frames == before.frames,
            self.capacity == before.capacity,
            self.disk == before.disk,
            self.free_list == before.free_list,
            forall|id: PageId|
                before.strategy.candidates().contains(id)
                    ==> self.strategy.candidates().contains(id),
        ensures
            self.table_ok(),
            self.same_pages(before),
            self.store() == before.store(),
            self.free_list() == before.free_list(),
    {
        assert(self.store() =~= before.store());
    }

    /// A page has as many pins as can be counted: no pin can be added to it.
    pub open spec fn saturated(&self) -> bool {
        exists|id: PageId| #[trigger] self.pin_count(id) == usize::MAX
    }

    /// The page is in memory and stays there when a page is taken in.
    pub open spec fn stays(&self, id: PageId) -> bool {
        self.is_resident(id) && self.makes_room() != Some(id)
    }

    /// Every page in memory is marked as in use in the free list.
    pub open spec fn in_use_only(&self) -> bool {
        forall|id: PageId| #[trigger] self.is_resident(id) ==> self.free_list().allocated(id as int)
    }

    /// Tells whether a page has as many pins as can be counted.
    fn any_saturated(&self) -> (found: bool)
        requires
            self.wf(),
        ensures
            found == self.saturated(),
    {
        let order = self.strategy.get_evict();
        let n: usize = order.len();
        let mut k: usize = 0;
        while k < n
            invariant
                self.wf(),
                n == order@.len(),
                order@ == self.candidates(),
                k <= n,
                forall|j: int| 0 <= j < k ==> self.pin_count(#[trigger] order@[j]) != usize::MAX,
            decreases n - k,
        {
            let full = match self.frames.get(&order[k]) {
                Some(frame) => frame.pin_count == usize::MAX,
                None => false,
            };
            if full {
                proof {
                    assert(self.pin_count(order@[k as int]) == usize::MAX);
                }
                return true;
            }
            k += 1;
        }
        proof {
            assert forall|id: PageId| #[trigger] self.pin_count(id) != usize::MAX by {
                if self.frames@.contains_key(id) {
                    self.lemma_resident_is_candidate(id);
                    let j = choose|j: int| 0 <= j < order@.len() && order@[j] == id;
                    assert(self.pin_count(order@[j]) != usize::MAX);
                }
            }
        }
        false
    }

    /// Takes a page id that is not in use from the free list and puts the
    /// new empty page of that id into memory, pinned and counted as changed.
    /// Where the memory is full, the page that the replacement strategy
    /// names gives way first. A page of that id that is in memory already
    /// stays as it is and gets one more pin. Fails with `PageLatched`, and
    /// changes nothing, if the memory is full and no page can give way, or
    /// if a page has as many pins as can be counted.
    pub fn create_page(&mut self) -> (res: Result<PageGuard, PageError>)
        requires
            old(self).wf(),
            old(self).free_list().has_id(),
        ensures
            final(self).wf(),
            final(self).keeps_pinned(old(self)),
            final(self).capacity() == old(self).capacity(),
            match res {
                Ok(guard) => {
                    let id = guard.page_id();
                    &&& old(self).has_room()
                    &&& !old(self).saturated()
                    &&& !guard.wrote()
                    &&& final(self).candidates() == old(self).touched(id)
                    &&& id >= 1
                    &&& old(self).free_list().picks(id)
                    &&& !old(self).free_list().allocated(id as int)
                    &&& forall|p: int|
                        final(self).free_list().allocated(p) == (p == id
                            || old(self).free_list().allocated(p))
                    &&& final(self).free_list().head() >= old(self).free_list().head()
                    &&& final(self).free_list().head() <= old(self).free_list().head() + 1
                    &&& final(self).free_list().disk_pages() == old(self).free_list().disk_pages()
                    &&& final(self).is_resident(id)
                    &&& final(self).len() == old(self).len() - (if old(self).makes_room() is Some {
                        1int
                    } else {
                        0int
                    }) + (if old(self).stays(id) {
                        0int
                    } else {
                        1int
                    })
                    &&& final(self).frame_page(id) == (if old(self).stays(id) {
                        old(self).frame_page(id)
                    } else {
                        P::spec_new(id)
                    })
                    &&& final(self).frame_dirty(id) == (old(self).stays(id)
                        ==> old(self).frame_dirty(
                        id,
                    ))
                    &&& final(self).pin_count(id) == (if old(self).stays(id) {
                        old(self).pin_count(id) + 1
                    } else {
                        1
                    })
                    &&& final(self).store() == (if old(self).stays(id) {
                        old(self).store()
                    } else {
                        old(self).store().insert(id, P::spec_new(id))
                    })
                    &&& forall|j: PageId|
                        j != id ==> #[trigger] final(self).pin_count(j) == old(self).pin_count(j)
                    &&& forall|j: PageId|
                        j != id ==> #[trigger] final(self).is_resident(j) == (old(self).is_resident(
                            j,
                        ) && old(self).makes_room() != Some(j))
                    &&& forall|j: PageId|
                        final(self).is_resident(j) && j != id ==> #[trigger] final(self).frame_page(
                            j,
                        ) == old(self).frame_page(j)
                },
                Err(e) => e == PageError::PageLatched && (!old(self).has_room()
                    || old(self).saturated()) && final(self).same_as(old(self)),
            },
    {
        proof {
            old(self).lemma_victim_unpinned();
            assert forall|id: PageId| old(self).pin_count(id) > 0 implies old(self).is_resident(
                id,
            ) by {
                old(self).lemma_pinned_is_resident(id);
            }
        }
        if self.any_saturated() {
            return Err(PageError::PageLatched);
        }
        if self.frames.len() >= self.capacity {
            match self.evict_one() {
                Ok(_) => {},
                Err(_) => {
                    return Err(PageError::PageLatched);
                },
            }
        }
        let ghost roomy = *self;
        let id = self.free_list.allocate(NO_FLUSH);
        let page = P::new(id);
        let ghost marked = *self;
        proof {
            assert(marked.table_ok()) by {
                assert(marked.frames == roomy.frames && marked.disk == roomy.disk
                    && marked.strategy == roomy.strategy);
            }
            assert(marked.same_pages(&roomy));
            assert(marked.store() =~= roomy.store());
        }
        match self.frames.remove(&id) {
            Some(frame) => {
                let mut frame = frame;
                proof {
                    assert(marked.is_resident(id));
                    assert(roomy.is_resident(id));
                    assert(old(self).is_resident(id) && old(self).makes_room() != Some(id));
                    assert(marked.pin_count(id) == roomy.pin_count(id));
                    assert(roomy.pin_count(id) == old(self).pin_count(id));
                    assert(frame.pin_count == marked.pin_count(id));
                    assert(marked.frame_page(id) == frame.page@);
                    assert(marked.frame_dirty(id) == frame.is_dirty);
                    assert(marked.frame_page(id) == roomy.frame_page(id));
                    assert(roomy.frame_page(id) == old(self).frame_page(id));
                    assert(marked.frame_dirty(id) == roomy.frame_dirty(id));
                    assert(roomy.frame_dirty(id) == old(self).frame_dirty(id));
                }
                frame.pin_count = frame.pin_count + 1;
                self.frames.insert(id, frame);
                proof {
                    assert(self.frames@ =~= marked.frames@.insert(id, self.frames@[id]));
                    self.lemma_one_frame_changed(&marked, id);
                    assert(self.frame_page(id) == old(self).frame_page(id));
                    assert(self.frame_dirty(id) == old(self).frame_dirty(id));
                }
            },
            None => {
                self.frames.insert(id, BufferFrame { page, is_dirty: true, pin_count: 1 });
                proof {
                    assert(self.frames@ =~= marked.frames@.insert(id, self.frames@[id]));
                }
            },
        }
        let ghost placed = *self;
        self.strategy.update(id);
        proof {
            assert(roomy.touched(id) == old(self).touched(id));
            assert(placed.strategy == roomy.strategy);
            if marked.is_resident(id) {
                self.lemma_strategy_changed(&placed);
            } else {
                self.lemma_frame_added(&marked, id);
            }
            old(self).lemma_victim_from(0);
            assert(marked.is_resident(id) == old(self).stays(id));
            if marked.is_resident(id) {
                assert(self.store() =~= old(self).store());
                assert(self.frame_page(id) == placed.frame_page(id));
                assert(self.frame_dirty(id) == placed.frame_dirty(id));
            } else {
                assert(self.store() =~= old(self).store().insert(id, P::spec_new(id)));
            }
            assert forall|j: PageId| j != id implies #[trigger] self.pin_count(j)
                == old(self).pin_count(j) by {
                if marked.is_resident(id) {
                    assert(placed.pin_count(j) == marked.pin_count(j));
                    assert(self.pin_count(j) == placed.pin_count(j));
                } else {
                    assert(self.pin_count(j) == marked.pin_count(j));
                }
                assert(marked.pin_count(j) == roomy.pin_count(j));
                assert(roomy.pin_count(j) == old(self).pin_count(j));
            }
        }
        Ok(PageGuard { page_id: id, is_dirty: false })
    }

    /// Marks a page id as free in the free list and takes the page out of
    /// memory if it is there; nothing of it is written. Fails with
    /// `PageLatched` if the page is pinned, and with `InvalidPage` if the
    /// id is not in use; nothing changes then.
    pub fn free_page(&mut self, page_id: PageId, flush: bool) -> (res: Result<(), PageError>)
        requires
            old(self).wf(),
        ensures
            final(self).wf(),
            final(self).keeps_pinned(old(self)),
            final(self).capacity() == old(self).capacity(),
            final(self).candidates() == old(self).candidates(),
            final(self).disk_pages() == old(self).disk_pages(),
            final(self).free_list().head() == old(self).free_list().head(),
            final(self).len() == (if res is Ok && old(self).is_resident(page_id) {
                old(self).len() - 1
            } else {
                old(self).len() as int
            }),
            forall|j: PageId|
                j != page_id ==> #[trigger] final(self).is_resident(j) == old(self).is_resident(j),
            forall|j: PageId|
                j != page_id && final(self).is_resident(j) ==> #[trigger] final(self).frame_page(j)
                    == old(self).frame_page(j),
            forall|j: PageId|
                j != page_id ==> #[trigger] final(self).frame_dirty(j) == old(self).frame_dirty(j),
            forall|j: PageId|
                j != page_id ==> #[trigger] final(self).pin_count(j) == old(self).pin_count(j),
            forall|j: PageId|
                j != page_id
                    ==> (#[trigger] final(self).store().contains_key(j))
                    == old(self).store().contains_key(j),
            forall|j: PageId|
                j != page_id && old(self).store().contains_key(j)
                    ==> #[trigger] final(self).store()[j] == old(self).store()[j],
            match res {
                Ok(()) => {
                    &&& old(self).pin_count(page_id) == 0
                    &&& old(self).free_list().allocated(page_id as int)
                    &&& final(self).free_list().wf()
                    &&& final(self).free_list().disk_pages() == (if flush {
                        old(self).free_list().disk_pages().insert(
                            header_of(page_id as int) as PageId,
                            final(self).free_list().header(header_of(page_id as int) as PageId),
                        )
                    } else {
                        old(self).free_list().disk_pages()
                    })
                    &&& final(self).free_list().dirty(header_of(page_id as int) as PageId) == !flush
                    &&& forall|p: int|
                        final(self).free_list().allocated(p) == (p != page_id
                            && old(self).free_list().allocated(p))
                    &&& !final(self).is_resident(page_id)
                    &&& final(self).pin_count(page_id) == 0
                },
                Err(e) => {
                    &&& final(self).same_pages(old(self))
                    &&& final(self).store() == old(self).store()
                    &&& final(self).free_list().same_marks(&old(self).free_list())
                    &&& e == PageError::PageLatched || e == PageError::InvalidPage
                    &&& e == PageError::PageLatched <==> old(self).pin_count(page_id) > 0
                    &&& e == PageError::InvalidPage
                        <==> old(self).pin_count(page_id) == 0
                        && !old(self).free_list().allocated(page_id as int)
                },
            },
    {
        proof {
            assert forall|id: PageId| old(self).pin_count(id) > 0 implies old(self).is_resident(
                id,
            ) by {
                old(self).lemma_pinned_is_resident(id);
            }
        }
        let place = match self.frames.get(&page_id) {
            Some(frame) => Some(frame.pin_count),
            None => None,
        };
        match place {
            Some(pins) => {
                if pins > 0 {
                    proof {
                        assert(self.store() =~= old(self).store());
                    }
                    return Err(PageError::PageLatched);
                }
            },
            None => {},
        }
        let freed = self.free_list.deallocate(page_id, flush);
        let ghost marked = *self;
        proof {
            assert(marked.table_ok()) by {
                assert(marked.frames == old(self).frames && marked.disk == old(self).disk
                    && marked.strategy == old(self).strategy);
            }
            assert(marked.same_pages(old(self)));
            assert(marked.store() =~= old(self).store());
        }
        match freed {
            Ok(()) => {},
            Err(_) => {
                proof {
                    self.free_list().lemma_same_books(&old(self).free_list());
                }
                return Err(PageError::InvalidPage);
            },
        }
        match place {
            Some(_) => {
                self.frames.remove(&page_id);
                proof {
                    self.lemma_frame_removed(&marked, page_id);
                }
            },
            None => {},
        }
        proof {
            assert forall|j: PageId| j != page_id implies (#[trigger] self.store().contains_key(j))
                == old(self).store().contains_key(j) && (old(self).store().contains_key(j)
                ==> self.store()[j] == old(self).store()[j]) by {
                assert(self.is_resident(j) == marked.is_resident(j));
                assert(marked.is_resident(j) == old(self).is_resident(j));
                if self.is_resident(j) {
                    assert(self.frame_page(j) == marked.frame_page(j));
                    assert(marked.frame_page(j) == old(self).frame_page(j));
                }
            }
        }
        Ok(())
    }
}

} // verus!
