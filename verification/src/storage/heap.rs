use crate::storage::bufferpool::BufferPool;
use crate::storage::disk_manager::DiskManager;
use crate::storage::free_list::can_grow;
use crate::storage::page::data_page::{lemma_empty_wf, DataPage, DataPageView, PAYLOAD_SIZE};
use crate::storage::page::header_page::HeaderPage;
use crate::storage::page::index_page::RecordId;
use crate::storage::page::page::Page;
use crate::storage::replacement_strategy::ReplacementStrategy;
use crate::types::{MAX_SLOTS, NO_FLUSH, PageId, SlotId};
use vstd::prelude::*;

verus! {

/// The data pages of a pool by id.
pub type DataStore = Map<PageId, DataPageView>;

/// The pages `pages` are the heap that starts at `first`: each page names
/// the next one, and the last one names none.
pub open spec fn chain(s: DataStore, first: PageId, pages: Seq<PageId>) -> bool
    decreases pages.len(),
{
    if pages.len() == 0 {
        first == 0
    } else {
        &&& first != 0
        &&& pages[0] == first
        &&& s.contains_key(first)
        &&& s[first].id == first
        &&& chain(s, s[first].next_id, pages.drop_first())
    }
}

/// The page that is reached from `id` by following the next ids `hops` times.
pub open spec fn after_hops(s: DataStore, id: PageId, hops: nat) -> PageId
    decreases hops,
{
    if hops == 0 {
        id
    } else {
        after_hops(s, s[id].next_id, (hops - 1) as nat)
    }
}

/// A walk along the next ids of a heap goes through the pages of the heap
/// in their order and comes to the end, the id 0, after as many hops as
/// the heap has pages.
pub proof fn lemma_chain_ends(s: DataStore, first: PageId, pages: Seq<PageId>, hops: nat)
    requires
        chain(s, first, pages),
        hops <= pages.len(),
    ensures
        hops < pages.len()
            ==> after_hops(s, first, hops) == pages[hops as int] && pages[hops as int]
            != 0,
        hops == pages.len() ==> after_hops(s, first, hops) == 0,
    decreases hops,
{
    if hops > 0 {
        lemma_chain_ends(s, s[first].next_id, pages.drop_first(), (hops - 1) as nat);
        if hops < pages.len() {
            assert(pages.drop_first()[hops - 1] == pages[hops as int]);
        }
    }
}

/// A heap stays the heap it is when a page that is none of its pages is
/// written.
pub proof fn lemma_chain_keep(
    s: DataStore,
    first: PageId,
    pages: Seq<PageId>,
    y: PageId,
    v: DataPageView,
)
    requires
        chain(s, first, pages),
        !pages.contains(y),
    ensures
        chain(s.insert(y, v), first, pages),
    decreases pages.len(),
{
    if pages.len() > 0 {
        assert(pages[0] == first);
        let rest = pages.drop_first();
        assert forall|i: int| 0 <= i < rest.len() implies rest[i] != y by {
            assert(pages[i + 1] == rest[i]);
        }
        lemma_chain_keep(s, s[first].next_id, rest, y, v);
    }
}

/// A heap whose pages are all different stays the heap it is when one of
/// its pages is written and goes on naming the page it named.
pub proof fn lemma_chain_rewrite(
    s: DataStore,
    first: PageId,
    pages: Seq<PageId>,
    k: int,
    v: DataPageView,
)
    requires
        chain(s, first, pages),
        pages.no_duplicates(),
        0 <= k < pages.len(),
        v.id == pages[k],
        v.next_id == s[pages[k]].next_id,
    ensures
        chain(s.insert(pages[k], v), first, pages),
    decreases pages.len(),
{
    let rest = pages.drop_first();
    assert(rest.no_duplicates()) by {
        assert forall|i: int, j: int| 0 <= i < j < rest.len() implies rest[i] != rest[j] by {
            assert(pages[i + 1] != pages[j + 1]);
        }
    }
    if k == 0 {
        assert(!rest.contains(first)) by {
            if rest.contains(first) {
                let i = choose|i: int| 0 <= i < rest.len() && rest[i] == first;
                assert(pages[i + 1] == pages[0]);
            }
        }
        lemma_chain_keep(s, s[first].next_id, rest, first, v);
    } else {
        assert(rest[k - 1] == pages[k]);
        assert(pages[k] != pages[0]);
        lemma_chain_rewrite(s, s[first].next_id, rest, k - 1, v);
    }
}

/// A heap whose pages are all different gets one page longer when its last
/// page is made to name a page that is none of its pages and names none.
pub proof fn lemma_chain_extend(
    s: DataStore,
    first: PageId,
    pages: Seq<PageId>,
    tail: DataPageView,
    fresh: PageId,
)
    requires
        chain(s, first, pages),
        pages.no_duplicates(),
        pages.len() >= 1,
        !pages.contains(fresh),
        fresh != 0,
        s.contains_key(fresh),
        s[fresh].id == fresh,
        s[fresh].next_id == 0,
        tail.id == pages.last(),
        tail.next_id == fresh,
    ensures
        chain(s.insert(pages.last(), tail), first, pages.push(fresh)),
    decreases pages.len(),
{
    let rest = pages.drop_first();
    let s2 = s.insert(pages.last(), tail);
    assert(pages.push(fresh).drop_first() =~= rest.push(fresh));
    if pages.len() == 1 {
        assert(pages.last() == first);
        assert(chain(s, s[first].next_id, rest));
        assert(rest.push(fresh) =~= seq![fresh]);
        assert(seq![fresh].drop_first() =~= Seq::<PageId>::empty());
        assert(chain(s2, 0, Seq::<PageId>::empty()));
        assert(chain(s2, fresh, seq![fresh]));
    } else {
        assert(rest.no_duplicates()) by {
            assert forall|i: int, j: int| 0 <= i < j < rest.len() implies rest[i] != rest[j] by {
                assert(pages[i + 1] != pages[j + 1]);
            }
        }
        assert(!rest.contains(fresh)) by {
            if rest.contains(fresh) {
                let i = choose|i: int| 0 <= i < rest.len() && rest[i] == fresh;
                assert(pages[i + 1] == fresh);
            }
        }
        assert(rest.last() == pages.last());
        assert(pages[0] != pages[pages.len() - 1]);
        lemma_chain_extend(s, s[first].next_id, rest, tail, fresh);
    }
}

/// A heap is the same heap in every store that holds its pages as they are.
pub proof fn lemma_chain_agree(s: DataStore, s2: DataStore, first: PageId, pages: Seq<PageId>)
    requires
        chain(s, first, pages),
        forall|i: int|
            0 <= i < pages.len() ==> s2.contains_key(#[trigger] pages[i]) && s2[pages[i]]
                == s[pages[i]],
    ensures
        chain(s2, first, pages),
    decreases pages.len(),
{
    if pages.len() > 0 {
        assert(pages[0] == first);
        let rest = pages.drop_first();
        assert forall|i: int| 0 <= i < rest.len() implies s2.contains_key(#[trigger] rest[i])
            && s2[rest[i]] == s[rest[i]] by {
            assert(pages[i + 1] == rest[i]);
        }
        lemma_chain_agree(s, s2, s[first].next_id, rest);
    }
}

/// The part of a heap from one of its pages on is a heap.
pub proof fn lemma_chain_from(s: DataStore, first: PageId, pages: Seq<PageId>, k: int)
    requires
        chain(s, first, pages),
        0 <= k <= pages.len(),
    ensures
        chain(s, after_hops(s, first, k as nat), pages.skip(k)),
        k < pages.len() ==> after_hops(s, first, k as nat) == pages[k],
    decreases k,
{
    if k == 0 {
        assert(pages.skip(0) =~= pages);
    } else {
        lemma_chain_from(s, s[first].next_id, pages.drop_first(), k - 1);
        assert(pages.drop_first().skip(k - 1) =~= pages.skip(k));
        if k < pages.len() {
            assert(pages.drop_first()[k - 1] == pages[k]);
        }
    }
}

/// The record fits the page: the page has a slot and room left for it.
pub open spec fn fits(page: DataPageView, len: nat) -> bool {
    page.next_slot < MAX_SLOTS && len <= page.free_start
}

/// The place of the first page of the heap from place `from` on that the
/// record fits.
pub open spec fn first_fit(s: DataStore, pages: Seq<PageId>, len: nat, from: int) -> Option<int>
    decreases pages.len() - from,
{
    if from < 0 || from >= pages.len() {
        None
    } else if fits(s[pages[from]], len) {
        Some(from)
    } else {
        first_fit(s, pages, len, from + 1)
    }
}

/// The records of the pages of a heap before place `upto`, page by page in
/// the order of the heap and slot by slot within a page, each with the
/// record id that names it.
pub open spec fn heap_rows(s: DataStore, pages: Seq<PageId>, upto: int) -> Seq<(RecordId, Seq<u8>)>
    decreases upto,
{
    if upto <= 0 {
        Seq::empty()
    } else {
        heap_rows(s, pages, upto - 1) + page_rows(s[pages[upto - 1]], MAX_SLOTS as int)
    }
}

/// The records of a page in the slots below `upto`, each with its record id.
pub open spec fn page_rows(page: DataPageView, upto: int) -> Seq<(RecordId, Seq<u8>)> {
    page.records_below(upto).map(
        |i: int, row: (SlotId, Seq<u8>)| (RecordId { page_id: page.id, slot_id: row.0 }, row.1),
    )
}

/// What a heap needs of its buffer pool: it can always take a page in,
/// because no page stays pinned between the steps of the heap.
pub open spec fn pool_ready<D: DiskManager<DataPage>, H: DiskManager<HeaderPage>,
    S: ReplacementStrategy>(
    pool: &BufferPool<DataPage, D, H, S>,
) -> bool {
    pool.wf() && pool.unpinned() && pool.capacity() >= 1
}

/// The page ids that the free list of the pool marks as in use.
pub open spec fn ids_in_use<D: DiskManager<DataPage>, H: DiskManager<HeaderPage>,
    S: ReplacementStrategy>(
    pool: &BufferPool<DataPage, D, H, S>,
) -> Set<PageId> {
    Set::new(|p: PageId| pool.free_list().allocated(p as int))
}

/// Reads a copy of a page of the store.
fn load<D: DiskManager<DataPage>, H: DiskManager<HeaderPage>, S: ReplacementStrategy>(
    pool: &mut BufferPool<DataPage, D, H, S>,
    id: PageId,
) -> (page: DataPage)
    requires
        pool_ready(old(pool)),
        old(pool).store().contains_key(id),
    ensures
        pool_ready(final(pool)),
        final(pool).store() == old(pool).store(),
        final(pool).free_list() == old(pool).free_list(),
        final(pool).capacity() == old(pool).capacity(),
        page@ == old(pool).store()[id],
        page.wf(),
        page@.id == id,
{
    proof {
        if old(pool).len() > 0 {
            old(pool).lemma_unpinned_has_victim();
        }
    }
    match pool.fetch_page(id) {
        Ok(guard) => {
            let page = *guard.read(&*pool);
            guard.release(pool);
            page
        },
        Err(_) => {
            assert(false);
            DataPage::new(id)
        },
    }
}

/// Puts a page in the place of the page of the store with its id.
fn save<D: DiskManager<DataPage>, H: DiskManager<HeaderPage>, S: ReplacementStrategy>(
    pool: &mut BufferPool<DataPage, D, H, S>,
    page: DataPage,
)
    requires
        pool_ready(old(pool)),
        old(pool).store().contains_key(page@.id),
        page.wf(),
    ensures
        pool_ready(final(pool)),
        final(pool).store() == old(pool).store().insert(page@.id, page@),
        final(pool).free_list() == old(pool).free_list(),
        final(pool).capacity() == old(pool).capacity(),
{
    proof {
        if old(pool).len() > 0 {
            old(pool).lemma_unpinned_has_victim();
        }
    }
    let id = page.get_id();
    match pool.fetch_page(id) {
        Ok(guard) => {
            let mut guard = guard;
            guard.write(pool, page);
            guard.release(pool);
        },
        Err(_) => {
            assert(false);
        },
    }
}

/// Takes a new page from the pool: an empty page under an id that was not
/// in use.
fn create<D: DiskManager<DataPage>, H: DiskManager<HeaderPage>, S: ReplacementStrategy>(
    pool: &mut BufferPool<DataPage, D, H, S>,
) -> (id: PageId)
    requires
        pool_ready(old(pool)),
        can_grow(old(pool).free_list().head()),
    ensures
        pool_ready(final(pool)),
        final(pool).capacity() == old(pool).capacity(),
        id != 0,
        !ids_in_use(old(pool)).contains(id),
        ids_in_use(final(pool)) == ids_in_use(old(pool)).insert(id),
        final(pool).store() == old(pool).store().insert(id, DataPageView::empty(id)),
        final(pool).free_list().head() <= old(pool).free_list().head() + 1,
{
    proof {
        if old(pool).len() > 0 {
            old(pool).lemma_unpinned_has_victim();
        }
    }
    proof {
        assert(!old(pool).saturated());
    }
    match pool.create_page() {
        Ok(guard) => {
            let id = guard.get_page_id();
            let mut guard = guard;
            let ghost made = *pool;
            guard.write(pool, DataPage::new(id));
            guard.release(pool);
            proof {
                assert(ids_in_use(pool) =~= ids_in_use(old(pool)).insert(id));
                assert(made.store().insert(id,
                    DataPageView::empty(id)) =~= old(pool).store().insert(
                    id,
                    DataPageView::empty(id),
                ));
            }
            id
        },
        Err(_) => {
            assert(false);
            0
        },
    }
}

/// The records of a table: a chain of data pages that grows at its end.
pub struct TableHeap {
    first_page_id: PageId,
    pages: Ghost<Seq<PageId>>,
}

impl TableHeap {
    /// The first page of the heap.
    pub closed spec fn first(&self) -> PageId {
        self.first_page_id
    }

    /// The pages of the heap in their order.
    pub closed spec fn pages(&self) -> Seq<PageId> {
        self.pages@
    }

    /// The invariant of a heap in a pool: its pages are at least one, all
    /// different and all in use, and chained from the first one to the end.
    pub open spec fn wf<D: DiskManager<DataPage>, H: DiskManager<HeaderPage>,
        S: ReplacementStrategy>(
        &self,
        pool: &BufferPool<DataPage, D, H, S>,
    ) -> bool {
        &&& pool_ready(pool)
        &&& self.pages().len() >= 1
        &&& self.pages().no_duplicates()
        &&& chain(pool.store(), self.first(), self.pages())
        &&& forall|i: int| 0 <= i < self.pages().len() ==> ids_in_use(pool).contains(
            #[trigger] self.pages()[i],
        )
    }

    /// Acyclicity: a walk along the next ids from the first page of a heap
    /// comes to the end, the id 0, after as many hops as the heap has
    /// pages, and not before; the pages it goes through are all different
    /// and all in use, so that their number is at most the number of pages
    /// in use.
    pub proof fn lemma_walk_ends<D: DiskManager<DataPage>, H: DiskManager<HeaderPage>,
        S: ReplacementStrategy>(
        &self,
        pool: &BufferPool<DataPage, D, H, S>,
        hops: nat,
    )
        requires
            self.wf(pool),
            hops <= self.pages().len(),
        ensures
            hops < self.pages().len() ==> after_hops(pool.store(), self.first(), hops) != 0,
            hops == self.pages().len() ==> after_hops(pool.store(), self.first(), hops) == 0,
            self.pages().no_duplicates(),
            forall|i: int| 0 <= i < self.pages().len() ==> ids_in_use(pool).contains(
                #[trigger] self.pages()[i],
            ),
    {
        lemma_chain_ends(pool.store(), self.first(), self.pages(), hops);
    }

    /// The first page of the heap.
    pub fn get_first_page_id(&self) -> (first: PageId)
        ensures
            first == self.first(),
    {
        self.first_page_id
    }

    /// Makes a heap of one new empty page.
    pub fn create<D: DiskManager<DataPage>, H: DiskManager<HeaderPage>, S: ReplacementStrategy>(
        pool: &mut BufferPool<DataPage, D, H, S>,
    ) -> (heap: TableHeap)
        requires
            pool_ready(old(pool)),
            can_grow(old(pool).free_list().head()),
        ensures
            heap.wf(final(pool)),
            heap.pages() == seq![heap.first()],
            final(pool).capacity() == old(pool).capacity(),
            final(pool).free_list().head() <= old(pool).free_list().head() + 1,
            !ids_in_use(old(pool)).contains(heap.first()),
            ids_in_use(final(pool)) == ids_in_use(old(pool)).insert(heap.first()),
            final(pool).store() == old(pool).store().insert(
                heap.first(),
                DataPageView::empty(heap.first()),
            ),
    {
        let id = create(pool);
        let ghost pages = seq![id];
        let heap = TableHeap { first_page_id: id, pages: Ghost(pages) };
        proof {
            assert(seq![id].drop_first() =~= Seq::<PageId>::empty());
            assert(chain(pool.store(), 0, Seq::<PageId>::empty()));
        }
        heap
    }

    /// The heap that starts at a given page of the pool.
    pub fn attach<D: DiskManager<DataPage>, H: DiskManager<HeaderPage>, S: ReplacementStrategy>(
        pool: &BufferPool<DataPage, D, H, S>,
        first_page_id: PageId,
    ) -> (heap: TableHeap)
        requires
            pool_ready(pool),
            exists|pages: Seq<PageId>|
                {
                    &&& pages.len() >= 1
                    &&& pages.no_duplicates()
                    &&& #[trigger] chain(pool.store(), first_page_id, pages)
                    &&& forall|i: int|
                        0 <= i < pages.len() ==> ids_in_use(pool).contains(#[trigger] pages[i])
                },
        ensures
            heap.wf(pool),
            heap.first() == first_page_id,
    {
        let ghost pages = choose|pages: Seq<PageId>|
            {
                &&& pages.len() >= 1
                &&& pages.no_duplicates()
                &&& #[trigger] chain(pool.store(), first_page_id, pages)
                &&& forall|i: int|
                    0 <= i < pages.len() ==> ids_in_use(pool).contains(#[trigger] pages[i])
            };
        TableHeap { first_page_id, pages: Ghost(pages) }
    }
}

impl TableHeap {
    /// The store after a record was put into a heap: into the first page
    /// that it fits, or, where it fits none, into a new page that the last
    /// page of the heap is made to name.
    pub open spec fn store_after_insert(
        s: DataStore,
        pages: Seq<PageId>,
        record: Seq<u8>,
        new_id: PageId,
    ) -> DataStore {
        match first_fit(s, pages, record.len(), 0) {
            Some(k) => s.insert(pages[k], s[pages[k]].inserted(record)),
            None => s.insert(new_id, DataPageView::empty(new_id).inserted(record)).insert(
                pages.last(),
                DataPageView { next_id: new_id, ..s[pages.last()] },
            ),
        }
    }

    /// Puts a record into the heap: into the first page that has room for
    /// it, or, where no page has, into a new page at the end of the heap.
    /// Returns the id of the record, or `None`, and changes nothing, if the
    /// record is longer than a page can hold.
    pub fn insert<D: DiskManager<DataPage>, H: DiskManager<HeaderPage>, S: ReplacementStrategy>(
        &mut self,
        pool: &mut BufferPool<DataPage, D, H, S>,
        record: &[u8],
    ) -> (res: Option<RecordId>)
        requires
            old(self).wf(old(pool)),
            can_grow(old(pool).free_list().head()),
        ensures
            final(self).wf(final(pool)),
            final(self).first() == old(self).first(),
            final(pool).capacity() == old(pool).capacity(),
            final(pool).free_list().head() <= old(pool).free_list().head() + 1,
            match res {
                None => {
                    &&& record@.len() > PAYLOAD_SIZE
                    &&& final(pool).store() == old(pool).store()
                    &&& final(self).pages() == old(self).pages()
                    &&& ids_in_use(final(pool)) == ids_in_use(old(pool))
                },
                Some(rid) => {
                    &&& record@.len() <= PAYLOAD_SIZE
                    &&& final(pool).store() == Self::store_after_insert(
                        old(pool).store(),
                        old(self).pages(),
                        record@,
                        rid.page_id,
                    )
                    &&& match first_fit(old(pool).store(), old(self).pages(), record@.len(), 0) {
                        Some(k) => {
                            &&& rid.page_id == old(self).pages()[k]
                            &&& rid.slot_id == old(pool).store()[rid.page_id].next_slot
                            &&& final(self).pages() == old(self).pages()
                            &&& ids_in_use(final(pool)) == ids_in_use(old(pool))
                        },
                        None => {
                            &&& !ids_in_use(old(pool)).contains(rid.page_id)
                            &&& rid.slot_id == 0
                            &&& final(self).pages() == old(self).pages().push(rid.page_id)
                            &&& ids_in_use(final(pool)) == ids_in_use(old(pool)).insert(rid.page_id)
                        },
                    }
                },
            },
    {
        let ghost s0 = pool.store();
        let ghost pages = self.pages@;
        let ghost len = record@.len();
        let mut curr: PageId = self.first_page_id;
        let ghost mut i: int = 0;
        let mut tail = load(pool, curr);
        proof {
            lemma_chain_from(s0, self.first(), pages, 0);
        }
        loop
            invariant
                pool_ready(pool),
                pool.store() == s0,
                pool.free_list() == old(pool).free_list(),
                pool.capacity() == old(pool).capacity(),
                *self == *old(self),
                old(self).wf(old(pool)),
                s0 == old(pool).store(),
                pages == old(self).pages(),
                len == record@.len(),
                0 <= i < pages.len(),
                curr == pages[i],
                chain(s0, curr, pages.skip(i)),
                tail@ == s0[curr],
                tail.wf(),
                first_fit(s0, pages, len, 0) == first_fit(s0, pages, len, i),
            ensures
                i + 1 == pages.len(),
                first_fit(s0, pages, len, 0) is None,
            decreases pages.len() - i,
        {
            let mut page = tail;
            match page.insert_record(record) {
                Some(slot) => {
                    proof {
                        lemma_chain_rewrite(s0, self.first(), pages, i, page@);
                        assert(first_fit(s0, pages, len, i) == Some(i));
                    }
                    save(pool, page);
                    proof {
                        assert(ids_in_use(pool) =~= ids_in_use(old(pool)));
                    }
                    return Some(RecordId { page_id: curr, slot_id: slot });
                },
                None => {},
            }
            let next = tail.get_next_id();
            proof {
                let rest = pages.skip(i);
                assert(rest[0] == curr);
                assert(rest.drop_first() =~= pages.skip(i + 1));
                assert(chain(s0, s0[curr].next_id, pages.skip(i + 1)));
                assert(!fits(s0[pages[i]], len));
                assert(first_fit(s0, pages, len, i) == first_fit(s0, pages, len, i + 1));
            }
            if next == 0 {
                proof {
                    assert(pages.skip(i + 1).len() == 0);
                }
                break;
            }
            proof {
                assert(pages.skip(i + 1).len() > 0);
                assert(pages.skip(i + 1)[0] == pages[i + 1]);
                i = i + 1;
            }
            curr = next;
            tail = load(pool, curr);
        }
        if record.len() > PAYLOAD_SIZE {
            proof {
                assert(ids_in_use(pool) =~= ids_in_use(old(pool)));
            }
            return None;
        }
        let new_id = create(pool);
        let ghost s1 = pool.store();
        let mut fresh = DataPage::new(new_id);
        proof {
            lemma_empty_wf(new_id);
            assert(!pages.contains(new_id)) by {
                if pages.contains(new_id) {
                    let j = choose|j: int| 0 <= j < pages.len() && pages[j] == new_id;
                    assert(ids_in_use(old(pool)).contains(pages[j]));
                }
            }
            lemma_chain_keep(s0, self.first(), pages, new_id, DataPageView::empty(new_id));
        }
        let slot = match fresh.insert_record(record) {
            Some(slot) => slot,
            None => {
                assert(false);
                0
            },
        };
        proof {
            lemma_chain_keep(s1, self.first(), pages, new_id, fresh@);
        }
        save(pool, fresh);
        let ghost s2 = pool.store();
        tail.set_next_id(new_id);
        proof {
            assert(pages.last() == curr);
            assert(s2[curr] == s0[curr]);
            lemma_chain_extend(s2, self.first(), pages, tail@, new_id);
        }
        save(pool, tail);
        self.pages = Ghost(pages.push(new_id));
        proof {
            assert(pool.store() =~= Self::store_after_insert(s0, pages, record@, new_id));
            assert forall|a: int, b: int|
                0 <= a < b < pages.push(new_id).len() implies pages.push(new_id)[a] != pages.push(
                new_id,
            )[b] by {
                if b == pages.len() {
                    assert(pages.contains(pages[a]));
                } else {
                    assert(pages[a] != pages[b]);
                }
            }
            assert forall|j: int| 0 <= j < self.pages().len() implies ids_in_use(pool).contains(
                #[trigger] self.pages()[j],
            ) by {
                if j < pages.len() {
                    assert(ids_in_use(old(pool)).contains(pages[j]));
                }
            }
        }
        Some(RecordId { page_id: new_id, slot_id: slot })
    }

    /// Returns the records of the heap with their record ids, page by page
    /// in the order of the heap and slot by slot within a page.
    pub fn scan<D: DiskManager<DataPage>, H: DiskManager<HeaderPage>, S: ReplacementStrategy>(
        &self,
        pool: &mut BufferPool<DataPage, D, H, S>,
    ) -> (rows: Vec<(RecordId, Vec<u8>)>)
        requires
            self.wf(old(pool)),
        ensures
            self.wf(final(pool)),
            final(pool).store() == old(pool).store(),
            final(pool).free_list() == old(pool).free_list(),
            final(pool).capacity() == old(pool).capacity(),
            rows@.len()
                == heap_rows(old(pool).store(), self.pages(), self.pages().len() as int).len(),
            forall|k: int|
                0 <= k < rows@.len() ==> (#[trigger] rows@[k]).0 == heap_rows(
                    old(pool).store(),
                    self.pages(),
                    self.pages().len() as int,
                )[k].0 && rows@[k].1@ == heap_rows(
                    old(pool).store(),
                    self.pages(),
                    self.pages().len() as int,
                )[k].1,
    {
        let ghost s0 = pool.store();
        let ghost pages = self.pages@;
        let mut rows: Vec<(RecordId, Vec<u8>)> = Vec::new();
        let mut curr: PageId = self.first_page_id;
        let ghost mut i: int = 0;
        proof {
            lemma_chain_from(s0, self.first(), pages, 0);
            assert(ids_in_use(pool) =~= ids_in_use(old(pool)));
        }
        while curr != 0
            invariant
                pool_ready(pool),
                pool.store() == s0,
                pool.free_list() == old(pool).free_list(),
                pool.capacity() == old(pool).capacity(),
                self.wf(old(pool)),
                s0 == old(pool).store(),
                pages == self.pages(),
                0 <= i <= pages.len(),
                chain(s0, curr, pages.skip(i)),
                rows@.len() == heap_rows(s0, pages, i).len(),
                forall|k: int|
                    0 <= k < rows@.len() ==> (#[trigger] rows@[k]).0 == heap_rows(s0, pages, i)[k].0
                        && rows@[k].1@ == heap_rows(s0, pages, i)[k].1,
            decreases pages.len() - i,
        {
            proof {
                let rest = pages.skip(i);
                assert(rest.len() > 0);
                assert(rest[0] == curr);
                assert(pages[i] == curr);
                assert(rest.drop_first() =~= pages.skip(i + 1));
            }
            let page = load(pool, curr);
            let records = page.iter_record();
            let ghost before = rows@;
            let ghost of_page = page_rows(page@, MAX_SLOTS as int);
            let n: usize = records.len();
            let mut k: usize = 0;
            while k < n
                invariant
                    k <= n,
                    n == records@.len(),
                    n == of_page.len(),
                    of_page == page_rows(page@, MAX_SLOTS as int),
                    page@.id == curr,
                    forall|j: int|
                        0 <= j < n ==> (#[trigger] records@[j]).0 == page@.records_below(
                            MAX_SLOTS as int,
                        )[j].0 && records@[j].1@ == page@.records_below(MAX_SLOTS as int)[j].1,
                    rows@.len() == before.len() + k,
                    forall|j: int| 0 <= j < before.len() ==> rows@[j] == before[j],
                    forall|j: int|
                        0 <= j < k ==> (#[trigger] rows@[before.len() + j]).0 == of_page[j].0
                            && rows@[before.len() + j].1@ == of_page[j].1,
                decreases n - k,
            {
                let (slot, bytes) = records[k];
                let mut copy: Vec<u8> = Vec::new();
                let m: usize = bytes.len();
                let mut b: usize = 0;
                while b < m
                    invariant
                        b <= m,
                        m == bytes@.len(),
                        copy@ == bytes@.take(b as int),
                    decreases m - b,
                {
                    copy.push(bytes[b]);
                    b += 1;
                    assert(copy@ =~= bytes@.take(b as int));
                }
                assert(bytes@.take(m as int) =~= bytes@);
                rows.push((RecordId { page_id: curr, slot_id: slot }, copy));
                k += 1;
            }
            proof {
                assert(heap_rows(s0, pages, i + 1) == heap_rows(s0, pages, i) + of_page);
                assert forall|j: int| 0 <= j < rows@.len() implies (#[trigger] rows@[j]).0
                    == heap_rows(s0, pages, i + 1)[j].0 && rows@[j].1@ == heap_rows(
                    s0,
                    pages,
                    i + 1,
                )[j].1 by {
                    if j >= before.len() {
                        assert(rows@[before.len() + (j - before.len())] == rows@[j]);
                    } else {
                        assert(before[j].0 == heap_rows(s0, pages, i)[j].0);
                    }
                }
                i = i + 1;
            }
            curr = page.get_next_id();
        }
        proof {
            assert(pages.skip(i).len() == 0);
        }
        rows
    }

    /// Gives every page of the heap back to the free list.
    pub fn free<D: DiskManager<DataPage>, H: DiskManager<HeaderPage>, S: ReplacementStrategy>(
        self,
        pool: &mut BufferPool<DataPage, D, H, S>,
    )
        requires
            self.wf(old(pool)),
        ensures
            pool_ready(final(pool)),
            final(pool).capacity() == old(pool).capacity(),
            final(pool).free_list().head() == old(pool).free_list().head(),
            forall|p: PageId|
                #[trigger] ids_in_use(final(pool)).contains(p) == (ids_in_use(old(pool)).contains(p)
                    && !self.pages().contains(p)),
            forall|p: PageId|
                !self.pages().contains(p) && old(pool).store().contains_key(p)
                    ==> #[trigger] final(pool).store().contains_key(p)
                    && final(pool).store()[p] == old(pool).store()[p],
    {
        let ghost s0 = pool.store();
        let ghost pages = self.pages@;
        let mut curr: PageId = self.first_page_id;
        let ghost mut i: int = 0;
        proof {
            lemma_chain_from(s0, self.first(), pages, 0);
        }
        while curr != 0
            invariant
                pool_ready(pool),
                pool.capacity() == old(pool).capacity(),
                pool.free_list().head() == old(pool).free_list().head(),
                self.wf(old(pool)),
                s0 == old(pool).store(),
                pages == self.pages(),
                0 <= i <= pages.len(),
                chain(pool.store(), curr, pages.skip(i)),
                forall|p: PageId|
                    #[trigger] ids_in_use(pool).contains(p) == (ids_in_use(old(pool)).contains(p)
                        && !pages.take(i).contains(p)),
                forall|p: PageId|
                    !pages.take(i).contains(p) && s0.contains_key(p)
                        ==> #[trigger] pool.store().contains_key(p) && pool.store()[p] == s0[p],
            decreases pages.len() - i,
        {
            let ghost s1 = pool.store();
            let ghost u1 = ids_in_use(pool);
            proof {
                let rest = pages.skip(i);
                assert(rest.len() > 0);
                assert(rest[0] == curr);
                assert(pages[i] == curr);
                assert(rest.drop_first() =~= pages.skip(i + 1));
                let t0 = pages.take(i);
                assert(!t0.contains(curr)) by {
                    if t0.contains(curr) {
                        let j = choose|j: int| 0 <= j < t0.len() && t0[j] == curr;
                        assert(pages[j] == pages[i]);
                    }
                }
                assert(ids_in_use(old(pool)).contains(pages[i]));
                assert(u1.contains(curr));
            }
            let page = load(pool, curr);
            let next = page.get_next_id();
            proof {
                assert(ids_in_use(pool) =~= u1);
                assert(pool.free_list().allocated(curr as int));
                assert(pool.pin_count(curr) == 0);
            }
            let freed = pool.free_page(curr, NO_FLUSH);
            proof {
                assert(freed is Ok);
                assert forall|x: PageId| pool.pin_count(x) == 0 by {
                    pool.lemma_pinned_is_resident(x);
                }
                let rest = pages.skip(i + 1);
                assert forall|j: int| 0 <= j < rest.len() implies pool.store().contains_key(
                    #[trigger] rest[j],
                ) && pool.store()[rest[j]] == s1[rest[j]] by {
                    assert(rest[j] == pages[i + 1 + j]);
                    assert(pages[i + 1 + j] != pages[i]);
                    lemma_chain_member(s1, s1[curr].next_id, rest, j);
                }
                lemma_chain_agree(s1, pool.store(), s1[curr].next_id, rest);
                let t0 = pages.take(i);
                let t1 = pages.take(i + 1);
                assert(t1 =~= t0.push(curr));
                assert forall|p: PageId| t1.contains(p) == (t0.contains(p) || p == curr) by {
                    if t1.contains(p) {
                        let j = choose|j: int| 0 <= j < t1.len() && t1[j] == p;
                        if j < i {
                            assert(t0[j] == p);
                        }
                    }
                    if t0.contains(p) {
                        let j = choose|j: int| 0 <= j < t0.len() && t0[j] == p;
                        assert(t1[j] == p);
                    }
                    if p == curr {
                        assert(t1[i] == p);
                    }
                }
                assert forall|p: PageId|
                    #[trigger] ids_in_use(pool).contains(p) == (ids_in_use(old(pool)).contains(p)
                        && !t1.contains(p)) by {
                    assert(t1.contains(p) == (t0.contains(p) || p == curr));
                    assert(u1.contains(p) == (ids_in_use(old(pool)).contains(p)
                        && !t0.contains(p)));
                    assert(pool.free_list().allocated(p as int) == (p != curr && u1.contains(p)));
                }
                assert forall|p: PageId|
                    !t1.contains(p)
                        && s0.contains_key(p) implies #[trigger] pool.store().contains_key(
                    p,
                ) && pool.store()[p] == s0[p] by {
                    assert(t1.contains(p) == (t0.contains(p) || p == curr));
                    assert(!t0.contains(p));
                    assert(s1.contains_key(p));
                    assert(s1[p] == s0[p]);
                    assert(pool.store().contains_key(p));
                    assert(pool.store()[p] == s1[p]);
                }
                i = i + 1;
            }
            curr = next;
        }
        proof {
            assert(pages.skip(i).len() == 0);
            assert(pages.take(i) =~= pages);
        }
    }
}

/// Every page of a heap is a page of the store.
pub proof fn lemma_chain_member(s: DataStore, first: PageId, pages: Seq<PageId>, k: int)
    requires
        chain(s, first, pages),
        0 <= k < pages.len(),
    ensures
        s.contains_key(pages[k]),
        s[pages[k]].id == pages[k],
        pages[k] != 0,
    decreases k,
{
    if k > 0 {
        lemma_chain_member(s, s[first].next_id, pages.drop_first(), k - 1);
        assert(pages.drop_first()[k - 1] == pages[k]);
    }
}

} // verus!
