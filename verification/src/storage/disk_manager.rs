use crate::storage::page::page::Page;
use crate::types::{PAGE_SIZE, PageId};
use std::collections::HashMap;
use vstd::prelude::*;

verus! {

/// What a store of pages holds: the content of each page by its id.
pub type PageMap<V> = Map<PageId, V>;

/// A store of pages of one kind, each kept under its id.
///
/// The buffer pool and the free list are proved against this contract: a
/// page that was written is read back as it was written, under its own id,
/// and a page that was never written is not there.
pub trait DiskManager<P: Page> {
    /// The pages that the store holds, by id.
    spec fn pages(&self) -> PageMap<P::V>;

    /// The number of ids handed out by `allocate_page_id` plus the number of
    /// pages that the store held when it was opened.
    spec fn next_page_id(&self) -> u64;

    /// Reads the page with the given id; `None` if the store holds none.
    fn read_page(&self, id: PageId) -> (page: Option<P>)
        ensures
            match page {
                Some(p) => self.pages().contains_key(id) && p@ == self.pages()[id] && p.wf()
                    && P::id_of(p@) == id,
                None => !self.pages().contains_key(id),
            },
    ;

    /// Writes the page under its own id.
    fn write_page(&mut self, page: &P)
        requires
            page.wf(),
        ensures
            final(self).pages() == old(self).pages().insert(P::id_of(page@), page@),
            final(self).next_page_id() == old(self).next_page_id(),
    ;

    /// Hands out the next id of the store's own counter.
    fn allocate_page_id(&mut self) -> (id: PageId)
        ensures
            id == old(self).next_page_id() % 0x1_0000_0000,
            final(self).next_page_id() == (old(self).next_page_id() + 1) % 0x1_0000_0000_0000_0000,
            final(self).pages() == old(self).pages(),
    ;
}

/// A page store in memory: it keeps the image of each page that was written.
pub struct MemoryDiskManager {
    blocks: HashMap<PageId, [u8; PAGE_SIZE]>,
    next_page_id: u64,
}

impl MemoryDiskManager {
    /// Whether the image kept under `id` stands for a page with that id.
    pub closed spec fn holds<P: Page>(&self, id: PageId) -> bool {
        &&& self.blocks@.contains_key(id)
        &&& P::decode(self.blocks@[id]@) is Some
        &&& P::id_of(P::decode(self.blocks@[id]@).unwrap()) == id
    }

    /// The page whose image is kept under `id`.
    pub closed spec fn held<P: Page>(&self, id: PageId) -> P::V {
        P::decode(self.blocks@[id]@).unwrap()
    }

    /// The id that the store hands out next.
    pub closed spec fn counter(&self) -> u64 {
        self.next_page_id
    }

    /// Creates an empty store.
    pub fn new() -> (disk: Self)
        ensures
            disk.counter() == 0,
            forall|id: PageId| !disk.blocks_key(id),
    {
        MemoryDiskManager { blocks: HashMap::new(), next_page_id: 0 }
    }

    /// Whether an image is kept under `id`.
    pub closed spec fn blocks_key(&self, id: PageId) -> bool {
        self.blocks@.contains_key(id)
    }

    /// A store holds a page only where it keeps an image, so a new store
    /// holds none, whatever the kind of page.
    pub proof fn lemma_holds<P: Page>(&self, id: PageId)
        ensures
            self.holds::<P>(id) ==> self.blocks_key(id),
            <Self as DiskManager<P>>::pages(self).contains_key(id) == self.holds::<P>(id),
    {
    }
}

impl<P: Page> DiskManager<P> for MemoryDiskManager {
    open spec fn pages(&self) -> PageMap<P::V> {
        Map::new(|id: PageId| self.holds::<P>(id), |id: PageId| self.held::<P>(id))
    }

    open spec fn next_page_id(&self) -> u64 {
        self.counter()
    }

    fn read_page(&self, id: PageId) -> (page: Option<P>) {
        match self.blocks.get(&id) {
            Some(block) => match P::deserialize(block) {
                Some(p) => if p.get_id() == id {
                    Some(p)
                } else {
                    None
                },
                None => None,
            },
            None => None,
        }
    }

    fn write_page(&mut self, page: &P) {
        let block = page.serialize();
        let id = page.get_id();
        self.blocks.insert(id, block);
        assert(<Self as DiskManager<P>>::pages(self) =~= <Self as DiskManager<P>>::pages(
            old(self),
        ).insert(P::id_of(page@), page@));
    }

    fn allocate_page_id(&mut self) -> (id: PageId) {
        let current: u64 = self.next_page_id;
        self.next_page_id = current.wrapping_add(1);
        (current % 0x1_0000_0000) as PageId
    }
}

} // verus!
