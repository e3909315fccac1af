pub mod bplus_tree;
pub mod bufferpool;
pub mod disk_manager;
pub mod distinct;
pub mod free_list;
pub mod heap;
pub mod leaf_chain;
pub mod page;
pub mod rebalance;
pub mod removal;
pub mod replacement_strategy;
pub mod split;
pub mod tree_model;
pub mod tree_shape;

use crate::storage::bufferpool::BufferPool;
use crate::storage::disk_manager::DiskManager;
use crate::storage::free_list::FreeList;
use crate::storage::page::data_page::DataPage;
use crate::storage::page::header_page::HeaderPage;
use crate::storage::replacement_strategy::{
    replacement_strategy_factory, LRUReplacementStrategy, ReplacementStrategyType,
};
use crate::types::PageId;
use vstd::prelude::*;

verus! {

/// How a storage engine is set up.
pub struct StorageConfig {
    /// The directory that holds the files of the database.
    pub database_dir: String,
    /// The number of data pages that the buffer pool holds in memory.
    pub bufferpool_capacity: usize,
    /// How the buffer pool chooses the page that gives way.
    pub bufferpool_replacement_strategy: ReplacementStrategyType,
}

/// The storage of one database: the buffer pool of its data pages, over the
/// disk of the data pages and the free list on the disk of the header pages.
pub struct StorageEngine<D: DiskManager<DataPage>, H: DiskManager<HeaderPage>> {
    /// The buffer pool of the data pages; it owns the two disks and the
    /// free list.
    pub buffer_pool: BufferPool<DataPage, D, H, LRUReplacementStrategy>,
}

impl<D: DiskManager<DataPage>, H: DiskManager<HeaderPage>> StorageEngine<D, H> {
    /// The invariant of the engine is that of its buffer pool.
    pub open spec fn wf(&self) -> bool {
        self.buffer_pool.wf()
    }

    /// Makes a storage engine over the two opened disks: a free list
    /// without header pages and a buffer pool of the capacity and the
    /// replacement strategy that the configuration names.
    pub fn new(config: &StorageConfig, data_disk: D, header_disk: H) -> (engine: Self)
        ensures
            engine.wf(),
            engine.buffer_pool.capacity() == config.bufferpool_capacity,
            engine.buffer_pool.len() == 0,
            engine.buffer_pool.unpinned(),
            engine.buffer_pool.disk_pages() == data_disk.pages(),
            engine.buffer_pool.free_list().head() == 0,
            engine.buffer_pool.free_list().disk_pages() == header_disk.pages(),
            engine.buffer_pool.candidates() == Seq::<PageId>::empty(),
    {
        let free_list = FreeList::new(header_disk, 0);
        let strategy = replacement_strategy_factory(config.bufferpool_replacement_strategy);
        let buffer_pool = BufferPool::new(
            config.bufferpool_capacity,
            strategy,
            data_disk,
            free_list,
        );
        StorageEngine { buffer_pool }
    }

    /// Writes to disk what was changed in memory: every data page that is
    /// not pinned, and every header page of the free list.
    pub fn deactivate(&mut self)
        requires
            old(self).wf(),
        ensures
            final(self).wf(),
            final(self).buffer_pool.store() == old(self).buffer_pool.store(),
            final(self).buffer_pool.capacity() == old(self).buffer_pool.capacity(),
            final(self).buffer_pool.candidates() == old(self).buffer_pool.candidates(),
            forall|id: PageId|
                #[trigger] final(self).buffer_pool.is_resident(id)
                    == old(self).buffer_pool.is_resident(id),
            forall|id: PageId|
                #[trigger] final(self).buffer_pool.pin_count(id) == old(self).buffer_pool.pin_count(
                    id,
                ),
            forall|id: PageId|
                #[trigger] final(self).buffer_pool.frame_dirty(id)
                    == (old(self).buffer_pool.frame_dirty(id)
                    && old(self).buffer_pool.pin_count(id) > 0),
            forall|id: PageId|
                old(self).buffer_pool.frame_dirty(id) && old(self).buffer_pool.pin_count(id) == 0
                    ==> #[trigger] final(self).buffer_pool.disk_pages().contains_key(id)
                        && final(self).buffer_pool.disk_pages()[id]
                        == old(self).buffer_pool.frame_page(id),
            final(self).buffer_pool.free_list().persisted(),
            final(self).buffer_pool.free_list().same_marks(&old(self).buffer_pool.free_list()),
    {
        self.buffer_pool.flush_all();
        self.buffer_pool.flush_free_list();
    }
}

} // verus!
