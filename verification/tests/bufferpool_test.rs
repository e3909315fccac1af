use raincloud_db::storage::bufferpool::{BufferPool, PageGuard};
use raincloud_db::storage::disk_manager::{DiskManager, MemoryDiskManager};
use raincloud_db::storage::free_list::FreeList;
use raincloud_db::storage::page::data_page::DataPage;
use raincloud_db::storage::page::page::{Page, PageError};
use raincloud_db::storage::replacement_strategy::{
    replacement_strategy_factory, LRUReplacementStrategy, ReplacementStrategyType,
};
use raincloud_db::types::{PageId, FLUSH, NO_FLUSH};

type Pool = BufferPool<DataPage, MemoryDiskManager, MemoryDiskManager, LRUReplacementStrategy>;

fn pool_over(capacity: usize, disk_manager: MemoryDiskManager) -> Pool {
    let header_disk_manager = MemoryDiskManager::new();
    let free_list = FreeList::new(header_disk_manager, 0);
    BufferPool::new(
        capacity,
        replacement_strategy_factory(ReplacementStrategyType::LRU),
        disk_manager,
        free_list,
    )
}

fn setup_buffer_pool(capacity: usize) -> Pool {
    pool_over(capacity, MemoryDiskManager::new())
}

/// Creates a page and leaves it pinned.
fn create_pinned(pool: &mut Pool) -> (PageId, PageGuard) {
    let guard = pool.create_page().expect("create failed");
    let id = guard.read(pool).get_id();
    (id, guard)
}

/// Gives a pin back and flushes the page if asked to.
fn unpin(pool: &mut Pool, id: PageId, guard: PageGuard, flush: bool) {
    guard.release(pool);
    if flush {
        pool.flush_page(id).expect("flush failed");
    }
}

/// Creates a page, writes it once through its guard and gives the pin back.
fn create_page(pool: &mut Pool, flush: bool) -> PageId {
    let (id, mut guard) = create_pinned(pool);
    let page = *guard.read(pool);
    guard.write(pool, page);
    unpin(pool, id, guard, flush);
    id
}

/// Fetches a page, writes it once through its guard and gives the pin back.
fn write_page(pool: &mut Pool, id: PageId, flush: bool) {
    let mut guard = pool.fetch_page(id).expect("fetch failed");
    let page = *guard.read(pool);
    guard.write(pool, page);
    unpin(pool, id, guard, flush);
}

/// Fetches a page, reads it and gives the pin back.
fn read_page(pool: &mut Pool, id: PageId) -> DataPage {
    let guard = pool.fetch_page(id).expect("fetch failed");
    let page = *guard.read(pool);
    guard.release(pool);
    page
}

#[test]
fn bufferpool_test_test_basic_fetch_create_unpin() {
    let mut pool = setup_buffer_pool(2);

    // Test creating a page
    let page_id = create_page(&mut pool, NO_FLUSH);

    // Test fetching the same page without error
    write_page(&mut pool, page_id, NO_FLUSH);
    read_page(&mut pool, page_id);
}

#[test]
fn bufferpool_test_test_dirty_page_persistence() {
    let mut pool = setup_buffer_pool(2);

    // Create and mark as dirty
    let page_id = create_page(&mut pool, FLUSH);

    // Create new pool to test persistence
    let (disk_manager, _) = pool.into_parts();
    let mut new_pool = pool_over(2, disk_manager);

    // Should be able to fetch from disk without error
    read_page(&mut new_pool, page_id);
}

#[test]
fn bufferpool_test_test_flush_page() {
    let mut pool = setup_buffer_pool(3);

    let (id1, page1) = create_pinned(&mut pool);
    let (id2, page2) = create_pinned(&mut pool);
    let (id3, page3) = create_pinned(&mut pool);
    unpin(&mut pool, id1, page1, FLUSH);
    unpin(&mut pool, id2, page2, FLUSH);
    unpin(&mut pool, id3, page3, FLUSH);

    // Flush pages
    pool.flush_page(id1).unwrap();
    pool.flush_page(id2).unwrap();
    pool.flush_page(id3).unwrap();

    // Verify persistence
    let (disk_manager, _) = pool.into_parts();
    let mut new_pool = pool_over(5, disk_manager);

    // All pages should be accessible
    assert!(new_pool.fetch_page(id1).is_ok());
    assert!(new_pool.fetch_page(id2).is_ok());
    assert!(new_pool.fetch_page(id3).is_ok());
}

#[test]
fn bufferpool_test_test_flush_all() {
    let mut pool = setup_buffer_pool(3);

    let (id1, page1) = create_pinned(&mut pool);
    let (id2, page2) = create_pinned(&mut pool);
    let (id3, page3) = create_pinned(&mut pool);
    unpin(&mut pool, id1, page1, FLUSH);
    unpin(&mut pool, id2, page2, FLUSH);
    unpin(&mut pool, id3, page3, FLUSH);

    // Flush all
    pool.flush_all();

    // Verify persistence
    let (disk_manager, _) = pool.into_parts();
    let mut new_pool = pool_over(5, disk_manager);

    // All pages should be accessible
    assert!(new_pool.fetch_page(id1).is_ok());
    assert!(new_pool.fetch_page(id2).is_ok());
    assert!(new_pool.fetch_page(id3).is_ok());
}

#[test]
fn bufferpool_test_test_error_handling() {
    let mut pool = setup_buffer_pool(2);

    // Test invalid page operations
    assert!(matches!(pool.fetch_page(999), Err(PageError::InvalidPage)));

    assert!(matches!(pool.flush_page(999), Err(PageError::InvalidPage)));
}

#[test]
fn bufferpool_test_test_capacity_constraint() {
    let capacity = 3;
    let mut pool = setup_buffer_pool(capacity);

    let mut page_ids = vec![];
    // Create exactly capacity + 1 pages
    for _ in 0..=capacity {
        let page_id = create_page(&mut pool, NO_FLUSH);
        page_ids.push(page_id);
    }

    // All pages should be accessible
    let mut accessible_count = 0;
    for &page_id in &page_ids {
        read_page(&mut pool, page_id);
        accessible_count += 1;
    }
    assert_eq!(accessible_count, capacity + 1);

    // Should have exactly capacity pages
    assert_eq!(pool.current_size(), capacity);
}

#[test]
fn bufferpool_test_test_pinned_page_protection() {
    let mut pool = setup_buffer_pool(2);

    // Create and keep pinned
    let (id1, page1) = create_pinned(&mut pool);
    // Create second page and unpin
    let _id2 = create_page(&mut pool, NO_FLUSH);

    // Create third page - should evict page2, not page1
    let (id3, page3) = create_pinned(&mut pool);
    // page1 and page3 should still be pinned
    assert!(pool.fetch_page(id1).is_ok());
    assert!(pool.fetch_page(id3).is_ok());
    unpin(&mut pool, id3, page3, NO_FLUSH);
    unpin(&mut pool, id1, page1, NO_FLUSH);
}

#[test]
fn bufferpool_evicts_the_least_recently_used_unpinned_page() {
    let mut pool = setup_buffer_pool(2);
    let (a, guard_a) = create_pinned(&mut pool);
    let b = create_page(&mut pool, NO_FLUSH);
    assert!(pool.get_disk().read_page(b).map(|p: DataPage| p.get_id()).is_none());
    let (c, guard_c) = create_pinned(&mut pool);
    assert_eq!(pool.current_size(), 2);
    assert!(pool.is_pinned(a));
    assert!(pool.is_pinned(c));
    assert!(!pool.is_pinned(b));
    // the page that gave way was changed: it was written on its way out
    let on_disk: Option<DataPage> = pool.get_disk().read_page(b);
    assert_eq!(on_disk.map(|p| p.get_id()), Some(b));
    // with both pages pinned nothing can give way
    assert!(matches!(pool.fetch_page(b), Err(PageError::PageLatched)));
    assert!(matches!(pool.create_page(), Err(PageError::PageLatched)));
    assert!(matches!(pool.evict_one(), Err(PageError::PageLatched)));
    assert!(guard_c.release(&mut pool));
    assert_eq!(pool.evict_one(), Ok(c));
    assert!(guard_a.release(&mut pool));
}

#[test]
fn bufferpool_of_one_page_makes_room_for_the_second() {
    let mut pool = setup_buffer_pool(1);
    let first = create_page(&mut pool, NO_FLUSH);
    let second = create_page(&mut pool, NO_FLUSH);
    assert_ne!(first, second);
    assert_eq!((first, second), (1, 2));
    assert_eq!(pool.current_size(), 1);
    assert_eq!(read_page(&mut pool, first).get_id(), first);
    assert_eq!(pool.current_size(), 1);
}

#[test]
fn bufferpool_keeps_what_was_written_across_eviction() {
    let mut pool = setup_buffer_pool(2);
    let id = create_page(&mut pool, NO_FLUSH);
    let mut guard = pool.fetch_page(id).unwrap();
    let mut page = *guard.read(&pool);
    let slot = page.insert_record(b"kept").unwrap();
    guard.write(&mut pool, page);
    assert!(guard.release(&mut pool));
    for _ in 0..3 {
        create_page(&mut pool, NO_FLUSH);
    }
    assert!(!pool.is_pinned(id));
    let back = read_page(&mut pool, id);
    assert_eq!(back.get_record(slot).unwrap(), b"kept");
}

#[test]
fn bufferpool_free_page_gives_the_id_back() {
    let mut pool = setup_buffer_pool(4);
    let a = create_page(&mut pool, NO_FLUSH);
    let b = create_page(&mut pool, NO_FLUSH);
    assert_eq!((a, b), (1, 2));
    let guard = pool.fetch_page(a).unwrap();
    assert_eq!(pool.free_page(a, NO_FLUSH), Err(PageError::PageLatched));
    guard.release(&mut pool);
    assert_eq!(pool.free_page(a, FLUSH), Ok(()));
    assert_eq!(pool.current_size(), 1);
    assert_eq!(pool.free_page(a, FLUSH), Err(PageError::InvalidPage));
    assert_eq!(pool.free_page(77, FLUSH), Err(PageError::InvalidPage));
    let again = create_page(&mut pool, NO_FLUSH);
    assert_eq!(again, a);
    assert!(read_page(&mut pool, again).is_empty());
    assert_eq!(pool.get_capacity(), 4);
    assert_eq!(pool.get_free_list().get_head(), 1);
}

#[test]
fn bufferpool_flush_all_passes_over_pinned_pages() {
    let mut pool = setup_buffer_pool(3);
    let (a, guard_a) = create_pinned(&mut pool);
    let b = create_page(&mut pool, NO_FLUSH);
    pool.flush_all();
    let of_a: Option<DataPage> = pool.get_disk().read_page(a);
    let of_b: Option<DataPage> = pool.get_disk().read_page(b);
    assert!(of_a.is_none());
    assert!(of_b.is_some());
    guard_a.release(&mut pool);
    pool.flush_all();
    let of_a: Option<DataPage> = pool.get_disk().read_page(a);
    assert!(of_a.is_some());
    pool.flush_free_list();
    let header: Option<raincloud_db::storage::page::header_page::HeaderPage> =
        pool.get_free_list().disk().read_page(1);
    assert!(header.unwrap().is_allocated(b as usize));
}

#[test]
fn bufferpool_create_keeps_a_page_that_is_in_memory_under_the_new_id() {
    // the disk holds page 1 with a record, and the free list knows no page yet
    let mut disk = MemoryDiskManager::new();
    let mut stored = DataPage::new(1);
    stored.insert_record(b"kept").unwrap();
    disk.write_page(&stored);
    let mut pool = pool_over(2, disk);
    let first = pool.fetch_page(1).expect("fetch failed");
    let second = pool.create_page().expect("create failed");
    assert_eq!(second.get_page_id(), 1);
    // the frame is the one that was there, with one more pin
    assert_eq!(second.read(&pool).get_record(0).unwrap(), b"kept");
    assert_eq!(pool.current_size(), 1);
    assert!(!first.release(&mut pool));
    assert!(pool.is_pinned(1));
    assert!(second.release(&mut pool));
    assert!(!pool.is_pinned(1));
}
