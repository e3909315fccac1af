use raincloud_db::storage::bufferpool::BufferPool;
use raincloud_db::storage::disk_manager::MemoryDiskManager;
use raincloud_db::storage::free_list::FreeList;
use raincloud_db::storage::page::data_page::DataPage;
use raincloud_db::storage::page::page::{Page, PageError};
use raincloud_db::storage::replacement_strategy::{
    replacement_strategy_factory, LRUReplacementStrategy, ReplacementStrategyType,
};

type Pool = BufferPool<DataPage, MemoryDiskManager, MemoryDiskManager, LRUReplacementStrategy>;

fn pool_over(capacity: usize, disk_manager: MemoryDiskManager) -> Pool {
    BufferPool::new(
        capacity,
        replacement_strategy_factory(ReplacementStrategyType::LRU),
        disk_manager,
        FreeList::new(MemoryDiskManager::new(), 0),
    )
}

fn setup_buffer_pool(capacity: usize) -> Pool {
    pool_over(capacity, MemoryDiskManager::new())
}

#[test]
fn bufferpool_tests_test_basic_fetch_create_unpin() {
    let mut pool = setup_buffer_pool(2);

    // Test creating a page
    let page_ref = pool.create_page().unwrap();
    let page_id = page_ref.read(&pool).get_id();

    // Test unpinning
    pool.unpin_page(page_id, false).unwrap();

    // Test fetching the same page
    let fetched_ref = pool.fetch_page(page_id).unwrap();
    assert_eq!(fetched_ref.read(&pool).get_id(), page_id);

    // Clean up
    pool.unpin_page(page_id, false).unwrap();
}

#[test]
fn bufferpool_tests_test_dirty_page_persistence() {
    let mut pool = setup_buffer_pool(2);

    // Create and mark as dirty
    let page_ref = pool.create_page().unwrap();
    let page_id = page_ref.read(&pool).get_id();
    pool.unpin_page(page_id, true).unwrap(); // Mark dirty

    // Flush explicitly
    pool.flush_page(page_id).unwrap();

    // Create new pool to test persistence
    let (disk_manager, _) = pool.into_parts();
    let mut new_pool = pool_over(2, disk_manager);

    // Should be able to fetch from disk
    let fetched = new_pool.fetch_page(page_id).unwrap();
    assert_eq!(fetched.read(&new_pool).get_id(), page_id);

    new_pool.unpin_page(page_id, false).unwrap();
}

#[test]
fn bufferpool_tests_test_flush_page() {
    let mut pool = setup_buffer_pool(3);

    // Create multiple pages with different dirty states
    let page1 = pool.create_page().unwrap();
    let page1_id = page1.read(&pool).get_id();
    pool.unpin_page(page1_id, true).unwrap(); // Dirty

    let page2 = pool.create_page().unwrap();
    let page2_id = page2.read(&pool).get_id();
    pool.unpin_page(page2_id, false).unwrap(); // Clean

    let page3 = pool.create_page().unwrap();
    let page3_id = page3.read(&pool).get_id();
    pool.unpin_page(page3_id, true).unwrap(); // Dirty

    // Flush pages
    pool.flush_page(page1_id).unwrap();
    pool.flush_page(page2_id).unwrap();
    pool.flush_page(page3_id).unwrap();

    // Verify persistence
    let (disk_manager, _) = pool.into_parts();
    let mut new_pool = pool_over(5, disk_manager);

    // All pages should be accessible
    assert!(new_pool.fetch_page(page1_id).is_ok());
    assert!(new_pool.fetch_page(page2_id).is_ok());
    assert!(new_pool.fetch_page(page3_id).is_ok());
}

#[test]
fn bufferpool_tests_test_flush_all() {
    let mut pool = setup_buffer_pool(3);

    // Create multiple pages with different dirty states
    let page1 = pool.create_page().unwrap();
    let page1_id = page1.read(&pool).get_id();
    pool.unpin_page(page1_id, true).unwrap(); // Dirty

    let page2 = pool.create_page().unwrap();
    let page2_id = page2.read(&pool).get_id();
    pool.unpin_page(page2_id, false).unwrap(); // Clean

    let page3 = pool.create_page().unwrap();
    let page3_id = page3.read(&pool).get_id();
    pool.unpin_page(page3_id, true).unwrap(); // Dirty

    // Flush all
    pool.flush_all();

    // Verify persistence
    let (disk_manager, _) = pool.into_parts();
    let mut new_pool = pool_over(5, disk_manager);

    // All pages should be accessible
    assert!(new_pool.fetch_page(page1_id).is_ok());
    assert!(new_pool.fetch_page(page2_id).is_ok());
    assert!(new_pool.fetch_page(page3_id).is_ok());
}

#[test]
fn bufferpool_tests_test_error_handling() {
    let mut pool = setup_buffer_pool(2);

    // Test invalid page operations
    assert!(matches!(pool.fetch_page(999), Err(PageError::InvalidPage)));

    assert!(matches!(pool.unpin_page(999, false), Err(PageError::InvalidPage)));

    assert!(matches!(pool.flush_page(999), Err(PageError::InvalidPage)));

    // Test double unpin error
    let page = pool.create_page().unwrap();
    let page_id = page.read(&pool).get_id();
    pool.unpin_page(page_id, false).unwrap();

    assert!(matches!(pool.unpin_page(page_id, false), Err(PageError::PageAlreadyUnpinned)));
}

#[test]
fn bufferpool_tests_test_capacity_constraint() {
    let capacity = 3;
    let mut pool = setup_buffer_pool(capacity);

    let mut page_ids = vec![];

    // Create exactly capacity + 1 pages
    for _ in 0..=capacity {
        let page = pool.create_page().unwrap();
        let page_id = page.read(&pool).get_id();
        page_ids.push(page_id);
        pool.unpin_page(page_id, false).unwrap();
    }

    // All pages should be accessible
    let mut accessible_count = 0;
    for &page_id in &page_ids {
        if pool.fetch_page(page_id).is_ok() {
            accessible_count += 1;
            pool.unpin_page(page_id, false).unwrap();
        }
    }
    assert_eq!(accessible_count, capacity + 1);

    // Should have exactly capacity pages
    assert_eq!(pool.current_size(), capacity);
}

#[test]
fn bufferpool_tests_test_pinned_page_protection() {
    let mut pool = setup_buffer_pool(2);

    // Create and keep pinned
    let page1 = pool.create_page().unwrap();
    let page1_id = page1.read(&pool).get_id();

    // Create second page and unpin
    let page2 = pool.create_page().unwrap();
    let page2_id = page2.read(&pool).get_id();
    pool.unpin_page(page2_id, false).unwrap();

    // Create third page - should evict page2, not page1
    let page3 = pool.create_page().unwrap();
    let page3_id = page3.read(&pool).get_id();

    // page1 and page3 should still be pinned
    assert!(pool.fetch_page(page1_id).is_ok());
    assert!(pool.fetch_page(page3_id).is_ok());
}
