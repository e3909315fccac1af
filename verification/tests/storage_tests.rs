use raincloud_db::storage::disk_manager::{DiskManager, MemoryDiskManager};
use raincloud_db::storage::page::data_page::DataPage;
use raincloud_db::storage::page::header_page::HeaderPage;
use raincloud_db::storage::page::page::Page;
use raincloud_db::storage::replacement_strategy::{
    replacement_strategy_factory, LRUReplacementStrategy, ReplacementStrategy,
    ReplacementStrategyType,
};
use raincloud_db::storage::{StorageConfig, StorageEngine};

#[test]
fn test_allocate_page_id() {
    let mut disk_manager = MemoryDiskManager::new();

    assert_eq!(DiskManager::<DataPage>::allocate_page_id(&mut disk_manager), 0);
    assert_eq!(DiskManager::<DataPage>::allocate_page_id(&mut disk_manager), 1);
    assert_eq!(DiskManager::<DataPage>::allocate_page_id(&mut disk_manager), 2);
}

#[test]
fn test_write_and_read_page() {
    let mut disk_manager = MemoryDiskManager::new();

    let page_id = DiskManager::<DataPage>::allocate_page_id(&mut disk_manager);
    let page = DataPage::new(page_id);

    disk_manager.write_page(&page);
    let read_page: DataPage = disk_manager.read_page(page_id).unwrap();

    assert_eq!(page.get_id(), read_page.get_id());
}

#[test]
fn test_read_nonexistent_page() {
    let disk_manager = MemoryDiskManager::new();

    let page: Option<DataPage> = disk_manager.read_page(999);
    assert!(page.is_none());
}

#[test]
fn disk_manager_keeps_the_last_image_of_each_page() {
    let mut disk_manager = MemoryDiskManager::new();
    let mut page = DataPage::new(3);
    disk_manager.write_page(&page);
    let slot = page.insert_record(b"second version").unwrap();
    disk_manager.write_page(&page);
    let other = DataPage::new(4);
    disk_manager.write_page(&other);
    let back: DataPage = disk_manager.read_page(3).unwrap();
    assert_eq!(back.get_record(slot).unwrap(), b"second version");
    assert_eq!(back.serialize(), page.serialize());
    // a page is found under its own id only
    let mut header = HeaderPage::new(9);
    header.set_offset(3);
    disk_manager.write_page(&header);
    let as_header: Option<HeaderPage> = disk_manager.read_page(9);
    assert_eq!(as_header.unwrap().get_offset(), 3 * 32672);
    let elsewhere: Option<HeaderPage> = disk_manager.read_page(10);
    assert!(elsewhere.is_none());
}

#[test]
fn lru_names_the_page_used_longest_ago_first() {
    let mut lru: LRUReplacementStrategy = replacement_strategy_factory(ReplacementStrategyType::LRU);
    assert!(lru.get_evict().is_empty());
    lru.update(1);
    lru.update(2);
    lru.update(3);
    assert_eq!(lru.get_evict(), vec![1, 2, 3]);
    lru.update(1);
    assert_eq!(lru.get_evict(), vec![2, 3, 1]);
    lru.update(1);
    assert_eq!(lru.get_evict(), vec![2, 3, 1]);
    lru.update(3);
    lru.update(9);
    assert_eq!(lru.get_evict(), vec![2, 1, 3, 9]);
}

#[test]
fn storage_engine_writes_everything_when_it_is_deactivated() {
    let config = StorageConfig {
        database_dir: String::from("db"),
        bufferpool_capacity: 4,
        bufferpool_replacement_strategy: ReplacementStrategyType::LRU,
    };
    let mut engine = StorageEngine::new(&config, MemoryDiskManager::new(), MemoryDiskManager::new());
    assert_eq!(engine.buffer_pool.get_capacity(), 4);
    assert_eq!(engine.buffer_pool.current_size(), 0);
    let mut guard = engine.buffer_pool.create_page().unwrap();
    let id = guard.get_page_id();
    let mut page = *guard.read(&engine.buffer_pool);
    let slot = page.insert_record(b"row").unwrap();
    guard.write(&mut engine.buffer_pool, page);
    guard.release(&mut engine.buffer_pool);
    let before: Option<DataPage> = engine.buffer_pool.get_disk().read_page(id);
    assert!(before.is_none());
    engine.deactivate();
    let after: DataPage = engine.buffer_pool.get_disk().read_page(id).unwrap();
    assert_eq!(after.get_record(slot).unwrap(), b"row");
    let header: HeaderPage = engine.buffer_pool.get_free_list().disk().read_page(1).unwrap();
    assert!(header.is_allocated(id as usize));
}
