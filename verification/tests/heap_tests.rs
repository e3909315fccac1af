use raincloud_db::storage::bufferpool::BufferPool;
use raincloud_db::storage::disk_manager::MemoryDiskManager;
use raincloud_db::storage::free_list::FreeList;
use raincloud_db::storage::heap::TableHeap;
use raincloud_db::storage::page::data_page::{DataPage, PAYLOAD_SIZE};
use raincloud_db::storage::page::index_page::RecordId;
use raincloud_db::storage::page::page::PageError;
use raincloud_db::storage::replacement_strategy::{
    replacement_strategy_factory, LRUReplacementStrategy, ReplacementStrategyType,
};
use raincloud_db::types::PageId;

type Pool = BufferPool<DataPage, MemoryDiskManager, MemoryDiskManager, LRUReplacementStrategy>;

fn setup_buffer_pool(capacity: usize) -> Pool {
    BufferPool::new(
        capacity,
        replacement_strategy_factory(ReplacementStrategyType::LRU),
        MemoryDiskManager::new(),
        FreeList::new(MemoryDiskManager::new(), 0),
    )
}

fn next_of(pool: &mut Pool, id: PageId) -> PageId {
    let guard = pool.fetch_page(id).unwrap();
    let next = guard.read(pool).get_next_id();
    guard.release(pool);
    next
}

#[test]
fn heap_chain_grows_when_the_first_page_is_full() {
    let mut pool = setup_buffer_pool(4);
    let mut heap = TableHeap::create(&mut pool);
    let first = heap.get_first_page_id();
    assert_eq!(first, 1);
    let mut written = Vec::new();
    let mut n: u32 = 0;
    while next_of(&mut pool, first) == 0 {
        let mut record = vec![0u8; 64];
        record[0..4].copy_from_slice(&n.to_le_bytes());
        let rid = heap.insert(&mut pool, &record).unwrap();
        written.push((rid, record));
        n += 1;
    }
    // the first page took what it could hold, the next record went to the second page
    assert_eq!(written.len(), PAYLOAD_SIZE / 64 + 1);
    assert!(written[..PAYLOAD_SIZE / 64].iter().all(|(rid, _)| rid.page_id == first));
    let second = next_of(&mut pool, first);
    assert_eq!(written.last().unwrap().0, RecordId { page_id: second, slot_id: 0 });
    // the chain ends at the second page
    assert_eq!(next_of(&mut pool, second), 0);
    // all rows are read back, in the order in which they were written
    let rows = heap.scan(&mut pool);
    assert_eq!(rows, written);
    assert_eq!(pool.current_size(), 2);
}

#[test]
fn heap_puts_a_record_into_the_first_page_with_room() {
    let mut pool = setup_buffer_pool(2);
    let mut heap = TableHeap::create(&mut pool);
    let big = vec![7u8; PAYLOAD_SIZE - 10];
    let a = heap.insert(&mut pool, &big).unwrap();
    let b = heap.insert(&mut pool, &big).unwrap();
    let c = heap.insert(&mut pool, &big).unwrap();
    assert_eq!((a.page_id, b.page_id, c.page_id), (1, 2, 3));
    // ten bytes are left in each of the three pages: the first one takes the record
    let small = heap.insert(&mut pool, b"0123456789").unwrap();
    assert_eq!(small, RecordId { page_id: 1, slot_id: 1 });
    let next = heap.insert(&mut pool, b"x").unwrap();
    assert_eq!(next, RecordId { page_id: 2, slot_id: 1 });
    // a record that no page can hold is refused and changes nothing
    let too_long = vec![1u8; PAYLOAD_SIZE + 1];
    assert_eq!(heap.insert(&mut pool, &too_long), None);
    let rows = heap.scan(&mut pool);
    assert_eq!(rows.len(), 5);
    assert_eq!(rows[1], (small, b"0123456789".to_vec()));
    assert_eq!(rows[3], (next, b"x".to_vec()));
    // a record that fills a page exactly
    let exact = vec![2u8; PAYLOAD_SIZE];
    assert_eq!(heap.insert(&mut pool, &exact), Some(RecordId { page_id: 4, slot_id: 0 }));
}

#[test]
fn heap_scan_passes_over_deleted_records() {
    let mut pool = setup_buffer_pool(3);
    let mut heap = TableHeap::create(&mut pool);
    let a = heap.insert(&mut pool, b"alpha").unwrap();
    let b = heap.insert(&mut pool, b"bravo").unwrap();
    let c = heap.insert(&mut pool, b"charlie").unwrap();
    let mut guard = pool.fetch_page(b.page_id).unwrap();
    let mut page = *guard.read(&pool);
    page.delete_record(b.slot_id).unwrap();
    guard.write(&mut pool, page);
    guard.release(&mut pool);
    let rows = heap.scan(&mut pool);
    assert_eq!(rows, vec![(a, b"alpha".to_vec()), (c, b"charlie".to_vec())]);
    // the heap is found again from its first page
    let again = TableHeap::attach(&pool, heap.get_first_page_id());
    assert_eq!(again.scan(&mut pool), rows);
}

#[test]
fn heap_gives_all_its_pages_back() {
    let mut pool = setup_buffer_pool(2);
    let mut heap = TableHeap::create(&mut pool);
    let big = vec![7u8; PAYLOAD_SIZE];
    for _ in 0..5 {
        heap.insert(&mut pool, &big).unwrap();
    }
    let mut other = TableHeap::create(&mut pool);
    assert_eq!(other.get_first_page_id(), 6);
    other.insert(&mut pool, b"stays").unwrap();
    heap.free(&mut pool);
    for id in 1..=5 {
        assert_eq!(pool.free_page(id, false), Err(PageError::InvalidPage));
    }
    assert_eq!(other.scan(&mut pool).len(), 1);
    // the ids are handed out again
    let reused = TableHeap::create(&mut pool);
    assert_eq!(reused.get_first_page_id(), 1);
    assert!(reused.scan(&mut pool).is_empty());
}
