use raincloud_db::storage::disk_manager::{DiskManager, MemoryDiskManager};
use raincloud_db::storage::free_list::{FreeList, FreeListError};
use raincloud_db::storage::page::header_page::{HeaderPage, FREE_HEADER_SIZE};
use raincloud_db::storage::page::page::Page;
use raincloud_db::types::{FLUSH, NO_FLUSH};

fn setup_freelist() -> FreeList<MemoryDiskManager> {
    FreeList::new(MemoryDiskManager::new(), 0)
}

fn header_on_disk(freelist: &FreeList<MemoryDiskManager>, id: u32) -> Option<HeaderPage> {
    freelist.disk().read_page(id)
}

#[test]
fn allocate_creates_first_header() {
    let mut freelist = setup_freelist();
    freelist.allocate(FLUSH);

    // After allocation, the disk should contain header page with id 1
    header_on_disk(&freelist, 1).expect("header page 1 should exist on disk");
}

#[test]
fn deallocate_on_empty_returns_err() {
    let mut freelist = setup_freelist();
    let res = freelist.deallocate(10, FLUSH);
    assert!(res.is_err(), "deallocate on empty freelist should return Err");
}

#[test]
fn deallocate_and_reuse_page() {
    let mut freelist = setup_freelist();
    let header = freelist.allocate(NO_FLUSH);
    freelist.flush_all();

    // deallocate header back
    freelist.deallocate(header, FLUSH).expect("deallocate should succeed");

    // allocate again, should reuse the same page id
    let header2 = freelist.allocate(FLUSH);
    assert_eq!(header, header2, "re-allocated header should be the same as deallocated one");

    // flush header to disk and read back to ensure no panics and data exists
    freelist.flush_header(1);
    header_on_disk(&freelist, 1).expect("header page 1 should exist");
}

#[test]
fn allocate_second_header_when_full() {
    let mut freelist = setup_freelist();

    // fill the first header completely
    let mut allocated = vec![];
    for _ in 0..=(8 * FREE_HEADER_SIZE) {
        let p = freelist.allocate(FLUSH);
        allocated.push(p);
    }

    // next allocation should force creation of a new header page
    let extra = freelist.allocate(FLUSH);
    freelist.flush_all();

    // creates new header page id = start + 1 (start == 1) -> page id 2
    let second_page = header_on_disk(&freelist, 2);
    assert!(second_page.is_some(), "expected a second header page on disk (id 2)");
    assert_ne!(extra, 0, "allocated page id should be non-zero");
}

#[test]
fn flush_header_persist() {
    let mut freelist = setup_freelist();

    freelist.allocate(NO_FLUSH);
    // flush a specific header page
    freelist.flush_header(1);

    // flush all headers
    freelist.flush_all();

    // confirm header page exists on disk after flushes
    header_on_disk(&freelist, 1).expect("header page 1 should exist after flush");
    assert_ne!(freelist.get_head(), 0);
}

#[test]
fn free_list_hands_out_the_ids_from_one_on() {
    let mut freelist = setup_freelist();
    assert_eq!(freelist.get_head(), 0);
    assert_eq!(freelist.allocate(NO_FLUSH), 1);
    assert_eq!(freelist.get_head(), 1);
    assert_eq!(freelist.allocate(NO_FLUSH), 2);
    assert_eq!(freelist.allocate(NO_FLUSH), 3);
    // nothing was written yet
    assert!(header_on_disk(&freelist, 1).is_none());
    freelist.flush_all();
    let header = header_on_disk(&freelist, 1).unwrap();
    assert_eq!(header.get_id(), 1);
    assert_eq!(header.get_next(), None);
    assert_eq!(header.get_offset(), 0);
    assert!(header.is_allocated(3));
    assert!(!header.is_allocated(4));
}

#[test]
fn free_list_reuses_a_freed_id() {
    let mut freelist = setup_freelist();
    let a = freelist.allocate(FLUSH);
    let b = freelist.allocate(FLUSH);
    let c = freelist.allocate(FLUSH);
    assert_eq!((a, b, c), (1, 2, 3));
    assert_eq!(freelist.deallocate(b, FLUSH), Ok(()));
    assert_eq!(freelist.allocate(FLUSH), b);
    assert_eq!(freelist.allocate(FLUSH), 4);
}

#[test]
fn free_list_tells_the_errors_apart() {
    let mut freelist = setup_freelist();
    assert_eq!(freelist.deallocate(1, FLUSH), Err(FreeListError::Empty));
    let a = freelist.allocate(FLUSH);
    assert_eq!(freelist.deallocate(0, FLUSH), Err(FreeListError::NotCovered));
    assert_eq!(
        freelist.deallocate((8 * FREE_HEADER_SIZE + 1) as u32, FLUSH),
        Err(FreeListError::NotCovered)
    );
    assert_eq!(freelist.deallocate(a + 1, FLUSH), Err(FreeListError::DoubleFree));
    assert_eq!(freelist.deallocate(a, FLUSH), Ok(()));
    assert_eq!(freelist.deallocate(a, FLUSH), Err(FreeListError::DoubleFree));
}

#[test]
fn free_list_appends_a_header_and_walks_from_the_head() {
    let mut freelist = setup_freelist();
    let span = (8 * FREE_HEADER_SIZE) as u32;
    for expected in 1..=span {
        assert_eq!(freelist.allocate(NO_FLUSH), expected);
    }
    assert_eq!(freelist.get_head(), 1);
    // the first header is full: a second one becomes the head
    assert_eq!(freelist.allocate(NO_FLUSH), span + 1);
    assert_eq!(freelist.get_head(), 2);
    // an id of the first header is given back; the walk starts at the head
    assert_eq!(freelist.deallocate(5, NO_FLUSH), Ok(()));
    assert_eq!(freelist.allocate(NO_FLUSH), span + 2);
    assert_eq!(freelist.deallocate(span + 1, NO_FLUSH), Ok(()));
    assert_eq!(freelist.allocate(NO_FLUSH), span + 1);
    freelist.flush_all();
    let second = header_on_disk(&freelist, 2).unwrap();
    assert_eq!(second.get_next(), Some(1));
    assert_eq!(second.get_offset(), span as usize);
    let first = header_on_disk(&freelist, 1).unwrap();
    assert!(!first.is_allocated(5));
    assert!(first.is_allocated(6));
    // a free list over what is on disk goes on from there
    let disk = freelist.into_disk();
    let mut reopened = FreeList::new(disk, 2);
    assert_eq!(reopened.allocate(FLUSH), span + 3);
    assert_eq!(reopened.deallocate(6, FLUSH), Ok(()));
}
