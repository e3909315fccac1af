use raincloud_db::storage::page::index_page::{
    get_internal_capacity, get_leaf_capacity, get_page_header_size, IndexPage, IndexType, RecordId,
};
use raincloud_db::storage::page::page::Page;
use raincloud_db::types::{PageId, SlotId, PAGE_SIZE};

fn create_record(page: PageId, slot: SlotId) -> RecordId {
    RecordId { page_id: page, slot_id: slot }
}

#[test]
fn test_insert_and_search_rid() {
    let mut page = IndexPage::new(1, IndexType::Leaf);
    let rid = create_record(2, 3);
    page.insert_record(42, rid);

    assert_eq!(page.keys, vec![42]);
    assert_eq!(page.search_rid(&42), Some(&rid));
    assert_eq!(page.search_rid(&99), None);
}

#[test]
fn test_insert_duplicate_records() {
    let mut page = IndexPage::new(1, IndexType::Leaf);
    let rid1 = create_record(2, 3);
    let rid2 = create_record(4, 5);
    page.insert_record(42, rid1);
    page.insert_record(42, rid2);

    assert_eq!(page.keys, vec![42]);
    assert_eq!(page.search_rid(&42), Some(&rid2));
}

#[test]
fn test_insert_child_and_search_child() {
    let mut page = IndexPage::new(1, IndexType::Internal);
    page.children.push(10); // leftmost child
    page.insert_child(50, 20);
    page.insert_child(100, 30);

    // search < 50
    assert_eq!(page.search_child(&25), Some(10));
    // search between 50 and 100
    assert_eq!(page.search_child(&75), Some(20));
    // search >= 100
    assert_eq!(page.search_child(&150), Some(30));
}

#[test]
fn test_remove_key_leaf() {
    let mut page = IndexPage::new(1, IndexType::Leaf);
    page.insert_record(1, create_record(2, 1));
    page.insert_record(2, create_record(2, 2));
    page.insert_record(3, create_record(2, 3));

    assert!(page.remove_key(2));
    assert_eq!(page.keys, vec![1, 3]);
    assert!(!page.remove_key(999));
}

#[test]
fn test_split_leaf() {
    let mut page = IndexPage::new(1, IndexType::Leaf);
    for i in 0..6 {
        page.insert_record(i, create_record(1, i as SlotId));
    }

    let (promoted, sibling) = page.split(2);

    assert!(promoted >= 2 && promoted <= 3);
    assert_eq!(page.keys.len() + sibling.keys.len(), 6);
    assert_eq!(page.get_next(), Some(2));
    assert_eq!(sibling.get_next(), None);
}

#[test]
fn test_split_internal() {
    let mut page = IndexPage::new(1, IndexType::Internal);
    page.children.push(0);
    for i in 0..5 {
        page.insert_child(i * 10, (i + 1) as PageId);
    }

    let (promoted, sibling) = page.split(2);

    assert!(page.keys.len() >= 2 && page.keys.len() <= 5);
    assert!(sibling.keys.len() >= 2 && sibling.keys.len() <= 5);
    assert!(promoted == 20 || promoted == 30);
    assert_eq!(page.children.len() + sibling.children.len(), 6);
}

#[test]
fn test_merge_leaf() {
    let mut left = IndexPage::new(1, IndexType::Leaf);
    left.insert_record(1, create_record(1, 1));
    let mut right = IndexPage::new(2, IndexType::Leaf);
    right.insert_record(2, create_record(2, 2));

    left.merge(&mut right);
    assert_eq!(left.keys, vec![1, 2]);
    assert_eq!(left.rids.len(), 2);
    assert_eq!(right.keys.len(), 0); // consumed
}

#[test]
fn test_redistribute_leaf() {
    let mut left = IndexPage::new(1, IndexType::Leaf);
    let mut right = IndexPage::new(2, IndexType::Leaf);

    left.insert_record(1, create_record(1, 1));
    left.insert_record(2, create_record(1, 2));
    right.insert_record(10, create_record(2, 1));

    // borrow from left
    let sep = right.redistribute(&mut left, 10, true, 1);
    assert!(sep.is_some());
    assert!(right.keys.first().unwrap() <= &10);
}

#[test]
fn test_serialize_deserialize_leaf() {
    let mut page = IndexPage::new(1, IndexType::Leaf);
    page.insert_record(42, create_record(7, 11));
    page.set_next(99);

    let buf = page.serialize();
    let deserialized = IndexPage::deserialize(&buf).unwrap();

    assert_eq!(page.id, deserialized.id);
    assert_eq!(page.page_type, deserialized.page_type);
    assert_eq!(page.keys, deserialized.keys);
    assert_eq!(page.rids, deserialized.rids);
    assert_eq!(page.get_next(), deserialized.get_next());
}

#[test]
fn test_serialize_deserialize_internal() {
    let mut page = IndexPage::new(1, IndexType::Internal);
    page.children.push(5);
    page.insert_child(42, 6);

    let buf = page.serialize();
    let deserialized = IndexPage::deserialize(&buf).unwrap();

    assert_eq!(page.id, deserialized.id);
    assert_eq!(page.page_type, deserialized.page_type);
    assert_eq!(page.keys, deserialized.keys);
    assert_eq!(page.children, deserialized.children);
}

#[test]
fn test_free_space_calculation() {
    let mut page = IndexPage::new(1, IndexType::Leaf);
    let free0 = page.get_free_space();

    page.insert_record(1, create_record(1, 1));
    let free1 = page.get_free_space();

    assert!(free1 < free0);
}

#[test]
fn index_page_capacities() {
    assert_eq!(get_page_header_size(), 7);
    assert_eq!(get_leaf_capacity(), (PAGE_SIZE - 7 - 4 - 1) / 13);
    assert_eq!(get_leaf_capacity(), 314);
    assert_eq!(get_internal_capacity(), (PAGE_SIZE - 7 - 4) / 12);
    assert_eq!(get_internal_capacity(), 340);
    let leaf = IndexPage::new(1, IndexType::Leaf);
    assert_eq!(leaf.get_free_space(), PAGE_SIZE - 12);
    let internal = IndexPage::new(1, IndexType::Internal);
    assert_eq!(internal.get_free_space(), PAGE_SIZE - 11);
}

#[test]
fn index_page_leaf_image_layout() {
    let mut page = IndexPage::new(0x01020304, IndexType::Leaf);
    page.insert_record(-2, create_record(7, 11));
    page.insert_record(5, create_record(9, 200));
    page.set_next(99);
    let buf = page.serialize();
    assert_eq!(&buf[0..4], &[4, 3, 2, 1]);
    assert_eq!(buf[4], 0);
    assert_eq!(&buf[5..7], &[2, 0]);
    assert_eq!(buf[7], 1);
    assert_eq!(&buf[8..12], &[99, 0, 0, 0]);
    assert_eq!(&buf[12..20], &(-2i64).to_le_bytes());
    assert_eq!(&buf[20..24], &[7, 0, 0, 0]);
    assert_eq!(buf[24], 11);
    assert_eq!(&buf[25..33], &5i64.to_le_bytes());
    assert_eq!(&buf[33..37], &[9, 0, 0, 0]);
    assert_eq!(buf[37], 200);
    assert!(buf[38..].iter().all(|b| *b == 0));
}

#[test]
fn index_page_internal_image_layout() {
    let mut page = IndexPage::new(8, IndexType::Internal);
    page.children.push(5);
    page.insert_child(42, 6);
    let buf = page.serialize();
    assert_eq!(&buf[0..4], &[8, 0, 0, 0]);
    assert_eq!(buf[4], 1);
    assert_eq!(&buf[5..7], &[1, 0]);
    assert_eq!(&buf[7..15], &42i64.to_le_bytes());
    assert_eq!(&buf[15..19], &[5, 0, 0, 0]);
    assert_eq!(&buf[19..23], &[6, 0, 0, 0]);
    assert!(buf[23..].iter().all(|b| *b == 0));
}

#[test]
fn index_page_rejects_bad_images() {
    let mut buf = [0u8; PAGE_SIZE];
    buf[4] = 2; // no such kind
    assert!(IndexPage::deserialize(&buf).is_none());
    buf[4] = 0;
    buf[5..7].copy_from_slice(&315u16.to_le_bytes()); // more entries than a leaf holds
    assert!(IndexPage::deserialize(&buf).is_none());
    buf[5..7].copy_from_slice(&314u16.to_le_bytes());
    assert!(IndexPage::deserialize(&buf).is_some());
    buf[4] = 1;
    buf[5..7].copy_from_slice(&341u16.to_le_bytes()); // more keys than an internal node holds
    assert!(IndexPage::deserialize(&buf).is_none());
    buf[5..7].copy_from_slice(&340u16.to_le_bytes());
    let page = IndexPage::deserialize(&buf).unwrap();
    assert_eq!(page.keys.len(), 340);
    assert_eq!(page.children.len(), 341);
}

#[test]
fn index_page_split_leaf_exact() {
    let mut page = IndexPage::new(1, IndexType::Leaf);
    for i in 0..4 {
        page.insert_record(i * 10, create_record(1, i as SlotId));
    }
    page.set_next(7);
    let (promoted, sibling) = page.split(2);
    assert_eq!(promoted, 20);
    assert_eq!(page.keys, vec![0, 10]);
    assert_eq!(sibling.keys, vec![20, 30]);
    assert_eq!(page.rids, vec![create_record(1, 0), create_record(1, 1)]);
    assert_eq!(sibling.rids, vec![create_record(1, 2), create_record(1, 3)]);
    assert_eq!(page.get_next(), Some(2));
    assert_eq!(sibling.get_next(), Some(7));
    assert_eq!(sibling.get_id(), 2);
}

#[test]
fn index_page_split_internal_exact() {
    let mut page = IndexPage::new(1, IndexType::Internal);
    page.children.push(100);
    for i in 0..5 {
        page.insert_child(i * 10, (i + 1) as PageId);
    }
    let (promoted, sibling) = page.split(2);
    assert_eq!(promoted, 20);
    assert_eq!(page.keys, vec![0, 10]);
    assert_eq!(page.children, vec![100, 1, 2]);
    assert_eq!(sibling.keys, vec![30, 40]);
    assert_eq!(sibling.children, vec![3, 4, 5]);
    assert_eq!(sibling.page_type, IndexType::Internal);
}

#[test]
fn index_page_redistribute_exact() {
    // between leaves, from the right sibling
    let mut left = IndexPage::new(1, IndexType::Leaf);
    let mut right = IndexPage::new(2, IndexType::Leaf);
    left.insert_record(1, create_record(1, 1));
    right.insert_record(10, create_record(2, 1));
    right.insert_record(11, create_record(2, 2));
    right.insert_record(12, create_record(2, 3));
    assert_eq!(left.redistribute(&mut right, 10, false, 1), Some(11));
    assert_eq!(left.keys, vec![1, 10]);
    assert_eq!(right.keys, vec![11, 12]);
    assert_eq!(left.rids, vec![create_record(1, 1), create_record(2, 1)]);
    // the sibling has none to spare
    assert_eq!(left.redistribute(&mut right, 11, false, 2), None);
    assert_eq!(left.keys, vec![1, 10]);
    assert_eq!(right.keys, vec![11, 12]);

    // between internal nodes, from the left sibling, through the parent
    let mut donor = IndexPage::new(3, IndexType::Internal);
    donor.children.push(30);
    donor.insert_child(5, 31);
    donor.insert_child(8, 32);
    let mut taker = IndexPage::new(4, IndexType::Internal);
    taker.children.push(40);
    taker.insert_child(50, 41);
    assert_eq!(taker.redistribute(&mut donor, 20, true, 1), Some(8));
    assert_eq!(taker.keys, vec![20, 50]);
    assert_eq!(taker.children, vec![32, 40, 41]);
    assert_eq!(donor.keys, vec![5]);
    assert_eq!(donor.children, vec![30, 31]);

    // and from the right sibling
    assert_eq!(donor.redistribute(&mut taker, 9, false, 1), Some(20));
    assert_eq!(donor.keys, vec![5, 9]);
    assert_eq!(donor.children, vec![30, 31, 32]);
    assert_eq!(taker.keys, vec![50]);
    assert_eq!(taker.children, vec![40, 41]);
}

#[test]
fn index_page_merge_internal_with_the_separator() {
    let mut left = IndexPage::new(1, IndexType::Internal);
    left.children.push(10);
    left.insert_child(5, 11);
    let mut right = IndexPage::new(2, IndexType::Internal);
    right.children.push(20);
    right.insert_child(30, 21);
    left.keys.push(15);
    left.merge(&mut right);
    assert_eq!(left.keys, vec![5, 15, 30]);
    assert_eq!(left.children, vec![10, 11, 20, 21]);
    assert!(right.keys.is_empty());
    assert!(right.children.is_empty());
}

#[test]
fn index_page_search_range_and_bounds() {
    let mut page = IndexPage::new(1, IndexType::Leaf);
    assert_eq!(page.min_key(), None);
    assert_eq!(page.max_key(), None);
    for i in 1..=5 {
        page.insert_record(i * 10, create_record(1, i as SlotId));
    }
    assert_eq!(page.min_key(), Some(10));
    assert_eq!(page.max_key(), Some(50));
    let found = page.search_range(&20, &40);
    assert_eq!(found, vec![&create_record(1, 2), &create_record(1, 3), &create_record(1, 4)]);
    assert!(page.search_range(&41, &49).is_empty());
    assert_eq!(page.get_rids().len(), 5);
    assert!(page.remove_key(10));
    assert_eq!(page.min_key(), Some(20));
}

#[test]
fn index_page_remove_key_internal_takes_the_left_child() {
    let mut page = IndexPage::new(1, IndexType::Internal);
    page.get_children_mut().push(10);
    page.insert_child(50, 20);
    page.insert_child(100, 30);
    assert!(page.remove_key(50));
    assert_eq!(page.keys, vec![100]);
    assert_eq!(page.get_children(), &vec![20, 30]);
}
