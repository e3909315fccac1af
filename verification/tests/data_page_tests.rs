use raincloud_db::bitmap::bitmap_get;
use raincloud_db::storage::page::data_page::{DataPage, PAYLOAD_SIZE};
use raincloud_db::storage::page::page::{Page, PageError};
use raincloud_db::types::{SlotId, MAX_SLOTS, PAGE_SIZE};

const SMALL_RECORD: [u8; 3] = [1, 2, 3];
const LARGE_RECORD: [u8; 12] = [4, 5, 6, 7, 8, 9, 10, 11, 12, 13, 14, 15];

const VALID_SLOT_BITMAP_SIZE: usize = 32;
const VALID_SLOTS_AT: usize = 11;
const SLOTS_AT: usize = 43;

fn create_page_with_records() -> (DataPage, SlotId, SlotId) {
    let mut page = DataPage::new(1);
    let slot1 = page.insert_record(&SMALL_RECORD).unwrap();
    let slot2 = page.insert_record(&LARGE_RECORD).unwrap();
    (page, slot1, slot2)
}

/// Builds the image of a page that holds no record.
fn image_of(id: u32, next_id: u32, next_slot: u8, free_start: u16) -> [u8; PAGE_SIZE] {
    let mut buf = [0u8; PAGE_SIZE];
    buf[0..4].copy_from_slice(&id.to_le_bytes());
    buf[4..8].copy_from_slice(&next_id.to_le_bytes());
    buf[8] = next_slot;
    buf[9..11].copy_from_slice(&free_start.to_le_bytes());
    buf
}

fn id_of(page: &DataPage) -> u32 {
    page.get_id()
}

fn next_slot_of(page: &DataPage) -> u8 {
    page.serialize()[8]
}

fn free_start_of(page: &DataPage) -> u16 {
    let buf = page.serialize();
    u16::from_le_bytes([buf[9], buf[10]])
}

fn valid_slots_of(page: &DataPage) -> [u8; VALID_SLOT_BITMAP_SIZE] {
    let buf = page.serialize();
    let mut bits = [0u8; VALID_SLOT_BITMAP_SIZE];
    bits.copy_from_slice(&buf[VALID_SLOTS_AT..SLOTS_AT]);
    bits
}

/// The directory entry of a slot as (offset, length), `None` for the entry (0, 0).
fn slot_of(page: &DataPage, i: usize) -> Option<(u16, u16)> {
    let buf = page.serialize();
    let at = SLOTS_AT + 4 * i;
    let offset = u16::from_le_bytes([buf[at], buf[at + 1]]);
    let length = u16::from_le_bytes([buf[at + 2], buf[at + 3]]);
    if offset == 0 && length == 0 {
        None
    } else {
        Some((offset, length))
    }
}

#[test]
fn test_new_page_initialization() {
    let page = DataPage::new(42);
    assert_eq!(page.get_id(), 42);
    assert!(page.is_empty());
    assert_eq!(page.get_free_space(), PAYLOAD_SIZE);
    assert_eq!(next_slot_of(&page), 0);
    assert_eq!(free_start_of(&page), PAYLOAD_SIZE as u16);
    assert!((0..MAX_SLOTS).all(|i| slot_of(&page, i).is_none()));
}

#[test]
fn test_insert_record() {
    let mut page = DataPage::new(1);
    let initial_free_space = page.get_free_space();

    let slot_id = page.insert_record(&SMALL_RECORD).unwrap();

    assert!(!page.is_empty());
    assert_eq!(page.get_free_space(), initial_free_space - SMALL_RECORD.len());
    assert!(bitmap_get(&valid_slots_of(&page), slot_id as usize));
    assert_eq!(page.get_record(slot_id).unwrap(), SMALL_RECORD);
}

#[test]
fn data_page_test_insert_and_get_record() {
    let mut page = DataPage::new(1);
    let record = b"hello world";

    let slot_id = page.insert_record(record).expect("insert should succeed");
    let fetched = page.get_record(slot_id).expect("record should exist");

    assert_eq!(fetched, record);
}

#[test]
fn test_insert_too_large_record_fails() {
    let mut page = DataPage::new(1);
    let record = vec![0u8; PAGE_SIZE]; // too large to fit
    assert!(page.insert_record(&record).is_none());
}

#[test]
fn test_multiple_insert_and_fetch() {
    let mut page = DataPage::new(1);
    let records = vec![b"e1", b"e2", b"e3"];

    let mut ids = vec![];
    for rec in &records {
        let id = page.insert_record(*rec).expect("insert");
        ids.push(id);
    }

    for (i, rec) in records.iter().enumerate() {
        let got = page.get_record(ids[i]).expect("should exist");
        assert_eq!(got, *rec);
    }
}

#[test]
fn test_delete_record() {
    let (mut page, slot1, slot2) = create_page_with_records();

    assert!(page.delete_record(slot1).is_ok());
    assert!(!bitmap_get(&valid_slots_of(&page), slot1 as usize));
    assert!(page.get_record(slot1).is_none());

    // slot2 should still be valid
    assert!(bitmap_get(&valid_slots_of(&page), slot2 as usize));
    assert_eq!(page.get_record(slot2).unwrap(), LARGE_RECORD);
}

#[test]
fn test_delete_invalid_slot() {
    let mut page = DataPage::new(1);
    assert_eq!(page.delete_record(99), Err(PageError::InvalidSlot)); // out of range
}

#[test]
fn test_get_invalid_slot() {
    let page = DataPage::new(1);
    assert!(page.get_record(0).is_none());
}

#[test]
fn test_fill_page_until_full() {
    let mut page = DataPage::new(1);
    let record = vec![1u8; 64];

    let mut count = 0;
    while let Some(_) = page.insert_record(&record) {
        count += 1;
    }

    assert!(page.insert_record(&record).is_none());
    assert_eq!(count, PAYLOAD_SIZE / 64);
}

#[test]
fn test_update_record_same_size() {
    let (mut page, slot, _) = create_page_with_records();
    let initial_free_space = page.get_free_space();
    let new_data = [10, 11, 12];

    assert!(page.update_record(slot, &new_data).is_ok());

    assert_eq!(page.get_record(slot).unwrap(), new_data);
    assert_eq!(page.get_free_space(), initial_free_space);
}

#[test]
fn test_update_record_different_size() {
    let (mut page, slot_id, _) = create_page_with_records();
    let new_data = [10, 11, 12, 13]; // larger than the first

    let result = page.update_record(slot_id, &new_data);
    assert!(result.is_err());
    assert_eq!(page.get_record(slot_id).unwrap(), SMALL_RECORD);
}

#[test]
fn test_iter_records() {
    let (page, slot1, slot2) = create_page_with_records();
    let records: Vec<_> = page.iter_record();

    assert_eq!(records.len(), 2);
    assert!(records.contains(&(slot1, &SMALL_RECORD[..])));
    assert!(records.contains(&(slot2, &LARGE_RECORD[..])));
}

#[test]
fn data_page_test_serialize_deserialize() {
    let mut page = DataPage::deserialize(&image_of(42, 0, 0, 800)).expect("a page");

    let content = b"hello world!";
    let slot_id = page.insert_record(content);

    let serialized = page.serialize();
    let deserialized = DataPage::deserialize(&serialized).expect("Failed to deserialize");

    // Check header
    assert_eq!(id_of(&deserialized), id_of(&page));
    assert_eq!(free_start_of(&deserialized), free_start_of(&page));
    assert_eq!(next_slot_of(&deserialized), next_slot_of(&page));

    // Check slot
    let first_slot = slot_of(&page, 0).unwrap();
    let deserialized_slot = slot_of(&deserialized, 0).unwrap();
    assert_eq!(first_slot.0, deserialized_slot.0);
    assert_eq!(first_slot.1, deserialized_slot.1);
    assert_eq!(
        bitmap_get(&valid_slots_of(&page), 0),
        bitmap_get(&valid_slots_of(&deserialized), 0)
    );

    // Check payload
    let recovered = page.get_record(slot_id.unwrap()).expect("should exist");
    assert_eq!(recovered, content);
}

#[test]
fn test_serialize_with_empty_slots() {
    let page = DataPage::deserialize(&image_of(99, 100, 42, 1000)).expect("a page");

    let serialized = page.serialize();
    let deserialized =
        DataPage::deserialize(&serialized).expect("Failed to deserialize empty page");

    assert_eq!(id_of(&deserialized), 99);
    assert_eq!(free_start_of(&deserialized), 1000);
    assert_eq!(next_slot_of(&deserialized), 42);
    for i in 0..MAX_SLOTS {
        assert!(slot_of(&deserialized, i).is_none());
        assert!(!bitmap_get(&valid_slots_of(&page), i))
    }
}

#[test]
fn data_page_slots_are_handed_out_in_order() {
    let mut page = DataPage::new(7);
    assert_eq!(page.insert_record(b"alpha"), Some(0));
    assert_eq!(page.insert_record(b"bravo"), Some(1));
    assert_eq!(page.insert_record(b"charlie"), Some(2));
    assert_eq!(slot_of(&page, 0), Some(((PAYLOAD_SIZE - 5) as u16, 5)));
    assert_eq!(slot_of(&page, 1), Some(((PAYLOAD_SIZE - 10) as u16, 5)));
    assert_eq!(slot_of(&page, 2), Some(((PAYLOAD_SIZE - 17) as u16, 7)));
    assert_eq!(page.get_free_space(), PAYLOAD_SIZE - 17);
}

#[test]
fn data_page_keeps_two_records_through_an_image() {
    let mut page = DataPage::new(42);
    page.insert_record(b"alpha").unwrap();
    let second = page.insert_record(b"bravo").unwrap();
    page.insert_record(b"charlie").unwrap();
    page.delete_record(second).unwrap();
    let back = DataPage::deserialize(&page.serialize()).unwrap();
    assert_eq!(back.get_id(), 42);
    assert_eq!(back.get_record(0).unwrap(), b"alpha");
    assert!(back.get_record(1).is_none());
    assert_eq!(back.get_record(2).unwrap(), b"charlie");
    assert_eq!(back.serialize(), page.serialize());
}

#[test]
fn data_page_insert_longer_than_free_space_fails_cleanly() {
    let mut page = DataPage::new(1);
    let before = page.serialize();
    let record = vec![7u8; PAYLOAD_SIZE + 1];
    assert!(page.insert_record(&record).is_none());
    assert_eq!(page.serialize(), before);
    let exact = vec![7u8; PAYLOAD_SIZE];
    assert_eq!(page.insert_record(&exact), Some(0));
    assert_eq!(page.get_free_space(), 0);
    assert!(page.insert_record(&[1u8]).is_none());
}

#[test]
fn data_page_stops_at_the_last_slot() {
    let mut page = DataPage::new(1);
    for i in 0..MAX_SLOTS {
        assert_eq!(page.insert_record(&[i as u8]), Some(i as u8));
    }
    let before = page.serialize();
    assert!(page.insert_record(&[0u8]).is_none());
    assert_eq!(page.serialize(), before);
    assert_eq!(next_slot_of(&page), MAX_SLOTS as u8);
}

#[test]
fn data_page_update_and_delete_errors() {
    let (mut page, slot, _) = create_page_with_records();
    assert_eq!(page.update_record(slot, &[1, 2]), Err(PageError::RecordSizeChanged));
    assert_eq!(page.update_record(9, &[1, 2, 3]), Err(PageError::InvalidSlot));
    assert_eq!(page.delete_record(slot), Ok(()));
    assert_eq!(page.delete_record(slot), Err(PageError::InvalidSlot));
    assert_eq!(page.update_record(slot, &[1, 2, 3]), Err(PageError::InvalidSlot));
}

#[test]
fn data_page_rejects_images_that_break_the_invariant() {
    // free_start beyond the payload
    assert!(DataPage::deserialize(&image_of(1, 0, 0, (PAYLOAD_SIZE + 1) as u16)).is_none());
    // a live slot that was never handed out
    let mut buf = image_of(1, 0, 0, 100);
    buf[VALID_SLOTS_AT] = 1;
    assert!(DataPage::deserialize(&buf).is_none());
    // a live slot that reaches past the payload
    let mut buf = image_of(1, 0, 1, 100);
    buf[VALID_SLOTS_AT] = 1;
    buf[SLOTS_AT..SLOTS_AT + 2].copy_from_slice(&3000u16.to_le_bytes());
    buf[SLOTS_AT + 2..SLOTS_AT + 4].copy_from_slice(&100u16.to_le_bytes());
    assert!(DataPage::deserialize(&buf).is_none());
    // two live slots that overlap
    let mut buf = image_of(1, 0, 2, 100);
    buf[VALID_SLOTS_AT] = 3;
    buf[SLOTS_AT..SLOTS_AT + 2].copy_from_slice(&200u16.to_le_bytes());
    buf[SLOTS_AT + 2..SLOTS_AT + 4].copy_from_slice(&10u16.to_le_bytes());
    buf[SLOTS_AT + 4..SLOTS_AT + 6].copy_from_slice(&205u16.to_le_bytes());
    buf[SLOTS_AT + 6..SLOTS_AT + 8].copy_from_slice(&10u16.to_le_bytes());
    assert!(DataPage::deserialize(&buf).is_none());
    // the same two slots side by side are accepted
    buf[SLOTS_AT + 4..SLOTS_AT + 6].copy_from_slice(&210u16.to_le_bytes());
    assert!(DataPage::deserialize(&buf).is_some());
}

#[test]
fn data_page_next_id_and_clear() {
    let mut page = DataPage::new(5);
    assert_eq!(page.get_next_id(), 0);
    page.set_next_id(9);
    assert_eq!(page.get_next_id(), 9);
    page.insert_record(b"x").unwrap();
    page.clear();
    assert!(page.is_empty());
    assert_eq!(page.get_id(), 5);
    assert_eq!(page.get_next_id(), 0);
    assert_eq!(page.get_free_space(), PAYLOAD_SIZE);
}
