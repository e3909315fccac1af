use raincloud_db::bitmap::bitmap_get;
use raincloud_db::storage::page::header_page::{HeaderPage, FREE_HEADER_SIZE};
use raincloud_db::storage::page::page::Page;
use raincloud_db::types::PAGE_SIZE;

const BITMAP_AT: usize = 12;

/// Builds a header page from its parts.
fn page_of(id: u32, next: u32, offset: u32, free_slot: &[u8; FREE_HEADER_SIZE]) -> HeaderPage {
    let mut buf = [0u8; PAGE_SIZE];
    buf[0..4].copy_from_slice(&id.to_le_bytes());
    buf[4..8].copy_from_slice(&next.to_le_bytes());
    buf[8..12].copy_from_slice(&offset.to_le_bytes());
    buf[BITMAP_AT..].copy_from_slice(free_slot);
    HeaderPage::deserialize(&buf).expect("a header page")
}

fn free_slot_of(page: &HeaderPage) -> [u8; FREE_HEADER_SIZE] {
    let buf = page.serialize();
    let mut bits = [0u8; FREE_HEADER_SIZE];
    bits.copy_from_slice(&buf[BITMAP_AT..]);
    bits
}

fn set_bit(bits: &mut [u8; FREE_HEADER_SIZE], index: usize, value: bool) {
    if value {
        bits[index / 8] |= 1 << (index % 8);
    } else {
        bits[index / 8] &= !(1 << (index % 8));
    }
}

#[test]
fn test_get_slot_all_ones() {
    let mut free_slot = [0u8; FREE_HEADER_SIZE];
    // set all bits to 1
    for i in 0..FREE_HEADER_SIZE * 8 {
        set_bit(&mut free_slot, i, true);
    }
    let page = page_of(0, 0, 0, &free_slot);
    // get_slot should return None
    assert_eq!(page.get_slot(), None);
}

#[test]
fn test_get_slot_middle_zero() {
    let mut free_slot = [0u8; FREE_HEADER_SIZE];
    // set all bits to 1
    for i in 0..FREE_HEADER_SIZE * 8 {
        set_bit(&mut free_slot, i, true);
    }
    // clear one bit in the middle
    let mid = (FREE_HEADER_SIZE * 8) / 2;
    set_bit(&mut free_slot, mid, false);
    let page = page_of(0, 0, 0, &free_slot);

    let slot = page.get_slot().expect("should find a free slot");
    assert_eq!(slot, mid);
}

#[test]
fn test_get_slot_tail_zero() {
    let mut free_slot = [0u8; FREE_HEADER_SIZE];
    // set all bits to 1
    for i in 0..FREE_HEADER_SIZE * 8 {
        set_bit(&mut free_slot, i, true);
    }
    // clear the last bit (tail)
    let last = FREE_HEADER_SIZE * 8 - 1;
    set_bit(&mut free_slot, last, false);
    let page = page_of(0, 0, 0, &free_slot);

    let slot = page.get_slot().expect("should find a free slot");
    assert_eq!(slot, last);
}

#[test]
fn test_allocate_deallocate_header() {
    let mut page = page_of(0, 0, 100, &[0u8; FREE_HEADER_SIZE]); // example offset

    // allocate first free slot
    let alloc1 = page.allocate_header().expect("should allocate a slot");
    // the first free slot index is 0, so global index = offset + 0
    assert_eq!(alloc1, 101);

    // allocate second free slot
    let alloc2 = page.allocate_header().expect("should allocate a slot");
    assert_eq!(alloc2, 102);

    // deallocate the first slot
    page.deallocate_header(101);
    // bit should now be cleared
    assert!(!bitmap_get(&free_slot_of(&page), 101));

    // deallocate the second slot
    page.deallocate_header(102);
    assert!(!bitmap_get(&free_slot_of(&page), 102));

    // allocating again should return the first slot again
    let alloc3 = page.allocate_header().expect("should allocate a slot");
    assert_eq!(alloc3, 101);
}

#[test]
fn test_get_free_space_and_is_empty_all_ones() {
    // mark all bits as occupied (all ones)
    let page = page_of(7, 0, 0, &[0xFFu8; FREE_HEADER_SIZE]);

    // no free slot should exist
    assert_eq!(page.get_slot(), None);
    // get_free_space uses unwrap_or(usize::MAX)
    assert_eq!(page.get_free_space(), usize::MAX);
    assert!(page.is_empty());
}

#[test]
fn header_page_test_serialize_deserialize() {
    // fill free_slot with a distinct, non-trivial pattern
    let mut free_slot = [0u8; FREE_HEADER_SIZE];
    for i in 0..FREE_HEADER_SIZE {
        free_slot[i] = (i as u8).wrapping_mul(37).rotate_left((i % 8) as u32);
    }
    // set fields to non-default values
    let page = page_of(123, 5, 0xDEADBEEF_u32, &free_slot);

    // serialize and deserialize
    let buf = page.serialize();
    let parsed = HeaderPage::deserialize(&buf).expect("deserialize returned None");

    // fields should match after deserialization
    assert_eq!(parsed.get_id(), page.get_id(), "id mismatch after deserialize");
    assert_eq!(parsed.get_next(), page.get_next(), "next mismatch after deserialize");
    assert_eq!(parsed.get_next(), Some(5));
    assert_eq!(parsed.get_offset(), page.get_offset(), "offset mismatch after deserialize");
    assert_eq!(parsed.get_offset(), 0xDEADBEEF_usize);
    assert_eq!(
        free_slot_of(&parsed),
        free_slot_of(&page),
        "free_slot mismatch after deserialize"
    );
    assert_eq!(free_slot_of(&parsed), free_slot);
}

#[test]
fn test_partial_free_slots() {
    // set first byte to 0b1111_1110 so bit 0 is free (0 means free in get_slot)
    let mut free_slot = [0xFFu8; FREE_HEADER_SIZE];
    free_slot[0] = 0b1111_1110;
    // rest are occupied
    let page = page_of(11, 0, 0, &free_slot);

    // first free bit is at index 0
    assert_eq!(page.get_slot(), Some(0));
    assert_eq!(page.get_free_space(), 0);
    assert!(!page.is_empty());
}

#[test]
fn header_page_new_covers_the_first_ids() {
    let mut page = HeaderPage::new(1);
    assert_eq!(page.get_id(), 1);
    assert_eq!(page.get_next(), None);
    assert_eq!(page.get_offset(), 0);
    assert!(!page.is_allocated(1));
    assert_eq!(page.allocate_header(), Some(1));
    assert!(page.is_allocated(1));
    assert!(!page.is_allocated(0));
    assert!(!page.is_allocated(2));
    assert_eq!(page.allocate_header(), Some(2));
    page.deallocate_header(1);
    assert!(!page.is_allocated(1));
    assert_eq!(page.allocate_header(), Some(1));
}

#[test]
fn header_page_set_offset_takes_the_index_of_the_header() {
    let mut page = HeaderPage::new(3);
    page.set_next(2);
    page.set_offset(2);
    assert_eq!(page.get_next(), Some(2));
    assert_eq!(page.get_offset(), 2 * FREE_HEADER_SIZE * 8);
    assert_eq!(page.allocate_header(), Some((2 * FREE_HEADER_SIZE * 8 + 1) as u32));
    assert!(page.is_allocated(2 * FREE_HEADER_SIZE * 8 + 1));
    assert!(!page.is_allocated(2 * FREE_HEADER_SIZE * 8));
}

#[test]
fn header_page_full_page_hands_out_nothing() {
    let mut page = page_of(1, 0, 0, &[0xFFu8; FREE_HEADER_SIZE]);
    let before = page.serialize();
    assert_eq!(page.allocate_header(), None);
    assert_eq!(page.serialize(), before);
    assert!(page.is_allocated(FREE_HEADER_SIZE * 8));
    assert!(!page.is_allocated(FREE_HEADER_SIZE * 8 + 1));
}

#[test]
fn header_page_rejects_a_range_past_the_page_ids() {
    let mut buf = [0u8; PAGE_SIZE];
    buf[8..12].copy_from_slice(&u32::MAX.to_le_bytes());
    assert!(HeaderPage::deserialize(&buf).is_none());
    buf[8..12].copy_from_slice(&(u32::MAX - (FREE_HEADER_SIZE * 8) as u32).to_le_bytes());
    assert!(HeaderPage::deserialize(&buf).is_some());
}

#[test]
fn header_page_clear_keeps_the_id() {
    let mut page = page_of(9, 4, 32672, &[0xFFu8; FREE_HEADER_SIZE]);
    page.clear();
    assert_eq!(page.get_id(), 9);
    assert_eq!(page.get_next(), None);
    assert_eq!(page.get_offset(), 0);
    assert_eq!(page.get_slot(), Some(0));
}
