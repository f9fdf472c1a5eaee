use aries_rust::{BuzzDBError, PageID, RecordID, SlottedPage};

#[test]
fn new_page_has_all_slots_empty() {
    let page = SlottedPage::new(PageID(9), 4);
    assert_eq!(page.slots.len(), 4);
    for i in 0..4 {
        assert!(matches!(
            page.get_record_id(i),
            Err(BuzzDBError::EmptySlot(_))
        ));
    }
}

#[test]
fn allocate_slot_takes_the_smallest_empty_slot() {
    let mut page = SlottedPage::new(PageID(1), 3);
    assert_eq!(page.allocate_slot(RecordID(10)), Some(0));
    assert_eq!(page.allocate_slot(RecordID(11)), Some(1));
    page.deallocate_slot(0).unwrap();
    assert_eq!(page.allocate_slot(RecordID(12)), Some(0));
    assert_eq!(page.allocate_slot(RecordID(13)), Some(2));
    assert_eq!(page.allocate_slot(RecordID(14)), None); // page full
}

#[test]
fn deallocate_slot_past_the_count_reports_invalid_slot_index() {
    let mut page = SlottedPage::new(PageID(1), 2);
    let r = page.deallocate_slot(2);
    assert!(matches!(r, Err(BuzzDBError::InvalidSlotIndex(2))));
}

#[test]
fn get_record_id_on_an_empty_slot_reports_empty_slot() {
    let page = SlottedPage::new(PageID(1), 2);
    assert!(matches!(
        page.get_record_id(1),
        Err(BuzzDBError::EmptySlot(1))
    ));
    assert!(matches!(
        page.get_record_id(5),
        Err(BuzzDBError::InvalidSlotIndex(5))
    ));
}

#[test]
fn serialization_round_trips() {
    let mut page = SlottedPage::new(PageID(42), 3);
    page.allocate_slot(RecordID(7));
    page.allocate_slot(RecordID(300));
    page.deallocate_slot(0).unwrap();

    let bytes = page.serialize();
    let back = SlottedPage::deserialize(&bytes).unwrap();

    assert_eq!(back.page_id, page.page_id);
    assert_eq!(back.slots, page.slots);
}

#[test]
fn serialization_has_the_documented_layout() {
    // 8 bytes page id, 8 bytes slot count, then 9 bytes per slot: a tag
    // byte and the record id, little-endian throughout.
    let mut page = SlottedPage::new(PageID(1), 2);
    page.allocate_slot(RecordID(5));
    let bytes = page.serialize();
    assert_eq!(bytes.len(), 16 + 9 * 2);
    assert_eq!(&bytes[0..8], &[1, 0, 0, 0, 0, 0, 0, 0]); // page id
    assert_eq!(&bytes[8..16], &[2, 0, 0, 0, 0, 0, 0, 0]); // slot count
    assert_eq!(&bytes[16..25], &[1, 5, 0, 0, 0, 0, 0, 0, 0]); // occupied slot
    assert_eq!(&bytes[25..34], &[0, 0, 0, 0, 0, 0, 0, 0, 0]); // empty slot
}

#[test]
fn deserialize_tolerates_trailing_padding() {
    let mut page = SlottedPage::new(PageID(3), 1);
    page.allocate_slot(RecordID(8));
    let mut bytes = page.serialize();
    bytes.resize(4096, 0); // zero-padded as on a disk block
    let back = SlottedPage::deserialize(&bytes).unwrap();
    assert_eq!(back.page_id, PageID(3));
    assert_eq!(back.get_record_id(0).unwrap(), RecordID(8));
}

#[test]
fn deserialize_rejects_malformed_bytes() {
    assert!(matches!(
        SlottedPage::deserialize(&[1, 2, 3]),
        Err(BuzzDBError::DeserializationError)
    ));
    // Valid header claiming more slots than the buffer holds.
    let mut bytes = vec![0u8; 16];
    bytes[8] = 200;
    assert!(matches!(
        SlottedPage::deserialize(&bytes),
        Err(BuzzDBError::DeserializationError)
    ));
    // A slot tag that is neither empty nor occupied.
    let mut page_bytes = SlottedPage::new(PageID(0), 1).serialize();
    page_bytes[16] = 9;
    assert!(matches!(
        SlottedPage::deserialize(&page_bytes),
        Err(BuzzDBError::DeserializationError)
    ));
}
