use aries_rust::{
    BuzzDBError, FileMode, HeapSegment, MemoryFile, PageID, RecordID, TransactionID,
};

fn fresh_segment(page_size: usize, slots: usize, cache: usize) -> HeapSegment {
    HeapSegment::new(MemoryFile::new(FileMode::WRITE), page_size, slots, cache)
}

#[test]
fn heap_record_cycle_survives_a_reopen() {
    // Allocate a page, insert a record, read it back, delete it, commit,
    // reopen the segment over the same bytes, and find the slot empty.
    let txn = TransactionID(10);
    let mut segment = fresh_segment(4096, 4, 8);

    let page = segment.allocate_page(txn).unwrap();
    let slot = segment.insert_record(page, RecordID(7), txn).unwrap();
    assert_eq!(slot, 0);
    assert_eq!(segment.get_record(page, 0).unwrap(), RecordID(7));

    segment.delete_record(page, 0, txn).unwrap();
    assert!(matches!(
        segment.get_record(page, 0),
        Err(BuzzDBError::EmptySlot(0))
    ));

    segment.commit_transaction(txn).unwrap();

    let bytes = segment.file.get_data().to_vec();
    let mut reopened = HeapSegment::new(
        MemoryFile::with_data(bytes, FileMode::WRITE),
        4096,
        4,
        8,
    );
    assert!(matches!(
        reopened.get_record(page, 0),
        Err(BuzzDBError::EmptySlot(0))
    ));
}

#[test]
fn allocated_page_reads_back_empty_before_any_mutation() {
    // The freshly allocated page is durable at once: a second segment
    // over the same file sees the empty page with the configured slot
    // count.
    let mut segment = fresh_segment(4096, 6, 8);
    let page = segment.allocate_page(TransactionID(1)).unwrap();
    assert_eq!(page, PageID(0));

    let bytes = segment.file.get_data().to_vec();
    let mut reopened = HeapSegment::new(
        MemoryFile::with_data(bytes, FileMode::WRITE),
        4096,
        6,
        8,
    );
    let read_back = reopened.get_page(page).unwrap();
    assert_eq!(read_back.page_id, page);
    assert_eq!(read_back.slots.len(), 6);
    assert!(read_back.slots.iter().all(|s| s.is_none()));
}

#[test]
fn page_ids_count_up() {
    let mut segment = fresh_segment(512, 2, 8);
    assert_eq!(segment.allocate_page(TransactionID(1)).unwrap(), PageID(0));
    assert_eq!(segment.allocate_page(TransactionID(1)).unwrap(), PageID(1));
    assert_eq!(segment.next_page_id, 2);
}

#[test]
fn insert_into_a_full_page_reports_page_full() {
    let txn = TransactionID(2);
    let mut segment = fresh_segment(4096, 2, 8);
    let page = segment.allocate_page(txn).unwrap();
    segment.insert_record(page, RecordID(1), txn).unwrap();
    segment.insert_record(page, RecordID(2), txn).unwrap();
    assert!(matches!(
        segment.insert_record(page, RecordID(3), txn),
        Err(BuzzDBError::PageFull(p)) if p == page.0
    ));
}

#[test]
fn two_transactions_cannot_modify_one_page() {
    let mut segment = fresh_segment(4096, 4, 8);
    let page = segment.allocate_page(TransactionID(1)).unwrap();
    let r = segment.insert_record(page, RecordID(9), TransactionID(2));
    assert!(matches!(r, Err(BuzzDBError::Other(_))));
}

#[test]
fn abort_restores_the_last_durable_version() {
    let txn = TransactionID(5);
    let mut segment = fresh_segment(4096, 4, 8);
    let page = segment.allocate_page(txn).unwrap();
    segment.insert_record(page, RecordID(7), txn).unwrap();
    segment.commit_transaction(txn).unwrap();

    // A second transaction deletes the record but aborts.
    let txn2 = TransactionID(6);
    segment.delete_record(page, 0, txn2).unwrap();
    segment.abort_transaction(txn2).unwrap();

    assert_eq!(segment.get_record(page, 0).unwrap(), RecordID(7));
}

#[test]
fn reading_an_unallocated_page_reports_page_not_found() {
    let mut segment = fresh_segment(4096, 4, 8);
    assert!(matches!(
        segment.get_record(PageID(3), 0),
        Err(BuzzDBError::PageNotFound(3))
    ));
}

#[test]
fn a_page_too_large_for_its_slot_is_rejected() {
    // 16 header bytes plus 9 per slot exceed a 32-byte page.
    let mut segment = fresh_segment(32, 4, 8);
    assert!(matches!(
        segment.allocate_page(TransactionID(1)),
        Err(BuzzDBError::PageSizeExceeded(52, 32))
    ));
}

#[test]
fn eviction_refuses_owned_pages_until_the_cache_is_stuck() {
    // A cache of one page where every page is owned by a live
    // transaction cannot make room.
    let mut segment = fresh_segment(4096, 2, 1);
    segment.allocate_page(TransactionID(1)).unwrap();
    assert!(matches!(
        segment.allocate_page(TransactionID(1)),
        Err(BuzzDBError::BufferFull)
    ));
    // After a flush the cached page is clean and unowned, so the next
    // allocation evicts it.
    segment.flush().unwrap();
    segment.allocate_page(TransactionID(1)).unwrap();
}

#[test]
fn flush_writes_every_dirty_page() {
    let txn = TransactionID(3);
    let mut segment = fresh_segment(4096, 2, 8);
    let p0 = segment.allocate_page(txn).unwrap();
    segment.insert_record(p0, RecordID(44), txn).unwrap();
    segment.flush().unwrap();
    assert!(segment.dirty_pages.is_empty());

    let bytes = segment.file.get_data().to_vec();
    let mut reopened = HeapSegment::new(
        MemoryFile::with_data(bytes, FileMode::WRITE),
        4096,
        2,
        8,
    );
    assert_eq!(reopened.get_record(p0, 0).unwrap(), RecordID(44));
}
