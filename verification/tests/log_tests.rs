use aries_rust::{
    BufferManager, FileMode, LogManager, LogRecordType, MemoryFile, PageID, TransactionID,
    TransactionManager,
};

#[test]
fn test_log_manager_basic() {
    let mut log_manager = LogManager::new(MemoryFile::new(FileMode::WRITE));

    let txn_id = TransactionID(1);

    // Log different types of records
    log_manager.log_txn_begin(txn_id).unwrap();

    let page_id = PageID(1);
    let before_img = vec![0; 10];
    let after_img = vec![1; 10];
    log_manager
        .log_update(txn_id, page_id, 10, 0, &before_img, &after_img)
        .unwrap();

    log_manager.log_commit(txn_id).unwrap();

    // Verify log record counts
    assert_eq!(
        log_manager.get_total_log_records_of_type(LogRecordType::BeginRecord),
        1
    );
    assert_eq!(
        log_manager.get_total_log_records_of_type(LogRecordType::UpdateRecord),
        1
    );
    assert_eq!(
        log_manager.get_total_log_records_of_type(LogRecordType::CommitRecord),
        1
    );
}

#[test]
fn test_log_recovery() {
    let mut log_manager = LogManager::new(MemoryFile::new(FileMode::WRITE));
    let mut buffer_manager = BufferManager::new(4096, 10);

    let txn_id = TransactionID(1);
    let page_id = PageID(1);

    // Create some log records
    log_manager.log_txn_begin(txn_id).unwrap();

    let before_img = vec![0; 10];
    let after_img = vec![1; 10];
    log_manager
        .log_update(txn_id, page_id, 10, 0, &before_img, &after_img)
        .unwrap();

    // Simulate crash before commit
    log_manager.recovery(&mut buffer_manager).unwrap();
}

#[test]
fn test_log_record_count() {
    let buffer_manager = BufferManager::new(4096, 10);
    let log_manager = LogManager::new(MemoryFile::new(FileMode::WRITE));
    let mut txn_manager = TransactionManager::new(log_manager, buffer_manager);

    let txn_id = txn_manager.start_txn().unwrap();

    // Add two update operations
    let page_id = PageID(1);
    let before_img = vec![0; 10];
    let after_img = vec![1; 10];

    txn_manager
        .log_manager
        .log_update(txn_id, page_id, 10, 0, &before_img, &after_img)
        .unwrap();

    txn_manager
        .log_manager
        .log_update(txn_id, PageID(2), 10, 0, &before_img, &after_img)
        .unwrap();

    txn_manager.commit_txn(txn_id).unwrap();

    let log_count = txn_manager.log_manager.get_total_log_records();
    assert_eq!(log_count, 4); // Begin + 2 Updates + Commit

    let update_count = txn_manager
        .log_manager
        .get_total_log_records_of_type(LogRecordType::UpdateRecord);
    assert_eq!(update_count, 2);
}

#[test]
fn test_open_commit_open_crash() {
    let buffer_manager = BufferManager::new(4096, 10);
    let log_manager = LogManager::new(MemoryFile::new(FileMode::WRITE));
    let mut txn_manager = TransactionManager::new(log_manager, buffer_manager);

    // T1: Start but don't commit
    let _txn1 = txn_manager.start_txn().unwrap();
    txn_manager.buffer_manager.flush_all_pages().unwrap();

    // T2: Start and commit
    let txn2 = txn_manager.start_txn().unwrap();
    txn_manager.commit_txn(txn2).unwrap();

    // T3: Start but don't commit
    let _txn3 = txn_manager.start_txn().unwrap();
    txn_manager.buffer_manager.flush_all_pages().unwrap();

    // Simulate crash
    txn_manager.buffer_manager.discard_all_pages().unwrap();
    let new_log_file = MemoryFile::new(FileMode::WRITE);
    txn_manager.log_manager.reset(new_log_file).unwrap();

    assert_eq!(txn_manager.log_manager.get_total_log_records(), 0);
}

#[test]
fn begin_record_has_the_documented_framing() {
    // A Begin record is the type byte 0 followed by the transaction id as
    // 8 little-endian bytes.
    let mut lm = LogManager::new(MemoryFile::new(FileMode::WRITE));
    lm.log_txn_begin(TransactionID(7)).unwrap();
    assert_eq!(lm.log_file.get_data(), &[0u8, 7, 0, 0, 0, 0, 0, 0, 0]);
    lm.log_commit(TransactionID(7)).unwrap();
    assert_eq!(
        &lm.log_file.get_data()[9..],
        &[1u8, 7, 0, 0, 0, 0, 0, 0, 0]
    );
}

#[test]
fn update_record_framing_carries_both_images() {
    let mut lm = LogManager::new(MemoryFile::new(FileMode::WRITE));
    lm.log_update(TransactionID(3), PageID(5), 2, 16, &[10, 11], &[20, 21])
        .unwrap();
    let data = lm.log_file.get_data();
    assert_eq!(data.len(), 33 + 4);
    assert_eq!(data[0], 3); // update type byte
    assert_eq!(&data[1..9], &[3, 0, 0, 0, 0, 0, 0, 0]); // txn id
    assert_eq!(&data[9..17], &[5, 0, 0, 0, 0, 0, 0, 0]); // page id
    assert_eq!(&data[17..25], &[2, 0, 0, 0, 0, 0, 0, 0]); // length
    assert_eq!(&data[25..33], &[16, 0, 0, 0, 0, 0, 0, 0]); // offset
    assert_eq!(&data[33..35], &[10, 11]); // before image
    assert_eq!(&data[35..37], &[20, 21]); // after image
}

fn frame_data<'a>(bm: &'a BufferManager, pid: PageID) -> &'a [u8] {
    for f in bm.frames.iter() {
        if f.get_page_id() == pid {
            return f.get_data();
        }
    }
    panic!("page not resident");
}

#[test]
fn recovery_redoes_winners_and_undoes_losers() {
    // T1 stays active (loser), T2 commits (winner): after recovery the
    // committed after-image is present and the loser's bytes are rolled
    // back to its before image.
    let mut lm = LogManager::new(MemoryFile::new(FileMode::WRITE));
    let mut bm = BufferManager::new(64, 10);

    lm.log_txn_begin(TransactionID(1)).unwrap();
    lm.log_update(TransactionID(1), PageID(1), 4, 0, &[0; 4], &[1; 4])
        .unwrap();
    lm.log_txn_begin(TransactionID(2)).unwrap();
    lm.log_update(TransactionID(2), PageID(2), 4, 8, &[0; 4], &[2; 4])
        .unwrap();
    lm.log_commit(TransactionID(2)).unwrap();

    lm.recovery(&mut bm).unwrap();

    assert_eq!(&frame_data(&bm, PageID(1))[0..4], &[0; 4]);
    assert_eq!(&frame_data(&bm, PageID(2))[8..12], &[2; 4]);
}

#[test]
fn recovery_twice_leaves_the_state_of_the_first_run() {
    let mut lm = LogManager::new(MemoryFile::new(FileMode::WRITE));
    let mut bm = BufferManager::new(64, 10);

    lm.log_txn_begin(TransactionID(1)).unwrap();
    lm.log_update(TransactionID(1), PageID(1), 4, 0, &[9; 4], &[1; 4])
        .unwrap();
    lm.log_txn_begin(TransactionID(2)).unwrap();
    lm.log_update(TransactionID(2), PageID(1), 4, 4, &[0; 4], &[2; 4])
        .unwrap();
    lm.log_commit(TransactionID(2)).unwrap();

    lm.recovery(&mut bm).unwrap();
    let after_first: Vec<u8> = frame_data(&bm, PageID(1)).to_vec();
    lm.recovery(&mut bm).unwrap();
    assert_eq!(frame_data(&bm, PageID(1)), &after_first[..]);
}

#[test]
fn reset_zeroes_counters_and_indices() {
    let mut lm = LogManager::new(MemoryFile::new(FileMode::WRITE));
    lm.log_txn_begin(TransactionID(1)).unwrap();
    lm.log_checkpoint(&BufferManager::new(4096, 1)).unwrap();
    assert_eq!(lm.get_total_log_records(), 2);
    lm.reset(MemoryFile::new(FileMode::WRITE)).unwrap();
    assert_eq!(lm.get_total_log_records(), 0);
    assert_eq!(lm.current_offset, 0);
    assert_eq!(
        lm.get_total_log_records_of_type(LogRecordType::CheckpointRecord),
        0
    );
}

#[test]
fn total_log_records_is_the_sum_of_per_type_counters() {
    let mut lm = LogManager::new(MemoryFile::new(FileMode::WRITE));
    let mut bm = BufferManager::new(64, 4);
    lm.log_txn_begin(TransactionID(1)).unwrap();
    lm.log_update(TransactionID(1), PageID(1), 1, 0, &[0], &[1])
        .unwrap();
    lm.log_checkpoint(&bm).unwrap();
    lm.log_abort(TransactionID(1), &mut bm).unwrap();
    lm.log_txn_begin(TransactionID(2)).unwrap();
    lm.log_commit(TransactionID(2)).unwrap();

    let total = lm.get_total_log_records();
    let sum = lm.get_total_log_records_of_type(LogRecordType::BeginRecord)
        + lm.get_total_log_records_of_type(LogRecordType::CommitRecord)
        + lm.get_total_log_records_of_type(LogRecordType::AbortRecord)
        + lm.get_total_log_records_of_type(LogRecordType::UpdateRecord)
        + lm.get_total_log_records_of_type(LogRecordType::CheckpointRecord);
    assert_eq!(total, 6);
    assert_eq!(total, sum);
}

#[test]
fn abort_rolls_page_bytes_back_to_the_before_image() {
    let mut lm = LogManager::new(MemoryFile::new(FileMode::WRITE));
    let mut bm = BufferManager::new(64, 4);

    lm.log_txn_begin(TransactionID(1)).unwrap();
    // Write the after image into the page as a client would.
    let f = bm.fix_page(PageID(1), true).unwrap();
    {
        let data = bm.frames[f].get_data_mut();
        data[0] = 5;
        data[1] = 6;
    }
    bm.unfix_page(f, true).unwrap();
    lm.log_update(TransactionID(1), PageID(1), 2, 0, &[0, 0], &[5, 6])
        .unwrap();

    lm.log_abort(TransactionID(1), &mut bm).unwrap();

    assert_eq!(&frame_data(&bm, PageID(1))[0..2], &[0, 0]);
    assert_eq!(
        lm.get_total_log_records_of_type(LogRecordType::AbortRecord),
        1
    );
}
