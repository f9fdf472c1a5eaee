use aries_rust::{
    BufferManager, BuzzDBError, FileMode, LogManager, LogRecordType, MemoryFile, PageID,
    TransactionManager,
};

fn fresh_manager() -> TransactionManager {
    let buffer_manager = BufferManager::new(4096, 10);
    let log_manager = LogManager::new(MemoryFile::new(FileMode::WRITE));
    TransactionManager::new(log_manager, buffer_manager)
}

#[test]
fn test_transaction_manager_concurrent() {
    let mut txn_manager = fresh_manager();

    // Start multiple transactions
    let txn1 = txn_manager.start_txn().unwrap();
    let txn2 = txn_manager.start_txn().unwrap();

    let page1 = PageID(1);
    let page2 = PageID(2);

    txn_manager.add_modified_page(txn1, page1).unwrap();
    txn_manager.add_modified_page(txn2, page2).unwrap();

    // Commit one transaction and abort another
    txn_manager.commit_txn(txn1).unwrap();
    txn_manager.abort_txn(txn2).unwrap();
}

#[test]
fn test_transaction_isolation() {
    let mut txn_manager = fresh_manager();

    // Start two transactions
    let txn1 = txn_manager.start_txn().unwrap();
    let txn2 = txn_manager.start_txn().unwrap();

    // Both try to modify the same page
    let page1 = PageID(1);

    txn_manager.add_modified_page(txn1, page1).unwrap();

    // Second transaction should fail to modify the same page
    assert!(txn_manager.add_modified_page(txn2, page1).is_err());
}

#[test]
fn transaction_ids_count_up_from_zero() {
    let mut tm = fresh_manager();
    let t0 = tm.start_txn().unwrap();
    let t1 = tm.start_txn().unwrap();
    assert_eq!(t0.0, 0);
    assert_eq!(t1.0, 1);
    assert_eq!(tm.next_txn_id, 2);
    assert_eq!(tm.active_transactions.len(), 2);
}

#[test]
fn commit_of_unknown_transaction_reports_other() {
    let mut tm = fresh_manager();
    let t = tm.start_txn().unwrap();
    tm.commit_txn(t).unwrap();
    assert!(matches!(tm.commit_txn(t), Err(BuzzDBError::Other(_))));
    assert!(matches!(
        tm.abort_txn(aries_rust::TransactionID(77)),
        Err(BuzzDBError::Other(_))
    ));
}

#[test]
fn commit_releases_locks_for_the_next_writer() {
    let mut tm = fresh_manager();
    let t1 = tm.start_txn().unwrap();
    tm.add_modified_page(t1, PageID(4)).unwrap();
    tm.commit_txn(t1).unwrap();

    let t2 = tm.start_txn().unwrap();
    tm.add_modified_page(t2, PageID(4)).unwrap();
    assert_eq!(tm.page_locks.len(), 1);
}

#[test]
fn active_transactions_balance_begun_committed_aborted() {
    // After three begins, one commit and one abort, exactly one
    // transaction is still active.
    let mut tm = fresh_manager();
    let t0 = tm.start_txn().unwrap();
    let t1 = tm.start_txn().unwrap();
    let _t2 = tm.start_txn().unwrap();
    tm.commit_txn(t0).unwrap();
    tm.abort_txn(t1).unwrap();
    assert_eq!(tm.active_transactions.len(), 1);
    assert_eq!(tm.next_txn_id, 3);
}

#[test]
fn abort_undoes_logged_updates_and_frees_locks() {
    let mut tm = fresh_manager();
    let t1 = tm.start_txn().unwrap();
    tm.add_modified_page(t1, PageID(1)).unwrap();

    let f = tm.buffer_manager.fix_page(PageID(1), true).unwrap();
    {
        let data = tm.buffer_manager.frames[f].get_data_mut();
        data[3] = 9;
    }
    tm.buffer_manager.unfix_page(f, true).unwrap();
    tm.log_manager
        .log_update(t1, PageID(1), 1, 3, &[0], &[9])
        .unwrap();

    tm.abort_txn(t1).unwrap();

    assert_eq!(
        tm.log_manager
            .get_total_log_records_of_type(LogRecordType::AbortRecord),
        1
    );
    assert!(tm.page_locks.is_empty());
    assert!(tm.active_transactions.is_empty());
    // The page was discarded and then recreated by rollback with its
    // before image: byte 3 is zero again.
    let mut found = false;
    for fr in tm.buffer_manager.frames.iter() {
        if fr.get_page_id() == PageID(1) {
            assert_eq!(fr.get_data()[3], 0);
            found = true;
        }
    }
    assert!(found);
}

#[test]
fn commit_flushes_the_modified_pages() {
    let mut tm = fresh_manager();
    let t1 = tm.start_txn().unwrap();
    tm.add_modified_page(t1, PageID(2)).unwrap();
    let f = tm.buffer_manager.fix_page(PageID(2), true).unwrap();
    tm.buffer_manager.unfix_page(f, true).unwrap();
    assert!(tm.buffer_manager.frames[f].is_dirty());

    tm.commit_txn(t1).unwrap();

    assert!(!tm.buffer_manager.frames[f].is_dirty());
    assert_eq!(
        tm.log_manager
            .get_total_log_records_of_type(LogRecordType::CommitRecord),
        1
    );
}
