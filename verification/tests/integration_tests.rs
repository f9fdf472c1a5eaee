use aries_rust::{BufferManager, FileMode, LogManager, MemoryFile, PageID, TransactionManager};

#[test]
fn test_complete_workflow() {
    // Set up components
    let buffer_manager = BufferManager::new(4096, 10);
    let log_manager = LogManager::new(MemoryFile::new(FileMode::WRITE));
    let mut txn_manager = TransactionManager::new(log_manager, buffer_manager);

    // Start a transaction
    let txn_id = txn_manager.start_txn().unwrap();

    // Modify some pages
    let pages = vec![PageID(1), PageID(2), PageID(3)];
    for page in pages {
        txn_manager.add_modified_page(txn_id, page).unwrap();
    }

    // Commit the transaction
    txn_manager.commit_txn(txn_id).unwrap();

    // Start another transaction and abort it
    let txn_id2 = txn_manager.start_txn().unwrap();
    txn_manager.add_modified_page(txn_id2, PageID(4)).unwrap();
    txn_manager.abort_txn(txn_id2).unwrap();
}
