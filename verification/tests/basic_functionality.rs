use aries_rust::{BufferManager, File, FileMode, LogManager, MemoryFile, TransactionManager};

#[test]
fn test_file_operations() {
    // Create a memory file and test basic operations
    let mut file = MemoryFile::new(FileMode::WRITE);

    // Test writing
    file.write_block(b"hello world", 0).unwrap();
    assert_eq!(file.size().unwrap(), 11);

    // Test reading
    let data = file.read_block(0, 5).unwrap();
    assert_eq!(&data, b"hello");
}

#[test]
fn test_transaction_lifecycle() {
    let buffer_manager = BufferManager::new(4096, 10);
    let log_manager = LogManager::new(MemoryFile::new(FileMode::WRITE));
    let mut txn_manager = TransactionManager::new(log_manager, buffer_manager);

    // Start a transaction
    let txn_id = txn_manager.start_txn().unwrap();

    // Commit it
    txn_manager.commit_txn(txn_id).unwrap();
}
