use aries_rust::{BuzzDBError, File, FileMode, MemoryFile};

#[test]
fn test_file_resize() {
    let mut file = MemoryFile::new(FileMode::WRITE);

    // Initial size should be zero
    assert_eq!(file.size().unwrap(), 0);

    // Resize to 100 bytes
    file.resize(100).unwrap();
    assert_eq!(file.size().unwrap(), 100);

    // Write something and read it back
    let test_data = b"test data";
    file.write_block(test_data, 50).unwrap();

    let read_data = file.read_block(50, test_data.len()).unwrap();
    assert_eq!(read_data, test_data);
}

#[test]
fn read_past_end_of_file_fails() {
    let mut file = MemoryFile::new(FileMode::WRITE);
    file.write_block(b"abc", 0).unwrap();
    assert!(matches!(file.read_block(1, 3), Err(BuzzDBError::Other(_))));
}

#[test]
fn read_only_file_refuses_writes_and_resizes() {
    let mut file = MemoryFile::with_data(b"abc".to_vec(), FileMode::READ);
    assert_eq!(file.get_mode(), FileMode::READ);
    assert!(matches!(file.write_block(b"x", 0), Err(BuzzDBError::Other(_))));
    assert!(matches!(file.resize(10), Err(BuzzDBError::Other(_))));
    assert_eq!(file.get_data(), b"abc");
}

#[test]
fn write_past_end_extends_with_zeros() {
    let mut file = MemoryFile::new(FileMode::WRITE);
    file.write_block(b"xy", 4).unwrap();
    assert_eq!(file.get_data(), &[0, 0, 0, 0, b'x', b'y']);
    file.resize(2).unwrap();
    assert_eq!(file.get_data(), &[0, 0]);
}
