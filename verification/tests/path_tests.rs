use aries_rust::db_files::u64_to_dec_string;
use aries_rust::{DatabaseConfig, DBFiles, TID};

#[test]
fn decimal_rendering_matches_expected_values() {
    assert_eq!(u64_to_dec_string(0), "0");
    assert_eq!(u64_to_dec_string(7), "7");
    assert_eq!(u64_to_dec_string(10), "10");
    assert_eq!(u64_to_dec_string(65535), "65535");
    assert_eq!(u64_to_dec_string(u64::MAX), "18446744073709551615");
}

#[test]
fn database_paths_follow_the_directory_layout() {
    let files = DBFiles::new("testdb");
    assert_eq!(files.get_data_file_path(0), "testdb/data/segment_0.dat");
    assert_eq!(files.get_data_file_path(12), "testdb/data/segment_12.dat");
    assert_eq!(files.get_log_file_path(), "testdb/log/wal.log");
    assert_eq!(files.get_catalog_file_path(), "testdb/catalog/catalog.dat");
}

#[test]
fn default_configuration_matches_the_documented_values() {
    let config = DatabaseConfig::default();
    assert_eq!(config.page_size, 4096);
    assert_eq!(config.buffer_pool_size, 1000);
    assert_eq!(config.max_wal_size_mb, 64);
}

#[test]
fn tuple_identifiers_order_by_page_then_slot() {
    assert!(TID::new(1, 9) < TID::new(2, 0));
    assert!(TID::new(2, 1) < TID::new(2, 3));
    assert!(TID::new(2, 3) == TID::new(2, 3));
    assert!(TID::new(3, 0) > TID::new(2, 9));
}
