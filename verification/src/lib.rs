//! An embedded single-process storage engine core: a fixed-capacity page
//! buffer pool with pin/unpin semantics, a slotted page format with a stable
//! byte layout, a write-ahead log carrying before/after images, and a
//! transaction manager coordinating page locks, commit-time flushing,
//! abort-time rollback and ARIES-style recovery.
//!
//! All state is held in plain values (the backing files are in-memory byte
//! vectors); persisting those bytes to real files is left to the embedding
//! program.

pub mod buffer_manager;
pub mod byte_ops;
pub mod common;
pub mod config;
pub mod db_files;
pub mod file;
pub mod heap_segment;
pub mod log_manager;
pub mod slotted_page;
pub mod transaction;

pub use buffer_manager::{BufferFrame, BufferManager};
pub use common::{BuzzDBError, PageID, LSN, RecordID, TransactionID, TID};
pub use config::DatabaseConfig;
pub use db_files::DBFiles;
pub use file::{File, FileMode, MemoryFile};
pub use heap_segment::HeapSegment;
pub use log_manager::{LogManager, LogRecordData, LogRecordType};
pub use slotted_page::SlottedPage;
pub use transaction::{Transaction, TransactionManager};
