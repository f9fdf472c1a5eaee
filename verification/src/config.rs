//! Recognized configuration options of a database instance.

use vstd::prelude::*;

verus! {

/// Sizing knobs: `page_size` sizes both buffer frames and on-disk page
/// slots and must stay constant for the lifetime of a database;
/// `buffer_pool_size` bounds the number of resident pages;
/// `max_wal_size_mb` is an advisory bound steering checkpoint cadence.
#[derive(Debug, Clone)]
pub struct DatabaseConfig {
    pub page_size: usize,
    pub buffer_pool_size: usize,
    pub max_wal_size_mb: usize,
}

impl Default for DatabaseConfig {
    fn default() -> (c: Self)
        ensures
            c.page_size == 4096,
            c.buffer_pool_size == 1000,
            c.max_wal_size_mb == 64,
    {
        Self { page_size: 4096, buffer_pool_size: 1000, max_wal_size_mb: 64 }
    }
}

} // verus!
