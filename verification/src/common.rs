//! Typed identifiers and the error taxonomy shared by every component.

use vstd::prelude::*;

verus! {

/// Identifies a page. The top 16 bits name a segment, the low 48 bits the
/// page within that segment.
#[derive(Debug, Clone, Copy, PartialEq, Eq, Structural, Hash)]
pub struct PageID(pub u64);

/// A log sequence number: a byte offset into the write-ahead log.
#[derive(Debug, Clone, Copy, PartialEq, Eq, Structural, Hash)]
pub struct LSN(pub u64);

/// Identifies a transaction.
#[derive(Debug, Clone, Copy, PartialEq, Eq, Structural, Hash)]
pub struct TransactionID(pub u64);

/// Identifies a record stored in a slot of a slotted page.
#[derive(Debug, Clone, Copy, PartialEq, Eq, Structural, Hash)]
pub struct RecordID(pub u64);

/// A tuple identifier: a page together with a slot on that page, ordered
/// lexicographically by page then slot.
#[derive(Debug, Clone, Copy, PartialEq, Eq, Structural, Hash)]
pub struct TID {
    pub page_id: u64,
    pub slot_id: u64,
}

impl TID {
    pub fn new(page_id: u64, slot_id: u64) -> (t: Self)
        ensures
            t.page_id == page_id,
            t.slot_id == slot_id,
    {
        Self { page_id, slot_id }
    }
}

impl PartialOrd for TID {
    fn partial_cmp(&self, other: &Self) -> (r: Option<core::cmp::Ordering>) {
        if self.page_id < other.page_id {
            Some(core::cmp::Ordering::Less)
        } else if self.page_id > other.page_id {
            Some(core::cmp::Ordering::Greater)
        } else if self.slot_id < other.slot_id {
            Some(core::cmp::Ordering::Less)
        } else if self.slot_id > other.slot_id {
            Some(core::cmp::Ordering::Greater)
        } else {
            Some(core::cmp::Ordering::Equal)
        }
    }
}

impl vstd::std_specs::cmp::PartialOrdSpecImpl for TID {
    open spec fn obeys_partial_cmp_spec() -> bool {
        true
    }

    open spec fn partial_cmp_spec(&self, other: &Self) -> Option<core::cmp::Ordering> {
        if self.page_id < other.page_id {
            Some(core::cmp::Ordering::Less)
        } else if self.page_id > other.page_id {
            Some(core::cmp::Ordering::Greater)
        } else if self.slot_id < other.slot_id {
            Some(core::cmp::Ordering::Less)
        } else if self.slot_id > other.slot_id {
            Some(core::cmp::Ordering::Greater)
        } else {
            Some(core::cmp::Ordering::Equal)
        }
    }
}

/// Every failure the storage engine can report.
#[derive(Debug)]
pub enum BuzzDBError {
    /// Feature stub.
    NotImplemented,
    /// The buffer pool cannot make room: every frame is pinned.
    BufferFull,
    /// An underlying file-system failure, described by its message.
    IOError(String),
    /// An untyped failure: unpin at pin count zero, lock conflicts, missing
    /// transactions, writes to read-only files.
    Other(String),
    /// A slot index at or past the slot count of a page.
    InvalidSlotIndex(usize),
    /// The addressed slot holds no record.
    EmptySlot(usize),
    /// A byte sequence that does not encode a page or a log record.
    DeserializationError,
    /// Every slot of the page is occupied.
    PageFull(u64),
    /// A read past the end of a data file.
    PageNotFound(u64),
    /// A serialized page larger than the configured page size.
    PageSizeExceeded(usize, usize),
}

} // verus!
