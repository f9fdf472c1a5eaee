//! The slotted page: a fixed directory of slots, each empty or holding one
//! record id, with a deterministic, stable byte encoding.
//!
//! Encoding: the page id as 8 little-endian bytes, then the slot count as 8
//! little-endian bytes, then 9 bytes per slot — a tag byte (0 empty, 1
//! occupied) followed by the record id as 8 little-endian bytes (zero for an
//! empty slot). Decoding tolerates trailing bytes, so a page read back from
//! a zero-padded disk block parses to the same page.

use vstd::bytes::{
    lemma_auto_spec_u64_to_from_le_bytes, spec_u64_from_le_bytes, spec_u64_to_le_bytes,
    u64_from_le_bytes, u64_to_le_bytes,
};
use vstd::prelude::*;
use vstd::slice::slice_subrange;

use crate::common::{BuzzDBError, PageID, RecordID};

verus! {

/// The 9-byte encoding of one slot.
pub open spec fn slot_bytes(s: Option<RecordID>) -> Seq<u8> {
    match s {
        Some(r) => seq![1u8] + spec_u64_to_le_bytes(r.0),
        None => seq![0u8] + spec_u64_to_le_bytes(0u64),
    }
}

/// The concatenated encodings of a slot directory.
pub open spec fn slots_bytes(slots: Seq<Option<RecordID>>) -> Seq<u8>
    decreases slots.len(),
{
    if slots.len() == 0 {
        Seq::<u8>::empty()
    } else {
        slot_bytes(slots[0]) + slots_bytes(slots.drop_first())
    }
}

/// The full encoding of a page with id `page_id` and directory `slots`.
pub open spec fn page_bytes(page_id: u64, slots: Seq<Option<RecordID>>) -> Seq<u8> {
    spec_u64_to_le_bytes(page_id) + spec_u64_to_le_bytes(slots.len() as u64) + slots_bytes(slots)
}

/// Decodes one 9-byte slot encoding; `None` on an unknown tag byte.
pub open spec fn parse_slot(b: Seq<u8>) -> Option<Option<RecordID>>
    recommends
        b.len() == 9,
{
    if b[0] == 0u8 {
        Some(None)
    } else if b[0] == 1u8 {
        Some(Some(RecordID(spec_u64_from_le_bytes(b.subrange(1, 9)))))
    } else {
        None
    }
}

/// Decodes `n` consecutive slot encodings from the front of `b`.
pub open spec fn parse_slots(b: Seq<u8>, n: nat) -> Option<Seq<Option<RecordID>>>
    decreases n,
{
    if n == 0 {
        Some(Seq::<Option<RecordID>>::empty())
    } else if b.len() < 9 {
        None
    } else {
        match parse_slot(b.subrange(0, 9)) {
            Option::None => None,
            Option::Some(s) => match parse_slots(b.skip(9), (n - 1) as nat) {
                Option::None => None,
                Option::Some(rest) => Some(seq![s] + rest),
            },
        }
    }
}

/// Decodes a page from the front of `b`, ignoring trailing bytes.
pub open spec fn parse_page(b: Seq<u8>) -> Option<(u64, Seq<Option<RecordID>>)> {
    if b.len() < 16 {
        None
    } else {
        let pid = spec_u64_from_le_bytes(b.subrange(0, 8));
        let n = spec_u64_from_le_bytes(b.subrange(8, 16));
        match parse_slots(b.skip(16), n as nat) {
            Option::None => None,
            Option::Some(slots) => Some((pid, slots)),
        }
    }
}

proof fn lemma_slots_bytes_push(slots: Seq<Option<RecordID>>, s: Option<RecordID>)
    ensures
        slots_bytes(slots.push(s)) == slots_bytes(slots) + slot_bytes(s),
    decreases slots.len(),
{
    if slots.len() == 0 {
        assert(slots.push(s)[0] == s);
        assert(slots.push(s).drop_first() =~= slots);
        assert(slots_bytes(slots.push(s)) =~= slots_bytes(slots) + slot_bytes(s));
    } else {
        assert(slots.push(s).drop_first() =~= slots.drop_first().push(s));
        lemma_slots_bytes_push(slots.drop_first(), s);
        assert(slots_bytes(slots.push(s)) =~= slots_bytes(slots) + slot_bytes(s));
    }
}

proof fn lemma_parse_slots_round_trip(slots: Seq<Option<RecordID>>, tail: Seq<u8>)
    ensures
        parse_slots(slots_bytes(slots) + tail, slots.len()) == Some(slots),
    decreases slots.len(),
{
    lemma_auto_spec_u64_to_from_le_bytes();
    if slots.len() == 0 {
        assert(parse_slots(slots_bytes(slots) + tail, 0) == Some(slots));
    } else {
        let b = slots_bytes(slots) + tail;
        let first = slot_bytes(slots[0]);
        assert(first.len() == 9);
        assert(b.subrange(0, 9) =~= first);
        match slots[0] {
            Option::Some(r) => {
                assert(first[0] == 1u8);
                assert(first.subrange(1, 9) =~= spec_u64_to_le_bytes(r.0));
                assert(parse_slot(b.subrange(0, 9)) == Some(Some(r)));
            },
            Option::None => {
                assert(first[0] == 0u8);
                assert(parse_slot(b.subrange(0, 9)) == Some(None::<RecordID>));
            },
        }
        assert(b.skip(9) =~= slots_bytes(slots.drop_first()) + tail);
        lemma_parse_slots_round_trip(slots.drop_first(), tail);
        assert(seq![slots[0]] + slots.drop_first() =~= slots);
    }
}

/// The encoding decodes to exactly the page it was produced from:
/// `parse_page` after `page_bytes` is the identity, even with trailing
/// padding after the encoding.
pub proof fn lemma_page_round_trip(page_id: u64, slots: Seq<Option<RecordID>>, tail: Seq<u8>)
    requires
        slots.len() <= u64::MAX,
    ensures
        parse_page(page_bytes(page_id, slots) + tail) == Some((page_id, slots)),
{
    lemma_auto_spec_u64_to_from_le_bytes();
    let b = page_bytes(page_id, slots) + tail;
    assert(b.subrange(0, 8) =~= spec_u64_to_le_bytes(page_id));
    assert(b.subrange(8, 16) =~= spec_u64_to_le_bytes(slots.len() as u64));
    assert(b.skip(16) =~= slots_bytes(slots) + tail);
    lemma_parse_slots_round_trip(slots, tail);
}

/// An in-memory record container: an ordered, fixed-length directory of
/// slots, each empty or holding one record id. Slot indices are stable for
/// the lifetime of the page.
#[derive(Debug)]
pub struct SlottedPage {
    pub page_id: PageID,
    pub slots: Vec<Option<RecordID>>,
}

impl SlottedPage {
    /// A fresh page: every one of its `num_slots` slots is empty.
    pub fn new(page_id: PageID, num_slots: usize) -> (p: Self)
        ensures
            p.page_id == page_id,
            p.slots@.len() == num_slots,
            forall|i: int| 0 <= i < num_slots ==> p.slots@[i] is None,
    {
        let mut slots: Vec<Option<RecordID>> = Vec::new();
        let mut i: usize = 0;
        while i < num_slots
            invariant
                i <= num_slots,
                slots@.len() == i,
                forall|j: int| 0 <= j < i ==> slots@[j] is None,
            decreases num_slots - i,
        {
            slots.push(None);
            i = i + 1;
        }
        Self { page_id, slots }
    }

    /// Writes `record_id` into the smallest empty slot and returns its
    /// index; returns `None`, changing nothing, when every slot is occupied.
    pub fn allocate_slot(&mut self, record_id: RecordID) -> (r: Option<usize>)
        ensures
            final(self).page_id == old(self).page_id,
            final(self).slots@.len() == old(self).slots@.len(),
            (r is Some) <==> (exists|i: int|
                0 <= i < old(self).slots@.len() && old(self).slots@[i] is None),
            r matches Some(i) ==> {
                &&& i < old(self).slots@.len()
                &&& old(self).slots@[i as int] is None
                &&& forall|j: int| 0 <= j < i ==> old(self).slots@[j] is Some
                &&& final(self).slots@ == old(self).slots@.update(i as int, Some(record_id))
            },
            r is None ==> final(self).slots@ == old(self).slots@,
    {
        let n = self.slots.len();
        let mut index: usize = 0;
        while index < n
            invariant
                index <= n,
                n == self.slots@.len(),
                *self == *old(self),
                forall|j: int| 0 <= j < index ==> self.slots@[j] is Some,
            decreases n - index,
        {
            if self.slots[index].is_none() {
                self.slots.set(index, Some(record_id));
                return Some(index);
            }
            index = index + 1;
        }
        None
    }

    /// Empties slot `slot_index`; fails, changing nothing, when the index is
    /// at or past the slot count.
    pub fn deallocate_slot(&mut self, slot_index: usize) -> (r: Result<(), BuzzDBError>)
        ensures
            final(self).page_id == old(self).page_id,
            slot_index >= old(self).slots@.len() ==> {
                &&& r matches Err(e) && e matches BuzzDBError::InvalidSlotIndex(i) && i
                    == slot_index
                &&& final(self).slots@ == old(self).slots@
            },
            slot_index < old(self).slots@.len() ==> {
                &&& r is Ok
                &&& final(self).slots@ == old(self).slots@.update(
                    slot_index as int,
                    None::<RecordID>,
                )
            },
    {
        if slot_index >= self.slots.len() {
            return Err(BuzzDBError::InvalidSlotIndex(slot_index));
        }
        self.slots.set(slot_index, None);
        Ok(())
    }

    /// The record id held by slot `slot_index`; fails with
    /// `InvalidSlotIndex` when out of range and with `EmptySlot` when the
    /// slot holds nothing.
    pub fn get_record_id(&self, slot_index: usize) -> (r: Result<RecordID, BuzzDBError>)
        ensures
            slot_index >= self.slots@.len() ==> (r matches Err(e)
                && e matches BuzzDBError::InvalidSlotIndex(i) && i == slot_index),
            slot_index < self.slots@.len() && self.slots@[slot_index as int] is None ==> (
            r matches Err(e) && e matches BuzzDBError::EmptySlot(i) && i == slot_index),
            slot_index < self.slots@.len() && self.slots@[slot_index as int] is Some ==> (
            r matches Ok(rid) && Some(rid) == self.slots@[slot_index as int]),
    {
        if slot_index >= self.slots.len() {
            return Err(BuzzDBError::InvalidSlotIndex(slot_index));
        }
        match self.slots[slot_index] {
            Some(record_id) => Ok(record_id),
            None => Err(BuzzDBError::EmptySlot(slot_index)),
        }
    }

    /// Encodes the page. The encoding is deterministic: the same logical
    /// state always yields the same bytes.
    pub fn serialize(&self) -> (r: Vec<u8>)
        ensures
            r@ == page_bytes(self.page_id.0, self.slots@),
    {
        let mut out = u64_to_le_bytes(self.page_id.0);
        let mut count = u64_to_le_bytes(self.slots.len() as u64);
        out.append(&mut count);
        let n = self.slots.len();
        let mut i: usize = 0;
        while i < n
            invariant
                i <= n,
                n == self.slots@.len(),
                out@ == spec_u64_to_le_bytes(self.page_id.0) + spec_u64_to_le_bytes(
                    self.slots@.len() as u64,
                ) + slots_bytes(self.slots@.take(i as int)),
            decreases n - i,
        {
            let ghost prefix = self.slots@.take(i as int);
            match self.slots[i] {
                Some(record_id) => {
                    out.push(1u8);
                    let mut rid = u64_to_le_bytes(record_id.0);
                    out.append(&mut rid);
                },
                None => {
                    out.push(0u8);
                    let mut rid = u64_to_le_bytes(0u64);
                    out.append(&mut rid);
                },
            }
            proof {
                lemma_slots_bytes_push(prefix, self.slots@[i as int]);
                assert(self.slots@.take(i + 1) =~= prefix.push(self.slots@[i as int]));
                assert(slot_bytes(self.slots@[i as int]).len() == 9);
                assert(out@ =~= spec_u64_to_le_bytes(self.page_id.0) + spec_u64_to_le_bytes(
                    self.slots@.len() as u64,
                ) + slots_bytes(self.slots@.take(i + 1)));
            }
            i = i + 1;
        }
        proof {
            assert(self.slots@.take(n as int) =~= self.slots@);
        }
        out
    }

    /// Decodes a page from the front of `data`; fails with
    /// `DeserializationError` exactly when `data` does not begin with a
    /// well-formed page encoding.
    pub fn deserialize(data: &[u8]) -> (r: Result<Self, BuzzDBError>)
        ensures
            r matches Ok(p) ==> parse_page(data@) == Some((p.page_id.0, p.slots@)),
            r matches Err(e) ==> e matches BuzzDBError::DeserializationError && parse_page(
                data@,
            ) is None,
    {
        if data.len() < 16 {
            return Err(BuzzDBError::DeserializationError);
        }
        let page_id = u64_from_le_bytes(slice_subrange(data, 0, 8));
        let count = u64_from_le_bytes(slice_subrange(data, 8, 16));

        if count > ((data.len() - 16) / 9) as u64 {
            proof {
                lemma_parse_slots_needs_bytes(data@.skip(16), count as nat);
            }
            return Err(BuzzDBError::DeserializationError);
        }
        let n = count as usize;
        let data_len = data.len();

        let mut slots: Vec<Option<RecordID>> = Vec::new();
        let mut i: usize = 0;
        while i < n
            invariant
                i <= n,
                data@.len() == data_len,
                16 + 9 * n <= data_len,
                count == n as u64,
                page_id == spec_u64_from_le_bytes(data@.subrange(0, 8)),
                count == spec_u64_from_le_bytes(data@.subrange(8, 16)),
                slots@.len() == i,
                parse_slots(data@.skip(16), n as nat) == (match parse_slots(
                    data@.skip(16 + 9 * i),
                    (n - i) as nat,
                ) {
                    Option::None => None::<Seq<Option<RecordID>>>,
                    Option::Some(rest) => Some(slots@ + rest),
                }),
            decreases n - i,
        {
            let ghost before = slots@;
            let ghost b = data@.skip(16 + 9 * i);
            let tag = data[16 + 9 * i];
            assert(b[0] == tag);
            if tag == 0 {
                slots.push(None);
            } else if tag == 1 {
                let sub = slice_subrange(data, 16 + 9 * i + 1, 16 + 9 * i + 9);
                let rid = u64_from_le_bytes(sub);
                assert(b.subrange(0, 9).subrange(1, 9) =~= sub@);
                slots.push(Some(RecordID(rid)));
            } else {
                proof {
                    assert(b.len() >= 9);
                    assert(parse_slot(b.subrange(0, 9)) is None);
                    assert(parse_slots(b, (n - i) as nat) is None);
                    assert(parse_slots(data@.skip(16), n as nat) is None);
                    assert(count as nat == n as nat);
                    assert(parse_page(data@) is None);
                }
                return Err(BuzzDBError::DeserializationError);
            }
            proof {
                assert(parse_slot(b.subrange(0, 9)) == Some(slots@[i as int]));
                assert(b.skip(9) =~= data@.skip(16 + 9 * (i + 1)));
                assert(before + (seq![slots@[i as int]] + (match parse_slots(
                    b.skip(9),
                    (n - i - 1) as nat,
                ) {
                    Option::None => Seq::<Option<RecordID>>::empty(),
                    Option::Some(rest) => rest,
                })) =~= slots@ + (match parse_slots(b.skip(9), (n - i - 1) as nat) {
                    Option::None => Seq::<Option<RecordID>>::empty(),
                    Option::Some(rest) => rest,
                }));
            }
            i = i + 1;
        }
        proof {
            assert(parse_slots(data@.skip(16 + 9 * (n as int)), 0) == Some(
                Seq::<Option<RecordID>>::empty(),
            ));
            assert(slots@ + Seq::<Option<RecordID>>::empty() =~= slots@);
        }
        Ok(Self { page_id: PageID(page_id), slots })
    }
}

proof fn lemma_parse_slots_needs_bytes(b: Seq<u8>, n: nat)
    requires
        b.len() < 9 * n,
    ensures
        parse_slots(b, n) is None,
    decreases n,
{
    if n > 0 && b.len() >= 9 {
        lemma_parse_slots_needs_bytes(b.skip(9), (n - 1) as nat);
    }
}


/// The encoding of a slot directory takes nine bytes per slot.
pub proof fn lemma_slots_bytes_len(slots: Seq<Option<RecordID>>)
    ensures
        slots_bytes(slots).len() == 9 * slots.len(),
    decreases slots.len(),
{
    lemma_auto_spec_u64_to_from_le_bytes();
    if slots.len() > 0 {
        lemma_slots_bytes_len(slots.drop_first());
    }
}

/// The encoding of a page takes sixteen header bytes plus nine per slot.
pub proof fn lemma_page_bytes_len(page_id: u64, slots: Seq<Option<RecordID>>)
    ensures
        page_bytes(page_id, slots).len() == 16 + 9 * slots.len(),
{
    lemma_auto_spec_u64_to_from_le_bytes();
    lemma_slots_bytes_len(slots);
}

} // verus!
