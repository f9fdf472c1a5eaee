//! The write-ahead log: an append-only record stream over an in-memory log
//! file, with per-type counters, single-transaction rollback, and
//! ARIES-style three-phase recovery (analysis, redo, undo).
//!
//! On-disk framing: every record begins with a type byte then the
//! transaction id as 8 little-endian bytes; `Begin`, `Commit`, `Abort` and
//! `Checkpoint` records are exactly those 9 bytes, while `Update` records
//! continue with the page id, the image length and the page offset (8
//! little-endian bytes each) followed by `length` before-image bytes and
//! `length` after-image bytes.

use vstd::bytes::{
    lemma_auto_spec_u64_to_from_le_bytes, spec_u64_from_le_bytes, spec_u64_to_le_bytes,
    u64_from_le_bytes, u64_to_le_bytes,
};
use vstd::prelude::*;
use vstd::slice::slice_subrange;
use vstd::std_specs::vec::vec_index_mut;

use crate::buffer_manager::{lemma_pages_map_index, BufferManager};
use crate::byte_ops::{overwrite, zeros};
use crate::common::{BuzzDBError, PageID, TransactionID};
use crate::file::{File, FileMode, MemoryFile};

verus! {

/// The five kinds of log record.
#[derive(Debug, Clone, Copy, PartialEq, Eq, Structural, Hash)]
pub enum LogRecordType {
    BeginRecord,
    CommitRecord,
    AbortRecord,
    UpdateRecord,
    CheckpointRecord,
}

impl LogRecordType {
    /// The type byte this kind is framed with.
    pub open spec fn spec_byte(self) -> u8 {
        match self {
            LogRecordType::BeginRecord => 0u8,
            LogRecordType::CommitRecord => 1u8,
            LogRecordType::AbortRecord => 2u8,
            LogRecordType::UpdateRecord => 3u8,
            LogRecordType::CheckpointRecord => 4u8,
        }
    }

    /// The kind framed by the type byte `value`, if any.
    pub open spec fn spec_from_byte(value: u8) -> Option<LogRecordType> {
        if value == 0u8 {
            Some(LogRecordType::BeginRecord)
        } else if value == 1u8 {
            Some(LogRecordType::CommitRecord)
        } else if value == 2u8 {
            Some(LogRecordType::AbortRecord)
        } else if value == 3u8 {
            Some(LogRecordType::UpdateRecord)
        } else if value == 4u8 {
            Some(LogRecordType::CheckpointRecord)
        } else {
            None
        }
    }

    pub fn to_byte(self) -> (b: u8)
        ensures
            b == self.spec_byte(),
    {
        match self {
            LogRecordType::BeginRecord => 0u8,
            LogRecordType::CommitRecord => 1u8,
            LogRecordType::AbortRecord => 2u8,
            LogRecordType::UpdateRecord => 3u8,
            LogRecordType::CheckpointRecord => 4u8,
        }
    }

    pub fn from_byte(value: u8) -> (r: Option<LogRecordType>)
        ensures
            r == LogRecordType::spec_from_byte(value),
    {
        if value == 0u8 {
            Some(LogRecordType::BeginRecord)
        } else if value == 1u8 {
            Some(LogRecordType::CommitRecord)
        } else if value == 2u8 {
            Some(LogRecordType::AbortRecord)
        } else if value == 3u8 {
            Some(LogRecordType::UpdateRecord)
        } else if value == 4u8 {
            Some(LogRecordType::CheckpointRecord)
        } else {
            None
        }
    }
}

/// The mathematical view of one log record. For record kinds other than
/// `UpdateRecord` the page, length, offset and both images are zero/empty.
pub struct LogRec {
    pub rtype: LogRecordType,
    pub txn: u64,
    pub page: u64,
    pub len: u64,
    pub off: u64,
    pub before: Seq<u8>,
    pub after: Seq<u8>,
}

/// Internal consistency of a record view: images carry exactly `len` bytes,
/// and non-update records carry no update payload.
pub open spec fn rec_wf(r: LogRec) -> bool {
    if r.rtype is UpdateRecord {
        r.before.len() == r.len && r.after.len() == r.len
    } else {
        r.page == 0 && r.len == 0 && r.off == 0 && r.before.len() == 0 && r.after.len() == 0
    }
}

/// A `Begin`, `Commit`, `Abort` or `Checkpoint` record view.
pub open spec fn marker_rec(t: LogRecordType, txn: u64) -> LogRec {
    LogRec {
        rtype: t,
        txn,
        page: 0,
        len: 0,
        off: 0,
        before: Seq::<u8>::empty(),
        after: Seq::<u8>::empty(),
    }
}

/// An `Update` record view.
pub open spec fn update_rec(txn: u64, page: u64, len: u64, off: u64, before: Seq<u8>, after: Seq<
    u8,
>) -> LogRec {
    LogRec { rtype: LogRecordType::UpdateRecord, txn, page, len, off, before, after }
}

/// The byte encoding of one record.
pub open spec fn rec_bytes(r: LogRec) -> Seq<u8> {
    if r.rtype is UpdateRecord {
        seq![r.rtype.spec_byte()] + spec_u64_to_le_bytes(r.txn) + spec_u64_to_le_bytes(r.page)
            + spec_u64_to_le_bytes(r.len) + spec_u64_to_le_bytes(r.off) + r.before + r.after
    } else {
        seq![r.rtype.spec_byte()] + spec_u64_to_le_bytes(r.txn)
    }
}

/// Decodes a log byte stream into its record views; `None` exactly when the
/// stream is not a concatenation of well-formed record encodings.
pub open spec fn parse_log(b: Seq<u8>) -> Option<Seq<LogRec>>
    decreases b.len(),
{
    if b.len() == 0 {
        Some(Seq::<LogRec>::empty())
    } else if b.len() < 9 {
        None
    } else {
        match LogRecordType::spec_from_byte(b[0]) {
            Option::None => None,
            Option::Some(t) => {
                let txn = spec_u64_from_le_bytes(b.subrange(1, 9));
                if t is UpdateRecord {
                    if b.len() < 33 {
                        None
                    } else {
                        let page = spec_u64_from_le_bytes(b.subrange(9, 17));
                        let len = spec_u64_from_le_bytes(b.subrange(17, 25));
                        let off = spec_u64_from_le_bytes(b.subrange(25, 33));
                        if b.len() < 33 + 2 * len {
                            None
                        } else {
                            let before = b.subrange(33, 33 + len);
                            let after = b.subrange(33 + len, 33 + 2 * len);
                            match parse_log(b.skip(33 + 2 * len)) {
                                Option::None => None,
                                Option::Some(rest) => Some(
                                    seq![update_rec(txn, page, len, off, before, after)] + rest,
                                ),
                            }
                        }
                    }
                } else {
                    match parse_log(b.skip(9)) {
                        Option::None => None,
                        Option::Some(rest) => Some(seq![marker_rec(t, txn)] + rest),
                    }
                }
            },
        }
    }
}

/// Every record a successful parse yields is internally consistent.
pub proof fn lemma_parse_gives_wf_recs(b: Seq<u8>)
    requires
        parse_log(b) is Some,
    ensures
        forall|i: int|
            0 <= i < parse_log(b).unwrap().len() ==> rec_wf(#[trigger] parse_log(b).unwrap()[i]),
    decreases b.len(),
{
    if b.len() >= 9 {
        let t = LogRecordType::spec_from_byte(b[0]).unwrap();
        if t is UpdateRecord {
            let len = spec_u64_from_le_bytes(b.subrange(17, 25));
            lemma_parse_gives_wf_recs(b.skip(33 + 2 * len));
        } else {
            lemma_parse_gives_wf_recs(b.skip(9));
        }
    }
}

/// A parsed stream holds at most one record per nine bytes.
pub proof fn lemma_parse_count_bound(b: Seq<u8>)
    requires
        parse_log(b) is Some,
    ensures
        9 * parse_log(b).unwrap().len() <= b.len(),
    decreases b.len(),
{
    if b.len() >= 9 {
        let t = LogRecordType::spec_from_byte(b[0]).unwrap();
        if t is UpdateRecord {
            let len = spec_u64_from_le_bytes(b.subrange(17, 25));
            lemma_parse_count_bound(b.skip(33 + 2 * len));
        } else {
            lemma_parse_count_bound(b.skip(9));
        }
    }
}

/// Appending one well-formed record encoding to a parseable stream keeps it
/// parseable and appends exactly that record view.
pub proof fn lemma_parse_append(b: Seq<u8>, r: LogRec)
    requires
        parse_log(b) is Some,
        rec_wf(r),
    ensures
        parse_log(b + rec_bytes(r)) == Some(parse_log(b).unwrap().push(r)),
    decreases b.len(),
{
    lemma_auto_spec_u64_to_from_le_bytes();
    let rb = rec_bytes(r);
    let w = b + rb;
    if b.len() == 0 {
        assert(w =~= rb);
        lemma_parse_single(r);
        assert(Seq::<LogRec>::empty().push(r) =~= seq![r]);
    } else {
        let t = LogRecordType::spec_from_byte(b[0]).unwrap();
        assert(w[0] == b[0]);
        assert(w.subrange(1, 9) =~= b.subrange(1, 9));
        if t is UpdateRecord {
            let len = spec_u64_from_le_bytes(b.subrange(17, 25));
            assert(w.subrange(9, 17) =~= b.subrange(9, 17));
            assert(w.subrange(17, 25) =~= b.subrange(17, 25));
            assert(w.subrange(25, 33) =~= b.subrange(25, 33));
            assert(w.subrange(33, 33 + len) =~= b.subrange(33, 33 + len));
            assert(w.subrange(33 + len, 33 + 2 * len) =~= b.subrange(33 + len, 33 + 2 * len));
            assert(w.skip(33 + 2 * len) =~= b.skip(33 + 2 * len) + rb);
            lemma_parse_append(b.skip(33 + 2 * len), r);
            assert(seq![parse_log(b).unwrap()[0]] + parse_log(b.skip(33 + 2 * len)).unwrap().push(
                r,
            ) =~= parse_log(b).unwrap().push(r));
        } else {
            assert(w.skip(9) =~= b.skip(9) + rb);
            lemma_parse_append(b.skip(9), r);
            assert(seq![parse_log(b).unwrap()[0]] + parse_log(b.skip(9)).unwrap().push(r)
                =~= parse_log(b).unwrap().push(r));
        }
    }
}

/// The encoding of one well-formed record parses to exactly that record.
proof fn lemma_parse_single(r: LogRec)
    requires
        rec_wf(r),
    ensures
        parse_log(rec_bytes(r)) == Some(seq![r]),
{
    lemma_auto_spec_u64_to_from_le_bytes();
    reveal_with_fuel(parse_log, 3);
    let rb = rec_bytes(r);
    assert(rb[0] == r.rtype.spec_byte());
    assert(LogRecordType::spec_from_byte(r.rtype.spec_byte()) == Some(r.rtype));
    if r.rtype is UpdateRecord {
        assert(rb.len() == 33 + 2 * r.len);
        assert(rb.subrange(1, 9) =~= spec_u64_to_le_bytes(r.txn));
        assert(rb.subrange(9, 17) =~= spec_u64_to_le_bytes(r.page));
        assert(rb.subrange(17, 25) =~= spec_u64_to_le_bytes(r.len));
        assert(rb.subrange(25, 33) =~= spec_u64_to_le_bytes(r.off));
        assert(rb.subrange(33, 33 + r.len) =~= r.before);
        assert(rb.subrange(33 + r.len, 33 + 2 * r.len) =~= r.after);
        assert(rb.skip(33 + 2 * r.len) =~= Seq::<u8>::empty());
        assert(seq![r] + Seq::<LogRec>::empty() =~= seq![r]);
    } else {
        assert(rb.len() == 9);
        assert(rb.subrange(1, 9) =~= spec_u64_to_le_bytes(r.txn));
        assert(rb.skip(9) =~= Seq::<u8>::empty());
        assert(r.before =~= Seq::<u8>::empty());
        assert(r.after =~= Seq::<u8>::empty());
        assert(marker_rec(r.rtype, r.txn) == r);
        assert(seq![r] + Seq::<LogRec>::empty() =~= seq![r]);
    }
}

/// How many records of kind `t` the stream holds.
pub open spec fn count_type(recs: Seq<LogRec>, t: LogRecordType) -> nat
    decreases recs.len(),
{
    if recs.len() == 0 {
        0
    } else {
        (if recs.last().rtype == t {
            1nat
        } else {
            0nat
        }) + count_type(recs.drop_last(), t)
    }
}

/// Every record has exactly one kind, so the per-kind counts sum to the
/// record count.
pub proof fn lemma_counts_partition(recs: Seq<LogRec>)
    ensures
        count_type(recs, LogRecordType::BeginRecord) + count_type(recs, LogRecordType::CommitRecord)
            + count_type(recs, LogRecordType::AbortRecord) + count_type(
            recs,
            LogRecordType::UpdateRecord,
        ) + count_type(recs, LogRecordType::CheckpointRecord) == recs.len(),
    decreases recs.len(),
{
    if recs.len() > 0 {
        lemma_counts_partition(recs.drop_last());
    }
}

/// Appending one record raises its kind's count by one and no other.
pub proof fn lemma_count_push(recs: Seq<LogRec>, r: LogRec, t: LogRecordType)
    ensures
        count_type(recs.push(r), t) == count_type(recs, t) + (if r.rtype == t {
            1int
        } else {
            0int
        }),
{
    assert(recs.push(r).drop_last() =~= recs);
}

/// One parsed log record as executable data. Fields that do not apply to
/// the record's kind hold `None`; `log_offset` is the byte offset the
/// record started at and `record_size` the byte count of its encoding.
#[derive(Debug)]
pub struct LogRecordData {
    pub record_type: LogRecordType,
    pub txn_id: TransactionID,
    pub page_id: Option<PageID>,
    pub length: Option<u64>,
    pub offset: Option<u64>,
    pub before_img: Option<Vec<u8>>,
    pub after_img: Option<Vec<u8>>,
    pub log_offset: usize,
    pub record_size: usize,
}

/// The record view an executable record stands for.
pub open spec fn rec_view(d: LogRecordData) -> LogRec {
    LogRec {
        rtype: d.record_type,
        txn: d.txn_id.0,
        page: match d.page_id {
            Option::Some(p) => p.0,
            Option::None => 0,
        },
        len: match d.length {
            Option::Some(l) => l,
            Option::None => 0,
        },
        off: match d.offset {
            Option::Some(o) => o,
            Option::None => 0,
        },
        before: match d.before_img {
            Option::Some(v) => v@,
            Option::None => Seq::<u8>::empty(),
        },
        after: match d.after_img {
            Option::Some(v) => v@,
            Option::None => Seq::<u8>::empty(),
        },
    }
}

/// The record views of a parsed record list.
pub open spec fn recs_view(s: Seq<LogRecordData>) -> Seq<LogRec> {
    s.map_values(|d: LogRecordData| rec_view(d))
}

/// The number of bytes the encoding of `r` occupies.
pub open spec fn rec_size(r: LogRec) -> int {
    if r.rtype is UpdateRecord {
        33 + 2 * r.len
    } else {
        9
    }
}

/// The number of bytes the encodings of `recs` occupy together.
pub open spec fn recs_total_size(recs: Seq<LogRec>) -> int
    decreases recs.len(),
{
    if recs.len() == 0 {
        0
    } else {
        recs_total_size(recs.drop_last()) + rec_size(recs.last())
    }
}

/// Whether each parsed record's bookkeeping fields are right: its
/// `record_size` is the byte count of its encoding and its `log_offset`
/// is the byte offset it started at, the total size of the records before
/// it.
pub open spec fn bookkeeping_ok(v: Seq<LogRecordData>) -> bool {
    forall|i: int|
        0 <= i < v.len() ==> (#[trigger] v[i]).record_size == rec_size(rec_view(v[i]))
            && v[i].log_offset == recs_total_size(recs_view(v.take(i)))
}

/// The append-only log writer and parser. The log lives in an in-memory
/// file; the embedding program persists those bytes. State beyond the
/// bytes: the append offset, one counter per record kind, and the offset of
/// each active transaction's first record (dropped at commit and abort).
pub struct LogManager {
    pub log_file: MemoryFile,
    pub current_offset: usize,
    pub begin_count: u64,
    pub commit_count: u64,
    pub abort_count: u64,
    pub update_count: u64,
    pub checkpoint_count: u64,
    pub txn_id_to_first_log_record: Vec<(TransactionID, usize)>,
}

impl LogManager {
    /// The log stream written so far.
    pub open spec fn log_bytes(&self) -> Seq<u8> {
        self.log_file.data@.take(self.current_offset as int)
    }

    /// The record views of the log stream written so far.
    pub open spec fn log_recs(&self) -> Seq<LogRec> {
        parse_log(self.log_bytes()).unwrap()
    }

    /// Well-formedness: the log file is writable, the append offset lies
    /// within it, the stream parses, and each counter equals the number of
    /// records of its kind. Every operation of the log manager preserves
    /// this.
    pub open spec fn wf(&self) -> bool {
        &&& self.log_file.mode == FileMode::WRITE
        &&& self.current_offset <= self.log_file.data@.len()
        &&& parse_log(self.log_bytes()) is Some
        &&& self.begin_count == count_type(self.log_recs(), LogRecordType::BeginRecord)
        &&& self.commit_count == count_type(self.log_recs(), LogRecordType::CommitRecord)
        &&& self.abort_count == count_type(self.log_recs(), LogRecordType::AbortRecord)
        &&& self.update_count == count_type(self.log_recs(), LogRecordType::UpdateRecord)
        &&& self.checkpoint_count == count_type(self.log_recs(), LogRecordType::CheckpointRecord)
        &&& forall|i: int, j: int|
            0 <= i < j < self.txn_id_to_first_log_record@.len()
                ==> self.txn_id_to_first_log_record@[i].0
                != self.txn_id_to_first_log_record@[j].0
    }

    /// Whether `txn_id` has a recorded first-record offset.
    pub open spec fn tracks_txn(&self, txn_id: TransactionID) -> bool {
        exists|i: int|
            0 <= i < self.txn_id_to_first_log_record@.len() && (
            #[trigger] self.txn_id_to_first_log_record@[i]).0 == txn_id
    }

    /// Whether `txn_id`'s recorded first-record offset is `offset`.
    pub open spec fn tracks_txn_at(&self, txn_id: TransactionID, offset: usize) -> bool {
        exists|i: int|
            0 <= i < self.txn_id_to_first_log_record@.len() && (
            #[trigger] self.txn_id_to_first_log_record@[i]) == (txn_id, offset)
    }

    /// A log manager over `log_file`, starting with an empty stream and
    /// zeroed counters.
    pub fn new(log_file: MemoryFile) -> (lm: Self)
        requires
            log_file.mode == FileMode::WRITE,
        ensures
            lm.wf(),
            lm.log_file == log_file,
            lm.current_offset == 0,
            lm.log_recs() == Seq::<LogRec>::empty(),
            lm.begin_count == 0 && lm.commit_count == 0 && lm.abort_count == 0 && lm.update_count
                == 0 && lm.checkpoint_count == 0,
            lm.txn_id_to_first_log_record@.len() == 0,
    {
        let lm = Self {
            log_file,
            current_offset: 0,
            begin_count: 0,
            commit_count: 0,
            abort_count: 0,
            update_count: 0,
            checkpoint_count: 0,
            txn_id_to_first_log_record: Vec::new(),
        };
        proof {
            assert(lm.log_bytes() =~= Seq::<u8>::empty());
        }
        lm
    }

    /// Rebinds the manager to a fresh log file and zeroes every counter and
    /// index, as a recovery harness does.
    pub fn reset(&mut self, log_file: MemoryFile) -> (r: Result<(), BuzzDBError>)
        requires
            log_file.mode == FileMode::WRITE,
        ensures
            r is Ok,
            final(self).wf(),
            final(self).log_file == log_file,
            final(self).current_offset == 0,
            final(self).log_recs() == Seq::<LogRec>::empty(),
            final(self).begin_count == 0 && final(self).commit_count == 0,
            final(self).abort_count == 0 && final(self).update_count == 0,
            final(self).checkpoint_count == 0,
            final(self).txn_id_to_first_log_record@.len() == 0,
    {
        self.log_file = log_file;
        self.current_offset = 0;
        self.begin_count = 0;
        self.commit_count = 0;
        self.abort_count = 0;
        self.update_count = 0;
        self.checkpoint_count = 0;
        self.txn_id_to_first_log_record = Vec::new();
        proof {
            assert(self.log_bytes() =~= Seq::<u8>::empty());
        }
        Ok(())
    }

    /// Appends raw bytes at the current offset and advances it.
    fn write_to_log(&mut self, data: &[u8]) -> (r: Result<(), BuzzDBError>)
        requires
            old(self).log_file.mode == FileMode::WRITE,
            old(self).current_offset <= old(self).log_file.data@.len(),
            old(self).current_offset + data@.len() <= usize::MAX,
        ensures
            r is Ok,
            final(self).log_file.mode == FileMode::WRITE,
            final(self).current_offset == old(self).current_offset + data@.len(),
            final(self).current_offset <= final(self).log_file.data@.len(),
            final(self).log_bytes() == old(self).log_bytes() + data@,
            final(self).begin_count == old(self).begin_count,
            final(self).commit_count == old(self).commit_count,
            final(self).abort_count == old(self).abort_count,
            final(self).update_count == old(self).update_count,
            final(self).checkpoint_count == old(self).checkpoint_count,
            final(self).txn_id_to_first_log_record == old(self).txn_id_to_first_log_record,
    {
        let offset = self.current_offset;
        match self.log_file.write_block(data, offset) {
            Ok(u) => {},
            Err(e) => {
                assert(false);
                return Err(e);
            },
        }
        self.current_offset = offset + data.len();
        proof {
            assert(self.log_bytes() =~= old(self).log_bytes() + data@);
        }
        Ok(())
    }

    /// Appends the 9-byte header of a marker record.
    fn append_marker(&mut self, record_type: LogRecordType, txn_id: TransactionID) -> (r: Result<
        (),
        BuzzDBError,
    >)
        requires
            old(self).wf(),
            !(record_type is UpdateRecord),
            old(self).current_offset + 9 <= usize::MAX,
        ensures
            r is Ok,
            final(self).log_file.mode == FileMode::WRITE,
            final(self).current_offset == old(self).current_offset + 9,
            final(self).current_offset <= final(self).log_file.data@.len(),
            parse_log(final(self).log_bytes()) is Some,
            final(self).log_recs() == old(self).log_recs().push(marker_rec(record_type, txn_id.0)),
            final(self).begin_count == old(self).begin_count,
            final(self).commit_count == old(self).commit_count,
            final(self).abort_count == old(self).abort_count,
            final(self).update_count == old(self).update_count,
            final(self).checkpoint_count == old(self).checkpoint_count,
            final(self).txn_id_to_first_log_record == old(self).txn_id_to_first_log_record,
    {
        let mut rec: Vec<u8> = Vec::new();
        rec.push(record_type.to_byte());
        let mut txn_bytes = u64_to_le_bytes(txn_id.0);
        rec.append(&mut txn_bytes);
        proof {
            assert(rec@ =~= rec_bytes(marker_rec(record_type, txn_id.0)));
            lemma_parse_append(old(self).log_bytes(), marker_rec(record_type, txn_id.0));
        }
        self.write_to_log(rec.as_slice())
    }

    /// Appends a `Begin` record for `txn_id` and records the offset its
    /// record started at as the transaction's first log offset.
    pub fn log_txn_begin(&mut self, txn_id: TransactionID) -> (r: Result<(), BuzzDBError>)
        requires
            old(self).wf(),
            old(self).current_offset + 9 <= usize::MAX,
        ensures
            r is Ok,
            final(self).wf(),
            final(self).log_recs() == old(self).log_recs().push(
                marker_rec(LogRecordType::BeginRecord, txn_id.0),
            ),
            final(self).current_offset == old(self).current_offset + 9,
            final(self).begin_count == old(self).begin_count + 1,
            final(self).commit_count == old(self).commit_count,
            final(self).abort_count == old(self).abort_count,
            final(self).update_count == old(self).update_count,
            final(self).checkpoint_count == old(self).checkpoint_count,
            final(self).tracks_txn(txn_id),
            final(self).tracks_txn_at(txn_id, old(self).current_offset),
    {
        proof {
            lemma_parse_count_bound(old(self).log_bytes());
            lemma_counts_partition(old(self).log_recs());
        }
        let begin_offset = self.current_offset;
        match self.append_marker(LogRecordType::BeginRecord, txn_id) {
            Ok(u) => {},
            Err(e) => {
                assert(false);
                return Err(e);
            },
        }
        proof {
            lemma_count_push(
                old(self).log_recs(),
                marker_rec(LogRecordType::BeginRecord, txn_id.0),
                LogRecordType::BeginRecord,
            );
            lemma_count_push(
                old(self).log_recs(),
                marker_rec(LogRecordType::BeginRecord, txn_id.0),
                LogRecordType::CommitRecord,
            );
            lemma_count_push(
                old(self).log_recs(),
                marker_rec(LogRecordType::BeginRecord, txn_id.0),
                LogRecordType::AbortRecord,
            );
            lemma_count_push(
                old(self).log_recs(),
                marker_rec(LogRecordType::BeginRecord, txn_id.0),
                LogRecordType::UpdateRecord,
            );
            lemma_count_push(
                old(self).log_recs(),
                marker_rec(LogRecordType::BeginRecord, txn_id.0),
                LogRecordType::CheckpointRecord,
            );
        }
        self.begin_count = self.begin_count + 1;
        self.upsert_first_record(txn_id, begin_offset);
        proof {
            assert(self.tracks_txn_at(txn_id, begin_offset));
            assert(begin_offset == old(self).current_offset);
        }
        Ok(())
    }

    /// Appends a `Commit` record for `txn_id` and forgets the transaction's
    /// first log offset.
    pub fn log_commit(&mut self, txn_id: TransactionID) -> (r: Result<(), BuzzDBError>)
        requires
            old(self).wf(),
            old(self).current_offset + 9 <= usize::MAX,
        ensures
            r is Ok,
            final(self).wf(),
            final(self).log_recs() == old(self).log_recs().push(
                marker_rec(LogRecordType::CommitRecord, txn_id.0),
            ),
            final(self).current_offset == old(self).current_offset + 9,
            final(self).commit_count == old(self).commit_count + 1,
            final(self).begin_count == old(self).begin_count,
            final(self).abort_count == old(self).abort_count,
            final(self).update_count == old(self).update_count,
            final(self).checkpoint_count == old(self).checkpoint_count,
            !final(self).tracks_txn(txn_id),
    {
        proof {
            lemma_parse_count_bound(old(self).log_bytes());
            lemma_counts_partition(old(self).log_recs());
        }
        match self.append_marker(LogRecordType::CommitRecord, txn_id) {
            Ok(u) => {},
            Err(e) => {
                assert(false);
                return Err(e);
            },
        }
        proof {
            lemma_count_push(
                old(self).log_recs(),
                marker_rec(LogRecordType::CommitRecord, txn_id.0),
                LogRecordType::BeginRecord,
            );
            lemma_count_push(
                old(self).log_recs(),
                marker_rec(LogRecordType::CommitRecord, txn_id.0),
                LogRecordType::CommitRecord,
            );
            lemma_count_push(
                old(self).log_recs(),
                marker_rec(LogRecordType::CommitRecord, txn_id.0),
                LogRecordType::AbortRecord,
            );
            lemma_count_push(
                old(self).log_recs(),
                marker_rec(LogRecordType::CommitRecord, txn_id.0),
                LogRecordType::UpdateRecord,
            );
            lemma_count_push(
                old(self).log_recs(),
                marker_rec(LogRecordType::CommitRecord, txn_id.0),
                LogRecordType::CheckpointRecord,
            );
        }
        self.commit_count = self.commit_count + 1;
        self.remove_first_record(txn_id);
        Ok(())
    }

    /// Appends an `Update` record carrying both byte images. `before_img`
    /// and `after_img` must hold exactly `length` bytes each.
    pub fn log_update(
        &mut self,
        txn_id: TransactionID,
        page_id: PageID,
        length: u64,
        offset: u64,
        before_img: &[u8],
        after_img: &[u8],
    ) -> (r: Result<(), BuzzDBError>)
        requires
            old(self).wf(),
            before_img@.len() == length,
            after_img@.len() == length,
            old(self).current_offset + 33 + 2 * length <= usize::MAX,
        ensures
            r is Ok,
            final(self).wf(),
            final(self).log_recs() == old(self).log_recs().push(
                update_rec(txn_id.0, page_id.0, length, offset, before_img@, after_img@),
            ),
            final(self).current_offset == old(self).current_offset + 33 + 2 * length,
            final(self).update_count == old(self).update_count + 1,
            final(self).begin_count == old(self).begin_count,
            final(self).commit_count == old(self).commit_count,
            final(self).abort_count == old(self).abort_count,
            final(self).checkpoint_count == old(self).checkpoint_count,
            final(self).txn_id_to_first_log_record == old(self).txn_id_to_first_log_record,
    {
        let ghost r = update_rec(txn_id.0, page_id.0, length, offset, before_img@, after_img@);
        proof {
            lemma_parse_count_bound(old(self).log_bytes());
            lemma_counts_partition(old(self).log_recs());
        }
        let mut rec: Vec<u8> = Vec::new();
        rec.push(LogRecordType::UpdateRecord.to_byte());
        let mut txn_bytes = u64_to_le_bytes(txn_id.0);
        rec.append(&mut txn_bytes);
        let mut page_bytes = u64_to_le_bytes(page_id.0);
        rec.append(&mut page_bytes);
        let mut length_bytes = u64_to_le_bytes(length);
        rec.append(&mut length_bytes);
        let mut offset_bytes = u64_to_le_bytes(offset);
        rec.append(&mut offset_bytes);
        let mut before_copy = vstd::slice::slice_to_vec(before_img);
        rec.append(&mut before_copy);
        let mut after_copy = vstd::slice::slice_to_vec(after_img);
        rec.append(&mut after_copy);
        proof {
            assert(rec@ =~= rec_bytes(r));
            lemma_parse_append(old(self).log_bytes(), r);
        }
        match self.write_to_log(rec.as_slice()) {
            Ok(u) => {},
            Err(e) => {
                assert(false);
                return Err(e);
            },
        }
        proof {
            lemma_count_push(old(self).log_recs(), r, LogRecordType::BeginRecord);
            lemma_count_push(old(self).log_recs(), r, LogRecordType::CommitRecord);
            lemma_count_push(old(self).log_recs(), r, LogRecordType::AbortRecord);
            lemma_count_push(old(self).log_recs(), r, LogRecordType::UpdateRecord);
            lemma_count_push(old(self).log_recs(), r, LogRecordType::CheckpointRecord);
        }
        self.update_count = self.update_count + 1;
        Ok(())
    }

    /// Appends a `Checkpoint` marker. The checkpoint carries no payload
    /// (its transaction field is written as zero), so recovery still scans
    /// the whole log.
    pub fn log_checkpoint(&mut self, _buffer_manager: &BufferManager) -> (r: Result<
        (),
        BuzzDBError,
    >)
        requires
            old(self).wf(),
            old(self).current_offset + 9 <= usize::MAX,
        ensures
            r is Ok,
            final(self).wf(),
            final(self).log_recs() == old(self).log_recs().push(
                marker_rec(LogRecordType::CheckpointRecord, 0),
            ),
            final(self).current_offset == old(self).current_offset + 9,
            final(self).checkpoint_count == old(self).checkpoint_count + 1,
            final(self).begin_count == old(self).begin_count,
            final(self).commit_count == old(self).commit_count,
            final(self).abort_count == old(self).abort_count,
            final(self).update_count == old(self).update_count,
            final(self).txn_id_to_first_log_record == old(self).txn_id_to_first_log_record,
    {
        proof {
            lemma_parse_count_bound(old(self).log_bytes());
            lemma_counts_partition(old(self).log_recs());
        }
        match self.append_marker(LogRecordType::CheckpointRecord, TransactionID(0)) {
            Ok(u) => {},
            Err(e) => {
                assert(false);
                return Err(e);
            },
        }
        proof {
            lemma_count_push(
                old(self).log_recs(),
                marker_rec(LogRecordType::CheckpointRecord, 0),
                LogRecordType::BeginRecord,
            );
            lemma_count_push(
                old(self).log_recs(),
                marker_rec(LogRecordType::CheckpointRecord, 0),
                LogRecordType::CommitRecord,
            );
            lemma_count_push(
                old(self).log_recs(),
                marker_rec(LogRecordType::CheckpointRecord, 0),
                LogRecordType::AbortRecord,
            );
            lemma_count_push(
                old(self).log_recs(),
                marker_rec(LogRecordType::CheckpointRecord, 0),
                LogRecordType::UpdateRecord,
            );
            lemma_count_push(
                old(self).log_recs(),
                marker_rec(LogRecordType::CheckpointRecord, 0),
                LogRecordType::CheckpointRecord,
            );
        }
        self.checkpoint_count = self.checkpoint_count + 1;
        Ok(())
    }

    /// Records `offset` as the first log offset of `txn_id`, replacing any
    /// earlier entry.
    fn upsert_first_record(&mut self, txn_id: TransactionID, offset: usize)
        requires
            forall|i: int, j: int|
                0 <= i < j < old(self).txn_id_to_first_log_record@.len() ==> old(
                    self,
                ).txn_id_to_first_log_record@[i].0 != old(self).txn_id_to_first_log_record@[j].0,
        ensures
            forall|i: int, j: int|
                0 <= i < j < final(self).txn_id_to_first_log_record@.len() ==> final(self).txn_id_to_first_log_record@[i].0 != final(self).txn_id_to_first_log_record@[j].0,
            final(self).tracks_txn(txn_id),
            final(self).tracks_txn_at(txn_id, offset),
            final(self).log_file == old(self).log_file,
            final(self).current_offset == old(self).current_offset,
            final(self).begin_count == old(self).begin_count,
            final(self).commit_count == old(self).commit_count,
            final(self).abort_count == old(self).abort_count,
            final(self).update_count == old(self).update_count,
            final(self).checkpoint_count == old(self).checkpoint_count,
    {
        let n = self.txn_id_to_first_log_record.len();
        let mut i: usize = 0;
        while i < n
            invariant
                i <= n,
                n == self.txn_id_to_first_log_record@.len(),
                *self == *old(self),
                forall|a: int, b: int|
                    0 <= a < b < old(self).txn_id_to_first_log_record@.len() ==> old(
                        self,
                    ).txn_id_to_first_log_record@[a].0 != old(
                        self,
                    ).txn_id_to_first_log_record@[b].0,
                forall|j: int|
                    0 <= j < i ==> (#[trigger] self.txn_id_to_first_log_record@[j]).0 != txn_id,
            decreases n - i,
        {
            if self.txn_id_to_first_log_record[i].0 == txn_id {
                self.txn_id_to_first_log_record.set(i, (txn_id, offset));
                proof {
                    let v = self.txn_id_to_first_log_record@;
                    let w = old(self).txn_id_to_first_log_record@;
                    assert(v[i as int].0 == txn_id);
                    assert forall|a: int, b: int| 0 <= a < b < v.len() implies v[a].0
                        != v[b].0 by {
                        if a != i && b != i {
                            assert(v[a] == w[a] && v[b] == w[b]);
                        } else if a == i {
                            assert(v[b] == w[b]);
                            assert(w[b].0 != w[i as int].0);
                        } else {
                            assert(v[a] == w[a]);
                            assert(w[a].0 != w[i as int].0);
                        }
                    }
                }
                return ;
            }
            i = i + 1;
        }
        self.txn_id_to_first_log_record.push((txn_id, offset));
        proof {
            let v = self.txn_id_to_first_log_record@;
            assert(v[v.len() - 1].0 == txn_id);
            assert forall|a: int, b: int| 0 <= a < b < v.len() implies v[a].0 != v[b].0 by {
                if b < v.len() - 1 {
                    assert(v[a] == old(self).txn_id_to_first_log_record@[a]);
                    assert(v[b] == old(self).txn_id_to_first_log_record@[b]);
                } else {
                    assert(v[a] == old(self).txn_id_to_first_log_record@[a]);
                }
            }
        }
    }

    /// Drops the first-record entry of `txn_id`, if any.
    fn remove_first_record(&mut self, txn_id: TransactionID)
        requires
            forall|i: int, j: int|
                0 <= i < j < old(self).txn_id_to_first_log_record@.len() ==> old(
                    self,
                ).txn_id_to_first_log_record@[i].0 != old(self).txn_id_to_first_log_record@[j].0,
        ensures
            forall|i: int, j: int|
                0 <= i < j < final(self).txn_id_to_first_log_record@.len() ==> final(self).txn_id_to_first_log_record@[i].0 != final(self).txn_id_to_first_log_record@[j].0,
            !final(self).tracks_txn(txn_id),
            final(self).log_file == old(self).log_file,
            final(self).current_offset == old(self).current_offset,
            final(self).begin_count == old(self).begin_count,
            final(self).commit_count == old(self).commit_count,
            final(self).abort_count == old(self).abort_count,
            final(self).update_count == old(self).update_count,
            final(self).checkpoint_count == old(self).checkpoint_count,
    {
        let n = self.txn_id_to_first_log_record.len();
        let mut i: usize = 0;
        while i < n
            invariant
                i <= n,
                n == self.txn_id_to_first_log_record@.len(),
                *self == *old(self),
                forall|a: int, b: int|
                    0 <= a < b < old(self).txn_id_to_first_log_record@.len() ==> old(
                        self,
                    ).txn_id_to_first_log_record@[a].0 != old(
                        self,
                    ).txn_id_to_first_log_record@[b].0,
                forall|j: int|
                    0 <= j < i ==> (#[trigger] self.txn_id_to_first_log_record@[j]).0 != txn_id,
            decreases n - i,
        {
            if self.txn_id_to_first_log_record[i].0 == txn_id {
                self.txn_id_to_first_log_record.remove(i);
                proof {
                    assert forall|k: int|
                        0 <= k < self.txn_id_to_first_log_record@.len() implies (
                    #[trigger] self.txn_id_to_first_log_record@[k]).0 != txn_id by {
                        if k < i {
                            assert(self.txn_id_to_first_log_record@[k] == old(
                                self,
                            ).txn_id_to_first_log_record@[k]);
                        } else {
                            assert(self.txn_id_to_first_log_record@[k] == old(
                                self,
                            ).txn_id_to_first_log_record@[k + 1]);
                        }
                    }
                    let v = self.txn_id_to_first_log_record@;
                    let w = old(self).txn_id_to_first_log_record@;
                    assert forall|a: int, b: int| 0 <= a < b < v.len() implies v[a].0
                        != v[b].0 by {
                        let a0: int = if a < i {
                            a
                        } else {
                            a + 1
                        };
                        let b0: int = if b < i {
                            b
                        } else {
                            b + 1
                        };
                        assert(v[a] == w[a0]);
                        assert(v[b] == w[b0]);
                    }
                }
                return ;
            }
            i = i + 1;
        }
    }

    /// The total number of records appended since the last reset.
    pub fn get_total_log_records(&self) -> (r: u64)
        requires
            self.wf(),
        ensures
            r == self.begin_count + self.commit_count + self.abort_count + self.update_count
                + self.checkpoint_count,
            r == self.log_recs().len(),
    {
        proof {
            lemma_counts_partition(self.log_recs());
            lemma_parse_count_bound(self.log_bytes());
        }
        self.begin_count + self.commit_count + self.abort_count + self.update_count
            + self.checkpoint_count
    }

    /// The number of records of one kind appended since the last reset.
    pub fn get_total_log_records_of_type(&self, record_type: LogRecordType) -> (r: u64)
        requires
            self.wf(),
        ensures
            r == count_type(self.log_recs(), record_type),
    {
        match record_type {
            LogRecordType::BeginRecord => self.begin_count,
            LogRecordType::CommitRecord => self.commit_count,
            LogRecordType::AbortRecord => self.abort_count,
            LogRecordType::UpdateRecord => self.update_count,
            LogRecordType::CheckpointRecord => self.checkpoint_count,
        }
    }
}


/// A single range write applied to one page.
pub struct PageWrite {
    pub page: u64,
    pub off: u64,
    pub img: Seq<u8>,
}

/// The write that undoes `r`: its before image at its range.
pub open spec fn w_before(r: LogRec) -> PageWrite {
    PageWrite { page: r.page, off: r.off, img: r.before }
}

/// The write that redoes `r`: its after image at its range.
pub open spec fn w_after(r: LogRec) -> PageWrite {
    PageWrite { page: r.page, off: r.off, img: r.after }
}

/// Applies one range write to a page map. A page that is absent is first
/// materialized as `page_size` zero bytes, as the buffer pool does when it
/// loads a page that was never written.
pub open spec fn apply_write(m: Map<u64, Seq<u8>>, w: PageWrite, page_size: nat) -> Map<
    u64,
    Seq<u8>,
> {
    let base = if m.dom().contains(w.page) {
        m[w.page]
    } else {
        zeros(page_size)
    };
    m.insert(w.page, overwrite(base, w.off as int, w.img))
}

/// Applies a sequence of range writes in order.
pub open spec fn apply_writes(m: Map<u64, Seq<u8>>, ws: Seq<PageWrite>, page_size: nat) -> Map<
    u64,
    Seq<u8>,
>
    decreases ws.len(),
{
    if ws.len() == 0 {
        m
    } else {
        apply_writes(apply_write(m, ws[0], page_size), ws.drop_first(), page_size)
    }
}

/// A trailing write factors out of `apply_writes`.
pub proof fn lemma_apply_writes_push(m: Map<u64, Seq<u8>>, ws: Seq<PageWrite>, w: PageWrite, page_size: nat)
    ensures
        apply_writes(m, ws.push(w), page_size) == apply_write(
            apply_writes(m, ws, page_size),
            w,
            page_size,
        ),
    decreases ws.len(),
{
    if ws.len() == 0 {
        assert(ws.push(w)[0] == w);
        assert(ws.push(w).drop_first() =~= Seq::<PageWrite>::empty());
        assert(apply_writes(apply_write(m, w, page_size), Seq::<PageWrite>::empty(), page_size)
            == apply_write(m, w, page_size));
        assert(apply_writes(m, Seq::<PageWrite>::empty(), page_size) == m);
        assert(apply_writes(m, ws.push(w), page_size) == apply_writes(
            apply_write(m, ws.push(w)[0], page_size),
            ws.push(w).drop_first(),
            page_size,
        ));
    } else {
        assert(ws.push(w)[0] == ws[0]);
        assert(ws.push(w).drop_first() =~= ws.drop_first().push(w));
        lemma_apply_writes_push(apply_write(m, ws[0], page_size), ws.drop_first(), w, page_size);
        assert(apply_writes(m, ws.push(w), page_size) == apply_writes(
            apply_write(m, ws.push(w)[0], page_size),
            ws.push(w).drop_first(),
            page_size,
        ));
        assert(apply_writes(m, ws, page_size) == apply_writes(
            apply_write(m, ws[0], page_size),
            ws.drop_first(),
            page_size,
        ));
    }
}

/// `apply_writes` distributes over concatenation.
pub proof fn lemma_apply_writes_concat(m: Map<u64, Seq<u8>>, a: Seq<PageWrite>, b: Seq<PageWrite>, page_size: nat)
    ensures
        apply_writes(m, a + b, page_size) == apply_writes(
            apply_writes(m, a, page_size),
            b,
            page_size,
        ),
    decreases a.len(),
{
    if a.len() == 0 {
        assert(a + b =~= b);
    } else {
        assert((a + b)[0] == a[0]);
        assert((a + b).drop_first() =~= a.drop_first() + b);
        lemma_apply_writes_concat(apply_write(m, a[0], page_size), a.drop_first(), b, page_size);
    }
}

/// The transaction sets that the analysis phase derives from a log: the
/// transactions still active at its end, those committed, and those
/// aborted.
pub open spec fn analysis_sets(recs: Seq<LogRec>) -> (Set<u64>, Set<u64>, Set<u64>)
    decreases recs.len(),
{
    if recs.len() == 0 {
        (Set::<u64>::empty(), Set::<u64>::empty(), Set::<u64>::empty())
    } else {
        let (active, committed, aborted) = analysis_sets(recs.drop_last());
        let r = recs.last();
        match r.rtype {
            LogRecordType::BeginRecord => (active.insert(r.txn), committed, aborted),
            LogRecordType::CommitRecord => (active.remove(r.txn), committed.insert(r.txn), aborted),
            LogRecordType::AbortRecord => (active.remove(r.txn), committed, aborted.insert(r.txn)),
            LogRecordType::UpdateRecord => (active, committed, aborted),
            LogRecordType::CheckpointRecord => (active, committed, aborted),
        }
    }
}

/// The transactions whose updates the redo phase replays: committed ones,
/// and ones still active at crash time (they are redone, then undone).
pub open spec fn winner_txns(recs: Seq<LogRec>) -> Set<u64> {
    analysis_sets(recs).1.union(analysis_sets(recs).0)
}

/// The loser transactions whose updates the undo phase reverts: active and
/// aborted ones.
pub open spec fn loser_txns(recs: Seq<LogRec>) -> Set<u64> {
    analysis_sets(recs).0.union(analysis_sets(recs).2)
}

/// The after-image writes of records `i..` whose transaction is in
/// `winners`, in log order.
pub open spec fn redo_from(recs: Seq<LogRec>, i: int, winners: Set<u64>) -> Seq<PageWrite>
    decreases recs.len() - i,
{
    if i < 0 || i >= recs.len() {
        Seq::<PageWrite>::empty()
    } else {
        let rest = redo_from(recs, i + 1, winners);
        if recs[i].rtype is UpdateRecord && winners.contains(recs[i].txn) {
            seq![w_after(recs[i])] + rest
        } else {
            rest
        }
    }
}

/// All redo writes of a log.
pub open spec fn redo_writes(recs: Seq<LogRec>, winners: Set<u64>) -> Seq<PageWrite> {
    redo_from(recs, 0, winners)
}

/// The before-image writes of records `..i` whose transaction is in
/// `losers`, in reverse log order.
pub open spec fn undo_from(recs: Seq<LogRec>, i: int, losers: Set<u64>) -> Seq<PageWrite>
    decreases i,
{
    if i <= 0 || i > recs.len() {
        Seq::<PageWrite>::empty()
    } else {
        let rest = undo_from(recs, i - 1, losers);
        if recs[i - 1].rtype is UpdateRecord && losers.contains(recs[i - 1].txn) {
            seq![w_before(recs[i - 1])] + rest
        } else {
            rest
        }
    }
}

/// All undo writes of a log.
pub open spec fn undo_writes(recs: Seq<LogRec>, losers: Set<u64>) -> Seq<PageWrite> {
    undo_from(recs, recs.len() as int, losers)
}

/// The before-image writes that roll back `txn`: its updates among records
/// `..i` in reverse log order, stopping at its `Begin` record.
pub open spec fn rollback_from(recs: Seq<LogRec>, i: int, txn: u64) -> Seq<PageWrite>
    decreases i,
{
    if i <= 0 || i > recs.len() {
        Seq::<PageWrite>::empty()
    } else {
        let r = recs[i - 1];
        if r.rtype is UpdateRecord && r.txn == txn {
            seq![w_before(r)] + rollback_from(recs, i - 1, txn)
        } else if r.rtype is BeginRecord && r.txn == txn {
            Seq::<PageWrite>::empty()
        } else {
            rollback_from(recs, i - 1, txn)
        }
    }
}

/// All rollback writes of one transaction over a log.
pub open spec fn rollback_writes(recs: Seq<LogRec>, txn: u64) -> Seq<PageWrite> {
    rollback_from(recs, recs.len() as int, txn)
}

/// Every write three-phase recovery performs on a log, in order: the redo
/// writes of the winners, then the undo writes of the losers.
pub open spec fn recovery_writes(recs: Seq<LogRec>) -> Seq<PageWrite> {
    redo_writes(recs, winner_txns(recs)) + undo_writes(recs, loser_txns(recs))
}

/// The page map that recovery leaves behind, as a function of the page map
/// it starts from and the log it scans.
pub open spec fn recovery_map(m: Map<u64, Seq<u8>>, recs: Seq<LogRec>, page_size: nat) -> Map<
    u64,
    Seq<u8>,
> {
    apply_writes(m, recovery_writes(recs), page_size)
}

/// Whether every update record's range lies within a page of `page_size`
/// bytes, so that applying its images cannot reach out of bounds.
pub open spec fn updates_fit(recs: Seq<LogRec>, page_size: nat) -> bool {
    forall|i: int|
        0 <= i < recs.len() && (#[trigger] recs[i]).rtype is UpdateRecord ==> recs[i].off
            + recs[i].len <= page_size
}


/// Executable-record consistency: an update record carries all its payload
/// fields with matching image lengths; a marker record carries none.
pub open spec fn exec_rec_wf(d: LogRecordData) -> bool {
    if d.record_type is UpdateRecord {
        &&& d.page_id is Some
        &&& d.length is Some
        &&& d.offset is Some
        &&& d.before_img matches Some(b) && b@.len() == d.length.unwrap()
        &&& d.after_img matches Some(a) && a@.len() == d.length.unwrap()
    } else {
        &&& d.page_id is None
        &&& d.length is None
        &&& d.offset is None
        &&& d.before_img is None
        &&& d.after_img is None
    }
}

impl LogManager {
    /// Parses the whole log stream written so far into executable records;
    /// fails with `DeserializationError` exactly when the stream does not
    /// parse.
    fn read_all_logs(&self) -> (r: Result<Vec<LogRecordData>, BuzzDBError>)
        requires
            self.current_offset <= self.log_file.data@.len(),
        ensures
            parse_log(self.log_bytes()) is Some ==> (r matches Ok(v) && recs_view(v@) == parse_log(
                self.log_bytes(),
            ).unwrap() && (forall|i: int| 0 <= i < v@.len() ==> exec_rec_wf(#[trigger] v@[i]))
                && bookkeeping_ok(v@)),
            parse_log(self.log_bytes()) is None ==> (r matches Err(e)
                && e matches BuzzDBError::DeserializationError),
    {
        let end = self.current_offset;
        let ghost whole = self.log_bytes();
        proof {
            assert(whole.len() == end);
            assert forall|k: int| 0 <= k < end implies whole[k] == self.log_file.data@[k] by {}
        }
        let mut logs: Vec<LogRecordData> = Vec::new();
        let mut pos: usize = 0;
        proof {
            assert(whole.skip(0) =~= whole);
            assert(recs_view(logs@) =~= Seq::<LogRec>::empty());
            assert(recs_total_size(recs_view(logs@)) == 0);
            if parse_log(whole) is Some {
                assert(recs_view(logs@) + parse_log(whole).unwrap() =~= parse_log(
                    whole,
                ).unwrap());
            }
        }
        while pos < end
            invariant
                pos <= end,
                end == self.current_offset,
                end <= self.log_file.data@.len(),
                whole == self.log_bytes(),
                whole.len() == end,
                parse_log(whole) == (match parse_log(whole.skip(pos as int)) {
                    Option::None => None::<Seq<LogRec>>,
                    Option::Some(rest) => Some(recs_view(logs@) + rest),
                }),
                forall|k: int| 0 <= k < logs@.len() ==> exec_rec_wf(#[trigger] logs@[k]),
                pos as int == recs_total_size(recs_view(logs@)),
                bookkeeping_ok(logs@),
            decreases end - pos,
        {
            let ghost b = whole.skip(pos as int);
            proof {
                assert(b.len() == end - pos);
                assert forall|k: int| 0 <= k < b.len() implies b[k] == self.log_file.data@[pos
                    + k] by {}
            }
            if end - pos < 9 {
                proof {
                    assert(parse_log(b) is None);
                }
                return Err(BuzzDBError::DeserializationError);
            }
            let type_byte = self.log_file.data[pos];
            assert(b[0] == type_byte);
            let record_type = match LogRecordType::from_byte(type_byte) {
                Some(t) => t,
                None => {
                    proof {
                        assert(parse_log(b) is None);
                    }
                    return Err(BuzzDBError::DeserializationError);
                },
            };
            let txn_sub = slice_subrange(self.log_file.data.as_slice(), pos + 1, pos + 9);
            assert(txn_sub@ =~= b.subrange(1, 9));
            let txn = u64_from_le_bytes(txn_sub);

            if record_type == LogRecordType::UpdateRecord {
                if end - pos < 33 {
                    proof {
                        assert(parse_log(b) is None);
                    }
                    return Err(BuzzDBError::DeserializationError);
                }
                let page_sub = slice_subrange(self.log_file.data.as_slice(), pos + 9, pos + 17);
                assert(page_sub@ =~= b.subrange(9, 17));
                let page = u64_from_le_bytes(page_sub);
                let len_sub = slice_subrange(self.log_file.data.as_slice(), pos + 17, pos + 25);
                assert(len_sub@ =~= b.subrange(17, 25));
                let length = u64_from_le_bytes(len_sub);
                let off_sub = slice_subrange(self.log_file.data.as_slice(), pos + 25, pos + 33);
                assert(off_sub@ =~= b.subrange(25, 33));
                let offset = u64_from_le_bytes(off_sub);

                if length > (((end - pos) - 33) / 2) as u64 {
                    proof {
                        assert(b.len() < 33 + 2 * length);
                        assert(parse_log(b) is None);
                    }
                    return Err(BuzzDBError::DeserializationError);
                }
                let length_us = length as usize;
                let before_sub = slice_subrange(
                    self.log_file.data.as_slice(),
                    pos + 33,
                    pos + 33 + length_us,
                );
                assert(before_sub@ =~= b.subrange(33, 33 + length));
                let before_img = vstd::slice::slice_to_vec(before_sub);
                let after_sub = slice_subrange(
                    self.log_file.data.as_slice(),
                    pos + 33 + length_us,
                    pos + 33 + 2 * length_us,
                );
                assert(after_sub@ =~= b.subrange(33 + length, 33 + 2 * length));
                let after_img = vstd::slice::slice_to_vec(after_sub);

                let ghost prev = logs@;
                let record_size = 33 + 2 * length_us;
                logs.push(
                    LogRecordData {
                        record_type,
                        txn_id: TransactionID(txn),
                        page_id: Some(PageID(page)),
                        length: Some(length),
                        offset: Some(offset),
                        before_img: Some(before_img),
                        after_img: Some(after_img),
                        log_offset: pos,
                        record_size,
                    },
                );
                proof {
                    let r = update_rec(txn, page, length, offset, b.subrange(33, 33 + length), b.subrange(33 + length, 33 + 2 * length));
                    assert(rec_view(logs@.last()) == r);
                    assert(recs_view(logs@) =~= recs_view(prev).push(r));
                    assert(b.skip(33 + 2 * length) =~= whole.skip(pos + 33 + 2 * length));
                    if parse_log(b.skip(33 + 2 * length)) is Some {
                        let rest = parse_log(b.skip(33 + 2 * length)).unwrap();
                        assert(parse_log(b) == Some(seq![r] + rest));
                        assert(recs_view(prev) + (seq![r] + rest) =~= recs_view(logs@) + rest);
                    }
                    assert(recs_view(logs@).drop_last() =~= recs_view(prev));
                    assert(recs_total_size(recs_view(logs@)) == recs_total_size(recs_view(prev))
                        + rec_size(r));
                    assert(logs@.take(logs@.len() - 1) =~= prev);
                    assert forall|k: int|
                        0 <= k < logs@.len() implies (#[trigger] logs@[k]).record_size
                        == rec_size(rec_view(logs@[k])) && logs@[k].log_offset
                        == recs_total_size(recs_view(logs@.take(k))) by {
                        if k < logs@.len() - 1 {
                            assert(logs@[k] == prev[k]);
                            assert(logs@.take(k) =~= prev.take(k));
                        } else {
                            assert(logs@.take(k) =~= prev);
                        }
                    }
                }
                pos = pos + record_size;
            } else {
                let ghost prev = logs@;
                logs.push(
                    LogRecordData {
                        record_type,
                        txn_id: TransactionID(txn),
                        page_id: None,
                        length: None,
                        offset: None,
                        before_img: None,
                        after_img: None,
                        log_offset: pos,
                        record_size: 9,
                    },
                );
                proof {
                    let r = marker_rec(record_type, txn);
                    assert(rec_view(logs@.last()) == r);
                    assert(recs_view(logs@) =~= recs_view(prev).push(r));
                    assert(b.skip(9) =~= whole.skip(pos + 9));
                    if parse_log(b.skip(9)) is Some {
                        let rest = parse_log(b.skip(9)).unwrap();
                        assert(parse_log(b) == Some(seq![r] + rest));
                        assert(recs_view(prev) + (seq![r] + rest) =~= recs_view(logs@) + rest);
                    }
                    assert(recs_view(logs@).drop_last() =~= recs_view(prev));
                    assert(recs_total_size(recs_view(logs@)) == recs_total_size(recs_view(prev))
                        + rec_size(r));
                    assert(logs@.take(logs@.len() - 1) =~= prev);
                    assert forall|k: int|
                        0 <= k < logs@.len() implies (#[trigger] logs@[k]).record_size
                        == rec_size(rec_view(logs@[k])) && logs@[k].log_offset
                        == recs_total_size(recs_view(logs@.take(k))) by {
                        if k < logs@.len() - 1 {
                            assert(logs@[k] == prev[k]);
                            assert(logs@.take(k) =~= prev.take(k));
                        } else {
                            assert(logs@.take(k) =~= prev);
                        }
                    }
                }
                pos = pos + 9;
            }
        }
        proof {
            assert(whole.skip(pos as int) =~= Seq::<u8>::empty());
            assert(recs_view(logs@) + Seq::<LogRec>::empty() =~= recs_view(logs@));
        }
        Ok(logs)
    }
}


/// The set of transaction ids a vector holds.
pub open spec fn txn_set(v: Seq<TransactionID>) -> Set<u64> {
    Set::new(|t: u64| v.contains(TransactionID(t)))
}

/// Whether a vector holds no transaction id twice.
pub open spec fn txns_distinct(v: Seq<TransactionID>) -> bool {
    forall|i: int, j: int| 0 <= i < j < v.len() ==> v[i] != v[j]
}

/// Whether the vector holds `t`.
fn txn_vec_contains(v: &Vec<TransactionID>, t: TransactionID) -> (r: bool)
    ensures
        r == v@.contains(t),
{
    let n = v.len();
    let mut i: usize = 0;
    while i < n
        invariant
            i <= n,
            n == v@.len(),
            forall|j: int| 0 <= j < i ==> v@[j] != t,
        decreases n - i,
    {
        if v[i] == t {
            return true;
        }
        i = i + 1;
    }
    false
}

/// Adds `t` unless it is already present.
fn txn_vec_insert(v: &mut Vec<TransactionID>, t: TransactionID)
    requires
        txns_distinct(old(v)@),
    ensures
        txns_distinct(final(v)@),
        forall|x: TransactionID|
            final(v)@.contains(x) <==> (old(v)@.contains(x) || x == t),
{
    if !txn_vec_contains(v, t) {
        v.push(t);
        proof {
            assert forall|x: TransactionID| v@.contains(x) implies (old(v)@.contains(x) || x
                == t) by {
                let k = choose|k: int| 0 <= k < v@.len() && v@[k] == x;
                if k < v@.len() - 1 {
                    assert(old(v)@[k] == x);
                }
            }
            assert forall|x: TransactionID| (old(v)@.contains(x) || x == t) implies v@.contains(
                x,
            ) by {
                if old(v)@.contains(x) {
                    let k = choose|k: int| 0 <= k < old(v)@.len() && old(v)@[k] == x;
                    assert(v@[k] == x);
                } else {
                    assert(v@[v@.len() - 1] == x);
                }
            }
        }
    }
}

/// Removes `t` if present.
fn txn_vec_remove(v: &mut Vec<TransactionID>, t: TransactionID)
    requires
        txns_distinct(old(v)@),
    ensures
        txns_distinct(final(v)@),
        forall|x: TransactionID|
            final(v)@.contains(x) <==> (old(v)@.contains(x) && x != t),
{
    let n = v.len();
    let mut i: usize = 0;
    while i < n
        invariant
            i <= n,
            n == v@.len(),
            *v == *old(v),
            txns_distinct(v@),
            forall|j: int| 0 <= j < i ==> v@[j] != t,
        decreases n - i,
    {
        if v[i] == t {
            v.remove(i);
            proof {
                assert forall|x: TransactionID| v@.contains(x) implies (old(v)@.contains(x) && x
                    != t) by {
                    let k = choose|k: int| 0 <= k < v@.len() && v@[k] == x;
                    if k < i {
                        assert(old(v)@[k] == x);
                    } else {
                        assert(old(v)@[k + 1] == x);
                    }
                }
                assert forall|x: TransactionID| (old(v)@.contains(x) && x != t) implies
                    v@.contains(x) by {
                    let k = choose|k: int| 0 <= k < old(v)@.len() && old(v)@[k] == x;
                    if k < i {
                        assert(v@[k] == x);
                    } else {
                        assert(k != i);
                        assert(v@[k - 1] == x);
                    }
                }
                assert forall|a: int, b: int| 0 <= a < b < v@.len() implies v@[a] != v@[b] by {
                    let a0: int = if a < i { a } else { a + 1 };
                    let b0: int = if b < i { b } else { b + 1 };
                    assert(v@[a] == old(v)@[a0]);
                    assert(v@[b] == old(v)@[b0]);
                }
            }
            return ;
        }
        i = i + 1;
    }
    proof {
        assert forall|x: TransactionID| v@.contains(x) implies x != t by {
            let k = choose|k: int| 0 <= k < v@.len() && v@[k] == x;
        }
    }
}

/// Fixes the page, overwrites `image@` at `offset` in its frame, and
/// unfixes it dirty: the buffer's page map advances by exactly one
/// `apply_write`. The caller leaves every frame unpinned and enough
/// capacity for one more frame, so the call cannot fail and nothing is
/// evicted.
fn apply_image(buffer_manager: &mut BufferManager, page_id: PageID, offset: u64, image: &[u8]) -> (r:
    Result<(), BuzzDBError>)
    requires
        old(buffer_manager).wf(),
        old(buffer_manager).all_unpinned(),
        offset + image@.len() <= old(buffer_manager).page_size,
        old(buffer_manager).has_page(page_id) || old(buffer_manager).frames@.len() < old(
            buffer_manager,
        ).capacity,
    ensures
        r is Ok,
        final(buffer_manager).wf(),
        final(buffer_manager).all_unpinned(),
        final(buffer_manager).page_size == old(buffer_manager).page_size,
        final(buffer_manager).capacity == old(buffer_manager).capacity,
        final(buffer_manager).frames@.len() == old(buffer_manager).frames@.len() + (if old(
            buffer_manager,
        ).has_page(page_id) {
            0int
        } else {
            1int
        }),
        final(buffer_manager).pages_map() == apply_write(
            old(buffer_manager).pages_map(),
            (PageWrite { page: page_id.0, off: offset, img: image@ }),
            old(buffer_manager).page_size as nat,
        ),
{
    let ghost m0 = old(buffer_manager).pages_map();
    let ghost ps = old(buffer_manager).page_size as nat;
    let ghost was_resident = old(buffer_manager).has_page(page_id);
    let idx = match buffer_manager.fix_page(page_id, true) {
        Ok(i) => i,
        Err(e) => {
            assert(false);
            return Err(e);
        },
    };
    proof {
        assert(buffer_manager.frames@[idx as int].page_id == page_id);
        assert(buffer_manager.frames@[idx as int].data@.len()
            == buffer_manager.page_size);
    }
    let ghost base = buffer_manager.frames@[idx as int].data@;
    let fr = vec_index_mut(&mut buffer_manager.frames, idx);
    let data = fr.get_data_mut();
    crate::byte_ops::copy_bytes_at(data, offset as usize, image);
    proof {
        assert(buffer_manager.frames@[idx as int].data@ == overwrite(
            base,
            offset as int,
            image@,
        ));
        assert(buffer_manager.wf());
    }
    match buffer_manager.unfix_page(idx, true) {
        Ok(u) => {},
        Err(e) => {
            assert(false);
            return Err(e);
        },
    }
    proof {
        assert forall|k: int|
            0 <= k < buffer_manager.frames@.len() implies (
        #[trigger] buffer_manager.frames@[k]).pin_count == 0 by {
            if k != idx {
                if was_resident {
                    assert(buffer_manager.frames@[k] == old(buffer_manager).frames@[k]);
                } else {
                    assert(buffer_manager.frames@[k] == old(buffer_manager).frames@[k]);
                }
            }
        }
        let m1 = buffer_manager.pages_map();
        let w = PageWrite { page: page_id.0, off: offset, img: image@ };
        let m2 = apply_write(m0, w, ps);
        let obm = old(buffer_manager);
        if was_resident {
            assert(obm.frames@[idx as int].page_id == page_id);
            lemma_pages_map_index(obm, idx as int);
            assert(m0[page_id.0] == base);
        } else {
            assert(!m0.dom().contains(page_id.0));
            assert(base == zeros(ps));
        }
        assert forall|p: u64| #[trigger] m1.dom().contains(p) <==> m2.dom().contains(p) by {
            if p == page_id.0 {
                assert(buffer_manager.frames@[idx as int].page_id == PageID(p));
                assert(buffer_manager.has_page(PageID(p)));
            } else {
                assert(buffer_manager.has_page(PageID(p)) <==> obm.has_page(PageID(p))) by {
                    if buffer_manager.has_page(PageID(p)) {
                        let k = choose|k: int|
                            0 <= k < buffer_manager.frames@.len() && (
                            #[trigger] buffer_manager.frames@[k]).page_id == PageID(p);
                        assert(k != idx);
                        assert(obm.frames@[k].page_id == PageID(p));
                    }
                    if obm.has_page(PageID(p)) {
                        let k = choose|k: int|
                            0 <= k < obm.frames@.len() && (#[trigger] obm.frames@[k]).page_id
                                == PageID(p);
                        assert(k != idx);
                        assert(buffer_manager.frames@[k].page_id == PageID(p));
                    }
                }
            }
        }
        assert forall|p: u64| #[trigger] m1.dom().contains(p) implies m1[p] == m2[p] by {
            if p == page_id.0 {
                lemma_pages_map_index(buffer_manager, idx as int);
                assert(m1[p] == overwrite(base, offset as int, image@));
            } else {
                let k = choose|k: int|
                    0 <= k < buffer_manager.frames@.len() && (
                    #[trigger] buffer_manager.frames@[k]).page_id == PageID(p);
                assert(k != idx);
                assert(obm.frames@[k] == buffer_manager.frames@[k]);
                lemma_pages_map_index(buffer_manager, k);
                lemma_pages_map_index(obm, k);
                assert(m1[p] == buffer_manager.frames@[k].data@);
                assert(m0[p] == obm.frames@[k].data@);
            }
        }
        assert(m1 =~~= m2);
    }
    Ok(())
}


impl LogManager {
    /// Analysis: one forward scan classifying every transaction seen in the
    /// log as still active, committed, or aborted.
    fn analysis_phase(&self, logs: &Vec<LogRecordData>) -> (r: (
        Vec<TransactionID>,
        Vec<TransactionID>,
        Vec<TransactionID>,
    ))
        ensures
            txns_distinct(r.0@) && txns_distinct(r.1@) && txns_distinct(r.2@),
            txn_set(r.0@) == analysis_sets(recs_view(logs@)).0,
            txn_set(r.1@) == analysis_sets(recs_view(logs@)).1,
            txn_set(r.2@) == analysis_sets(recs_view(logs@)).2,
    {
        let ghost recs = recs_view(logs@);
        let mut active_txns: Vec<TransactionID> = Vec::new();
        let mut committed_txns: Vec<TransactionID> = Vec::new();
        let mut aborted_txns: Vec<TransactionID> = Vec::new();
        let n = logs.len();
        let mut i: usize = 0;
        proof {
            assert(recs.take(0) =~= Seq::<LogRec>::empty());
            assert(txn_set(active_txns@) =~= analysis_sets(recs.take(0)).0);
            assert(txn_set(committed_txns@) =~= analysis_sets(recs.take(0)).1);
            assert(txn_set(aborted_txns@) =~= analysis_sets(recs.take(0)).2);
        }
        while i < n
            invariant
                i <= n,
                n == logs@.len(),
                recs == recs_view(logs@),
                recs.len() == n,
                txns_distinct(active_txns@) && txns_distinct(committed_txns@) && txns_distinct(
                    aborted_txns@,
                ),
                txn_set(active_txns@) == analysis_sets(recs.take(i as int)).0,
                txn_set(committed_txns@) == analysis_sets(recs.take(i as int)).1,
                txn_set(aborted_txns@) == analysis_sets(recs.take(i as int)).2,
            decreases n - i,
        {
            let ghost pre_active = active_txns@;
            let ghost pre_committed = committed_txns@;
            let ghost pre_aborted = aborted_txns@;
            let txn_id = logs[i].txn_id;
            let record_type = logs[i].record_type;
            proof {
                assert(recs.take(i + 1).drop_last() =~= recs.take(i as int));
                assert(recs.take(i + 1).last() == recs[i as int]);
                assert(recs[i as int] == rec_view(logs@[i as int]));
            }
            match record_type {
                LogRecordType::BeginRecord => {
                    txn_vec_insert(&mut active_txns, txn_id);
                    proof {
                        assert(txn_set(active_txns@) =~= txn_set(pre_active).insert(txn_id.0));
                    }
                },
                LogRecordType::CommitRecord => {
                    txn_vec_remove(&mut active_txns, txn_id);
                    txn_vec_insert(&mut committed_txns, txn_id);
                    proof {
                        assert(txn_set(active_txns@) =~= txn_set(pre_active).remove(txn_id.0));
                        assert(txn_set(committed_txns@) =~= txn_set(pre_committed).insert(
                            txn_id.0,
                        ));
                    }
                },
                LogRecordType::AbortRecord => {
                    txn_vec_remove(&mut active_txns, txn_id);
                    txn_vec_insert(&mut aborted_txns, txn_id);
                    proof {
                        assert(txn_set(active_txns@) =~= txn_set(pre_active).remove(txn_id.0));
                        assert(txn_set(aborted_txns@) =~= txn_set(pre_aborted).insert(txn_id.0));
                    }
                },
                LogRecordType::UpdateRecord => {},
                LogRecordType::CheckpointRecord => {},
            }
            proof {
                assert(txn_set(active_txns@) =~= analysis_sets(recs.take(i + 1)).0);
                assert(txn_set(committed_txns@) =~= analysis_sets(recs.take(i + 1)).1);
                assert(txn_set(aborted_txns@) =~= analysis_sets(recs.take(i + 1)).2);
            }
            i = i + 1;
        }
        proof {
            assert(recs.take(n as int) =~= recs);
        }
        (active_txns, committed_txns, aborted_txns)
    }

    /// Redo: one forward scan replaying the after image of every update
    /// whose transaction committed or was still active.
    fn redo_phase(
        &self,
        logs: &Vec<LogRecordData>,
        committed_txns: &Vec<TransactionID>,
        active_txns: &Vec<TransactionID>,
        buffer_manager: &mut BufferManager,
    ) -> (r: Result<(), BuzzDBError>)
        requires
            old(buffer_manager).wf(),
            old(buffer_manager).all_unpinned(),
            forall|k: int| 0 <= k < logs@.len() ==> exec_rec_wf(#[trigger] logs@[k]),
            forall|k: int| 0 <= k < logs@.len() ==> rec_wf(recs_view(logs@)[k]),
            updates_fit(recs_view(logs@), old(buffer_manager).page_size as nat),
            old(buffer_manager).frames@.len() + logs@.len() <= old(buffer_manager).capacity,
        ensures
            r is Ok,
            final(buffer_manager).wf(),
            final(buffer_manager).all_unpinned(),
            final(buffer_manager).page_size == old(buffer_manager).page_size,
            final(buffer_manager).capacity == old(buffer_manager).capacity,
            final(buffer_manager).frames@.len() <= old(buffer_manager).frames@.len()
                + logs@.len(),
            final(buffer_manager).pages_map() == apply_writes(
                old(buffer_manager).pages_map(),
                redo_writes(
                    recs_view(logs@),
                    txn_set(committed_txns@).union(txn_set(active_txns@)),
                ),
                old(buffer_manager).page_size as nat,
            ),
    {
        let ghost recs = recs_view(logs@);
        let ghost winners = txn_set(committed_txns@).union(txn_set(active_txns@));
        let ghost m0 = old(buffer_manager).pages_map();
        let ghost ps = old(buffer_manager).page_size as nat;
        let ghost mut applied: Seq<PageWrite> = Seq::<PageWrite>::empty();
        let n = logs.len();
        let mut i: usize = 0;
        proof {
            assert(Seq::<PageWrite>::empty() + redo_from(recs, 0, winners) =~= redo_from(
                recs,
                0,
                winners,
            ));
        }
        while i < n
            invariant
                i <= n,
                n == logs@.len(),
                recs == recs_view(logs@),
                recs.len() == n,
                winners == txn_set(committed_txns@).union(txn_set(active_txns@)),
                forall|k: int| 0 <= k < logs@.len() ==> exec_rec_wf(#[trigger] logs@[k]),
                forall|k: int| 0 <= k < logs@.len() ==> rec_wf(recs_view(logs@)[k]),
                updates_fit(recs, ps),
                buffer_manager.wf(),
                buffer_manager.all_unpinned(),
                buffer_manager.page_size == old(buffer_manager).page_size,
                buffer_manager.capacity == old(buffer_manager).capacity,
                ps == buffer_manager.page_size as nat,
                buffer_manager.frames@.len() <= old(buffer_manager).frames@.len() + i,
                old(buffer_manager).frames@.len() + n <= old(buffer_manager).capacity,
                m0 == old(buffer_manager).pages_map(),
                redo_writes(recs, winners) == applied + redo_from(recs, i as int, winners),
                buffer_manager.pages_map() == apply_writes(m0, applied, ps),
            decreases n - i,
        {
            let is_winner = txn_vec_contains(committed_txns, logs[i].txn_id) || txn_vec_contains(
                active_txns,
                logs[i].txn_id,
            );
            let is_update = logs[i].record_type == LogRecordType::UpdateRecord;
            proof {
                assert(recs[i as int] == rec_view(logs@[i as int]));
                assert(is_winner == winners.contains(recs[i as int].txn));
            }
            if is_update && is_winner {
                let ghost w = w_after(recs[i as int]);
                match (&logs[i].page_id, &logs[i].offset, &logs[i].after_img) {
                    (Some(page_id), Some(update_offset), Some(after_img)) => {
                        let page = *page_id;
                        let off = *update_offset;
                        proof {
                            assert(exec_rec_wf(logs@[i as int]));
                            assert(after_img@ == recs[i as int].after);
                            assert(recs[i as int].off + recs[i as int].len
                                <= ps);
                            assert(after_img@.len() == recs[i as int].len);
                        }
                        match apply_image(buffer_manager, page, off, after_img.as_slice()) {
                            Ok(u) => {},
                            Err(e) => {
                                assert(false);
                                return Err(e);
                            },
                        }
                        proof {
                            lemma_apply_writes_push(m0, applied, w, ps);
                            applied = applied.push(w);
                            assert(applied + redo_from(recs, i + 1, winners) =~= (
                            applied.drop_last() + (seq![w] + redo_from(recs, i + 1, winners))));
                        }
                    },
                    _ => {
                        proof {
                            assert(exec_rec_wf(logs@[i as int]));
                            assert(false);
                        }
                        return Err(BuzzDBError::DeserializationError);
                    },
                }
            } else {
                proof {
                    assert(redo_from(recs, i as int, winners) == redo_from(
                        recs,
                        i + 1,
                        winners,
                    ));
                }
            }
            i = i + 1;
        }
        proof {
            assert(redo_from(recs, n as int, winners) =~= Seq::<PageWrite>::empty());
            assert(applied + Seq::<PageWrite>::empty() =~= applied);
        }
        Ok(())
    }

    /// Undo: one reverse scan reverting, by its before image, every update
    /// whose transaction did not commit.
    fn undo_phase(
        &self,
        logs: &Vec<LogRecordData>,
        active_txns: &Vec<TransactionID>,
        aborted_txns: &Vec<TransactionID>,
        buffer_manager: &mut BufferManager,
    ) -> (r: Result<(), BuzzDBError>)
        requires
            old(buffer_manager).wf(),
            old(buffer_manager).all_unpinned(),
            forall|k: int| 0 <= k < logs@.len() ==> exec_rec_wf(#[trigger] logs@[k]),
            forall|k: int| 0 <= k < logs@.len() ==> rec_wf(recs_view(logs@)[k]),
            updates_fit(recs_view(logs@), old(buffer_manager).page_size as nat),
            old(buffer_manager).frames@.len() + logs@.len() <= old(buffer_manager).capacity,
        ensures
            r is Ok,
            final(buffer_manager).wf(),
            final(buffer_manager).all_unpinned(),
            final(buffer_manager).page_size == old(buffer_manager).page_size,
            final(buffer_manager).capacity == old(buffer_manager).capacity,
            final(buffer_manager).frames@.len() <= old(buffer_manager).frames@.len()
                + logs@.len(),
            final(buffer_manager).pages_map() == apply_writes(
                old(buffer_manager).pages_map(),
                undo_writes(
                    recs_view(logs@),
                    txn_set(active_txns@).union(txn_set(aborted_txns@)),
                ),
                old(buffer_manager).page_size as nat,
            ),
    {
        let ghost recs = recs_view(logs@);
        let ghost losers = txn_set(active_txns@).union(txn_set(aborted_txns@));
        let ghost m0 = old(buffer_manager).pages_map();
        let ghost ps = old(buffer_manager).page_size as nat;
        let ghost mut applied: Seq<PageWrite> = Seq::<PageWrite>::empty();
        let n = logs.len();
        let mut i: usize = n;
        proof {
            assert(Seq::<PageWrite>::empty() + undo_from(recs, n as int, losers) =~= undo_from(
                recs,
                n as int,
                losers,
            ));
        }
        while i > 0
            invariant
                i <= n,
                n == logs@.len(),
                recs == recs_view(logs@),
                recs.len() == n,
                losers == txn_set(active_txns@).union(txn_set(aborted_txns@)),
                forall|k: int| 0 <= k < logs@.len() ==> exec_rec_wf(#[trigger] logs@[k]),
                forall|k: int| 0 <= k < logs@.len() ==> rec_wf(recs_view(logs@)[k]),
                updates_fit(recs, ps),
                buffer_manager.wf(),
                buffer_manager.all_unpinned(),
                buffer_manager.page_size == old(buffer_manager).page_size,
                buffer_manager.capacity == old(buffer_manager).capacity,
                ps == buffer_manager.page_size as nat,
                buffer_manager.frames@.len() <= old(buffer_manager).frames@.len() + (n - i),
                old(buffer_manager).frames@.len() + n <= old(buffer_manager).capacity,
                m0 == old(buffer_manager).pages_map(),
                undo_writes(recs, losers) == applied + undo_from(recs, i as int, losers),
                buffer_manager.pages_map() == apply_writes(m0, applied, ps),
            decreases i,
        {
            let k = i - 1;
            let is_loser = txn_vec_contains(active_txns, logs[k].txn_id) || txn_vec_contains(
                aborted_txns,
                logs[k].txn_id,
            );
            let is_update = logs[k].record_type == LogRecordType::UpdateRecord;
            proof {
                assert(recs[k as int] == rec_view(logs@[k as int]));
                assert(is_loser == losers.contains(recs[k as int].txn));
            }
            if is_update && is_loser {
                let ghost w = w_before(recs[k as int]);
                match (&logs[k].page_id, &logs[k].offset, &logs[k].before_img) {
                    (Some(page_id), Some(update_offset), Some(before_img)) => {
                        let page = *page_id;
                        let off = *update_offset;
                        proof {
                            assert(exec_rec_wf(logs@[k as int]));
                            assert(before_img@ == recs[k as int].before);
                            assert(recs[k as int].off + recs[k as int].len <= ps);
                            assert(before_img@.len() == recs[k as int].len);
                        }
                        match apply_image(buffer_manager, page, off, before_img.as_slice()) {
                            Ok(u) => {},
                            Err(e) => {
                                assert(false);
                                return Err(e);
                            },
                        }
                        proof {
                            lemma_apply_writes_push(m0, applied, w, ps);
                            applied = applied.push(w);
                            assert(applied + undo_from(recs, k as int, losers) =~= (
                            applied.drop_last() + (seq![w] + undo_from(recs, k as int, losers))));
                        }
                    },
                    _ => {
                        proof {
                            assert(exec_rec_wf(logs@[k as int]));
                            assert(false);
                        }
                        return Err(BuzzDBError::DeserializationError);
                    },
                }
            } else {
                proof {
                    assert(undo_from(recs, i as int, losers) == undo_from(
                        recs,
                        k as int,
                        losers,
                    ));
                }
            }
            i = k;
        }
        proof {
            assert(undo_from(recs, 0, losers) =~= Seq::<PageWrite>::empty());
            assert(applied + Seq::<PageWrite>::empty() =~= applied);
        }
        Ok(())
    }
}


impl LogManager {
    /// Rolls one transaction back: scans the log in reverse and writes the
    /// before image of each of its updates back through the buffer pool,
    /// stopping at its `Begin` record.
    fn rollback_txn(&self, txn_id: TransactionID, buffer_manager: &mut BufferManager) -> (r:
        Result<(), BuzzDBError>)
        requires
            self.current_offset <= self.log_file.data@.len(),
            old(buffer_manager).wf(),
            old(buffer_manager).all_unpinned(),
            parse_log(self.log_bytes()) matches Some(recs) ==> updates_fit(
                recs,
                old(buffer_manager).page_size as nat,
            ) && old(buffer_manager).frames@.len() + recs.len() <= old(buffer_manager).capacity,
        ensures
            final(buffer_manager).page_size == old(buffer_manager).page_size,
            final(buffer_manager).capacity == old(buffer_manager).capacity,
            parse_log(self.log_bytes()) is None ==> (r matches Err(e)
                && e matches BuzzDBError::DeserializationError && *final(buffer_manager) == *old(
                buffer_manager,
            )),
            parse_log(self.log_bytes()) matches Some(recs) ==> {
                &&& r is Ok
                &&& final(buffer_manager).wf()
                &&& final(buffer_manager).all_unpinned()
                &&& final(buffer_manager).frames@.len() <= old(buffer_manager).frames@.len()
                    + recs.len()
                &&& final(buffer_manager).pages_map() == apply_writes(
                    old(buffer_manager).pages_map(),
                    rollback_writes(recs, txn_id.0),
                    old(buffer_manager).page_size as nat,
                )
            },
    {
        let logs = match self.read_all_logs() {
            Ok(v) => v,
            Err(e) => {
                return Err(e);
            },
        };
        let ghost recs = recs_view(logs@);
        proof {
            lemma_parse_gives_wf_recs(self.log_bytes());
        }
        let ghost m0 = old(buffer_manager).pages_map();
        let ghost ps = old(buffer_manager).page_size as nat;
        let ghost mut applied: Seq<PageWrite> = Seq::<PageWrite>::empty();
        let n = logs.len();
        let mut i: usize = n;
        let mut done = false;
        proof {
            assert(Seq::<PageWrite>::empty() + rollback_from(recs, n as int, txn_id.0)
                =~= rollback_from(recs, n as int, txn_id.0));
        }
        while i > 0 && !done
            invariant
                i <= n,
                n == logs@.len(),
                recs == recs_view(logs@),
                recs.len() == n,
                forall|k: int| 0 <= k < logs@.len() ==> exec_rec_wf(#[trigger] logs@[k]),
                forall|k: int| 0 <= k < recs.len() ==> rec_wf(#[trigger] recs[k]),
                updates_fit(recs, ps),
                buffer_manager.wf(),
                buffer_manager.all_unpinned(),
                buffer_manager.page_size == old(buffer_manager).page_size,
                buffer_manager.capacity == old(buffer_manager).capacity,
                ps == buffer_manager.page_size as nat,
                buffer_manager.frames@.len() <= old(buffer_manager).frames@.len() + (n - i),
                old(buffer_manager).frames@.len() + n <= old(buffer_manager).capacity,
                m0 == old(buffer_manager).pages_map(),
                !done ==> rollback_writes(recs, txn_id.0) == applied + rollback_from(
                    recs,
                    i as int,
                    txn_id.0,
                ),
                done ==> rollback_writes(recs, txn_id.0) == applied,
                buffer_manager.pages_map() == apply_writes(m0, applied, ps),
            decreases i,
        {
            let k = i - 1;
            proof {
                assert(recs[k as int] == rec_view(logs@[k as int]));
            }
            if logs[k].txn_id == txn_id {
                if logs[k].record_type == LogRecordType::UpdateRecord {
                    let ghost w = w_before(recs[k as int]);
                    match (&logs[k].page_id, &logs[k].offset, &logs[k].before_img) {
                        (Some(page_id), Some(update_offset), Some(before_img)) => {
                            let page = *page_id;
                            let off = *update_offset;
                            proof {
                                assert(exec_rec_wf(logs@[k as int]));
                                assert(before_img@ == recs[k as int].before);
                                assert(recs[k as int].off + recs[k as int].len <= ps);
                            }
                            match apply_image(buffer_manager, page, off, before_img.as_slice()) {
                                Ok(u) => {},
                                Err(e) => {
                                    assert(false);
                                    return Err(e);
                                },
                            }
                            proof {
                                lemma_apply_writes_push(m0, applied, w, ps);
                                applied = applied.push(w);
                                assert(applied + rollback_from(recs, k as int, txn_id.0) =~= (
                                applied.drop_last() + (seq![w] + rollback_from(
                                    recs,
                                    k as int,
                                    txn_id.0,
                                ))));
                            }
                        },
                        _ => {
                            proof {
                                assert(exec_rec_wf(logs@[k as int]));
                                assert(false);
                            }
                            return Err(BuzzDBError::DeserializationError);
                        },
                    }
                } else if logs[k].record_type == LogRecordType::BeginRecord {
                    proof {
                        assert(rollback_from(recs, i as int, txn_id.0)
                            =~= Seq::<PageWrite>::empty());
                        assert(applied + Seq::<PageWrite>::empty() =~= applied);
                    }
                    done = true;
                } else {
                    proof {
                        assert(rollback_from(recs, i as int, txn_id.0) == rollback_from(
                            recs,
                            k as int,
                            txn_id.0,
                        ));
                    }
                }
            } else {
                proof {
                    assert(rollback_from(recs, i as int, txn_id.0) == rollback_from(
                        recs,
                        k as int,
                        txn_id.0,
                    ));
                }
            }
            i = k;
        }
        proof {
            if !done {
                assert(rollback_from(recs, 0, txn_id.0) =~= Seq::<PageWrite>::empty());
                assert(applied + Seq::<PageWrite>::empty() =~= applied);
            }
        }
        Ok(())
    }

    /// ARIES three-phase recovery: analysis classifies the transactions,
    /// redo replays the after images of committed and still-active ones,
    /// and undo reverts, in reverse order, the updates of every transaction
    /// that did not commit. The buffer pool ends at exactly the page map
    /// `recovery_map` assigns to the scanned log.
    pub fn recovery(&mut self, buffer_manager: &mut BufferManager) -> (r: Result<(), BuzzDBError>)
        requires
            old(self).current_offset <= old(self).log_file.data@.len(),
            old(buffer_manager).wf(),
            old(buffer_manager).all_unpinned(),
            parse_log(old(self).log_bytes()) matches Some(recs) ==> updates_fit(
                recs,
                old(buffer_manager).page_size as nat,
            ) && old(buffer_manager).frames@.len() + 2 * recs.len() <= old(
                buffer_manager,
            ).capacity,
        ensures
            *final(self) == *old(self),
            final(buffer_manager).page_size == old(buffer_manager).page_size,
            final(buffer_manager).capacity == old(buffer_manager).capacity,
            parse_log(old(self).log_bytes()) is None ==> (r matches Err(e)
                && e matches BuzzDBError::DeserializationError && *final(buffer_manager) == *old(
                buffer_manager,
            )),
            parse_log(old(self).log_bytes()) matches Some(recs) ==> {
                &&& r is Ok
                &&& final(buffer_manager).wf()
                &&& final(buffer_manager).all_unpinned()
                &&& final(buffer_manager).frames@.len() <= old(buffer_manager).frames@.len() + 2
                    * recs.len()
                &&& final(buffer_manager).pages_map() == recovery_map(
                    old(buffer_manager).pages_map(),
                    recs,
                    old(buffer_manager).page_size as nat,
                )
            },
    {
        let logs = match self.read_all_logs() {
            Ok(v) => v,
            Err(e) => {
                return Err(e);
            },
        };
        let ghost recs = recs_view(logs@);
        let ghost ps = old(buffer_manager).page_size as nat;
        let ghost m0 = old(buffer_manager).pages_map();
        proof {
            lemma_parse_gives_wf_recs(self.log_bytes());
        }
        let (active_txns, committed_txns, aborted_txns) = self.analysis_phase(&logs);
        match self.redo_phase(&logs, &committed_txns, &active_txns, buffer_manager) {
            Ok(u) => {},
            Err(e) => {
                assert(false);
                return Err(e);
            },
        }
        match self.undo_phase(&logs, &active_txns, &aborted_txns, buffer_manager) {
            Ok(u) => {},
            Err(e) => {
                assert(false);
                return Err(e);
            },
        }
        proof {
            lemma_apply_writes_concat(
                m0,
                redo_writes(recs, winner_txns(recs)),
                undo_writes(recs, loser_txns(recs)),
                ps,
            );
        }
        Ok(())
    }

    /// Appends an `Abort` record for `txn_id`, rolls the transaction's
    /// updates back through the buffer pool, and forgets the transaction's
    /// first log offset.
    pub fn log_abort(&mut self, txn_id: TransactionID, buffer_manager: &mut BufferManager) -> (r:
        Result<(), BuzzDBError>)
        requires
            old(self).wf(),
            old(self).current_offset + 9 <= usize::MAX,
            old(buffer_manager).wf(),
            old(buffer_manager).all_unpinned(),
            updates_fit(old(self).log_recs(), old(buffer_manager).page_size as nat),
            old(buffer_manager).frames@.len() + old(self).log_recs().len() + 1 <= old(
                buffer_manager,
            ).capacity,
        ensures
            r is Ok,
            final(self).wf(),
            final(self).log_recs() == old(self).log_recs().push(
                marker_rec(LogRecordType::AbortRecord, txn_id.0),
            ),
            final(self).current_offset == old(self).current_offset + 9,
            final(self).abort_count == old(self).abort_count + 1,
            final(self).begin_count == old(self).begin_count,
            final(self).commit_count == old(self).commit_count,
            final(self).update_count == old(self).update_count,
            final(self).checkpoint_count == old(self).checkpoint_count,
            !final(self).tracks_txn(txn_id),
            final(buffer_manager).wf(),
            final(buffer_manager).all_unpinned(),
            final(buffer_manager).page_size == old(buffer_manager).page_size,
            final(buffer_manager).capacity == old(buffer_manager).capacity,
            final(buffer_manager).pages_map() == apply_writes(
                old(buffer_manager).pages_map(),
                rollback_writes(final(self).log_recs(), txn_id.0),
                old(buffer_manager).page_size as nat,
            ),
    {
        proof {
            lemma_parse_count_bound(old(self).log_bytes());
            lemma_counts_partition(old(self).log_recs());
        }
        match self.append_marker(LogRecordType::AbortRecord, txn_id) {
            Ok(u) => {},
            Err(e) => {
                assert(false);
                return Err(e);
            },
        }
        proof {
            lemma_count_push(
                old(self).log_recs(),
                marker_rec(LogRecordType::AbortRecord, txn_id.0),
                LogRecordType::BeginRecord,
            );
            lemma_count_push(
                old(self).log_recs(),
                marker_rec(LogRecordType::AbortRecord, txn_id.0),
                LogRecordType::CommitRecord,
            );
            lemma_count_push(
                old(self).log_recs(),
                marker_rec(LogRecordType::AbortRecord, txn_id.0),
                LogRecordType::AbortRecord,
            );
            lemma_count_push(
                old(self).log_recs(),
                marker_rec(LogRecordType::AbortRecord, txn_id.0),
                LogRecordType::UpdateRecord,
            );
            lemma_count_push(
                old(self).log_recs(),
                marker_rec(LogRecordType::AbortRecord, txn_id.0),
                LogRecordType::CheckpointRecord,
            );
        }
        self.abort_count = self.abort_count + 1;
        proof {
            assert(self.wf());
            assert forall|k: int|
                0 <= k < self.log_recs().len() && (#[trigger] self.log_recs()[
                k]).rtype is UpdateRecord implies self.log_recs()[k].off + self.log_recs()[k].len
                <= old(buffer_manager).page_size as nat by {
                if k < old(self).log_recs().len() {
                    assert(self.log_recs()[k] == old(self).log_recs()[k]);
                }
            }
            lemma_parse_count_bound(self.log_bytes());
        }
        match self.rollback_txn(txn_id, buffer_manager) {
            Ok(u) => {},
            Err(e) => {
                assert(false);
                return Err(e);
            },
        }
        self.remove_first_record(txn_id);
        Ok(())
    }
}


/// Whether every write's range lies within a page of `page_size` bytes.
pub open spec fn writes_fit(ws: Seq<PageWrite>, page_size: nat) -> bool {
    forall|k: int| 0 <= k < ws.len() ==> (#[trigger] ws[k]).off + ws[k].img.len() <= page_size
}

/// Whether some write in `ws` touches page `p`.
pub open spec fn writes_touch(ws: Seq<PageWrite>, p: u64) -> bool {
    exists|k: int| 0 <= k < ws.len() && (#[trigger] ws[k]).page == p
}

/// Whether every page of `m` holds exactly `page_size` bytes.
pub open spec fn pages_sized(m: Map<u64, Seq<u8>>, page_size: nat) -> bool {
    forall|p: u64| m.dom().contains(p) ==> (#[trigger] m[p]).len() == page_size
}

/// The value the last write in `ws` that covers byte `i` of page `p`
/// leaves there, if any write does.
pub open spec fn last_write_val(ws: Seq<PageWrite>, p: u64, i: int) -> Option<u8>
    decreases ws.len(),
{
    if ws.len() == 0 {
        None
    } else {
        match last_write_val(ws.drop_first(), p, i) {
            Option::Some(v) => Some(v),
            Option::None => {
                let w = ws[0];
                if w.page == p && w.off <= i < w.off + w.img.len() {
                    Some(w.img[i - w.off])
                } else {
                    None
                }
            },
        }
    }
}

/// The byte that `apply_writes` leaves at position `i` of page `p`: the
/// last write covering it, else the starting byte, else zero.
pub open spec fn expected_byte(m: Map<u64, Seq<u8>>, ws: Seq<PageWrite>, p: u64, i: int) -> u8 {
    match last_write_val(ws, p, i) {
        Option::Some(v) => v,
        Option::None => if m.dom().contains(p) {
            m[p][i]
        } else {
            0u8
        },
    }
}

/// Pointwise characterization of `apply_writes`: the resulting pages are
/// the starting pages plus the touched ones, each of `page_size` bytes,
/// and each byte is decided by the last write covering it.
pub proof fn lemma_apply_writes_pointwise(m: Map<u64, Seq<u8>>, ws: Seq<PageWrite>, page_size: nat)
    requires
        pages_sized(m, page_size),
        writes_fit(ws, page_size),
    ensures
        forall|p: u64|
            #![trigger apply_writes(m, ws, page_size).dom().contains(p)]
            apply_writes(m, ws, page_size).dom().contains(p) <==> (m.dom().contains(p)
                || writes_touch(ws, p)),
        pages_sized(apply_writes(m, ws, page_size), page_size),
        forall|p: u64, i: int|
            #![trigger apply_writes(m, ws, page_size)[p][i]]
            0 <= i < page_size && apply_writes(m, ws, page_size).dom().contains(p)
                ==> apply_writes(m, ws, page_size)[p][i] == expected_byte(m, ws, p, i),
    decreases ws.len(),
{
    if ws.len() == 0 {
        assert forall|p: u64|
            apply_writes(m, ws, page_size).dom().contains(p) <==> (m.dom().contains(p)
                || writes_touch(ws, p)) by {
            assert(!writes_touch(ws, p));
        }
    } else {
        let w = ws[0];
        let rest = ws.drop_first();
        let m1 = apply_write(m, w, page_size);
        assert(pages_sized(m1, page_size)) by {
            assert forall|p: u64| m1.dom().contains(p) implies (#[trigger] m1[p]).len()
                == page_size by {
                if p != w.page {
                    assert(m1[p] == m[p]);
                }
            }
        }
        lemma_apply_writes_pointwise(m1, rest, page_size);
        let out = apply_writes(m, ws, page_size);
        assert(out == apply_writes(m1, rest, page_size));
        assert forall|p: u64| out.dom().contains(p) <==> (m.dom().contains(p) || writes_touch(
            ws,
            p,
        )) by {
            assert(apply_writes(m1, rest, page_size).dom().contains(p) <==> (m1.dom().contains(
                p,
            ) || writes_touch(rest, p)));
            if writes_touch(rest, p) {
                let k = choose|k: int| 0 <= k < rest.len() && (#[trigger] rest[k]).page == p;
                assert(ws[k + 1].page == p);
            }
            if writes_touch(ws, p) && !writes_touch(rest, p) && p != w.page {
                let k = choose|k: int| 0 <= k < ws.len() && (#[trigger] ws[k]).page == p;
                assert(k > 0);
                assert(rest[k - 1].page == p);
                assert(false);
            }
            assert(m1.dom().contains(p) <==> (m.dom().contains(p) || p == w.page));
        }
        assert forall|p: u64, i: int|
            0 <= i < page_size && out.dom().contains(p) implies out[p][i] == expected_byte(
            m,
            ws,
            p,
            i,
        ) by {
            assert(apply_writes(m1, rest, page_size).dom().contains(p) <==> (m1.dom().contains(
                p,
            ) || writes_touch(rest, p)));
            assert(apply_writes(m1, rest, page_size)[p][i] == expected_byte(m1, rest, p, i));
            assert(out[p][i] == expected_byte(m1, rest, p, i));
            match last_write_val(rest, p, i) {
                Option::Some(v) => {
                    assert(last_write_val(ws, p, i) == Some(v));
                },
                Option::None => {
                    if w.page == p && w.off <= i < w.off + w.img.len() {
                        assert(m1[p] == overwrite(
                            if m.dom().contains(p) {
                                m[p]
                            } else {
                                zeros(page_size)
                            },
                            w.off as int,
                            w.img,
                        ));
                        assert(m1[p][i] == w.img[i - w.off]);
                        assert(last_write_val(ws, p, i) == Some(w.img[i - w.off]));
                    } else {
                        assert(last_write_val(ws, p, i) is None);
                        if m1.dom().contains(p) {
                            if p == w.page {
                                let base = if m.dom().contains(p) {
                                    m[p]
                                } else {
                                    zeros(page_size)
                                };
                                assert(m1[p][i] == base[i]);
                            } else {
                                assert(m1[p] == m[p]);
                            }
                        }
                    }
                },
            }
        }
    }
}

/// Replaying the same write sequence a second time changes nothing: every
/// byte a write covers is set to the same value again, and every other
/// byte keeps the value the first run left.
pub proof fn lemma_apply_writes_idempotent(m: Map<u64, Seq<u8>>, ws: Seq<PageWrite>, page_size: nat)
    requires
        pages_sized(m, page_size),
        writes_fit(ws, page_size),
    ensures
        apply_writes(apply_writes(m, ws, page_size), ws, page_size) == apply_writes(
            m,
            ws,
            page_size,
        ),
{
    let y = apply_writes(m, ws, page_size);
    let z = apply_writes(y, ws, page_size);
    lemma_apply_writes_pointwise(m, ws, page_size);
    lemma_apply_writes_pointwise(y, ws, page_size);
    assert forall|p: u64| z.dom().contains(p) <==> y.dom().contains(p) by {
        if writes_touch(ws, p) {
            assert(y.dom().contains(p));
        }
    }
    assert forall|p: u64| #[trigger] z.dom().contains(p) implies z[p] == y[p] by {
        assert forall|i: int| 0 <= i < page_size implies z[p][i] == y[p][i] by {
            assert(z[p][i] == expected_byte(y, ws, p, i));
            assert(y[p][i] == expected_byte(m, ws, p, i));
        }
        assert(z[p] =~= y[p]);
    }
    assert(z =~~= y);
}

/// Every write the redo and undo phases derive from internally consistent,
/// page-fitting update records fits the page size.
pub proof fn lemma_recovery_writes_fit(recs: Seq<LogRec>, page_size: nat)
    requires
        forall|k: int| 0 <= k < recs.len() ==> rec_wf(#[trigger] recs[k]),
        updates_fit(recs, page_size),
    ensures
        writes_fit(recovery_writes(recs), page_size),
{
    lemma_redo_from_fit(recs, 0, winner_txns(recs), page_size);
    lemma_undo_from_fit(recs, recs.len() as int, loser_txns(recs), page_size);
    let a = redo_writes(recs, winner_txns(recs));
    let b = undo_writes(recs, loser_txns(recs));
    assert forall|k: int| 0 <= k < (a + b).len() implies (#[trigger] (a + b)[k]).off + (a
        + b)[k].img.len() <= page_size by {
        if k < a.len() {
            assert((a + b)[k] == a[k]);
        } else {
            assert((a + b)[k] == b[k - a.len()]);
        }
    }
}

proof fn lemma_redo_from_fit(recs: Seq<LogRec>, i: int, winners: Set<u64>, page_size: nat)
    requires
        forall|k: int| 0 <= k < recs.len() ==> rec_wf(#[trigger] recs[k]),
        updates_fit(recs, page_size),
    ensures
        writes_fit(redo_from(recs, i, winners), page_size),
    decreases recs.len() - i,
{
    if 0 <= i < recs.len() {
        lemma_redo_from_fit(recs, i + 1, winners, page_size);
        let rest = redo_from(recs, i + 1, winners);
        if recs[i].rtype is UpdateRecord && winners.contains(recs[i].txn) {
            assert forall|k: int|
                0 <= k < redo_from(recs, i, winners).len() implies (#[trigger] redo_from(
                recs,
                i,
                winners,
            )[k]).off + redo_from(recs, i, winners)[k].img.len() <= page_size by {
                if k == 0 {
                    assert(redo_from(recs, i, winners)[0] == w_after(recs[i]));
                } else {
                    assert(redo_from(recs, i, winners)[k] == rest[k - 1]);
                }
            }
        }
    }
}

proof fn lemma_undo_from_fit(recs: Seq<LogRec>, i: int, losers: Set<u64>, page_size: nat)
    requires
        forall|k: int| 0 <= k < recs.len() ==> rec_wf(#[trigger] recs[k]),
        updates_fit(recs, page_size),
    ensures
        writes_fit(undo_from(recs, i, losers), page_size),
    decreases i,
{
    if 0 < i <= recs.len() {
        lemma_undo_from_fit(recs, i - 1, losers, page_size);
        let rest = undo_from(recs, i - 1, losers);
        if recs[i - 1].rtype is UpdateRecord && losers.contains(recs[i - 1].txn) {
            assert forall|k: int|
                0 <= k < undo_from(recs, i, losers).len() implies (#[trigger] undo_from(
                recs,
                i,
                losers,
            )[k]).off + undo_from(recs, i, losers)[k].img.len() <= page_size by {
                if k == 0 {
                    assert(undo_from(recs, i, losers)[0] == w_before(recs[i - 1]));
                } else {
                    assert(undo_from(recs, i, losers)[k] == rest[k - 1]);
                }
            }
        }
    }
}

/// Running ARIES recovery twice in a row over the same log leaves exactly
/// the state the first run produced.
pub proof fn lemma_recovery_idempotent(m: Map<u64, Seq<u8>>, recs: Seq<LogRec>, page_size: nat)
    requires
        pages_sized(m, page_size),
        forall|k: int| 0 <= k < recs.len() ==> rec_wf(#[trigger] recs[k]),
        updates_fit(recs, page_size),
    ensures
        recovery_map(recovery_map(m, recs, page_size), recs, page_size) == recovery_map(
            m,
            recs,
            page_size,
        ),
{
    lemma_recovery_writes_fit(recs, page_size);
    lemma_apply_writes_idempotent(m, recovery_writes(recs), page_size);
}

/// The after-image writes of a run of updates, in order.
pub open spec fn after_writes(us: Seq<LogRec>) -> Seq<PageWrite>
    decreases us.len(),
{
    if us.len() == 0 {
        Seq::<PageWrite>::empty()
    } else {
        seq![w_after(us[0])] + after_writes(us.drop_first())
    }
}

/// The before-image writes of a run of updates, in reverse order.
pub open spec fn before_writes_reversed(us: Seq<LogRec>) -> Seq<PageWrite>
    decreases us.len(),
{
    if us.len() == 0 {
        Seq::<PageWrite>::empty()
    } else {
        before_writes_reversed(us.drop_first()) + seq![w_before(us[0])]
    }
}

/// A faithfully journaled run of updates against `m`: each update is an
/// internally consistent update record whose page is resident with
/// `page_size` bytes, whose range fits the page, and whose before image is
/// exactly what its range held at the moment the update applied.
pub open spec fn updates_journaled(m: Map<u64, Seq<u8>>, us: Seq<LogRec>, page_size: nat) -> bool
    decreases us.len(),
{
    if us.len() == 0 {
        true
    } else {
        let u = us[0];
        &&& u.rtype is UpdateRecord
        &&& rec_wf(u)
        &&& m.dom().contains(u.page)
        &&& m[u.page].len() == page_size
        &&& u.off + u.len <= page_size
        &&& u.before == m[u.page].subrange(u.off as int, u.off + u.len)
        &&& updates_journaled(apply_write(m, w_after(u), page_size), us.drop_first(), page_size)
    }
}

/// Rollback undoes a journaled run exactly: applying every after image in
/// order and then every before image in reverse order returns the starting
/// pages, byte for byte. This is what abort-time rollback and the undo
/// phase rely on.
pub proof fn lemma_rollback_restores_pages(m: Map<u64, Seq<u8>>, us: Seq<LogRec>, page_size: nat)
    requires
        updates_journaled(m, us, page_size),
    ensures
        apply_writes(
            apply_writes(m, after_writes(us), page_size),
            before_writes_reversed(us),
            page_size,
        ) == m,
    decreases us.len(),
{
    if us.len() > 0 {
        let u = us[0];
        let wa = w_after(u);
        let wb = w_before(u);
        let m1 = apply_write(m, wa, page_size);
        lemma_rollback_restores_pages(m1, us.drop_first(), page_size);
        let rest_a = after_writes(us.drop_first());
        let rest_b = before_writes_reversed(us.drop_first());
        assert(after_writes(us)[0] == wa);
        assert(after_writes(us).drop_first() =~= rest_a);
        let fwd = apply_writes(m, after_writes(us), page_size);
        assert(fwd == apply_writes(m1, rest_a, page_size));
        assert(before_writes_reversed(us) =~= rest_b.push(wb));
        lemma_apply_writes_push(fwd, rest_b, wb, page_size);
        assert(apply_writes(fwd, rest_b, page_size) == m1);
        let base = m[u.page];
        assert(m1[u.page] == overwrite(base, u.off as int, u.after));
        let restored = overwrite(m1[u.page], u.off as int, u.before);
        assert(restored =~= base);
        assert(apply_write(m1, wb, page_size) == m1.insert(u.page, restored));
        assert(m1.insert(u.page, restored) =~~= m);
    }
}


/// `rollback_from` reads only records below its index, so any extension
/// of the log above that index leaves it unchanged.
proof fn lemma_rollback_from_prefix(a: Seq<LogRec>, b: Seq<LogRec>, i: int, txn: u64)
    requires
        i <= a.len(),
        i <= b.len(),
        forall|j: int| 0 <= j < i ==> a[j] == b[j],
    ensures
        rollback_from(a, i, txn) == rollback_from(b, i, txn),
    decreases i,
{
    if 0 < i {
        lemma_rollback_from_prefix(a, b, i - 1, txn);
    }
}

/// The before images of a run of updates, peeled from its tail.
proof fn lemma_before_writes_reversed_pop(us: Seq<LogRec>)
    requires
        us.len() > 0,
    ensures
        before_writes_reversed(us) == seq![w_before(us.last())] + before_writes_reversed(
            us.drop_last(),
        ),
    decreases us.len(),
{
    if us.len() == 1 {
        assert(us.drop_first() =~= Seq::<LogRec>::empty());
        assert(us.drop_last() =~= Seq::<LogRec>::empty());
        assert(before_writes_reversed(us) =~= seq![w_before(us.last())]
            + before_writes_reversed(us.drop_last()));
    } else {
        lemma_before_writes_reversed_pop(us.drop_first());
        assert(us.drop_first().last() == us.last());
        assert(us.drop_first().drop_last() =~= us.drop_last().drop_first());
        assert(us.drop_last()[0] == us[0]);
        assert(before_writes_reversed(us.drop_last()) == before_writes_reversed(
            us.drop_last().drop_first(),
        ) + seq![w_before(us.drop_last()[0])]);
        assert(before_writes_reversed(us) =~= seq![w_before(us.last())]
            + before_writes_reversed(us.drop_last()));
    }
}

/// Over a log that holds a transaction's `Begin` followed by its updates,
/// rollback derives exactly the before images of those updates in reverse
/// order: the reverse scan stops at the `Begin`.
pub proof fn lemma_rollback_writes_of_txn_run(prefix: Seq<LogRec>, us: Seq<LogRec>, txn: u64)
    requires
        forall|i: int|
            0 <= i < us.len() ==> (#[trigger] us[i]).rtype is UpdateRecord && us[i].txn == txn,
    ensures
        rollback_writes(
            prefix.push(marker_rec(LogRecordType::BeginRecord, txn)) + us,
            txn,
        ) == before_writes_reversed(us),
    decreases us.len(),
{
    let recs = prefix.push(marker_rec(LogRecordType::BeginRecord, txn)) + us;
    if us.len() == 0 {
        assert(recs =~= prefix.push(marker_rec(LogRecordType::BeginRecord, txn)));
        assert(recs[recs.len() - 1] == marker_rec(LogRecordType::BeginRecord, txn));
        assert(rollback_from(recs, recs.len() as int, txn) =~= Seq::<PageWrite>::empty());
        assert(before_writes_reversed(us) =~= Seq::<PageWrite>::empty());
    } else {
        let shorter = prefix.push(marker_rec(LogRecordType::BeginRecord, txn)) + us.drop_last();
        assert(recs[recs.len() - 1] == us.last());
        assert(rollback_from(recs, recs.len() as int, txn) == seq![w_before(us.last())]
            + rollback_from(recs, recs.len() - 1, txn));
        assert(forall|j: int| 0 <= j < shorter.len() ==> recs[j] == shorter[j]);
        lemma_rollback_from_prefix(recs, shorter, shorter.len() as int, txn);
        lemma_rollback_writes_of_txn_run(prefix, us.drop_last(), txn);
        lemma_before_writes_reversed_pop(us);
    }
}

/// Abort round trip: a faithfully journaled run of one transaction's
/// updates, applied to the pages and then rolled back from a log holding
/// its `Begin` followed by those updates, returns every page to its
/// starting bytes.
pub proof fn lemma_abort_round_trip(
    m: Map<u64, Seq<u8>>,
    prefix: Seq<LogRec>,
    us: Seq<LogRec>,
    txn: u64,
    page_size: nat,
)
    requires
        updates_journaled(m, us, page_size),
        forall|i: int|
            0 <= i < us.len() ==> (#[trigger] us[i]).rtype is UpdateRecord && us[i].txn == txn,
    ensures
        apply_writes(
            apply_writes(m, after_writes(us), page_size),
            rollback_writes(prefix.push(marker_rec(LogRecordType::BeginRecord, txn)) + us, txn),
            page_size,
        ) == m,
{
    lemma_rollback_writes_of_txn_run(prefix, us, txn);
    lemma_rollback_restores_pages(m, us, page_size);
}

} // verus!
