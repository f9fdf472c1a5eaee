//! Transaction lifecycle and page-level write locking: `start_txn` hands
//! out fresh ids and logs `Begin`, `commit_txn` flushes a transaction's
//! pages before logging `Commit`, `abort_txn` discards its pages and logs
//! `Abort`, which rolls its updates back from the log.

use vstd::prelude::*;
use vstd::std_specs::vec::vec_index_mut;

use crate::buffer_manager::{frame_with_dirty, BufferManager};
use crate::common::{BuzzDBError, PageID, TransactionID};
use crate::db_files::u64_to_dec_string;
use crate::log_manager::{
    marker_rec, rollback_writes, LogManager, LogRecordType,
};

verus! {

/// Whether a vector holds no page id twice.
pub open spec fn pages_distinct(v: Seq<PageID>) -> bool {
    forall|i: int, j: int| 0 <= i < j < v.len() ==> v[i] != v[j]
}

/// The set of page ids a vector holds.
pub open spec fn page_id_set(v: Seq<PageID>) -> Set<u64> {
    Set::new(|p: u64| v.contains(PageID(p)))
}

/// Whether the vector holds `p`.
fn page_vec_contains(v: &Vec<PageID>, p: PageID) -> (r: bool)
    ensures
        r == v@.contains(p),
{
    let n = v.len();
    let mut i: usize = 0;
    while i < n
        invariant
            i <= n,
            n == v@.len(),
            forall|j: int| 0 <= j < i ==> v@[j] != p,
        decreases n - i,
    {
        if v[i] == p {
            return true;
        }
        i = i + 1;
    }
    false
}

/// Adds `p` unless it is already present.
fn page_vec_insert(v: &mut Vec<PageID>, p: PageID)
    requires
        pages_distinct(old(v)@),
    ensures
        pages_distinct(final(v)@),
        forall|x: PageID| final(v)@.contains(x) <==> (old(v)@.contains(x) || x == p),
{
    if !page_vec_contains(v, p) {
        v.push(p);
        proof {
            assert forall|x: PageID| v@.contains(x) implies (old(v)@.contains(x) || x == p) by {
                let k = choose|k: int| 0 <= k < v@.len() && v@[k] == x;
                if k < v@.len() - 1 {
                    assert(old(v)@[k] == x);
                }
            }
            assert forall|x: PageID| (old(v)@.contains(x) || x == p) implies v@.contains(x) by {
                if old(v)@.contains(x) {
                    let k = choose|k: int| 0 <= k < old(v)@.len() && old(v)@[k] == x;
                    assert(v@[k] == x);
                } else {
                    assert(v@[v@.len() - 1] == x);
                }
            }
        }
    }
}

/// Removes `p` if present.
fn page_vec_remove(v: &mut Vec<PageID>, p: PageID)
    requires
        pages_distinct(old(v)@),
    ensures
        pages_distinct(final(v)@),
        forall|x: PageID| final(v)@.contains(x) <==> (old(v)@.contains(x) && x != p),
{
    let n = v.len();
    let mut i: usize = 0;
    while i < n
        invariant
            i <= n,
            n == v@.len(),
            *v == *old(v),
            pages_distinct(v@),
            forall|j: int| 0 <= j < i ==> v@[j] != p,
        decreases n - i,
    {
        if v[i] == p {
            v.remove(i);
            proof {
                assert forall|x: PageID| v@.contains(x) implies (old(v)@.contains(x) && x
                    != p) by {
                    let k = choose|k: int| 0 <= k < v@.len() && v@[k] == x;
                    if k < i {
                        assert(old(v)@[k] == x);
                    } else {
                        assert(old(v)@[k + 1] == x);
                    }
                }
                assert forall|x: PageID| (old(v)@.contains(x) && x != p) implies v@.contains(
                    x,
                ) by {
                    let k = choose|k: int| 0 <= k < old(v)@.len() && old(v)@[k] == x;
                    if k < i {
                        assert(v@[k] == x);
                    } else {
                        assert(k != i);
                        assert(v@[k - 1] == x);
                    }
                }
                assert forall|a: int, b: int| 0 <= a < b < v@.len() implies v@[a] != v@[b] by {
                    let a0: int = if a < i {
                        a
                    } else {
                        a + 1
                    };
                    let b0: int = if b < i {
                        b
                    } else {
                        b + 1
                    };
                    assert(v@[a] == old(v)@[a0]);
                    assert(v@[b] == old(v)@[b0]);
                }
            }
            return ;
        }
        i = i + 1;
    }
    proof {
        assert forall|x: PageID| v@.contains(x) implies x != p by {
            let k = choose|k: int| 0 <= k < v@.len() && v@[k] == x;
        }
    }
}

/// One live transaction: its id, the pages it wrote, and the pages it
/// holds write locks on.
#[derive(Debug)]
pub struct Transaction {
    pub id: TransactionID,
    pub started: bool,
    pub modified_pages: Vec<PageID>,
    pub locked_pages: Vec<PageID>,
}

impl Transaction {
    /// Internal consistency: neither page list repeats a page.
    pub open spec fn wf(&self) -> bool {
        pages_distinct(self.modified_pages@) && pages_distinct(self.locked_pages@)
    }

    /// A fresh, started transaction with no pages yet.
    pub fn new(id: TransactionID) -> (t: Self)
        ensures
            t.wf(),
            t.id == id,
            t.started,
            t.modified_pages@.len() == 0,
            t.locked_pages@.len() == 0,
    {
        Self { id, started: true, modified_pages: Vec::new(), locked_pages: Vec::new() }
    }

    /// Records `page_id` among the pages this transaction wrote.
    pub fn add_modified_page(&mut self, page_id: PageID)
        requires
            old(self).wf(),
        ensures
            final(self).wf(),
            final(self).id == old(self).id,
            final(self).started == old(self).started,
            final(self).locked_pages == old(self).locked_pages,
            forall|x: PageID|
                final(self).modified_pages@.contains(x) <==> (old(self).modified_pages@.contains(x) || x == page_id),
    {
        page_vec_insert(&mut self.modified_pages, page_id);
    }

    /// Records `page_id` among the pages this transaction holds locked.
    pub fn add_locked_page(&mut self, page_id: PageID)
        requires
            old(self).wf(),
        ensures
            final(self).wf(),
            final(self).id == old(self).id,
            final(self).started == old(self).started,
            final(self).modified_pages == old(self).modified_pages,
            forall|x: PageID|
                final(self).locked_pages@.contains(x) <==> (old(self).locked_pages@.contains(x)
                    || x == page_id),
    {
        page_vec_insert(&mut self.locked_pages, page_id);
    }

    /// Forgets `page_id` among the pages this transaction holds locked.
    pub fn remove_locked_page(&mut self, page_id: PageID)
        requires
            old(self).wf(),
        ensures
            final(self).wf(),
            final(self).id == old(self).id,
            final(self).started == old(self).started,
            final(self).modified_pages == old(self).modified_pages,
            forall|x: PageID|
                final(self).locked_pages@.contains(x) <==> (old(self).locked_pages@.contains(x)
                    && x != page_id),
    {
        page_vec_remove(&mut self.locked_pages, page_id);
    }
}

/// The `Other` message naming a transaction that is not active.
fn txn_not_found_error(txn_id: TransactionID) -> (e: BuzzDBError)
    ensures
        e matches BuzzDBError::Other(_),
{
    let mut msg = String::from_str("Transaction ");
    let digits = u64_to_dec_string(txn_id.0);
    msg.append(digits.as_str());
    msg.append(" not found");
    BuzzDBError::Other(msg)
}

/// Whether the lock table holds the entry `page -> txn`.
pub open spec fn locks_contain(s: Seq<(PageID, TransactionID)>, page_id: PageID, txn_id: TransactionID) -> bool {
    exists|i: int| 0 <= i < s.len() && #[trigger] s[i] == (page_id, txn_id)
}

/// The transaction lifecycle coordinator: it owns the next-id counter, the
/// active-transaction table and the page-lock table, and drives the log
/// manager and the buffer pool it owns.
pub struct TransactionManager {
    pub next_txn_id: u64,
    pub active_transactions: Vec<Transaction>,
    pub page_locks: Vec<(PageID, TransactionID)>,
    pub log_manager: LogManager,
    pub buffer_manager: BufferManager,
    pub committed_count: Ghost<nat>,
    pub aborted_count: Ghost<nat>,
}

impl TransactionManager {
    /// Whether `txn_id` is active.
    pub open spec fn is_active(&self, txn_id: TransactionID) -> bool {
        exists|i: int|
            0 <= i < self.active_transactions@.len() && (
            #[trigger] self.active_transactions@[i]).id == txn_id
    }

    /// Well-formedness: the owned log and buffer are well-formed, active
    /// transactions carry distinct ids below the next-id counter, no page
    /// is locked twice, and the transactions ever begun are exactly the
    /// active ones plus those ever committed plus those ever aborted.
    pub open spec fn wf(&self) -> bool {
        &&& self.log_manager.wf()
        &&& self.buffer_manager.wf()
        &&& forall|i: int|
            0 <= i < self.active_transactions@.len() ==> (
            #[trigger] self.active_transactions@[i]).wf()
        &&& forall|i: int, j: int|
            0 <= i < j < self.active_transactions@.len() ==> self.active_transactions@[i].id
                != self.active_transactions@[j].id
        &&& forall|i: int|
            0 <= i < self.active_transactions@.len() ==> (
            #[trigger] self.active_transactions@[i]).id.0 < self.next_txn_id
        &&& forall|i: int, j: int|
            0 <= i < j < self.page_locks@.len() ==> self.page_locks@[i].0
                != self.page_locks@[j].0
        &&& self.active_transactions@.len() + self.committed_count@ + self.aborted_count@
            == self.next_txn_id
    }

    /// A manager over an owned log manager and buffer pool, with no
    /// transaction yet.
    pub fn new(log_manager: LogManager, buffer_manager: BufferManager) -> (tm: Self)
        requires
            log_manager.wf(),
            buffer_manager.wf(),
        ensures
            tm.wf(),
            tm.next_txn_id == 0,
            tm.active_transactions@.len() == 0,
            tm.page_locks@.len() == 0,
            tm.log_manager == log_manager,
            tm.buffer_manager == buffer_manager,
            tm.committed_count@ == 0,
            tm.aborted_count@ == 0,
    {
        Self {
            next_txn_id: 0,
            active_transactions: Vec::new(),
            page_locks: Vec::new(),
            log_manager,
            buffer_manager,
            committed_count: Ghost(0nat),
            aborted_count: Ghost(0nat),
        }
    }

    /// The index of the active transaction `txn_id`, if any.
    fn find_txn(&self, txn_id: TransactionID) -> (r: Option<usize>)
        ensures
            r matches Some(i) ==> 0 <= i < self.active_transactions@.len()
                && self.active_transactions@[i as int].id == txn_id,
            r is None ==> !self.is_active(txn_id),
    {
        let n = self.active_transactions.len();
        let mut i: usize = 0;
        while i < n
            invariant
                i <= n,
                n == self.active_transactions@.len(),
                forall|j: int|
                    0 <= j < i ==> (#[trigger] self.active_transactions@[j]).id != txn_id,
            decreases n - i,
        {
            if self.active_transactions[i].id == txn_id {
                return Some(i);
            }
            i = i + 1;
        }
        None
    }

    /// Assigns the next transaction id, registers the transaction, and
    /// logs its `Begin` record.
    pub fn start_txn(&mut self) -> (r: Result<TransactionID, BuzzDBError>)
        requires
            old(self).wf(),
            old(self).next_txn_id < u64::MAX,
            old(self).log_manager.current_offset + 9 <= usize::MAX,
        ensures
            final(self).wf(),
            r matches Ok(t) && t == TransactionID(old(self).next_txn_id),
            final(self).next_txn_id == old(self).next_txn_id + 1,
            final(self).active_transactions@.len() == old(self).active_transactions@.len() + 1,
            final(self).active_transactions@.drop_last() == old(self).active_transactions@,
            final(self).active_transactions@.last().id == TransactionID(old(self).next_txn_id),
            final(self).active_transactions@.last().modified_pages@.len() == 0,
            final(self).active_transactions@.last().locked_pages@.len() == 0,
            final(self).page_locks == old(self).page_locks,
            final(self).buffer_manager == old(self).buffer_manager,
            final(self).log_manager.log_recs() == old(self).log_manager.log_recs().push(
                marker_rec(LogRecordType::BeginRecord, old(self).next_txn_id),
            ),
            final(self).log_manager.begin_count == old(self).log_manager.begin_count + 1,
            final(self).log_manager.current_offset == old(self).log_manager.current_offset + 9,
            final(self).committed_count == old(self).committed_count,
            final(self).aborted_count == old(self).aborted_count,
    {
        let txn_id = TransactionID(self.next_txn_id);
        self.next_txn_id = self.next_txn_id + 1;

        let txn = Transaction::new(txn_id);
        self.active_transactions.push(txn);

        match self.log_manager.log_txn_begin(txn_id) {
            Ok(u) => {},
            Err(e) => {
                assert(false);
                return Err(e);
            },
        }
        Ok(txn_id)
    }

    /// Clears the dirty flag of every frame whose page is listed.
    fn flush_modified(buffer_manager: &mut BufferManager, pages: &Vec<PageID>)
        requires
            old(buffer_manager).wf(),
        ensures
            final(buffer_manager).wf(),
            final(buffer_manager).page_size == old(buffer_manager).page_size,
            final(buffer_manager).capacity == old(buffer_manager).capacity,
            final(buffer_manager).frames@.len() == old(buffer_manager).frames@.len(),
            forall|k: int|
                0 <= k < old(buffer_manager).frames@.len() ==> final(buffer_manager).frames@[k]
                    == (if pages@.contains(old(buffer_manager).frames@[k].page_id) {
                    frame_with_dirty(old(buffer_manager).frames@[k], false)
                } else {
                    old(buffer_manager).frames@[k]
                }),
    {
        let n = pages.len();
        let mut i: usize = 0;
        while i < n
            invariant
                i <= n,
                n == pages@.len(),
                old(buffer_manager).wf(),
                buffer_manager.wf(),
                buffer_manager.page_size == old(buffer_manager).page_size,
                buffer_manager.capacity == old(buffer_manager).capacity,
                buffer_manager.frames@.len() == old(buffer_manager).frames@.len(),
                forall|k: int|
                    0 <= k < old(buffer_manager).frames@.len() ==> buffer_manager.frames@[k] == (
                    if pages@.take(i as int).contains(old(buffer_manager).frames@[k].page_id) {
                        frame_with_dirty(old(buffer_manager).frames@[k], false)
                    } else {
                        old(buffer_manager).frames@[k]
                    }),
            decreases n - i,
        {
            let page_id = pages[i];
            let ghost pre = buffer_manager.frames@;
            match buffer_manager.flush_page(page_id) {
                Ok(u) => {},
                Err(e) => {
                    assert(false);
                },
            }
            proof {
                assert(pages@.take(i + 1).drop_last() =~= pages@.take(i as int));
                assert(pages@.take(i + 1)[i as int] == page_id);
                assert forall|k: int|
                    0 <= k < old(buffer_manager).frames@.len() implies buffer_manager.frames@[k]
                    == (if pages@.take(i + 1).contains(old(buffer_manager).frames@[k].page_id) {
                    frame_with_dirty(old(buffer_manager).frames@[k], false)
                } else {
                    old(buffer_manager).frames@[k]
                }) by {
                    let opid = old(buffer_manager).frames@[k].page_id;
                    assert(pre[k].page_id == opid);
                    if exists|fi: int|
                        0 <= fi < pre.len() && (#[trigger] pre[fi]).page_id == page_id {
                        let fi = choose|fi: int|
                            {
                                &&& 0 <= fi < pre.len()
                                &&& (#[trigger] pre[fi]).page_id == page_id
                                &&& buffer_manager.frames@ == pre.update(
                                    fi,
                                    frame_with_dirty(pre[fi], false),
                                )
                            };
                        if opid == page_id {
                            assert(fi == k);
                            assert(buffer_manager.frames@[k] == frame_with_dirty(pre[k], false));
                            assert(pages@.take(i + 1).contains(opid));
                        } else {
                            assert(fi != k);
                            assert(buffer_manager.frames@[k] == pre[k]);
                            if pages@.take(i + 1).contains(opid) {
                                let c = choose|c: int|
                                    0 <= c < i + 1 && #[trigger] pages@.take(i + 1)[c] == opid;
                                assert(c < i);
                                assert(pages@.take(i as int)[c] == opid);
                                assert(pages@.take(i as int).contains(opid));
                            } else {
                                if pages@.take(i as int).contains(opid) {
                                    let c = choose|c: int|
                                        0 <= c < i && #[trigger] pages@.take(i as int)[c]
                                            == opid;
                                    assert(pages@.take(i + 1)[c] == opid);
                                }
                            }
                        }
                    } else {
                        assert(!buffer_manager.has_page(page_id) || buffer_manager.frames@
                            == pre);
                        assert(buffer_manager.frames@ == pre);
                        assert(opid != page_id);
                        if pages@.take(i + 1).contains(opid) {
                            let c = choose|c: int|
                                0 <= c < i + 1 && #[trigger] pages@.take(i + 1)[c] == opid;
                            assert(c < i);
                            assert(pages@.take(i as int)[c] == opid);
                        } else {
                            if pages@.take(i as int).contains(opid) {
                                let c = choose|c: int|
                                    0 <= c < i && #[trigger] pages@.take(i as int)[c] == opid;
                                assert(pages@.take(i + 1)[c] == opid);
                            }
                        }
                    }
                }
            }
            i = i + 1;
        }
        proof {
            assert(pages@.take(n as int) =~= pages@);
        }
    }

    /// Removes every lock entry held by `txn_id`.
    fn release_locks(&mut self, txn_id: TransactionID)
        requires
            forall|i: int, j: int|
                0 <= i < j < old(self).page_locks@.len() ==> old(self).page_locks@[i].0 != old(self).page_locks@[j].0,
        ensures
            forall|i: int, j: int|
                0 <= i < j < final(self).page_locks@.len() ==> final(self).page_locks@[i].0
                    != final(self).page_locks@[j].0,
            forall|p: PageID, t: TransactionID|
                locks_contain(final(self).page_locks@, p, t) <==> (locks_contain(
                    old(self).page_locks@,
                    p,
                    t,
                ) && t != txn_id),
            final(self).next_txn_id == old(self).next_txn_id,
            final(self).active_transactions == old(self).active_transactions,
            final(self).log_manager == old(self).log_manager,
            final(self).buffer_manager == old(self).buffer_manager,
            final(self).committed_count == old(self).committed_count,
            final(self).aborted_count == old(self).aborted_count,
    {
        let mut i: usize = 0;
        let ghost mut seen: Seq<(PageID, TransactionID)> = Seq::empty();
        proof {
            assert(seen =~= old(self).page_locks@.take(0).filter(
                |e: (PageID, TransactionID)| e.1 != txn_id,
            ));
        }
        let ghost n = old(self).page_locks@.len() as int;
        let ghost mut j: int = 0;
        while i < self.page_locks.len()
            invariant
                0 <= j <= n,
                n == old(self).page_locks@.len(),
                i as int == old(self).page_locks@.take(j).filter(
                    |e: (PageID, TransactionID)| e.1 != txn_id,
                ).len(),
                self.page_locks@ == old(self).page_locks@.take(j).filter(
                    |e: (PageID, TransactionID)| e.1 != txn_id,
                ) + old(self).page_locks@.skip(j),
                self.next_txn_id == old(self).next_txn_id,
                self.active_transactions == old(self).active_transactions,
                self.log_manager == old(self).log_manager,
                self.buffer_manager == old(self).buffer_manager,
                self.committed_count == old(self).committed_count,
                self.aborted_count == old(self).aborted_count,
            decreases n - j,
        {
            let ghost pred = |e: (PageID, TransactionID)| e.1 != txn_id;
            proof {
                reveal_with_fuel(Seq::<_>::filter, 2);
                old(self).page_locks@.take(j).lemma_filter_len(pred);
                assert(j < n);
                assert(old(self).page_locks@.take(j + 1).drop_last() =~= old(self).page_locks@.take(j));
                assert(old(self).page_locks@.take(j + 1).last() == old(self).page_locks@[j]);
                assert(self.page_locks@[i as int] == old(self).page_locks@[j]);
            }
            if self.page_locks[i].1 == txn_id {
                self.page_locks.remove(i);
                proof {
                    assert(old(self).page_locks@.take(j + 1).filter(pred) == old(self).page_locks@.take(j).filter(pred));
                    assert(self.page_locks@ =~= old(self).page_locks@.take(j + 1).filter(pred)
                        + old(self).page_locks@.skip(j + 1));
                    j = j + 1;
                }
            } else {
                i = i + 1;
                proof {
                    assert(old(self).page_locks@.take(j + 1).filter(pred) =~= old(self).page_locks@.take(j).filter(pred).push(old(self).page_locks@[j]));
                    assert(self.page_locks@ =~= old(self).page_locks@.take(j + 1).filter(pred)
                        + old(self).page_locks@.skip(j + 1));
                    j = j + 1;
                }
            }
        }
        proof {
            let pred = |e: (PageID, TransactionID)| e.1 != txn_id;
            old(self).page_locks@.take(j).lemma_filter_len(pred);
            assert(j == n);
            assert(old(self).page_locks@.take(n) =~= old(self).page_locks@);
            let out = old(self).page_locks@.filter(pred);
            assert(self.page_locks@ =~= out);
            old(self).page_locks@.filter_lemma(pred);
            assert forall|p: PageID, t: TransactionID|
                locks_contain(self.page_locks@, p, t) implies (locks_contain(
                old(self).page_locks@,
                p,
                t,
            ) && t != txn_id) by {
                let k = choose|k: int| 0 <= k < out.len() && #[trigger] out[k] == (p, t);
                assert(pred(out[k]));
                assert(out.contains(out[k]));
                crate::transaction::lemma_filter_element_of(old(self).page_locks@, pred, k);
            }
            assert forall|p: PageID, t: TransactionID|
                (locks_contain(old(self).page_locks@, p, t) && t != txn_id) implies locks_contain(
                self.page_locks@,
                p,
                t,
            ) by {
                let k = choose|k: int|
                    0 <= k < old(self).page_locks@.len() && #[trigger] old(self).page_locks@[k]
                        == (p, t);
                assert(pred(old(self).page_locks@[k]));
                assert(out.contains(old(self).page_locks@[k]));
                let c = choose|c: int|
                    0 <= c < out.len() && out[c] == old(self).page_locks@[k];
                assert(out[c] == (p, t));
            }
            assert forall|a: int, b: int|
                0 <= a < b < self.page_locks@.len() implies self.page_locks@[a].0
                != self.page_locks@[b].0 by {
                lemma_filter_pair_of(old(self).page_locks@, pred, a, b);
            }
        }
    }
}

/// Every element of a filtered lock table is an element of the original.
proof fn lemma_filter_element_of(s: Seq<(PageID, TransactionID)>, pred: spec_fn((PageID, TransactionID)) -> bool, k: int)
    requires
        0 <= k < s.filter(pred).len(),
    ensures
        exists|l: int| 0 <= l < s.len() && #[trigger] s[l] == s.filter(pred)[k],
    decreases s.len(),
{
    reveal_with_fuel(Seq::<_>::filter, 2);
    if s.len() > 0 {
        let dl = s.drop_last();
        if k < dl.filter(pred).len() {
            lemma_filter_element_of(dl, pred, k);
            let l = choose|l: int| 0 <= l < dl.len() && #[trigger] dl[l] == dl.filter(pred)[k];
            assert(s[l] == s.filter(pred)[k]);
        } else {
            assert(s[s.len() - 1] == s.filter(pred)[k]);
        }
    }
}

/// Two distinct positions of a filtered lock table come from two distinct
/// positions of the original, in order.
proof fn lemma_filter_pair_of(s: Seq<(PageID, TransactionID)>, pred: spec_fn((PageID, TransactionID)) -> bool, a: int, b: int)
    requires
        0 <= a < b < s.filter(pred).len(),
        forall|i: int, j: int| 0 <= i < j < s.len() ==> s[i].0 != s[j].0,
    ensures
        s.filter(pred)[a].0 != s.filter(pred)[b].0,
    decreases s.len(),
{
    reveal_with_fuel(Seq::<_>::filter, 2);
    if s.len() > 0 {
        let dl = s.drop_last();
        let out = s.filter(pred);
        let sub = dl.filter(pred);
        if b < sub.len() {
            lemma_filter_pair_of(dl, pred, a, b);
            assert(out[a] == sub[a] && out[b] == sub[b]);
        } else {
            assert(out[b] == s[s.len() - 1]);
            lemma_filter_element_of(dl, pred, a);
            let l = choose|l: int| 0 <= l < dl.len() && #[trigger] dl[l] == sub[a];
            assert(s[l] == out[a]);
        }
    }
}


impl TransactionManager {
    /// Removes the frame of every listed page from the buffer pool.
    fn discard_modified(buffer_manager: &mut BufferManager, pages: &Vec<PageID>)
        requires
            old(buffer_manager).wf(),
            old(buffer_manager).all_unpinned(),
        ensures
            final(buffer_manager).wf(),
            final(buffer_manager).all_unpinned(),
            final(buffer_manager).page_size == old(buffer_manager).page_size,
            final(buffer_manager).capacity == old(buffer_manager).capacity,
            final(buffer_manager).frames@.len() <= old(buffer_manager).frames@.len(),
            final(buffer_manager).pages_map() == old(buffer_manager).pages_map().remove_keys(
                page_id_set(pages@),
            ),
    {
        let ghost m0 = old(buffer_manager).pages_map();
        let n = pages.len();
        let mut i: usize = 0;
        proof {
            assert(m0.remove_keys(page_id_set(pages@.take(0))) =~~= m0);
        }
        while i < n
            invariant
                i <= n,
                n == pages@.len(),
                buffer_manager.wf(),
                buffer_manager.all_unpinned(),
                buffer_manager.page_size == old(buffer_manager).page_size,
                buffer_manager.capacity == old(buffer_manager).capacity,
                buffer_manager.frames@.len() <= old(buffer_manager).frames@.len(),
                m0 == old(buffer_manager).pages_map(),
                buffer_manager.pages_map() == m0.remove_keys(page_id_set(pages@.take(i as int))),
            decreases n - i,
        {
            let page_id = pages[i];
            let ghost pre_bm = *buffer_manager;
            match buffer_manager.discard_page(page_id) {
                Ok(u) => {},
                Err(e) => {
                    assert(false);
                },
            }
            proof {
                if pre_bm.has_page(page_id) {
                    let k = choose|k: int|
                        {
                            &&& 0 <= k < pre_bm.frames@.len()
                            &&& (#[trigger] pre_bm.frames@[k]).page_id == page_id
                            &&& (if pre_bm.frames@[k].pin_count > 0 {
                                buffer_manager.frames@ == pre_bm.frames@
                            } else {
                                buffer_manager.frames@ == pre_bm.frames@.remove(k)
                            })
                        };
                    crate::buffer_manager::lemma_pages_map_after_remove(
                        &pre_bm,
                        buffer_manager,
                        k,
                    );
                    assert(buffer_manager.pages_map() == pre_bm.pages_map().remove(page_id.0));
                } else {
                    assert(!pre_bm.pages_map().dom().contains(page_id.0));
                    assert(buffer_manager.pages_map() =~~= pre_bm.pages_map().remove(page_id.0));
                }
                assert(pages@.take(i + 1).drop_last() =~= pages@.take(i as int));
                assert(pages@.take(i + 1)[i as int] == page_id);
                assert(page_id_set(pages@.take(i + 1)) =~= page_id_set(
                    pages@.take(i as int),
                ).insert(page_id.0)) by {
                    assert forall|p: u64|
                        page_id_set(pages@.take(i + 1)).contains(p) <==> page_id_set(
                        pages@.take(i as int),
                    ).insert(page_id.0).contains(p) by {
                        if pages@.take(i + 1).contains(PageID(p)) {
                            let c = choose|c: int|
                                0 <= c < i + 1 && #[trigger] pages@.take(i + 1)[c] == PageID(p);
                            if c < i {
                                assert(pages@.take(i as int)[c] == PageID(p));
                            }
                        }
                        if pages@.take(i as int).contains(PageID(p)) {
                            let c = choose|c: int|
                                0 <= c < i && #[trigger] pages@.take(i as int)[c] == PageID(p);
                            assert(pages@.take(i + 1)[c] == PageID(p));
                        }
                        if p == page_id.0 {
                            assert(pages@.take(i + 1)[i as int] == PageID(p));
                        }
                    }
                }
                assert(buffer_manager.pages_map() =~~= m0.remove_keys(
                    page_id_set(pages@.take(i + 1)),
                ));
            }
            i = i + 1;
        }
        proof {
            assert(pages@.take(n as int) =~= pages@);
        }
    }

    /// Commits `txn_id`: flushes every page it modified, releases every
    /// lock it holds, and logs its `Commit` record; fails with `Other`,
    /// changing nothing, when the transaction is not active.
    pub fn commit_txn(&mut self, txn_id: TransactionID) -> (r: Result<(), BuzzDBError>)
        requires
            old(self).wf(),
            old(self).log_manager.current_offset + 9 <= usize::MAX,
        ensures
            final(self).wf(),
            final(self).next_txn_id == old(self).next_txn_id,
            !old(self).is_active(txn_id) ==> {
                &&& (r matches Err(e) && e matches BuzzDBError::Other(_))
                &&& *final(self) == *old(self)
            },
            old(self).is_active(txn_id) ==> {
                &&& r is Ok
                &&& !final(self).is_active(txn_id)
                &&& final(self).active_transactions@.len() == old(self).active_transactions@.len() - 1
                &&& final(self).committed_count@ == old(self).committed_count@ + 1
                &&& final(self).aborted_count == old(self).aborted_count
                &&& forall|p: PageID, t: TransactionID|
                    locks_contain(final(self).page_locks@, p, t) <==> (locks_contain(
                        old(self).page_locks@,
                        p,
                        t,
                    ) && t != txn_id)
                &&& final(self).log_manager.log_recs() == old(self).log_manager.log_recs().push(
                    marker_rec(LogRecordType::CommitRecord, txn_id.0),
                )
                &&& final(self).log_manager.commit_count == old(self).log_manager.commit_count
                    + 1
                &&& final(self).log_manager.current_offset == old(self).log_manager.current_offset
                    + 9
                &&& !final(self).log_manager.tracks_txn(txn_id)
                &&& exists|k: int|
                    {
                        &&& 0 <= k < old(self).active_transactions@.len()
                        &&& (#[trigger] old(self).active_transactions@[k]).id == txn_id
                        &&& final(self).buffer_manager.frames@.len() == old(self).buffer_manager.frames@.len()
                        &&& forall|f: int|
                            0 <= f < old(self).buffer_manager.frames@.len() ==> final(self).buffer_manager.frames@[f] == (if old(self).active_transactions@[k].modified_pages@.contains(
                                old(self).buffer_manager.frames@[f].page_id,
                            ) {
                                crate::buffer_manager::frame_with_dirty(
                                    old(self).buffer_manager.frames@[f],
                                    false,
                                )
                            } else {
                                old(self).buffer_manager.frames@[f]
                            })
                    }
            },
    {
        let found = self.find_txn(txn_id);
        match found {
            None => Err(txn_not_found_error(txn_id)),
            Some(idx) => {
                let txn = self.active_transactions.remove(idx);
                proof {
                    assert(old(self).active_transactions@[idx as int].id == txn_id);
                    assert forall|a: int, b: int|
                        0 <= a < b < self.active_transactions@.len() implies (
                    #[trigger] self.active_transactions@[a]).id != (
                    #[trigger] self.active_transactions@[b]).id by {
                        let a0: int = if a < idx {
                            a
                        } else {
                            a + 1
                        };
                        let b0: int = if b < idx {
                            b
                        } else {
                            b + 1
                        };
                        assert(self.active_transactions@[a] == old(self).active_transactions@[a0]);
                        assert(self.active_transactions@[b] == old(self).active_transactions@[b0]);
                    }
                    assert forall|k: int|
                        0 <= k < self.active_transactions@.len() implies (
                    #[trigger] self.active_transactions@[k]).id != txn_id by {
                        if k < idx {
                            assert(self.active_transactions@[k] == old(self).active_transactions@[k]);
                            assert(old(self).active_transactions@[k].id != old(self).active_transactions@[idx as int].id);
                        } else {
                            assert(self.active_transactions@[k] == old(self).active_transactions@[k + 1]);
                            assert(old(self).active_transactions@[k + 1].id != old(self).active_transactions@[idx as int].id);
                        }
                    }
                }
                Self::flush_modified(&mut self.buffer_manager, &txn.modified_pages);
                self.release_locks(txn_id);
                match self.log_manager.log_commit(txn_id) {
                    Ok(u) => {},
                    Err(e) => {
                        assert(false);
                        return Err(e);
                    },
                }
                proof {
                    self.committed_count = Ghost((old(self).committed_count@ + 1) as nat);
                }
                Ok(())
            },
        }
    }

    /// Aborts `txn_id`: discards every page it modified from the buffer
    /// pool, releases every lock it holds, and logs its `Abort` record,
    /// which rolls its updates back from the log; fails with `Other`,
    /// changing nothing, when the transaction is not active.
    pub fn abort_txn(&mut self, txn_id: TransactionID) -> (r: Result<(), BuzzDBError>)
        requires
            old(self).wf(),
            old(self).log_manager.current_offset + 9 <= usize::MAX,
            old(self).buffer_manager.all_unpinned(),
            crate::log_manager::updates_fit(
                old(self).log_manager.log_recs(),
                old(self).buffer_manager.page_size as nat,
            ),
            old(self).buffer_manager.frames@.len() + old(self).log_manager.log_recs().len() + 1
                <= old(self).buffer_manager.capacity,
        ensures
            final(self).wf(),
            final(self).next_txn_id == old(self).next_txn_id,
            !old(self).is_active(txn_id) ==> {
                &&& (r matches Err(e) && e matches BuzzDBError::Other(_))
                &&& *final(self) == *old(self)
            },
            old(self).is_active(txn_id) ==> {
                &&& r is Ok
                &&& !final(self).is_active(txn_id)
                &&& final(self).active_transactions@.len() == old(self).active_transactions@.len() - 1
                &&& final(self).aborted_count@ == old(self).aborted_count@ + 1
                &&& final(self).committed_count == old(self).committed_count
                &&& forall|p: PageID, t: TransactionID|
                    locks_contain(final(self).page_locks@, p, t) <==> (locks_contain(
                        old(self).page_locks@,
                        p,
                        t,
                    ) && t != txn_id)
                &&& final(self).log_manager.log_recs() == old(self).log_manager.log_recs().push(
                    marker_rec(LogRecordType::AbortRecord, txn_id.0),
                )
                &&& final(self).log_manager.abort_count == old(self).log_manager.abort_count + 1
                &&& final(self).log_manager.current_offset == old(self).log_manager.current_offset
                    + 9
                &&& !final(self).log_manager.tracks_txn(txn_id)
                &&& final(self).buffer_manager.all_unpinned()
                &&& exists|k: int|
                    {
                        &&& 0 <= k < old(self).active_transactions@.len()
                        &&& (#[trigger] old(self).active_transactions@[k]).id == txn_id
                        &&& final(self).buffer_manager.pages_map()
                            == crate::log_manager::apply_writes(
                            old(self).buffer_manager.pages_map().remove_keys(
                                page_id_set(
                                    old(self).active_transactions@[k].modified_pages@,
                                ),
                            ),
                            rollback_writes(final(self).log_manager.log_recs(), txn_id.0),
                            old(self).buffer_manager.page_size as nat,
                        )
                    }
            },
    {
        let found = self.find_txn(txn_id);
        match found {
            None => Err(txn_not_found_error(txn_id)),
            Some(idx) => {
                let txn = self.active_transactions.remove(idx);
                proof {
                    assert(old(self).active_transactions@[idx as int].id == txn_id);
                    assert forall|a: int, b: int|
                        0 <= a < b < self.active_transactions@.len() implies (
                    #[trigger] self.active_transactions@[a]).id != (
                    #[trigger] self.active_transactions@[b]).id by {
                        let a0: int = if a < idx {
                            a
                        } else {
                            a + 1
                        };
                        let b0: int = if b < idx {
                            b
                        } else {
                            b + 1
                        };
                        assert(self.active_transactions@[a] == old(self).active_transactions@[a0]);
                        assert(self.active_transactions@[b] == old(self).active_transactions@[b0]);
                    }
                    assert forall|k: int|
                        0 <= k < self.active_transactions@.len() implies (
                    #[trigger] self.active_transactions@[k]).id != txn_id by {
                        if k < idx {
                            assert(self.active_transactions@[k] == old(self).active_transactions@[k]);
                            assert(old(self).active_transactions@[k].id != old(self).active_transactions@[idx as int].id);
                        } else {
                            assert(self.active_transactions@[k] == old(self).active_transactions@[k + 1]);
                            assert(old(self).active_transactions@[k + 1].id != old(self).active_transactions@[idx as int].id);
                        }
                    }
                }
                Self::discard_modified(&mut self.buffer_manager, &txn.modified_pages);
                self.release_locks(txn_id);
                match self.log_manager.log_abort(txn_id, &mut self.buffer_manager) {
                    Ok(u) => {},
                    Err(e) => {
                        assert(false);
                        return Err(e);
                    },
                }
                proof {
                    self.aborted_count = Ghost((old(self).aborted_count@ + 1) as nat);
                }
                Ok(())
            },
        }
    }

    /// The index of the lock entry for `page_id`, if any.
    fn find_lock(&self, page_id: PageID) -> (r: Option<usize>)
        ensures
            r matches Some(i) ==> 0 <= i < self.page_locks@.len()
                && self.page_locks@[i as int].0 == page_id,
            r is None ==> forall|j: int|
                0 <= j < self.page_locks@.len() ==> (#[trigger] self.page_locks@[j]).0
                    != page_id,
    {
        let n = self.page_locks.len();
        let mut i: usize = 0;
        while i < n
            invariant
                i <= n,
                n == self.page_locks@.len(),
                forall|j: int| 0 <= j < i ==> (#[trigger] self.page_locks@[j]).0 != page_id,
            decreases n - i,
        {
            if self.page_locks[i].0 == page_id {
                return Some(i);
            }
            i = i + 1;
        }
        None
    }

    /// Gives `txn_id` the write lock on `page_id` (idempotently for a lock
    /// it already holds) and records the page among the transaction's
    /// modified and locked pages; fails with `Other`, changing nothing,
    /// when another transaction holds the lock or the transaction is not
    /// active.
    pub fn add_modified_page(&mut self, txn_id: TransactionID, page_id: PageID) -> (r: Result<
        (),
        BuzzDBError,
    >)
        requires
            old(self).wf(),
        ensures
            final(self).wf(),
            final(self).next_txn_id == old(self).next_txn_id,
            final(self).log_manager == old(self).log_manager,
            final(self).buffer_manager == old(self).buffer_manager,
            final(self).committed_count == old(self).committed_count,
            final(self).aborted_count == old(self).aborted_count,
            (exists|t: TransactionID|
                t != txn_id && locks_contain(old(self).page_locks@, page_id, t)) ==> {
                &&& (r matches Err(e) && e matches BuzzDBError::Other(_))
                &&& *final(self) == *old(self)
            },
            !(exists|t: TransactionID|
                t != txn_id && locks_contain(old(self).page_locks@, page_id, t)) && !old(self).is_active(txn_id) ==> {
                &&& (r matches Err(e) && e matches BuzzDBError::Other(_))
                &&& *final(self) == *old(self)
            },
            !(exists|t: TransactionID|
                t != txn_id && locks_contain(old(self).page_locks@, page_id, t)) && old(self).is_active(txn_id) ==> {
                &&& r is Ok
                &&& locks_contain(final(self).page_locks@, page_id, txn_id)
                &&& forall|p: PageID, t: TransactionID|
                    (p != page_id) ==> (locks_contain(final(self).page_locks@, p, t)
                        <==> locks_contain(old(self).page_locks@, p, t))
                &&& final(self).active_transactions@.len() == old(self).active_transactions@.len()
                &&& exists|k: int|
                    {
                        &&& 0 <= k < old(self).active_transactions@.len()
                        &&& (#[trigger] old(self).active_transactions@[k]).id == txn_id
                        &&& final(self).active_transactions@ == old(self).active_transactions@.update(
                            k,
                            final(self).active_transactions@[k],
                        )
                        &&& final(self).active_transactions@[k].id == txn_id
                        &&& forall|x: PageID|
                            final(self).active_transactions@[k].modified_pages@.contains(x)
                                <==> (old(self).active_transactions@[k].modified_pages@.contains(x) || x
                                == page_id)
                        &&& forall|x: PageID|
                            final(self).active_transactions@[k].locked_pages@.contains(x) <==> (
                            old(self).active_transactions@[k].locked_pages@.contains(x) || x
                                == page_id)
                    }
            },
    {
        let lock_index = self.find_lock(page_id);
        match lock_index {
            Some(l) => {
                if self.page_locks[l].1 != txn_id {
                    let holder = self.page_locks[l].1;
                    proof {
                        assert(locks_contain(self.page_locks@, page_id, holder));
                    }
                    let mut msg = String::from_str("Page ");
                    let page_digits = u64_to_dec_string(page_id.0);
                    msg.append(page_digits.as_str());
                    msg.append(" is locked by transaction ");
                    let holder_digits = u64_to_dec_string(holder.0);
                    msg.append(holder_digits.as_str());
                    return Err(BuzzDBError::Other(msg));
                }
            },
            None => {},
        }
        proof {
            if exists|t: TransactionID|
                t != txn_id && locks_contain(old(self).page_locks@, page_id, t) {
                let t = choose|t: TransactionID|
                    t != txn_id && locks_contain(old(self).page_locks@, page_id, t);
                let j = choose|j: int|
                    0 <= j < old(self).page_locks@.len() && #[trigger] old(self).page_locks@[j]
                        == (page_id, t);
                assert(lock_index matches Some(l) ==> l as int == j);
                assert(false);
            }
        }
        let found = self.find_txn(txn_id);
        match found {
            None => Err(txn_not_found_error(txn_id)),
            Some(idx) => {
                let ghost pre_locks = self.page_locks@;
                match lock_index {
                    Some(l) => {
                        self.page_locks.set(l, (page_id, txn_id));
                        proof {
                            assert(self.page_locks@[l as int] == (page_id, txn_id));
                            assert(pre_locks[l as int].0 == page_id);
                            assert forall|a: int, b: int|
                                0 <= a < b < self.page_locks@.len() implies self.page_locks@[a].0
                                != self.page_locks@[b].0 by {
                                if a != l && b != l {
                                    assert(self.page_locks@[a] == pre_locks[a]);
                                    assert(self.page_locks@[b] == pre_locks[b]);
                                    assert(pre_locks[a].0 != pre_locks[b].0);
                                } else if a == l {
                                    assert(self.page_locks@[b] == pre_locks[b]);
                                    assert(pre_locks[b].0 != pre_locks[l as int].0);
                                } else {
                                    assert(self.page_locks@[a] == pre_locks[a]);
                                    assert(pre_locks[a].0 != pre_locks[l as int].0);
                                }
                            }
                        }
                    },
                    None => {
                        self.page_locks.push((page_id, txn_id));
                        proof {
                            assert(self.page_locks@[self.page_locks@.len() - 1] == (
                            page_id,
                            txn_id,
                            ));
                            assert forall|a: int, b: int|
                                0 <= a < b < self.page_locks@.len() implies self.page_locks@[a].0
                                != self.page_locks@[b].0 by {
                                if b < self.page_locks@.len() - 1 {
                                    assert(self.page_locks@[a] == pre_locks[a]);
                                    assert(self.page_locks@[b] == pre_locks[b]);
                                    assert(pre_locks[a].0 != pre_locks[b].0);
                                } else {
                                    assert(self.page_locks@[a] == pre_locks[a]);
                                    assert(pre_locks[a].0 != page_id);
                                }
                            }
                        }
                    },
                }
                proof {
                    assert(locks_contain(self.page_locks@, page_id, txn_id)) by {
                        match lock_index {
                            Option::Some(l) => {
                                assert(self.page_locks@[l as int] == (page_id, txn_id));
                            },
                            Option::None => {
                                assert(self.page_locks@[self.page_locks@.len() - 1] == (
                                page_id,
                                txn_id,
                                ));
                            },
                        }
                    }
                    assert forall|p: PageID, t: TransactionID|
                        (p != page_id) implies (locks_contain(self.page_locks@, p, t)
                        <==> locks_contain(old(self).page_locks@, p, t)) by {
                        if locks_contain(self.page_locks@, p, t) {
                            let j = choose|j: int|
                                0 <= j < self.page_locks@.len() && #[trigger] self.page_locks@[j]
                                    == (p, t);
                            assert(pre_locks[j] == (p, t));
                        }
                        if locks_contain(old(self).page_locks@, p, t) {
                            let j = choose|j: int|
                                0 <= j < pre_locks.len() && #[trigger] pre_locks[j] == (p, t);
                            assert(self.page_locks@[j] == (p, t));
                        }
                    }
                }
                let txn = vec_index_mut(&mut self.active_transactions, idx);
                txn.add_locked_page(page_id);
                txn.add_modified_page(page_id);
                proof {
                    assert forall|a: int, b: int|
                        0 <= a < b < self.active_transactions@.len() implies (
                    #[trigger] self.active_transactions@[a]).id != (
                    #[trigger] self.active_transactions@[b]).id by {
                        if a != idx {
                            assert(self.active_transactions@[a] == old(self).active_transactions@[a]);
                        }
                        if b != idx {
                            assert(self.active_transactions@[b] == old(self).active_transactions@[b]);
                        }
                    }
                    assert(self.active_transactions@ =~= old(self).active_transactions@.update(
                        idx as int,
                        self.active_transactions@[idx as int],
                    ));
                }
                Ok(())
            },
        }
    }
}

/// The bookkeeping identity of the transaction manager: at all times the
/// number of active transactions equals the number of transactions ever
/// begun minus those ever committed minus those ever aborted.
pub proof fn lemma_active_transaction_accounting(tm: &TransactionManager)
    requires
        tm.wf(),
    ensures
        tm.active_transactions@.len() == tm.next_txn_id - tm.committed_count@
            - tm.aborted_count@,
{
}

} // verus!
