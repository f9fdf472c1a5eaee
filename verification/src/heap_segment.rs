//! The heap segment: slotted-page allocation over one backing file, with a
//! bounded in-memory page cache, least-recently-used eviction that refuses
//! dirty or transaction-owned pages, and per-page transactional ownership.
//!
//! Page `p` occupies bytes `[p * page_size, (p + 1) * page_size)` of the
//! file. Invariants: a dirty page is cached; a page owned by a transaction
//! is dirty; the access queue holds exactly the cached pages.

use vstd::prelude::*;
use vstd::std_specs::vec::vec_index_mut;

use crate::common::{BuzzDBError, PageID, RecordID, TransactionID};
use crate::db_files::u64_to_dec_string;
use crate::file::{File, FileMode, MemoryFile};
use crate::slotted_page::{page_bytes, parse_page, SlottedPage};

verus! {

/// One cached page: its contents, whether it diverges from disk, and the
/// transaction currently modifying it, if any.
#[derive(Debug)]
pub struct PageInfo {
    pub page: SlottedPage,
    pub is_dirty: bool,
    pub modifying_txn: Option<TransactionID>,
}

/// Whether the cache holds an entry for `pid`.
pub open spec fn cache_has(s: Seq<(PageID, PageInfo)>, pid: PageID) -> bool {
    exists|i: int| 0 <= i < s.len() && (#[trigger] s[i]).0 == pid
}

/// Whether the cache entry at `i` may be evicted: its page is clean and no
/// transaction is modifying it.
pub open spec fn entry_evictable(e: (PageID, PageInfo)) -> bool {
    !e.1.is_dirty && e.1.modifying_txn is None
}

/// A self-contained store of slotted pages backed by one file, with an
/// in-memory cache of at most `max_pages_in_memory` pages.
pub struct HeapSegment {
    pub file: MemoryFile,
    pub page_size: usize,
    pub num_slots_per_page: usize,
    pub pages: Vec<(PageID, PageInfo)>,
    pub page_access_order: Vec<PageID>,
    pub max_pages_in_memory: usize,
    pub next_page_id: u64,
    pub dirty_pages: Vec<PageID>,
}

impl HeapSegment {
    /// Well-formedness: the file is writable; no page is cached twice; the
    /// access queue lists exactly the cached pages, each once; the dirty
    /// set lists exactly the cached pages whose entries are dirty; and a
    /// page some transaction is modifying is dirty.
    pub open spec fn wf(&self) -> bool {
        &&& self.file.mode == FileMode::WRITE
        &&& forall|i: int, j: int|
            0 <= i < j < self.pages@.len() ==> self.pages@[i].0 != self.pages@[j].0
        &&& forall|i: int, j: int|
            0 <= i < j < self.page_access_order@.len() ==> self.page_access_order@[i]
                != self.page_access_order@[j]
        &&& forall|i: int|
            0 <= i < self.page_access_order@.len() ==> cache_has(
                self.pages@,
                #[trigger] self.page_access_order@[i],
            )
        &&& forall|i: int|
            0 <= i < self.pages@.len() ==> self.page_access_order@.contains(
                (#[trigger] self.pages@[i]).0,
            )
        &&& forall|i: int, j: int|
            0 <= i < j < self.dirty_pages@.len() ==> self.dirty_pages@[i]
                != self.dirty_pages@[j]
        &&& forall|i: int|
            0 <= i < self.dirty_pages@.len() ==> cache_has(
                self.pages@,
                #[trigger] self.dirty_pages@[i],
            )
        &&& forall|i: int|
            0 <= i < self.pages@.len() ==> ((#[trigger] self.pages@[i]).1.is_dirty
                <==> self.dirty_pages@.contains(self.pages@[i].0))
        &&& forall|i: int|
            0 <= i < self.pages@.len() ==> ((#[trigger] self.pages@[i]).1.modifying_txn is Some
                ==> self.pages@[i].1.is_dirty)
    }

    /// A segment over `file` with no page allocated or cached yet.
    pub fn new(
        file: MemoryFile,
        page_size: usize,
        num_slots_per_page: usize,
        max_pages_in_memory: usize,
    ) -> (h: Self)
        requires
            file.mode == FileMode::WRITE,
        ensures
            h.wf(),
            h.file == file,
            h.page_size == page_size,
            h.num_slots_per_page == num_slots_per_page,
            h.max_pages_in_memory == max_pages_in_memory,
            h.next_page_id == 0,
            h.pages@.len() == 0,
            h.page_access_order@.len() == 0,
            h.dirty_pages@.len() == 0,
    {
        Self {
            file,
            page_size,
            num_slots_per_page,
            pages: Vec::new(),
            page_access_order: Vec::new(),
            max_pages_in_memory,
            next_page_id: 0,
            dirty_pages: Vec::new(),
        }
    }

    /// The cache index of `pid`, if cached.
    fn find_cached(&self, pid: PageID) -> (r: Option<usize>)
        ensures
            r matches Some(i) ==> 0 <= i < self.pages@.len() && self.pages@[i as int].0 == pid,
            r is None ==> !cache_has(self.pages@, pid),
    {
        let n = self.pages.len();
        let mut i: usize = 0;
        while i < n
            invariant
                i <= n,
                n == self.pages@.len(),
                forall|j: int| 0 <= j < i ==> (#[trigger] self.pages@[j]).0 != pid,
            decreases n - i,
        {
            if self.pages[i].0 == pid {
                return Some(i);
            }
            i = i + 1;
        }
        None
    }

    /// Reads and decodes the page stored at `pid * page_size`; fails with
    /// `PageNotFound` on a read past the end of the file and with
    /// `DeserializationError` when the stored bytes do not decode.
    fn read_page_from_disk(&mut self, pid: PageID) -> (r: Result<SlottedPage, BuzzDBError>)
        requires
            pid.0 <= usize::MAX,
            pid.0 * old(self).page_size + old(self).page_size <= usize::MAX,
        ensures
            final(self).file.mode == old(self).file.mode,
            final(self).file.data@ == old(self).file.data@,
            final(self).page_size == old(self).page_size,
            final(self).num_slots_per_page == old(self).num_slots_per_page,
            final(self).max_pages_in_memory == old(self).max_pages_in_memory,
            final(self).next_page_id == old(self).next_page_id,
            final(self).pages == old(self).pages,
            final(self).page_access_order == old(self).page_access_order,
            final(self).dirty_pages == old(self).dirty_pages,
            pid.0 * old(self).page_size >= old(self).file.data@.len() ==> (r matches Err(e)
                && e matches BuzzDBError::PageNotFound(p) && p == pid.0),
            pid.0 * old(self).page_size < old(self).file.data@.len() ==> {
                let off = pid.0 * old(self).page_size;
                let amount = if off + old(self).page_size <= old(self).file.data@.len() {
                    old(self).page_size as int
                } else {
                    old(self).file.data@.len() - off
                };
                let chunk = old(self).file.data@.subrange(off as int, off + amount);
                match parse_page(chunk) {
                    Option::Some(pv) => (r matches Ok(p) && p.page_id.0 == pv.0 && p.slots@
                        == pv.1),
                    Option::None => (r matches Err(e)
                        && e matches BuzzDBError::DeserializationError),
                }
            },
    {
        let offset = (pid.0 as usize) * self.page_size;
        let fsize = self.file.data.len();
        if offset >= fsize {
            return Err(BuzzDBError::PageNotFound(pid.0));
        }
        let amount = if offset + self.page_size <= fsize {
            self.page_size
        } else {
            fsize - offset
        };
        let buffer = match self.file.read_block(offset, amount) {
            Ok(b) => b,
            Err(e) => {
                assert(false);
                return Err(e);
            },
        };
        match SlottedPage::deserialize(buffer.as_slice()) {
            Ok(p) => Ok(p),
            Err(e) => Err(BuzzDBError::DeserializationError),
        }
    }

    /// Moves `pid` to the most-recently-used end of the access queue.
    fn update_page_access(&mut self, pid: PageID)
        requires
            old(self).wf(),
        ensures
            final(self).wf(),
            final(self).file == old(self).file,
            final(self).page_size == old(self).page_size,
            final(self).num_slots_per_page == old(self).num_slots_per_page,
            final(self).max_pages_in_memory == old(self).max_pages_in_memory,
            final(self).next_page_id == old(self).next_page_id,
            final(self).pages == old(self).pages,
            final(self).dirty_pages == old(self).dirty_pages,
            !old(self).page_access_order@.contains(pid) ==> final(self).page_access_order == old(self).page_access_order,
            old(self).page_access_order@.contains(pid) ==> exists|j: int|
                {
                    &&& 0 <= j < old(self).page_access_order@.len()
                    &&& old(self).page_access_order@[j] == pid
                    &&& final(self).page_access_order@ == old(self).page_access_order@.remove(
                        j,
                    ).push(pid)
                },
    {
        let n = self.page_access_order.len();
        let mut i: usize = 0;
        while i < n
            invariant
                i <= n,
                n == self.page_access_order@.len(),
                *self == *old(self),
                old(self).wf(),
                forall|j: int| 0 <= j < i ==> (#[trigger] self.page_access_order@[j]) != pid,
            decreases n - i,
        {
            if self.page_access_order[i] == pid {
                self.page_access_order.remove(i);
                self.page_access_order.push(pid);
                proof {
                    let v = self.page_access_order@;
                    let w = old(self).page_access_order@;
                    assert(v =~= w.remove(i as int).push(pid));
                    assert forall|a: int, b: int| 0 <= a < b < v.len() implies v[a] != v[b] by {
                        if b < v.len() - 1 {
                            let a0: int = if a < i {
                                a
                            } else {
                                a + 1
                            };
                            let b0: int = if b < i {
                                b
                            } else {
                                b + 1
                            };
                            assert(v[a] == w[a0] && v[b] == w[b0]);
                        } else {
                            let a0: int = if a < i {
                                a
                            } else {
                                a + 1
                            };
                            assert(v[a] == w[a0]);
                            assert(w[a0] != w[i as int]);
                        }
                    }
                    assert forall|k: int| 0 <= k < v.len() implies cache_has(
                        self.pages@,
                        #[trigger] v[k],
                    ) by {
                        if k < v.len() - 1 {
                            let k0: int = if k < i {
                                k
                            } else {
                                k + 1
                            };
                            assert(v[k] == w[k0]);
                        } else {
                            assert(v[k] == w[i as int]);
                        }
                    }
                    assert forall|k: int| 0 <= k < self.pages@.len() implies v.contains(
                        (#[trigger] self.pages@[k]).0,
                    ) by {
                        let c = choose|c: int|
                            0 <= c < w.len() && #[trigger] w[c] == self.pages@[k].0;
                        if c == i {
                            assert(v[v.len() - 1] == self.pages@[k].0);
                        } else {
                            let c1: int = if c < i {
                                c
                            } else {
                                c - 1
                            };
                            assert(v[c1] == w[c]);
                        }
                    }
                }
                return ;
            }
            i = i + 1;
        }
    }

    /// Marks the cached page `pid` dirty and owned by `txn_id`.
    fn mark_page_dirty(&mut self, pid: PageID, txn_id: TransactionID)
        requires
            old(self).wf(),
        ensures
            final(self).wf(),
            final(self).file == old(self).file,
            final(self).page_size == old(self).page_size,
            final(self).num_slots_per_page == old(self).num_slots_per_page,
            final(self).max_pages_in_memory == old(self).max_pages_in_memory,
            final(self).next_page_id == old(self).next_page_id,
            final(self).page_access_order == old(self).page_access_order,
            !cache_has(old(self).pages@, pid) ==> *final(self) == *old(self),
            cache_has(old(self).pages@, pid) ==> exists|i: int|
                {
                    &&& 0 <= i < old(self).pages@.len()
                    &&& (#[trigger] old(self).pages@[i]).0 == pid
                    &&& final(self).pages@ == old(self).pages@.update(
                        i,
                        (
                            pid,
                            PageInfo {
                                page: old(self).pages@[i].1.page,
                                is_dirty: true,
                                modifying_txn: Some(txn_id),
                            },
                        ),
                    )
                    &&& forall|x: PageID|
                        final(self).dirty_pages@.contains(x) <==> (old(self).dirty_pages@.contains(x) || x == pid)
                },
    {
        match self.find_cached(pid) {
            None => {},
            Some(i) => {
                let ghost pre = self.pages@;
                let entry = vec_index_mut(&mut self.pages, i);
                entry.1.is_dirty = true;
                entry.1.modifying_txn = Some(txn_id);
                if !self.dirty_contains(pid) {
                    self.dirty_pages.push(pid);
                    proof {
                        lemma_page_set_insert(old(self).dirty_pages@, self.dirty_pages@, pid);
                    }
                }
                proof {
                    assert(self.pages@ == pre.update(
                        i as int,
                        (
                            pid,
                            PageInfo {
                                page: pre[i as int].1.page,
                                is_dirty: true,
                                modifying_txn: Some(txn_id),
                            },
                        ),
                    ));
                    assert forall|k: int| 0 <= k < self.pages@.len() implies (
                    #[trigger] self.pages@[k]).0 == pre[k].0 by {}
                    assert forall|x: PageID| cache_has(pre, x) implies cache_has(
                        self.pages@,
                        x,
                    ) by {
                        let c = choose|c: int| 0 <= c < pre.len() && (#[trigger] pre[c]).0 == x;
                        assert(self.pages@[c].0 == x);
                    }
                    assert forall|k: int|
                        0 <= k < self.page_access_order@.len() implies cache_has(
                        self.pages@,
                        #[trigger] self.page_access_order@[k],
                    ) by {}
                    assert forall|k: int|
                        0 <= k < self.pages@.len() implies self.page_access_order@.contains(
                        (#[trigger] self.pages@[k]).0,
                    ) by {
                        assert(self.pages@[k].0 == pre[k].0);
                    }
                    assert forall|k: int| 0 <= k < self.dirty_pages@.len() implies cache_has(
                        self.pages@,
                        #[trigger] self.dirty_pages@[k],
                    ) by {
                        if self.dirty_pages@[k] == pid {
                            assert(self.pages@[i as int].0 == pid);
                        } else {
                            assert(old(self).dirty_pages@.contains(self.dirty_pages@[k])
                                || self.dirty_pages@[k] == pid);
                            let c = choose|c: int|
                                0 <= c < pre.len() && (#[trigger] pre[c]).0
                                    == self.dirty_pages@[k];
                            assert(self.pages@[c].0 == self.dirty_pages@[k]);
                        }
                    }
                    assert forall|k: int|
                        0 <= k < self.pages@.len() implies ((#[trigger] self.pages@[
                    k]).1.is_dirty <==> self.dirty_pages@.contains(self.pages@[k].0)) by {
                        if k != i {
                            assert(self.pages@[k] == pre[k]);
                            assert(pre[k].0 != pid);
                        }
                    }
                }
            },
        }
    }

    /// Whether the dirty set lists `pid`.
    fn dirty_contains(&self, pid: PageID) -> (r: bool)
        ensures
            r == self.dirty_pages@.contains(pid),
    {
        let n = self.dirty_pages.len();
        let mut i: usize = 0;
        while i < n
            invariant
                i <= n,
                n == self.dirty_pages@.len(),
                forall|j: int| 0 <= j < i ==> (#[trigger] self.dirty_pages@[j]) != pid,
            decreases n - i,
        {
            if self.dirty_pages[i] == pid {
                return true;
            }
            i = i + 1;
        }
        false
    }
}

/// Membership after inserting a fresh page id at the back of a
/// duplicate-free vector.
proof fn lemma_page_set_insert(w: Seq<PageID>, v: Seq<PageID>, pid: PageID)
    requires
        v == w.push(pid),
        !w.contains(pid),
    ensures
        forall|x: PageID| v.contains(x) <==> (w.contains(x) || x == pid),
        (forall|i: int, j: int| 0 <= i < j < w.len() ==> w[i] != w[j]) ==> (forall|i: int, j: int|
            0 <= i < j < v.len() ==> v[i] != v[j]),
{
    assert forall|x: PageID| v.contains(x) implies (w.contains(x) || x == pid) by {
        let k = choose|k: int| 0 <= k < v.len() && v[k] == x;
        if k < v.len() - 1 {
            assert(w[k] == x);
        }
    }
    assert forall|x: PageID| (w.contains(x) || x == pid) implies v.contains(x) by {
        if w.contains(x) {
            let k = choose|k: int| 0 <= k < w.len() && w[k] == x;
            assert(v[k] == x);
        } else {
            assert(v[v.len() - 1] == x);
        }
    }
    if forall|i: int, j: int| 0 <= i < j < w.len() ==> w[i] != w[j] {
        assert forall|i: int, j: int| 0 <= i < j < v.len() implies v[i] != v[j] by {
            if j < v.len() - 1 {
                assert(v[i] == w[i] && v[j] == w[j]);
            } else {
                assert(v[i] == w[i]);
                assert(!w.contains(pid));
                assert(w.contains(w[i]));
            }
        }
    }
}


impl HeapSegment {
    /// Cycles the access queue looking for a clean, unowned page: the first
    /// such page is dropped from the cache, dirty or owned pages are
    /// requeued. Fails with `BufferFull`, changing nothing, exactly when no
    /// cached page can be evicted.
    fn evict_page(&mut self) -> (r: Result<(), BuzzDBError>)
        requires
            old(self).wf(),
        ensures
            final(self).wf(),
            final(self).file == old(self).file,
            final(self).page_size == old(self).page_size,
            final(self).num_slots_per_page == old(self).num_slots_per_page,
            final(self).max_pages_in_memory == old(self).max_pages_in_memory,
            final(self).next_page_id == old(self).next_page_id,
            final(self).dirty_pages == old(self).dirty_pages,
            (r is Ok) <==> exists|k: int|
                0 <= k < old(self).pages@.len() && entry_evictable(#[trigger] old(self).pages@[k]),
            r matches Err(e) ==> e matches BuzzDBError::BufferFull && final(self).pages == old(self).pages && final(self).page_access_order@ == old(self).page_access_order@,
            r is Ok ==> exists|k: int|
                {
                    &&& 0 <= k < old(self).pages@.len()
                    &&& entry_evictable(#[trigger] old(self).pages@[k])
                    &&& final(self).pages@ == old(self).pages@.remove(k)
                    &&& !cache_has(final(self).pages@, old(self).pages@[k].0)
                    &&& final(self).pages@.len() == old(self).pages@.len() - 1
                },
    {
        let n = self.page_access_order.len();
        let ghost order0 = old(self).page_access_order@;
        let mut c: usize = 0;
        while c < n
            invariant
                c <= n,
                n == order0.len(),
                order0 == old(self).page_access_order@,
                old(self).wf(),
                self.wf(),
                self.file == old(self).file,
                self.page_size == old(self).page_size,
                self.num_slots_per_page == old(self).num_slots_per_page,
                self.max_pages_in_memory == old(self).max_pages_in_memory,
                self.next_page_id == old(self).next_page_id,
                self.pages == old(self).pages,
                self.dirty_pages == old(self).dirty_pages,
                self.page_access_order@ == order0.skip(c as int) + order0.take(c as int),
                forall|l: int|
                    0 <= l < c ==> forall|k: int|
                        0 <= k < old(self).pages@.len() && (#[trigger] old(self).pages@[k]).0 == (
                        #[trigger] order0[l]) ==> !entry_evictable(old(self).pages@[k]),
            decreases n - c,
        {
            let pid = self.page_access_order[0];
            proof {
                assert(self.page_access_order@[0] == order0[c as int]);
            }
            self.page_access_order.remove(0);
            let k = match self.find_cached(pid) {
                Some(k) => k,
                None => {
                    proof {
                        assert(cache_has(old(self).pages@, pid));
                        assert(false);
                    }
                    return Err(BuzzDBError::BufferFull);
                },
            };
            let evictable = !self.pages[k].1.is_dirty && self.pages[k].1.modifying_txn.is_none();
            if evictable {
                self.pages.remove(k);
                proof {
                    let pre = old(self).pages@;
                    assert(entry_evictable(pre[k as int]));
                    assert(self.pages@ == pre.remove(k as int));
                    assert forall|a: int, b: int|
                        0 <= a < b < self.pages@.len() implies (#[trigger] self.pages@[a]).0 != (
                    #[trigger] self.pages@[b]).0 by {
                        let a0: int = if a < k {
                            a
                        } else {
                            a + 1
                        };
                        let b0: int = if b < k {
                            b
                        } else {
                            b + 1
                        };
                        assert(self.pages@[a] == pre[a0] && self.pages@[b] == pre[b0]);
                    }
                    assert(!cache_has(self.pages@, pid)) by {
                        if cache_has(self.pages@, pid) {
                            let w = choose|w: int|
                                0 <= w < self.pages@.len() && (#[trigger] self.pages@[w]).0
                                    == pid;
                            let w0: int = if w < k {
                                w
                            } else {
                                w + 1
                            };
                            assert(pre[w0].0 == pid && pre[k as int].0 == pid && w0 != k);
                        }
                    }
                    let oq = self.page_access_order@;
                    assert(oq =~= order0.skip(c + 1) + order0.take(c as int));
                    assert forall|a: int, b: int| 0 <= a < b < oq.len() implies oq[a]
                        != oq[b] by {
                        let a0: int = if a < order0.len() - c - 1 {
                            a + c + 1
                        } else {
                            a - (order0.len() - c - 1)
                        };
                        let b0: int = if b < order0.len() - c - 1 {
                            b + c + 1
                        } else {
                            b - (order0.len() - c - 1)
                        };
                        assert(oq[a] == order0[a0] && oq[b] == order0[b0]);
                        assert(a0 != b0);
                    }
                    assert forall|l: int| 0 <= l < oq.len() implies cache_has(
                        self.pages@,
                        #[trigger] oq[l],
                    ) by {
                        let l0: int = if l < order0.len() - c - 1 {
                            l + c + 1
                        } else {
                            l - (order0.len() - c - 1)
                        };
                        assert(oq[l] == order0[l0]);
                        assert(l0 != c);
                        assert(order0[l0] != order0[c as int]);
                        assert(oq[l] != pid);
                        let w = choose|w: int|
                            0 <= w < pre.len() && (#[trigger] pre[w]).0 == oq[l];
                        assert(w != k);
                        if w < k {
                            assert(self.pages@[w].0 == oq[l]);
                        } else {
                            assert(self.pages@[w - 1].0 == oq[l]);
                        }
                    }
                    assert forall|l: int| 0 <= l < self.pages@.len() implies oq.contains(
                        (#[trigger] self.pages@[l]).0,
                    ) by {
                        let l0: int = if l < k {
                            l
                        } else {
                            l + 1
                        };
                        assert(self.pages@[l] == pre[l0]);
                        assert(l0 != k);
                        assert(pre[l0].0 != pre[k as int].0);
                        let w = choose|w: int|
                            0 <= w < order0.len() && #[trigger] order0[w] == pre[l0].0;
                        assert(order0[w] != pid);
                        assert(w != c);
                        let w1: int = if w > c {
                            w - c - 1
                        } else {
                            w + (order0.len() - c - 1)
                        };
                        assert(oq[w1] == order0[w]);
                    }
                    assert forall|l: int| 0 <= l < self.dirty_pages@.len() implies cache_has(
                        self.pages@,
                        #[trigger] self.dirty_pages@[l],
                    ) by {
                        let w = choose|w: int|
                            0 <= w < pre.len() && (#[trigger] pre[w]).0 == self.dirty_pages@[l];
                        assert(pre[w].1.is_dirty);
                        assert(w != k);
                        if w < k {
                            assert(self.pages@[w].0 == self.dirty_pages@[l]);
                        } else {
                            assert(self.pages@[w - 1].0 == self.dirty_pages@[l]);
                        }
                    }
                    assert forall|l: int|
                        0 <= l < self.pages@.len() implies ((#[trigger] self.pages@[
                    l]).1.is_dirty <==> self.dirty_pages@.contains(self.pages@[l].0)) by {
                        let l0: int = if l < k {
                            l
                        } else {
                            l + 1
                        };
                        assert(self.pages@[l] == pre[l0]);
                    }
                }
                return Ok(());
            }
            self.page_access_order.push(pid);
            proof {
                assert(self.page_access_order@ =~= order0.skip(c + 1) + order0.take(c + 1));
                assert(order0.take(c + 1).drop_last() =~= order0.take(c as int));
                lemma_rotation(order0, c + 1);
                assert forall|l: int|
                    0 <= l < self.page_access_order@.len() implies cache_has(
                    self.pages@,
                    #[trigger] self.page_access_order@[l],
                ) by {
                    assert(self.page_access_order@.contains(self.page_access_order@[l]));
                    assert(order0.contains(self.page_access_order@[l]));
                    let w = choose|w: int|
                        0 <= w < order0.len() && #[trigger] order0[w]
                            == self.page_access_order@[l];
                    assert(old(self).wf());
                    assert(cache_has(old(self).pages@, order0[w]));
                }
                assert forall|l: int|
                    0 <= l < self.pages@.len() implies self.page_access_order@.contains(
                    (#[trigger] self.pages@[l]).0,
                ) by {
                    assert(old(self).page_access_order@.contains(old(self).pages@[l].0));
                    assert(order0.contains(self.pages@[l].0));
                }
                let pre = old(self).pages@;
                assert(!entry_evictable(pre[k as int]));
                assert forall|l: int|
                    0 <= l < c + 1 implies forall|w: int|
                        0 <= w < pre.len() && (#[trigger] pre[w]).0 == (#[trigger] order0[l])
                            ==> !entry_evictable(pre[w]) by {
                    if l == c {
                        assert forall|w: int|
                            0 <= w < pre.len() && (#[trigger] pre[w]).0 == order0[l as int]
                                implies !entry_evictable(pre[w]) by {
                            assert(pre[w].0 == pid && pre[k as int].0 == pid);
                            assert(w == k);
                        }
                    }
                }
            }
            c = c + 1;
        }
        proof {
            assert(self.page_access_order@ =~= order0);
            assert forall|k: int|
                0 <= k < old(self).pages@.len() implies !entry_evictable(
                #[trigger] old(self).pages@[k],
            ) by {
                assert(old(self).page_access_order@.contains(old(self).pages@[k].0));
                let w = choose|w: int|
                    0 <= w < order0.len() && #[trigger] order0[w] == old(self).pages@[k].0;
            }
        }
        Err(BuzzDBError::BufferFull)
    }
}


/// A rotation of a duplicate-free sequence is duplicate-free and holds the
/// same elements.
proof fn lemma_rotation(order0: Seq<PageID>, c: int)
    requires
        0 <= c <= order0.len(),
        forall|i: int, j: int| 0 <= i < j < order0.len() ==> order0[i] != order0[j],
    ensures
        forall|i: int, j: int|
            0 <= i < j < (order0.skip(c) + order0.take(c)).len() ==> (order0.skip(c)
                + order0.take(c))[i] != (order0.skip(c) + order0.take(c))[j],
        forall|x: PageID| (order0.skip(c) + order0.take(c)).contains(x) <==> order0.contains(x),
{
    let rot = order0.skip(c) + order0.take(c);
    let n = order0.len() as int;
    assert forall|i: int, j: int| 0 <= i < j < rot.len() implies rot[i] != rot[j] by {
        let i0: int = if i < n - c {
            i + c
        } else {
            i - (n - c)
        };
        let j0: int = if j < n - c {
            j + c
        } else {
            j - (n - c)
        };
        assert(rot[i] == order0[i0] && rot[j] == order0[j0]);
        assert(i0 != j0);
    }
    assert forall|x: PageID| rot.contains(x) <==> order0.contains(x) by {
        if rot.contains(x) {
            let i = choose|i: int| 0 <= i < rot.len() && rot[i] == x;
            let i0: int = if i < n - c {
                i + c
            } else {
                i - (n - c)
            };
            assert(order0[i0] == x);
        }
        if order0.contains(x) {
            let i = choose|i: int| 0 <= i < order0.len() && order0[i] == x;
            let i1: int = if i >= c {
                i - c
            } else {
                i + (n - c)
            };
            assert(rot[i1] == order0[i]);
        }
    }
}


impl HeapSegment {
    /// Inserts (or replaces) the cache entry for `pid` as dirty and owned
    /// by `txn_id`, evicting first when the cache is at capacity. Fails
    /// with `BufferFull`, changing nothing, exactly when the cache is at
    /// capacity and holds no clean, unowned page.
    fn cache_page(&mut self, pid: PageID, page: SlottedPage, txn_id: TransactionID) -> (r: Result<
        (),
        BuzzDBError,
    >)
        requires
            old(self).wf(),
        ensures
            final(self).wf(),
            final(self).file == old(self).file,
            final(self).page_size == old(self).page_size,
            final(self).num_slots_per_page == old(self).num_slots_per_page,
            final(self).max_pages_in_memory == old(self).max_pages_in_memory,
            final(self).next_page_id == old(self).next_page_id,
            (r is Err) <==> (old(self).pages@.len() >= old(self).max_pages_in_memory && !(
            exists|k: int|
                0 <= k < old(self).pages@.len() && entry_evictable(
                    #[trigger] old(self).pages@[k],
                ))),
            r matches Err(e) ==> e matches BuzzDBError::BufferFull && final(self).pages == old(self).pages && final(self).page_access_order@ == old(self).page_access_order@ && final(self).dirty_pages == old(self).dirty_pages,
            r is Ok ==> {
                &&& exists|k: int|
                    0 <= k < final(self).pages@.len() && final(self).pages@[k] == (
                    pid,
                    (PageInfo { page: page, is_dirty: true, modifying_txn: Some(txn_id) }),
                )
                &&& final(self).dirty_pages@.contains(pid)
                &&& final(self).pages@.len() <= old(self).pages@.len() + 1
            },
    {
        if self.pages.len() >= self.max_pages_in_memory {
            match self.evict_page() {
                Ok(u) => {},
                Err(e) => {
                    return Err(e);
                },
            }
        }
        let ghost mid = *self;
        let info = PageInfo { page, is_dirty: true, modifying_txn: Some(txn_id) };
        match self.find_cached(pid) {
            Some(i) => {
                let ghost pre = self.pages@;
                let entry = vec_index_mut(&mut self.pages, i);
                *entry = (pid, info);
                let already = self.dirty_contains(pid);
                if !already {
                    self.dirty_pages.push(pid);
                    proof {
                        lemma_page_set_insert(mid.dirty_pages@, self.dirty_pages@, pid);
                    }
                }
                proof {
                    assert(self.pages@ =~= pre.update(
                        i as int,
                        (
                            pid,
                            (PageInfo {
                                page: self.pages@[i as int].1.page,
                                is_dirty: true,
                                modifying_txn: Some(txn_id),
                            }),
                        ),
                    ));
                    assert forall|k: int| 0 <= k < self.pages@.len() implies (
                    #[trigger] self.pages@[k]).0 == pre[k].0 by {}
                    assert forall|k: int|
                        0 <= k < self.page_access_order@.len() implies cache_has(
                        self.pages@,
                        #[trigger] self.page_access_order@[k],
                    ) by {
                        let c = choose|c: int|
                            0 <= c < pre.len() && (#[trigger] pre[c]).0
                                == self.page_access_order@[k];
                        assert(self.pages@[c].0 == self.page_access_order@[k]);
                    }
                    assert forall|k: int|
                        0 <= k < self.pages@.len() implies self.page_access_order@.contains(
                        (#[trigger] self.pages@[k]).0,
                    ) by {
                        assert(self.pages@[k].0 == pre[k].0);
                    }
                    assert forall|k: int| 0 <= k < self.dirty_pages@.len() implies cache_has(
                        self.pages@,
                        #[trigger] self.dirty_pages@[k],
                    ) by {
                        if self.dirty_pages@[k] == pid {
                            assert(self.pages@[i as int].0 == pid);
                        } else {
                            assert(mid.dirty_pages@.contains(self.dirty_pages@[k]));
                            let c = choose|c: int|
                                0 <= c < pre.len() && (#[trigger] pre[c]).0
                                    == self.dirty_pages@[k];
                            assert(self.pages@[c].0 == self.dirty_pages@[k]);
                        }
                    }
                    assert forall|k: int|
                        0 <= k < self.pages@.len() implies ((#[trigger] self.pages@[
                    k]).1.is_dirty <==> self.dirty_pages@.contains(self.pages@[k].0)) by {
                        if k != i {
                            assert(self.pages@[k] == pre[k]);
                            assert(pre[k].0 != pid);
                        } else {
                            assert(self.dirty_pages@.contains(pid));
                        }
                    }
                    assert(self.pages@[i as int] == (pid, info));
                }
                Ok(())
            },
            None => {
                self.pages.push((pid, info));
                self.page_access_order.push(pid);
                proof {
                    assert(!mid.page_access_order@.contains(pid)) by {
                        if mid.page_access_order@.contains(pid) {
                            let c = choose|c: int|
                                0 <= c < mid.page_access_order@.len()
                                    && #[trigger] mid.page_access_order@[c] == pid;
                            assert(cache_has(mid.pages@, pid));
                        }
                    }
                    lemma_page_set_insert(
                        mid.page_access_order@,
                        self.page_access_order@,
                        pid,
                    );
                }
                let already = self.dirty_contains(pid);
                if !already {
                    self.dirty_pages.push(pid);
                    proof {
                        lemma_page_set_insert(mid.dirty_pages@, self.dirty_pages@, pid);
                    }
                }
                proof {
                    assert(!mid.dirty_pages@.contains(pid)) by {
                        if mid.dirty_pages@.contains(pid) {
                            assert(cache_has(mid.pages@, pid));
                        }
                    }
                    assert(self.dirty_pages@.contains(pid));
                    let pre = mid.pages@;
                    assert(self.pages@ =~= pre.push((pid, info)));
                    assert forall|a: int, b: int|
                        0 <= a < b < self.pages@.len() implies (#[trigger] self.pages@[a]).0 != (
                    #[trigger] self.pages@[b]).0 by {
                        if b < self.pages@.len() - 1 {
                            assert(self.pages@[a] == pre[a] && self.pages@[b] == pre[b]);
                        } else {
                            assert(self.pages@[a] == pre[a]);
                            assert(!cache_has(pre, pid));
                        }
                    }
                    assert forall|k: int|
                        0 <= k < self.page_access_order@.len() implies cache_has(
                        self.pages@,
                        #[trigger] self.page_access_order@[k],
                    ) by {
                        if self.page_access_order@[k] == pid {
                            assert(self.pages@[self.pages@.len() - 1].0 == pid);
                        } else {
                            assert(mid.page_access_order@.contains(self.page_access_order@[k]));
                            let c = choose|c: int|
                                0 <= c < pre.len() && (#[trigger] pre[c]).0
                                    == self.page_access_order@[k];
                            assert(self.pages@[c].0 == self.page_access_order@[k]);
                        }
                    }
                    assert forall|k: int|
                        0 <= k < self.pages@.len() implies self.page_access_order@.contains(
                        (#[trigger] self.pages@[k]).0,
                    ) by {
                        if k < self.pages@.len() - 1 {
                            assert(self.pages@[k] == pre[k]);
                            assert(mid.page_access_order@.contains(pre[k].0));
                        }
                    }
                    assert forall|k: int| 0 <= k < self.dirty_pages@.len() implies cache_has(
                        self.pages@,
                        #[trigger] self.dirty_pages@[k],
                    ) by {
                        if self.dirty_pages@[k] == pid {
                            assert(self.pages@[self.pages@.len() - 1].0 == pid);
                        } else {
                            assert(mid.dirty_pages@.contains(self.dirty_pages@[k]));
                            let c = choose|c: int|
                                0 <= c < pre.len() && (#[trigger] pre[c]).0
                                    == self.dirty_pages@[k];
                            assert(self.pages@[c].0 == self.dirty_pages@[k]);
                        }
                    }
                    assert forall|k: int|
                        0 <= k < self.pages@.len() implies ((#[trigger] self.pages@[
                    k]).1.is_dirty <==> self.dirty_pages@.contains(self.pages@[k].0)) by {
                        if k < self.pages@.len() - 1 {
                            assert(self.pages@[k] == pre[k]);
                            assert(pre[k].0 != pid);
                        } else {
                            assert(self.dirty_pages@.contains(pid));
                        }
                    }
                    assert(self.pages@[self.pages@.len() - 1] == (pid, info));
                }
                Ok(())
            },
        }
    }

    /// Assigns the next page id, writes a fresh empty slotted page at
    /// `page_id * page_size` in the file (crash-safe allocation), and
    /// caches it as dirty and owned by `txn_id`. The page id counter
    /// advances even on failure, as a fresh id must never be reused.
    pub fn allocate_page(&mut self, txn_id: TransactionID) -> (r: Result<PageID, BuzzDBError>)
        requires
            old(self).wf(),
            old(self).next_page_id < u64::MAX,
            old(self).next_page_id <= usize::MAX,
            old(self).next_page_id * old(self).page_size + old(self).page_size <= usize::MAX,
            16 + 9 * old(self).num_slots_per_page <= usize::MAX,
        ensures
            final(self).wf(),
            final(self).next_page_id == old(self).next_page_id + 1,
            final(self).page_size == old(self).page_size,
            final(self).num_slots_per_page == old(self).num_slots_per_page,
            final(self).max_pages_in_memory == old(self).max_pages_in_memory,
            16 + 9 * old(self).num_slots_per_page > old(self).page_size ==> {
                &&& (r matches Err(e) && e matches BuzzDBError::PageSizeExceeded(got, max) && got
                    == 16 + 9 * old(self).num_slots_per_page && max == old(self).page_size)
                &&& final(self).file == old(self).file
                &&& final(self).pages == old(self).pages
                &&& final(self).dirty_pages == old(self).dirty_pages
            },
            16 + 9 * old(self).num_slots_per_page <= old(self).page_size ==> {
                let pid = PageID(old(self).next_page_id);
                let empty = Seq::new(old(self).num_slots_per_page as nat, |i: int| None::<
                    RecordID,
                >);
                let enc = page_bytes(pid.0, empty);
                let off = pid.0 * old(self).page_size;
                &&& final(self).file.data@ == crate::byte_ops::write_block_bytes(
                    old(self).file.data@,
                    enc,
                    off as int,
                )
                &&& parse_page(final(self).file.data@.skip(off as int)) == Some((pid.0, empty))
                &&& ((r is Err) <==> (old(self).pages@.len() >= old(self).max_pages_in_memory
                    && !(exists|k: int|
                    0 <= k < old(self).pages@.len() && entry_evictable(
                        #[trigger] old(self).pages@[k],
                    ))))
                &&& (r matches Err(e) ==> e matches BuzzDBError::BufferFull)
                &&& (r matches Ok(p) ==> {
                    &&& p == pid
                    &&& exists|k: int|
                        {
                            &&& 0 <= k < final(self).pages@.len()
                            &&& (#[trigger] final(self).pages@[k]).0 == pid
                            &&& final(self).pages@[k].1.page.page_id == pid
                            &&& final(self).pages@[k].1.page.slots@ == empty
                            &&& final(self).pages@[k].1.is_dirty
                            &&& final(self).pages@[k].1.modifying_txn == Some(txn_id)
                        }
                    &&& final(self).dirty_pages@.contains(pid)
                })
            },
    {
        let page_id = PageID(self.next_page_id);
        self.next_page_id = self.next_page_id + 1;

        let new_page = SlottedPage::new(page_id, self.num_slots_per_page);
        let ghost empty = Seq::new(
            old(self).num_slots_per_page as nat,
            |i: int| None::<RecordID>,
        );
        proof {
            assert(new_page.slots@ =~= empty);
            crate::slotted_page::lemma_page_bytes_len(page_id.0, empty);
        }
        let serialized = new_page.serialize();
        if serialized.len() > self.page_size {
            return Err(BuzzDBError::PageSizeExceeded(serialized.len(), self.page_size));
        }

        let offset = (page_id.0 as usize) * self.page_size;
        match self.file.write_block(serialized.as_slice(), offset) {
            Ok(u) => {},
            Err(e) => {
                assert(false);
                return Err(e);
            },
        }
        proof {
            let enc = page_bytes(page_id.0, empty);
            let tail = self.file.data@.skip(offset + enc.len());
            assert(self.file.data@.skip(offset as int) =~= enc + tail);
            crate::slotted_page::lemma_page_round_trip(page_id.0, empty, tail);
        }

        match self.cache_page(page_id, new_page, txn_id) {
            Ok(u) => {},
            Err(e) => {
                return Err(e);
            },
        }
        Ok(page_id)
    }
}


/// Whether some cache entry keyed `x` is owned by `txn`.
pub open spec fn owned_key_of(pages: Seq<(PageID, PageInfo)>, x: PageID, txn: TransactionID) -> bool {
    exists|k: int|
        0 <= k < pages.len() && (#[trigger] pages[k]).0 == x && pages[k].1.modifying_txn == Some(
            txn,
        )
}

/// The bytes a stored page occupies, clipped to the end of the file: at
/// most `page_size` bytes starting at `pid * page_size`.
pub open spec fn disk_chunk(file: Seq<u8>, pid: PageID, page_size: nat) -> Seq<u8> {
    let off = pid.0 * page_size;
    let amount = if off + page_size <= file.len() {
        page_size as int
    } else {
        file.len() - off
    };
    file.subrange(off as int, off + amount)
}

/// Whether the stored bytes of page `pid` can be read back: its slot
/// starts before the end of the file and the stored bytes decode to a
/// page.
pub open spec fn page_readable(file: Seq<u8>, pid: PageID, page_size: nat) -> bool {
    &&& pid.0 * page_size < file.len()
    &&& parse_page(disk_chunk(file, pid, page_size)) is Some
}

/// The error a cache miss of `pid` runs into, if any: `BufferFull` when
/// the cache is at capacity and holds no clean, unowned page;
/// `PageNotFound` when the page's slot starts at or past the end of the
/// file; `DeserializationError` when the stored bytes do not decode.
pub open spec fn miss_load_error(h: HeapSegment, pid: PageID) -> Option<BuzzDBError> {
    if h.pages@.len() >= h.max_pages_in_memory && !(exists|k: int|
        0 <= k < h.pages@.len() && entry_evictable(#[trigger] h.pages@[k])) {
        Some(BuzzDBError::BufferFull)
    } else if pid.0 * h.page_size >= h.file.data@.len() {
        Some(BuzzDBError::PageNotFound(pid.0))
    } else if parse_page(disk_chunk(h.file.data@, pid, h.page_size as nat)) is None {
        Some(BuzzDBError::DeserializationError)
    } else {
        None
    }
}

impl HeapSegment {
    /// Loads `pid` from disk into the cache (clean and unowned) when it is
    /// not resident, evicting first when the cache is at capacity.
    fn ensure_page_loaded(&mut self, pid: PageID) -> (r: Result<(), BuzzDBError>)
        requires
            old(self).wf(),
            pid.0 <= usize::MAX,
            pid.0 * old(self).page_size + old(self).page_size <= usize::MAX,
        ensures
            final(self).wf(),
            final(self).file.mode == old(self).file.mode,
            final(self).file.data@ == old(self).file.data@,
            final(self).page_size == old(self).page_size,
            final(self).num_slots_per_page == old(self).num_slots_per_page,
            final(self).max_pages_in_memory == old(self).max_pages_in_memory,
            final(self).next_page_id == old(self).next_page_id,
            final(self).dirty_pages == old(self).dirty_pages,
            cache_has(old(self).pages@, pid) ==> *final(self) == *old(self) && r is Ok,
            !cache_has(old(self).pages@, pid) ==> {
                let full = old(self).pages@.len() >= old(self).max_pages_in_memory && !(
                exists|k: int|
                    0 <= k < old(self).pages@.len() && entry_evictable(
                        #[trigger] old(self).pages@[k],
                    ));
                let off = pid.0 * old(self).page_size;
                if full {
                    &&& (r matches Err(e) && e matches BuzzDBError::BufferFull)
                    &&& final(self).pages == old(self).pages
                } else if off >= old(self).file.data@.len() {
                    (r matches Err(e) && e matches BuzzDBError::PageNotFound(p) && p == pid.0)
                } else {
                    match parse_page(
                        disk_chunk(old(self).file.data@, pid, old(self).page_size as nat),
                    ) {
                        Option::None => (r matches Err(e)
                            && e matches BuzzDBError::DeserializationError),
                        Option::Some(pv) => {
                            &&& r is Ok
                            &&& final(self).pages@.len() >= 1
                            &&& ({
                                let e = final(self).pages@.last();
                                &&& e.0 == pid
                                &&& e.1.page.page_id.0 == pv.0
                                &&& e.1.page.slots@ == pv.1
                                &&& !e.1.is_dirty
                                &&& e.1.modifying_txn is None
                            })
                            &&& (old(self).pages@.len() < old(self).max_pages_in_memory ==> final(self).pages@.drop_last() == old(self).pages@)
                            &&& final(self).pages@.len() <= old(self).pages@.len() + 1
                        },
                    }
                }
            },
    {
        match self.find_cached(pid) {
            Some(i) => {
                return Ok(());
            },
            None => {},
        }
        if self.pages.len() >= self.max_pages_in_memory {
            match self.evict_page() {
                Ok(u) => {},
                Err(e) => {
                    return Err(e);
                },
            }
        }
        let ghost mid = *self;
        let page = match self.read_page_from_disk(pid) {
            Ok(p) => p,
            Err(e) => {
                return Err(e);
            },
        };
        let info = PageInfo { page, is_dirty: false, modifying_txn: None };
        self.pages.push((pid, info));
        self.page_access_order.push(pid);
        proof {
            assert(!cache_has(mid.pages@, pid)) by {
                if cache_has(mid.pages@, pid) {
                    let c = choose|c: int|
                        0 <= c < mid.pages@.len() && (#[trigger] mid.pages@[c]).0 == pid;
                    if mid.pages@.len() == old(self).pages@.len() {
                    } else {
                        assert(cache_has(old(self).pages@, pid) || !cache_has(
                            old(self).pages@,
                            pid,
                        ));
                    }
                    assert(false);
                }
            }
            assert(!mid.page_access_order@.contains(pid)) by {
                if mid.page_access_order@.contains(pid) {
                    let c = choose|c: int|
                        0 <= c < mid.page_access_order@.len()
                            && #[trigger] mid.page_access_order@[c] == pid;
                    assert(cache_has(mid.pages@, pid));
                }
            }
            lemma_page_set_insert(mid.page_access_order@, self.page_access_order@, pid);
            let pre = mid.pages@;
            assert(self.pages@ =~= pre.push((pid, info)));
            assert forall|a: int, b: int|
                0 <= a < b < self.pages@.len() implies (#[trigger] self.pages@[a]).0 != (
            #[trigger] self.pages@[b]).0 by {
                if b < self.pages@.len() - 1 {
                    assert(self.pages@[a] == pre[a] && self.pages@[b] == pre[b]);
                } else {
                    assert(self.pages@[a] == pre[a]);
                    assert(!cache_has(pre, pid));
                }
            }
            assert forall|k: int|
                0 <= k < self.page_access_order@.len() implies cache_has(
                self.pages@,
                #[trigger] self.page_access_order@[k],
            ) by {
                if self.page_access_order@[k] == pid {
                    assert(self.pages@[self.pages@.len() - 1].0 == pid);
                } else {
                    assert(mid.page_access_order@.contains(self.page_access_order@[k]));
                    let c = choose|c: int|
                        0 <= c < pre.len() && (#[trigger] pre[c]).0
                            == self.page_access_order@[k];
                    assert(self.pages@[c].0 == self.page_access_order@[k]);
                }
            }
            assert forall|k: int|
                0 <= k < self.pages@.len() implies self.page_access_order@.contains(
                (#[trigger] self.pages@[k]).0,
            ) by {
                if k < self.pages@.len() - 1 {
                    assert(self.pages@[k] == pre[k]);
                    assert(mid.page_access_order@.contains(pre[k].0));
                }
            }
            assert forall|k: int| 0 <= k < self.dirty_pages@.len() implies cache_has(
                self.pages@,
                #[trigger] self.dirty_pages@[k],
            ) by {
                assert(mid.dirty_pages@.contains(self.dirty_pages@[k]));
                let c = choose|c: int|
                    0 <= c < pre.len() && (#[trigger] pre[c]).0 == self.dirty_pages@[k];
                assert(self.pages@[c].0 == self.dirty_pages@[k]);
            }
            assert forall|k: int|
                0 <= k < self.pages@.len() implies ((#[trigger] self.pages@[k]).1.is_dirty
                <==> self.dirty_pages@.contains(self.pages@[k].0)) by {
                if k < self.pages@.len() - 1 {
                    assert(self.pages@[k] == pre[k]);
                } else {
                    assert(!self.dirty_pages@.contains(pid)) by {
                        if self.dirty_pages@.contains(pid) {
                            assert(cache_has(pre, pid));
                        }
                    }
                }
            }
            assert(self.pages@[self.pages@.len() - 1] == (pid, info));
        }
        Ok(())
    }

    /// A read view of page `pid`, loading it from disk when absent. The
    /// page moves to the most-recently-used end of the access queue.
    pub fn get_page(&mut self, page_id: PageID) -> (r: Result<&SlottedPage, BuzzDBError>)
        requires
            old(self).wf(),
            page_id.0 <= usize::MAX,
            page_id.0 * old(self).page_size + old(self).page_size <= usize::MAX,
        ensures
            final(self).wf(),
            final(self).file.mode == old(self).file.mode,
            final(self).file.data@ == old(self).file.data@,
            final(self).page_size == old(self).page_size,
            final(self).num_slots_per_page == old(self).num_slots_per_page,
            final(self).max_pages_in_memory == old(self).max_pages_in_memory,
            final(self).next_page_id == old(self).next_page_id,
            final(self).dirty_pages == old(self).dirty_pages,
            r matches Ok(p) ==> exists|k: int|
                {
                    &&& 0 <= k < final(self).pages@.len()
                    &&& (#[trigger] final(self).pages@[k]).0 == page_id
                    &&& *p == final(self).pages@[k].1.page
                },
            cache_has(old(self).pages@, page_id) ==> (r matches Ok(p) && exists|j: int|
                {
                    &&& 0 <= j < old(self).pages@.len()
                    &&& (#[trigger] old(self).pages@[j]).0 == page_id
                    &&& *p == old(self).pages@[j].1.page
                }),
            !cache_has(old(self).pages@, page_id) ==> (match miss_load_error(
                *old(self),
                page_id,
            ) {
                Option::Some(err) => (r matches Err(e) && e == err),
                Option::None => (r matches Ok(p) && parse_page(
                    disk_chunk(old(self).file.data@, page_id, old(self).page_size as nat),
                ) matches Some(pv) && p.page_id.0 == pv.0 && p.slots@ == pv.1),
            }),
    {
        match self.ensure_page_loaded(page_id) {
            Ok(u) => {},
            Err(e) => {
                return Err(e);
            },
        }
        self.update_page_access(page_id);
        match self.find_cached(page_id) {
            Some(i) => Ok(&self.pages[i].1.page),
            None => {
                proof {
                    assert(cache_has(self.pages@, page_id));
                    assert(false);
                }
                Err(BuzzDBError::PageNotFound(page_id.0))
            },
        }
    }
}


impl HeapSegment {
    /// Takes the write view of page `pid` for `txn_id`, loading the page
    /// from disk when absent: the page is marked dirty and owned by
    /// `txn_id` and moves to the most-recently-used end of the queue.
    /// Fails with `Other`, changing nothing, when another transaction is
    /// modifying the page.
    pub fn get_page_mut(&mut self, page_id: PageID, txn_id: TransactionID) -> (r: Result<
        (),
        BuzzDBError,
    >)
        requires
            old(self).wf(),
            page_id.0 <= usize::MAX,
            page_id.0 * old(self).page_size + old(self).page_size <= usize::MAX,
        ensures
            final(self).wf(),
            final(self).file.mode == old(self).file.mode,
            final(self).file.data@ == old(self).file.data@,
            final(self).page_size == old(self).page_size,
            final(self).num_slots_per_page == old(self).num_slots_per_page,
            final(self).max_pages_in_memory == old(self).max_pages_in_memory,
            final(self).next_page_id == old(self).next_page_id,
            r is Ok ==> exists|k: int|
                {
                    &&& 0 <= k < final(self).pages@.len()
                    &&& (#[trigger] final(self).pages@[k]).0 == page_id
                    &&& final(self).pages@[k].1.is_dirty
                    &&& final(self).pages@[k].1.modifying_txn == Some(txn_id)
                },
            cache_has(old(self).pages@, page_id) ==> exists|j: int|
                {
                    &&& 0 <= j < old(self).pages@.len()
                    &&& (#[trigger] old(self).pages@[j]).0 == page_id
                    &&& (if old(self).pages@[j].1.modifying_txn matches Some(t) && t != txn_id {
                        (r matches Err(e) && e matches BuzzDBError::Other(_)) && final(self).pages
                            == old(self).pages && final(self).dirty_pages == old(self).dirty_pages
                    } else {
                        r is Ok && exists|k: int|
                            {
                                &&& 0 <= k < final(self).pages@.len()
                                &&& (#[trigger] final(self).pages@[k]).0 == page_id
                                &&& final(self).pages@[k].1.page == old(self).pages@[j].1.page
                            }
                    })
                },
            !cache_has(old(self).pages@, page_id) ==> (match miss_load_error(
                *old(self),
                page_id,
            ) {
                Option::Some(err) => (r matches Err(e) && e == err),
                Option::None => ({
                    &&& r is Ok
                    &&& (parse_page(
                        disk_chunk(old(self).file.data@, page_id, old(self).page_size as nat),
                    ) matches Some(pv) && exists|k: int|
                        {
                            &&& 0 <= k < final(self).pages@.len()
                            &&& (#[trigger] final(self).pages@[k]).0 == page_id
                            &&& final(self).pages@[k].1.page.page_id.0 == pv.0
                            &&& final(self).pages@[k].1.page.slots@ == pv.1
                        })
                }),
            }),
    {
        match self.ensure_page_loaded(page_id) {
            Ok(u) => {},
            Err(e) => {
                return Err(e);
            },
        }
        let i = match self.find_cached(page_id) {
            Some(i) => i,
            None => {
                proof {
                    assert(cache_has(self.pages@, page_id));
                    assert(false);
                }
                return Err(BuzzDBError::PageNotFound(page_id.0));
            },
        };
        let owner = self.pages[i].1.modifying_txn;
        let conflicted = match owner {
            Some(t) => t != txn_id,
            None => false,
        };
        if conflicted {
            proof {
                if cache_has(old(self).pages@, page_id) {
                    let j = choose|j: int|
                        0 <= j < old(self).pages@.len() && (#[trigger] old(self).pages@[j]).0
                            == page_id;
                    assert(*self == *old(self));
                    assert(j == i);
                }
            }
            let mut msg = String::from_str("Page ");
            let page_digits = u64_to_dec_string(page_id.0);
            msg.append(page_digits.as_str());
            msg.append(" is being modified by transaction ");
            let holder = match owner {
                Some(t) => t.0,
                None => 0,
            };
            let holder_digits = u64_to_dec_string(holder);
            msg.append(holder_digits.as_str());
            return Err(BuzzDBError::Other(msg));
        }
        self.update_page_access(page_id);
        self.mark_page_dirty(page_id, txn_id);
        Ok(())
    }

    /// Replaces slot contents on the cache entry at `k` by running the
    /// smallest-empty-slot allocation on its page.
    fn allocate_slot_at(&mut self, k: usize, record_id: RecordID) -> (r: Option<usize>)
        requires
            old(self).wf(),
            k < old(self).pages@.len(),
        ensures
            final(self).wf(),
            final(self).file == old(self).file,
            final(self).page_size == old(self).page_size,
            final(self).num_slots_per_page == old(self).num_slots_per_page,
            final(self).max_pages_in_memory == old(self).max_pages_in_memory,
            final(self).next_page_id == old(self).next_page_id,
            final(self).page_access_order == old(self).page_access_order,
            final(self).dirty_pages == old(self).dirty_pages,
            final(self).pages@.len() == old(self).pages@.len(),
            forall|l: int|
                0 <= l < old(self).pages@.len() && l != k ==> final(self).pages@[l] == old(self).pages@[l],
            final(self).pages@[k as int].0 == old(self).pages@[k as int].0,
            final(self).pages@[k as int].1.is_dirty == old(self).pages@[k as int].1.is_dirty,
            final(self).pages@[k as int].1.modifying_txn == old(self).pages@[k as int].1.modifying_txn,
            final(self).pages@[k as int].1.page.page_id == old(self).pages@[k as int].1.page.page_id,
            ({
                let slots0 = old(self).pages@[k as int].1.page.slots@;
                let slots1 = final(self).pages@[k as int].1.page.slots@;
                &&& (r is Some) <==> (exists|l: int| 0 <= l < slots0.len() && slots0[l] is None)
                &&& (r matches Some(slot) ==> {
                    &&& 0 <= slot < slots0.len()
                    &&& slots0[slot as int] is None
                    &&& (forall|l: int| 0 <= l < slot ==> slots0[l] is Some)
                    &&& slots1 == slots0.update(slot as int, Some(record_id))
                })
                &&& (r is None ==> slots1 == slots0)
            }),
    {
        let ghost pre = self.pages@;
        let entry = vec_index_mut(&mut self.pages, k);
        let r = entry.1.page.allocate_slot(record_id);
        proof {
            assert forall|l: int| 0 <= l < self.pages@.len() implies (
            #[trigger] self.pages@[l]).0 == pre[l].0 by {}
            assert forall|l: int|
                0 <= l < self.page_access_order@.len() implies cache_has(
                self.pages@,
                #[trigger] self.page_access_order@[l],
            ) by {
                let c = choose|c: int|
                    0 <= c < pre.len() && (#[trigger] pre[c]).0 == self.page_access_order@[l];
                assert(self.pages@[c].0 == self.page_access_order@[l]);
            }
            assert forall|l: int|
                0 <= l < self.pages@.len() implies self.page_access_order@.contains(
                (#[trigger] self.pages@[l]).0,
            ) by {
                assert(self.pages@[l].0 == pre[l].0);
            }
            assert forall|l: int| 0 <= l < self.dirty_pages@.len() implies cache_has(
                self.pages@,
                #[trigger] self.dirty_pages@[l],
            ) by {
                let c = choose|c: int|
                    0 <= c < pre.len() && (#[trigger] pre[c]).0 == self.dirty_pages@[l];
                assert(self.pages@[c].0 == self.dirty_pages@[l]);
            }
            assert forall|l: int|
                0 <= l < self.pages@.len() implies ((#[trigger] self.pages@[l]).1.is_dirty
                <==> self.dirty_pages@.contains(self.pages@[l].0)) by {
                assert(self.pages@[l].0 == pre[l].0);
                assert(self.pages@[l].1.is_dirty == pre[l].1.is_dirty);
            }
        }
        r
    }

    /// Empties one slot on the cache entry at `k`.
    fn deallocate_slot_at(&mut self, k: usize, slot_index: usize) -> (r: Result<(), BuzzDBError>)
        requires
            old(self).wf(),
            k < old(self).pages@.len(),
        ensures
            final(self).wf(),
            final(self).file == old(self).file,
            final(self).page_size == old(self).page_size,
            final(self).num_slots_per_page == old(self).num_slots_per_page,
            final(self).max_pages_in_memory == old(self).max_pages_in_memory,
            final(self).next_page_id == old(self).next_page_id,
            final(self).page_access_order == old(self).page_access_order,
            final(self).dirty_pages == old(self).dirty_pages,
            final(self).pages@.len() == old(self).pages@.len(),
            forall|l: int|
                0 <= l < old(self).pages@.len() && l != k ==> final(self).pages@[l] == old(self).pages@[l],
            final(self).pages@[k as int].0 == old(self).pages@[k as int].0,
            final(self).pages@[k as int].1.is_dirty == old(self).pages@[k as int].1.is_dirty,
            final(self).pages@[k as int].1.modifying_txn == old(self).pages@[k as int].1.modifying_txn,
            ({
                let slots0 = old(self).pages@[k as int].1.page.slots@;
                let slots1 = final(self).pages@[k as int].1.page.slots@;
                if slot_index >= slots0.len() {
                    (r matches Err(e) && e matches BuzzDBError::InvalidSlotIndex(q) && q
                        == slot_index) && slots1 == slots0
                } else {
                    r is Ok && slots1 == slots0.update(slot_index as int, None::<RecordID>)
                }
            }),
    {
        let ghost pre = self.pages@;
        let entry = vec_index_mut(&mut self.pages, k);
        let r = entry.1.page.deallocate_slot(slot_index);
        proof {
            assert forall|l: int| 0 <= l < self.pages@.len() implies (
            #[trigger] self.pages@[l]).0 == pre[l].0 by {}
            assert forall|l: int|
                0 <= l < self.page_access_order@.len() implies cache_has(
                self.pages@,
                #[trigger] self.page_access_order@[l],
            ) by {
                let c = choose|c: int|
                    0 <= c < pre.len() && (#[trigger] pre[c]).0 == self.page_access_order@[l];
                assert(self.pages@[c].0 == self.page_access_order@[l]);
            }
            assert forall|l: int|
                0 <= l < self.pages@.len() implies self.page_access_order@.contains(
                (#[trigger] self.pages@[l]).0,
            ) by {
                assert(self.pages@[l].0 == pre[l].0);
            }
            assert forall|l: int| 0 <= l < self.dirty_pages@.len() implies cache_has(
                self.pages@,
                #[trigger] self.dirty_pages@[l],
            ) by {
                let c = choose|c: int|
                    0 <= c < pre.len() && (#[trigger] pre[c]).0 == self.dirty_pages@[l];
                assert(self.pages@[c].0 == self.dirty_pages@[l]);
            }
            assert forall|l: int|
                0 <= l < self.pages@.len() implies ((#[trigger] self.pages@[l]).1.is_dirty
                <==> self.dirty_pages@.contains(self.pages@[l].0)) by {
                assert(self.pages@[l].0 == pre[l].0);
                assert(self.pages@[l].1.is_dirty == pre[l].1.is_dirty);
            }
        }
        r
    }

    /// Writes `record_id` into the smallest empty slot of page `page_id`
    /// under `txn_id` and returns the slot index; fails with `PageFull`
    /// when every slot is occupied (the page still becomes dirty and
    /// owned, as taking the write view precedes the slot search).
    pub fn insert_record(
        &mut self,
        page_id: PageID,
        record_id: RecordID,
        txn_id: TransactionID,
    ) -> (r: Result<usize, BuzzDBError>)
        requires
            old(self).wf(),
            page_id.0 <= usize::MAX,
            page_id.0 * old(self).page_size + old(self).page_size <= usize::MAX,
        ensures
            final(self).wf(),
            final(self).file.mode == old(self).file.mode,
            final(self).file.data@ == old(self).file.data@,
            final(self).page_size == old(self).page_size,
            final(self).num_slots_per_page == old(self).num_slots_per_page,
            final(self).max_pages_in_memory == old(self).max_pages_in_memory,
            final(self).next_page_id == old(self).next_page_id,
            r matches Ok(slot) ==> exists|k: int|
                {
                    &&& 0 <= k < final(self).pages@.len()
                    &&& (#[trigger] final(self).pages@[k]).0 == page_id
                    &&& slot < final(self).pages@[k].1.page.slots@.len()
                    &&& final(self).pages@[k].1.page.slots@[slot as int] == Some(record_id)
                    &&& final(self).pages@[k].1.is_dirty
                    &&& final(self).pages@[k].1.modifying_txn == Some(txn_id)
                },
            cache_has(old(self).pages@, page_id) ==> exists|j: int|
                {
                    &&& 0 <= j < old(self).pages@.len()
                    &&& (#[trigger] old(self).pages@[j]).0 == page_id
                    &&& (if old(self).pages@[j].1.modifying_txn matches Some(t) && t != txn_id {
                        (r matches Err(e) && e matches BuzzDBError::Other(_))
                    } else {
                        let slots0 = old(self).pages@[j].1.page.slots@;
                        if exists|l: int| 0 <= l < slots0.len() && slots0[l] is None {
                            r matches Ok(slot) && 0 <= slot < slots0.len()
                                && slots0[slot as int] is None && (forall|l: int|
                                0 <= l < slot ==> slots0[l] is Some)
                                && exists|k: int|
                                {
                                    &&& 0 <= k < final(self).pages@.len()
                                    &&& (#[trigger] final(self).pages@[k]).0 == page_id
                                    &&& final(self).pages@[k].1.page.slots@ == slots0.update(
                                        slot as int,
                                        Some(record_id),
                                    )
                                }
                        } else {
                            (r matches Err(e) && e matches BuzzDBError::PageFull(q) && q
                                == page_id.0)
                        }
                    })
                },
            !cache_has(old(self).pages@, page_id) ==> (match miss_load_error(
                *old(self),
                page_id,
            ) {
                Option::Some(err) => (r matches Err(e) && e == err),
                Option::None => (parse_page(
                    disk_chunk(old(self).file.data@, page_id, old(self).page_size as nat),
                ) matches Some(pv) && ({
                    if exists|l: int| 0 <= l < pv.1.len() && pv.1[l] is None {
                        r matches Ok(slot) && 0 <= slot < pv.1.len()
                            && pv.1[slot as int] is None && (forall|l: int|
                            0 <= l < slot ==> pv.1[l] is Some) && exists|k2: int|
                            {
                                &&& 0 <= k2 < final(self).pages@.len()
                                &&& (#[trigger] final(self).pages@[k2]).0 == page_id
                                &&& final(self).pages@[k2].1.page.slots@ == pv.1.update(
                                    slot as int,
                                    Some(record_id),
                                )
                                &&& final(self).pages@[k2].1.is_dirty
                                &&& final(self).pages@[k2].1.modifying_txn == Some(txn_id)
                            }
                    } else {
                        (r matches Err(e) && e matches BuzzDBError::PageFull(q) && q
                            == page_id.0)
                    }
                })),
            }),
    {
        match self.get_page_mut(page_id, txn_id) {
            Ok(u) => {},
            Err(e) => {
                return Err(e);
            },
        }
        let k = match self.find_cached(page_id) {
            Some(k) => k,
            None => {
                proof {
                    assert(false);
                }
                return Err(BuzzDBError::PageNotFound(page_id.0));
            },
        };
        match self.allocate_slot_at(k, record_id) {
            Some(slot_index) => Ok(slot_index),
            None => Err(BuzzDBError::PageFull(page_id.0)),
        }
    }

    /// Empties slot `slot_index` of page `page_id` under `txn_id`; fails
    /// with `InvalidSlotIndex` when the index is at or past the page's
    /// slot count.
    pub fn delete_record(
        &mut self,
        page_id: PageID,
        slot_index: usize,
        txn_id: TransactionID,
    ) -> (r: Result<(), BuzzDBError>)
        requires
            old(self).wf(),
            page_id.0 <= usize::MAX,
            page_id.0 * old(self).page_size + old(self).page_size <= usize::MAX,
        ensures
            final(self).wf(),
            final(self).file.mode == old(self).file.mode,
            final(self).file.data@ == old(self).file.data@,
            final(self).page_size == old(self).page_size,
            final(self).num_slots_per_page == old(self).num_slots_per_page,
            final(self).max_pages_in_memory == old(self).max_pages_in_memory,
            final(self).next_page_id == old(self).next_page_id,
            cache_has(old(self).pages@, page_id) ==> exists|j: int|
                {
                    &&& 0 <= j < old(self).pages@.len()
                    &&& (#[trigger] old(self).pages@[j]).0 == page_id
                    &&& (if old(self).pages@[j].1.modifying_txn matches Some(t) && t != txn_id {
                        (r matches Err(e) && e matches BuzzDBError::Other(_))
                    } else {
                        let slots0 = old(self).pages@[j].1.page.slots@;
                        if slot_index >= slots0.len() {
                            (r matches Err(e) && e matches BuzzDBError::InvalidSlotIndex(q) && q
                                == slot_index)
                        } else {
                            r is Ok && exists|k: int|
                                {
                                    &&& 0 <= k < final(self).pages@.len()
                                    &&& (#[trigger] final(self).pages@[k]).0 == page_id
                                    &&& final(self).pages@[k].1.page.slots@ == slots0.update(
                                        slot_index as int,
                                        None::<RecordID>,
                                    )
                                    &&& final(self).pages@[k].1.is_dirty
                                    &&& final(self).pages@[k].1.modifying_txn == Some(txn_id)
                                }
                        }
                    })
                },
            !cache_has(old(self).pages@, page_id) ==> (match miss_load_error(
                *old(self),
                page_id,
            ) {
                Option::Some(err) => (r matches Err(e) && e == err),
                Option::None => (parse_page(
                    disk_chunk(old(self).file.data@, page_id, old(self).page_size as nat),
                ) matches Some(pv) && ({
                    if slot_index >= pv.1.len() {
                        (r matches Err(e) && e matches BuzzDBError::InvalidSlotIndex(q) && q
                            == slot_index)
                    } else {
                        r is Ok && exists|k2: int|
                            {
                                &&& 0 <= k2 < final(self).pages@.len()
                                &&& (#[trigger] final(self).pages@[k2]).0 == page_id
                                &&& final(self).pages@[k2].1.page.slots@ == pv.1.update(
                                    slot_index as int,
                                    None::<RecordID>,
                                )
                                &&& final(self).pages@[k2].1.is_dirty
                                &&& final(self).pages@[k2].1.modifying_txn == Some(txn_id)
                            }
                    }
                })),
            }),
    {
        match self.get_page_mut(page_id, txn_id) {
            Ok(u) => {},
            Err(e) => {
                return Err(e);
            },
        }
        let k = match self.find_cached(page_id) {
            Some(k) => k,
            None => {
                proof {
                    assert(false);
                }
                return Err(BuzzDBError::PageNotFound(page_id.0));
            },
        };
        self.deallocate_slot_at(k, slot_index)
    }

    /// The record id at slot `slot_index` of page `page_id`; fails with
    /// `InvalidSlotIndex` when out of range and `EmptySlot` when the slot
    /// holds nothing.
    pub fn get_record(&mut self, page_id: PageID, slot_index: usize) -> (r: Result<
        RecordID,
        BuzzDBError,
    >)
        requires
            old(self).wf(),
            page_id.0 <= usize::MAX,
            page_id.0 * old(self).page_size + old(self).page_size <= usize::MAX,
        ensures
            final(self).wf(),
            final(self).file.mode == old(self).file.mode,
            final(self).file.data@ == old(self).file.data@,
            final(self).page_size == old(self).page_size,
            final(self).num_slots_per_page == old(self).num_slots_per_page,
            final(self).max_pages_in_memory == old(self).max_pages_in_memory,
            final(self).next_page_id == old(self).next_page_id,
            final(self).dirty_pages == old(self).dirty_pages,
            cache_has(old(self).pages@, page_id) ==> exists|j: int|
                {
                    &&& 0 <= j < old(self).pages@.len()
                    &&& (#[trigger] old(self).pages@[j]).0 == page_id
                    &&& {
                        let slots0 = old(self).pages@[j].1.page.slots@;
                        if slot_index >= slots0.len() {
                            (r matches Err(e) && e matches BuzzDBError::InvalidSlotIndex(q) && q
                                == slot_index)
                        } else if slots0[slot_index as int] is None {
                            (r matches Err(e) && e matches BuzzDBError::EmptySlot(q) && q
                                == slot_index)
                        } else {
                            (r matches Ok(rid) && Some(rid) == slots0[slot_index as int])
                        }
                    }
                },
            !cache_has(old(self).pages@, page_id) ==> (match miss_load_error(
                *old(self),
                page_id,
            ) {
                Option::Some(err) => (r matches Err(e) && e == err),
                Option::None => (parse_page(
                    disk_chunk(old(self).file.data@, page_id, old(self).page_size as nat),
                ) matches Some(pv) && ({
                    if slot_index >= pv.1.len() {
                        (r matches Err(e) && e matches BuzzDBError::InvalidSlotIndex(q) && q
                            == slot_index)
                    } else if pv.1[slot_index as int] is None {
                        (r matches Err(e) && e matches BuzzDBError::EmptySlot(q) && q
                            == slot_index)
                    } else {
                        (r matches Ok(rid) && Some(rid) == pv.1[slot_index as int])
                    }
                })),
            }),
    {
        let page = match self.get_page(page_id) {
            Ok(p) => p,
            Err(e) => {
                return Err(e);
            },
        };
        page.get_record_id(slot_index)
    }
}


/// The file after writing one cache entry's page at its slot.
pub open spec fn entry_written_file(file: Seq<u8>, e: (PageID, PageInfo), page_size: nat) -> Seq<
    u8,
> {
    crate::byte_ops::write_block_bytes(
        file,
        page_bytes(e.1.page.page_id.0, e.1.page.slots@),
        (e.0.0 * page_size) as int,
    )
}

/// Whether the encoding of an entry's page fits in one page slot.
pub open spec fn entry_fits(e: (PageID, PageInfo), page_size: nat) -> bool {
    16 + 9 * e.1.page.slots@.len() <= page_size
}

/// The file after committing: every entry owned by `txn` is serialized and
/// written at its slot, in cache order.
pub open spec fn commit_file_bytes(
    file: Seq<u8>,
    entries: Seq<(PageID, PageInfo)>,
    page_size: nat,
    txn: TransactionID,
) -> Seq<u8>
    decreases entries.len(),
{
    if entries.len() == 0 {
        file
    } else {
        let f2 = if entries[0].1.modifying_txn == Some(txn) {
            entry_written_file(file, entries[0], page_size)
        } else {
            file
        };
        commit_file_bytes(f2, entries.drop_first(), page_size, txn)
    }
}

/// The file after a flush: every dirty entry is serialized and written at
/// its slot, in cache order.
pub open spec fn flush_file_bytes(
    file: Seq<u8>,
    entries: Seq<(PageID, PageInfo)>,
    page_size: nat,
) -> Seq<u8>
    decreases entries.len(),
{
    if entries.len() == 0 {
        file
    } else {
        let f2 = if entries[0].1.is_dirty {
            entry_written_file(file, entries[0], page_size)
        } else {
            file
        };
        flush_file_bytes(f2, entries.drop_first(), page_size)
    }
}

/// A trailing entry factors out of the commit fold.
proof fn lemma_commit_file_bytes_push(
    file: Seq<u8>,
    entries: Seq<(PageID, PageInfo)>,
    e: (PageID, PageInfo),
    page_size: nat,
    txn: TransactionID,
)
    ensures
        commit_file_bytes(file, entries.push(e), page_size, txn) == ({
            let f1 = commit_file_bytes(file, entries, page_size, txn);
            if e.1.modifying_txn == Some(txn) {
                entry_written_file(f1, e, page_size)
            } else {
                f1
            }
        }),
    decreases entries.len(),
{
    if entries.len() == 0 {
        assert(entries.push(e)[0] == e);
        assert(entries.push(e).drop_first() =~= Seq::<(PageID, PageInfo)>::empty());
        let fe = if e.1.modifying_txn == Some(txn) {
            entry_written_file(file, e, page_size)
        } else {
            file
        };
        assert(commit_file_bytes(fe, Seq::<(PageID, PageInfo)>::empty(), page_size, txn) == fe);
        assert(commit_file_bytes(file, Seq::<(PageID, PageInfo)>::empty(), page_size, txn)
            == file);
    } else {
        assert(entries.push(e)[0] == entries[0]);
        assert(entries.push(e).drop_first() =~= entries.drop_first().push(e));
        let f2 = if entries[0].1.modifying_txn == Some(txn) {
            entry_written_file(file, entries[0], page_size)
        } else {
            file
        };
        lemma_commit_file_bytes_push(f2, entries.drop_first(), e, page_size, txn);
        assert(commit_file_bytes(file, entries.push(e), page_size, txn) == commit_file_bytes(
            f2,
            entries.push(e).drop_first(),
            page_size,
            txn,
        ));
        assert(commit_file_bytes(file, entries, page_size, txn) == commit_file_bytes(
            f2,
            entries.drop_first(),
            page_size,
            txn,
        ));
    }
}

/// A trailing entry factors out of the flush fold.
proof fn lemma_flush_file_bytes_push(
    file: Seq<u8>,
    entries: Seq<(PageID, PageInfo)>,
    e: (PageID, PageInfo),
    page_size: nat,
)
    ensures
        flush_file_bytes(file, entries.push(e), page_size) == ({
            let f1 = flush_file_bytes(file, entries, page_size);
            if e.1.is_dirty {
                entry_written_file(f1, e, page_size)
            } else {
                f1
            }
        }),
    decreases entries.len(),
{
    if entries.len() == 0 {
        assert(entries.push(e)[0] == e);
        assert(entries.push(e).drop_first() =~= Seq::<(PageID, PageInfo)>::empty());
        let fe = if e.1.is_dirty {
            entry_written_file(file, e, page_size)
        } else {
            file
        };
        assert(flush_file_bytes(fe, Seq::<(PageID, PageInfo)>::empty(), page_size) == fe);
        assert(flush_file_bytes(file, Seq::<(PageID, PageInfo)>::empty(), page_size) == file);
    } else {
        assert(entries.push(e)[0] == entries[0]);
        assert(entries.push(e).drop_first() =~= entries.drop_first().push(e));
        let f2 = if entries[0].1.is_dirty {
            entry_written_file(file, entries[0], page_size)
        } else {
            file
        };
        lemma_flush_file_bytes_push(f2, entries.drop_first(), e, page_size);
        assert(flush_file_bytes(file, entries.push(e), page_size) == flush_file_bytes(
            f2,
            entries.push(e).drop_first(),
            page_size,
        ));
        assert(flush_file_bytes(file, entries, page_size) == flush_file_bytes(
            f2,
            entries.drop_first(),
            page_size,
        ));
    }
}


/// Removes `p` from a duplicate-free page-id vector, if present.
fn page_list_remove(v: &mut Vec<PageID>, p: PageID)
    requires
        forall|i: int, j: int| 0 <= i < j < old(v)@.len() ==> old(v)@[i] != old(v)@[j],
    ensures
        forall|i: int, j: int| 0 <= i < j < final(v)@.len() ==> final(v)@[i] != final(v)@[j],
        forall|x: PageID| final(v)@.contains(x) <==> (old(v)@.contains(x) && x != p),
{
    let n = v.len();
    let mut i: usize = 0;
    while i < n
        invariant
            i <= n,
            n == v@.len(),
            *v == *old(v),
            forall|a: int, b: int| 0 <= a < b < old(v)@.len() ==> old(v)@[a] != old(v)@[b],
            forall|j: int| 0 <= j < i ==> (#[trigger] v@[j]) != p,
        decreases n - i,
    {
        if v[i] == p {
            v.remove(i);
            proof {
                assert forall|x: PageID| v@.contains(x) implies (old(v)@.contains(x) && x
                    != p) by {
                    let c = choose|c: int| 0 <= c < v@.len() && v@[c] == x;
                    if c < i {
                        assert(old(v)@[c] == x);
                    } else {
                        assert(old(v)@[c + 1] == x);
                    }
                }
                assert forall|x: PageID| (old(v)@.contains(x) && x != p) implies v@.contains(
                    x,
                ) by {
                    let c = choose|c: int| 0 <= c < old(v)@.len() && old(v)@[c] == x;
                    if c < i {
                        assert(v@[c] == x);
                    } else {
                        assert(c != i);
                        assert(v@[c - 1] == x);
                    }
                }
                assert forall|a: int, b: int| 0 <= a < b < v@.len() implies v@[a] != v@[b] by {
                    let a0: int = if a < i {
                        a
                    } else {
                        a + 1
                    };
                    let b0: int = if b < i {
                        b
                    } else {
                        b + 1
                    };
                    assert(v@[a] == old(v)@[a0]);
                    assert(v@[b] == old(v)@[b0]);
                }
            }
            return ;
        }
        i = i + 1;
    }
    proof {
        assert forall|x: PageID| v@.contains(x) implies x != p by {
            let c = choose|c: int| 0 <= c < v@.len() && v@[c] == x;
        }
    }
}

impl HeapSegment {
    /// Marks the cache entry at `k` clean and unowned and drops its page
    /// from the dirty set.
    fn clear_entry_flags(&mut self, k: usize)
        requires
            old(self).wf(),
            k < old(self).pages@.len(),
        ensures
            final(self).wf(),
            final(self).file == old(self).file,
            final(self).page_size == old(self).page_size,
            final(self).num_slots_per_page == old(self).num_slots_per_page,
            final(self).max_pages_in_memory == old(self).max_pages_in_memory,
            final(self).next_page_id == old(self).next_page_id,
            final(self).page_access_order == old(self).page_access_order,
            final(self).pages@.len() == old(self).pages@.len(),
            forall|l: int|
                0 <= l < old(self).pages@.len() && l != k ==> final(self).pages@[l] == old(self).pages@[l],
            final(self).pages@[k as int] == (
                old(self).pages@[k as int].0,
                (PageInfo {
                    page: old(self).pages@[k as int].1.page,
                    is_dirty: false,
                    modifying_txn: None::<TransactionID>,
                }),
            ),
            forall|x: PageID|
                final(self).dirty_pages@.contains(x) <==> (old(self).dirty_pages@.contains(x)
                    && x != old(self).pages@[k as int].0),
    {
        let pid = self.pages[k].0;
        let ghost pre = self.pages@;
        let entry = vec_index_mut(&mut self.pages, k);
        entry.1.is_dirty = false;
        entry.1.modifying_txn = None;
        page_list_remove(&mut self.dirty_pages, pid);
        proof {
            assert(self.pages@ =~= pre.update(
                k as int,
                (
                    pid,
                    (PageInfo {
                        page: pre[k as int].1.page,
                        is_dirty: false,
                        modifying_txn: None::<TransactionID>,
                    }),
                ),
            ));
            assert forall|l: int| 0 <= l < self.pages@.len() implies (
            #[trigger] self.pages@[l]).0 == pre[l].0 by {}
            assert forall|l: int|
                0 <= l < self.page_access_order@.len() implies cache_has(
                self.pages@,
                #[trigger] self.page_access_order@[l],
            ) by {
                let c = choose|c: int|
                    0 <= c < pre.len() && (#[trigger] pre[c]).0 == self.page_access_order@[l];
                assert(self.pages@[c].0 == self.page_access_order@[l]);
            }
            assert forall|l: int|
                0 <= l < self.pages@.len() implies self.page_access_order@.contains(
                (#[trigger] self.pages@[l]).0,
            ) by {
                assert(self.pages@[l].0 == pre[l].0);
            }
            assert forall|l: int| 0 <= l < self.dirty_pages@.len() implies cache_has(
                self.pages@,
                #[trigger] self.dirty_pages@[l],
            ) by {
                assert(self.dirty_pages@.contains(self.dirty_pages@[l]));
                assert(old(self).dirty_pages@.contains(self.dirty_pages@[l]));
                let c = choose|c: int|
                    0 <= c < pre.len() && (#[trigger] pre[c]).0 == self.dirty_pages@[l];
                assert(self.pages@[c].0 == self.dirty_pages@[l]);
            }
            assert forall|l: int|
                0 <= l < self.pages@.len() implies ((#[trigger] self.pages@[l]).1.is_dirty
                <==> self.dirty_pages@.contains(self.pages@[l].0)) by {
                if l != k {
                    assert(self.pages@[l] == pre[l]);
                    assert(pre[l].0 != pid);
                }
            }
        }
    }

    /// Writes every page the transaction modified back to the file at its
    /// slot, clears its ownership and dirtiness, and syncs; fails with
    /// `PageSizeExceeded` when some owned page's encoding exceeds the page
    /// size.
    pub fn commit_transaction(&mut self, txn_id: TransactionID) -> (r: Result<(), BuzzDBError>)
        requires
            old(self).wf(),
            forall|k: int|
                0 <= k < old(self).pages@.len() ==> (#[trigger] old(self).pages@[k]).0.0
                    <= usize::MAX && old(self).pages@[k].0.0 * old(self).page_size + old(self).page_size <= usize::MAX,
            forall|k: int|
                0 <= k < old(self).pages@.len() ==> 16 + 9 * (#[trigger] old(self).pages@[k]).1.page.slots@.len() <= usize::MAX,
        ensures
            final(self).wf(),
            final(self).page_size == old(self).page_size,
            final(self).num_slots_per_page == old(self).num_slots_per_page,
            final(self).max_pages_in_memory == old(self).max_pages_in_memory,
            final(self).next_page_id == old(self).next_page_id,
            final(self).page_access_order == old(self).page_access_order,
            final(self).pages@.len() == old(self).pages@.len(),
            final(self).file.mode == old(self).file.mode,
            (r is Ok) <==> (forall|k: int|
                0 <= k < old(self).pages@.len() && (#[trigger] old(self).pages@[k]).1.modifying_txn == Some(txn_id) ==> entry_fits(
                    old(self).pages@[k],
                    old(self).page_size as nat,
                )),
            r matches Err(e) ==> e matches BuzzDBError::PageSizeExceeded(got, max) && max == old(self).page_size && exists|i: int|
                {
                    &&& 0 <= i < old(self).pages@.len()
                    &&& (#[trigger] old(self).pages@[i]).1.modifying_txn == Some(txn_id)
                    &&& !entry_fits(old(self).pages@[i], old(self).page_size as nat)
                    &&& got == 16 + 9 * old(self).pages@[i].1.page.slots@.len()
                    &&& final(self).file.data@ == commit_file_bytes(
                        old(self).file.data@,
                        old(self).pages@.take(i),
                        old(self).page_size as nat,
                        txn_id,
                    )
                    &&& forall|l: int| 0 <= l < i ==> entry_fits(
                        #[trigger] old(self).pages@[l],
                        old(self).page_size as nat,
                    ) || old(self).pages@[l].1.modifying_txn != Some(txn_id)
                },
            r is Ok ==> {
                &&& final(self).file.data@ == commit_file_bytes(
                    old(self).file.data@,
                    old(self).pages@,
                    old(self).page_size as nat,
                    txn_id,
                )
                &&& forall|k: int|
                    0 <= k < old(self).pages@.len() ==> final(self).pages@[k] == (if (
                    #[trigger] old(self).pages@[k]).1.modifying_txn == Some(txn_id) {
                        (
                            old(self).pages@[k].0,
                            (PageInfo {
                                page: old(self).pages@[k].1.page,
                                is_dirty: false,
                                modifying_txn: None::<TransactionID>,
                            }),
                        )
                    } else {
                        old(self).pages@[k]
                    })
                &&& forall|x: PageID|
                    final(self).dirty_pages@.contains(x) <==> (old(self).dirty_pages@.contains(x) && !(exists|k: int|
                        0 <= k < old(self).pages@.len() && (#[trigger] old(self).pages@[k]).0
                            == x && old(self).pages@[k].1.modifying_txn == Some(txn_id)))
            },
    {
        let ghost ps = old(self).page_size as nat;
        let ghost pages0 = old(self).pages@;
        let ghost file0 = old(self).file.data@;
        let n = self.pages.len();
        let mut i: usize = 0;
        proof {
            assert(commit_file_bytes(file0, pages0.take(0), ps, txn_id) == file0) by {
                assert(pages0.take(0) =~= Seq::<(PageID, PageInfo)>::empty());
            }
        }
        while i < n
            invariant
                i <= n,
                n == pages0.len(),
                pages0 == old(self).pages@,
                file0 == old(self).file.data@,
                ps == old(self).page_size as nat,
                old(self).wf(),
                self.wf(),
                self.page_size == old(self).page_size,
                self.num_slots_per_page == old(self).num_slots_per_page,
                self.max_pages_in_memory == old(self).max_pages_in_memory,
                self.next_page_id == old(self).next_page_id,
                self.page_access_order == old(self).page_access_order,
                self.file.mode == old(self).file.mode,
                self.pages@.len() == n,
                forall|k: int|
                    0 <= k < pages0.len() ==> (#[trigger] pages0[k]).0.0 <= usize::MAX
                        && pages0[k].0.0 * ps + ps <= usize::MAX,
                forall|k: int|
                    0 <= k < pages0.len() ==> 16 + 9 * (#[trigger] pages0[k]).1.page.slots@.len()
                        <= usize::MAX,
                forall|k: int| i <= k < n ==> (#[trigger] self.pages@[k]) == pages0[k],
                forall|k: int|
                    0 <= k < i ==> (#[trigger] self.pages@[k]) == (if pages0[k].1.modifying_txn
                        == Some(txn_id) {
                        (
                            pages0[k].0,
                            (PageInfo {
                                page: pages0[k].1.page,
                                is_dirty: false,
                                modifying_txn: None::<TransactionID>,
                            }),
                        )
                    } else {
                        pages0[k]
                    }),
                forall|k: int|
                    0 <= k < i && (#[trigger] pages0[k]).1.modifying_txn == Some(txn_id)
                        ==> entry_fits(pages0[k], ps),
                self.file.data@ == commit_file_bytes(file0, pages0.take(i as int), ps, txn_id),
                forall|x: PageID|
                    self.dirty_pages@.contains(x) <==> (old(self).dirty_pages@.contains(x) && !(
                    exists|k: int|
                        0 <= k < i && (#[trigger] pages0[k]).0 == x && pages0[k].1.modifying_txn
                            == Some(txn_id))),
            decreases n - i,
        {
            proof {
                assert(pages0.take(i + 1) =~= pages0.take(i as int).push(pages0[i as int]));
                lemma_commit_file_bytes_push(file0, pages0.take(i as int), pages0[i as int], ps, txn_id);
            }
            let owned = match &self.pages[i].1.modifying_txn {
                Some(t) => *t == txn_id,
                None => false,
            };
            if owned {
                let serialized = self.pages[i].1.page.serialize();
                proof {
                    crate::slotted_page::lemma_page_bytes_len(
                        self.pages@[i as int].1.page.page_id.0,
                        self.pages@[i as int].1.page.slots@,
                    );
                }
                if serialized.len() > self.page_size {
                    proof {
                        assert(!entry_fits(pages0[i as int], ps));
                    }
                    return Err(BuzzDBError::PageSizeExceeded(serialized.len(), self.page_size));
                }
                let offset = (self.pages[i].0.0 as usize) * self.page_size;
                match self.file.write_block(serialized.as_slice(), offset) {
                    Ok(u) => {},
                    Err(e) => {
                        assert(false);
                        return Err(e);
                    },
                }
                proof {
                    assert(self.file.data@ == entry_written_file(
                        commit_file_bytes(file0, pages0.take(i as int), ps, txn_id),
                        pages0[i as int],
                        ps,
                    ));
                }
                self.clear_entry_flags(i);
                proof {
                    let ghost x0 = pages0[i as int].0;
                    assert forall|x: PageID|
                        self.dirty_pages@.contains(x) <==> (old(self).dirty_pages@.contains(x)
                            && !(exists|k: int|
                            0 <= k < i + 1 && (#[trigger] pages0[k]).0 == x
                                && pages0[k].1.modifying_txn == Some(txn_id))) by {
                        if x == x0 {
                            assert(pages0[i as int].0 == x && pages0[i as int].1.modifying_txn
                                == Some(txn_id));
                        }
                    }
                }
            } else {
                proof {
                    assert(self.file.data@ == commit_file_bytes(
                        file0,
                        pages0.take(i + 1),
                        ps,
                        txn_id,
                    ));
                    assert forall|x: PageID|
                        self.dirty_pages@.contains(x) <==> (old(self).dirty_pages@.contains(x)
                            && !(exists|k: int|
                            0 <= k < i + 1 && (#[trigger] pages0[k]).0 == x
                                && pages0[k].1.modifying_txn == Some(txn_id))) by {}
                }
            }
            i = i + 1;
        }
        proof {
            assert(pages0.take(n as int) =~= pages0);
        }
        Ok(())
    }
}


impl HeapSegment {
    /// Writes every dirty page back to the file at its slot, clears all
    /// dirtiness and ownership, and syncs; fails with `PageSizeExceeded`
    /// when some dirty page's encoding exceeds the page size.
    pub fn flush(&mut self) -> (r: Result<(), BuzzDBError>)
        requires
            old(self).wf(),
            forall|k: int|
                0 <= k < old(self).pages@.len() ==> (#[trigger] old(self).pages@[k]).0.0
                    <= usize::MAX && old(self).pages@[k].0.0 * old(self).page_size + old(self).page_size <= usize::MAX,
            forall|k: int|
                0 <= k < old(self).pages@.len() ==> 16 + 9 * (#[trigger] old(self).pages@[k]).1.page.slots@.len() <= usize::MAX,
        ensures
            final(self).wf(),
            final(self).page_size == old(self).page_size,
            final(self).num_slots_per_page == old(self).num_slots_per_page,
            final(self).max_pages_in_memory == old(self).max_pages_in_memory,
            final(self).next_page_id == old(self).next_page_id,
            final(self).page_access_order == old(self).page_access_order,
            final(self).pages@.len() == old(self).pages@.len(),
            final(self).file.mode == old(self).file.mode,
            (r is Ok) <==> (forall|k: int|
                0 <= k < old(self).pages@.len() && (#[trigger] old(self).pages@[k]).1.is_dirty
                    ==> entry_fits(old(self).pages@[k], old(self).page_size as nat)),
            r matches Err(e) ==> e matches BuzzDBError::PageSizeExceeded(got, max) && max == old(self).page_size && exists|i: int|
                {
                    &&& 0 <= i < old(self).pages@.len()
                    &&& (#[trigger] old(self).pages@[i]).1.is_dirty
                    &&& !entry_fits(old(self).pages@[i], old(self).page_size as nat)
                    &&& got == 16 + 9 * old(self).pages@[i].1.page.slots@.len()
                    &&& final(self).file.data@ == flush_file_bytes(
                        old(self).file.data@,
                        old(self).pages@.take(i),
                        old(self).page_size as nat,
                    )
                    &&& forall|l: int| 0 <= l < i ==> entry_fits(
                        #[trigger] old(self).pages@[l],
                        old(self).page_size as nat,
                    ) || !old(self).pages@[l].1.is_dirty
                },
            r is Ok ==> {
                &&& final(self).file.data@ == flush_file_bytes(
                    old(self).file.data@,
                    old(self).pages@,
                    old(self).page_size as nat,
                )
                &&& forall|k: int|
                    0 <= k < old(self).pages@.len() ==> final(self).pages@[k] == (if (
                    #[trigger] old(self).pages@[k]).1.is_dirty {
                        (
                            old(self).pages@[k].0,
                            (PageInfo {
                                page: old(self).pages@[k].1.page,
                                is_dirty: false,
                                modifying_txn: None::<TransactionID>,
                            }),
                        )
                    } else {
                        old(self).pages@[k]
                    })
                &&& final(self).dirty_pages@.len() == 0
            },
    {
        let ghost ps = old(self).page_size as nat;
        let ghost pages0 = old(self).pages@;
        let ghost file0 = old(self).file.data@;
        let n = self.pages.len();
        let mut i: usize = 0;
        proof {
            assert(flush_file_bytes(file0, pages0.take(0), ps) == file0) by {
                assert(pages0.take(0) =~= Seq::<(PageID, PageInfo)>::empty());
            }
        }
        while i < n
            invariant
                i <= n,
                n == pages0.len(),
                pages0 == old(self).pages@,
                file0 == old(self).file.data@,
                ps == old(self).page_size as nat,
                old(self).wf(),
                self.wf(),
                self.page_size == old(self).page_size,
                self.num_slots_per_page == old(self).num_slots_per_page,
                self.max_pages_in_memory == old(self).max_pages_in_memory,
                self.next_page_id == old(self).next_page_id,
                self.page_access_order == old(self).page_access_order,
                self.file.mode == old(self).file.mode,
                self.pages@.len() == n,
                forall|k: int|
                    0 <= k < pages0.len() ==> (#[trigger] pages0[k]).0.0 <= usize::MAX
                        && pages0[k].0.0 * ps + ps <= usize::MAX,
                forall|k: int|
                    0 <= k < pages0.len() ==> 16 + 9 * (#[trigger] pages0[k]).1.page.slots@.len()
                        <= usize::MAX,
                forall|k: int| i <= k < n ==> (#[trigger] self.pages@[k]) == pages0[k],
                forall|k: int|
                    0 <= k < i ==> (#[trigger] self.pages@[k]) == (if pages0[k].1.is_dirty {
                        (
                            pages0[k].0,
                            (PageInfo {
                                page: pages0[k].1.page,
                                is_dirty: false,
                                modifying_txn: None::<TransactionID>,
                            }),
                        )
                    } else {
                        pages0[k]
                    }),
                forall|k: int|
                    0 <= k < i && (#[trigger] pages0[k]).1.is_dirty ==> entry_fits(
                        pages0[k],
                        ps,
                    ),
                self.file.data@ == flush_file_bytes(file0, pages0.take(i as int), ps),
                forall|x: PageID|
                    self.dirty_pages@.contains(x) <==> (old(self).dirty_pages@.contains(x) && !(
                    exists|k: int|
                        0 <= k < i && (#[trigger] pages0[k]).0 == x && pages0[k].1.is_dirty)),
            decreases n - i,
        {
            proof {
                assert(pages0.take(i + 1) =~= pages0.take(i as int).push(pages0[i as int]));
                lemma_flush_file_bytes_push(file0, pages0.take(i as int), pages0[i as int], ps);
            }
            let dirty = self.pages[i].1.is_dirty;
            if dirty {
                let serialized = self.pages[i].1.page.serialize();
                proof {
                    crate::slotted_page::lemma_page_bytes_len(
                        self.pages@[i as int].1.page.page_id.0,
                        self.pages@[i as int].1.page.slots@,
                    );
                }
                if serialized.len() > self.page_size {
                    proof {
                        assert(!entry_fits(pages0[i as int], ps));
                    }
                    return Err(BuzzDBError::PageSizeExceeded(serialized.len(), self.page_size));
                }
                let offset = (self.pages[i].0.0 as usize) * self.page_size;
                match self.file.write_block(serialized.as_slice(), offset) {
                    Ok(u) => {},
                    Err(e) => {
                        assert(false);
                        return Err(e);
                    },
                }
                proof {
                    assert(self.file.data@ == entry_written_file(
                        flush_file_bytes(file0, pages0.take(i as int), ps),
                        pages0[i as int],
                        ps,
                    ));
                }
                self.clear_entry_flags(i);
                proof {
                    let ghost x0 = pages0[i as int].0;
                    assert forall|x: PageID|
                        self.dirty_pages@.contains(x) <==> (old(self).dirty_pages@.contains(x)
                            && !(exists|k: int|
                            0 <= k < i + 1 && (#[trigger] pages0[k]).0 == x
                                && pages0[k].1.is_dirty)) by {
                        if x == x0 {
                            assert(pages0[i as int].0 == x && pages0[i as int].1.is_dirty);
                        }
                    }
                }
            } else {
                proof {
                    assert(self.file.data@ == flush_file_bytes(file0, pages0.take(i + 1), ps));
                    assert forall|x: PageID|
                        self.dirty_pages@.contains(x) <==> (old(self).dirty_pages@.contains(x)
                            && !(exists|k: int|
                            0 <= k < i + 1 && (#[trigger] pages0[k]).0 == x
                                && pages0[k].1.is_dirty)) by {}
                }
            }
            i = i + 1;
        }
        proof {
            assert(pages0.take(n as int) =~= pages0);
            assert(self.dirty_pages@.len() == 0) by {
                if self.dirty_pages@.len() > 0 {
                    let x = self.dirty_pages@[0];
                    assert(self.dirty_pages@.contains(x));
                    assert(old(self).dirty_pages@.contains(x));
                    assert(cache_has(old(self).pages@, x));
                    let c = choose|c: int|
                        0 <= c < old(self).pages@.len() && (#[trigger] old(self).pages@[c]).0
                            == x;
                    assert(pages0[c].1.is_dirty);
                    assert(false);
                }
            }
        }
        Ok(())
    }
}


impl HeapSegment {
    /// Drops the cache entry at `k` entirely: from the cache, the access
    /// queue and the dirty set.
    fn remove_entry(&mut self, k: usize)
        requires
            old(self).wf(),
            k < old(self).pages@.len(),
        ensures
            final(self).wf(),
            final(self).file == old(self).file,
            final(self).page_size == old(self).page_size,
            final(self).num_slots_per_page == old(self).num_slots_per_page,
            final(self).max_pages_in_memory == old(self).max_pages_in_memory,
            final(self).next_page_id == old(self).next_page_id,
            final(self).pages@ == old(self).pages@.remove(k as int),
            !cache_has(final(self).pages@, old(self).pages@[k as int].0),
            forall|x: PageID|
                final(self).dirty_pages@.contains(x) <==> (old(self).dirty_pages@.contains(x)
                    && x != old(self).pages@[k as int].0),
    {
        let pid = self.pages[k].0;
        let ghost pre = self.pages@;
        self.pages.remove(k);
        page_list_remove(&mut self.page_access_order, pid);
        page_list_remove(&mut self.dirty_pages, pid);
        proof {
            assert(self.pages@ == pre.remove(k as int));
            assert forall|a: int, b: int|
                0 <= a < b < self.pages@.len() implies (#[trigger] self.pages@[a]).0 != (
            #[trigger] self.pages@[b]).0 by {
                let a0: int = if a < k {
                    a
                } else {
                    a + 1
                };
                let b0: int = if b < k {
                    b
                } else {
                    b + 1
                };
                assert(self.pages@[a] == pre[a0] && self.pages@[b] == pre[b0]);
            }
            assert(!cache_has(self.pages@, pid)) by {
                if cache_has(self.pages@, pid) {
                    let w = choose|w: int|
                        0 <= w < self.pages@.len() && (#[trigger] self.pages@[w]).0 == pid;
                    let w0: int = if w < k {
                        w
                    } else {
                        w + 1
                    };
                    assert(pre[w0].0 == pid && pre[k as int].0 == pid && w0 != k);
                }
            }
            assert forall|l: int|
                0 <= l < self.page_access_order@.len() implies cache_has(
                self.pages@,
                #[trigger] self.page_access_order@[l],
            ) by {
                assert(self.page_access_order@.contains(self.page_access_order@[l]));
                assert(old(self).page_access_order@.contains(self.page_access_order@[l])
                    && self.page_access_order@[l] != pid);
                let w = choose|w: int|
                    0 <= w < pre.len() && (#[trigger] pre[w]).0 == self.page_access_order@[l];
                assert(w != k);
                if w < k {
                    assert(self.pages@[w].0 == self.page_access_order@[l]);
                } else {
                    assert(self.pages@[w - 1].0 == self.page_access_order@[l]);
                }
            }
            assert forall|l: int|
                0 <= l < self.pages@.len() implies self.page_access_order@.contains(
                (#[trigger] self.pages@[l]).0,
            ) by {
                let l0: int = if l < k {
                    l
                } else {
                    l + 1
                };
                assert(self.pages@[l] == pre[l0]);
                assert(l0 != k);
                assert(pre[l0].0 != pre[k as int].0);
                assert(old(self).page_access_order@.contains(pre[l0].0));
            }
            assert forall|l: int|
                0 <= l < self.dirty_pages@.len() implies cache_has(
                self.pages@,
                #[trigger] self.dirty_pages@[l],
            ) by {
                assert(self.dirty_pages@.contains(self.dirty_pages@[l]));
                assert(old(self).dirty_pages@.contains(self.dirty_pages@[l])
                    && self.dirty_pages@[l] != pid);
                let w = choose|w: int|
                    0 <= w < pre.len() && (#[trigger] pre[w]).0 == self.dirty_pages@[l];
                assert(w != k);
                if w < k {
                    assert(self.pages@[w].0 == self.dirty_pages@[l]);
                } else {
                    assert(self.pages@[w - 1].0 == self.dirty_pages@[l]);
                }
            }
            assert forall|l: int|
                0 <= l < self.pages@.len() implies ((#[trigger] self.pages@[l]).1.is_dirty
                <==> self.dirty_pages@.contains(self.pages@[l].0)) by {
                let l0: int = if l < k {
                    l
                } else {
                    l + 1
                };
                assert(self.pages@[l] == pre[l0]);
                assert(l0 != k);
                assert(pre[l0].0 != pre[k as int].0);
            }
        }
    }

    /// Discards every page `txn_id` was modifying and reloads it from the
    /// last durable version on disk, leaving it clean and unowned.
    pub fn abort_transaction(&mut self, txn_id: TransactionID) -> (r: Result<(), BuzzDBError>)
        requires
            old(self).wf(),
            old(self).pages@.len() <= old(self).max_pages_in_memory,
            forall|k: int|
                0 <= k < old(self).pages@.len() ==> (#[trigger] old(self).pages@[k]).0.0
                    <= usize::MAX && old(self).pages@[k].0.0 * old(self).page_size + old(self).page_size <= usize::MAX,
        ensures
            final(self).wf(),
            final(self).file.mode == old(self).file.mode,
            final(self).file.data@ == old(self).file.data@,
            final(self).page_size == old(self).page_size,
            final(self).num_slots_per_page == old(self).num_slots_per_page,
            final(self).max_pages_in_memory == old(self).max_pages_in_memory,
            final(self).next_page_id == old(self).next_page_id,
            (r is Ok) <==> (forall|k: int|
                0 <= k < old(self).pages@.len() && (#[trigger] old(
                    self,
                ).pages@[k]).1.modifying_txn == Some(txn_id) ==> page_readable(
                    old(self).file.data@,
                    old(self).pages@[k].0,
                    old(self).page_size as nat,
                )),
            r matches Err(e) ==> exists|k: int|
                {
                    &&& 0 <= k < old(self).pages@.len()
                    &&& (#[trigger] old(self).pages@[k]).1.modifying_txn == Some(txn_id)
                    &&& !page_readable(
                        old(self).file.data@,
                        old(self).pages@[k].0,
                        old(self).page_size as nat,
                    )
                    &&& if old(self).pages@[k].0.0 * old(self).page_size >= old(
                        self,
                    ).file.data@.len() {
                        e matches BuzzDBError::PageNotFound(q) && q == old(self).pages@[k].0.0
                    } else {
                        e matches BuzzDBError::DeserializationError
                    }
                },
            r is Ok ==> {
                &&& final(self).pages@.len() == old(self).pages@.len()
                &&& forall|k: int|
                    0 <= k < old(self).pages@.len() && (#[trigger] old(self).pages@[k]).1.modifying_txn == Some(txn_id) ==> (parse_page(
                        disk_chunk(
                            old(self).file.data@,
                            old(self).pages@[k].0,
                            old(self).page_size as nat,
                        ),
                    ) matches Some(pv) && exists|k2: int|
                        {
                            &&& 0 <= k2 < final(self).pages@.len()
                            &&& (#[trigger] final(self).pages@[k2]).0 == old(self).pages@[k].0
                            &&& final(self).pages@[k2].1.page.page_id.0 == pv.0
                            &&& final(self).pages@[k2].1.page.slots@ == pv.1
                            &&& !final(self).pages@[k2].1.is_dirty
                            &&& final(self).pages@[k2].1.modifying_txn is None
                        })
                &&& forall|k: int|
                    0 <= k < old(self).pages@.len() && (#[trigger] old(self).pages@[k]).1.modifying_txn != Some(txn_id) ==> exists|k2: int|
                        0 <= k2 < final(self).pages@.len() && (#[trigger] final(self).pages@[k2]) == old(self).pages@[k]
            },
    {
        let ghost pages0 = old(self).pages@;
        let n = self.pages.len();
        let mut owned_keys: Vec<PageID> = Vec::new();
        let mut i: usize = 0;
        while i < n
            invariant
                i <= n,
                n == self.pages@.len(),
                *self == *old(self),
                old(self).wf(),
                pages0 == old(self).pages@,
                forall|j: int|
                    0 <= j < owned_keys@.len() ==> owned_key_of(
                        pages0.take(i as int),
                        #[trigger] owned_keys@[j],
                        txn_id,
                    ),
                forall|k: int|
                    0 <= k < i && (#[trigger] pages0[k]).1.modifying_txn == Some(txn_id)
                        ==> owned_keys@.contains(pages0[k].0),
                forall|a: int, b: int|
                    0 <= a < b < owned_keys@.len() ==> owned_keys@[a] != owned_keys@[b],
            decreases n - i,
        {
            let owned = match &self.pages[i].1.modifying_txn {
                Some(t) => *t == txn_id,
                None => false,
            };
            if owned {
                let ghost pre_keys = owned_keys@;
                owned_keys.push(self.pages[i].0);
                proof {
                    assert(owned_keys@[owned_keys@.len() - 1] == pages0[i as int].0);
                    assert(pages0.take(i + 1)[i as int] == pages0[i as int]);
                    assert forall|a: int, b: int|
                        0 <= a < b < owned_keys@.len() implies owned_keys@[a]
                        != owned_keys@[b] by {
                        if b < owned_keys@.len() - 1 {
                            assert(owned_keys@[a] == pre_keys[a]);
                            assert(owned_keys@[b] == pre_keys[b]);
                        } else {
                            assert(owned_keys@[a] == pre_keys[a]);
                            assert(owned_key_of(pages0.take(i as int), pre_keys[a], txn_id));
                            let w = choose|w: int|
                                0 <= w < pages0.take(i as int).len() && (
                                #[trigger] pages0.take(i as int)[w]).0 == pre_keys[a]
                                    && pages0.take(i as int)[w].1.modifying_txn == Some(txn_id);
                            assert(pages0[w].0 == pre_keys[a]);
                            assert(w != i);
                            assert(pages0[w].0 != pages0[i as int].0);
                        }
                    }
                    assert forall|k: int|
                        0 <= k < i + 1 && (#[trigger] pages0[k]).1.modifying_txn == Some(txn_id)
                            implies owned_keys@.contains(pages0[k].0) by {
                        if k < i {
                            assert(pre_keys.contains(pages0[k].0));
                            let c = choose|c: int|
                                0 <= c < pre_keys.len() && #[trigger] pre_keys[c]
                                    == pages0[k].0;
                            assert(owned_keys@[c] == pages0[k].0);
                        } else {
                            assert(owned_keys@[owned_keys@.len() - 1] == pages0[k].0);
                        }
                    }
                    assert forall|j2: int|
                        0 <= j2 < owned_keys@.len() implies owned_key_of(
                        pages0.take(i + 1),
                        #[trigger] owned_keys@[j2],
                        txn_id,
                    ) by {
                        if j2 < owned_keys@.len() - 1 {
                            assert(owned_keys@[j2] == pre_keys[j2]);
                            assert(owned_key_of(pages0.take(i as int), pre_keys[j2], txn_id));
                            let w = choose|w: int|
                                0 <= w < pages0.take(i as int).len() && (
                                #[trigger] pages0.take(i as int)[w]).0 == pre_keys[j2]
                                    && pages0.take(i as int)[w].1.modifying_txn == Some(txn_id);
                            assert(pages0.take(i + 1)[w] == pages0[w]);
                        } else {
                            assert(pages0.take(i + 1)[i as int].0 == owned_keys@[j2]);
                        }
                    }
                }
            } else {
                proof {
                    assert forall|j2: int|
                        0 <= j2 < owned_keys@.len() implies owned_key_of(
                        pages0.take(i + 1),
                        #[trigger] owned_keys@[j2],
                        txn_id,
                    ) by {
                        assert(owned_key_of(pages0.take(i as int), owned_keys@[j2], txn_id));
                        let w = choose|w: int|
                            0 <= w < pages0.take(i as int).len() && (
                            #[trigger] pages0.take(i as int)[w]).0 == owned_keys@[j2]
                                && pages0.take(i as int)[w].1.modifying_txn == Some(txn_id);
                        assert(pages0.take(i + 1)[w] == pages0[w]);
                        assert(pages0.take(i as int)[w] == pages0[w]);
                    }
                    assert forall|k: int|
                        0 <= k < i + 1 && (#[trigger] pages0[k]).1.modifying_txn == Some(txn_id)
                            implies owned_keys@.contains(pages0[k].0) by {
                        assert(k != i);
                    }
                }
            }
            i = i + 1;
        }

        proof {
            assert(pages0.take(n as int) =~= pages0);
            assert forall|q: int|
                0 <= q < owned_keys@.len() implies owned_key_of(
                pages0,
                #[trigger] owned_keys@[q],
                txn_id,
            ) by {
                assert(owned_key_of(pages0.take(n as int), owned_keys@[q], txn_id));
            }
        }
        let m = owned_keys.len();
        let mut j: usize = 0;
        while j < m
            invariant
                j <= m,
                m == owned_keys@.len(),
                pages0 == old(self).pages@,
                old(self).wf(),
                old(self).pages@.len() <= old(self).max_pages_in_memory,
                forall|k: int|
                    0 <= k < pages0.len() ==> (#[trigger] pages0[k]).0.0 <= usize::MAX
                        && pages0[k].0.0 * old(self).page_size + old(self).page_size
                        <= usize::MAX,
                self.wf(),
                self.file.mode == old(self).file.mode,
                self.file.data@ == old(self).file.data@,
                self.page_size == old(self).page_size,
                self.num_slots_per_page == old(self).num_slots_per_page,
                self.max_pages_in_memory == old(self).max_pages_in_memory,
                self.next_page_id == old(self).next_page_id,
                self.pages@.len() == pages0.len(),
                forall|a: int, b: int|
                    0 <= a < b < owned_keys@.len() ==> owned_keys@[a] != owned_keys@[b],
                forall|q: int|
                    0 <= q < owned_keys@.len() ==> owned_key_of(
                        pages0,
                        #[trigger] owned_keys@[q],
                        txn_id,
                    ),
                forall|k: int|
                    0 <= k < pages0.len() && (#[trigger] pages0[k]).1.modifying_txn == Some(
                        txn_id,
                    ) ==> owned_keys@.contains(pages0[k].0),
                forall|k: int|
                    0 <= k < pages0.len() && !owned_keys@.take(j as int).contains(
                        (#[trigger] pages0[k]).0,
                    ) ==> exists|k2: int|
                        0 <= k2 < self.pages@.len() && (#[trigger] self.pages@[k2]) == pages0[k],
                forall|q: int|
                    0 <= q < j ==> page_readable(
                        old(self).file.data@,
                        #[trigger] owned_keys@[q],
                        old(self).page_size as nat,
                    ) && (parse_page(
                        disk_chunk(
                            old(self).file.data@,
                            owned_keys@[q],
                            old(self).page_size as nat,
                        ),
                    ) matches Some(pv) && exists|k2: int|
                        {
                            &&& 0 <= k2 < self.pages@.len()
                            &&& (#[trigger] self.pages@[k2]).0 == owned_keys@[q]
                            &&& self.pages@[k2].1.page.page_id.0 == pv.0
                            &&& self.pages@[k2].1.page.slots@ == pv.1
                            &&& !self.pages@[k2].1.is_dirty
                            &&& self.pages@[k2].1.modifying_txn is None
                        }),
            decreases m - j,
        {
            let pid = owned_keys[j];
            proof {
                assert(owned_keys@.take(j as int) =~= owned_keys@.take(j + 1).drop_last());
            }
            let k = match self.find_cached(pid) {
                Some(k) => k,
                None => {
                    proof {
                        assert(owned_key_of(pages0, pid, txn_id));
                        let w = choose|w: int|
                            0 <= w < pages0.len() && (#[trigger] pages0[w]).0 == pid
                                && pages0[w].1.modifying_txn == Some(txn_id);
                        assert(!owned_keys@.take(j as int).contains(pid)) by {
                            if owned_keys@.take(j as int).contains(pid) {
                                let c = choose|c: int|
                                    0 <= c < j && #[trigger] owned_keys@.take(j as int)[c]
                                        == pid;
                                assert(owned_keys@[c] == pid && owned_keys@[j as int] == pid);
                            }
                        }
                        let k2 = choose|k2: int|
                            0 <= k2 < self.pages@.len() && (#[trigger] self.pages@[k2])
                                == pages0[w];
                        assert(cache_has(self.pages@, pid));
                        assert(false);
                    }
                    return Err(BuzzDBError::PageNotFound(pid.0));
                },
            };
            let ghost before_remove = *self;
            self.remove_entry(k);
            let ghost mid_load = *self;
            match self.ensure_page_loaded(pid) {
                Ok(u) => {},
                Err(e) => {
                    proof {
                        assert(owned_key_of(pages0, pid, txn_id));
                        let w = choose|w: int|
                            0 <= w < pages0.len() && (#[trigger] pages0[w]).0 == pid
                                && pages0[w].1.modifying_txn == Some(txn_id);
                        assert(before_remove.pages@[k as int].0 == pid);
                        assert(!cache_has(mid_load.pages@, pid));
                        assert(mid_load.pages@.len() == pages0.len() - 1);
                        assert(mid_load.pages@.len() < mid_load.max_pages_in_memory);
                        assert(mid_load.file.data@ == old(self).file.data@);
                        if pid.0 * old(self).page_size >= old(self).file.data@.len() {
                            assert(e matches BuzzDBError::PageNotFound(q) && q == pid.0);
                        } else {
                            assert(parse_page(
                                disk_chunk(
                                    old(self).file.data@,
                                    pid,
                                    old(self).page_size as nat,
                                ),
                            ) is None);
                            assert(e matches BuzzDBError::DeserializationError);
                        }
                        assert(!page_readable(
                            old(self).file.data@,
                            pid,
                            old(self).page_size as nat,
                        ));
                        assert(pages0[w].0 == pid && pages0[w].1.modifying_txn == Some(txn_id));
                    }
                    return Err(e);
                },
            }
            proof {
                let loaded = *self;
                assert(loaded.pages@.drop_last() == before_remove.pages@.remove(k as int));
                assert forall|kk: int|
                    0 <= kk < pages0.len() && !owned_keys@.take(j + 1).contains(
                        (#[trigger] pages0[kk]).0,
                    ) implies exists|k2: int|
                        0 <= k2 < self.pages@.len() && (#[trigger] self.pages@[k2])
                            == pages0[kk] by {
                    assert(!owned_keys@.take(j as int).contains(pages0[kk].0)) by {
                        if owned_keys@.take(j as int).contains(pages0[kk].0) {
                            let c = choose|c: int|
                                0 <= c < j && #[trigger] owned_keys@.take(j as int)[c]
                                    == pages0[kk].0;
                            assert(owned_keys@.take(j + 1)[c] == pages0[kk].0);
                        }
                    }
                    let k2 = choose|k2: int|
                        0 <= k2 < before_remove.pages@.len() && (
                        #[trigger] before_remove.pages@[k2]) == pages0[kk];
                    assert(pages0[kk].0 != pid) by {
                        assert(owned_keys@.take(j + 1)[j as int] == pid);
                    }
                    assert(before_remove.pages@[k as int].0 == pid);
                    assert(k2 != k);
                    let k3: int = if k2 < k {
                        k2
                    } else {
                        k2 - 1
                    };
                    assert(before_remove.pages@.remove(k as int)[k3] == pages0[kk]);
                    assert(self.pages@.drop_last()[k3] == before_remove.pages@.remove(
                        k as int,
                    )[k3]);
                    assert(self.pages@[k3] == self.pages@.drop_last()[k3]);
                    assert(self.pages@[k3] == pages0[kk]);
                }
                assert forall|q: int|
                    0 <= q < j + 1 implies page_readable(
                    old(self).file.data@,
                    #[trigger] owned_keys@[q],
                    old(self).page_size as nat,
                ) && (parse_page(
                        disk_chunk(
                            old(self).file.data@,
                            owned_keys@[q],
                            old(self).page_size as nat,
                        ),
                    ) matches Some(pv) && exists|k2: int|
                        {
                            &&& 0 <= k2 < self.pages@.len()
                            &&& (#[trigger] self.pages@[k2]).0 == owned_keys@[q]
                            &&& self.pages@[k2].1.page.page_id.0 == pv.0
                            &&& self.pages@[k2].1.page.slots@ == pv.1
                            &&& !self.pages@[k2].1.is_dirty
                            &&& self.pages@[k2].1.modifying_txn is None
                        }) by {
                    if q == j {
                        assert(pid.0 * old(self).page_size < old(self).file.data@.len());
                        assert(page_readable(
                            old(self).file.data@,
                            pid,
                            old(self).page_size as nat,
                        ));
                        assert(self.pages@.last().0 == pid);
                        assert(self.pages@[self.pages@.len() - 1].0 == pid);
                    } else {
                        let k2 = choose|k2: int|
                            {
                                &&& 0 <= k2 < before_remove.pages@.remove(k as int).len() + 1
                                &&& 0 <= k2 < loaded.pages@.len()  - 1 + 1
                                &&& 0 <= k2 < before_remove.pages@.len()
                                &&& (#[trigger] before_remove.pages@[k2]).0 == owned_keys@[q]
                                &&& before_remove.pages@[k2].1.page.page_id.0 == (parse_page(
                                    disk_chunk(
                                        old(self).file.data@,
                                        owned_keys@[q],
                                        old(self).page_size as nat,
                                    ),
                                ).unwrap()).0
                                &&& before_remove.pages@[k2].1.page.slots@ == (parse_page(
                                    disk_chunk(
                                        old(self).file.data@,
                                        owned_keys@[q],
                                        old(self).page_size as nat,
                                    ),
                                ).unwrap()).1
                                &&& !before_remove.pages@[k2].1.is_dirty
                                &&& before_remove.pages@[k2].1.modifying_txn is None
                            };
                        assert(owned_keys@[q] != pid);
                        assert(before_remove.pages@[k as int].0 == pid);
                        assert(k2 != k);
                        let k3: int = if k2 < k {
                            k2
                        } else {
                            k2 - 1
                        };
                        assert(before_remove.pages@.remove(k as int)[k3]
                            == before_remove.pages@[k2]);
                        assert(self.pages@.drop_last()[k3] == before_remove.pages@.remove(
                            k as int,
                        )[k3]);
                        assert(self.pages@[k3] == self.pages@.drop_last()[k3]);
                        assert(self.pages@[k3] == before_remove.pages@[k2]);
                    }
                }
            }
            j = j + 1;
        }
        proof {
            assert forall|k: int|
                0 <= k < pages0.len() && (#[trigger] pages0[k]).1.modifying_txn != Some(txn_id)
                    implies exists|k2: int|
                    0 <= k2 < self.pages@.len() && (#[trigger] self.pages@[k2])
                        == pages0[k] by {
                assert(!owned_keys@.contains(pages0[k].0)) by {
                    if owned_keys@.contains(pages0[k].0) {
                        let c = choose|c: int|
                            0 <= c < owned_keys@.len() && #[trigger] owned_keys@[c]
                                == pages0[k].0;
                        assert(owned_key_of(pages0, owned_keys@[c], txn_id));
                        let w = choose|w: int|
                            0 <= w < pages0.len() && (#[trigger] pages0[w]).0 == owned_keys@[c]
                                && pages0[w].1.modifying_txn == Some(txn_id);
                        assert(w != k ==> pages0[w].0 != pages0[k].0);
                        assert(w == k);
                    }
                }
                assert(!owned_keys@.take(m as int).contains(pages0[k].0)) by {
                    if owned_keys@.take(m as int).contains(pages0[k].0) {
                        let c = choose|c: int|
                            0 <= c < m && #[trigger] owned_keys@.take(m as int)[c]
                                == pages0[k].0;
                        assert(owned_keys@[c] == pages0[k].0);
                    }
                }
            }
            assert forall|k: int|
                0 <= k < pages0.len() && (#[trigger] pages0[k]).1.modifying_txn == Some(txn_id)
                    implies (parse_page(
                    disk_chunk(old(self).file.data@, pages0[k].0, old(self).page_size as nat),
                ) matches Some(pv) && exists|k2: int|
                    {
                        &&& 0 <= k2 < self.pages@.len()
                        &&& (#[trigger] self.pages@[k2]).0 == pages0[k].0
                        &&& self.pages@[k2].1.page.page_id.0 == pv.0
                        &&& self.pages@[k2].1.page.slots@ == pv.1
                        &&& !self.pages@[k2].1.is_dirty
                        &&& self.pages@[k2].1.modifying_txn is None
                    }) by {
                assert(owned_keys@.contains(pages0[k].0));
                let q = choose|q: int|
                    0 <= q < owned_keys@.len() && #[trigger] owned_keys@[q] == pages0[k].0;
            }
            assert forall|k: int|
                0 <= k < pages0.len() && (#[trigger] pages0[k]).1.modifying_txn == Some(txn_id)
                    implies page_readable(
                    old(self).file.data@,
                    pages0[k].0,
                    old(self).page_size as nat,
                ) by {
                assert(owned_keys@.contains(pages0[k].0));
                let q = choose|q: int|
                    0 <= q < owned_keys@.len() && #[trigger] owned_keys@[q] == pages0[k].0;
            }
        }
        Ok(())
    }
}

} // verus!
