//! The buffer pool: a bounded cache of page frames with pin/unpin reference
//! counting and an eviction policy that never evicts a pinned frame.
//!
//! Writing frame bytes back to a data file is the caller's responsibility;
//! `flush_page` is the hook that clears the dirty flag once the caller has
//! persisted the frame.

use vstd::prelude::*;
use vstd::std_specs::vec::vec_index_mut;

use crate::byte_ops::zeros;
use crate::common::{BuzzDBError, PageID};

verus! {

/// One resident page: its id, its bytes, a dirty flag and a pin count.
/// A frame with a positive pin count is protected from eviction.
#[derive(Debug)]
pub struct BufferFrame {
    pub page_id: PageID,
    pub data: Vec<u8>,
    pub is_dirty: bool,
    pub pin_count: u32,
}

/// The predicate a frame must meet to survive `discard_all_pages`: it is
/// pinned.
pub open spec fn frame_pinned_pred() -> spec_fn(BufferFrame) -> bool {
    |f: BufferFrame| f.pin_count > 0
}

/// `f` with its pin count raised by one.
pub open spec fn frame_pinned(f: BufferFrame) -> BufferFrame {
    BufferFrame { pin_count: (f.pin_count + 1) as u32, ..f }
}

/// `f` with its pin count lowered by one.
pub open spec fn frame_unpinned(f: BufferFrame) -> BufferFrame {
    BufferFrame { pin_count: (f.pin_count - 1) as u32, ..f }
}

/// `f` with its dirty flag set to `d`.
pub open spec fn frame_with_dirty(f: BufferFrame, d: bool) -> BufferFrame {
    BufferFrame { is_dirty: d, ..f }
}

impl BufferFrame {
    /// A fresh frame holding `page_size` zero bytes, clean and unpinned.
    pub fn new(page_id: PageID, page_size: usize) -> (f: Self)
        ensures
            f.page_id == page_id,
            f.data@ == zeros(page_size as nat),
            !f.is_dirty,
            f.pin_count == 0,
    {
        let mut data: Vec<u8> = Vec::new();
        let mut i: usize = 0;
        while i < page_size
            invariant
                i <= page_size,
                data@.len() == i,
                forall|j: int| 0 <= j < i ==> data@[j] == 0u8,
            decreases page_size - i,
        {
            data.push(0u8);
            i = i + 1;
        }
        assert(data@ =~= zeros(page_size as nat));
        Self { page_id, data, is_dirty: false, pin_count: 0 }
    }

    pub fn get_data(&self) -> (d: &[u8])
        ensures
            d@ == self.data@,
    {
        self.data.as_slice()
    }

    pub fn get_data_mut(&mut self) -> (d: &mut Vec<u8>)
        ensures
            *d == old(self).data,
            final(self).data == *final(d),
            final(self).page_id == old(self).page_id,
            final(self).is_dirty == old(self).is_dirty,
            final(self).pin_count == old(self).pin_count,
    {
        &mut self.data
    }

    pub fn set_dirty(&mut self, dirty: bool)
        ensures
            *final(self) == frame_with_dirty(*old(self), dirty),
    {
        self.is_dirty = dirty;
    }

    pub fn is_dirty(&self) -> (d: bool)
        ensures
            d == self.is_dirty,
    {
        self.is_dirty
    }

    pub fn pin(&mut self)
        requires
            old(self).pin_count < u32::MAX,
        ensures
            *final(self) == frame_pinned(*old(self)),
    {
        self.pin_count = self.pin_count + 1;
    }

    /// Lowers the pin count; underflow is a caller error reported as
    /// `Other`, leaving the frame unchanged.
    pub fn unpin(&mut self) -> (r: Result<(), BuzzDBError>)
        ensures
            old(self).pin_count == 0 ==> {
                &&& (r matches Err(e) && e matches BuzzDBError::Other(_))
                &&& *final(self) == *old(self)
            },
            old(self).pin_count > 0 ==> {
                &&& r is Ok
                &&& *final(self) == frame_unpinned(*old(self))
            },
    {
        if self.pin_count == 0 {
            return Err(
                BuzzDBError::Other(String::from_str("Cannot unpin a page with pin count 0")),
            );
        }
        self.pin_count = self.pin_count - 1;
        Ok(())
    }

    pub fn pin_count(&self) -> (c: u32)
        ensures
            c == self.pin_count,
    {
        self.pin_count
    }

    pub fn get_page_id(&self) -> (p: PageID)
        ensures
            p == self.page_id,
    {
        self.page_id
    }
}

/// A bounded mapping from page ids to resident frames: at most `capacity`
/// frames, no two sharing a page id, each holding `page_size` bytes.
pub struct BufferManager {
    pub frames: Vec<BufferFrame>,
    pub page_size: usize,
    pub capacity: usize,
}

impl BufferManager {
    /// Well-formedness: the frame count never exceeds the capacity, no two
    /// live frames share a page id, and every frame holds exactly
    /// `page_size` bytes. Every operation of the pool preserves this.
    pub open spec fn wf(&self) -> bool {
        &&& self.frames@.len() <= self.capacity
        &&& forall|i: int, j: int|
            0 <= i < j < self.frames@.len() ==> self.frames@[i].page_id
                != self.frames@[j].page_id
        &&& forall|i: int|
            0 <= i < self.frames@.len() ==> (#[trigger] self.frames@[i]).data@.len()
                == self.page_size
    }

    /// Whether a frame for `page_id` is resident.
    pub open spec fn has_page(&self, page_id: PageID) -> bool {
        exists|i: int|
            0 <= i < self.frames@.len() && (#[trigger] self.frames@[i]).page_id == page_id
    }

    /// Whether some resident frame is unpinned (an eviction candidate).
    pub open spec fn some_unpinned(&self) -> bool {
        exists|i: int|
            0 <= i < self.frames@.len() && (#[trigger] self.frames@[i]).pin_count == 0
    }

    /// Whether every frame's pin count is below the machine bound, so that
    /// one more pin cannot overflow.
    pub open spec fn pins_below_max(&self) -> bool {
        forall|i: int|
            0 <= i < self.frames@.len() ==> (#[trigger] self.frames@[i]).pin_count < u32::MAX
    }

    /// Whether no frame is pinned at all, as between operations of a
    /// single-threaded caller that unfixes what it fixes.
    pub open spec fn all_unpinned(&self) -> bool {
        forall|i: int| 0 <= i < self.frames@.len() ==> (#[trigger] self.frames@[i]).pin_count == 0
    }

    /// The resident pages and their bytes, as a map.
    pub open spec fn pages_map(&self) -> Map<u64, Seq<u8>> {
        Map::new(
            |p: u64| self.has_page(PageID(p)),
            |p: u64|
                self.frames@[choose|i: int|
                    0 <= i < self.frames@.len() && (#[trigger] self.frames@[i]).page_id == PageID(
                        p,
                    )].data@,
        )
    }

    /// An empty pool sized for `capacity` frames of `page_size` bytes each.
    pub fn new(page_size: usize, capacity: usize) -> (bm: Self)
        ensures
            bm.wf(),
            bm.page_size == page_size,
            bm.capacity == capacity,
            bm.frames@.len() == 0,
    {
        Self { frames: Vec::new(), page_size, capacity }
    }

    /// The index of the resident frame for `page_id`, if any.
    fn find_page(&self, page_id: PageID) -> (r: Option<usize>)
        ensures
            r matches Some(i) ==> 0 <= i < self.frames@.len() && self.frames@[i as int].page_id
                == page_id,
            r is None ==> !self.has_page(page_id),
    {
        let n = self.frames.len();
        let mut i: usize = 0;
        while i < n
            invariant
                i <= n,
                n == self.frames@.len(),
                forall|j: int| 0 <= j < i ==> (#[trigger] self.frames@[j]).page_id != page_id,
            decreases n - i,
        {
            if self.frames[i].get_page_id() == page_id {
                return Some(i);
            }
            i = i + 1;
        }
        None
    }

    /// Whether eviction can make room: true exactly when some frame is
    /// unpinned.
    fn can_evict_page(&self) -> (r: bool)
        ensures
            r == self.some_unpinned(),
    {
        let n = self.frames.len();
        let mut i: usize = 0;
        while i < n
            invariant
                i <= n,
                n == self.frames@.len(),
                forall|j: int| 0 <= j < i ==> (#[trigger] self.frames@[j]).pin_count > 0,
            decreases n - i,
        {
            if self.frames[i].pin_count() == 0 {
                return true;
            }
            i = i + 1;
        }
        false
    }

    /// Removes the first unpinned frame, clearing its dirty flag through
    /// `flush_page` before it goes; fails with `BufferFull`, changing
    /// nothing, exactly when every frame is pinned.
    fn evict_page(&mut self) -> (r: Result<(), BuzzDBError>)
        requires
            old(self).wf(),
        ensures
            final(self).wf(),
            final(self).page_size == old(self).page_size,
            final(self).capacity == old(self).capacity,
            (r is Ok) <==> old(self).some_unpinned(),
            r is Ok ==> exists|j: int|
                {
                    &&& 0 <= j < old(self).frames@.len()
                    &&& (#[trigger] old(self).frames@[j]).pin_count == 0
                    &&& forall|k: int| 0 <= k < j ==> old(self).frames@[k].pin_count > 0
                    &&& final(self).frames@ == old(self).frames@.remove(j)
                },
            r matches Err(e) ==> e matches BuzzDBError::BufferFull && final(self).frames@ == old(
                self,
            ).frames@,
    {
        let n = self.frames.len();
        let mut i: usize = 0;
        while i < n
            invariant
                i <= n,
                n == self.frames@.len(),
                *self == *old(self),
                old(self).wf(),
                forall|j: int| 0 <= j < i ==> (#[trigger] self.frames@[j]).pin_count > 0,
            decreases n - i,
        {
            if self.frames[i].pin_count() == 0 {
                let fr = vec_index_mut(&mut self.frames, i);
                fr.set_dirty(false);
                self.frames.remove(i);
                proof {
                    assert(self.frames@ =~= old(self).frames@.remove(i as int));
                }
                return Ok(());
            }
            i = i + 1;
        }
        Err(BuzzDBError::BufferFull)
    }

    /// Pins the frame for `page_id`, loading a fresh zeroed frame — evicting
    /// the first unpinned frame when the pool is full — if the page is not
    /// resident; a frame loaded for exclusive use starts dirty. Returns the
    /// frame's index. Fails with `BufferFull`, changing nothing, exactly
    /// when the page is absent, the pool is full and every frame is pinned.
    pub fn fix_page(&mut self, page_id: PageID, is_exclusive: bool) -> (r: Result<
        usize,
        BuzzDBError,
    >)
        requires
            old(self).wf(),
            old(self).pins_below_max(),
        ensures
            final(self).wf(),
            final(self).page_size == old(self).page_size,
            final(self).capacity == old(self).capacity,
            (r is Err) <==> (!old(self).has_page(page_id) && old(self).frames@.len() >= old(
                self,
            ).capacity && !old(self).some_unpinned()),
            r matches Err(e) ==> e matches BuzzDBError::BufferFull && final(self).frames@ == old(
                self,
            ).frames@,
            r matches Ok(i) ==> if old(self).has_page(page_id) {
                &&& 0 <= i < old(self).frames@.len()
                &&& old(self).frames@[i as int].page_id == page_id
                &&& final(self).frames@ == old(self).frames@.update(
                    i as int,
                    frame_pinned(old(self).frames@[i as int]),
                )
            } else {
                &&& i as int == final(self).frames@.len() - 1
                &&& final(self).frames@.last().page_id == page_id
                &&& final(self).frames@.last().data@ == zeros(old(self).page_size as nat)
                &&& final(self).frames@.last().pin_count == 1
                &&& final(self).frames@.last().is_dirty == is_exclusive
                &&& if old(self).frames@.len() < old(self).capacity {
                    final(self).frames@.drop_last() == old(self).frames@
                } else {
                    exists|j: int|
                        {
                            &&& 0 <= j < old(self).frames@.len()
                            &&& (#[trigger] old(self).frames@[j]).pin_count == 0
                            &&& forall|k: int| 0 <= k < j ==> old(self).frames@[k].pin_count > 0
                            &&& final(self).frames@.drop_last() == old(self).frames@.remove(j)
                        }
                }
            },
    {
        match self.find_page(page_id) {
            Some(i) => {
                let fr = vec_index_mut(&mut self.frames, i);
                fr.pin();
                Ok(i)
            },
            None => {
                if self.frames.len() >= self.capacity && !self.can_evict_page() {
                    return Err(BuzzDBError::BufferFull);
                }

                if self.frames.len() >= self.capacity {
                    match self.evict_page() {
                        Ok(u) => {},
                        Err(e) => {
                            assert(false);
                            return Err(e);
                        },
                    }
                }

                let mut frame = BufferFrame::new(page_id, self.page_size);
                frame.pin();
                if is_exclusive {
                    frame.set_dirty(true);
                }
                self.frames.push(frame);
                Ok(self.frames.len() - 1)
            },
        }
    }

    /// Lowers the pin count of the frame at index `frame`, first OR-ing
    /// `is_dirty` into its dirty flag. Unpinning a frame whose pin count is
    /// already zero is a caller error reported as `Other` (the dirty flag
    /// still takes effect, as it does when the pin count is positive).
    pub fn unfix_page(&mut self, frame: usize, is_dirty: bool) -> (r: Result<(), BuzzDBError>)
        ensures
            final(self).page_size == old(self).page_size,
            final(self).capacity == old(self).capacity,
            frame >= old(self).frames@.len() ==> {
                &&& (r matches Err(e) && e matches BuzzDBError::Other(_))
                &&& final(self).frames@ == old(self).frames@
            },
            frame < old(self).frames@.len() ==> {
                let f0 = old(self).frames@[frame as int];
                let dirtied = frame_with_dirty(f0, f0.is_dirty || is_dirty);
                if f0.pin_count == 0 {
                    &&& (r matches Err(e) && e matches BuzzDBError::Other(_))
                    &&& final(self).frames@ == old(self).frames@.update(frame as int, dirtied)
                } else {
                    &&& r is Ok
                    &&& final(self).frames@ == old(self).frames@.update(
                        frame as int,
                        frame_unpinned(dirtied),
                    )
                }
            },
            old(self).wf() ==> final(self).wf(),
    {
        if frame >= self.frames.len() {
            return Err(BuzzDBError::Other(String::from_str("Unknown buffer frame")));
        }
        let fr = vec_index_mut(&mut self.frames, frame);
        if is_dirty {
            fr.set_dirty(true);
        }
        fr.unpin()
    }

    /// The write-back hook for one page: clears the frame's dirty flag once
    /// the caller has persisted its bytes. A page that is not resident needs
    /// no write-back, so the call still succeeds.
    pub fn flush_page(&mut self, page_id: PageID) -> (r: Result<(), BuzzDBError>)
        ensures
            r is Ok,
            final(self).page_size == old(self).page_size,
            final(self).capacity == old(self).capacity,
            !old(self).has_page(page_id) ==> final(self).frames@ == old(self).frames@,
            old(self).has_page(page_id) ==> exists|i: int|
                {
                    &&& 0 <= i < old(self).frames@.len()
                    &&& (#[trigger] old(self).frames@[i]).page_id == page_id
                    &&& final(self).frames@ == old(self).frames@.update(
                        i,
                        frame_with_dirty(old(self).frames@[i], false),
                    )
                },
            old(self).wf() ==> final(self).wf(),
    {
        match self.find_page(page_id) {
            Some(i) => {
                let fr = vec_index_mut(&mut self.frames, i);
                fr.set_dirty(false);
                Ok(())
            },
            None => Ok(()),
        }
    }

    /// Applies `flush_page` to every resident page: every dirty flag is
    /// cleared; ids, bytes and pin counts are untouched.
    pub fn flush_all_pages(&mut self) -> (r: Result<(), BuzzDBError>)
        ensures
            r is Ok,
            final(self).page_size == old(self).page_size,
            final(self).capacity == old(self).capacity,
            final(self).frames@.len() == old(self).frames@.len(),
            forall|i: int|
                0 <= i < old(self).frames@.len() ==> final(self).frames@[i] == frame_with_dirty(
                    old(self).frames@[i],
                    false,
                ),
            old(self).wf() ==> final(self).wf(),
    {
        let n = self.frames.len();
        let mut i: usize = 0;
        while i < n
            invariant
                i <= n,
                n == self.frames@.len(),
                self.page_size == old(self).page_size,
                self.capacity == old(self).capacity,
                forall|j: int|
                    0 <= j < i ==> self.frames@[j] == frame_with_dirty(
                        old(self).frames@[j],
                        false,
                    ),
                forall|j: int| i <= j < n ==> self.frames@[j] == old(self).frames@[j],
            decreases n - i,
        {
            let fr = vec_index_mut(&mut self.frames, i);
            fr.set_dirty(false);
            i = i + 1;
        }
        Ok(())
    }

    /// Removes the frame for `page_id`; fails with `Other`, changing
    /// nothing, when that frame is pinned. A page that is not resident is
    /// trivially discarded.
    pub fn discard_page(&mut self, page_id: PageID) -> (r: Result<(), BuzzDBError>)
        ensures
            final(self).page_size == old(self).page_size,
            final(self).capacity == old(self).capacity,
            !old(self).has_page(page_id) ==> r is Ok && final(self).frames@ == old(self).frames@,
            old(self).has_page(page_id) ==> exists|i: int|
                {
                    &&& 0 <= i < old(self).frames@.len()
                    &&& (#[trigger] old(self).frames@[i]).page_id == page_id
                    &&& if old(self).frames@[i].pin_count > 0 {
                        &&& (r matches Err(e) && e matches BuzzDBError::Other(_))
                        &&& final(self).frames@ == old(self).frames@
                    } else {
                        &&& r is Ok
                        &&& final(self).frames@ == old(self).frames@.remove(i)
                    }
                },
            old(self).wf() ==> final(self).wf(),
    {
        match self.find_page(page_id) {
            Some(i) => {
                if self.frames[i].pin_count() > 0 {
                    return Err(
                        BuzzDBError::Other(String::from_str("Cannot discard a pinned page")),
                    );
                }
                self.frames.remove(i);
                Ok(())
            },
            None => Ok(()),
        }
    }

    /// Removes every unpinned frame; pinned frames remain, in order.
    pub fn discard_all_pages(&mut self) -> (r: Result<(), BuzzDBError>)
        ensures
            r is Ok,
            final(self).page_size == old(self).page_size,
            final(self).capacity == old(self).capacity,
            final(self).frames@ == old(self).frames@.filter(frame_pinned_pred()),
            old(self).wf() ==> final(self).wf(),
    {
        let ghost n = old(self).frames@.len() as int;
        let mut i: usize = 0;
        let ghost mut j: int = 0;
        while i < self.frames.len()
            invariant
                self.page_size == old(self).page_size,
                self.capacity == old(self).capacity,
                0 <= j <= n,
                n == old(self).frames@.len(),
                i as int == old(self).frames@.take(j).filter(frame_pinned_pred()).len(),
                self.frames@ == old(self).frames@.take(j).filter(frame_pinned_pred()) + old(
                    self,
                ).frames@.skip(j),
            decreases n - j,
        {
            proof {
                reveal_with_fuel(Seq::<_>::filter, 2);
                old(self).frames@.take(j).lemma_filter_len(frame_pinned_pred());
                assert(j < n);
                assert(old(self).frames@.take(j + 1).drop_last() =~= old(self).frames@.take(j));
                assert(old(self).frames@.take(j + 1).last() == old(self).frames@[j]);
                assert(self.frames@[i as int] == old(self).frames@[j]);
            }
            if self.frames[i].pin_count() == 0 {
                self.frames.remove(i);
                proof {
                    reveal_with_fuel(Seq::<_>::filter, 2);
                    let s = old(self).frames@;
                    assert(s.take(j + 1).len() == j + 1);
                    assert(s.take(j + 1).last() == s[j]);
                    assert(s[j].pin_count == 0);
                    assert(!frame_pinned_pred()(s[j]));
                    assert(s.take(j + 1).drop_last() =~= s.take(j));
                    assert(s.take(j + 1).filter(frame_pinned_pred()) == s.take(j + 1).drop_last().filter(frame_pinned_pred()));
                    assert(old(self).frames@.take(j + 1).filter(frame_pinned_pred()) == old(
                        self,
                    ).frames@.take(j).filter(frame_pinned_pred()));
                    assert(self.frames@ =~= old(self).frames@.take(j + 1).filter(frame_pinned_pred()) + old(
                        self,
                    ).frames@.skip(j + 1));
                    j = j + 1;
                }
            } else {
                i = i + 1;
                proof {
                    reveal_with_fuel(Seq::<_>::filter, 2);
                    assert(old(self).frames@.take(j + 1).drop_last() =~= old(
                        self,
                    ).frames@.take(j));
                    assert(old(self).frames@.take(j + 1).filter(frame_pinned_pred()) =~= old(
                        self,
                    ).frames@.take(j).filter(frame_pinned_pred()).push(old(self).frames@[j]));
                    assert(self.frames@ =~= old(self).frames@.take(j + 1).filter(frame_pinned_pred()) + old(
                        self,
                    ).frames@.skip(j + 1));
                    j = j + 1;
                }
            }
        }
        proof {
            old(self).frames@.take(j).lemma_filter_len(frame_pinned_pred());
            assert(j == n);
            assert(old(self).frames@.take(n) =~= old(self).frames@);
            assert(self.frames@ =~= old(self).frames@.filter(frame_pinned_pred()));
            if old(self).wf() {
                lemma_filter_keeps_frames(old(self).frames@, frame_pinned_pred());
            }
        }
        Ok(())
    }

    pub fn get_page_size(&self) -> (s: usize)
        ensures
            s == self.page_size,
    {
        self.page_size
    }

    /// Packs a segment id into the top 16 bits of a page id.
    pub fn get_overall_page_id(segment_id: u16, page_id: u64) -> (r: PageID)
        ensures
            r.0 == ((segment_id as u64) << 48) | page_id,
    {
        PageID(((segment_id as u64) << 48) | page_id)
    }

    /// The segment id held in the top 16 bits.
    pub fn get_segment_id(overall_page_id: PageID) -> (r: u16)
        ensures
            r == (overall_page_id.0 >> 48) as u16,
    {
        (overall_page_id.0 >> 48) as u16
    }

    /// The page-within-segment id held in the low 48 bits.
    pub fn get_segment_page_id(overall_page_id: PageID) -> (r: u64)
        ensures
            r == overall_page_id.0 & 0x0000FFFFFFFFFFFF,
    {
        overall_page_id.0 & 0x0000FFFFFFFFFFFF
    }
}

/// In a pool whose frames carry pairwise-distinct page ids, the page map
/// assigns to frame `i`'s page exactly frame `i`'s bytes.
pub proof fn lemma_pages_map_index(bm: &BufferManager, i: int)
    requires
        forall|k: int, l: int|
            0 <= k < l < bm.frames@.len() ==> bm.frames@[k].page_id != bm.frames@[l].page_id,
        0 <= i < bm.frames@.len(),
    ensures
        bm.pages_map().dom().contains(bm.frames@[i].page_id.0),
        bm.pages_map()[bm.frames@[i].page_id.0] == bm.frames@[i].data@,
{
    let pid = bm.frames@[i].page_id;
    assert(pid == PageID(pid.0));
    assert(bm.has_page(PageID(pid.0)));
    let k = choose|k: int|
        0 <= k < bm.frames@.len() && (#[trigger] bm.frames@[k]).page_id == PageID(pid.0);
    assert(k == i);
}

/// Removing one frame removes exactly its page from the page map.
pub proof fn lemma_pages_map_after_remove(bm1: &BufferManager, bm2: &BufferManager, i: int)
    requires
        forall|k: int, l: int|
            0 <= k < l < bm1.frames@.len() ==> bm1.frames@[k].page_id != bm1.frames@[l].page_id,
        0 <= i < bm1.frames@.len(),
        bm2.frames@ == bm1.frames@.remove(i),
    ensures
        bm2.pages_map() == bm1.pages_map().remove(bm1.frames@[i].page_id.0),
{
    let pid = bm1.frames@[i].page_id;
    assert(forall|k: int, l: int|
        0 <= k < l < bm2.frames@.len() ==> bm2.frames@[k].page_id != bm2.frames@[l].page_id) by {
        assert forall|k: int, l: int|
            0 <= k < l < bm2.frames@.len() implies bm2.frames@[k].page_id
            != bm2.frames@[l].page_id by {
            let k0: int = if k < i {
                k
            } else {
                k + 1
            };
            let l0: int = if l < i {
                l
            } else {
                l + 1
            };
            assert(bm2.frames@[k] == bm1.frames@[k0]);
            assert(bm2.frames@[l] == bm1.frames@[l0]);
        }
    }
    assert forall|p: u64| #[trigger] bm2.pages_map().dom().contains(p) <==> bm1.pages_map().remove(
        pid.0,
    ).dom().contains(p) by {
        if bm2.has_page(PageID(p)) {
            let k = choose|k: int|
                0 <= k < bm2.frames@.len() && (#[trigger] bm2.frames@[k]).page_id == PageID(p);
            let k0: int = if k < i {
                k
            } else {
                k + 1
            };
            assert(bm1.frames@[k0].page_id == PageID(p));
            assert(k0 != i ==> p != pid.0);
            assert(k0 != i);
            assert(bm1.has_page(PageID(p)));
        }
        if bm1.has_page(PageID(p)) && p != pid.0 {
            let k = choose|k: int|
                0 <= k < bm1.frames@.len() && (#[trigger] bm1.frames@[k]).page_id == PageID(p);
            assert(k != i);
            if k < i {
                assert(bm2.frames@[k].page_id == PageID(p));
            } else {
                assert(bm2.frames@[k - 1].page_id == PageID(p));
            }
            assert(bm2.has_page(PageID(p)));
        }
    }
    assert forall|p: u64| #[trigger] bm2.pages_map().dom().contains(p) implies bm2.pages_map()[p]
        == bm1.pages_map()[p] by {
        let k = choose|k: int|
            0 <= k < bm2.frames@.len() && (#[trigger] bm2.frames@[k]).page_id == PageID(p);
        lemma_pages_map_index(bm2, k);
        let k0: int = if k < i {
            k
        } else {
            k + 1
        };
        assert(bm1.frames@[k0] == bm2.frames@[k]);
        lemma_pages_map_index(bm1, k0);
    }
    assert(bm2.pages_map() =~~= bm1.pages_map().remove(pid.0));
}

/// Every element of a filtered frame sequence is an element of the
/// original, so filtering keeps page-id distinctness and byte lengths.
proof fn lemma_filter_keeps_frames(s: Seq<BufferFrame>, pred: spec_fn(BufferFrame) -> bool)
    ensures
        forall|i: int|
            0 <= i < s.filter(pred).len() ==> exists|k: int|
                0 <= k < s.len() && #[trigger] s.filter(pred)[i] == s[k],
        forall|i: int, j: int|
            0 <= i < j < s.filter(pred).len() ==> exists|k: int, l: int|
                {
                    &&& 0 <= k < l < s.len()
                    &&& #[trigger] s.filter(pred)[i] == s[k]
                    &&& #[trigger] s.filter(pred)[j] == s[l]
                },
    decreases s.len(),
{
    reveal_with_fuel(Seq::<_>::filter, 2);
    if s.len() > 0 {
        let dl = s.drop_last();
        lemma_filter_keeps_frames(dl, pred);
        let out = s.filter(pred);
        let sub = dl.filter(pred);
        assert forall|i: int| 0 <= i < out.len() implies exists|k: int|
            0 <= k < s.len() && #[trigger] out[i] == s[k] by {
            if i < sub.len() {
                let k = choose|k: int| 0 <= k < dl.len() && sub[i] == dl[k];
                assert(out[i] == s[k]);
            } else {
                assert(out[i] == s[s.len() - 1]);
            }
        }
        assert forall|i: int, j: int| 0 <= i < j < out.len() implies exists|k: int, l: int|
            {
                &&& 0 <= k < l < s.len()
                &&& #[trigger] out[i] == s[k]
                &&& #[trigger] out[j] == s[l]
            } by {
            if j < sub.len() {
                let (k, l) = choose|k: int, l: int|
                    {
                        &&& 0 <= k < l < dl.len()
                        &&& sub[i] == dl[k]
                        &&& sub[j] == dl[l]
                    };
                assert(out[i] == s[k] && out[j] == s[l]);
            } else {
                let k = choose|k: int| 0 <= k < dl.len() && sub[i] == dl[k];
                assert(out[i] == s[k] && out[j] == s[s.len() - 1]);
            }
        }
    }
}

/// Packing a segment id and a page id and unpacking them again returns the
/// inputs exactly, for every page id that fits in 48 bits: the conversions
/// are mutually inverse.
pub proof fn lemma_page_id_packing(segment_id: u16, page_id: u64)
    requires
        page_id < 0x1000000000000,
    ensures
        (((segment_id as u64) << 48) | page_id) >> 48 == segment_id as u64,
        (((segment_id as u64) << 48) | page_id) & 0x0000FFFFFFFFFFFF == page_id,
{
    assert((((segment_id as u64) << 48) | page_id) >> 48 == segment_id as u64) by (bit_vector)
        requires
            page_id < 0x1000000000000,
    ;
    assert((((segment_id as u64) << 48) | page_id) & 0x0000FFFFFFFFFFFF == page_id)
        by (bit_vector)
        requires
            page_id < 0x1000000000000,
    ;
}

/// Every pin count of a well-formed pool is at least zero: pin counts are
/// naturals and can never underflow.
pub proof fn lemma_pin_counts_nonnegative(bm: &BufferManager)
    ensures
        forall|i: int| 0 <= i < bm.frames@.len() ==> (#[trigger] bm.frames@[i]).pin_count >= 0,
{
}

/// A well-formed pool never holds more frames than its capacity.
pub proof fn lemma_frames_bounded_by_capacity(bm: &BufferManager)
    requires
        bm.wf(),
    ensures
        bm.frames@.len() <= bm.capacity,
{
}

} // verus!
