//! The physical-frame arena: page-sized frames indexed by physical page
//! number, each carrying a reference count and its byte contents. A region's
//! ownership of a frame is a handle into this arena; releasing the last
//! handle returns the slot to the free pool. Frames are zero-filled when
//! first handed out.

use vstd::prelude::*;

use crate::addr::PhysPageNum;
use crate::config::PAGE_SIZE;

verus! {

/// One physical frame: its current reference count and its bytes.
/// A count of zero means the slot is free and may be handed out again.
pub struct FrameSlot {
    pub refs: usize,
    pub data: Vec<u8>,
}

/// The arena of physical frames. Frame `base + i` lives at slot `i`;
/// at most `capacity` frames ever exist at once.
pub struct FrameArena {
    pub slots: Vec<FrameSlot>,
    pub base: usize,
    pub capacity: usize,
    pub live: usize,
}

/// The contents of a freshly handed-out frame: one page of zeroes.
pub open spec fn zero_page() -> Seq<u8> {
    Seq::new(PAGE_SIZE as nat, |i: int| 0u8)
}

/// Number of slots of the sequence whose reference count is positive.
pub open spec fn live_count(s: Seq<FrameSlot>) -> int
    decreases s.len(),
{
    if s.len() == 0 {
        0
    } else {
        live_count(s.drop_last()) + if s.last().refs > 0 {
            1int
        } else {
            0int
        }
    }
}

pub proof fn lemma_live_count_bounds(s: Seq<FrameSlot>)
    ensures
        0 <= live_count(s) <= s.len(),
    decreases s.len(),
{
    if s.len() > 0 {
        lemma_live_count_bounds(s.drop_last());
    }
}

pub proof fn lemma_live_count_full(s: Seq<FrameSlot>)
    requires
        forall|j: int| 0 <= j < s.len() ==> s[j].refs > 0,
    ensures
        live_count(s) == s.len(),
    decreases s.len(),
{
    if s.len() > 0 {
        lemma_live_count_full(s.drop_last());
    }
}

pub proof fn lemma_live_count_missing(s: Seq<FrameSlot>, i: int)
    requires
        0 <= i < s.len(),
        s[i].refs == 0,
    ensures
        live_count(s) < s.len(),
    decreases s.len(),
{
    lemma_live_count_bounds(s.drop_last());
    if i < s.len() - 1 {
        lemma_live_count_missing(s.drop_last(), i);
    }
}

pub proof fn lemma_live_count_present(s: Seq<FrameSlot>, i: int)
    requires
        0 <= i < s.len(),
        s[i].refs > 0,
    ensures
        live_count(s) >= 1,
    decreases s.len(),
{
    lemma_live_count_bounds(s.drop_last());
    if i < s.len() - 1 {
        lemma_live_count_present(s.drop_last(), i);
    }
}

pub proof fn lemma_live_count_push(s: Seq<FrameSlot>, v: FrameSlot)
    ensures
        live_count(s.push(v)) == live_count(s) + if v.refs > 0 {
            1int
        } else {
            0int
        },
{
    assert(s.push(v).drop_last() =~= s);
}

pub proof fn lemma_live_count_update(s: Seq<FrameSlot>, i: int, v: FrameSlot)
    requires
        0 <= i < s.len(),
    ensures
        live_count(s.update(i, v)) == live_count(s) - (if s[i].refs > 0 {
            1int
        } else {
            0int
        }) + (if v.refs > 0 {
            1int
        } else {
            0int
        }),
    decreases s.len(),
{
    if i == s.len() - 1 {
        assert(s.update(i, v).drop_last() =~= s.drop_last());
    } else {
        assert(s.update(i, v).drop_last() =~= s.drop_last().update(i, v));
        lemma_live_count_update(s.drop_last(), i, v);
    }
}

impl FrameArena {
    /// Basic well-formedness: slot count within capacity, page-sized data,
    /// and an accurate live-slot counter.
    pub open spec fn wf(self) -> bool {
        &&& self.slots.len() <= self.capacity
        &&& self.base + self.capacity <= usize::MAX
        &&& forall|i: int|
            0 <= i < self.slots.len() ==> (#[trigger] self.slots@[i]).data.len() == PAGE_SIZE
        &&& self.live == live_count(self.slots@)
    }

    /// The frame number has a slot in the arena.
    pub open spec fn contains_ppn(self, ppn: int) -> bool {
        self.base <= ppn < self.base + self.slots.len()
    }

    /// Reference count of the frame.
    pub open spec fn refs_of(self, ppn: int) -> int {
        self.slots@[ppn - self.base].refs as int
    }

    /// Bytes of the frame.
    pub open spec fn data_of(self, ppn: int) -> Seq<u8> {
        self.slots@[ppn - self.base].data@
    }

    /// The frame exists and is currently handed out.
    pub open spec fn is_live(self, ppn: int) -> bool {
        self.contains_ppn(ppn) && self.refs_of(ppn) > 0
    }

    /// How many more frames can be handed out.
    pub open spec fn free_frames(self) -> int {
        self.capacity - self.live
    }

    /// The arena changed at most at frame `ppn`: geometry, every other
    /// slot's count and bytes are those of `pre`.
    pub open spec fn same_except(self, pre: FrameArena, ppn: int) -> bool {
        &&& self.base == pre.base
        &&& self.capacity == pre.capacity
        &&& self.slots.len() >= pre.slots.len()
        &&& forall|q: int|
            pre.contains_ppn(q) && q != ppn ==> #[trigger] self.refs_of(q) == pre.refs_of(q)
                && self.data_of(q) == pre.data_of(q)
        &&& forall|q: int| self.contains_ppn(q) ==> q == ppn || pre.contains_ppn(q)
    }

    /// An empty arena able to hand out `capacity` frames numbered upward
    /// from `base`.
    pub fn new(base: usize, capacity: usize) -> (r: FrameArena)
        requires
            base + capacity <= usize::MAX,
        ensures
            r.wf(),
            r.base == base,
            r.capacity == capacity,
            r.slots.len() == 0,
            r.free_frames() == capacity,
    {
        FrameArena { slots: Vec::new(), base, capacity, live: 0 }
    }

    /// How many more frames the arena can hand out.
    pub fn free_count(&self) -> (r: usize)
        requires
            self.wf(),
        ensures
            r == self.free_frames(),
    {
        proof {
            lemma_live_count_bounds(self.slots@);
        }
        self.capacity - self.live
    }

    /// One page of zeroes.
    fn zeroed_page() -> (r: Vec<u8>)
        ensures
            r@ == zero_page(),
    {
        let mut v: Vec<u8> = Vec::new();
        let mut i: usize = 0;
        while i < PAGE_SIZE
            invariant
                i <= PAGE_SIZE,
                v@ =~= Seq::new(i as nat, |k: int| 0u8),
            decreases PAGE_SIZE - i,
        {
            v.push(0u8);
            i = i + 1;
        }
        proof {
            assert(v@ =~= zero_page());
        }
        v
    }

    /// Hand out a frame: reference count one, zero-filled. Succeeds
    /// whenever a frame is still free.
    pub fn allocate(&mut self) -> (r: Option<PhysPageNum>)
        requires
            old(self).wf(),
        ensures
            final(self).wf(),
            match r {
                None => *final(self) == *old(self) && old(self).free_frames() == 0,
                Some(p) => {
                    &&& final(self).same_except(*old(self), p.0 as int)
                    &&& !old(self).is_live(p.0 as int)
                    &&& final(self).is_live(p.0 as int)
                    &&& final(self).refs_of(p.0 as int) == 1
                    &&& final(self).data_of(p.0 as int) == zero_page()
                    &&& final(self).free_frames() == old(self).free_frames() - 1
                },
            },
            old(self).free_frames() > 0 ==> r.is_some(),
    {
        proof {
            lemma_live_count_bounds(self.slots@);
        }
        let mut i: usize = 0;
        let n: usize = self.slots.len();
        while i < n
            invariant
                n == self.slots.len(),
                i <= n,
                forall|j: int| 0 <= j < i ==> (#[trigger] self.slots@[j]).refs > 0,
                self.wf(),
                *self == *old(self),
            decreases n - i,
        {
            if self.slots[i].refs == 0 {
                let ghost pre = *self;
                proof {
                    lemma_live_count_missing(self.slots@, i as int);
                }
                self.slots[i].refs = 1;
                self.slots[i].data = Self::zeroed_page();
                self.live = self.live + 1;
                proof {
                    assert(self.slots@ =~= pre.slots@.update(i as int, self.slots@[i as int]));
                    lemma_live_count_update(pre.slots@, i as int, self.slots@[i as int]);
                }
                return Some(PhysPageNum(self.base + i));
            }
            i = i + 1;
        }
        if self.slots.len() < self.capacity {
            let ghost pre = *self;
            proof {
                lemma_live_count_bounds(self.slots@);
            }
            let p: usize = self.base + self.slots.len();
            self.slots.push(FrameSlot { refs: 1, data: Self::zeroed_page() });
            self.live = self.live + 1;
            proof {
                lemma_live_count_push(pre.slots@, self.slots@.last());
            }
            Some(PhysPageNum(p))
        } else {
            proof {
                lemma_live_count_full(self.slots@);
            }
            None
        }
    }

    /// Record one more sharer of a live frame.
    pub fn add_ref(&mut self, ppn: PhysPageNum)
        requires
            old(self).wf(),
            old(self).is_live(ppn.0 as int),
            old(self).refs_of(ppn.0 as int) < usize::MAX,
        ensures
            final(self).wf(),
            final(self).same_except(*old(self), ppn.0 as int),
            final(self).slots.len() == old(self).slots.len(),
            final(self).refs_of(ppn.0 as int) == old(self).refs_of(ppn.0 as int) + 1,
            final(self).data_of(ppn.0 as int) == old(self).data_of(ppn.0 as int),
            final(self).free_frames() == old(self).free_frames(),
    {
        let ghost pre = *self;
        let i: usize = ppn.0 - self.base;
        let r: usize = self.slots[i].refs;
        self.slots[i].refs = r + 1;
        proof {
            lemma_live_count_update(pre.slots@, i as int, self.slots@[i as int]);
        }
    }

    /// Reference count of a frame.
    pub fn ref_count(&self, ppn: PhysPageNum) -> (r: usize)
        requires
            self.wf(),
            self.contains_ppn(ppn.0 as int),
        ensures
            r == self.refs_of(ppn.0 as int),
    {
        self.slots[ppn.0 - self.base].refs
    }

    /// Drop one sharer of a live frame; at count zero the slot becomes
    /// free again.
    pub fn release(&mut self, ppn: PhysPageNum)
        requires
            old(self).wf(),
            old(self).is_live(ppn.0 as int),
        ensures
            final(self).wf(),
            final(self).same_except(*old(self), ppn.0 as int),
            final(self).slots.len() == old(self).slots.len(),
            final(self).refs_of(ppn.0 as int) == old(self).refs_of(ppn.0 as int) - 1,
            final(self).data_of(ppn.0 as int) == old(self).data_of(ppn.0 as int),
            final(self).free_frames() == old(self).free_frames() + (
            if old(self).refs_of(ppn.0 as int) == 1 {
                1int
            } else {
                0int
            }),
    {
        let ghost pre = *self;
        let i: usize = ppn.0 - self.base;
        proof {
            lemma_live_count_present(self.slots@, i as int);
        }
        let r: usize = self.slots[i].refs;
        self.slots[i].refs = r - 1;
        if r == 1 {
            self.live = self.live - 1;
        }
        proof {
            lemma_live_count_update(pre.slots@, i as int, self.slots@[i as int]);
        }
    }

    /// Read one byte of a frame.
    pub fn read_byte(&self, ppn: PhysPageNum, offset: usize) -> (r: u8)
        requires
            self.wf(),
            self.contains_ppn(ppn.0 as int),
            offset < PAGE_SIZE,
        ensures
            r == self.data_of(ppn.0 as int)[offset as int],
    {
        self.slots[ppn.0 - self.base].data[offset]
    }

    /// Write one byte of a live frame.
    pub fn write_byte(&mut self, ppn: PhysPageNum, offset: usize, b: u8)
        requires
            old(self).wf(),
            old(self).is_live(ppn.0 as int),
            offset < PAGE_SIZE,
        ensures
            final(self).wf(),
            final(self).same_except(*old(self), ppn.0 as int),
            final(self).slots.len() == old(self).slots.len(),
            final(self).refs_of(ppn.0 as int) == old(self).refs_of(ppn.0 as int),
            final(self).data_of(ppn.0 as int) == old(self).data_of(ppn.0 as int).update(
                offset as int,
                b,
            ),
            final(self).free_frames() == old(self).free_frames(),
    {
        let ghost pre = *self;
        let i: usize = ppn.0 - self.base;
        self.slots[i].data[offset] = b;
        proof {
            lemma_live_count_update(pre.slots@, i as int, self.slots@[i as int]);
        }
    }

    /// Copy the whole contents of one live frame into another.
    pub fn copy_frame(&mut self, src: PhysPageNum, dst: PhysPageNum)
        requires
            old(self).wf(),
            old(self).is_live(src.0 as int),
            old(self).is_live(dst.0 as int),
            src.0 != dst.0,
        ensures
            final(self).wf(),
            final(self).same_except(*old(self), dst.0 as int),
            final(self).slots.len() == old(self).slots.len(),
            final(self).refs_of(dst.0 as int) == old(self).refs_of(dst.0 as int),
            final(self).data_of(dst.0 as int) == old(self).data_of(src.0 as int),
            final(self).free_frames() == old(self).free_frames(),
    {
        let mut k: usize = 0;
        while k < PAGE_SIZE
            invariant
                k <= PAGE_SIZE,
                self.wf(),
                self.same_except(*old(self), dst.0 as int),
                self.slots.len() == old(self).slots.len(),
                self.is_live(src.0 as int),
                self.is_live(dst.0 as int),
                src.0 != dst.0,
                self.refs_of(dst.0 as int) == old(self).refs_of(dst.0 as int),
                self.data_of(src.0 as int) == old(self).data_of(src.0 as int),
                self.data_of(dst.0 as int).len() == PAGE_SIZE,
                forall|j: int|
                    0 <= j < k ==> self.data_of(dst.0 as int)[j] == old(self).data_of(
                        src.0 as int,
                    )[j],
                self.free_frames() == old(self).free_frames(),
            decreases PAGE_SIZE - k,
        {
            let b: u8 = self.read_byte(src, k);
            let ghost prev = *self;
            self.write_byte(dst, k, b);
            proof {
                assert(self.refs_of(src.0 as int) == prev.refs_of(src.0 as int));
            }
            k = k + 1;
        }
        proof {
            assert(self.data_of(dst.0 as int) =~= old(self).data_of(src.0 as int));
        }
    }
}

} // verus!
