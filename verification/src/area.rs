//! Mapped regions: a contiguous range of virtual pages with one mapping
//! policy (direct identity mapping for trusted kernel ranges, or indirected
//! frame-backed mapping), its protection, and — for indirected regions —
//! the ownership handles of the frames currently backing it.

use vstd::prelude::*;

use std::collections::HashMap;

use crate::addr::{spec_ceil, spec_floor, spec_page_offset, PhysPageNum, VirtAddr, VirtPageNum};
use crate::config::PAGE_SIZE;
use crate::frame::{zero_page, FrameArena};
use crate::page_table::{PTEFlags, PageTable, PageTableEntry};

verus! {

broadcast use vstd::std_specs::hash::group_hash_axioms;

/// Mapping policy of a region.
#[derive(Clone, Copy, PartialEq, Eq, Structural, Debug)]
pub enum MapType {
    /// Physical page number equals virtual page number; legal only for
    /// trusted kernel ranges.
    Identical,
    /// Each page is backed by a frame allocated from the arena.
    Framed,
}

/// Protection requested for a region.
#[derive(Clone, Copy, PartialEq, Eq, Structural, Debug)]
pub struct MapPermission {
    pub r: bool,
    pub w: bool,
    pub x: bool,
    pub u: bool,
}

impl MapPermission {
    pub fn new(r: bool, w: bool, x: bool, u: bool) -> (p: MapPermission)
        ensures
            p == (MapPermission { r, w, x, u }),
    {
        MapPermission { r, w, x, u }
    }

    /// The page-table flags a region of this permission installs.
    pub open spec fn spec_pte_flags(self) -> PTEFlags {
        PTEFlags { v: true, r: self.r, w: self.w, x: self.x, u: self.u, cow: false }
    }

    /// Executable form of [`Self::spec_pte_flags`].
    pub fn pte_flags(self) -> (f: PTEFlags)
        ensures
            f == self.spec_pte_flags(),
    {
        PTEFlags::new(self.r, self.w, self.x, self.u)
    }
}

/// A half-open range of virtual page numbers.
#[derive(Clone, Copy, PartialEq, Eq, Structural, Debug)]
pub struct VPNRange {
    pub start: VirtPageNum,
    pub end: VirtPageNum,
}

impl VPNRange {
    pub fn new(start: VirtPageNum, end: VirtPageNum) -> (r: VPNRange)
        ensures
            r == (VPNRange { start, end }),
    {
        VPNRange { start, end }
    }

    pub fn get_start(&self) -> (r: VirtPageNum)
        ensures
            r == self.start,
    {
        self.start
    }

    pub fn get_end(&self) -> (r: VirtPageNum)
        ensures
            r == self.end,
    {
        self.end
    }

    /// The page number lies in the range.
    pub open spec fn contains(self, v: usize) -> bool {
        self.start.0 <= v < self.end.0
    }

    /// Number of pages in the range.
    pub open spec fn page_count(self) -> int {
        self.end.0 - self.start.0
    }

    /// The two ranges have no page in common.
    pub open spec fn disjoint(self, other: VPNRange) -> bool {
        self.end.0 <= other.start.0 || other.end.0 <= self.start.0
    }
}

/// The byte visible through address translation at virtual address `va`:
/// the page table resolves the page, the arena holds the frame's bytes.
pub open spec fn mem_byte(pt: Map<usize, PageTableEntry>, arena: FrameArena, va: int) -> u8 {
    arena.data_of(pt[spec_floor(va) as usize].ppn.0 as int)[spec_page_offset(va)]
}

/// Splitting a byte position within a region into its page index and
/// page offset commutes with address arithmetic.
pub proof fn lemma_page_split(start: int, pos: int)
    requires
        0 <= start,
        0 <= pos,
    ensures
        spec_floor(start * PAGE_SIZE + pos) == start + pos / (PAGE_SIZE as int),
        spec_page_offset(start * PAGE_SIZE + pos) == pos % (PAGE_SIZE as int),
{
    let p = PAGE_SIZE as int;
    vstd::arithmetic::div_mod::lemma_fundamental_div_mod(pos, p);
    vstd::arithmetic::div_mod::lemma_div_pos_is_pos(pos, p);
    assert(start * p + pos == p * (start + pos / p) + pos % p);
    vstd::arithmetic::div_mod::lemma_div_multiples_vanish_fancy(start + pos / p, pos % p, p);
    vstd::arithmetic::div_mod::lemma_mod_multiples_vanish(start + pos / p, pos % p, p);
}

/// A contiguous virtual range with one mapping policy and, for indirected
/// regions, the map from virtual page to the owned backing frame.
pub struct MapArea {
    pub vpn_range: VPNRange,
    pub data_frames: HashMap<usize, PhysPageNum>,
    pub map_type: MapType,
    pub map_perm: MapPermission,
}

impl MapArea {
    /// Structural well-formedness: an ordered range; frame handles only
    /// for pages of the range, no frame owned twice, and none at all for a
    /// direct region.
    pub open spec fn wf(self) -> bool {
        &&& self.vpn_range.start.0 <= self.vpn_range.end.0
        &&& forall|v: usize|
            #[trigger] self.data_frames@.contains_key(v) ==> self.vpn_range.contains(v)
        &&& forall|v1: usize, v2: usize|
            #[trigger] self.data_frames@.contains_key(v1) && #[trigger] self.data_frames@.contains_key(v2)
                && v1 != v2 ==> self.data_frames@[v1] != self.data_frames@[v2]
        &&& self.map_type == MapType::Identical ==> self.data_frames@ == Map::<
            usize,
            PhysPageNum,
        >::empty()
    }

    /// The region owns the frame `q`.
    pub open spec fn owns_ppn(self, q: int) -> bool {
        exists|v: usize| #[trigger] self.data_frames@.contains_key(v) && self.data_frames@[v].0 == q
    }

    /// Every frame handle of the region is live in the arena.
    pub open spec fn frames_live(self, arena: FrameArena) -> bool {
        forall|v: usize|
            #[trigger] self.data_frames@.contains_key(v) ==> arena.is_live(
                self.data_frames@[v].0 as int,
            )
    }

    /// The region is fully installed in the page table: every page of the
    /// range translates, direct pages to themselves, indirected pages to
    /// the owned frame, which is live in the arena.
    pub open spec fn mapped_in(self, pt: Map<usize, PageTableEntry>, arena: FrameArena) -> bool {
        forall|v: usize|
            #[trigger] self.vpn_range.contains(v) ==> {
                &&& pt.contains_key(v)
                &&& match self.map_type {
                    MapType::Identical => pt[v].ppn.0 == v,
                    MapType::Framed => self.data_frames@.contains_key(v) && pt[v].ppn
                        == self.data_frames@[v] && arena.is_live(pt[v].ppn.0 as int),
                }
            }
    }

    /// A new region covering the given byte range, rounded outward to
    /// whole pages, with no frames yet.
    pub fn new(start_va: VirtAddr, end_va: VirtAddr, map_type: MapType, map_perm: MapPermission) -> (r:
        MapArea)
        requires
            start_va.0 <= end_va.0,
        ensures
            r.wf(),
            r.vpn_range.start.0 == spec_floor(start_va.0 as int),
            r.vpn_range.end.0 == spec_ceil(end_va.0 as int),
            r.map_type == map_type,
            r.map_perm == map_perm,
            r.data_frames@ == Map::<usize, PhysPageNum>::empty(),
    {
        let start_vpn: VirtPageNum = start_va.floor();
        let end_vpn: VirtPageNum = end_va.ceil();
        proof {
            vstd::arithmetic::div_mod::lemma_div_is_ordered(
                start_va.0 as int,
                end_va.0 as int + PAGE_SIZE - 1,
                PAGE_SIZE as int,
            );
        }
        MapArea {
            vpn_range: VPNRange::new(start_vpn, end_vpn),
            data_frames: HashMap::new(),
            map_type,
            map_perm,
        }
    }

    /// A structurally identical, frame-empty clone, used when building a
    /// fork candidate before deciding per-page copy-vs-share.
    pub fn from_another(another: &MapArea) -> (r: MapArea)
        ensures
            r.vpn_range == another.vpn_range,
            r.map_type == another.map_type,
            r.map_perm == another.map_perm,
            r.data_frames@ == Map::<usize, PhysPageNum>::empty(),
            another.wf() ==> r.wf(),
    {
        MapArea {
            vpn_range: VPNRange::new(another.vpn_range.get_start(), another.vpn_range.get_end()),
            data_frames: HashMap::new(),
            map_type: another.map_type,
            map_perm: another.map_perm,
        }
    }

    /// Install one page of the range: a direct page maps to itself, an
    /// indirected page to a freshly allocated, zero-filled frame recorded
    /// in the region's frame map. Relies on the arena still having a free
    /// frame; pool exhaustion during mapping is fatal to the caller.
    pub fn map_one(&mut self, page_table: &mut PageTable, arena: &mut FrameArena, vpn: VirtPageNum)
        requires
            old(self).wf(),
            old(page_table).wf(),
            old(arena).wf(),
            old(self).vpn_range.contains(vpn.0),
            old(self).map_type == MapType::Framed ==> {
                &&& old(arena).free_frames() > 0
                &&& !old(self).data_frames@.contains_key(vpn.0)
                &&& old(self).frames_live(*old(arena))
            },
        ensures
            final(self).wf(),
            final(page_table).wf(),
            final(arena).wf(),
            final(self).vpn_range == old(self).vpn_range,
            final(self).map_type == old(self).map_type,
            final(self).map_perm == old(self).map_perm,
            final(page_table).root_ppn == old(page_table).root_ppn,
            old(self).map_type == MapType::Identical ==> {
                &&& *final(arena) == *old(arena)
                &&& *final(self) == *old(self)
                &&& final(page_table)@ == old(page_table)@.insert(
                    vpn.0,
                    PageTableEntry {
                        ppn: PhysPageNum(vpn.0),
                        flags: old(self).map_perm.spec_pte_flags(),
                    },
                )
            },
            old(self).map_type == MapType::Framed ==> {
                let p = final(self).data_frames@[vpn.0];
                &&& final(self).data_frames@ == old(self).data_frames@.insert(vpn.0, p)
                &&& final(page_table)@ == old(page_table)@.insert(
                    vpn.0,
                    PageTableEntry { ppn: p, flags: old(self).map_perm.spec_pte_flags() },
                )
                &&& final(arena).same_except(*old(arena), p.0 as int)
                &&& !old(arena).is_live(p.0 as int)
                &&& final(arena).is_live(p.0 as int)
                &&& final(arena).refs_of(p.0 as int) == 1
                &&& final(arena).data_of(p.0 as int) == zero_page()
                &&& final(arena).free_frames() == old(arena).free_frames() - 1
            },
    {
        let ppn: PhysPageNum;
        match self.map_type {
            MapType::Identical => {
                ppn = PhysPageNum(vpn.0);
            },
            MapType::Framed => {
                match arena.allocate() {
                    Some(frame) => {
                        ppn = frame;
                        self.data_frames.insert(vpn.0, frame);
                        proof {
                            assert forall|v1: usize, v2: usize|
                                #[trigger] self.data_frames@.contains_key(v1)
                                    && #[trigger] self.data_frames@.contains_key(v2) && v1
                                    != v2 implies self.data_frames@[v1] != self.data_frames@[v2] by {
                                if v1 == vpn.0 {
                                    assert(old(self).data_frames@.contains_key(v2));
                                    assert(old(arena).is_live(old(self).data_frames@[v2].0 as int));
                                } else if v2 == vpn.0 {
                                    assert(old(self).data_frames@.contains_key(v1));
                                    assert(old(arena).is_live(old(self).data_frames@[v1].0 as int));
                                } else {
                                    assert(old(self).data_frames@.contains_key(v1));
                                    assert(old(self).data_frames@.contains_key(v2));
                                }
                            }
                        }
                    },
                    None => {
                        ppn = vstd::pervasive::unreached();
                    },
                }
            },
        }
        let pte_flags = self.map_perm.pte_flags();
        page_table.map(vpn, ppn, pte_flags);
    }

    /// Install every page of the range, allocating one zero-filled frame
    /// per page for an indirected region. Relies on the arena having a
    /// frame for each page; exhaustion is fatal to the caller's context.
    #[verifier::rlimit(60)]
    pub fn map(&mut self, page_table: &mut PageTable, arena: &mut FrameArena)
        requires
            old(self).wf(),
            old(page_table).wf(),
            old(arena).wf(),
            old(self).data_frames@ == Map::<usize, PhysPageNum>::empty(),
            old(self).map_type == MapType::Framed ==> old(arena).free_frames() >= old(self).vpn_range.page_count(),
        ensures
            final(self).wf(),
            final(page_table).wf(),
            final(arena).wf(),
            final(self).vpn_range == old(self).vpn_range,
            final(self).map_type == old(self).map_type,
            final(self).map_perm == old(self).map_perm,
            final(page_table).root_ppn == old(page_table).root_ppn,
            final(self).mapped_in(final(page_table)@, *final(arena)),
            forall|v: usize|
                !old(self).vpn_range.contains(v) ==> (#[trigger] final(page_table)@.contains_key(v)
                    == old(page_table)@.contains_key(v)) && (old(page_table)@.contains_key(v)
                    ==> final(page_table)@[v] == old(page_table)@[v]),
            forall|v: usize|
                #[trigger] old(self).vpn_range.contains(v) ==> final(page_table)@[v].flags == old(self).map_perm.spec_pte_flags(),
            old(self).map_type == MapType::Framed ==> forall|v: usize|
                #[trigger] final(self).data_frames@.contains_key(v) == old(self).vpn_range.contains(
                    v,
                ),
            old(self).map_type == MapType::Identical ==> *final(self) == *old(self) && *final(arena)
                == *old(arena),
            old(self).map_type == MapType::Framed ==> {
                &&& final(arena).base == old(arena).base
                &&& final(arena).capacity == old(arena).capacity
                &&& final(arena).slots.len() >= old(arena).slots.len()
                &&& final(arena).free_frames() == old(arena).free_frames() - old(self).vpn_range.page_count()
                &&& forall|q: int|
                    old(arena).contains_ppn(q) && !final(self).owns_ppn(q)
                        ==> #[trigger] final(arena).refs_of(q) == old(arena).refs_of(q) && final(arena).data_of(q) == old(arena).data_of(q)
                &&& forall|q: int|
                    #[trigger] final(arena).contains_ppn(q) ==> old(arena).contains_ppn(q) || final(self).owns_ppn(q)
                &&& forall|v: usize|
                    #[trigger] final(self).data_frames@.contains_key(v) ==> !old(arena).is_live(
                        final(self).data_frames@[v].0 as int,
                    ) && final(arena).is_live(final(self).data_frames@[v].0 as int) && final(arena).refs_of(final(self).data_frames@[v].0 as int) == 1 && final(arena).data_of(
                        final(self).data_frames@[v].0 as int,
                    ) == zero_page()
            },
    {
        let start: usize = self.vpn_range.get_start().0;
        let end: usize = self.vpn_range.get_end().0;
        let mut v: usize = start;
        while v < end
            invariant
                start == old(self).vpn_range.start.0,
                end == old(self).vpn_range.end.0,
                start <= v <= end,
                self.wf(),
                page_table.wf(),
                arena.wf(),
                self.vpn_range == old(self).vpn_range,
                self.map_type == old(self).map_type,
                self.map_perm == old(self).map_perm,
                page_table.root_ppn == old(page_table).root_ppn,
                self.map_type == MapType::Framed ==> forall|u: usize|
                    #[trigger] self.data_frames@.contains_key(u) == (start <= u < v),
                self.map_type == MapType::Identical ==> *self == *old(self) && *arena == *old(arena),
                forall|u: usize| start <= u < v ==> #[trigger] page_table@.contains_key(u),
                forall|u: usize|
                    start <= u < v ==> #[trigger] page_table@[u].flags == old(self).map_perm.spec_pte_flags(),
                self.map_type == MapType::Identical ==> forall|u: usize|
                    start <= u < v ==> #[trigger] page_table@[u].ppn.0 == u,
                self.map_type == MapType::Framed ==> forall|u: usize|
                    start <= u < v ==> #[trigger] page_table@[u].ppn == self.data_frames@[u]
                        && self.data_frames@.contains_key(u) && arena.is_live(
                        page_table@[u].ppn.0 as int,
                    ),
                forall|u: usize|
                    !(start <= u < v) ==> (#[trigger] page_table@.contains_key(u) == old(page_table)@.contains_key(u)) && (old(page_table)@.contains_key(u) ==> page_table@[u]
                        == old(page_table)@[u]),
                self.map_type == MapType::Framed ==> {
                    &&& old(arena).free_frames() >= end - start
                    &&& arena.base == old(arena).base
                    &&& arena.capacity == old(arena).capacity
                    &&& arena.slots.len() >= old(arena).slots.len()
                    &&& arena.free_frames() == old(arena).free_frames() - (v - start)
                    &&& forall|q: int|
                        old(arena).contains_ppn(q) && !self.owns_ppn(q) ==> #[trigger] arena.refs_of(
                            q,
                        ) == old(arena).refs_of(q) && arena.data_of(q) == old(arena).data_of(q)
                    &&& forall|q: int|
                        #[trigger] arena.contains_ppn(q) ==> old(arena).contains_ppn(q)
                            || self.owns_ppn(q)
                    &&& forall|u: usize|
                        #[trigger] self.data_frames@.contains_key(u) ==> !old(arena).is_live(
                            self.data_frames@[u].0 as int,
                        ) && arena.is_live(self.data_frames@[u].0 as int) && arena.refs_of(
                            self.data_frames@[u].0 as int,
                        ) == 1 && arena.data_of(self.data_frames@[u].0 as int) == zero_page()
                },
            decreases end - v,
        {
            let ghost pre_self = *self;
            let ghost pre_arena = *arena;
            let ghost pre_pt = *page_table;
            proof {
                if self.map_type == MapType::Framed {
                    assert(self.frames_live(*arena));
                    assert(forall|q: int|
                        old(arena).contains_ppn(q) && !pre_self.owns_ppn(q)
                            ==> #[trigger] pre_arena.refs_of(q) == old(arena).refs_of(q)
                            && pre_arena.data_of(q) == old(arena).data_of(q));
                }
            }
            self.map_one(page_table, arena, VirtPageNum(v));
            proof {
                if self.map_type == MapType::Framed {
                    let p = self.data_frames@[v];
                    assert(pre_arena.contains_ppn(p.0 as int) ==> pre_arena.refs_of(p.0 as int)
                        <= 0);
                    assert forall|q: int|
                        old(arena).contains_ppn(q) && !self.owns_ppn(q) implies #[trigger] arena.refs_of(
                        q,
                    ) == old(arena).refs_of(q) && arena.data_of(q) == old(arena).data_of(q) by {
                        assert(!pre_self.owns_ppn(q)) by {
                            if pre_self.owns_ppn(q) {
                                let w = choose|w: usize|
                                    #[trigger] pre_self.data_frames@.contains_key(w)
                                        && pre_self.data_frames@[w].0 == q;
                                assert(self.data_frames@.contains_key(w));
                                assert(self.data_frames@[w].0 == q);
                                assert(self.owns_ppn(q));
                            }
                        }
                        assert(q != p.0 as int) by {
                            if q == p.0 as int {
                                assert(self.data_frames@.contains_key(v));
                                assert(self.owns_ppn(q));
                            }
                        }
                        assert(pre_arena.contains_ppn(q));
                        assert(old(arena).contains_ppn(q));
                        assert(!pre_self.owns_ppn(q));
                        assert(pre_arena.refs_of(q) == old(arena).refs_of(q));
                        assert(pre_arena.data_of(q) == old(arena).data_of(q));
                        assert(arena.refs_of(q) == pre_arena.refs_of(q));
                        assert(arena.data_of(q) == pre_arena.data_of(q));
                    }
                    assert forall|q: int| #[trigger] arena.contains_ppn(q) implies old(arena).contains_ppn(q) || self.owns_ppn(q) by {
                        if !pre_arena.contains_ppn(q) {
                            assert(q == p.0 as int);
                            assert(self.data_frames@.contains_key(v) && self.data_frames@[v].0
                                == q);
                        } else if pre_self.owns_ppn(q) {
                            let w = choose|w: usize|
                                #[trigger] pre_self.data_frames@.contains_key(w)
                                    && pre_self.data_frames@[w].0 == q;
                            assert(self.data_frames@.contains_key(w) && self.data_frames@[w].0
                                == q);
                        }
                    }
                    assert forall|u: usize| #[trigger] self.data_frames@.contains_key(u) implies !old(arena).is_live(self.data_frames@[u].0 as int) && arena.is_live(
                        self.data_frames@[u].0 as int,
                    ) && arena.refs_of(self.data_frames@[u].0 as int) == 1 && arena.data_of(
                        self.data_frames@[u].0 as int,
                    ) == zero_page() by {
                        if u != v {
                            assert(pre_self.data_frames@.contains_key(u));
                            let pq = pre_self.data_frames@[u].0 as int;
                            assert(pre_arena.is_live(pq) && pre_arena.refs_of(pq) == 1);
                            assert(pq != p.0 as int);
                            assert(arena.refs_of(pq) == pre_arena.refs_of(pq));
                            assert(arena.data_of(pq) == pre_arena.data_of(pq));
                        } else {
                            assert(!pre_arena.is_live(p.0 as int));
                            assert(old(arena).contains_ppn(p.0 as int) ==> pre_arena.contains_ppn(
                                p.0 as int,
                            ) && pre_arena.refs_of(p.0 as int) == old(arena).refs_of(p.0 as int));
                        }
                    }
                    assert forall|u: usize|
                        start <= u < v + 1 implies #[trigger] page_table@.contains_key(u)
                        && page_table@[u].flags == old(self).map_perm.spec_pte_flags() && (
                    self.data_frames@.contains_key(u) && page_table@[u].ppn == self.data_frames@[u]
                        && arena.is_live(page_table@[u].ppn.0 as int)) by {
                        if u < v {
                            assert(pre_pt@.contains_key(u));
                            let pq = pre_pt@[u].ppn.0 as int;
                            assert(pre_arena.is_live(pq));
                            assert(pq != p.0 as int);
                            assert(arena.refs_of(pq) == pre_arena.refs_of(pq));
                        }
                    }
                } else {
                    assert forall|u: usize|
                        start <= u < v + 1 implies #[trigger] page_table@.contains_key(u)
                        && page_table@[u].flags == old(self).map_perm.spec_pte_flags()
                        && page_table@[u].ppn.0 == u by {
                        if u < v {
                            assert(pre_pt@.contains_key(u));
                        }
                    }
                }
            }
            v = v + 1;
        }
        proof {
            assert forall|u: usize| #[trigger] self.vpn_range.contains(u) implies {
                &&& page_table@.contains_key(u)
                &&& match self.map_type {
                    MapType::Identical => page_table@[u].ppn.0 == u,
                    MapType::Framed => self.data_frames@.contains_key(u) && page_table@[u].ppn
                        == self.data_frames@[u] && arena.is_live(page_table@[u].ppn.0 as int),
                }
            } by {
                assert(start <= u < v);
            }
        }
    }

    /// Tear down one page: the translation is removed (a no-op if absent),
    /// and for an indirected page the region's frame handle is dropped,
    /// releasing one reference in the arena.
    pub fn unmap_one(&mut self, page_table: &mut PageTable, arena: &mut FrameArena, vpn: VirtPageNum)
        requires
            old(self).wf(),
            old(page_table).wf(),
            old(arena).wf(),
            old(self).frames_live(*old(arena)),
        ensures
            final(self).wf(),
            final(page_table).wf(),
            final(arena).wf(),
            final(self).vpn_range == old(self).vpn_range,
            final(self).map_type == old(self).map_type,
            final(self).map_perm == old(self).map_perm,
            final(page_table).root_ppn == old(page_table).root_ppn,
            final(page_table)@ == old(page_table)@.remove(vpn.0),
            final(self).data_frames@ == old(self).data_frames@.remove(vpn.0),
            final(self).frames_live(*final(arena)),
            old(self).data_frames@.contains_key(vpn.0) ==> {
                let p = old(self).data_frames@[vpn.0];
                &&& final(arena).same_except(*old(arena), p.0 as int)
                &&& final(arena).slots.len() == old(arena).slots.len()
                &&& final(arena).refs_of(p.0 as int) == old(arena).refs_of(p.0 as int) - 1
                &&& final(arena).data_of(p.0 as int) == old(arena).data_of(p.0 as int)
                &&& final(arena).free_frames() == old(arena).free_frames() + (if old(arena).refs_of(p.0 as int) == 1 {
                    1int
                } else {
                    0int
                })
            },
            !old(self).data_frames@.contains_key(vpn.0) ==> *final(arena) == *old(arena),
    {
        match self.map_type {
            MapType::Framed => {
                match self.data_frames.remove(&vpn.0) {
                    Some(p) => {
                        arena.release(p);
                        proof {
                            assert forall|u: usize|
                                #[trigger] self.data_frames@.contains_key(u) implies arena.is_live(
                                self.data_frames@[u].0 as int,
                            ) by {
                                assert(old(self).data_frames@.contains_key(u));
                                assert(old(self).data_frames@[u] != p);
                                assert(arena.refs_of(self.data_frames@[u].0 as int) == old(arena).refs_of(self.data_frames@[u].0 as int));
                            }
                        }
                    },
                    None => {
                    },
                }
            },
            MapType::Identical => {
                proof {
                    assert(self.data_frames@ =~= old(self).data_frames@.remove(vpn.0));
                }
            },
        }
        page_table.unmap(vpn);
        proof {
            assert(self.data_frames@ =~= old(self).data_frames@.remove(vpn.0));
        }
    }

    /// Tear down every page of the range, releasing frame ownership for
    /// an indirected region.
    #[verifier::rlimit(100)]
    pub fn unmap(&mut self, page_table: &mut PageTable, arena: &mut FrameArena)
        requires
            old(self).wf(),
            old(page_table).wf(),
            old(arena).wf(),
            old(self).frames_live(*old(arena)),
        ensures
            final(self).wf(),
            final(page_table).wf(),
            final(arena).wf(),
            final(self).vpn_range == old(self).vpn_range,
            final(self).map_type == old(self).map_type,
            final(self).map_perm == old(self).map_perm,
            final(page_table).root_ppn == old(page_table).root_ppn,
            final(self).data_frames@ == Map::<usize, PhysPageNum>::empty(),
            forall|u: usize|
                #[trigger] old(self).vpn_range.contains(u) ==> !final(page_table)@.contains_key(u),
            forall|u: usize|
                !old(self).vpn_range.contains(u) ==> (#[trigger] final(page_table)@.contains_key(u)
                    == old(page_table)@.contains_key(u)) && (old(page_table)@.contains_key(u)
                    ==> final(page_table)@[u] == old(page_table)@[u]),
            final(arena).base == old(arena).base,
            final(arena).capacity == old(arena).capacity,
            final(arena).slots.len() == old(arena).slots.len(),
            forall|u: usize|
                #[trigger] old(self).data_frames@.contains_key(u) ==> final(arena).refs_of(
                    old(self).data_frames@[u].0 as int,
                ) == old(arena).refs_of(old(self).data_frames@[u].0 as int) - 1 && final(arena).data_of(old(self).data_frames@[u].0 as int) == old(arena).data_of(
                    old(self).data_frames@[u].0 as int,
                ),
            forall|q: int|
                #![trigger final(arena).refs_of(q)]
                old(arena).contains_ppn(q) && !old(self).owns_ppn(q) ==> final(arena).refs_of(q)
                    == old(arena).refs_of(q),
            forall|q: int|
                #![trigger final(arena).data_of(q)]
                old(arena).contains_ppn(q) && !old(self).owns_ppn(q) ==> final(arena).data_of(q)
                    == old(arena).data_of(q),
    {
        let start: usize = self.vpn_range.get_start().0;
        let end: usize = self.vpn_range.get_end().0;
        let mut v: usize = start;
        while v < end
            invariant
                start == old(self).vpn_range.start.0,
                end == old(self).vpn_range.end.0,
                start <= v <= end,
                self.wf(),
                page_table.wf(),
                arena.wf(),
                self.vpn_range == old(self).vpn_range,
                self.map_type == old(self).map_type,
                self.map_perm == old(self).map_perm,
                page_table.root_ppn == old(page_table).root_ppn,
                self.frames_live(*arena),
                forall|u: usize|
                    #[trigger] self.data_frames@.contains_key(u) == (old(self).data_frames@.contains_key(u) && !(start <= u < v)),
                forall|u: usize|
                    #[trigger] self.data_frames@.contains_key(u) ==> self.data_frames@[u] == old(self).data_frames@[u],
                forall|u: usize| start <= u < v ==> !#[trigger] page_table@.contains_key(u),
                forall|u: usize|
                    !(start <= u < v) ==> (#[trigger] page_table@.contains_key(u) == old(page_table)@.contains_key(u)) && (old(page_table)@.contains_key(u) ==> page_table@[u]
                        == old(page_table)@[u]),
                arena.base == old(arena).base,
                arena.capacity == old(arena).capacity,
                arena.slots.len() == old(arena).slots.len(),
                forall|u: usize|
                    #[trigger] old(self).data_frames@.contains_key(u) && start <= u < v
                        ==> arena.refs_of(old(self).data_frames@[u].0 as int) == old(arena).refs_of(old(self).data_frames@[u].0 as int) - 1 && arena.data_of(
                        old(self).data_frames@[u].0 as int,
                    ) == old(arena).data_of(old(self).data_frames@[u].0 as int),
                forall|u: usize|
                    #[trigger] old(self).data_frames@.contains_key(u) && !(start <= u < v)
                        ==> arena.refs_of(old(self).data_frames@[u].0 as int) == old(arena).refs_of(old(self).data_frames@[u].0 as int) && arena.data_of(
                        old(self).data_frames@[u].0 as int,
                    ) == old(arena).data_of(old(self).data_frames@[u].0 as int),
                forall|q: int|
                    old(arena).contains_ppn(q) && !old(self).owns_ppn(q) ==> #[trigger] arena.refs_of(
                        q,
                    ) == old(arena).refs_of(q) && arena.data_of(q) == old(arena).data_of(q),
                forall|u: usize|
                    old(self).data_frames@.contains_key(u) ==> old(self).vpn_range.contains(u)
                        && #[trigger] old(self).owns_ppn(old(self).data_frames@[u].0 as int),
                old(self).wf(),
                old(self).frames_live(*old(arena)),
            decreases end - v,
        {
            let ghost pre_self = *self;
            let ghost pre_arena = *arena;
            let ghost pre_pt = *page_table;
            self.unmap_one(page_table, arena, VirtPageNum(v));
            proof {
                if pre_self.data_frames@.contains_key(v) {
                    let p = pre_self.data_frames@[v];
                    assert(old(self).data_frames@.contains_key(v));
                    assert(p == old(self).data_frames@[v]);
                    assert(arena.refs_of(p.0 as int) == pre_arena.refs_of(p.0 as int) - 1);
                    assert forall|u: usize|
                        #[trigger] old(self).data_frames@.contains_key(u) && start <= u < v + 1
                            implies arena.refs_of(old(self).data_frames@[u].0 as int) == old(arena).refs_of(old(self).data_frames@[u].0 as int) - 1 && arena.data_of(
                        old(self).data_frames@[u].0 as int,
                    ) == old(arena).data_of(old(self).data_frames@[u].0 as int) by {
                        let pq = old(self).data_frames@[u].0 as int;
                        if u != v {
                            assert(old(self).data_frames@[u] != old(self).data_frames@[v]);
                            assert(arena.refs_of(pq) == pre_arena.refs_of(pq));
                            assert(arena.data_of(pq) == pre_arena.data_of(pq));
                        }
                    }
                    assert forall|u: usize|
                        #[trigger] old(self).data_frames@.contains_key(u) && !(start <= u < v + 1)
                            implies arena.refs_of(old(self).data_frames@[u].0 as int) == old(arena).refs_of(old(self).data_frames@[u].0 as int) && arena.data_of(
                        old(self).data_frames@[u].0 as int,
                    ) == old(arena).data_of(old(self).data_frames@[u].0 as int) by {
                        let pq = old(self).data_frames@[u].0 as int;
                        assert(old(self).data_frames@[u] != old(self).data_frames@[v]);
                        assert(arena.refs_of(pq) == pre_arena.refs_of(pq));
                        assert(arena.data_of(pq) == pre_arena.data_of(pq));
                    }
                    assert forall|q: int|
                        old(arena).contains_ppn(q) && !old(self).owns_ppn(q)
                            implies #[trigger] arena.refs_of(q) == old(arena).refs_of(q)
                            && arena.data_of(q) == old(arena).data_of(q) by {
                        assert(old(self).owns_ppn(p.0 as int));
                        assert(q != p.0 as int);
                        assert(pre_arena.refs_of(q) == old(arena).refs_of(q));
                        assert(pre_arena.data_of(q) == old(arena).data_of(q));
                        assert(arena.refs_of(q) == pre_arena.refs_of(q));
                        assert(arena.data_of(q) == pre_arena.data_of(q));
                    }
                } else {
                    assert(*arena == pre_arena);
                }
            }
            v = v + 1;
        }
        proof {
            assert forall|u: usize| true implies !#[trigger] self.data_frames@.contains_key(u) by {
                if self.data_frames@.contains_key(u) {
                    assert(old(self).data_frames@.contains_key(u));
                    assert(old(self).vpn_range.contains(u));
                }
            }
            assert(self.data_frames@ =~= Map::<usize, PhysPageNum>::empty());
            assert forall|q: int|
                old(arena).contains_ppn(q) && !old(self).owns_ppn(q) implies #[trigger] arena.data_of(
                q,
            ) == old(arena).data_of(q) by {
                assert(arena.refs_of(q) == old(arena).refs_of(q));
                assert(arena.data_of(q) == old(arena).data_of(q));
            }
        }
    }

    /// Copy a buffer into the region, starting `offset` bytes into its
    /// first page and spanning as many pages as required. Assumes the
    /// destination pages were zero-initialized by the frame pool; bytes of
    /// the region outside the written window keep their former value.
    pub fn copy_data(
        &self,
        page_table: &PageTable,
        arena: &mut FrameArena,
        data: &[u8],
        offset: usize,
    )
        requires
            self.wf(),
            page_table.wf(),
            old(arena).wf(),
            self.map_type == MapType::Framed,
            self.mapped_in(page_table@, *old(arena)),
            offset < PAGE_SIZE,
            offset + data@.len() <= self.vpn_range.page_count() * PAGE_SIZE,
            self.vpn_range.end.0 <= usize::MAX as int / PAGE_SIZE as int,
        ensures
            final(arena).wf(),
            final(arena).base == old(arena).base,
            final(arena).capacity == old(arena).capacity,
            final(arena).slots.len() == old(arena).slots.len(),
            final(arena).free_frames() == old(arena).free_frames(),
            forall|q: int|
                old(arena).contains_ppn(q) ==> #[trigger] final(arena).refs_of(q) == old(arena).refs_of(q),
            forall|q: int|
                old(arena).contains_ppn(q) && !self.owns_ppn(q) ==> #[trigger] final(arena).data_of(
                    q,
                ) == old(arena).data_of(q),
            forall|i: int|
                0 <= i < data@.len() ==> #[trigger] mem_byte(
                    page_table@,
                    *final(arena),
                    self.vpn_range.start.0 * PAGE_SIZE + offset + i,
                ) == data@[i],
            forall|pos: int|
                0 <= pos < self.vpn_range.page_count() * PAGE_SIZE && !(offset <= pos < offset
                    + data@.len()) ==> #[trigger] mem_byte(
                    page_table@,
                    *final(arena),
                    self.vpn_range.start.0 * PAGE_SIZE + pos,
                ) == mem_byte(page_table@, *old(arena), self.vpn_range.start.0 * PAGE_SIZE + pos),
    {
        let ghost base = self.vpn_range.start.0 * PAGE_SIZE;
        let start_vpn: usize = self.vpn_range.get_start().0;
        let len: usize = data.len();
        let mut i: usize = 0;
        while i < len
            invariant
                len == data@.len(),
                i <= len,
                base == self.vpn_range.start.0 * PAGE_SIZE,
                self.wf(),
                page_table.wf(),
                arena.wf(),
                start_vpn == self.vpn_range.start.0,
                self.map_type == MapType::Framed,
                self.mapped_in(page_table@, *old(arena)),
                self.mapped_in(page_table@, *arena),
                offset < PAGE_SIZE,
                offset + len <= self.vpn_range.page_count() * PAGE_SIZE,
                self.vpn_range.end.0 <= usize::MAX as int / PAGE_SIZE as int,
                arena.base == old(arena).base,
                arena.capacity == old(arena).capacity,
                arena.slots.len() == old(arena).slots.len(),
                arena.free_frames() == old(arena).free_frames(),
                forall|q: int|
                    old(arena).contains_ppn(q) ==> #[trigger] arena.refs_of(q) == old(arena).refs_of(q),
                forall|q: int|
                    old(arena).contains_ppn(q) && !self.owns_ppn(q) ==> #[trigger] arena.data_of(q)
                        == old(arena).data_of(q),
                forall|j: int|
                    0 <= j < i ==> #[trigger] mem_byte(page_table@, *arena, base + offset + j)
                        == data@[j],
                forall|pos: int|
                    0 <= pos < self.vpn_range.page_count() * PAGE_SIZE && !(offset <= pos < offset
                        + i) ==> #[trigger] mem_byte(page_table@, *arena, base + pos) == mem_byte(
                        page_table@,
                        *old(arena),
                        base + pos,
                    ),
            decreases len - i,
        {
            let pos: usize = offset + i;
            let page: usize = pos / PAGE_SIZE;
            let off: usize = pos % PAGE_SIZE;
            proof {
                vstd::arithmetic::div_mod::lemma_div_is_ordered(
                    pos as int,
                    self.vpn_range.page_count() * PAGE_SIZE - 1,
                    PAGE_SIZE as int,
                );
                vstd::arithmetic::div_mod::lemma_div_multiples_vanish_fancy(
                    self.vpn_range.page_count() - 1,
                    PAGE_SIZE as int - 1,
                    PAGE_SIZE as int,
                );
                assert(page < self.vpn_range.page_count());
            }
            let vpn: usize = start_vpn + page;
            proof {
                assert(self.vpn_range.contains(vpn));
            }
            let pte = match page_table.translate(VirtPageNum(vpn)) {
                Some(pte) => pte,
                None => vstd::pervasive::unreached(),
            };
            proof {
                assert(arena.is_live(pte.ppn.0 as int));
                assert(arena.data_of(pte.ppn.0 as int).len() == PAGE_SIZE);
            }
            let ghost pre_arena = *arena;
            arena.write_byte(pte.ppn, off, data[i]);
            proof {
                lemma_page_split(start_vpn as int, pos as int);
                assert(self.data_frames@.contains_key(vpn) && self.data_frames@[vpn].0
                    == pte.ppn.0);
                assert(self.owns_ppn(pte.ppn.0 as int));
                assert forall|q: int| old(arena).contains_ppn(q) implies #[trigger] arena.refs_of(q)
                    == old(arena).refs_of(q) by {
                    assert(arena.refs_of(q) == pre_arena.refs_of(q));
                }
                assert forall|q: int|
                    old(arena).contains_ppn(q) && !self.owns_ppn(q) implies #[trigger] arena.data_of(
                    q,
                ) == old(arena).data_of(q) by {
                    assert(q != pte.ppn.0 as int);
                    assert(arena.refs_of(q) == pre_arena.refs_of(q));
                    assert(arena.data_of(q) == pre_arena.data_of(q));
                }
                assert forall|u: usize| #[trigger] self.vpn_range.contains(u) implies {
                    &&& page_table@.contains_key(u)
                    &&& self.data_frames@.contains_key(u) && page_table@[u].ppn
                        == self.data_frames@[u] && arena.is_live(page_table@[u].ppn.0 as int)
                } by {
                    assert(pre_arena.is_live(page_table@[u].ppn.0 as int));
                    assert(arena.refs_of(page_table@[u].ppn.0 as int) == pre_arena.refs_of(
                        page_table@[u].ppn.0 as int,
                    ));
                }
                assert(mem_byte(page_table@, *arena, base + pos) == data@[i as int]) by {
                    assert(spec_floor(base + pos) == vpn);
                    assert(spec_page_offset(base + pos) == off);
                    assert(arena.data_of(pte.ppn.0 as int) == pre_arena.data_of(
                        pte.ppn.0 as int,
                    ).update(off as int, data@[i as int]));
                }
                assert forall|pos2: int|
                    0 <= pos2 < self.vpn_range.page_count() * PAGE_SIZE && pos2 != pos implies #[trigger] mem_byte(
                    page_table@,
                    *arena,
                    base + pos2,
                ) == mem_byte(page_table@, pre_arena, base + pos2) by {
                    lemma_page_split(start_vpn as int, pos2);
                    let page2 = pos2 / (PAGE_SIZE as int);
                    let off2 = pos2 % (PAGE_SIZE as int);
                    let vpn2 = (start_vpn + page2) as usize;
                    assert(0 <= page2 < self.vpn_range.page_count()) by {
                        vstd::arithmetic::div_mod::lemma_div_is_ordered(
                            pos2,
                            self.vpn_range.page_count() * PAGE_SIZE - 1,
                            PAGE_SIZE as int,
                        );
                        vstd::arithmetic::div_mod::lemma_div_multiples_vanish_fancy(
                            self.vpn_range.page_count() - 1,
                            PAGE_SIZE as int - 1,
                            PAGE_SIZE as int,
                        );
                        vstd::arithmetic::div_mod::lemma_div_pos_is_pos(pos2, PAGE_SIZE as int);
                    }
                    assert(self.vpn_range.contains(vpn2));
                    if vpn2 != vpn {
                        assert(self.data_frames@[vpn2] != self.data_frames@[vpn as usize]);
                        assert(page_table@[vpn2].ppn != pte.ppn);
                        assert(arena.data_of(page_table@[vpn2].ppn.0 as int) == pre_arena.data_of(
                            page_table@[vpn2].ppn.0 as int,
                        ));
                    } else {
                        assert(page2 == page);
                        assert(off2 != off) by {
                            vstd::arithmetic::div_mod::lemma_fundamental_div_mod(
                                pos2,
                                PAGE_SIZE as int,
                            );
                            vstd::arithmetic::div_mod::lemma_fundamental_div_mod(
                                pos as int,
                                PAGE_SIZE as int,
                            );
                        }
                        assert(arena.data_of(pte.ppn.0 as int) == pre_arena.data_of(
                            pte.ppn.0 as int,
                        ).update(off as int, data@[i as int]));
                    }
                }
                assert forall|j: int|
                    0 <= j < i + 1 implies #[trigger] mem_byte(
                    page_table@,
                    *arena,
                    base + offset + j,
                ) == data@[j] by {
                    if j < i {
                        assert(base + offset + j == base + (offset + j));
                        assert(mem_byte(page_table@, pre_arena, base + offset + j) == data@[j]);
                        assert(mem_byte(page_table@, *arena, base + (offset + j)) == mem_byte(
                            page_table@,
                            pre_arena,
                            base + (offset + j),
                        ));
                    } else {
                        assert(base + offset + j == base + pos);
                        assert(mem_byte(page_table@, *arena, base + offset + j) == mem_byte(
                            page_table@,
                            *arena,
                            base + pos,
                        ));
                    }
                }
            }
            i = i + 1;
        }
    }

    /// Drop every frame handle of the region without touching the page
    /// table, releasing one reference per owned frame: used when the whole
    /// table is about to be discarded.
    pub fn release_frames(&mut self, arena: &mut FrameArena)
        requires
            old(self).wf(),
            old(arena).wf(),
            old(self).frames_live(*old(arena)),
        ensures
            final(arena).wf(),
            final(self).vpn_range == old(self).vpn_range,
            final(self).map_type == old(self).map_type,
            final(self).map_perm == old(self).map_perm,
            final(self).data_frames@ == Map::<usize, PhysPageNum>::empty(),
            final(arena).base == old(arena).base,
            final(arena).capacity == old(arena).capacity,
            final(arena).slots.len() == old(arena).slots.len(),
            forall|u: usize|
                #[trigger] old(self).data_frames@.contains_key(u) ==> final(arena).refs_of(
                    old(self).data_frames@[u].0 as int,
                ) == old(arena).refs_of(old(self).data_frames@[u].0 as int) - 1,
            forall|q: int|
                old(arena).contains_ppn(q) && !old(self).owns_ppn(q) ==> #[trigger] final(arena).refs_of(q) == old(arena).refs_of(q),
            forall|q: int|
                #![trigger final(arena).data_of(q)]
                old(arena).contains_ppn(q) && !old(self).owns_ppn(q) ==> final(arena).data_of(q)
                    == old(arena).data_of(q),
    {
        let start: usize = self.vpn_range.get_start().0;
        let end: usize = self.vpn_range.get_end().0;
        let mut v: usize = start;
        while v < end
            invariant
                start == old(self).vpn_range.start.0,
                end == old(self).vpn_range.end.0,
                start <= v <= end,
                self.wf(),
                arena.wf(),
                old(self).wf(),
                old(self).frames_live(*old(arena)),
                self.vpn_range == old(self).vpn_range,
                self.map_type == old(self).map_type,
                self.map_perm == old(self).map_perm,
                self.frames_live(*arena),
                forall|u: usize|
                    #[trigger] self.data_frames@.contains_key(u) == (old(self).data_frames@.contains_key(u) && !(start <= u < v)),
                forall|u: usize|
                    #[trigger] self.data_frames@.contains_key(u) ==> self.data_frames@[u] == old(self).data_frames@[u],
                arena.base == old(arena).base,
                arena.capacity == old(arena).capacity,
                arena.slots.len() == old(arena).slots.len(),
                forall|u: usize|
                    #[trigger] old(self).data_frames@.contains_key(u) && start <= u < v
                        ==> arena.refs_of(old(self).data_frames@[u].0 as int) == old(arena).refs_of(old(self).data_frames@[u].0 as int) - 1,
                forall|u: usize|
                    #[trigger] old(self).data_frames@.contains_key(u) && !(start <= u < v)
                        ==> arena.refs_of(old(self).data_frames@[u].0 as int) == old(arena).refs_of(old(self).data_frames@[u].0 as int),
                forall|q: int|
                    old(arena).contains_ppn(q) && !old(self).owns_ppn(q) ==> #[trigger] arena.refs_of(
                        q,
                    ) == old(arena).refs_of(q),
                forall|q: int|
                    #![trigger arena.data_of(q)]
                    old(arena).contains_ppn(q) && !old(self).owns_ppn(q) ==> arena.data_of(q)
                        == old(arena).data_of(q),
                forall|u: usize|
                    old(self).data_frames@.contains_key(u) ==> old(self).vpn_range.contains(u)
                        && #[trigger] old(self).owns_ppn(old(self).data_frames@[u].0 as int),
            decreases end - v,
        {
            let ghost pre_self = *self;
            let ghost pre_arena = *arena;
            match self.data_frames.remove(&v) {
                Some(p) => {
                    arena.release(p);
                    proof {
                        assert(old(self).data_frames@.contains_key(v));
                        assert(p == old(self).data_frames@[v]);
                        assert forall|u: usize|
                            #[trigger] self.data_frames@.contains_key(u) implies arena.is_live(
                            self.data_frames@[u].0 as int,
                        ) by {
                            assert(pre_self.data_frames@.contains_key(u));
                            assert(old(self).data_frames@[u] != old(self).data_frames@[v]);
                            assert(arena.refs_of(self.data_frames@[u].0 as int)
                                == pre_arena.refs_of(self.data_frames@[u].0 as int));
                        }
                        assert forall|u: usize|
                            #[trigger] old(self).data_frames@.contains_key(u) && start <= u < v + 1
                                implies arena.refs_of(old(self).data_frames@[u].0 as int) == old(arena).refs_of(old(self).data_frames@[u].0 as int) - 1 by {
                            let pq = old(self).data_frames@[u].0 as int;
                            if u != v {
                                assert(old(self).data_frames@[u] != old(self).data_frames@[v]);
                                assert(arena.refs_of(pq) == pre_arena.refs_of(pq));
                            } else {
                                assert(arena.refs_of(pq) == pre_arena.refs_of(pq) - 1);
                            }
                        }
                        assert forall|u: usize|
                            #[trigger] old(self).data_frames@.contains_key(u) && !(start <= u < v
                                + 1) implies arena.refs_of(old(self).data_frames@[u].0 as int)
                            == old(arena).refs_of(old(self).data_frames@[u].0 as int) by {
                            let pq = old(self).data_frames@[u].0 as int;
                            assert(old(self).data_frames@[u] != old(self).data_frames@[v]);
                            assert(arena.refs_of(pq) == pre_arena.refs_of(pq));
                        }
                        assert forall|q: int|
                            old(arena).contains_ppn(q) && !old(self).owns_ppn(q)
                                implies #[trigger] arena.refs_of(q) == old(arena).refs_of(q) by {
                            assert(old(self).owns_ppn(p.0 as int));
                            assert(q != p.0 as int);
                            assert(arena.refs_of(q) == pre_arena.refs_of(q));
                        }
                        assert forall|q: int|
                            old(arena).contains_ppn(q) && !old(self).owns_ppn(q)
                                implies #[trigger] arena.data_of(q) == old(arena).data_of(q) by {
                            assert(old(self).owns_ppn(p.0 as int));
                            assert(q != p.0 as int);
                            assert(arena.refs_of(q) == pre_arena.refs_of(q));
                            assert(arena.data_of(q) == pre_arena.data_of(q));
                        }
                    }
                },
                None => {
                    proof {
                        assert(self.data_frames@ =~= pre_self.data_frames@);
                    }
                },
            }
            v = v + 1;
        }
        proof {
            assert forall|u: usize| true implies !#[trigger] self.data_frames@.contains_key(u) by {
                if self.data_frames@.contains_key(u) {
                    assert(old(self).data_frames@.contains_key(u));
                    assert(old(self).vpn_range.contains(u));
                }
            }
            assert(self.data_frames@ =~= Map::<usize, PhysPageNum>::empty());
        }
    }

    /// A full copy of the region, frame handles included. The copy shares
    /// the backing frames without adjusting their reference counts: the
    /// caller accounts for the new sharers.
    pub fn duplicate(&self) -> (r: MapArea)
        requires
            self.wf(),
        ensures
            r.vpn_range == self.vpn_range,
            r.map_type == self.map_type,
            r.map_perm == self.map_perm,
            r.data_frames@ == self.data_frames@,
            r.wf(),
    {
        let mut r = MapArea::from_another(self);
        let start: usize = self.vpn_range.get_start().0;
        let end: usize = self.vpn_range.get_end().0;
        let mut v: usize = start;
        while v < end
            invariant
                start == self.vpn_range.start.0,
                end == self.vpn_range.end.0,
                start <= v <= end,
                self.wf(),
                r.vpn_range == self.vpn_range,
                r.map_type == self.map_type,
                r.map_perm == self.map_perm,
                forall|u: usize|
                    #[trigger] r.data_frames@.contains_key(u) == (self.data_frames@.contains_key(u)
                        && start <= u < v),
                forall|u: usize|
                    #[trigger] r.data_frames@.contains_key(u) ==> r.data_frames@[u]
                        == self.data_frames@[u],
            decreases end - v,
        {
            match self.data_frames.get(&v) {
                Some(p) => {
                    let ppn: PhysPageNum = *p;
                    r.data_frames.insert(v, ppn);
                },
                None => {
                },
            }
            v = v + 1;
        }
        proof {
            assert forall|u: usize|
                #[trigger] r.data_frames@.contains_key(u) == self.data_frames@.contains_key(
                u,
            ) by {
                if self.data_frames@.contains_key(u) {
                    assert(self.vpn_range.contains(u));
                }
            }
            assert(r.data_frames@ =~= self.data_frames@);
        }
        r
    }

    /// Whether the region's pages are backed by allocated frames.
    pub fn is_framed(&self) -> (r: bool)
        ensures
            r == (self.map_type == MapType::Framed),
    {
        match self.map_type {
            MapType::Framed => true,
            MapType::Identical => false,
        }
    }

    /// Record ownership of a frame backing one page of the range.
    pub fn insert_tracker(&mut self, vpn: VirtPageNum, ppn: PhysPageNum)
        ensures
            final(self).vpn_range == old(self).vpn_range,
            final(self).map_type == old(self).map_type,
            final(self).map_perm == old(self).map_perm,
            final(self).data_frames@ == old(self).data_frames@.insert(vpn.0, ppn),
    {
        self.data_frames.insert(vpn.0, ppn);
    }
}

} // verus!
