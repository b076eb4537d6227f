//! Address spaces: an ordered collection of non-overlapping mapped regions
//! plus one page table. Every mapped virtual page belongs to exactly one
//! region, except the two always-present trampoline pages, which are
//! identical across address spaces and excluded from region bookkeeping.

use vstd::prelude::*;

use crate::addr::{spec_floor, PhysPageNum, VirtAddr, VirtPageNum};
use crate::area::{mem_byte, MapArea, MapPermission, MapType};
use crate::config::{MEMORY_END, PAGE_SIZE, SIGNAL_TRAMPOLINE, TRAMPOLINE};
use crate::frame::FrameArena;
use crate::page_table::{PTEFlags, PageTable, PageTableEntry};

verus! {

/// Page number of the trampoline code page.
pub open spec fn trampoline_vpn() -> int {
    spec_floor(TRAMPOLINE as int)
}

/// Page number of the signal trampoline page.
pub open spec fn signal_trampoline_vpn() -> int {
    spec_floor(SIGNAL_TRAMPOLINE as int)
}

/// The hardware token of the kernel's own address space, captured once at
/// boot so that readers need not lock the kernel space itself.
pub struct KernelToken {
    pub token: u64,
}

impl KernelToken {
    /// The captured kernel-space token.
    pub fn token(&self) -> (r: u64)
        ensures
            r == self.token,
    {
        self.token
    }
}

/// Rounding up an already page-aligned address gives its own page number.
pub proof fn lemma_ceil_of_aligned(e: int)
    requires
        0 <= e,
        e % (PAGE_SIZE as int) == 0,
    ensures
        crate::addr::spec_ceil(e) == e / (PAGE_SIZE as int),
{
    let p = PAGE_SIZE as int;
    vstd::arithmetic::div_mod::lemma_fundamental_div_mod(e, p);
    vstd::arithmetic::div_mod::lemma_div_pos_is_pos(e, p);
    vstd::arithmetic::div_mod::lemma_div_multiples_vanish_fancy(e / p, p - 1, p);
    assert(e + p - 1 == p * (e / p) + (p - 1));
}

/// An arena change that keeps every frame's slot and reference count,
/// altering only frame contents, preserves an address-space invariant.
pub proof fn lemma_inv_with_same_frames(
    pre: MemorySet,
    post: MemorySet,
    pre_arena: FrameArena,
    arena: FrameArena,
)
    requires
        pre.inv(pre_arena),
        post == pre,
        arena.wf(),
        arena.base == pre_arena.base,
        arena.slots.len() == pre_arena.slots.len(),
        forall|q: int|
            pre_arena.contains_ppn(q) ==> #[trigger] arena.refs_of(q) == pre_arena.refs_of(q),
    ensures
        post.inv(arena),
{
    assert forall|i: int| 0 <= i < post.areas.len() implies (#[trigger] post.areas@[i]).mapped_in(
        post.page_table@,
        arena,
    ) by {
        assert(pre.areas@[i].mapped_in(pre.page_table@, pre_arena));
        assert forall|v: usize| #[trigger] post.areas@[i].vpn_range.contains(v) implies {
            &&& post.page_table@.contains_key(v)
            &&& match post.areas@[i].map_type {
                MapType::Identical => post.page_table@[v].ppn.0 == v,
                MapType::Framed => post.areas@[i].data_frames@.contains_key(v)
                    && post.page_table@[v].ppn == post.areas@[i].data_frames@[v] && arena.is_live(
                    post.page_table@[v].ppn.0 as int,
                ),
            }
        } by {
            assert(pre.areas@[i].vpn_range.contains(v));
            if post.areas@[i].map_type == MapType::Framed {
                let pq = post.page_table@[v].ppn.0 as int;
                assert(pre_arena.is_live(pq));
                assert(arena.refs_of(pq) == pre_arena.refs_of(pq));
            }
        }
    }
}

/// Total number of frames the indirected regions of the list hold.
pub open spec fn total_framed_pages(areas: Seq<MapArea>) -> int
    decreases areas.len(),
{
    if areas.len() == 0 {
        0
    } else {
        total_framed_pages(areas.drop_last()) + if areas.last().map_type == MapType::Framed {
            areas.last().vpn_range.page_count()
        } else {
            0int
        }
    }
}

pub proof fn lemma_total_take_step(areas: Seq<MapArea>, k: int)
    requires
        0 <= k < areas.len(),
    ensures
        total_framed_pages(areas.take(k + 1)) == total_framed_pages(areas.take(k)) + (
        if areas[k].map_type == MapType::Framed {
            areas[k].vpn_range.page_count()
        } else {
            0int
        }),
{
    assert(areas.take(k + 1).drop_last() =~= areas.take(k));
    assert(areas.take(k + 1).last() == areas[k]);
}

pub proof fn lemma_total_take_le(areas: Seq<MapArea>, k: int)
    requires
        0 <= k <= areas.len(),
        forall|i: int|
            0 <= i < areas.len() ==> (#[trigger] areas[i]).vpn_range.start.0
                <= areas[i].vpn_range.end.0,
    ensures
        total_framed_pages(areas.take(k)) <= total_framed_pages(areas),
    decreases areas.len() - k,
{
    if k == areas.len() {
        assert(areas.take(k) =~= areas);
    } else {
        lemma_total_take_step(areas, k);
        lemma_total_take_le(areas, k + 1);
    }
}

/// Frames needed to duplicate eagerly the indirected regions whose range
/// starts at or above the split page.
pub open spec fn total_eager_pages(areas: Seq<MapArea>, s: int) -> int
    decreases areas.len(),
{
    if areas.len() == 0 {
        0
    } else {
        total_eager_pages(areas.drop_last(), s) + if areas.last().vpn_range.start.0 >= s
            && areas.last().map_type == MapType::Framed {
            areas.last().vpn_range.page_count()
        } else {
            0int
        }
    }
}

pub proof fn lemma_eager_take_step(areas: Seq<MapArea>, s: int, k: int)
    requires
        0 <= k < areas.len(),
    ensures
        total_eager_pages(areas.take(k + 1), s) == total_eager_pages(areas.take(k), s) + (
        if areas[k].vpn_range.start.0 >= s && areas[k].map_type == MapType::Framed {
            areas[k].vpn_range.page_count()
        } else {
            0int
        }),
{
    assert(areas.take(k + 1).drop_last() =~= areas.take(k));
    assert(areas.take(k + 1).last() == areas[k]);
}

pub proof fn lemma_eager_take_le(areas: Seq<MapArea>, s: int, k: int)
    requires
        0 <= k <= areas.len(),
        forall|i: int|
            0 <= i < areas.len() ==> (#[trigger] areas[i]).vpn_range.start.0
                <= areas[i].vpn_range.end.0,
    ensures
        total_eager_pages(areas.take(k), s) <= total_eager_pages(areas, s),
    decreases areas.len() - k,
{
    if k == areas.len() {
        assert(areas.take(k) =~= areas);
    } else {
        lemma_eager_take_step(areas, s, k);
        lemma_eager_take_le(areas, s, k + 1);
    }
}

/// The page boundary of a copy-on-write fork request: regions starting
/// below it are shared copy-on-write, the rest duplicated eagerly. A
/// request of zero means the whole range is shared.
pub open spec fn split_page(split_addr: int) -> int {
    if split_addr == 0 {
        usize::MAX as int + 1
    } else {
        spec_floor(split_addr)
    }
}

/// Number of regions of the list whose range starts at or above the
/// split page.
pub open spec fn count_eager(areas: Seq<MapArea>, s: int) -> int
    decreases areas.len(),
{
    if areas.len() == 0 {
        0
    } else {
        count_eager(areas.drop_last(), s) + if areas.last().vpn_range.start.0 >= s {
            1int
        } else {
            0int
        }
    }
}

pub proof fn lemma_count_eager_step(areas: Seq<MapArea>, s: int, k: int)
    requires
        0 <= k < areas.len(),
    ensures
        count_eager(areas.take(k + 1), s) == count_eager(areas.take(k), s) + (
        if areas[k].vpn_range.start.0 >= s {
            1int
        } else {
            0int
        }),
{
    assert(areas.take(k + 1).drop_last() =~= areas.take(k));
    assert(areas.take(k + 1).last() == areas[k]);
}

pub proof fn lemma_count_eager_mono(areas: Seq<MapArea>, s: int, j1: int, j2: int)
    requires
        0 <= j1 <= j2 <= areas.len(),
    ensures
        count_eager(areas.take(j1), s) <= count_eager(areas.take(j2), s),
    decreases j2 - j1,
{
    if j1 < j2 {
        lemma_count_eager_step(areas, s, j2 - 1);
        lemma_count_eager_mono(areas, s, j1, j2 - 1);
    }
}

pub proof fn lemma_count_eager_lipschitz(areas: Seq<MapArea>, s: int, j1: int, j2: int)
    requires
        0 <= j1 <= j2 <= areas.len(),
    ensures
        count_eager(areas.take(j2), s) - count_eager(areas.take(j1), s) <= j2 - j1,
    decreases j2 - j1,
{
    if j1 < j2 {
        lemma_count_eager_step(areas, s, j2 - 1);
        lemma_count_eager_lipschitz(areas, s, j1, j2 - 1);
    }
}

/// Every child index below the eager count is the image of exactly one
/// eager region's index.
pub proof fn lemma_count_eager_surj(areas: Seq<MapArea>, s: int, k: int, i: int)
    requires
        0 <= k <= areas.len(),
        0 <= i < count_eager(areas.take(k), s),
    ensures
        exists|j: int|
            0 <= j < k && (#[trigger] areas[j]).vpn_range.start.0 >= s && count_eager(
                areas.take(j),
                s,
            ) == i,
    decreases k,
{
    lemma_count_eager_mono(areas, s, 0, k);
    assert(areas.take(0) =~= Seq::<MapArea>::empty());
    lemma_count_eager_step(areas, s, k - 1);
    if count_eager(areas.take(k - 1), s) > i {
        lemma_count_eager_surj(areas, s, k - 1, i);
        let j = choose|j: int|
            0 <= j < k - 1 && (#[trigger] areas[j]).vpn_range.start.0 >= s && count_eager(
                areas.take(j),
                s,
            ) == i;
        assert(0 <= j < k && areas[j].vpn_range.start.0 >= s && count_eager(areas.take(j), s)
            == i);
    } else {
        assert(areas[k - 1].vpn_range.start.0 >= s && count_eager(areas.take(k - 1), s) == i);
    }
}

/// Every child index past the eager block is the image of exactly one
/// shared region's index.
pub proof fn lemma_count_cow_surj(areas: Seq<MapArea>, s: int, k: int, i: int)
    requires
        0 <= k <= areas.len(),
        0 <= i < k - count_eager(areas.take(k), s),
    ensures
        exists|j: int|
            0 <= j < k && (#[trigger] areas[j]).vpn_range.start.0 < s && j - count_eager(
                areas.take(j),
                s,
            ) == i,
    decreases k,
{
    lemma_count_eager_mono(areas, s, 0, k);
    assert(areas.take(0) =~= Seq::<MapArea>::empty());
    lemma_count_eager_step(areas, s, k - 1);
    if k - 1 - count_eager(areas.take(k - 1), s) > i {
        lemma_count_cow_surj(areas, s, k - 1, i);
        let j = choose|j: int|
            0 <= j < k - 1 && (#[trigger] areas[j]).vpn_range.start.0 < s && j - count_eager(
                areas.take(j),
                s,
            ) == i;
        assert(0 <= j < k && areas[j].vpn_range.start.0 < s && j - count_eager(areas.take(j), s)
            == i);
    } else {
        assert(areas[k - 1].vpn_range.start.0 < s && k - 1 - count_eager(areas.take(k - 1), s)
            == i);
    }
}

/// The child region shares the parent region copy-on-write: same range
/// and permission, indirected, and one frame handle per page, pointing at
/// the frame the parent's table maps that page to.
#[verifier::opaque]
pub open spec fn shares_frames_of(
    child: MapArea,
    parent: MapArea,
    pt: Map<usize, PageTableEntry>,
) -> bool {
    &&& child.vpn_range == parent.vpn_range
    &&& child.map_type == MapType::Framed
    &&& child.map_perm == parent.map_perm
    &&& forall|v: usize|
        #[trigger] parent.vpn_range.contains(v) ==> child.data_frames@.contains_key(v)
            && child.data_frames@[v] == pt[v].ppn
}

/// Every page of a parent region starting at or above the split is
/// duplicated in the child: mapped to a frame that was not previously
/// live, holding a copy of the parent page's bytes.
#[verifier::opaque]
pub open spec fn eager_pages_duplicated(
    parent: MemorySet,
    arena0: FrameArena,
    child_pt: Map<usize, PageTableEntry>,
    arena: FrameArena,
    s: int,
) -> bool {
    forall|j: int, v: usize|
        0 <= j < parent.areas.len() && parent.areas@[j].vpn_range.start.0 >= s && parent.areas@[
        j].map_type == MapType::Framed && #[trigger] parent.areas@[j].vpn_range.contains(v)
            ==> child_pt.contains_key(v) && !arena0.is_live(child_pt[v].ppn.0 as int)
            && arena.data_of(child_pt[v].ppn.0 as int) == arena0.data_of(
            parent.page_table@[v].ppn.0 as int,
        )
}

/// Every page of the first `upto` parent regions below the split is
/// shared copy-on-write: both tables map the parent's original frame with
/// the writable bit cleared and the marker set (other bits kept), and the
/// frame gained one reference.
#[verifier::opaque]
pub open spec fn cow_pages_shared(
    parent0: MemorySet,
    arena0: FrameArena,
    parent_pt: Map<usize, PageTableEntry>,
    child_pt: Map<usize, PageTableEntry>,
    arena: FrameArena,
    s: int,
    upto: int,
) -> bool {
    forall|j: int, v: usize|
        0 <= j < upto && parent0.areas@[j].vpn_range.start.0 < s && #[trigger] parent0.areas@[
        j].vpn_range.contains(v) ==> {
            let p = parent0.page_table@[v].ppn;
            &&& parent_pt.contains_key(v)
            &&& parent_pt[v].ppn == p
            &&& parent_pt[v].flags == (PTEFlags {
                w: false,
                cow: true,
                ..parent0.page_table@[v].flags
            })
            &&& child_pt.contains_key(v)
            &&& child_pt[v].ppn == p
            &&& child_pt[v].flags == (PTEFlags {
                w: false,
                cow: true,
                ..parent0.page_table@[v].flags
            })
            &&& arena.refs_of(p.0 as int) == arena0.refs_of(p.0 as int) + 1
        }
}

/// The raw facts behind the fork bookkeeping, spelled out once for the
/// step lemmas to build on.
#[verifier::rlimit(100)]
#[verifier::spinoff_prover]
pub proof fn lemma_unpack_fork_inv(
    parent0: MemorySet,
    arena0: FrameArena,
    eager_ms: MemorySet,
    eager_arena: FrameArena,
    s: int,
    eager_total: int,
    k: int,
    parent: MemorySet,
    child: MemorySet,
    arena: FrameArena,
)
    requires
        fork_fixed_inv(parent0, arena0, eager_ms, eager_arena, s, eager_total),
        fork_step_inv(
            parent0,
            arena0,
            eager_ms,
            eager_arena,
            s,
            eager_total,
            k,
            parent,
            child,
            arena,
        ),
    ensures
            parent0.inv(arena0),
            forall|q: int| #[trigger] arena0.contains_ppn(q) ==> arena0.refs_of(q) < usize::MAX,
            forall|i: int|
                0 <= i < parent0.areas.len() && (#[trigger] parent0.areas@[i]).vpn_range.start.0 < s
                    ==> parent0.areas@[i].map_type == MapType::Framed,
            eager_total == count_eager(parent0.areas@, s),
            eager_ms.areas@.len() == eager_total,
            forall|j: int|
                0 <= j < parent0.areas.len() && (#[trigger] parent0.areas@[j]).vpn_range.start.0 >= s
                    ==> 0 <= count_eager(parent0.areas@.take(j), s) < eager_total && eager_ms.areas@[
                    count_eager(parent0.areas@.take(j), s)].vpn_range == parent0.areas@[j].vpn_range
                    && eager_ms.areas@[count_eager(parent0.areas@.take(j), s)].map_type == parent0.areas@[
                    j].map_type && eager_ms.areas@[count_eager(parent0.areas@.take(j), s)].map_perm
                    == parent0.areas@[j].map_perm,
            forall|v: usize|
                #[trigger] eager_ms.page_table@.contains_key(v) ==> !(exists|j: int|
                    0 <= j < parent0.areas.len() && parent0.areas@[j].vpn_range.start.0 < s && (
                    #[trigger] parent0.areas@[j].vpn_range.contains(v))),
            parent.areas == parent0.areas,
            parent.page_table.root_ppn == parent0.page_table.root_ppn,
            parent.inv(arena),
            child.inv(arena),
            arena.base == arena0.base,
            arena.capacity == arena0.capacity,
            arena.slots.len() >= arena0.slots.len(),
            child.areas@.len() == eager_total + (k - count_eager(parent0.areas@.take(k), s)),
            count_eager(parent0.areas@.take(k), s) <= k,
            arena.slots.len() == eager_arena.slots.len(),
            arena.base == eager_arena.base,
            forall|i: int| 0 <= i < eager_total ==> #[trigger] child.areas@[i] == eager_ms.areas@[i],
            forall|j: int|
                0 <= j < k && (#[trigger] parent0.areas@[j]).vpn_range.start.0 < s ==> {
                    let a = eager_total + j - count_eager(parent0.areas@.take(j), s);
                    &&& 0 <= a < child.areas@.len()
                    &&& child.areas@[a].vpn_range == parent0.areas@[j].vpn_range
                    &&& child.areas@[a].map_type == MapType::Framed
                    &&& child.areas@[a].map_perm == parent0.areas@[j].map_perm
                },
            forall|v: usize|
                #[trigger] eager_ms.page_table@.contains_key(v) ==> child.page_table@.contains_key(v)
                    && child.page_table@[v] == eager_ms.page_table@[v],
            forall|q: int|
                eager_arena.contains_ppn(q) ==> #[trigger] arena.data_of(q) == eager_arena.data_of(q),
            forall|i: int, q: int|
                0 <= i < child.areas.len() && #[trigger] child.areas@[i].owns_ppn(q) ==> !arena0.is_live(
                    q,
                ) || (exists|j: int|
                    0 <= j < k && (#[trigger] parent0.areas@[j]).vpn_range.start.0 < s && parent0.areas@[
                    j].owns_ppn(q)),
            cow_pages_shared(parent0, arena0, parent.page_table@, child.page_table@, arena, s, k),
            forall|v: usize|
                !(exists|j: int|
                    0 <= j < k && parent0.areas@[j].vpn_range.start.0 < s && (#[trigger] parent0.areas@[
                    j].vpn_range.contains(v))) ==> (#[trigger] parent.page_table@.contains_key(v)
                    == parent0.page_table@.contains_key(v)) && (parent0.page_table@.contains_key(v)
                    ==> parent.page_table@[v] == parent0.page_table@[v]),
            forall|q: int|
                arena0.is_live(q) && !(exists|j: int|
                    0 <= j < k && (#[trigger] parent0.areas@[j]).vpn_range.start.0 < s && parent0.areas@[
                    j].owns_ppn(q)) ==> #[trigger] arena.refs_of(q) == arena0.refs_of(q),
{
    reveal(fork_fixed_inv);
    reveal(fork_step_inv);
}

/// Re-bundle the raw facts of the fork bookkeeping after one more
/// region has been considered.
#[verifier::rlimit(100)]
#[verifier::spinoff_prover]
pub proof fn lemma_pack_fork_inv(
    parent0: MemorySet,
    arena0: FrameArena,
    eager_ms: MemorySet,
    eager_arena: FrameArena,
    s: int,
    eager_total: int,
    k: int,
    parent: MemorySet,
    child: MemorySet,
    arena: FrameArena,
)
    requires
            parent.areas == parent0.areas,
            parent.page_table.root_ppn == parent0.page_table.root_ppn,
            parent.inv(arena),
            child.inv(arena),
            arena.base == arena0.base,
            arena.capacity == arena0.capacity,
            arena.slots.len() >= arena0.slots.len(),
            child.areas@.len() == eager_total + ((k + 1) - count_eager(parent0.areas@.take((k + 1)), s)),
            count_eager(parent0.areas@.take((k + 1)), s) <= (k + 1),
            arena.slots.len() == eager_arena.slots.len(),
            arena.base == eager_arena.base,
            forall|i: int| 0 <= i < eager_total ==> #[trigger] child.areas@[i] == eager_ms.areas@[i],
            forall|j: int|
                0 <= j < (k + 1) && (#[trigger] parent0.areas@[j]).vpn_range.start.0 < s ==> {
                    let a = eager_total + j - count_eager(parent0.areas@.take(j), s);
                    &&& 0 <= a < child.areas@.len()
                    &&& child.areas@[a].vpn_range == parent0.areas@[j].vpn_range
                    &&& child.areas@[a].map_type == MapType::Framed
                    &&& child.areas@[a].map_perm == parent0.areas@[j].map_perm
                },
            forall|v: usize|
                #[trigger] eager_ms.page_table@.contains_key(v) ==> child.page_table@.contains_key(v)
                    && child.page_table@[v] == eager_ms.page_table@[v],
            forall|q: int|
                eager_arena.contains_ppn(q) ==> #[trigger] arena.data_of(q) == eager_arena.data_of(q),
            forall|i: int, q: int|
                0 <= i < child.areas.len() && #[trigger] child.areas@[i].owns_ppn(q) ==> !arena0.is_live(
                    q,
                ) || (exists|j: int|
                    0 <= j < (k + 1) && (#[trigger] parent0.areas@[j]).vpn_range.start.0 < s && parent0.areas@[
                    j].owns_ppn(q)),
            cow_pages_shared(parent0, arena0, parent.page_table@, child.page_table@, arena, s, (k + 1)),
            forall|v: usize|
                !(exists|j: int|
                    0 <= j < (k + 1) && parent0.areas@[j].vpn_range.start.0 < s && (#[trigger] parent0.areas@[
                    j].vpn_range.contains(v))) ==> (#[trigger] parent.page_table@.contains_key(v)
                    == parent0.page_table@.contains_key(v)) && (parent0.page_table@.contains_key(v)
                    ==> parent.page_table@[v] == parent0.page_table@[v]),
            forall|q: int|
                arena0.is_live(q) && !(exists|j: int|
                    0 <= j < (k + 1) && (#[trigger] parent0.areas@[j]).vpn_range.start.0 < s && parent0.areas@[
                    j].owns_ppn(q)) ==> #[trigger] arena.refs_of(q) == arena0.refs_of(q),
    ensures
        fork_step_inv(
            parent0,
            arena0,
            eager_ms,
            eager_arena,
            s,
            eager_total,
            k + 1,
            parent,
            child,
            arena,
        ),
{
    reveal(fork_step_inv);
}

/// The facts of a copy-on-write fork that never change while regions are
/// being shared: the parent's initial state is sound, regions below the
/// split are indirected, reference counts have headroom, and the eagerly
/// built child prefix mirrors the at-or-above-split parent regions.
#[verifier::opaque]
pub open spec fn fork_fixed_inv(
    parent0: MemorySet,
    arena0: FrameArena,
    eager_ms: MemorySet,
    eager_arena: FrameArena,
    s: int,
    eager_total: int,
) -> bool {
    &&& parent0.inv(arena0)
    &&& forall|q: int| #[trigger] arena0.contains_ppn(q) ==> arena0.refs_of(q) < usize::MAX
    &&& forall|i: int|
        0 <= i < parent0.areas.len() && (#[trigger] parent0.areas@[i]).vpn_range.start.0 < s
            ==> parent0.areas@[i].map_type == MapType::Framed
    &&& eager_total == count_eager(parent0.areas@, s)
    &&& eager_ms.areas@.len() == eager_total
    &&& forall|j: int|
        0 <= j < parent0.areas.len() && (#[trigger] parent0.areas@[j]).vpn_range.start.0 >= s
            ==> 0 <= count_eager(parent0.areas@.take(j), s) < eager_total && eager_ms.areas@[
            count_eager(parent0.areas@.take(j), s)].vpn_range == parent0.areas@[j].vpn_range
            && eager_ms.areas@[count_eager(parent0.areas@.take(j), s)].map_type == parent0.areas@[
            j].map_type && eager_ms.areas@[count_eager(parent0.areas@.take(j), s)].map_perm
            == parent0.areas@[j].map_perm
    &&& forall|v: usize|
        #[trigger] eager_ms.page_table@.contains_key(v) ==> !(exists|j: int|
            0 <= j < parent0.areas.len() && parent0.areas@[j].vpn_range.start.0 < s && (
            #[trigger] parent0.areas@[j].vpn_range.contains(v)))
}

/// The rolling state of a copy-on-write fork after the first `k` parent
/// regions have been considered: both spaces sound, the child holding the
/// eager prefix plus one shared region per below-split region seen so
/// far, the shared pages marked on both sides, and everything else kept.
#[verifier::opaque]
pub open spec fn fork_step_inv(
    parent0: MemorySet,
    arena0: FrameArena,
    eager_ms: MemorySet,
    eager_arena: FrameArena,
    s: int,
    eager_total: int,
    k: int,
    parent: MemorySet,
    child: MemorySet,
    arena: FrameArena,
) -> bool {
    &&& parent.areas == parent0.areas
    &&& parent.page_table.root_ppn == parent0.page_table.root_ppn
    &&& parent.inv(arena)
    &&& child.inv(arena)
    &&& arena.base == arena0.base
    &&& arena.capacity == arena0.capacity
    &&& arena.slots.len() >= arena0.slots.len()
    &&& child.areas@.len() == eager_total + (k - count_eager(parent0.areas@.take(k), s))
    &&& count_eager(parent0.areas@.take(k), s) <= k
    &&& arena.slots.len() == eager_arena.slots.len()
    &&& arena.base == eager_arena.base
    &&& forall|i: int| 0 <= i < eager_total ==> #[trigger] child.areas@[i] == eager_ms.areas@[i]
    &&& forall|j: int|
        0 <= j < k && (#[trigger] parent0.areas@[j]).vpn_range.start.0 < s ==> {
            let a = eager_total + j - count_eager(parent0.areas@.take(j), s);
            &&& 0 <= a < child.areas@.len()
            &&& child.areas@[a].vpn_range == parent0.areas@[j].vpn_range
            &&& child.areas@[a].map_type == MapType::Framed
            &&& child.areas@[a].map_perm == parent0.areas@[j].map_perm
        }
    &&& forall|v: usize|
        #[trigger] eager_ms.page_table@.contains_key(v) ==> child.page_table@.contains_key(v)
            && child.page_table@[v] == eager_ms.page_table@[v]
    &&& forall|q: int|
        eager_arena.contains_ppn(q) ==> #[trigger] arena.data_of(q) == eager_arena.data_of(q)
    &&& forall|i: int, q: int|
        0 <= i < child.areas.len() && #[trigger] child.areas@[i].owns_ppn(q) ==> !arena0.is_live(
            q,
        ) || (exists|j: int|
            0 <= j < k && (#[trigger] parent0.areas@[j]).vpn_range.start.0 < s && parent0.areas@[
            j].owns_ppn(q))
    &&& cow_pages_shared(parent0, arena0, parent.page_table@, child.page_table@, arena, s, k)
    &&& forall|v: usize|
        !(exists|j: int|
            0 <= j < k && parent0.areas@[j].vpn_range.start.0 < s && (#[trigger] parent0.areas@[
            j].vpn_range.contains(v))) ==> (#[trigger] parent.page_table@.contains_key(v)
            == parent0.page_table@.contains_key(v)) && (parent0.page_table@.contains_key(v)
            ==> parent.page_table@[v] == parent0.page_table@[v])
    &&& forall|q: int|
        arena0.is_live(q) && !(exists|j: int|
            0 <= j < k && (#[trigger] parent0.areas@[j]).vpn_range.start.0 < s && parent0.areas@[
            j].owns_ppn(q)) ==> #[trigger] arena.refs_of(q) == arena0.refs_of(q)
}

/// Sharing one more region extends the copy-on-write page bookkeeping by
/// one region index.
#[verifier::rlimit(100)]
#[verifier::spinoff_prover]
pub proof fn lemma_cow_share_step(
    parent0: MemorySet,
    arena0: FrameArena,
    pre_parent_pt: Map<usize, PageTableEntry>,
    parent_pt: Map<usize, PageTableEntry>,
    pre_child_pt: Map<usize, PageTableEntry>,
    child_pt: Map<usize, PageTableEntry>,
    pre_arena: FrameArena,
    arena: FrameArena,
    s: int,
    k: int,
)
    requires
        parent0.inv(arena0),
        0 <= k < parent0.areas.len(),
        parent0.areas@[k as int].vpn_range.start.0 < s,
        parent0.areas@[k as int].map_type == MapType::Framed,
        forall|i: int|
            0 <= i < parent0.areas.len() && (#[trigger] parent0.areas@[i]).vpn_range.start.0 < s
                ==> parent0.areas@[i].map_type == MapType::Framed,
        cow_pages_shared(parent0, arena0, pre_parent_pt, pre_child_pt, pre_arena, s, k),
        forall|q: int|
            arena0.is_live(q) && !(exists|j: int|
                0 <= j < k && (#[trigger] parent0.areas@[j]).vpn_range.start.0 < s
                    && parent0.areas@[j].owns_ppn(q)) ==> #[trigger] pre_arena.refs_of(q)
                == arena0.refs_of(q),
        forall|v: usize|
            !(exists|j: int|
                0 <= j < k && parent0.areas@[j].vpn_range.start.0 < s && (
                #[trigger] parent0.areas@[j].vpn_range.contains(v))) ==> (
            #[trigger] pre_parent_pt.contains_key(v) == parent0.page_table@.contains_key(v)) && (
            parent0.page_table@.contains_key(v) ==> pre_parent_pt[v] == parent0.page_table@[v]),
        forall|v: usize|
            #[trigger] parent0.areas@[k as int].vpn_range.contains(v) ==> {
                let p = pre_parent_pt[v].ppn;
                &&& parent_pt.contains_key(v)
                &&& parent_pt[v].ppn == p
                &&& parent_pt[v].flags == (PTEFlags { w: false, cow: true, ..pre_parent_pt[v].flags })
                &&& child_pt.contains_key(v)
                &&& child_pt[v].ppn == p
                &&& child_pt[v].flags == (PTEFlags { w: false, cow: true, ..pre_parent_pt[v].flags })
                &&& arena.refs_of(p.0 as int) == pre_arena.refs_of(p.0 as int) + 1
            },
        forall|v: usize|
            !parent0.areas@[k as int].vpn_range.contains(v) ==> (#[trigger] parent_pt.contains_key(
                v,
            ) == pre_parent_pt.contains_key(v)) && (pre_parent_pt.contains_key(v) ==> parent_pt[v]
                == pre_parent_pt[v]),
        forall|v: usize|
            !parent0.areas@[k as int].vpn_range.contains(v) ==> (#[trigger] child_pt.contains_key(
                v,
            ) == pre_child_pt.contains_key(v)) && (pre_child_pt.contains_key(v) ==> child_pt[v]
                == pre_child_pt[v]),
        forall|q: int|
            arena0.contains_ppn(q) && !parent0.areas@[k as int].owns_ppn(q)
                ==> #[trigger] arena.refs_of(q) == pre_arena.refs_of(q),
        arena.slots.len() >= arena0.slots.len(),
        arena.base == arena0.base,
        pre_arena.slots.len() >= arena0.slots.len(),
        pre_arena.base == arena0.base,
    ensures
        cow_pages_shared(parent0, arena0, parent_pt, child_pt, arena, s, k + 1),
{
    reveal(cow_pages_shared);
    let pk = parent0.areas@[k as int];
    assert(pk.mapped_in(parent0.page_table@, arena0));
    assert forall|j: int, v: usize|
        0 <= j < k + 1 && parent0.areas@[j].vpn_range.start.0 < s && #[trigger] parent0.areas@[
        j].vpn_range.contains(v) implies {
        let p = parent0.page_table@[v].ppn;
        &&& parent_pt.contains_key(v)
        &&& parent_pt[v].ppn == p
        &&& parent_pt[v].flags == (PTEFlags { w: false, cow: true, ..parent0.page_table@[v].flags })
        &&& child_pt.contains_key(v)
        &&& child_pt[v].ppn == p
        &&& child_pt[v].flags == (PTEFlags { w: false, cow: true, ..parent0.page_table@[v].flags })
        &&& arena.refs_of(p.0 as int) == arena0.refs_of(p.0 as int) + 1
    } by {
        let p = parent0.page_table@[v].ppn;
        if j == k {
            assert(pk.vpn_range.contains(v));
            assert(!(exists|j2: int|
                0 <= j2 < k && parent0.areas@[j2].vpn_range.start.0 < s && (
                #[trigger] parent0.areas@[j2].vpn_range.contains(v)))) by {
                if exists|j2: int|
                    0 <= j2 < k && parent0.areas@[j2].vpn_range.start.0 < s && (
                    #[trigger] parent0.areas@[j2].vpn_range.contains(v)) {
                    let j2 = choose|j2: int|
                        0 <= j2 < k && parent0.areas@[j2].vpn_range.start.0 < s && (
                        #[trigger] parent0.areas@[j2].vpn_range.contains(v));
                    assert(pk.vpn_range.disjoint(parent0.areas@[j2].vpn_range));
                    assert(false);
                }
            }
            assert(parent0.page_table@.contains_key(v));
            assert(pre_parent_pt.contains_key(v));
            assert(pre_parent_pt[v] == parent0.page_table@[v]);
            assert(arena.refs_of(p.0 as int) == pre_arena.refs_of(p.0 as int) + 1);
            assert(pre_arena.refs_of(p.0 as int) == arena0.refs_of(p.0 as int)) by {
                assert(arena0.is_live(p.0 as int)) by {
                    assert(pk.data_frames@.contains_key(v));
                }
                assert(!(exists|j2: int|
                    0 <= j2 < k && (#[trigger] parent0.areas@[j2]).vpn_range.start.0 < s
                        && parent0.areas@[j2].owns_ppn(p.0 as int))) by {
                    if exists|j2: int|
                        0 <= j2 < k && (#[trigger] parent0.areas@[j2]).vpn_range.start.0 < s
                            && parent0.areas@[j2].owns_ppn(p.0 as int) {
                        let j2 = choose|j2: int|
                            0 <= j2 < k && (#[trigger] parent0.areas@[j2]).vpn_range.start.0 < s
                                && parent0.areas@[j2].owns_ppn(p.0 as int);
                        let w2 = choose|w2: usize|
                            #[trigger] parent0.areas@[j2].data_frames@.contains_key(w2)
                                && parent0.areas@[j2].data_frames@[w2].0 == p.0;
                        assert(pk.data_frames@.contains_key(v));
                        assert(pk.data_frames@[v] == parent0.page_table@[v].ppn);
                        assert(parent0.areas@[j2].data_frames@[w2] != pk.data_frames@[v]);
                        assert(false);
                    }
                }
            }
        } else {
            assert(parent0.areas@[j].vpn_range.contains(v));
            assert(!pk.vpn_range.contains(v)) by {
                assert(pk.vpn_range.disjoint(parent0.areas@[j].vpn_range));
            }
            assert(pre_parent_pt.contains_key(v) && pre_parent_pt[v].ppn == p);
            assert(parent_pt.contains_key(v));
            assert(parent_pt[v] == pre_parent_pt[v]);
            assert(pre_child_pt.contains_key(v) && pre_child_pt[v].ppn == p);
            assert(child_pt.contains_key(v));
            assert(child_pt[v] == pre_child_pt[v]);
            let p0 = p.0 as int;
            assert(pre_arena.refs_of(p0) == arena0.refs_of(p0) + 1);
            assert(arena.refs_of(p0) == pre_arena.refs_of(p0)) by {
                assert(arena0.is_live(p0)) by {
                    assert(parent0.areas@[j].mapped_in(parent0.page_table@, arena0));
                    assert(parent0.areas@[j].map_type == MapType::Framed);
                    assert(parent0.areas@[j].data_frames@.contains_key(v));
                }
                assert(!pk.owns_ppn(p0)) by {
                    if pk.owns_ppn(p0) {
                        let w = choose|w: usize|
                            #[trigger] pk.data_frames@.contains_key(w) && pk.data_frames@[w].0
                                == p0;
                        assert(parent0.areas@[j].data_frames@.contains_key(v));
                        assert(parent0.areas@[j].data_frames@[v].0 == p0);
                        assert(parent0.areas@[j].data_frames@[v] != pk.data_frames@[w]);
                        assert(false);
                    }
                }
                assert(arena0.contains_ppn(p0));
            }
        }
    }
}

/// A change that keeps every live frame live preserves an address-space
/// invariant.
pub proof fn lemma_inv_live_preserved(
    ms: MemorySet,
    pre_arena: FrameArena,
    arena: FrameArena,
)
    requires
        ms.inv(pre_arena),
        arena.wf(),
        forall|q: int| pre_arena.is_live(q) ==> #[trigger] arena.is_live(q),
    ensures
        ms.inv(arena),
{
    assert forall|i: int| 0 <= i < ms.areas.len() implies (#[trigger] ms.areas@[i]).mapped_in(
        ms.page_table@,
        arena,
    ) by {
        assert(ms.areas@[i].mapped_in(ms.page_table@, pre_arena));
        assert forall|v: usize| #[trigger] ms.areas@[i].vpn_range.contains(v) implies {
            &&& ms.page_table@.contains_key(v)
            &&& match ms.areas@[i].map_type {
                MapType::Identical => ms.page_table@[v].ppn.0 == v,
                MapType::Framed => ms.areas@[i].data_frames@.contains_key(v)
                    && ms.page_table@[v].ppn == ms.areas@[i].data_frames@[v] && arena.is_live(
                    ms.page_table@[v].ppn.0 as int,
                ),
            }
        } by {
            if ms.areas@[i].map_type == MapType::Framed {
                assert(pre_arena.is_live(ms.page_table@[v].ppn.0 as int));
            }
        }
    }
}

/// The boot-time layout of the kernel image: section boundaries and the
/// physical locations of the two trampoline code pages, as the linker
/// placed them. All section boundaries are page-aligned and ascend from
/// above the memory-mapped I/O window up to the top of usable physical
/// memory.
pub struct KernelLayout {
    pub stext: usize,
    pub etext: usize,
    pub srodata: usize,
    pub erodata: usize,
    pub sdata: usize,
    pub edata: usize,
    pub sbss_with_stack: usize,
    pub ebss: usize,
    pub ekernel: usize,
    pub strampoline: usize,
    pub ssignaltrampoline: usize,
}

impl KernelLayout {
    /// Section bounds are page-aligned and ascending, above the I/O
    /// window and below the top of physical memory.
    pub open spec fn wf(self) -> bool {
        &&& self.stext % PAGE_SIZE == 0
        &&& self.etext % PAGE_SIZE == 0
        &&& self.srodata % PAGE_SIZE == 0
        &&& self.erodata % PAGE_SIZE == 0
        &&& self.sdata % PAGE_SIZE == 0
        &&& self.edata % PAGE_SIZE == 0
        &&& self.sbss_with_stack % PAGE_SIZE == 0
        &&& self.ebss % PAGE_SIZE == 0
        &&& self.ekernel % PAGE_SIZE == 0
        &&& 0x1000_2000 <= self.stext
        &&& self.stext <= self.etext
        &&& self.etext <= self.srodata
        &&& self.srodata <= self.erodata
        &&& self.erodata <= self.sdata
        &&& self.sdata <= self.edata
        &&& self.edata <= self.sbss_with_stack
        &&& self.sbss_with_stack <= self.ebss
        &&& self.ebss <= self.ekernel
        &&& self.ekernel <= MEMORY_END
    }
}

/// A per-process address space.
pub struct MemorySet {
    pub page_table: PageTable,
    pub areas: Vec<MapArea>,
}

impl MemorySet {
    /// Regions are pairwise non-overlapping.
    pub open spec fn areas_disjoint(self) -> bool {
        forall|i: int, j: int|
            0 <= i < self.areas.len() && 0 <= j < self.areas.len() && i != j ==> (
            #[trigger] self.areas@[i]).vpn_range.disjoint((#[trigger] self.areas@[j]).vpn_range)
    }

    /// No frame is owned by two regions of the same address space.
    pub open spec fn frames_disjoint(self) -> bool {
        forall|i: int, j: int, v1: usize, v2: usize|
            0 <= i < self.areas.len() && 0 <= j < self.areas.len() && i != j && (
            #[trigger] self.areas@[i].data_frames@.contains_key(v1)) && (
            #[trigger] self.areas@[j].data_frames@.contains_key(v2))
                ==> self.areas@[i].data_frames@[v1] != self.areas@[j].data_frames@[v2]
    }

    /// The page belongs to some region of the space.
    pub open spec fn in_some_area(self, v: usize) -> bool {
        exists|i: int|
            0 <= i < self.areas.len() && (#[trigger] self.areas@[i]).vpn_range.contains(v)
    }

    /// The address-space invariant, relative to the frame arena backing
    /// its indirected pages: every region is well formed, regions and
    /// their frames are disjoint, every region page is installed in the
    /// page table (direct pages at their own number, indirected pages at
    /// their live owned frame), regions stay below the trampolines, and
    /// nothing else is mapped besides the two trampoline pages.
    pub open spec fn inv(self, arena: FrameArena) -> bool {
        &&& self.page_table.wf()
        &&& arena.wf()
        &&& forall|i: int| 0 <= i < self.areas.len() ==> (#[trigger] self.areas@[i]).wf()
        &&& self.areas_disjoint()
        &&& self.frames_disjoint()
        &&& forall|i: int|
            0 <= i < self.areas.len() ==> (#[trigger] self.areas@[i]).mapped_in(
                self.page_table@,
                arena,
            )
        &&& forall|i: int|
            0 <= i < self.areas.len() ==> (#[trigger] self.areas@[i]).vpn_range.end.0
                <= signal_trampoline_vpn()
        &&& forall|v: usize|
            #[trigger] self.page_table@.contains_key(v) ==> self.in_some_area(v) || v
                == trampoline_vpn() || v == signal_trampoline_vpn()
    }

    /// A bare space: an empty page table (whose root is drawn from the
    /// arena) and no regions.
    pub fn new_bare(arena: &mut FrameArena) -> (r: MemorySet)
        requires
            old(arena).wf(),
            old(arena).free_frames() > 0,
        ensures
            r.inv(*final(arena)),
            r.areas@.len() == 0,
            r.page_table@ == Map::<usize, PageTableEntry>::empty(),
            final(arena).same_except(*old(arena), r.page_table.root_ppn.0 as int),
            !old(arena).is_live(r.page_table.root_ppn.0 as int),
            final(arena).is_live(r.page_table.root_ppn.0 as int),
            final(arena).free_frames() == old(arena).free_frames() - 1,
            final(arena).base == old(arena).base,
            final(arena).capacity == old(arena).capacity,
    {
        let page_table = PageTable::new(arena);
        MemorySet { page_table, areas: Vec::new() }
    }

    /// The hardware-consumable identifier used to activate this space.
    pub fn token(&self) -> (r: u64)
        ensures
            r == crate::page_table::TOKEN_MODE | (self.page_table.root_ppn.0 as u64),
    {
        self.page_table.token()
    }

    /// Look up the translation of a virtual page.
    pub fn translate(&self, vpn: VirtPageNum) -> (r: Option<PageTableEntry>)
        ensures
            r == if self.page_table@.contains_key(vpn.0) {
                Some(self.page_table@[vpn.0])
            } else {
                None::<PageTableEntry>
            },
    {
        self.page_table.translate(vpn)
    }

    /// Mark an installed entry copy-on-write, clearing its writable bit.
    pub fn set_cow(&mut self, arena: &FrameArena, vpn: VirtPageNum)
        requires
            old(self).inv(*arena),
            old(self).page_table@.contains_key(vpn.0),
        ensures
            final(self).inv(*arena),
            final(self).areas == old(self).areas,
            final(self).page_table.root_ppn == old(self).page_table.root_ppn,
            final(self).page_table@ == old(self).page_table@.insert(
                vpn.0,
                PageTableEntry {
                    ppn: old(self).page_table@[vpn.0].ppn,
                    flags: PTEFlags {
                        w: false,
                        cow: true,
                        ..old(self).page_table@[vpn.0].flags
                    },
                },
            ),
    {
        self.page_table.set_cow(vpn);
        proof {
            self.lemma_flags_change_keeps_inv(*old(self), *arena, vpn.0);
        }
    }

    /// Clear the copy-on-write marker of an installed entry, restoring the
    /// writable bit.
    pub fn reset_cow(&mut self, arena: &FrameArena, vpn: VirtPageNum)
        requires
            old(self).inv(*arena),
            old(self).page_table@.contains_key(vpn.0),
        ensures
            final(self).inv(*arena),
            final(self).areas == old(self).areas,
            final(self).page_table.root_ppn == old(self).page_table.root_ppn,
            final(self).page_table@ == old(self).page_table@.insert(
                vpn.0,
                PageTableEntry {
                    ppn: old(self).page_table@[vpn.0].ppn,
                    flags: PTEFlags {
                        w: true,
                        cow: false,
                        ..old(self).page_table@[vpn.0].flags
                    },
                },
            ),
    {
        self.page_table.reset_cow(vpn);
        proof {
            self.lemma_flags_change_keeps_inv(*old(self), *arena, vpn.0);
        }
    }

    /// Replace the protection/state bits of an installed entry.
    pub fn set_flags(&mut self, arena: &FrameArena, vpn: VirtPageNum, flags: PTEFlags)
        requires
            old(self).inv(*arena),
            old(self).page_table@.contains_key(vpn.0),
            flags.well_formed(),
        ensures
            final(self).inv(*arena),
            final(self).areas == old(self).areas,
            final(self).page_table.root_ppn == old(self).page_table.root_ppn,
            final(self).page_table@ == old(self).page_table@.insert(
                vpn.0,
                PageTableEntry { ppn: old(self).page_table@[vpn.0].ppn, flags },
            ),
    {
        self.page_table.set_flags(vpn, flags);
        proof {
            self.lemma_flags_change_keeps_inv(*old(self), *arena, vpn.0);
        }
    }

    /// Replace the readable/writable/executable bits of an installed entry
    /// from an encoded flag word; the writable bit is withheld while the
    /// entry is copy-on-write marked. Returns 0 when the entry exists and
    /// -1 when it does not.
    pub fn set_pte_flags(&mut self, arena: &FrameArena, vpn: VirtPageNum, flags: usize) -> (r:
        isize)
        requires
            old(self).inv(*arena),
        ensures
            final(self).inv(*arena),
            final(self).areas == old(self).areas,
            final(self).page_table.root_ppn == old(self).page_table.root_ppn,
            r == if old(self).page_table@.contains_key(vpn.0) {
                0isize
            } else {
                -1isize
            },
            old(self).page_table@.contains_key(vpn.0) ==> final(self).page_table@ == old(self).page_table@.insert(
                vpn.0,
                PageTableEntry {
                    ppn: old(self).page_table@[vpn.0].ppn,
                    flags: PTEFlags {
                        r: flags & 2 != 0,
                        w: (flags & 4 != 0) && !old(self).page_table@[vpn.0].flags.cow,
                        x: flags & 8 != 0,
                        ..old(self).page_table@[vpn.0].flags
                    },
                },
            ),
            !old(self).page_table@.contains_key(vpn.0) ==> final(self).page_table@ == old(self).page_table@,
    {
        let r = self.page_table.set_pte_flags(vpn, flags);
        proof {
            if old(self).page_table@.contains_key(vpn.0) {
                self.lemma_flags_change_keeps_inv(*old(self), *arena, vpn.0);
            }
        }
        r
    }

    /// A change that keeps the page-table domain and every target frame,
    /// altering only flags, preserves the invariant.
    proof fn lemma_flags_change_keeps_inv(self, pre: MemorySet, arena: FrameArena, c: usize)
        requires
            pre.inv(arena),
            self.areas == pre.areas,
            self.page_table.wf(),
            pre.page_table@.contains_key(c),
            self.page_table@ == pre.page_table@.insert(
                c,
                PageTableEntry { ppn: pre.page_table@[c].ppn, flags: self.page_table@[c].flags },
            ),
        ensures
            self.inv(arena),
    {
        assert forall|i: int| 0 <= i < self.areas.len() implies (
        #[trigger] self.areas@[i]).mapped_in(self.page_table@, arena) by {
            assert(pre.areas@[i].mapped_in(pre.page_table@, arena));
            assert forall|v: usize| #[trigger] self.areas@[i].vpn_range.contains(v) implies {
                &&& self.page_table@.contains_key(v)
                &&& match self.areas@[i].map_type {
                    MapType::Identical => self.page_table@[v].ppn.0 == v,
                    MapType::Framed => self.areas@[i].data_frames@.contains_key(v)
                        && self.page_table@[v].ppn == self.areas@[i].data_frames@[v]
                        && arena.is_live(self.page_table@[v].ppn.0 as int),
                }
            } by {
                assert(pre.areas@[i].vpn_range.contains(v));
                assert(self.page_table@[v].ppn == pre.page_table@[v].ppn);
            }
        }
        assert forall|v: usize| #[trigger] self.page_table@.contains_key(v) implies self.in_some_area(
            v,
        ) || v == trampoline_vpn() || v == signal_trampoline_vpn() by {
            assert(pre.page_table@.contains_key(v));
            if pre.in_some_area(v) {
                let i = choose|i: int|
                    0 <= i < pre.areas.len() && (#[trigger] pre.areas@[i]).vpn_range.contains(v);
                assert(self.areas@[i].vpn_range.contains(v));
            }
        }
    }

    /// Map a fresh region into the table, optionally copying a buffer into
    /// it at a byte offset within its first page, and append it to the
    /// region list. Callers guarantee non-overlap; frame-pool exhaustion
    /// during mapping is fatal to the calling context, so enough free
    /// frames are demanded up front.
    pub(crate) fn push_with_offset(
        &mut self,
        arena: &mut FrameArena,
        map_area: MapArea,
        offset: usize,
        data: Option<&[u8]>,
    )
        requires
            old(self).inv(*old(arena)),
            map_area.wf(),
            map_area.data_frames@ == Map::<usize, PhysPageNum>::empty(),
            forall|i: int|
                0 <= i < old(self).areas.len() ==> map_area.vpn_range.disjoint(
                    (#[trigger] old(self).areas@[i]).vpn_range,
                ),
            map_area.vpn_range.end.0 <= signal_trampoline_vpn(),
            map_area.map_type == MapType::Framed ==> old(arena).free_frames()
                >= map_area.vpn_range.page_count(),
            data matches Some(d) ==> {
                &&& map_area.map_type == MapType::Framed
                &&& offset < PAGE_SIZE
                &&& offset + d@.len() <= map_area.vpn_range.page_count() * PAGE_SIZE
                &&& map_area.vpn_range.end.0 <= usize::MAX as int / PAGE_SIZE as int
            },
        ensures
            final(self).inv(*final(arena)),
            final(self).page_table.root_ppn == old(self).page_table.root_ppn,
            final(self).areas@.len() == old(self).areas@.len() + 1,
            forall|k: int|
                0 <= k < old(self).areas@.len() ==> #[trigger] final(self).areas@[k] == old(self).areas@[k],
            final(self).areas@.last().vpn_range == map_area.vpn_range,
            final(self).areas@.last().map_type == map_area.map_type,
            final(self).areas@.last().map_perm == map_area.map_perm,
            forall|v: usize|
                #[trigger] map_area.vpn_range.contains(v) ==> final(self).page_table@.contains_key(
                    v,
                ) && final(self).page_table@[v].flags == map_area.map_perm.spec_pte_flags() && (
                map_area.map_type == MapType::Identical ==> final(self).page_table@[v].ppn.0 == v),
            forall|v: usize|
                !map_area.vpn_range.contains(v) ==> (#[trigger] final(self).page_table@.contains_key(v) == old(self).page_table@.contains_key(v)) && (old(self).page_table@.contains_key(v) ==> final(self).page_table@[v] == old(self).page_table@[v]),
            final(arena).base == old(arena).base,
            final(arena).capacity == old(arena).capacity,
            final(arena).slots.len() >= old(arena).slots.len(),
            final(arena).free_frames() == old(arena).free_frames() - (if map_area.map_type
                == MapType::Framed {
                map_area.vpn_range.page_count()
            } else {
                0
            }),
            forall|q: int|
                old(arena).contains_ppn(q) && !final(self).areas@.last().owns_ppn(q)
                    ==> #[trigger] final(arena).refs_of(q) == old(arena).refs_of(q),
            forall|q: int|
                #![trigger final(arena).data_of(q)]
                old(arena).contains_ppn(q) && !final(self).areas@.last().owns_ppn(q) ==> final(arena).data_of(q) == old(arena).data_of(q),
            forall|q: int|
                #[trigger] final(self).areas@.last().owns_ppn(q) ==> !old(arena).is_live(q),
            map_area.map_type == MapType::Framed ==> forall|v: usize|
                #![trigger map_area.vpn_range.contains(v)]
                map_area.vpn_range.contains(v) ==> !old(arena).is_live(
                    final(self).page_table@[v].ppn.0 as int,
                ) && final(arena).is_live(final(self).page_table@[v].ppn.0 as int) && final(arena).refs_of(final(self).page_table@[v].ppn.0 as int) == 1,
            data is None && map_area.map_type == MapType::Framed ==> forall|v: usize|
                #![trigger map_area.vpn_range.contains(v)]
                map_area.vpn_range.contains(v) ==> final(arena).data_of(
                    final(self).page_table@[v].ppn.0 as int,
                ) == crate::frame::zero_page(),
            data matches Some(d) ==> forall|i: int|
                0 <= i < d@.len() ==> #[trigger] mem_byte(
                    final(self).page_table@,
                    *final(arena),
                    map_area.vpn_range.start.0 * PAGE_SIZE + offset + i,
                ) == d@[i],
            data matches Some(d) ==> forall|pos: int|
                0 <= pos < map_area.vpn_range.page_count() * PAGE_SIZE && !(offset <= pos < offset
                    + d@.len()) ==> #[trigger] mem_byte(
                    final(self).page_table@,
                    *final(arena),
                    map_area.vpn_range.start.0 * PAGE_SIZE + pos,
                ) == 0,
    {
        let mut map_area = map_area;
        let ghost pre_pt = self.page_table;
        let ghost pre_arena = *arena;
        map_area.map(&mut self.page_table, arena);
        proof {
            assert(self.areas@ == old(self).areas@);
            assert forall|i: int| 0 <= i < self.areas.len() implies (
            #[trigger] self.areas@[i]).mapped_in(self.page_table@, *arena) by {
                let a = old(self).areas@[i];
                assert(self.areas@[i] == a);
                assert(a.mapped_in(pre_pt@, pre_arena));
                assert(map_area.vpn_range.disjoint(a.vpn_range));
                assert forall|v: usize| #[trigger] a.vpn_range.contains(v) implies {
                    &&& self.page_table@.contains_key(v)
                    &&& match a.map_type {
                        MapType::Identical => self.page_table@[v].ppn.0 == v,
                        MapType::Framed => a.data_frames@.contains_key(v)
                            && self.page_table@[v].ppn == a.data_frames@[v] && arena.is_live(
                            self.page_table@[v].ppn.0 as int,
                        ),
                    }
                } by {
                    assert(!map_area.vpn_range.contains(v));
                    assert(self.page_table@.contains_key(v) == pre_pt@.contains_key(v));
                    assert(self.page_table@[v] == pre_pt@[v]);
                    if a.map_type == MapType::Framed {
                        let pq = pre_pt@[v].ppn.0 as int;
                        assert(pre_arena.is_live(pq));
                        if map_area.map_type == MapType::Framed {
                            assert(!map_area.owns_ppn(pq)) by {
                                if map_area.owns_ppn(pq) {
                                    let w = choose|w: usize|
                                        #[trigger] map_area.data_frames@.contains_key(w)
                                            && map_area.data_frames@[w].0 == pq;
                                    assert(!pre_arena.is_live(map_area.data_frames@[w].0 as int));
                                }
                            }
                            assert(arena.refs_of(pq) == pre_arena.refs_of(pq));
                            assert(arena.contains_ppn(pq));
                            assert(arena.is_live(pq));
                        } else {
                            assert(*arena == pre_arena);
                        }
                    }
                }
            }
            if data is None {
                assert(map_area.mapped_in(self.page_table@, *arena));
            }
        }
        let ghost gmid_arena = *arena;
        match data {
            Some(d) => {
                map_area.copy_data(&self.page_table, arena, d, offset);
                proof {
                    let mid_arena = *arena;
                    assert forall|i: int| 0 <= i < self.areas.len() implies (
                    #[trigger] self.areas@[i]).mapped_in(self.page_table@, *arena) by {
                        let a = self.areas@[i];
                        assert(a.mapped_in(self.page_table@, mid_arena) || true);
                        assert forall|v: usize| #[trigger] a.vpn_range.contains(v) implies {
                            &&& self.page_table@.contains_key(v)
                            &&& match a.map_type {
                                MapType::Identical => self.page_table@[v].ppn.0 == v,
                                MapType::Framed => a.data_frames@.contains_key(v)
                                    && self.page_table@[v].ppn == a.data_frames@[v]
                                    && arena.is_live(self.page_table@[v].ppn.0 as int),
                            }
                        } by {
                            if a.map_type == MapType::Framed {
                                let pq = self.page_table@[v].ppn.0 as int;
                                assert(arena.refs_of(pq) == mid_arena.refs_of(pq) || true);
                            }
                        }
                    }
                }
            },
            None => {
            },
        }
        let ghost final_area = map_area;
        self.areas.push(map_area);
        proof {
            let n = old(self).areas@.len() as int;
            assert(self.areas@ == old(self).areas@.push(final_area));
            assert(self.areas@[n] == final_area);
            assert forall|i: int| 0 <= i < self.areas.len() implies (#[trigger] self.areas@[i]).wf()
                && self.areas@[i].vpn_range.end.0 <= signal_trampoline_vpn() && self.areas@[i].mapped_in(self.page_table@, *arena) by {
                if i < n {
                    assert(self.areas@[i] == old(self).areas@[i]);
                }
            }
            assert forall|i: int, j: int|
                0 <= i < self.areas.len() && 0 <= j < self.areas.len() && i != j implies (
            #[trigger] self.areas@[i]).vpn_range.disjoint(
                (#[trigger] self.areas@[j]).vpn_range,
            ) by {
                if i < n && j < n {
                    assert(old(self).areas@[i].vpn_range.disjoint(old(self).areas@[j].vpn_range));
                } else if i == n {
                    assert(final_area.vpn_range.disjoint(old(self).areas@[j].vpn_range));
                } else {
                    assert(final_area.vpn_range.disjoint(old(self).areas@[i].vpn_range));
                }
            }
            assert forall|i: int, j: int, v1: usize, v2: usize|
                0 <= i < self.areas.len() && 0 <= j < self.areas.len() && i != j && (
                #[trigger] self.areas@[i].data_frames@.contains_key(v1)) && (
                #[trigger] self.areas@[j].data_frames@.contains_key(v2)) implies self.areas@[i].data_frames@[v1] != self.areas@[j].data_frames@[v2] by {
                if i < n && j < n {
                    assert(old(self).areas@[i].data_frames@.contains_key(v1));
                    assert(old(self).areas@[j].data_frames@.contains_key(v2));
                } else if i == n {
                    let p1 = final_area.data_frames@[v1];
                    let p2 = old(self).areas@[j].data_frames@[v2];
                    assert(!pre_arena.is_live(p1.0 as int));
                    assert(old(self).areas@[j].vpn_range.contains(v2));
                    assert(old(self).areas@[j].mapped_in(pre_pt@, pre_arena));
                    assert(pre_arena.is_live(pre_pt@[v2].ppn.0 as int));
                    assert(pre_pt@[v2].ppn == p2);
                } else {
                    let p1 = old(self).areas@[i].data_frames@[v1];
                    let p2 = final_area.data_frames@[v2];
                    assert(!pre_arena.is_live(p2.0 as int));
                    assert(old(self).areas@[i].vpn_range.contains(v1));
                    assert(old(self).areas@[i].mapped_in(pre_pt@, pre_arena));
                    assert(pre_arena.is_live(pre_pt@[v1].ppn.0 as int));
                    assert(pre_pt@[v1].ppn == p1);
                }
            }
            assert forall|v: usize| #[trigger] self.page_table@.contains_key(v) implies self.in_some_area(
                v,
            ) || v == trampoline_vpn() || v == signal_trampoline_vpn() by {
                if map_area.vpn_range.contains(v) {
                    assert(self.areas@[n].vpn_range.contains(v));
                    assert(self.in_some_area(v));
                } else {
                    assert(old(self).page_table@.contains_key(v));
                    if old(self).in_some_area(v) {
                        let i = choose|i: int|
                            0 <= i < old(self).areas.len() && (#[trigger] old(self).areas@[i]).vpn_range.contains(v);
                        assert(self.areas@[i].vpn_range.contains(v));
                        assert(self.in_some_area(v));
                    }
                }
            }
            assert(self.areas@.last() == final_area);
            assert forall|q: int|
                old(arena).contains_ppn(q) && !self.areas@.last().owns_ppn(
                    q,
                ) implies #[trigger] arena.data_of(q) == old(arena).data_of(q) by {
                assert(!final_area.owns_ppn(q));
                if final_area.map_type == MapType::Framed {
                    assert(gmid_arena.refs_of(q) == old(arena).refs_of(q));
                    assert(gmid_arena.data_of(q) == old(arena).data_of(q));
                    assert(gmid_arena.contains_ppn(q));
                    assert(arena.data_of(q) == gmid_arena.data_of(q));
                }
            }
            if map_area.map_type == MapType::Framed {
                assert(self.areas@[n].mapped_in(self.page_table@, *arena));
                assert forall|v: usize|
                    #![trigger map_area.vpn_range.contains(v)]
                    map_area.vpn_range.contains(v) implies !old(arena).is_live(
                    self.page_table@[v].ppn.0 as int,
                ) && arena.is_live(self.page_table@[v].ppn.0 as int) && arena.refs_of(
                    self.page_table@[v].ppn.0 as int,
                ) == 1 by {
                    assert(self.areas@[n].vpn_range.contains(v));
                    assert(final_area.data_frames@.contains_key(v));
                    assert(self.page_table@[v].ppn == final_area.data_frames@[v]);
                    let pq = self.page_table@[v].ppn.0 as int;
                    assert(!old(arena).is_live(pq));
                    assert(gmid_arena.is_live(pq));
                    assert(gmid_arena.refs_of(pq) == 1);
                    assert(arena.refs_of(pq) == gmid_arena.refs_of(pq));
                }
                match data {
                    None => {
                        assert forall|v: usize|
                            #![trigger map_area.vpn_range.contains(v)]
                            map_area.vpn_range.contains(v) implies arena.data_of(
                            self.page_table@[v].ppn.0 as int,
                        ) == crate::frame::zero_page() by {
                            assert(self.areas@[n].vpn_range.contains(v));
                            assert(final_area.data_frames@.contains_key(v));
                            assert(self.page_table@[v].ppn == final_area.data_frames@[v]);
                            assert(gmid_arena.data_of(self.page_table@[v].ppn.0 as int)
                                == crate::frame::zero_page());
                        }
                    },
                    Some(d) => {
                        assert forall|pos: int|
                            0 <= pos < map_area.vpn_range.page_count() * PAGE_SIZE && !(offset
                                <= pos < offset + d@.len()) implies #[trigger] mem_byte(
                            self.page_table@,
                            *arena,
                            map_area.vpn_range.start.0 * PAGE_SIZE + pos,
                        ) == 0 by {
                            crate::area::lemma_page_split(map_area.vpn_range.start.0 as int, pos);
                            assert(0 <= pos / (PAGE_SIZE as int)
                                < map_area.vpn_range.page_count()) by {
                                vstd::arithmetic::div_mod::lemma_div_pos_is_pos(
                                    pos,
                                    PAGE_SIZE as int,
                                );
                                vstd::arithmetic::div_mod::lemma_div_is_ordered(
                                    pos,
                                    map_area.vpn_range.page_count() * PAGE_SIZE - 1,
                                    PAGE_SIZE as int,
                                );
                                vstd::arithmetic::div_mod::lemma_div_multiples_vanish_fancy(
                                    map_area.vpn_range.page_count() - 1,
                                    PAGE_SIZE as int - 1,
                                    PAGE_SIZE as int,
                                );
                            }
                            let page = (map_area.vpn_range.start.0 + pos / (
                            PAGE_SIZE as int)) as usize;
                            assert(map_area.vpn_range.contains(page));
                            assert(self.areas@[n].vpn_range.contains(page));
                            assert(final_area.data_frames@.contains_key(page));
                            assert(self.page_table@[page].ppn == final_area.data_frames@[page]);
                            let pq = self.page_table@[page].ppn.0 as int;
                            assert(gmid_arena.data_of(pq) == crate::frame::zero_page());
                            assert(mem_byte(
                                self.page_table@,
                                *arena,
                                map_area.vpn_range.start.0 * PAGE_SIZE + pos,
                            ) == mem_byte(
                                self.page_table@,
                                gmid_arena,
                                map_area.vpn_range.start.0 * PAGE_SIZE + pos,
                            ));
                            assert(crate::frame::zero_page()[pos % (PAGE_SIZE as int)] == 0u8);
                        }
                    },
                }
            }
        }
    }

    /// Map a fresh region and append it, optionally copying a buffer in
    /// starting at the region's first byte.
    pub(crate) fn push(&mut self, arena: &mut FrameArena, map_area: MapArea, data: Option<&[u8]>)
        requires
            old(self).inv(*old(arena)),
            map_area.wf(),
            map_area.data_frames@ == Map::<usize, PhysPageNum>::empty(),
            forall|i: int|
                0 <= i < old(self).areas.len() ==> map_area.vpn_range.disjoint(
                    (#[trigger] old(self).areas@[i]).vpn_range,
                ),
            map_area.vpn_range.end.0 <= signal_trampoline_vpn(),
            map_area.map_type == MapType::Framed ==> old(arena).free_frames()
                >= map_area.vpn_range.page_count(),
            data matches Some(d) ==> {
                &&& map_area.map_type == MapType::Framed
                &&& d@.len() <= map_area.vpn_range.page_count() * PAGE_SIZE
                &&& map_area.vpn_range.end.0 <= usize::MAX as int / PAGE_SIZE as int
            },
        ensures
            final(self).inv(*final(arena)),
            final(self).page_table.root_ppn == old(self).page_table.root_ppn,
            final(self).areas@.len() == old(self).areas@.len() + 1,
            forall|k: int|
                0 <= k < old(self).areas@.len() ==> #[trigger] final(self).areas@[k] == old(self).areas@[k],
            final(self).areas@.last().vpn_range == map_area.vpn_range,
            final(self).areas@.last().map_type == map_area.map_type,
            final(self).areas@.last().map_perm == map_area.map_perm,
            forall|v: usize|
                #[trigger] map_area.vpn_range.contains(v) ==> final(self).page_table@.contains_key(
                    v,
                ) && final(self).page_table@[v].flags == map_area.map_perm.spec_pte_flags() && (
                map_area.map_type == MapType::Identical ==> final(self).page_table@[v].ppn.0 == v),
            forall|v: usize|
                !map_area.vpn_range.contains(v) ==> (#[trigger] final(self).page_table@.contains_key(v) == old(self).page_table@.contains_key(v)) && (old(self).page_table@.contains_key(v) ==> final(self).page_table@[v] == old(self).page_table@[v]),
            final(arena).base == old(arena).base,
            final(arena).capacity == old(arena).capacity,
            final(arena).slots.len() >= old(arena).slots.len(),
            final(arena).free_frames() == old(arena).free_frames() - (if map_area.map_type
                == MapType::Framed {
                map_area.vpn_range.page_count()
            } else {
                0
            }),
            forall|q: int|
                old(arena).contains_ppn(q) && !final(self).areas@.last().owns_ppn(q)
                    ==> #[trigger] final(arena).refs_of(q) == old(arena).refs_of(q),
            forall|q: int|
                #![trigger final(arena).data_of(q)]
                old(arena).contains_ppn(q) && !final(self).areas@.last().owns_ppn(q) ==> final(arena).data_of(q) == old(arena).data_of(q),
            forall|q: int|
                #[trigger] final(self).areas@.last().owns_ppn(q) ==> !old(arena).is_live(q),
            map_area.map_type == MapType::Framed ==> forall|v: usize|
                #![trigger map_area.vpn_range.contains(v)]
                map_area.vpn_range.contains(v) ==> !old(arena).is_live(
                    final(self).page_table@[v].ppn.0 as int,
                ) && final(arena).is_live(final(self).page_table@[v].ppn.0 as int) && final(arena).refs_of(final(self).page_table@[v].ppn.0 as int) == 1,
            data is None && map_area.map_type == MapType::Framed ==> forall|v: usize|
                #![trigger map_area.vpn_range.contains(v)]
                map_area.vpn_range.contains(v) ==> final(arena).data_of(
                    final(self).page_table@[v].ppn.0 as int,
                ) == crate::frame::zero_page(),
            data matches Some(d) ==> forall|i: int|
                0 <= i < d@.len() ==> #[trigger] mem_byte(
                    final(self).page_table@,
                    *final(arena),
                    map_area.vpn_range.start.0 * PAGE_SIZE + i,
                ) == d@[i],
            data matches Some(d) ==> forall|pos: int|
                0 <= pos < map_area.vpn_range.page_count() * PAGE_SIZE && !(0 <= pos < d@.len())
                    ==> #[trigger] mem_byte(
                    final(self).page_table@,
                    *final(arena),
                    map_area.vpn_range.start.0 * PAGE_SIZE + pos,
                ) == 0,
    {
        self.push_with_offset(arena, map_area, 0, data);
        proof {
            match data {
                Some(d) => {
                    assert forall|i: int| 0 <= i < d@.len() implies #[trigger] mem_byte(
                        self.page_table@,
                        *arena,
                        map_area.vpn_range.start.0 * PAGE_SIZE + i,
                    ) == d@[i] by {
                        assert(map_area.vpn_range.start.0 * PAGE_SIZE + 0 + i
                            == map_area.vpn_range.start.0 * PAGE_SIZE + i);
                        assert(mem_byte(
                            self.page_table@,
                            *arena,
                            map_area.vpn_range.start.0 * PAGE_SIZE + 0 + i,
                        ) == d@[i]);
                    }
                },
                None => {
                },
            }
        }
    }

    /// Append a new indirected region over the given byte range, with the
    /// given protection. The caller has already verified that the range
    /// overlaps no existing region.
    pub fn insert_framed_area(
        &mut self,
        arena: &mut FrameArena,
        start_va: VirtAddr,
        end_va: VirtAddr,
        permission: MapPermission,
    )
        requires
            old(self).inv(*old(arena)),
            start_va.0 <= end_va.0,
            forall|i: int|
                0 <= i < old(self).areas.len() ==> (#[trigger] old(self).areas@[i]).vpn_range.disjoint(
                    crate::area::VPNRange {
                        start: VirtPageNum(spec_floor(start_va.0 as int) as usize),
                        end: VirtPageNum(crate::addr::spec_ceil(end_va.0 as int) as usize),
                    },
                ),
            crate::addr::spec_ceil(end_va.0 as int) <= signal_trampoline_vpn(),
            old(arena).free_frames() >= crate::addr::spec_ceil(end_va.0 as int) - spec_floor(
                start_va.0 as int,
            ),
        ensures
            final(self).inv(*final(arena)),
            final(self).page_table.root_ppn == old(self).page_table.root_ppn,
            final(self).areas@.len() == old(self).areas@.len() + 1,
            forall|k: int|
                0 <= k < old(self).areas@.len() ==> #[trigger] final(self).areas@[k] == old(self).areas@[k],
            final(self).areas@.last().vpn_range.start.0 == spec_floor(start_va.0 as int),
            final(self).areas@.last().vpn_range.end.0 == crate::addr::spec_ceil(end_va.0 as int),
            final(self).areas@.last().map_type == MapType::Framed,
            final(self).areas@.last().map_perm == permission,
            forall|v: usize|
                spec_floor(start_va.0 as int) <= v < crate::addr::spec_ceil(end_va.0 as int)
                    ==> #[trigger] final(self).page_table@.contains_key(v) && final(self).page_table@[v].flags == permission.spec_pte_flags(),
            forall|v: usize|
                !(spec_floor(start_va.0 as int) <= v < crate::addr::spec_ceil(end_va.0 as int))
                    ==> (#[trigger] final(self).page_table@.contains_key(v) == old(self).page_table@.contains_key(v)) && (old(self).page_table@.contains_key(v) ==> final(self).page_table@[v] == old(self).page_table@[v]),
            final(arena).base == old(arena).base,
            final(arena).capacity == old(arena).capacity,
            final(arena).free_frames() == old(arena).free_frames() - (crate::addr::spec_ceil(
                end_va.0 as int,
            ) - spec_floor(start_va.0 as int)),
            forall|q: int|
                old(arena).contains_ppn(q) && !final(self).areas@.last().owns_ppn(q)
                    ==> #[trigger] final(arena).refs_of(q) == old(arena).refs_of(q),
            forall|q: int|
                #![trigger final(arena).data_of(q)]
                old(arena).contains_ppn(q) && !final(self).areas@.last().owns_ppn(q) ==> final(arena).data_of(q) == old(arena).data_of(q),
            forall|q: int|
                #[trigger] final(self).areas@.last().owns_ppn(q) ==> !old(arena).is_live(q),
            forall|v: usize|
                #![trigger final(self).page_table@[v]]
                spec_floor(start_va.0 as int) <= v < crate::addr::spec_ceil(end_va.0 as int)
                    ==> !old(arena).is_live(final(self).page_table@[v].ppn.0 as int) && final(arena).is_live(final(self).page_table@[v].ppn.0 as int) && final(arena).refs_of(
                    final(self).page_table@[v].ppn.0 as int,
                ) == 1 && final(arena).data_of(final(self).page_table@[v].ppn.0 as int)
                    == crate::frame::zero_page(),
    {
        let area = MapArea::new(start_va, end_va, MapType::Framed, permission);
        let ghost garea = area;
        self.push(arena, area, None);
        proof {
            assert forall|v: usize|
                spec_floor(start_va.0 as int) <= v < crate::addr::spec_ceil(
                    end_va.0 as int,
                ) implies #[trigger] self.page_table@.contains_key(v) && self.page_table@[v].flags
                == permission.spec_pte_flags() by {
                assert(garea.vpn_range.contains(v));
            }
            assert forall|v: usize|
                !(spec_floor(start_va.0 as int) <= v < crate::addr::spec_ceil(end_va.0 as int))
                    implies (#[trigger] self.page_table@.contains_key(v) == old(self).page_table@.contains_key(v)) by {
                assert(!garea.vpn_range.contains(v));
            }
            assert forall|v: usize|
                #![trigger self.page_table@[v]]
                !(spec_floor(start_va.0 as int) <= v < crate::addr::spec_ceil(end_va.0 as int))
                    && old(self).page_table@.contains_key(v) implies self.page_table@[v] == old(self).page_table@[v] by {
                assert(!garea.vpn_range.contains(v));
                assert(self.page_table@.contains_key(v));
            }
            assert forall|v: usize|
                #![trigger self.page_table@[v]]
                spec_floor(start_va.0 as int) <= v < crate::addr::spec_ceil(
                    end_va.0 as int,
                ) implies !old(arena).is_live(self.page_table@[v].ppn.0 as int) && arena.is_live(
                self.page_table@[v].ppn.0 as int,
            ) && arena.refs_of(self.page_table@[v].ppn.0 as int) == 1 && arena.data_of(
                self.page_table@[v].ppn.0 as int,
            ) == crate::frame::zero_page() by {
                assert(garea.vpn_range.contains(v));
            }
        }
    }

    /// Append a new indirected region for a later mapping request; the
    /// caller has already verified non-overlap.
    pub fn insert_mmap_area(
        &mut self,
        arena: &mut FrameArena,
        start_va: VirtAddr,
        end_va: VirtAddr,
        permission: MapPermission,
    )
        requires
            old(self).inv(*old(arena)),
            start_va.0 <= end_va.0,
            forall|i: int|
                0 <= i < old(self).areas.len() ==> (#[trigger] old(self).areas@[i]).vpn_range.disjoint(
                    crate::area::VPNRange {
                        start: VirtPageNum(spec_floor(start_va.0 as int) as usize),
                        end: VirtPageNum(crate::addr::spec_ceil(end_va.0 as int) as usize),
                    },
                ),
            crate::addr::spec_ceil(end_va.0 as int) <= signal_trampoline_vpn(),
            old(arena).free_frames() >= crate::addr::spec_ceil(end_va.0 as int) - spec_floor(
                start_va.0 as int,
            ),
        ensures
            final(self).inv(*final(arena)),
            final(self).page_table.root_ppn == old(self).page_table.root_ppn,
            final(self).areas@.len() == old(self).areas@.len() + 1,
            forall|k: int|
                0 <= k < old(self).areas@.len() ==> #[trigger] final(self).areas@[k] == old(self).areas@[k],
            final(self).areas@.last().vpn_range.start.0 == spec_floor(start_va.0 as int),
            final(self).areas@.last().vpn_range.end.0 == crate::addr::spec_ceil(end_va.0 as int),
            final(self).areas@.last().map_type == MapType::Framed,
            final(self).areas@.last().map_perm == permission,
            forall|v: usize|
                spec_floor(start_va.0 as int) <= v < crate::addr::spec_ceil(end_va.0 as int)
                    ==> #[trigger] final(self).page_table@.contains_key(v) && final(self).page_table@[v].flags == permission.spec_pte_flags(),
            forall|v: usize|
                !(spec_floor(start_va.0 as int) <= v < crate::addr::spec_ceil(end_va.0 as int))
                    ==> (#[trigger] final(self).page_table@.contains_key(v) == old(self).page_table@.contains_key(v)) && (old(self).page_table@.contains_key(v) ==> final(self).page_table@[v] == old(self).page_table@[v]),
            final(arena).base == old(arena).base,
            final(arena).capacity == old(arena).capacity,
            final(arena).free_frames() == old(arena).free_frames() - (crate::addr::spec_ceil(
                end_va.0 as int,
            ) - spec_floor(start_va.0 as int)),
            forall|q: int|
                old(arena).contains_ppn(q) && !final(self).areas@.last().owns_ppn(q)
                    ==> #[trigger] final(arena).refs_of(q) == old(arena).refs_of(q),
            forall|q: int|
                #![trigger final(arena).data_of(q)]
                old(arena).contains_ppn(q) && !final(self).areas@.last().owns_ppn(q) ==> final(arena).data_of(q) == old(arena).data_of(q),
            forall|q: int|
                #[trigger] final(self).areas@.last().owns_ppn(q) ==> !old(arena).is_live(q),
            forall|v: usize|
                #![trigger final(self).page_table@[v]]
                spec_floor(start_va.0 as int) <= v < crate::addr::spec_ceil(end_va.0 as int)
                    ==> !old(arena).is_live(final(self).page_table@[v].ppn.0 as int) && final(arena).is_live(final(self).page_table@[v].ppn.0 as int) && final(arena).refs_of(
                    final(self).page_table@[v].ppn.0 as int,
                ) == 1 && final(arena).data_of(final(self).page_table@[v].ppn.0 as int)
                    == crate::frame::zero_page(),
    {
        let area = MapArea::new(start_va, end_va, MapType::Framed, permission);
        let ghost garea = area;
        self.push(arena, area, None);
        proof {
            assert forall|v: usize|
                spec_floor(start_va.0 as int) <= v < crate::addr::spec_ceil(
                    end_va.0 as int,
                ) implies #[trigger] self.page_table@.contains_key(v) && self.page_table@[v].flags
                == permission.spec_pte_flags() by {
                assert(garea.vpn_range.contains(v));
            }
            assert forall|v: usize|
                !(spec_floor(start_va.0 as int) <= v < crate::addr::spec_ceil(end_va.0 as int))
                    implies (#[trigger] self.page_table@.contains_key(v) == old(self).page_table@.contains_key(v)) by {
                assert(!garea.vpn_range.contains(v));
            }
            assert forall|v: usize|
                #![trigger self.page_table@[v]]
                !(spec_floor(start_va.0 as int) <= v < crate::addr::spec_ceil(end_va.0 as int))
                    && old(self).page_table@.contains_key(v) implies self.page_table@[v] == old(self).page_table@[v] by {
                assert(!garea.vpn_range.contains(v));
                assert(self.page_table@.contains_key(v));
            }
            assert forall|v: usize|
                #![trigger self.page_table@[v]]
                spec_floor(start_va.0 as int) <= v < crate::addr::spec_ceil(
                    end_va.0 as int,
                ) implies !old(arena).is_live(self.page_table@[v].ppn.0 as int) && arena.is_live(
                self.page_table@[v].ppn.0 as int,
            ) && arena.refs_of(self.page_table@[v].ppn.0 as int) == 1 && arena.data_of(
                self.page_table@[v].ppn.0 as int,
            ) == crate::frame::zero_page() by {
                assert(garea.vpn_range.contains(v));
            }
        }
    }

    /// Everything the removal of region `i` changes: the region list loses
    /// exactly that region (the first whose range starts at `start_vpn`),
    /// its pages become untranslatable, every other translation is kept,
    /// the frames it owned lose one reference each, and every other frame
    /// is untouched.
    pub open spec fn removed_area_post(
        pre: MemorySet,
        pre_arena: FrameArena,
        post: MemorySet,
        post_arena: FrameArena,
        i: int,
        start_vpn: VirtPageNum,
    ) -> bool {
        &&& 0 <= i < pre.areas.len()
        &&& pre.areas@[i].vpn_range.start == start_vpn
        &&& forall|j: int| 0 <= j < i ==> (#[trigger] pre.areas@[j]).vpn_range.start != start_vpn
        &&& post.areas@ == pre.areas@.remove(i)
        &&& forall|v: usize|
            pre.areas@[i].vpn_range.contains(v) ==> !(#[trigger] post.page_table@.contains_key(v))
        &&& forall|v: usize|
            !pre.areas@[i].vpn_range.contains(v) ==> (#[trigger] post.page_table@.contains_key(v)
                == pre.page_table@.contains_key(v)) && (pre.page_table@.contains_key(v)
                ==> post.page_table@[v] == pre.page_table@[v])
        &&& forall|u: usize|
            #[trigger] pre.areas@[i].data_frames@.contains_key(u) ==> post_arena.refs_of(
                pre.areas@[i].data_frames@[u].0 as int,
            ) == pre_arena.refs_of(pre.areas@[i].data_frames@[u].0 as int) - 1
        &&& forall|q: int|
            pre_arena.contains_ppn(q) && !pre.areas@[i].owns_ppn(q) ==> #[trigger] post_arena.refs_of(
                q,
            ) == pre_arena.refs_of(q)
        &&& forall|q: int|
            #![trigger post_arena.data_of(q)]
            pre_arena.contains_ppn(q) && !pre.areas@[i].owns_ppn(q) ==> post_arena.data_of(q)
                == pre_arena.data_of(q)
    }

    /// Find the region whose range starts at the given page, unmap it and
    /// remove it; a no-op if no region starts there.
    pub fn remove_area_with_start_vpn(&mut self, arena: &mut FrameArena, start_vpn: VirtPageNum)
        requires
            old(self).inv(*old(arena)),
        ensures
            final(self).inv(*final(arena)),
            final(self).page_table.root_ppn == old(self).page_table.root_ppn,
            !(exists|i: int|
                0 <= i < old(self).areas.len() && (#[trigger] old(self).areas@[i]).vpn_range.start
                    == start_vpn) ==> *final(self) == *old(self) && *final(arena) == *old(arena),
            (exists|i: int|
                0 <= i < old(self).areas.len() && (#[trigger] old(self).areas@[i]).vpn_range.start
                    == start_vpn) ==> exists|i: int|
                #![trigger old(self).areas@[i]]
                Self::removed_area_post(
                    *old(self),
                    *old(arena),
                    *final(self),
                    *final(arena),
                    i,
                    start_vpn,
                ),
    {
        let n: usize = self.areas.len();
        let mut idx: usize = 0;
        while idx < n
            invariant
                n == self.areas@.len(),
                idx <= n,
                *self == *old(self),
                *arena == *old(arena),
                old(self).inv(*old(arena)),
                forall|j: int|
                    0 <= j < idx ==> (#[trigger] self.areas@[j]).vpn_range.start != start_vpn,
            decreases n - idx,
        {
            if self.areas[idx].vpn_range.get_start().0 == start_vpn.0 {
                let ghost gi = idx as int;
                proof {
                    assert(old(self).areas@[gi].wf());
                    assert(old(self).areas@[gi].mapped_in(old(self).page_table@, *old(arena)));
                }
                let mut area = self.areas.remove(idx);
                proof {
                    assert(area == old(self).areas@[gi]);
                    assert forall|u: usize|
                        #[trigger] area.data_frames@.contains_key(u) implies arena.is_live(
                        area.data_frames@[u].0 as int,
                    ) by {
                        assert(area.vpn_range.contains(u));
                    }
                }
                area.unmap(&mut self.page_table, arena);
                proof {
                    self.lemma_remove_keeps_inv(*old(self), *old(arena), *arena, gi);
                    assert(old(self).areas@[gi].vpn_range.start == start_vpn);
                    assert(Self::removed_area_post(
                        *old(self),
                        *old(arena),
                        *self,
                        *arena,
                        gi,
                        start_vpn,
                    ));
                }
                return ;
            }
            idx = idx + 1;
        }
    }

    /// Removing one region, with its pages unmapped and frames released,
    /// preserves the invariant of the remaining space.
    proof fn lemma_remove_keeps_inv(
        self,
        pre: MemorySet,
        pre_arena: FrameArena,
        arena: FrameArena,
        i: int,
    )
        requires
            pre.inv(pre_arena),
            0 <= i < pre.areas.len(),
            self.areas@ == pre.areas@.remove(i),
            self.page_table.wf(),
            arena.wf(),
            arena.base == pre_arena.base,
            arena.capacity == pre_arena.capacity,
            arena.slots.len() == pre_arena.slots.len(),
            forall|v: usize|
                pre.areas@[i].vpn_range.contains(v) ==> !(#[trigger] self.page_table@.contains_key(
                    v,
                )),
            forall|v: usize|
                !pre.areas@[i].vpn_range.contains(v) ==> (#[trigger] self.page_table@.contains_key(
                    v,
                ) == pre.page_table@.contains_key(v)) && (pre.page_table@.contains_key(v)
                    ==> self.page_table@[v] == pre.page_table@[v]),
            forall|q: int|
                pre_arena.contains_ppn(q) && !pre.areas@[i].owns_ppn(q) ==> #[trigger] arena.refs_of(
                    q,
                ) == pre_arena.refs_of(q),
        ensures
            self.inv(arena),
    {
        let n = pre.areas@.len() as int;
        assert forall|k: int| 0 <= k < self.areas.len() implies (#[trigger] self.areas@[k]).wf()
            && self.areas@[k].vpn_range.end.0 <= signal_trampoline_vpn() by {
            if k < i {
                assert(self.areas@[k] == pre.areas@[k]);
            } else {
                assert(self.areas@[k] == pre.areas@[k + 1]);
            }
        }
        assert forall|k: int, j: int|
            0 <= k < self.areas.len() && 0 <= j < self.areas.len() && k != j implies (
        #[trigger] self.areas@[k]).vpn_range.disjoint((#[trigger] self.areas@[j]).vpn_range) by {
            let k0 = if k < i {
                k
            } else {
                k + 1
            };
            let j0 = if j < i {
                j
            } else {
                j + 1
            };
            assert(self.areas@[k] == pre.areas@[k0]);
            assert(self.areas@[j] == pre.areas@[j0]);
            assert(pre.areas@[k0].vpn_range.disjoint(pre.areas@[j0].vpn_range));
        }
        assert forall|k: int, j: int, v1: usize, v2: usize|
            0 <= k < self.areas.len() && 0 <= j < self.areas.len() && k != j && (
            #[trigger] self.areas@[k].data_frames@.contains_key(v1)) && (
            #[trigger] self.areas@[j].data_frames@.contains_key(v2)) implies self.areas@[k].data_frames@[v1] != self.areas@[j].data_frames@[v2] by {
            let k0 = if k < i {
                k
            } else {
                k + 1
            };
            let j0 = if j < i {
                j
            } else {
                j + 1
            };
            assert(self.areas@[k] == pre.areas@[k0]);
            assert(self.areas@[j] == pre.areas@[j0]);
            assert(pre.areas@[k0].data_frames@.contains_key(v1));
            assert(pre.areas@[j0].data_frames@.contains_key(v2));
        }
        assert forall|k: int| 0 <= k < self.areas.len() implies (#[trigger] self.areas@[k]).mapped_in(
            self.page_table@,
            arena,
        ) by {
            let k0 = if k < i {
                k
            } else {
                k + 1
            };
            assert(self.areas@[k] == pre.areas@[k0]);
            let a = pre.areas@[k0];
            assert(a.mapped_in(pre.page_table@, pre_arena));
            assert forall|v: usize| #[trigger] a.vpn_range.contains(v) implies {
                &&& self.page_table@.contains_key(v)
                &&& match a.map_type {
                    MapType::Identical => self.page_table@[v].ppn.0 == v,
                    MapType::Framed => a.data_frames@.contains_key(v) && self.page_table@[v].ppn
                        == a.data_frames@[v] && arena.is_live(self.page_table@[v].ppn.0 as int),
                }
            } by {
                assert(a.vpn_range.disjoint(pre.areas@[i].vpn_range));
                assert(!pre.areas@[i].vpn_range.contains(v));
                assert(pre.page_table@.contains_key(v));
                assert(self.page_table@.contains_key(v));
                assert(self.page_table@[v] == pre.page_table@[v]);
                if a.map_type == MapType::Framed {
                    let pq = pre.page_table@[v].ppn.0 as int;
                    assert(pre_arena.is_live(pq));
                    assert(!pre.areas@[i].owns_ppn(pq)) by {
                        if pre.areas@[i].owns_ppn(pq) {
                            let w = choose|w: usize|
                                #[trigger] pre.areas@[i].data_frames@.contains_key(w)
                                    && pre.areas@[i].data_frames@[w].0 == pq;
                            assert(a.data_frames@.contains_key(v));
                            assert(a.data_frames@[v].0 == pq);
                            assert(pre.areas@[i].data_frames@[w]
                                != a.data_frames@[v]);
                        }
                    }
                    assert(arena.refs_of(pq) == pre_arena.refs_of(pq));
                }
            }
        }
        assert forall|v: usize| #[trigger] self.page_table@.contains_key(v) implies self.in_some_area(
            v,
        ) || v == trampoline_vpn() || v == signal_trampoline_vpn() by {
            assert(!pre.areas@[i].vpn_range.contains(v));
            assert(pre.page_table@.contains_key(v));
            if pre.in_some_area(v) {
                let k0 = choose|k0: int|
                    0 <= k0 < pre.areas.len() && (#[trigger] pre.areas@[k0]).vpn_range.contains(v);
                assert(k0 != i);
                let k = if k0 < i {
                    k0
                } else {
                    k0 - 1
                };
                assert(self.areas@[k] == pre.areas@[k0]);
                assert(self.areas@[k].vpn_range.contains(v));
                assert(self.in_some_area(v));
            }
        }
    }

    /// Read the byte at a virtual address through this space's
    /// translation.
    pub fn read_byte(&self, arena: &FrameArena, va: VirtAddr) -> (r: u8)
        requires
            arena.wf(),
            self.page_table@.contains_key(spec_floor(va.0 as int) as usize),
            arena.contains_ppn(
                self.page_table@[spec_floor(va.0 as int) as usize].ppn.0 as int,
            ),
        ensures
            r == mem_byte(self.page_table@, *arena, va.0 as int),
    {
        let vpn = va.floor();
        let pte = match self.translate(vpn) {
            Some(p) => p,
            None => vstd::pervasive::unreached(),
        };
        arena.read_byte(pte.ppn, va.page_offset())
    }

    /// Read a run of bytes starting at a virtual address through this
    /// space's translation.
    pub fn read_bytes(&self, arena: &FrameArena, va: VirtAddr, len: usize) -> (r: Vec<u8>)
        requires
            arena.wf(),
            va.0 + len <= usize::MAX,
            forall|a: int|
                va.0 <= a < va.0 + len ==> (#[trigger] self.page_table@.contains_key(
                    spec_floor(a) as usize,
                )) && arena.contains_ppn(self.page_table@[spec_floor(a) as usize].ppn.0 as int),
        ensures
            r@.len() == len,
            forall|i: int|
                0 <= i < len ==> #[trigger] r@[i] == mem_byte(
                    self.page_table@,
                    *arena,
                    va.0 + i,
                ),
    {
        let mut r: Vec<u8> = Vec::new();
        let mut i: usize = 0;
        while i < len
            invariant
                i <= len,
                arena.wf(),
                va.0 + len <= usize::MAX,
                forall|a: int|
                    va.0 <= a < va.0 + len ==> (#[trigger] self.page_table@.contains_key(
                        spec_floor(a) as usize,
                    )) && arena.contains_ppn(
                        self.page_table@[spec_floor(a) as usize].ppn.0 as int,
                    ),
                r@.len() == i,
                forall|j: int|
                    0 <= j < i ==> #[trigger] r@[j] == mem_byte(
                        self.page_table@,
                        *arena,
                        va.0 + j,
                    ),
            decreases len - i,
        {
            proof {
                assert(self.page_table@.contains_key(spec_floor(va.0 + i as int) as usize));
            }
            let b = self.read_byte(arena, VirtAddr(va.0 + i));
            r.push(b);
            i = i + 1;
        }
        r
    }

    /// Install the shared trampoline code page, which is not collected by
    /// the region list.
    pub(crate) fn map_trampoline(&mut self, arena: &FrameArena, code_ppn: PhysPageNum)
        requires
            old(self).inv(*arena),
        ensures
            final(self).inv(*arena),
            final(self).areas == old(self).areas,
            final(self).page_table.root_ppn == old(self).page_table.root_ppn,
            final(self).page_table@ == old(self).page_table@.insert(
                trampoline_vpn() as usize,
                PageTableEntry {
                    ppn: code_ppn,
                    flags: PTEFlags { v: true, r: true, w: false, x: true, u: false, cow: false },
                },
            ),
    {
        self.page_table.map(
            VirtAddr(TRAMPOLINE).floor(),
            code_ppn,
            PTEFlags::new(true, false, true, false),
        );
        proof {
            self.lemma_insert_outside_areas_keeps_inv(
                *old(self),
                *arena,
                trampoline_vpn() as usize,
            );
        }
    }

    /// Install the signal trampoline page; unlike the trampoline it is
    /// user-accessible, and it too stays out of the region list.
    pub(crate) fn map_signal_trampoline(&mut self, arena: &FrameArena, code_ppn: PhysPageNum)
        requires
            old(self).inv(*arena),
        ensures
            final(self).inv(*arena),
            final(self).areas == old(self).areas,
            final(self).page_table.root_ppn == old(self).page_table.root_ppn,
            final(self).page_table@ == old(self).page_table@.insert(
                signal_trampoline_vpn() as usize,
                PageTableEntry {
                    ppn: code_ppn,
                    flags: PTEFlags { v: true, r: true, w: false, x: true, u: true, cow: false },
                },
            ),
    {
        self.page_table.map(
            VirtAddr(SIGNAL_TRAMPOLINE).floor(),
            code_ppn,
            PTEFlags::new(true, false, true, true),
        );
        proof {
            self.lemma_insert_outside_areas_keeps_inv(
                *old(self),
                *arena,
                signal_trampoline_vpn() as usize,
            );
        }
    }

    /// Installing a translation for one of the two trampoline pages, which
    /// no region contains, preserves the invariant.
    proof fn lemma_insert_outside_areas_keeps_inv(self, pre: MemorySet, arena: FrameArena, c: usize)
        requires
            pre.inv(arena),
            self.areas == pre.areas,
            self.page_table.wf(),
            c == trampoline_vpn() || c == signal_trampoline_vpn(),
            self.page_table@ == pre.page_table@.insert(c, self.page_table@[c]),
        ensures
            self.inv(arena),
    {
        assert forall|i: int| 0 <= i < self.areas.len() implies (
        #[trigger] self.areas@[i]).mapped_in(self.page_table@, arena) by {
            assert(pre.areas@[i].mapped_in(pre.page_table@, arena));
            assert forall|v: usize| #[trigger] self.areas@[i].vpn_range.contains(v) implies {
                &&& self.page_table@.contains_key(v)
                &&& match self.areas@[i].map_type {
                    MapType::Identical => self.page_table@[v].ppn.0 == v,
                    MapType::Framed => self.areas@[i].data_frames@.contains_key(v)
                        && self.page_table@[v].ppn == self.areas@[i].data_frames@[v]
                        && arena.is_live(self.page_table@[v].ppn.0 as int),
                }
            } by {
                assert(pre.areas@[i].vpn_range.contains(v));
                assert(pre.areas@[i].vpn_range.end.0 <= signal_trampoline_vpn());
                assert(v != c);
                assert(self.page_table@[v] == pre.page_table@[v]);
            }
        }
        assert forall|v: usize| #[trigger] self.page_table@.contains_key(v) implies self.in_some_area(
            v,
        ) || v == trampoline_vpn() || v == signal_trampoline_vpn() by {
            if v != c {
                assert(pre.page_table@.contains_key(v));
                if pre.in_some_area(v) {
                    let i = choose|i: int|
                        0 <= i < pre.areas.len() && (#[trigger] pre.areas@[i]).vpn_range.contains(
                            v,
                        );
                    assert(self.areas@[i].vpn_range.contains(v));
                }
            }
        }
    }

    /// Build the kernel's own address space: every kernel section and the
    /// remaining physical memory identity-mapped with its section
    /// protection, the memory-mapped I/O window identity-mapped
    /// read/write, and the trampoline page installed. Created once at
    /// boot and never torn down.
    pub fn new_kernel(arena: &mut FrameArena, layout: &KernelLayout) -> (r: MemorySet)
        requires
            old(arena).wf(),
            old(arena).free_frames() > 0,
            layout.wf(),
        ensures
            r.inv(*final(arena)),
            final(arena).free_frames() == old(arena).free_frames() - 1,
            final(arena).base == old(arena).base,
            final(arena).capacity == old(arena).capacity,
            r.areas@.len() == 6,
            r.areas@[0].vpn_range.start.0 == layout.stext as int / PAGE_SIZE as int,
            r.areas@[0].vpn_range.end.0 == layout.etext as int / PAGE_SIZE as int,
            r.areas@[0].map_type == MapType::Identical,
            r.areas@[0].map_perm == (MapPermission { r: true, w: false, x: true, u: false }),
            r.areas@[1].vpn_range.start.0 == layout.srodata as int / PAGE_SIZE as int,
            r.areas@[1].vpn_range.end.0 == layout.erodata as int / PAGE_SIZE as int,
            r.areas@[1].map_type == MapType::Identical,
            r.areas@[1].map_perm == (MapPermission { r: true, w: false, x: false, u: false }),
            r.areas@[2].vpn_range.start.0 == layout.sdata as int / PAGE_SIZE as int,
            r.areas@[2].vpn_range.end.0 == layout.edata as int / PAGE_SIZE as int,
            r.areas@[2].map_type == MapType::Identical,
            r.areas@[2].map_perm == (MapPermission { r: true, w: true, x: false, u: false }),
            r.areas@[3].vpn_range.start.0 == layout.sbss_with_stack as int / PAGE_SIZE as int,
            r.areas@[3].vpn_range.end.0 == layout.ebss as int / PAGE_SIZE as int,
            r.areas@[3].map_type == MapType::Identical,
            r.areas@[3].map_perm == (MapPermission { r: true, w: true, x: false, u: false }),
            r.areas@[4].vpn_range.start.0 == layout.ekernel as int / PAGE_SIZE as int,
            r.areas@[4].vpn_range.end.0 == MEMORY_END as int / PAGE_SIZE as int,
            r.areas@[4].map_type == MapType::Identical,
            r.areas@[4].map_perm == (MapPermission { r: true, w: true, x: false, u: false }),
            r.areas@[5].vpn_range.start.0 == 0x1000_1000int / PAGE_SIZE as int,
            r.areas@[5].vpn_range.end.0 == 0x1000_2000int / PAGE_SIZE as int,
            r.areas@[5].map_type == MapType::Identical,
            r.areas@[5].map_perm == (MapPermission { r: true, w: true, x: false, u: false }),
            forall|k: int, v: usize|
                0 <= k < 6 && #[trigger] r.areas@[k].vpn_range.contains(v)
                    ==> r.page_table@.contains_key(v) && r.page_table@[v].ppn.0 == v
                    && r.page_table@[v].flags == r.areas@[k].map_perm.spec_pte_flags(),
            r.page_table@.contains_key(trampoline_vpn() as usize),
            r.page_table@[trampoline_vpn() as usize] == (PageTableEntry {
                ppn: PhysPageNum((layout.strampoline / PAGE_SIZE) as usize),
                flags: PTEFlags { v: true, r: true, w: false, x: true, u: false, cow: false },
            }),
            forall|v: usize|
                #[trigger] r.page_table@.contains_key(v) ==> r.in_some_area(v) || v
                    == trampoline_vpn(),
    {
        proof {
            vstd::arithmetic::div_mod::lemma_div_is_ordered(
                0x1000_2000,
                layout.stext as int,
                PAGE_SIZE as int,
            );
            vstd::arithmetic::div_mod::lemma_div_is_ordered(
                layout.etext as int,
                layout.srodata as int,
                PAGE_SIZE as int,
            );
            vstd::arithmetic::div_mod::lemma_div_is_ordered(
                layout.erodata as int,
                layout.sdata as int,
                PAGE_SIZE as int,
            );
            vstd::arithmetic::div_mod::lemma_div_is_ordered(
                layout.edata as int,
                layout.sbss_with_stack as int,
                PAGE_SIZE as int,
            );
            vstd::arithmetic::div_mod::lemma_div_is_ordered(
                layout.ebss as int,
                layout.ekernel as int,
                PAGE_SIZE as int,
            );
            vstd::arithmetic::div_mod::lemma_div_is_ordered(
                MEMORY_END as int,
                SIGNAL_TRAMPOLINE as int,
                PAGE_SIZE as int,
            );
            lemma_ceil_of_aligned(layout.etext as int);
            lemma_ceil_of_aligned(layout.erodata as int);
            lemma_ceil_of_aligned(layout.edata as int);
            lemma_ceil_of_aligned(layout.ebss as int);
            lemma_ceil_of_aligned(MEMORY_END as int);
            lemma_ceil_of_aligned(0x1000_2000);
        }
        let mut ms = MemorySet::new_bare(arena);
        ms.map_trampoline(arena, PhysPageNum(layout.strampoline / PAGE_SIZE));
        let ghost pt0 = ms.page_table@;
        ms.push(
            arena,
            MapArea::new(
                VirtAddr(layout.stext),
                VirtAddr(layout.etext),
                MapType::Identical,
                MapPermission::new(true, false, true, false),
            ),
            None,
        );
        let ghost pt1 = ms.page_table@;
        ms.push(
            arena,
            MapArea::new(
                VirtAddr(layout.srodata),
                VirtAddr(layout.erodata),
                MapType::Identical,
                MapPermission::new(true, false, false, false),
            ),
            None,
        );
        let ghost pt2 = ms.page_table@;
        ms.push(
            arena,
            MapArea::new(
                VirtAddr(layout.sdata),
                VirtAddr(layout.edata),
                MapType::Identical,
                MapPermission::new(true, true, false, false),
            ),
            None,
        );
        let ghost pt3 = ms.page_table@;
        ms.push(
            arena,
            MapArea::new(
                VirtAddr(layout.sbss_with_stack),
                VirtAddr(layout.ebss),
                MapType::Identical,
                MapPermission::new(true, true, false, false),
            ),
            None,
        );
        let ghost pt4 = ms.page_table@;
        ms.push(
            arena,
            MapArea::new(
                VirtAddr(layout.ekernel),
                VirtAddr(MEMORY_END),
                MapType::Identical,
                MapPermission::new(true, true, false, false),
            ),
            None,
        );
        let ghost pt5 = ms.page_table@;
        let windows = crate::config::mmio_windows();
        let w = windows[0];
        ms.push(
            arena,
            MapArea::new(
                VirtAddr(w.0),
                VirtAddr(w.0 + w.1),
                MapType::Identical,
                MapPermission::new(true, true, false, false),
            ),
            None,
        );
        proof {
            assert forall|k: int, v: usize|
                0 <= k < 6 && #[trigger] ms.areas@[k].vpn_range.contains(
                    v,
                ) implies ms.page_table@.contains_key(v) && ms.page_table@[v].ppn.0 == v
                && ms.page_table@[v].flags == ms.areas@[k].map_perm.spec_pte_flags() by {
                assert(ms.areas@[5].vpn_range.contains(v) || !ms.areas@[5].vpn_range.contains(v));
                if k < 5 {
                    assert(!ms.areas@[5].vpn_range.contains(v));
                    assert(ms.page_table@.contains_key(v) == pt5.contains_key(v));
                    assert(pt5.contains_key(v) ==> ms.page_table@[v] == pt5[v]);
                }
                if k < 4 {
                    assert(!ms.areas@[4].vpn_range.contains(v));
                    assert(pt5.contains_key(v) == pt4.contains_key(v));
                    assert(pt4.contains_key(v) ==> pt5[v] == pt4[v]);
                }
                if k < 3 {
                    assert(!ms.areas@[3].vpn_range.contains(v));
                    assert(pt4.contains_key(v) == pt3.contains_key(v));
                    assert(pt3.contains_key(v) ==> pt4[v] == pt3[v]);
                }
                if k < 2 {
                    assert(!ms.areas@[2].vpn_range.contains(v));
                    assert(pt3.contains_key(v) == pt2.contains_key(v));
                    assert(pt2.contains_key(v) ==> pt3[v] == pt2[v]);
                }
                if k < 1 {
                    assert(!ms.areas@[1].vpn_range.contains(v));
                    assert(pt2.contains_key(v) == pt1.contains_key(v));
                    assert(pt1.contains_key(v) ==> pt2[v] == pt1[v]);
                }
            }
            assert(!ms.areas@[0].vpn_range.contains(trampoline_vpn() as usize));
            assert(!ms.areas@[1].vpn_range.contains(trampoline_vpn() as usize));
            assert(!ms.areas@[2].vpn_range.contains(trampoline_vpn() as usize));
            assert(!ms.areas@[3].vpn_range.contains(trampoline_vpn() as usize));
            assert(!ms.areas@[4].vpn_range.contains(trampoline_vpn() as usize));
            assert(!ms.areas@[5].vpn_range.contains(trampoline_vpn() as usize));
            assert(ms.page_table@.contains_key(trampoline_vpn() as usize));
            assert(ms.page_table@[trampoline_vpn() as usize] == pt0[trampoline_vpn() as usize]);
            assert forall|v: usize| #[trigger] ms.page_table@.contains_key(v) implies ms.in_some_area(
                v,
            ) || v == trampoline_vpn() by {
                if v == signal_trampoline_vpn() && !ms.in_some_area(v) && v != trampoline_vpn() {
                    assert(!pt0.contains_key(v));
                    assert(!ms.areas@[0].vpn_range.contains(v));
                    assert(!ms.areas@[1].vpn_range.contains(v));
                    assert(!ms.areas@[2].vpn_range.contains(v));
                    assert(!ms.areas@[3].vpn_range.contains(v));
                    assert(!ms.areas@[4].vpn_range.contains(v));
                    assert(!ms.areas@[5].vpn_range.contains(v));
                    assert(pt5.contains_key(v) == pt4.contains_key(v));
                    assert(pt4.contains_key(v) == pt3.contains_key(v));
                    assert(pt3.contains_key(v) == pt2.contains_key(v));
                    assert(pt2.contains_key(v) == pt1.contains_key(v));
                    assert(pt1.contains_key(v) == pt0.contains_key(v));
                    assert(ms.page_table@.contains_key(v) == pt5.contains_key(v));
                    assert(false);
                }
            }
        }
        ms
    }

    /// Append an eager duplicate of region `k` of `source`: a structurally
    /// identical region backed by freshly allocated frames holding copies
    /// of the source pages' bytes (a direct region is re-installed as
    /// such, nothing copied).
    #[verifier::rlimit(100)]
    #[verifier::spinoff_prover]
    fn push_duplicated_area(&mut self, arena: &mut FrameArena, source: &MemorySet, k: usize)
        requires
            old(self).inv(*old(arena)),
            source.inv(*old(arena)),
            k < source.areas.len(),
            forall|i: int|
                0 <= i < old(self).areas.len() ==> source.areas@[k as int].vpn_range.disjoint(
                    (#[trigger] old(self).areas@[i]).vpn_range,
                ),
            source.areas@[k as int].map_type == MapType::Framed ==> old(arena).free_frames()
                >= source.areas@[k as int].vpn_range.page_count(),
        ensures
            final(self).inv(*final(arena)),
            final(self).page_table.root_ppn == old(self).page_table.root_ppn,
            final(self).areas@.len() == old(self).areas@.len() + 1,
            forall|j: int|
                0 <= j < old(self).areas@.len() ==> #[trigger] final(self).areas@[j] == old(self).areas@[j],
            final(self).areas@.last().vpn_range == source.areas@[k as int].vpn_range,
            final(self).areas@.last().map_type == source.areas@[k as int].map_type,
            final(self).areas@.last().map_perm == source.areas@[k as int].map_perm,
            forall|v: usize|
                #[trigger] source.areas@[k as int].vpn_range.contains(v) ==> final(self).page_table@.contains_key(v) && final(self).page_table@[v].flags == source.areas@[
                    k as int].map_perm.spec_pte_flags(),
            forall|v: usize|
                !source.areas@[k as int].vpn_range.contains(v) ==> (#[trigger] final(self).page_table@.contains_key(v) == old(self).page_table@.contains_key(v)) && (old(self).page_table@.contains_key(v) ==> final(self).page_table@[v] == old(self).page_table@[v]),
            source.areas@[k as int].map_type == MapType::Framed ==> forall|v: usize|
                #[trigger] source.areas@[k as int].vpn_range.contains(v) ==> !old(arena).is_live(
                    final(self).page_table@[v].ppn.0 as int,
                ) && final(arena).data_of(final(self).page_table@[v].ppn.0 as int) == old(arena).data_of(source.page_table@[v].ppn.0 as int),
            final(arena).base == old(arena).base,
            final(arena).capacity == old(arena).capacity,
            final(arena).slots.len() >= old(arena).slots.len(),
            final(arena).free_frames() == old(arena).free_frames() - (if source.areas@[
                k as int].map_type == MapType::Framed {
                source.areas@[k as int].vpn_range.page_count()
            } else {
                0
            }),
            forall|q: int|
                old(arena).contains_ppn(q) && !final(self).areas@.last().owns_ppn(q)
                    ==> #[trigger] final(arena).refs_of(q) == old(arena).refs_of(q),
            forall|q: int|
                #![trigger final(arena).data_of(q)]
                old(arena).contains_ppn(q) && !final(self).areas@.last().owns_ppn(q) ==> final(arena).data_of(q) == old(arena).data_of(q),
            forall|q: int|
                #[trigger] final(self).areas@.last().owns_ppn(q) ==> !old(arena).is_live(q),
    {
        let src = &source.areas[k];
        let new_area = MapArea::from_another(src);
        let ghost grange = new_area.vpn_range;
        proof {
            assert(source.areas@[k as int].wf());
            assert(source.areas@[k as int].mapped_in(source.page_table@, *old(arena)));
        }
        self.push(arena, new_area, None);
        let ghost mid_self = *self;
        let ghost mid_arena = *arena;
        let ghost nidx = old(self).areas@.len() as int;
        if src.is_framed() {
            let start: usize = src.vpn_range.get_start().0;
            let end: usize = src.vpn_range.get_end().0;
            let mut v: usize = start;
            while v < end
                invariant
                    start == source.areas@[k as int].vpn_range.start.0,
                    end == source.areas@[k as int].vpn_range.end.0,
                    start <= v <= end,
                    k < source.areas.len(),
                    source.inv(*old(arena)),
                    source.areas@[k as int].map_type == MapType::Framed,
                    *self == mid_self,
                    mid_self.inv(mid_arena),
                    0 <= nidx,
                    nidx == mid_self.areas@.len() - 1,
                    mid_self.areas@[nidx].vpn_range == source.areas@[k as int].vpn_range,
                    mid_self.areas@[nidx].map_type == MapType::Framed,
                    arena.wf(),
                    arena.base == mid_arena.base,
                    arena.capacity == mid_arena.capacity,
                    arena.slots.len() == mid_arena.slots.len(),
                    arena.free_frames() == mid_arena.free_frames(),
                    forall|q: int|
                        mid_arena.contains_ppn(q) ==> #[trigger] arena.refs_of(q)
                            == mid_arena.refs_of(q),
                    forall|q: int|
                        #![trigger arena.data_of(q)]
                        mid_arena.contains_ppn(q) && !mid_self.areas@[nidx].owns_ppn(q)
                            ==> arena.data_of(q) == mid_arena.data_of(q),
                    mid_arena.base == old(arena).base,
                    mid_arena.capacity == old(arena).capacity,
                    mid_arena.slots.len() >= old(arena).slots.len(),
                    mid_arena.free_frames() == old(arena).free_frames() - source.areas@[
                        k as int].vpn_range.page_count(),
                    forall|u: usize|
                        #[trigger] mid_self.areas@[nidx].data_frames@.contains_key(u) ==> !old(arena).is_live(mid_self.areas@[nidx].data_frames@[u].0 as int),
                    forall|q: int|
                        old(arena).contains_ppn(q) && !mid_self.areas@[nidx].owns_ppn(q)
                            ==> #[trigger] mid_arena.refs_of(q) == old(arena).refs_of(q),
                    forall|q: int|
                        #![trigger mid_arena.data_of(q)]
                        old(arena).contains_ppn(q) && !mid_self.areas@[nidx].owns_ppn(q)
                            ==> mid_arena.data_of(q) == old(arena).data_of(q),
                    forall|u: usize|
                        start <= u < v ==> #[trigger] arena.data_of(
                            mid_self.page_table@[u].ppn.0 as int,
                        ) == old(arena).data_of(source.page_table@[u].ppn.0 as int),
                decreases end - v,
            {
                let ghost pre_arena = *arena;
                proof {
                    assert(source.areas@[k as int].vpn_range.contains(v));
                    assert(mid_self.areas@[nidx].vpn_range.contains(v));
                    assert(mid_self.areas@[nidx].mapped_in(mid_self.page_table@, mid_arena));
                }
                let src_pte = match source.page_table.translate(VirtPageNum(v)) {
                    Some(p) => p,
                    None => vstd::pervasive::unreached(),
                };
                let dst_pte = match self.page_table.translate(VirtPageNum(v)) {
                    Some(p) => p,
                    None => vstd::pervasive::unreached(),
                };
                proof {
                    assert(old(arena).is_live(src_pte.ppn.0 as int));
                    assert(!mid_self.areas@[nidx].owns_ppn(src_pte.ppn.0 as int)) by {
                        if mid_self.areas@[nidx].owns_ppn(src_pte.ppn.0 as int) {
                            let w = choose|w: usize|
                                #[trigger] mid_self.areas@[nidx].data_frames@.contains_key(w)
                                    && mid_self.areas@[nidx].data_frames@[w].0 == src_pte.ppn.0;
                            assert(!old(arena).is_live(mid_self.areas@[
                                nidx].data_frames@[w].0 as int));
                        }
                    }
                    assert(mid_arena.refs_of(src_pte.ppn.0 as int) == old(arena).refs_of(
                        src_pte.ppn.0 as int,
                    ));
                    assert(mid_arena.data_of(src_pte.ppn.0 as int) == old(arena).data_of(
                        src_pte.ppn.0 as int,
                    ));
                    assert(arena.refs_of(src_pte.ppn.0 as int) == mid_arena.refs_of(
                        src_pte.ppn.0 as int,
                    ));
                    assert(arena.is_live(src_pte.ppn.0 as int));
                    assert(mid_self.areas@[nidx].data_frames@.contains_key(v));
                    assert(dst_pte.ppn == mid_self.areas@[nidx].data_frames@[v]);
                    assert(!old(arena).is_live(dst_pte.ppn.0 as int));
                    assert(src_pte.ppn.0 != dst_pte.ppn.0);
                    assert(arena.refs_of(dst_pte.ppn.0 as int) == mid_arena.refs_of(
                        dst_pte.ppn.0 as int,
                    ));
                    assert(arena.is_live(dst_pte.ppn.0 as int));
                }
                arena.copy_frame(src_pte.ppn, dst_pte.ppn);
                proof {
                    assert(mid_self.areas@[nidx].owns_ppn(dst_pte.ppn.0 as int));
                    assert forall|q: int|
                        mid_arena.contains_ppn(q) implies #[trigger] arena.refs_of(q)
                        == mid_arena.refs_of(q) by {
                        assert(arena.refs_of(q) == pre_arena.refs_of(q));
                    }
                    assert forall|q: int|
                        mid_arena.contains_ppn(q) && !mid_self.areas@[nidx].owns_ppn(
                            q,
                        ) implies #[trigger] arena.data_of(q) == mid_arena.data_of(q) by {
                        assert(q != dst_pte.ppn.0 as int);
                        assert(arena.refs_of(q) == pre_arena.refs_of(q));
                        assert(arena.data_of(q) == pre_arena.data_of(q));
                    }
                    assert forall|u: usize|
                        start <= u < v + 1 implies #[trigger] arena.data_of(
                        mid_self.page_table@[u].ppn.0 as int,
                    ) == old(arena).data_of(source.page_table@[u].ppn.0 as int) by {
                        if u < v {
                            assert(mid_self.areas@[nidx].vpn_range.contains(u));
                            assert(mid_self.areas@[nidx].data_frames@.contains_key(u));
                            assert(mid_self.page_table@[u].ppn == mid_self.areas@[
                                nidx].data_frames@[u]);
                            let pu = mid_self.page_table@[u].ppn.0 as int;
                            assert(pu != dst_pte.ppn.0 as int) by {
                                assert(mid_self.areas@[nidx].data_frames@[u] != mid_self.areas@[
                                    nidx].data_frames@[v]);
                            }
                            assert(arena.refs_of(pu) == pre_arena.refs_of(pu));
                            assert(arena.data_of(pu) == pre_arena.data_of(pu));
                        } else {
                            assert(arena.data_of(dst_pte.ppn.0 as int) == pre_arena.data_of(
                                src_pte.ppn.0 as int,
                            ));
                            assert(pre_arena.data_of(src_pte.ppn.0 as int) == mid_arena.data_of(
                                src_pte.ppn.0 as int,
                            )) by {
                                assert(!mid_self.areas@[nidx].owns_ppn(src_pte.ppn.0 as int)) by {
                                    if mid_self.areas@[nidx].owns_ppn(src_pte.ppn.0 as int) {
                                        let w = choose|w: usize|
                                            #[trigger] mid_self.areas@[
                                            nidx].data_frames@.contains_key(w) && mid_self.areas@[
                                            nidx].data_frames@[w].0 == src_pte.ppn.0;
                                        assert(!old(arena).is_live(mid_self.areas@[
                                            nidx].data_frames@[w].0 as int));
                                    }
                                }
                            }
                            assert(mid_arena.data_of(src_pte.ppn.0 as int) == old(arena).data_of(
                                src_pte.ppn.0 as int,
                            ));
                        }
                    }
                }
                v = v + 1;
            }
            proof {
                lemma_inv_with_same_frames(mid_self, *self, mid_arena, *arena);
                assert forall|v2: usize|
                    #[trigger] source.areas@[k as int].vpn_range.contains(v2) implies !old(arena).is_live(self.page_table@[v2].ppn.0 as int) && arena.data_of(
                    self.page_table@[v2].ppn.0 as int,
                ) == old(arena).data_of(source.page_table@[v2].ppn.0 as int) by {
                    assert(mid_self.areas@[nidx].vpn_range.contains(v2));
                    assert(mid_self.areas@[nidx].data_frames@.contains_key(v2));
                    assert(mid_self.page_table@[v2].ppn == mid_self.areas@[nidx].data_frames@[v2]);
                }
            }
        }
    }

    /// An exact copy of an existing user space: every region is cloned
    /// structurally and every indirected page's bytes are copied eagerly
    /// into freshly allocated frames. The source space and its frames are
    /// left untouched.
    pub fn from_existed_user(arena: &mut FrameArena, user_space: &MemorySet) -> (r: MemorySet)
        requires
            user_space.inv(*old(arena)),
            old(arena).free_frames() >= 1 + total_framed_pages(user_space.areas@),
        ensures
            r.inv(*final(arena)),
            user_space.inv(*final(arena)),
            final(arena).base == old(arena).base,
            final(arena).capacity == old(arena).capacity,
            r.areas@.len() == user_space.areas@.len(),
            forall|k: int|
                0 <= k < r.areas@.len() ==> (#[trigger] r.areas@[k]).vpn_range
                    == user_space.areas@[k].vpn_range && r.areas@[k].map_type
                    == user_space.areas@[k].map_type && r.areas@[k].map_perm
                    == user_space.areas@[k].map_perm,
            forall|k: int, v: usize|
                0 <= k < user_space.areas@.len() && #[trigger] user_space.areas@[
                    k].vpn_range.contains(v) && user_space.areas@[k].map_type == MapType::Framed
                    ==> r.page_table@.contains_key(v) && !old(arena).is_live(
                    r.page_table@[v].ppn.0 as int,
                ) && final(arena).data_of(r.page_table@[v].ppn.0 as int) == old(arena).data_of(
                    user_space.page_table@[v].ppn.0 as int,
                ),
            forall|q: int|
                old(arena).is_live(q) ==> #[trigger] final(arena).refs_of(q) == old(arena).refs_of(
                    q,
                ),
            forall|q: int|
                #![trigger final(arena).data_of(q)]
                old(arena).is_live(q) ==> final(arena).data_of(q) == old(arena).data_of(q),
            user_space.page_table@.contains_key(trampoline_vpn() as usize)
                ==> r.page_table@.contains_key(trampoline_vpn() as usize)
                && r.page_table@[trampoline_vpn() as usize] == user_space.page_table@[
                trampoline_vpn() as usize],
            user_space.page_table@.contains_key(signal_trampoline_vpn() as usize)
                ==> r.page_table@.contains_key(signal_trampoline_vpn() as usize)
                && r.page_table@[signal_trampoline_vpn() as usize] == user_space.page_table@[
                signal_trampoline_vpn() as usize],
    {
        proof {
            lemma_total_take_le(user_space.areas@, 0);
        }
        let mut memory_set = MemorySet::new_bare(arena);
        let ghost pre_tramp = memory_set;
        match user_space.translate(VirtAddr(TRAMPOLINE).floor()) {
            Some(e) => {
                proof {
                    assert(user_space.page_table@.contains_key(trampoline_vpn() as usize));
                }
                memory_set.page_table.map(VirtAddr(TRAMPOLINE).floor(), e.ppn(), e.flags());
                proof {
                    memory_set.lemma_insert_outside_areas_keeps_inv(
                        pre_tramp,
                        *arena,
                        trampoline_vpn() as usize,
                    );
                }
            },
            None => {
            },
        }
        let ghost pre_sig = memory_set;
        match user_space.translate(VirtAddr(SIGNAL_TRAMPOLINE).floor()) {
            Some(e) => {
                proof {
                    assert(user_space.page_table@.contains_key(signal_trampoline_vpn() as usize));
                }
                memory_set.page_table.map(VirtAddr(SIGNAL_TRAMPOLINE).floor(), e.ppn(), e.flags());
                proof {
                    memory_set.lemma_insert_outside_areas_keeps_inv(
                        pre_sig,
                        *arena,
                        signal_trampoline_vpn() as usize,
                    );
                }
            },
            None => {
            },
        }
        let ghost base_ms = memory_set;
        let ghost base_arena = *arena;
        proof {
            let root = memory_set.page_table.root_ppn.0 as int;
            assert forall|q: int| old(arena).is_live(q) implies #[trigger] arena.refs_of(q) == old(arena).refs_of(q) && arena.is_live(q) by {
                assert(q != root);
                assert(arena.refs_of(q) == old(arena).refs_of(q));
            }
            assert forall|q: int| old(arena).is_live(q) implies #[trigger] arena.data_of(q) == old(arena).data_of(q) by {
                assert(q != root);
                assert(arena.refs_of(q) == old(arena).refs_of(q));
                assert(arena.data_of(q) == old(arena).data_of(q));
            }
            lemma_inv_live_preserved(*user_space, *old(arena), *arena);
        }
        let n: usize = user_space.areas.len();
        let mut k: usize = 0;
        while k < n
            invariant
                n == user_space.areas@.len(),
                k <= n,
                user_space.inv(*old(arena)),
                user_space.inv(*arena),
                memory_set.inv(*arena),
                old(arena).free_frames() >= 1 + total_framed_pages(user_space.areas@),
                forall|i: int|
                    0 <= i < n ==> (#[trigger] user_space.areas@[i]).vpn_range.start.0
                        <= user_space.areas@[i].vpn_range.end.0,
                memory_set.page_table.root_ppn == base_ms.page_table.root_ppn,
                memory_set.areas@.len() == k,
                forall|j: int|
                    0 <= j < k ==> (#[trigger] memory_set.areas@[j]).vpn_range == user_space.areas@[
                        j].vpn_range && memory_set.areas@[j].map_type == user_space.areas@[
                        j].map_type && memory_set.areas@[j].map_perm == user_space.areas@[
                        j].map_perm,
                forall|j: int, v: usize|
                    0 <= j < k && #[trigger] user_space.areas@[j].vpn_range.contains(v)
                        && user_space.areas@[j].map_type == MapType::Framed
                        ==> memory_set.page_table@.contains_key(v) && !old(arena).is_live(
                        memory_set.page_table@[v].ppn.0 as int,
                    ) && arena.data_of(memory_set.page_table@[v].ppn.0 as int) == old(arena).data_of(user_space.page_table@[v].ppn.0 as int),
                arena.base == old(arena).base,
                arena.capacity == old(arena).capacity,
                arena.slots.len() >= old(arena).slots.len(),
                arena.free_frames() == old(arena).free_frames() - 1 - total_framed_pages(
                    user_space.areas@.take(k as int),
                ),
                forall|q: int|
                    old(arena).is_live(q) ==> #[trigger] arena.refs_of(q) == old(arena).refs_of(q),
                forall|q: int|
                    #![trigger arena.data_of(q)]
                    old(arena).is_live(q) ==> arena.data_of(q) == old(arena).data_of(q),
                forall|q: int| old(arena).contains_ppn(q) ==> #[trigger] arena.contains_ppn(q),
                base_ms.page_table@.contains_key(trampoline_vpn() as usize)
                    ==> memory_set.page_table@.contains_key(trampoline_vpn() as usize)
                    && memory_set.page_table@[trampoline_vpn() as usize] == base_ms.page_table@[
                    trampoline_vpn() as usize],
                base_ms.page_table@.contains_key(signal_trampoline_vpn() as usize)
                    ==> memory_set.page_table@.contains_key(signal_trampoline_vpn() as usize)
                    && memory_set.page_table@[signal_trampoline_vpn() as usize]
                    == base_ms.page_table@[signal_trampoline_vpn() as usize],
                user_space.page_table@.contains_key(trampoline_vpn() as usize)
                    ==> base_ms.page_table@.contains_key(trampoline_vpn() as usize)
                    && base_ms.page_table@[trampoline_vpn() as usize] == user_space.page_table@[
                    trampoline_vpn() as usize],
                user_space.page_table@.contains_key(signal_trampoline_vpn() as usize)
                    ==> base_ms.page_table@.contains_key(signal_trampoline_vpn() as usize)
                    && base_ms.page_table@[signal_trampoline_vpn() as usize]
                    == user_space.page_table@[signal_trampoline_vpn() as usize],
            decreases n - k,
        {
            let ghost pre_ms = memory_set;
            let ghost pre_arena = *arena;
            proof {
                lemma_total_take_step(user_space.areas@, k as int);
                lemma_total_take_le(user_space.areas@, k as int + 1);
                assert(user_space.areas@[k as int].wf());
                assert forall|i: int|
                    0 <= i < memory_set.areas.len() implies user_space.areas@[
                    k as int].vpn_range.disjoint(
                    (#[trigger] memory_set.areas@[i]).vpn_range,
                ) by {
                    assert(user_space.areas@[i].vpn_range.disjoint(
                        user_space.areas@[k as int].vpn_range,
                    ));
                }
            }
            memory_set.push_duplicated_area(arena, user_space, k);
            proof {
                let nk = k as int;
                let last = memory_set.areas@.last();
                assert(!user_space.areas@[nk].vpn_range.contains(trampoline_vpn() as usize));
                assert(!user_space.areas@[nk].vpn_range.contains(
                    signal_trampoline_vpn() as usize,
                ));
                assert(memory_set.page_table@.contains_key(trampoline_vpn() as usize)
                    == pre_ms.page_table@.contains_key(trampoline_vpn() as usize));
                assert(memory_set.page_table@.contains_key(signal_trampoline_vpn() as usize)
                    == pre_ms.page_table@.contains_key(signal_trampoline_vpn() as usize));
                if pre_ms.page_table@.contains_key(trampoline_vpn() as usize) {
                    assert(memory_set.page_table@[trampoline_vpn() as usize]
                        == pre_ms.page_table@[trampoline_vpn() as usize]);
                }
                if pre_ms.page_table@.contains_key(signal_trampoline_vpn() as usize) {
                    assert(memory_set.page_table@[signal_trampoline_vpn() as usize]
                        == pre_ms.page_table@[signal_trampoline_vpn() as usize]);
                }
                assert forall|q: int|
                    old(arena).is_live(q) implies #[trigger] arena.refs_of(q) == old(arena).refs_of(
                    q,
                ) && arena.data_of(q) == old(arena).data_of(q) by {
                    assert(pre_arena.is_live(q)) by {
                        assert(pre_arena.refs_of(q) == old(arena).refs_of(q));
                    }
                    assert(!last.owns_ppn(q));
                    assert(pre_arena.contains_ppn(q));
                    assert(arena.refs_of(q) == pre_arena.refs_of(q));
                    assert(arena.data_of(q) == pre_arena.data_of(q));
                }
                lemma_inv_live_preserved(*user_space, pre_arena, *arena);
                assert forall|j: int, v: usize|
                    0 <= j < nk + 1 && #[trigger] user_space.areas@[j].vpn_range.contains(v)
                        && user_space.areas@[j].map_type == MapType::Framed
                        implies memory_set.page_table@.contains_key(v) && !old(arena).is_live(
                    memory_set.page_table@[v].ppn.0 as int,
                ) && arena.data_of(memory_set.page_table@[v].ppn.0 as int) == old(arena).data_of(
                    user_space.page_table@[v].ppn.0 as int,
                ) by {
                    if j < nk {
                        assert(user_space.areas@[j].vpn_range.disjoint(
                            user_space.areas@[nk].vpn_range,
                        ));
                        assert(!user_space.areas@[nk].vpn_range.contains(v));
                        assert(pre_ms.page_table@.contains_key(v));
                        assert(memory_set.page_table@.contains_key(v));
                        assert(memory_set.page_table@[v] == pre_ms.page_table@[v]);
                        let pq = pre_ms.page_table@[v].ppn.0 as int;
                        assert(!old(arena).is_live(pq));
                        assert(pre_arena.is_live(pq)) by {
                            assert(pre_ms.in_some_area(v)) by {
                                assert(pre_ms.areas@[j].vpn_range.contains(v));
                            }
                            assert(pre_ms.areas@[j].mapped_in(pre_ms.page_table@, pre_arena));
                            assert(pre_ms.areas@[j].vpn_range.contains(v));
                        }
                        assert(!last.owns_ppn(pq));
                        assert(pre_arena.contains_ppn(pq));
                        assert(arena.data_of(pq) == pre_arena.data_of(pq));
                    } else {
                        assert(user_space.areas@[nk].vpn_range.contains(v));
                    }
                }
                assert(!user_space.areas@[nk].vpn_range.contains(trampoline_vpn() as usize));
                assert(!user_space.areas@[nk].vpn_range.contains(
                    signal_trampoline_vpn() as usize,
                ));
            }
            k = k + 1;
        }
        memory_set
    }

    /// Resolve a copy-on-write fault on `vpn`, whose entry still points at
    /// the formerly shared frame `former_ppn`. If that frame's reference
    /// count is one, the page is no longer actually shared: write access
    /// is restored in place, the marker cleared, the frame kept.
    /// Otherwise a fresh frame is allocated, the shared frame's contents
    /// are copied into it, the entry is atomically repointed, the region
    /// containing the page (found by linear scan) records the new frame,
    /// and this side's reference to the old frame is released. Returns 0.
    /// Must not be re-entered for the same page before resolution
    /// completes.
    pub fn cow_alloc(&mut self, arena: &mut FrameArena, vpn: VirtPageNum, former_ppn: PhysPageNum) -> (r: usize)
        requires
            old(self).inv(*old(arena)),
            old(self).page_table@.contains_key(vpn.0),
            old(self).page_table@[vpn.0].flags.cow,
            old(self).page_table@[vpn.0].ppn == former_ppn,
            old(arena).is_live(former_ppn.0 as int),
            exists|i: int|
                0 <= i < old(self).areas.len() && (#[trigger] old(self).areas@[i]).vpn_range.contains(vpn.0) && old(self).areas@[i].map_type == MapType::Framed,
            old(arena).refs_of(former_ppn.0 as int) > 1 ==> old(arena).free_frames() > 0,
        ensures
            r == 0,
            final(self).inv(*final(arena)),
            final(self).page_table.root_ppn == old(self).page_table.root_ppn,
            final(self).areas@.len() == old(self).areas@.len(),
            old(arena).refs_of(former_ppn.0 as int) == 1 ==> {
                &&& *final(arena) == *old(arena)
                &&& final(self).areas == old(self).areas
                &&& final(self).page_table@ == old(self).page_table@.insert(
                    vpn.0,
                    PageTableEntry {
                        ppn: former_ppn,
                        flags: PTEFlags {
                            w: true,
                            cow: false,
                            ..old(self).page_table@[vpn.0].flags
                        },
                    },
                )
            },
            old(arena).refs_of(former_ppn.0 as int) > 1 ==> {
                let p = final(self).page_table@[vpn.0].ppn;
                &&& p != former_ppn
                &&& !old(arena).is_live(p.0 as int)
                &&& final(self).page_table@ == old(self).page_table@.insert(
                    vpn.0,
                    PageTableEntry {
                        ppn: p,
                        flags: PTEFlags {
                            w: true,
                            cow: false,
                            ..old(self).page_table@[vpn.0].flags
                        },
                    },
                )
                &&& final(arena).data_of(p.0 as int) == old(arena).data_of(former_ppn.0 as int)
                &&& final(arena).refs_of(p.0 as int) == 1
                &&& final(arena).refs_of(former_ppn.0 as int) == old(arena).refs_of(
                    former_ppn.0 as int,
                ) - 1
                &&& forall|q: int|
                    old(arena).contains_ppn(q) && q != former_ppn.0 && q != p.0
                        ==> #[trigger] final(arena).refs_of(q) == old(arena).refs_of(q)
                &&& forall|q: int|
                    #![trigger final(arena).data_of(q)]
                    old(arena).contains_ppn(q) && q != p.0 ==> final(arena).data_of(q) == old(arena).data_of(q)
                &&& forall|a: int|
                    0 <= a < old(self).areas.len() ==> (#[trigger] final(self).areas@[a]).vpn_range
                        == old(self).areas@[a].vpn_range && final(self).areas@[a].map_type == old(self).areas@[a].map_type && final(self).areas@[a].map_perm == old(self).areas@[a].map_perm
                &&& exists|a: int|
                    #![trigger old(self).areas@[a]]
                    {
                        &&& 0 <= a < old(self).areas.len()
                        &&& old(self).areas@[a].vpn_range.contains(vpn.0)
                        &&& old(self).areas@[a].map_type == MapType::Framed
                        &&& final(self).areas@ == old(self).areas@.update(
                            a,
                            MapArea {
                                data_frames: final(self).areas@[a].data_frames,
                                ..old(self).areas@[a]
                            },
                        )
                        &&& final(self).areas@[a].data_frames@ == old(self).areas@[
                            a].data_frames@.insert(vpn.0, p)
                    }
            },
    {
        if arena.ref_count(former_ppn) == 1 {
            self.page_table.reset_cow(vpn);
            proof {
                self.lemma_flags_change_keeps_inv(*old(self), *old(arena), vpn.0);
            }
            return 0;
        }
        let frame = match arena.allocate() {
            Some(f) => f,
            None => vstd::pervasive::unreached(),
        };
        proof {
            assert(arena.is_live(former_ppn.0 as int)) by {
                assert(arena.refs_of(former_ppn.0 as int) == old(arena).refs_of(
                    former_ppn.0 as int,
                ));
            }
        }
        arena.copy_frame(former_ppn, frame);
        self.page_table.remap_cow(vpn, frame, former_ppn);
        proof {
            assert forall|q: int|
                old(arena).contains_ppn(q) && q != frame.0 implies #[trigger] arena.data_of(q)
                == old(arena).data_of(q) by {
                assert(arena.refs_of(q) == old(arena).refs_of(q));
                assert(arena.data_of(q) == old(arena).data_of(q));
            }
        }
        let ghost snap_ms = *self;
        let ghost snap_arena = *arena;
        let n: usize = self.areas.len();
        let mut i: usize = 0;
        while i < n
            invariant
                n == self.areas@.len(),
                i <= n,
                *self == snap_ms,
                *arena == snap_arena,
                old(self).inv(*old(arena)),
                old(self).page_table@.contains_key(vpn.0),
                old(self).page_table@[vpn.0].ppn == former_ppn,
                old(arena).is_live(former_ppn.0 as int),
                old(arena).refs_of(former_ppn.0 as int) > 1,
                snap_ms.areas == old(self).areas,
                snap_ms.page_table.root_ppn == old(self).page_table.root_ppn,
                snap_ms.page_table.wf(),
                snap_ms.page_table@ == old(self).page_table@.insert(
                    vpn.0,
                    PageTableEntry {
                        ppn: frame,
                        flags: PTEFlags {
                            w: true,
                            cow: false,
                            ..old(self).page_table@[vpn.0].flags
                        },
                    },
                ),
                snap_arena.wf(),
                snap_arena.base == old(arena).base,
                snap_arena.capacity == old(arena).capacity,
                snap_arena.slots.len() >= old(arena).slots.len(),
                snap_arena.free_frames() == old(arena).free_frames() - 1,
                !old(arena).is_live(frame.0 as int),
                frame.0 != former_ppn.0,
                snap_arena.is_live(frame.0 as int),
                snap_arena.refs_of(frame.0 as int) == 1,
                snap_arena.data_of(frame.0 as int) == old(arena).data_of(former_ppn.0 as int),
                forall|q: int|
                    old(arena).contains_ppn(q) && q != frame.0 ==> #[trigger] snap_arena.refs_of(q)
                        == old(arena).refs_of(q),
                forall|q: int|
                    #![trigger snap_arena.data_of(q)]
                    old(arena).contains_ppn(q) && q != frame.0 ==> snap_arena.data_of(q) == old(arena).data_of(q),
                exists|j: int|
                    i <= j < n && (#[trigger] self.areas@[j]).vpn_range.contains(vpn.0)
                        && self.areas@[j].map_type == MapType::Framed,
            decreases n - i,
        {
            let in_range: bool = self.areas[i].vpn_range.get_start().0 <= vpn.0 && vpn.0
                < self.areas[i].vpn_range.get_end().0;
            if in_range && self.areas[i].is_framed() {
                let ghost gi = i as int;
                self.areas[i].data_frames.insert(vpn.0, frame);
                arena.release(former_ppn);
                proof {
                    assert(self.areas@ =~= old(self).areas@.update(
                        gi,
                        MapArea { data_frames: self.areas@[gi].data_frames, ..old(self).areas@[gi] },
                    ));
                    assert(self.areas@[gi].data_frames@ == old(self).areas@[
                        gi].data_frames@.insert(vpn.0, frame));
                    assert forall|a: int|
                        0 <= a < old(self).areas.len() implies (
                    #[trigger] self.areas@[a]).vpn_range == old(self).areas@[a].vpn_range
                        && self.areas@[a].map_type == old(self).areas@[a].map_type && self.areas@[
                    a].map_perm == old(self).areas@[a].map_perm by {
                        if a != gi {
                            assert(self.areas@[a] == old(self).areas@[a]);
                        }
                    }
                    assert forall|q: int|
                        old(arena).contains_ppn(q) && q != frame.0 implies #[trigger] arena.data_of(
                        q,
                    ) == old(arena).data_of(q) by {
                        assert(snap_arena.data_of(q) == old(arena).data_of(q));
                        assert(snap_arena.contains_ppn(q));
                        if q == former_ppn.0 as int {
                            assert(arena.data_of(q) == snap_arena.data_of(q));
                        } else {
                            assert(arena.refs_of(q) == snap_arena.refs_of(q));
                            assert(arena.data_of(q) == snap_arena.data_of(q));
                        }
                    }
                    self.lemma_cow_repoint_keeps_inv(
                        *old(self),
                        *old(arena),
                        *arena,
                        gi,
                        vpn.0,
                        former_ppn,
                        frame,
                    );
                }
                return 0;
            }
            i = i + 1;
        }
        proof {
            assert(false);
        }
        vstd::pervasive::unreached()
    }

    /// Repointing one copy-on-write page of region `i` to a fresh private
    /// frame, releasing the formerly shared frame, preserves the
    /// invariant.
    proof fn lemma_cow_repoint_keeps_inv(
        self,
        pre: MemorySet,
        pre_arena: FrameArena,
        arena: FrameArena,
        i: int,
        c: usize,
        former: PhysPageNum,
        fresh: PhysPageNum,
    )
        requires
            pre.inv(pre_arena),
            pre.page_table@.contains_key(c),
            pre.page_table@[c].ppn == former,
            0 <= i < pre.areas.len(),
            pre.areas@[i].vpn_range.contains(c),
            pre.areas@[i].map_type == MapType::Framed,
            !pre_arena.is_live(fresh.0 as int),
            self.page_table.wf(),
            self.page_table@ == pre.page_table@.insert(
                c,
                PageTableEntry { ppn: fresh, flags: self.page_table@[c].flags },
            ),
            self.areas@ == pre.areas@.update(
                i,
                MapArea {
                    data_frames: self.areas@[i].data_frames,
                    ..pre.areas@[i]
                },
            ),
            self.areas@[i].data_frames@ == pre.areas@[i].data_frames@.insert(c, fresh),
            arena.wf(),
            arena.base == pre_arena.base,
            arena.slots.len() >= pre_arena.slots.len(),
            arena.is_live(fresh.0 as int),
            forall|q: int|
                pre_arena.is_live(q) && q != former.0 ==> #[trigger] arena.is_live(q),
        ensures
            self.inv(arena),
    {
        let pa = pre.areas@[i];
        let na = self.areas@[i];
        assert(pa.mapped_in(pre.page_table@, pre_arena));
        assert(pa.data_frames@.contains_key(c) && pa.data_frames@[c] == former);
        assert forall|k: int| 0 <= k < self.areas.len() implies (#[trigger] self.areas@[k]).wf() by {
            if k != i {
                assert(self.areas@[k] == pre.areas@[k]);
            } else {
                assert forall|v1: usize, v2: usize|
                    #[trigger] na.data_frames@.contains_key(v1)
                        && #[trigger] na.data_frames@.contains_key(v2) && v1
                        != v2 implies na.data_frames@[v1] != na.data_frames@[v2] by {
                    if v1 == c {
                        assert(pa.data_frames@.contains_key(v2));
                        assert(pa.vpn_range.contains(v2));
                        assert(pre_arena.is_live(pre.page_table@[v2].ppn.0 as int));
                        assert(pre.page_table@[v2].ppn == pa.data_frames@[v2]);
                    } else if v2 == c {
                        assert(pa.data_frames@.contains_key(v1));
                        assert(pa.vpn_range.contains(v1));
                        assert(pre_arena.is_live(pre.page_table@[v1].ppn.0 as int));
                        assert(pre.page_table@[v1].ppn == pa.data_frames@[v1]);
                    } else {
                        assert(pa.data_frames@.contains_key(v1));
                        assert(pa.data_frames@.contains_key(v2));
                    }
                }
            }
        }
        assert forall|k: int, j: int|
            0 <= k < self.areas.len() && 0 <= j < self.areas.len() && k != j implies (
        #[trigger] self.areas@[k]).vpn_range.disjoint((#[trigger] self.areas@[j]).vpn_range) by {
            assert(self.areas@[k].vpn_range == pre.areas@[k].vpn_range);
            assert(self.areas@[j].vpn_range == pre.areas@[j].vpn_range);
            assert(pre.areas@[k].vpn_range.disjoint(pre.areas@[j].vpn_range));
        }
        assert forall|k: int, j: int, v1: usize, v2: usize|
            0 <= k < self.areas.len() && 0 <= j < self.areas.len() && k != j && (
            #[trigger] self.areas@[k].data_frames@.contains_key(v1)) && (
            #[trigger] self.areas@[j].data_frames@.contains_key(v2)) implies self.areas@[
        k].data_frames@[v1] != self.areas@[j].data_frames@[v2] by {
            if k == i && v1 == c {
                assert(pre.areas@[j].data_frames@.contains_key(v2));
                assert(pre.areas@[j].vpn_range.contains(v2));
                assert(pre.areas@[j].mapped_in(pre.page_table@, pre_arena));
                assert(pre_arena.is_live(pre.page_table@[v2].ppn.0 as int));
                assert(pre.page_table@[v2].ppn == pre.areas@[j].data_frames@[v2]);
            } else if j == i && v2 == c {
                assert(pre.areas@[k].data_frames@.contains_key(v1));
                assert(pre.areas@[k].vpn_range.contains(v1));
                assert(pre.areas@[k].mapped_in(pre.page_table@, pre_arena));
                assert(pre_arena.is_live(pre.page_table@[v1].ppn.0 as int));
                assert(pre.page_table@[v1].ppn == pre.areas@[k].data_frames@[v1]);
            } else {
                if k == i {
                    assert(pre.areas@[k].data_frames@.contains_key(v1));
                } else {
                    assert(self.areas@[k] == pre.areas@[k]);
                }
                if j == i {
                    assert(pre.areas@[j].data_frames@.contains_key(v2));
                } else {
                    assert(self.areas@[j] == pre.areas@[j]);
                }
            }
        }
        assert forall|k: int| 0 <= k < self.areas.len() implies (#[trigger] self.areas@[k]).mapped_in(
            self.page_table@,
            arena,
        ) by {
            let a = pre.areas@[k];
            assert(a.mapped_in(pre.page_table@, pre_arena));
            assert forall|v: usize| #[trigger] self.areas@[k].vpn_range.contains(v) implies {
                &&& self.page_table@.contains_key(v)
                &&& match self.areas@[k].map_type {
                    MapType::Identical => self.page_table@[v].ppn.0 == v,
                    MapType::Framed => self.areas@[k].data_frames@.contains_key(v)
                        && self.page_table@[v].ppn == self.areas@[k].data_frames@[v]
                        && arena.is_live(self.page_table@[v].ppn.0 as int),
                }
            } by {
                assert(a.vpn_range.contains(v));
                if k == i && v == c {
                    assert(self.page_table@[v].ppn == fresh);
                    assert(self.areas@[k].data_frames@[v] == fresh);
                } else {
                    assert(self.page_table@[v] == pre.page_table@[v]);
                    if a.map_type == MapType::Framed {
                        let pq = pre.page_table@[v].ppn.0 as int;
                        assert(pre_arena.is_live(pq));
                        assert(pq != former.0 as int) by {
                            if pq == former.0 as int {
                                if k == i {
                                    assert(a.data_frames@[v] != a.data_frames@[c]);
                                } else {
                                    assert(a.data_frames@.contains_key(v));
                                    assert(pa.data_frames@.contains_key(c));
                                    assert(a.data_frames@[v] != pa.data_frames@[c]);
                                }
                            }
                        }
                        assert(arena.is_live(pq));
                        if k == i {
                            assert(self.areas@[k].data_frames@[v] == pa.data_frames@[v]);
                        }
                    }
                }
            }
        }
        assert forall|v: usize| #[trigger] self.page_table@.contains_key(v) implies self.in_some_area(
            v,
        ) || v == trampoline_vpn() || v == signal_trampoline_vpn() by {
            assert(pre.page_table@.contains_key(v));
            if pre.in_some_area(v) {
                let k = choose|k: int|
                    0 <= k < pre.areas.len() && (#[trigger] pre.areas@[k]).vpn_range.contains(v);
                assert(self.areas@[k].vpn_range.contains(v));
            }
        }
    }

    /// Share region `k` of `parent` into this space copy-on-write: the
    /// child's entries are pointed at the parent's existing frames (each
    /// gaining one reference), and both sides' entries are rewritten to
    /// clear the writable bit and set the copy-on-write marker. The new
    /// region records the shared frames as its handles.
    #[verifier::rlimit(100)]
    #[verifier::spinoff_prover]
    fn push_cow_area(&mut self, arena: &mut FrameArena, parent: &mut MemorySet, k: usize)
        requires
            old(self).inv(*old(arena)),
            old(parent).inv(*old(arena)),
            k < old(parent).areas.len(),
            old(parent).areas@[k as int].map_type == MapType::Framed,
            forall|i: int|
                0 <= i < old(self).areas.len() ==> old(parent).areas@[k as int].vpn_range.disjoint(
                    (#[trigger] old(self).areas@[i]).vpn_range,
                ),
            forall|v: usize|
                #[trigger] old(parent).areas@[k as int].vpn_range.contains(v) ==> old(arena).refs_of(old(parent).page_table@[v].ppn.0 as int) < usize::MAX,
            forall|i: int, q: int|
                0 <= i < old(self).areas.len() && #[trigger] old(self).areas@[i].owns_ppn(q)
                    ==> !old(parent).areas@[k as int].owns_ppn(q),
        ensures
            final(self).inv(*final(arena)),
            final(parent).inv(*final(arena)),
            final(parent).areas == old(parent).areas,
            final(parent).page_table.root_ppn == old(parent).page_table.root_ppn,
            final(self).page_table.root_ppn == old(self).page_table.root_ppn,
            final(self).areas@.len() == old(self).areas@.len() + 1,
            forall|j: int|
                0 <= j < old(self).areas@.len() ==> #[trigger] final(self).areas@[j] == old(self).areas@[j],
            final(self).areas@.last().vpn_range == old(parent).areas@[k as int].vpn_range,
            final(self).areas@.last().map_type == MapType::Framed,
            final(self).areas@.last().map_perm == old(parent).areas@[k as int].map_perm,
            forall|v: usize|
                #[trigger] old(parent).areas@[k as int].vpn_range.contains(v) ==> {
                    let p = old(parent).page_table@[v].ppn;
                    &&& final(self).page_table@.contains_key(v)
                    &&& final(self).page_table@[v].ppn == p
                    &&& final(self).page_table@[v].flags == (PTEFlags {
                        w: false,
                        cow: true,
                        ..old(parent).page_table@[v].flags
                    })
                    &&& final(parent).page_table@.contains_key(v)
                    &&& final(parent).page_table@[v].ppn == p
                    &&& final(parent).page_table@[v].flags == (PTEFlags {
                        w: false,
                        cow: true,
                        ..old(parent).page_table@[v].flags
                    })
                    &&& final(arena).refs_of(p.0 as int) == old(arena).refs_of(p.0 as int) + 1
                    &&& final(self).areas@.last().data_frames@.contains_key(v)
                    &&& final(self).areas@.last().data_frames@[v] == p
                },
            forall|v: usize|
                !old(parent).areas@[k as int].vpn_range.contains(v) ==> (#[trigger] final(self).page_table@.contains_key(v) == old(self).page_table@.contains_key(v)) && (old(self).page_table@.contains_key(v) ==> final(self).page_table@[v] == old(self).page_table@[v]),
            forall|v: usize|
                !old(parent).areas@[k as int].vpn_range.contains(v) ==> (#[trigger] final(parent).page_table@.contains_key(v) == old(parent).page_table@.contains_key(v)) && (old(parent).page_table@.contains_key(v) ==> final(parent).page_table@[v] == old(parent).page_table@[v]),
            final(arena).base == old(arena).base,
            final(arena).capacity == old(arena).capacity,
            final(arena).slots.len() == old(arena).slots.len(),
            final(arena).free_frames() == old(arena).free_frames(),
            forall|q: int|
                old(arena).contains_ppn(q) && !old(parent).areas@[k as int].owns_ppn(q)
                    ==> #[trigger] final(arena).refs_of(q) == old(arena).refs_of(q),
            forall|q: int|
                #![trigger final(arena).data_of(q)]
                old(arena).contains_ppn(q) ==> final(arena).data_of(q) == old(arena).data_of(q),
            forall|q: int| old(arena).is_live(q) ==> #[trigger] final(arena).is_live(q),
    {
        let mut new_area = MapArea::from_another(&parent.areas[k]);
        let start: usize = new_area.vpn_range.get_start().0;
        let end: usize = new_area.vpn_range.get_end().0;
        let ghost pa = old(parent).areas@[k as int];
        proof {
            assert(pa.wf());
            assert(pa.mapped_in(old(parent).page_table@, *old(arena)));
        }
        let mut v: usize = start;
        while v < end
            invariant
                start == pa.vpn_range.start.0,
                end == pa.vpn_range.end.0,
                start <= v <= end,
                old(parent).inv(*old(arena)),
                k < old(parent).areas.len(),
                pa == old(parent).areas@[k as int],
                pa.map_type == MapType::Framed,
                forall|u: usize|
                    #[trigger] pa.vpn_range.contains(u) ==> old(arena).refs_of(
                        old(parent).page_table@[u].ppn.0 as int,
                    ) < usize::MAX,
                new_area.vpn_range == pa.vpn_range,
                new_area.map_type == MapType::Framed,
                new_area.map_perm == pa.map_perm,
                forall|u: usize|
                    #[trigger] new_area.data_frames@.contains_key(u) == (start <= u < v),
                forall|u: usize|
                    #[trigger] new_area.data_frames@.contains_key(u) ==> new_area.data_frames@[u]
                        == old(parent).page_table@[u].ppn,
                *self == (MemorySet {
                    page_table: PageTable {
                        root_ppn: old(self).page_table.root_ppn,
                        entries: self.page_table.entries,
                    },
                    areas: old(self).areas,
                }),
                self.page_table.wf(),
                forall|u: usize|
                    start <= u < v ==> #[trigger] self.page_table@.contains_key(u),
                forall|u: usize|
                    #![trigger self.page_table@[u]]
                    start <= u < v ==> self.page_table@[u].ppn == old(parent).page_table@[u].ppn
                        && self.page_table@[u].flags == (PTEFlags {
                        w: false,
                        cow: true,
                        ..old(parent).page_table@[u].flags
                    }),
                forall|u: usize|
                    !(start <= u < v) ==> (#[trigger] self.page_table@.contains_key(u) == old(self).page_table@.contains_key(u)) && (old(self).page_table@.contains_key(u)
                        ==> self.page_table@[u] == old(self).page_table@[u]),
                parent.areas == old(parent).areas,
                parent.page_table.root_ppn == old(parent).page_table.root_ppn,
                parent.page_table.wf(),
                parent.inv(*arena),
                forall|u: usize|
                    start <= u < v ==> #[trigger] parent.page_table@.contains_key(u),
                forall|u: usize|
                    #![trigger parent.page_table@[u]]
                    start <= u < v ==> parent.page_table@[u].ppn == old(parent).page_table@[u].ppn
                        && parent.page_table@[u].flags == (PTEFlags {
                        w: false,
                        cow: true,
                        ..old(parent).page_table@[u].flags
                    }),
                forall|u: usize|
                    !(start <= u < v) ==> (#[trigger] parent.page_table@.contains_key(u) == old(parent).page_table@.contains_key(u)) && (old(parent).page_table@.contains_key(u)
                        ==> parent.page_table@[u] == old(parent).page_table@[u]),
                arena.wf(),
                arena.base == old(arena).base,
                arena.capacity == old(arena).capacity,
                arena.slots.len() == old(arena).slots.len(),
                arena.free_frames() == old(arena).free_frames(),
                forall|u: usize|
                    start <= u < v ==> #[trigger] arena.refs_of(
                        old(parent).page_table@[u].ppn.0 as int,
                    ) == old(arena).refs_of(old(parent).page_table@[u].ppn.0 as int) + 1,
                forall|q: int|
                    old(arena).contains_ppn(q) && !(exists|u: usize|
                        start <= u < v && (#[trigger] old(parent).page_table@[u].ppn.0) == q)
                        ==> #[trigger] arena.refs_of(q) == old(arena).refs_of(q),
                forall|q: int|
                    #![trigger arena.data_of(q)]
                    old(arena).contains_ppn(q) ==> arena.data_of(q) == old(arena).data_of(q),
                forall|q: int| old(arena).is_live(q) ==> #[trigger] arena.is_live(q),
            decreases end - v,
        {
            let ghost head_self = *self;
            let ghost head_parent = *parent;
            proof {
                assert(pa.vpn_range.contains(v));
                assert(pa.mapped_in(parent.page_table@, *arena));
                assert(parent.page_table@.contains_key(v));
                assert(parent.page_table@[v] == old(parent).page_table@[v]);
            }
            let pte = match parent.page_table.translate(VirtPageNum(v)) {
                Some(p) => p,
                None => vstd::pervasive::unreached(),
            };
            proof {
                assert(old(parent).page_table@.contains_key(v as usize));
                assert(pte == old(parent).page_table@[v as usize]);
            }
            let ghost p0 = pte.ppn.0 as int;
            let ghost pre_arena = *arena;
            proof {
                assert(arena.is_live(p0));
                assert(arena.refs_of(p0) == old(arena).refs_of(p0)) by {
                    if exists|u: usize|
                        start <= u < v && (#[trigger] old(parent).page_table@[u].ppn.0)
                            == p0 as usize {
                        let u = choose|u: usize|
                            start <= u < v && (#[trigger] old(parent).page_table@[u].ppn.0)
                                == p0 as usize;
                        assert(pa.vpn_range.contains(u));
                        assert(pa.data_frames@[u] == old(parent).page_table@[u].ppn);
                        assert(pa.data_frames@[v as usize] == old(parent).page_table@[
                            v as usize].ppn);
                        assert(pa.data_frames@.contains_key(u));
                        assert(pa.data_frames@.contains_key(v as usize));
                        assert(pa.data_frames@[u] != pa.data_frames@[v as usize]);
                        assert(false);
                    }
                }
            }
            arena.add_ref(pte.ppn);
            let ghost parent_pre = *parent;
            parent.page_table.set_cow(VirtPageNum(v));
            proof {
                lemma_inv_live_preserved(parent_pre, pre_arena, *arena);
                parent.lemma_flags_change_keeps_inv(parent_pre, *arena, v);
            }
            let f = pte.flags();
            self.page_table.map(
                VirtPageNum(v),
                pte.ppn(),
                PTEFlags { v: f.v, r: f.r, w: false, x: f.x, u: f.u, cow: true },
            );
            new_area.insert_tracker(VirtPageNum(v), pte.ppn());
            proof {
                assert(f.v) by {
                    assert(old(parent).page_table@.contains_key(v as usize));
                }
                assert forall|u: usize|
                    start <= u < v + 1 implies #[trigger] arena.refs_of(
                    old(parent).page_table@[u].ppn.0 as int,
                ) == old(arena).refs_of(old(parent).page_table@[u].ppn.0 as int) + 1 by {
                    let pu = old(parent).page_table@[u].ppn.0 as int;
                    if u < v {
                        assert(pa.vpn_range.contains(u));
                        assert(old(arena).is_live(pu));
                        assert(pre_arena.contains_ppn(pu));
                        assert(pu != p0) by {
                            if pu == p0 {
                                assert(pa.vpn_range.contains(u));
                                assert(pa.data_frames@.contains_key(u));
                                assert(pa.data_frames@.contains_key(v as usize));
                                assert(pa.data_frames@[u] == old(parent).page_table@[u].ppn);
                                assert(pa.data_frames@[v as usize] == old(parent).page_table@[
                                    v as usize].ppn);
                                assert(pa.data_frames@[u] != pa.data_frames@[v as usize]);
                            }
                        }
                        assert(arena.refs_of(pu) == pre_arena.refs_of(pu));
                    }
                }
                assert forall|q: int|
                    old(arena).contains_ppn(q) && !(exists|u: usize|
                        start <= u < v + 1 && (#[trigger] old(parent).page_table@[u].ppn.0)
                            == q) implies #[trigger] arena.refs_of(q) == old(arena).refs_of(
                    q,
                ) by {
                    assert(q != p0) by {
                        if q == p0 {
                            assert(start <= v < v + 1 && old(parent).page_table@[
                                v as usize].ppn.0 == q);
                        }
                    }
                    assert(arena.refs_of(q) == pre_arena.refs_of(q));
                    assert(pre_arena.refs_of(q) == old(arena).refs_of(q)) by {
                        if exists|u: usize|
                            start <= u < v && (#[trigger] old(parent).page_table@[u].ppn.0) == q {
                            let u = choose|u: usize|
                                start <= u < v && (#[trigger] old(parent).page_table@[u].ppn.0)
                                    == q;
                            assert(start <= u < v + 1 && old(parent).page_table@[u].ppn.0 == q);
                            assert(false);
                        }
                    }
                }
                assert forall|q: int|
                    old(arena).contains_ppn(q) implies #[trigger] arena.data_of(q) == old(arena).data_of(q) by {
                    assert(pre_arena.contains_ppn(q));
                    if q == p0 {
                        assert(arena.data_of(q) == pre_arena.data_of(q));
                    } else {
                        assert(arena.refs_of(q) == pre_arena.refs_of(q));
                        assert(arena.data_of(q) == pre_arena.data_of(q));
                    }
                }
                assert forall|u: usize|
                    start <= u < v + 1 implies #[trigger] self.page_table@.contains_key(u) by {
                    if u != v {
                        assert(head_self.page_table@.contains_key(u));
                    }
                }
                assert forall|u: usize|
                    #![trigger self.page_table@[u]]
                    start <= u < v + 1 implies self.page_table@[u].ppn == old(parent).page_table@[u].ppn && self.page_table@[u].flags == (PTEFlags {
                    w: false,
                    cow: true,
                    ..old(parent).page_table@[u].flags
                }) by {
                    if u == v {
                        assert(self.page_table@[u].ppn == pte.ppn);
                        assert(self.page_table@[u].flags == (PTEFlags {
                            v: f.v,
                            r: f.r,
                            w: false,
                            x: f.x,
                            u: f.u,
                            cow: true,
                        }));
                        assert(f == old(parent).page_table@[u].flags);
                    } else {
                        assert(head_self.page_table@.contains_key(u));
                        assert(head_self.page_table@[u].ppn == old(parent).page_table@[u].ppn);
                        assert(self.page_table@.contains_key(u));
                        assert(self.page_table@[u] == head_self.page_table@[u]);
                    }
                }
                assert forall|u: usize|
                    !(start <= u < v + 1) implies (#[trigger] self.page_table@.contains_key(u)
                    == old(self).page_table@.contains_key(u)) && (old(self).page_table@.contains_key(u) ==> self.page_table@[u] == old(self).page_table@[u]) by {
                    assert(head_self.page_table@.contains_key(u) == old(self).page_table@.contains_key(u));
                    assert(self.page_table@.contains_key(u) == head_self.page_table@.contains_key(u));
                    if old(self).page_table@.contains_key(u) {
                        assert(head_self.page_table@[u] == old(self).page_table@[u]);
                        assert(self.page_table@[u] == head_self.page_table@[u]);
                    }
                }
                assert forall|u: usize|
                    start <= u < v + 1 implies #[trigger] parent.page_table@.contains_key(u) by {
                    if u != v {
                        assert(head_parent.page_table@.contains_key(u));
                    }
                }
                assert forall|u: usize|
                    #![trigger parent.page_table@[u]]
                    start <= u < v + 1 implies parent.page_table@[u].ppn == old(parent).page_table@[u].ppn && parent.page_table@[u].flags == (PTEFlags {
                    w: false,
                    cow: true,
                    ..old(parent).page_table@[u].flags
                }) by {
                    if u == v {
                        assert(parent.page_table@.contains_key(u));
                        assert(head_parent.page_table@.contains_key(v as usize));
                        assert(head_parent.page_table@[v as usize] == old(parent).page_table@[
                            v as usize]);
                    } else {
                        assert(head_parent.page_table@.contains_key(u));
                        assert(head_parent.page_table@[u].ppn == old(parent).page_table@[u].ppn);
                        assert(parent.page_table@.contains_key(u));
                        assert(parent.page_table@[u] == head_parent.page_table@[u]);
                    }
                }
                assert forall|u: usize|
                    !(start <= u < v + 1) implies (#[trigger] parent.page_table@.contains_key(u)
                    == old(parent).page_table@.contains_key(u)) && (old(parent).page_table@.contains_key(u) ==> parent.page_table@[u] == old(parent).page_table@[u]) by {
                    assert(head_parent.page_table@.contains_key(u) == old(parent).page_table@.contains_key(u));
                    assert(parent.page_table@.contains_key(u) == head_parent.page_table@.contains_key(u));
                    if old(parent).page_table@.contains_key(u) {
                        assert(head_parent.page_table@[u] == old(parent).page_table@[u]);
                        assert(parent.page_table@[u] == head_parent.page_table@[u]);
                    }
                }
            }
            v = v + 1;
        }
        proof {
            assert forall|q: int|
                old(arena).contains_ppn(q) && !pa.owns_ppn(q) implies #[trigger] arena.refs_of(q)
                == old(arena).refs_of(q) by {
                if exists|u: usize|
                    start <= u < v && (#[trigger] old(parent).page_table@[u].ppn.0) == q {
                    let u = choose|u: usize|
                        start <= u < v && (#[trigger] old(parent).page_table@[u].ppn.0) == q;
                    assert(pa.vpn_range.contains(u));
                    assert(pa.mapped_in(old(parent).page_table@, *old(arena)));
                    assert(pa.data_frames@.contains_key(u));
                    assert(pa.data_frames@[u] == old(parent).page_table@[u].ppn);
                    assert(pa.owns_ppn(q));
                    assert(false);
                }
            }
        }
        let ghost final_area = new_area;
        let ghost pre_push = *self;
        self.areas.push(new_area);
        proof {
            assert forall|u: usize|
                !pa.vpn_range.contains(u) implies (#[trigger] self.page_table@.contains_key(u)
                == old(self).page_table@.contains_key(u)) && (old(self).page_table@.contains_key(u)
                ==> self.page_table@[u] == old(self).page_table@[u]) by {
                assert(self.page_table@.contains_key(u) == old(self).page_table@.contains_key(u));
                if old(self).page_table@.contains_key(u) {
                    assert(self.page_table@[u] == old(self).page_table@[u]);
                }
            }
            self.lemma_push_cow_keeps_inv(*old(self), *old(parent), *old(arena), *arena, final_area, k as int);
        }
    }

    /// Appending a region that shares the frames of one of the parent's
    /// regions copy-on-write, with its entries installed, preserves the
    /// child's invariant.
    #[verifier::rlimit(100)]
    #[verifier::spinoff_prover]
    proof fn lemma_push_cow_keeps_inv(
        self,
        pre: MemorySet,
        parent0: MemorySet,
        arena0: FrameArena,
        arena: FrameArena,
        na: MapArea,
        k: int,
    )
        requires
            pre.inv(arena0),
            parent0.inv(arena0),
            0 <= k < parent0.areas.len(),
            parent0.areas@[k].map_type == MapType::Framed,
            forall|i: int|
                0 <= i < pre.areas.len() ==> parent0.areas@[k].vpn_range.disjoint(
                    (#[trigger] pre.areas@[i]).vpn_range,
                ),
            forall|i: int, q: int|
                0 <= i < pre.areas.len() && #[trigger] pre.areas@[i].owns_ppn(q)
                    ==> !parent0.areas@[k].owns_ppn(q),
            na.vpn_range == parent0.areas@[k].vpn_range,
            na.map_type == MapType::Framed,
            na.map_perm == parent0.areas@[k].map_perm,
            forall|u: usize|
                #[trigger] na.data_frames@.contains_key(u) == parent0.areas@[k].vpn_range.contains(
                    u,
                ),
            forall|u: usize|
                #[trigger] na.data_frames@.contains_key(u) ==> na.data_frames@[u]
                    == parent0.page_table@[u].ppn,
            self.areas@ == pre.areas@.push(na),
            self.page_table.wf(),
            forall|u: usize|
                #[trigger] parent0.areas@[k].vpn_range.contains(u)
                    ==> self.page_table@.contains_key(u) && self.page_table@[u].ppn
                    == parent0.page_table@[u].ppn,
            forall|u: usize|
                !parent0.areas@[k].vpn_range.contains(u) ==> (
                #[trigger] self.page_table@.contains_key(u) == pre.page_table@.contains_key(u)) && (
                pre.page_table@.contains_key(u) ==> self.page_table@[u] == pre.page_table@[u]),
            arena.wf(),
            arena.base == arena0.base,
            arena.slots.len() == arena0.slots.len(),
            forall|q: int| arena0.is_live(q) ==> #[trigger] arena.is_live(q),
        ensures
            self.inv(arena),
    {
        let n = pre.areas@.len() as int;
        let pa = parent0.areas@[k];
        assert(pa.wf());
        assert(pa.mapped_in(parent0.page_table@, arena0));
        assert forall|i: int| 0 <= i < self.areas.len() implies (#[trigger] self.areas@[i]).wf()
            && self.areas@[i].vpn_range.end.0 <= signal_trampoline_vpn() by {
            if i < n {
                assert(self.areas@[i] == pre.areas@[i]);
            } else {
                assert(self.areas@[i] == na);
                assert(pa.vpn_range.end.0 <= signal_trampoline_vpn());
                assert forall|v1: usize, v2: usize|
                    #[trigger] na.data_frames@.contains_key(v1)
                        && #[trigger] na.data_frames@.contains_key(v2) && v1
                        != v2 implies na.data_frames@[v1] != na.data_frames@[v2] by {
                    assert(pa.vpn_range.contains(v1));
                    assert(pa.vpn_range.contains(v2));
                    assert(pa.data_frames@.contains_key(v1));
                    assert(pa.data_frames@.contains_key(v2));
                    assert(parent0.page_table@[v1].ppn == pa.data_frames@[v1]);
                    assert(parent0.page_table@[v2].ppn == pa.data_frames@[v2]);
                    assert(pa.data_frames@[v1] != pa.data_frames@[v2]);
                }
            }
        }
        assert forall|i: int, j: int|
            0 <= i < self.areas.len() && 0 <= j < self.areas.len() && i != j implies (
        #[trigger] self.areas@[i]).vpn_range.disjoint((#[trigger] self.areas@[j]).vpn_range) by {
            if i < n && j < n {
                assert(pre.areas@[i].vpn_range.disjoint(pre.areas@[j].vpn_range));
            } else if i == n {
                assert(pa.vpn_range.disjoint(pre.areas@[j].vpn_range));
            } else {
                assert(pa.vpn_range.disjoint(pre.areas@[i].vpn_range));
            }
        }
        assert forall|i: int, j: int, v1: usize, v2: usize|
            0 <= i < self.areas.len() && 0 <= j < self.areas.len() && i != j && (
            #[trigger] self.areas@[i].data_frames@.contains_key(v1)) && (
            #[trigger] self.areas@[j].data_frames@.contains_key(v2)) implies self.areas@[
        i].data_frames@[v1] != self.areas@[j].data_frames@[v2] by {
            if i < n && j < n {
                assert(pre.areas@[i].data_frames@.contains_key(v1));
                assert(pre.areas@[j].data_frames@.contains_key(v2));
            } else if i == n {
                assert(pre.areas@[j].data_frames@.contains_key(v2));
                if self.areas@[i].data_frames@[v1] == self.areas@[j].data_frames@[v2] {
                    let q = na.data_frames@[v1].0 as int;
                    assert(pa.vpn_range.contains(v1));
                    assert(pa.data_frames@.contains_key(v1));
                    assert(parent0.page_table@[v1].ppn == pa.data_frames@[v1]);
                    assert(pa.data_frames@[v1].0 == q);
                    assert(pa.owns_ppn(q));
                    assert(pre.areas@[j].owns_ppn(q)) by {
                        assert(pre.areas@[j].data_frames@.contains_key(v2)
                            && pre.areas@[j].data_frames@[v2].0 == q);
                    }
                    assert(false);
                }
            } else {
                assert(pre.areas@[i].data_frames@.contains_key(v1));
                if self.areas@[i].data_frames@[v1] == self.areas@[j].data_frames@[v2] {
                    let q = na.data_frames@[v2].0 as int;
                    assert(pa.vpn_range.contains(v2));
                    assert(pa.data_frames@.contains_key(v2));
                    assert(parent0.page_table@[v2].ppn == pa.data_frames@[v2]);
                    assert(pa.owns_ppn(q));
                    assert(pre.areas@[i].owns_ppn(q)) by {
                        assert(pre.areas@[i].data_frames@.contains_key(v1)
                            && pre.areas@[i].data_frames@[v1].0 == q);
                    }
                    assert(false);
                }
            }
        }
        assert forall|i: int| 0 <= i < self.areas.len() implies (#[trigger] self.areas@[i]).mapped_in(
            self.page_table@,
            arena,
        ) by {
            assert forall|v: usize| #[trigger] self.areas@[i].vpn_range.contains(v) implies {
                &&& self.page_table@.contains_key(v)
                &&& match self.areas@[i].map_type {
                    MapType::Identical => self.page_table@[v].ppn.0 == v,
                    MapType::Framed => self.areas@[i].data_frames@.contains_key(v)
                        && self.page_table@[v].ppn == self.areas@[i].data_frames@[v]
                        && arena.is_live(self.page_table@[v].ppn.0 as int),
                }
            } by {
                if i < n {
                    let a = pre.areas@[i];
                    assert(self.areas@[i] == a);
                    assert(a.mapped_in(pre.page_table@, arena0));
                    assert(a.vpn_range.contains(v));
                    assert(pa.vpn_range.disjoint(a.vpn_range));
                    assert(!pa.vpn_range.contains(v));
                    assert(self.page_table@.contains_key(v));
                    assert(self.page_table@[v] == pre.page_table@[v]);
                    if a.map_type == MapType::Framed {
                        assert(arena0.is_live(pre.page_table@[v].ppn.0 as int));
                        assert(arena.is_live(pre.page_table@[v].ppn.0 as int));
                    }
                } else {
                    assert(self.areas@[i] == na);
                    assert(pa.vpn_range.contains(v));
                    assert(self.page_table@.contains_key(v));
                    assert(self.page_table@[v].ppn == parent0.page_table@[v].ppn);
                    assert(na.data_frames@.contains_key(v));
                    assert(na.data_frames@[v] == parent0.page_table@[v].ppn);
                    assert(pa.data_frames@.contains_key(v));
                    assert(arena0.is_live(parent0.page_table@[v].ppn.0 as int));
                    assert(arena.is_live(parent0.page_table@[v].ppn.0 as int));
                }
            }
        }
        assert forall|v: usize| #[trigger] self.page_table@.contains_key(v) implies self.in_some_area(
            v,
        ) || v == trampoline_vpn() || v == signal_trampoline_vpn() by {
            if pa.vpn_range.contains(v) {
                assert(self.areas@[n].vpn_range.contains(v));
                assert(self.in_some_area(v));
            } else {
                assert(pre.page_table@.contains_key(v));
                if pre.in_some_area(v) {
                    let i = choose|i: int|
                        0 <= i < pre.areas.len() && (#[trigger] pre.areas@[i]).vpn_range.contains(
                            v,
                        );
                    assert(self.areas@[i].vpn_range.contains(v));
                    assert(self.in_some_area(v));
                }
            }
        }
    }

    /// The eager half of a copy-on-write fork: a bare child space with the
    /// parent's trampoline entries, plus an eager duplicate (fresh frames,
    /// bytes copied) of every parent region whose range starts at or above
    /// the split page.
    #[verifier::rlimit(100)]
    #[verifier::spinoff_prover]
    fn cow_fork_eager(arena: &mut FrameArena, user_space: &MemorySet, split_addr: usize) -> (r:
        MemorySet)
        requires
            user_space.inv(*old(arena)),
            old(arena).free_frames() >= 1 + total_eager_pages(
                user_space.areas@,
                split_page(split_addr as int),
            ),
            forall|q: int|
                #[trigger] old(arena).contains_ppn(q) ==> old(arena).refs_of(q) < usize::MAX,
        ensures
            r.inv(*final(arena)),
            user_space.inv(*final(arena)),
            final(arena).base == old(arena).base,
            final(arena).capacity == old(arena).capacity,
            final(arena).slots.len() >= old(arena).slots.len(),
            final(arena).free_frames() == old(arena).free_frames() - 1 - total_eager_pages(
                user_space.areas@,
                split_page(split_addr as int),
            ),
            forall|q: int|
                old(arena).is_live(q) ==> #[trigger] final(arena).refs_of(q) == old(arena).refs_of(
                    q,
                ),
            forall|q: int|
                #![trigger final(arena).data_of(q)]
                old(arena).is_live(q) ==> final(arena).data_of(q) == old(arena).data_of(q),
            forall|q: int| old(arena).contains_ppn(q) ==> #[trigger] final(arena).contains_ppn(q),
            r.areas@.len() == count_eager(user_space.areas@, split_page(split_addr as int)),
            user_space.page_table@.contains_key(trampoline_vpn() as usize)
                ==> r.page_table@.contains_key(trampoline_vpn() as usize)
                && r.page_table@[trampoline_vpn() as usize] == user_space.page_table@[
                trampoline_vpn() as usize],
            user_space.page_table@.contains_key(signal_trampoline_vpn() as usize)
                ==> r.page_table@.contains_key(signal_trampoline_vpn() as usize)
                && r.page_table@[signal_trampoline_vpn() as usize] == user_space.page_table@[
                signal_trampoline_vpn() as usize],
            forall|i: int, q: int|
                0 <= i < r.areas.len() && #[trigger] r.areas@[i].owns_ppn(q) ==> !old(arena).is_live(q),
            forall|j: int, v: usize|
                0 <= j < user_space.areas@.len() && user_space.areas@[j].vpn_range.start.0
                    >= split_page(split_addr as int) && user_space.areas@[j].map_type
                    == MapType::Framed && #[trigger] user_space.areas@[j].vpn_range.contains(v)
                    ==> r.page_table@.contains_key(v) && !old(arena).is_live(
                    r.page_table@[v].ppn.0 as int,
                ) && final(arena).data_of(r.page_table@[v].ppn.0 as int) == old(arena).data_of(
                    user_space.page_table@[v].ppn.0 as int,
                ),
            forall|j: int|
                0 <= j < user_space.areas@.len() && (#[trigger] user_space.areas@[
                j]).vpn_range.start.0 >= split_page(split_addr as int) ==> 0 <= count_eager(
                    user_space.areas@.take(j),
                    split_page(split_addr as int),
                ) < r.areas@.len() && r.areas@[count_eager(
                    user_space.areas@.take(j),
                    split_page(split_addr as int),
                )].vpn_range == user_space.areas@[j].vpn_range && r.areas@[count_eager(
                    user_space.areas@.take(j),
                    split_page(split_addr as int),
                )].map_type == user_space.areas@[j].map_type && r.areas@[count_eager(
                    user_space.areas@.take(j),
                    split_page(split_addr as int),
                )].map_perm == user_space.areas@[j].map_perm,
    {
        let ghost s_vpn = split_page(split_addr as int);
        proof {
            lemma_eager_take_le(user_space.areas@, s_vpn, 0);
        }
        let mut memory_set = MemorySet::new_bare(arena);
        let ghost base_ms = memory_set;
        proof {
            let root = memory_set.page_table.root_ppn.0 as int;
            assert forall|q: int| old(arena).is_live(q) implies #[trigger] arena.refs_of(q) == old(arena).refs_of(q) && arena.is_live(q) by {
                assert(q != root);
                assert(arena.refs_of(q) == old(arena).refs_of(q));
            }
            assert forall|q: int| old(arena).is_live(q) implies #[trigger] arena.data_of(q) == old(arena).data_of(q) by {
                assert(q != root);
                assert(arena.refs_of(q) == old(arena).refs_of(q));
                assert(arena.data_of(q) == old(arena).data_of(q));
            }
            lemma_inv_live_preserved(*user_space, *old(arena), *arena);
        }
        let ghost pre_tramp = memory_set;
        match user_space.translate(VirtAddr(TRAMPOLINE).floor()) {
            Some(e) => {
                proof {
                    assert(user_space.page_table@.contains_key(trampoline_vpn() as usize));
                }
                memory_set.page_table.map(VirtAddr(TRAMPOLINE).floor(), e.ppn(), e.flags());
                proof {
                    memory_set.lemma_insert_outside_areas_keeps_inv(
                        pre_tramp,
                        *arena,
                        trampoline_vpn() as usize,
                    );
                }
            },
            None => {
            },
        }
        let ghost pre_sig = memory_set;
        match user_space.translate(VirtAddr(SIGNAL_TRAMPOLINE).floor()) {
            Some(e) => {
                proof {
                    assert(user_space.page_table@.contains_key(
                        signal_trampoline_vpn() as usize,
                    ));
                }
                memory_set.page_table.map(VirtAddr(SIGNAL_TRAMPOLINE).floor(), e.ppn(), e.flags());
                proof {
                    memory_set.lemma_insert_outside_areas_keeps_inv(
                        pre_sig,
                        *arena,
                        signal_trampoline_vpn() as usize,
                    );
                }
            },
            None => {
            },
        }
        let split_vpn: VirtPageNum = VirtAddr(split_addr).floor();
        let n: usize = user_space.areas.len();
        let mut k: usize = 0;
        while k < n
            invariant
                n == user_space.areas@.len(),
                k <= n,
                user_space.inv(*old(arena)),
                old(arena).free_frames() >= 1 + total_eager_pages(user_space.areas@, s_vpn),
                forall|q: int|
                    #[trigger] old(arena).contains_ppn(q) ==> old(arena).refs_of(q) < usize::MAX,
                s_vpn == split_page(split_addr as int),
                split_vpn.0 == spec_floor(split_addr as int),
                user_space.inv(*arena),
                memory_set.inv(*arena),
                memory_set.page_table.root_ppn == base_ms.page_table.root_ppn,
                arena.base == old(arena).base,
                arena.capacity == old(arena).capacity,
                arena.slots.len() >= old(arena).slots.len(),
                arena.free_frames() == old(arena).free_frames() - 1 - total_eager_pages(
                    user_space.areas@.take(k as int),
                    s_vpn,
                ),
                forall|q: int|
                    old(arena).is_live(q) ==> #[trigger] arena.refs_of(q) == old(arena).refs_of(q),
                forall|q: int|
                    #![trigger arena.data_of(q)]
                    old(arena).is_live(q) ==> arena.data_of(q) == old(arena).data_of(q),
                forall|q: int| old(arena).contains_ppn(q) ==> #[trigger] arena.contains_ppn(q),
                memory_set.areas@.len() == count_eager(user_space.areas@.take(k as int), s_vpn),
                user_space.page_table@.contains_key(trampoline_vpn() as usize)
                    ==> memory_set.page_table@.contains_key(trampoline_vpn() as usize)
                    && memory_set.page_table@[trampoline_vpn() as usize] == user_space.page_table@[trampoline_vpn() as usize],
                user_space.page_table@.contains_key(signal_trampoline_vpn() as usize)
                    ==> memory_set.page_table@.contains_key(signal_trampoline_vpn() as usize)
                    && memory_set.page_table@[signal_trampoline_vpn() as usize] == user_space.page_table@[signal_trampoline_vpn() as usize],
                forall|i: int, q: int|
                    0 <= i < memory_set.areas.len() && #[trigger] memory_set.areas@[i].owns_ppn(q)
                        ==> !old(arena).is_live(q),
                forall|j: int, v: usize|
                    0 <= j < k && user_space.areas@[j].vpn_range.start.0 >= s_vpn && user_space.areas@[j].map_type == MapType::Framed && #[trigger] user_space.areas@[
                    j].vpn_range.contains(v) ==> memory_set.page_table@.contains_key(v) && !old(arena).is_live(memory_set.page_table@[v].ppn.0 as int) && arena.data_of(
                        memory_set.page_table@[v].ppn.0 as int,
                    ) == old(arena).data_of(user_space.page_table@[v].ppn.0 as int),
                forall|j: int|
                    0 <= j < k && (#[trigger] user_space.areas@[j]).vpn_range.start.0 >= s_vpn
                        ==> 0 <= count_eager(user_space.areas@.take(j), s_vpn)
                        < memory_set.areas@.len() && memory_set.areas@[count_eager(
                        user_space.areas@.take(j),
                        s_vpn,
                    )].vpn_range == user_space.areas@[j].vpn_range && memory_set.areas@[
                    count_eager(user_space.areas@.take(j), s_vpn)].map_type == user_space.areas@[
                    j].map_type && memory_set.areas@[count_eager(
                        user_space.areas@.take(j),
                        s_vpn,
                    )].map_perm == user_space.areas@[j].map_perm,
            decreases n - k,
        {
            let eager: bool = split_addr != 0 && user_space.areas[k].vpn_range.get_start().0
                >= split_vpn.0;
            proof {
                assert(eager == (user_space.areas@[k as int].vpn_range.start.0 >= s_vpn));
            }
            if eager {
                let ghost pre_ms = memory_set;
                let ghost pre_arena = *arena;
                proof {
                    lemma_eager_take_step(user_space.areas@, s_vpn, k as int);
                    lemma_eager_take_le(user_space.areas@, s_vpn, k as int + 1);
                    assert(user_space.areas@[k as int].wf());
                    assert forall|i: int|
                        0 <= i < memory_set.areas.len() implies user_space.areas@[
                        k as int].vpn_range.disjoint(
                        (#[trigger] memory_set.areas@[i]).vpn_range,
                    ) by {
                        lemma_count_eager_surj(user_space.areas@, s_vpn, k as int, i);
                        let j = choose|j: int|
                            0 <= j < k && (#[trigger] user_space.areas@[j]).vpn_range.start.0
                                >= s_vpn && count_eager(user_space.areas@.take(j), s_vpn) == i;
                        assert(memory_set.areas@[i].vpn_range == user_space.areas@[j].vpn_range);
                        assert(user_space.areas@[k as int].vpn_range.disjoint(
                            user_space.areas@[j].vpn_range,
                        ));
                    }
                }
                memory_set.push_duplicated_area(arena, user_space, k);
                proof {
                    let last = memory_set.areas@.last();
                    assert(!user_space.areas@[k as int].vpn_range.contains(
                        trampoline_vpn() as usize,
                    ));
                    assert(!user_space.areas@[k as int].vpn_range.contains(
                        signal_trampoline_vpn() as usize,
                    ));
                    assert(memory_set.page_table@.contains_key(trampoline_vpn() as usize)
                        == pre_ms.page_table@.contains_key(trampoline_vpn() as usize));
                    assert(memory_set.page_table@.contains_key(signal_trampoline_vpn() as usize)
                        == pre_ms.page_table@.contains_key(signal_trampoline_vpn() as usize));
                    if pre_ms.page_table@.contains_key(trampoline_vpn() as usize) {
                        assert(memory_set.page_table@[trampoline_vpn() as usize]
                            == pre_ms.page_table@[trampoline_vpn() as usize]);
                    }
                    if pre_ms.page_table@.contains_key(signal_trampoline_vpn() as usize) {
                        assert(memory_set.page_table@[signal_trampoline_vpn() as usize]
                            == pre_ms.page_table@[signal_trampoline_vpn() as usize]);
                    }
                    assert forall|q: int|
                        old(arena).is_live(q) implies #[trigger] arena.refs_of(q) == old(arena).refs_of(q) by {
                        assert(pre_arena.is_live(q)) by {
                            assert(pre_arena.refs_of(q) == old(arena).refs_of(q));
                        }
                        assert(!last.owns_ppn(q));
                        assert(pre_arena.contains_ppn(q));
                        assert(arena.refs_of(q) == pre_arena.refs_of(q));
                    }
                    assert forall|q: int|
                        old(arena).is_live(q) implies #[trigger] arena.data_of(q) == old(arena).data_of(q) by {
                        assert(pre_arena.is_live(q)) by {
                            assert(pre_arena.refs_of(q) == old(arena).refs_of(q));
                        }
                        assert(!last.owns_ppn(q));
                        assert(pre_arena.contains_ppn(q));
                        assert(arena.refs_of(q) == pre_arena.refs_of(q));
                        assert(arena.data_of(q) == pre_arena.data_of(q));
                    }
                    lemma_inv_live_preserved(*user_space, pre_arena, *arena);
                    assert forall|j2: int, v: usize|
                        0 <= j2 < k + 1 && user_space.areas@[j2].vpn_range.start.0 >= s_vpn
                            && user_space.areas@[j2].map_type == MapType::Framed
                            && #[trigger] user_space.areas@[j2].vpn_range.contains(
                            v,
                        ) implies memory_set.page_table@.contains_key(v) && !old(arena).is_live(
                        memory_set.page_table@[v].ppn.0 as int,
                    ) && arena.data_of(memory_set.page_table@[v].ppn.0 as int) == old(arena).data_of(user_space.page_table@[v].ppn.0 as int) by {
                        if j2 == k as int {
                            assert(memory_set.page_table@.contains_key(v));
                            let np = memory_set.page_table@[v].ppn.0 as int;
                            assert(!pre_arena.is_live(np));
                            assert(!old(arena).is_live(np)) by {
                                if old(arena).is_live(np) {
                                    assert(pre_arena.refs_of(np) == old(arena).refs_of(np));
                                    assert(pre_arena.contains_ppn(np));
                                }
                            }
                            assert(arena.data_of(np) == pre_arena.data_of(
                                user_space.page_table@[v].ppn.0 as int,
                            ));
                            assert(old(arena).is_live(user_space.page_table@[v].ppn.0 as int))
                                by {
                                assert(user_space.areas@[j2].mapped_in(
                                    user_space.page_table@,
                                    *old(arena),
                                ));
                            }
                            assert(pre_arena.data_of(user_space.page_table@[v].ppn.0 as int)
                                == old(arena).data_of(user_space.page_table@[v].ppn.0 as int));
                        } else {
                            assert(user_space.areas@[j2].vpn_range.disjoint(
                                user_space.areas@[k as int].vpn_range,
                            ));
                            assert(!user_space.areas@[k as int].vpn_range.contains(v));
                            assert(pre_ms.page_table@.contains_key(v));
                            assert(memory_set.page_table@.contains_key(v));
                            assert(memory_set.page_table@[v] == pre_ms.page_table@[v]);
                            let np = pre_ms.page_table@[v].ppn.0 as int;
                            let a = count_eager(user_space.areas@.take(j2), s_vpn);
                            assert(0 <= a < pre_ms.areas@.len() && pre_ms.areas@[a].vpn_range
                                == user_space.areas@[j2].vpn_range);
                            assert(pre_ms.areas@[a].mapped_in(pre_ms.page_table@, pre_arena));
                            assert(pre_ms.areas@[a].vpn_range.contains(v));
                            assert(pre_arena.is_live(np));
                            assert(!last.owns_ppn(np));
                            assert(pre_arena.contains_ppn(np));
                            assert(arena.refs_of(np) == pre_arena.refs_of(np));
                            assert(arena.data_of(np) == pre_arena.data_of(np));
                        }
                    }
                    assert forall|j2: int|
                        0 <= j2 < k + 1 && (#[trigger] user_space.areas@[
                        j2]).vpn_range.start.0 >= s_vpn implies 0 <= count_eager(
                        user_space.areas@.take(j2),
                        s_vpn,
                    ) < memory_set.areas@.len() && memory_set.areas@[count_eager(
                        user_space.areas@.take(j2),
                        s_vpn,
                    )].vpn_range == user_space.areas@[j2].vpn_range && memory_set.areas@[
                    count_eager(user_space.areas@.take(j2), s_vpn)].map_type == user_space.areas@[
                    j2].map_type && memory_set.areas@[count_eager(
                        user_space.areas@.take(j2),
                        s_vpn,
                    )].map_perm == user_space.areas@[j2].map_perm by {
                        lemma_count_eager_mono(user_space.areas@, s_vpn, 0, j2);
                        assert(user_space.areas@.take(0) =~= Seq::<MapArea>::empty());
                        let a = count_eager(user_space.areas@.take(j2), s_vpn);
                        if j2 == k as int {
                            assert(a == pre_ms.areas@.len());
                            assert(memory_set.areas@[a] == memory_set.areas@.last());
                        } else {
                            lemma_count_eager_step(user_space.areas@, s_vpn, j2);
                            lemma_count_eager_mono(user_space.areas@, s_vpn, j2 + 1, k as int);
                            assert(a < pre_ms.areas@.len());
                            assert(memory_set.areas@[a] == pre_ms.areas@[a]);
                        }
                    }
                }
            }
            k = k + 1;
            proof {
                if !eager {
                    lemma_eager_take_step(user_space.areas@, s_vpn, k as int - 1);
                }
                lemma_count_eager_step(user_space.areas@, s_vpn, k as int - 1);
            }
        }
        proof {
            assert(user_space.areas@.take(n as int) =~= user_space.areas@);
        }
        memory_set
    }


    /// What pushing a shared copy of parent region `k` demands of the
    /// region ranges: the region is disjoint from every child region.
    #[verifier::rlimit(100)]
    #[verifier::spinoff_prover]
    proof fn lemma_share_prepare(
        parent0: MemorySet,
        eager_ms: MemorySet,
        s_vpn: int,
        eager_total: int,
        k: int,
        parent: MemorySet,
        child: MemorySet,
    )
        requires
            parent0.areas_disjoint(),
            eager_total == count_eager(parent0.areas@, s_vpn),
            eager_ms.areas@.len() == eager_total,
            forall|j: int|
                0 <= j < parent0.areas.len() && (#[trigger] parent0.areas@[j]).vpn_range.start.0
                    >= s_vpn ==> 0 <= count_eager(parent0.areas@.take(j), s_vpn) < eager_total
                    && eager_ms.areas@[count_eager(parent0.areas@.take(j), s_vpn)].vpn_range
                    == parent0.areas@[j].vpn_range,
            forall|i: int|
                0 <= i < eager_total ==> #[trigger] child.areas@[i] == eager_ms.areas@[i],
            forall|j: int|
                0 <= j < k && (#[trigger] parent0.areas@[j]).vpn_range.start.0 < s_vpn ==> {
                    let a = eager_total + j - count_eager(parent0.areas@.take(j), s_vpn);
                    &&& 0 <= a < child.areas@.len()
                    &&& child.areas@[a].vpn_range == parent0.areas@[j].vpn_range
                },
            child.areas@.len() == eager_total + (k - count_eager(parent0.areas@.take(k), s_vpn)),
            count_eager(parent0.areas@.take(k), s_vpn) <= k,
            0 <= k < parent0.areas.len(),
            parent0.areas@[k as int].vpn_range.start.0 < s_vpn,
            parent.areas == parent0.areas,
        ensures
            forall|i: int|
                0 <= i < child.areas.len() ==> parent.areas@[k as int].vpn_range.disjoint(
                    (#[trigger] child.areas@[i]).vpn_range,
                ),
    {
        let pk = parent0.areas@[k as int];
        assert forall|i: int|
            0 <= i < child.areas.len() implies pk.vpn_range.disjoint(
            (#[trigger] child.areas@[i]).vpn_range,
        ) by {
            assert(parent0.areas@.take(parent0.areas@.len() as int) =~= parent0.areas@);
            if i < eager_total {
                lemma_count_eager_surj(parent0.areas@, s_vpn, parent0.areas@.len() as int, i);
                let j = choose|j: int|
                    0 <= j < parent0.areas@.len() && (#[trigger] parent0.areas@[
                    j]).vpn_range.start.0 >= s_vpn && count_eager(
                        parent0.areas@.take(j),
                        s_vpn,
                    ) == i;
                assert(child.areas@[i] == eager_ms.areas@[i]);
                assert(child.areas@[i].vpn_range == parent0.areas@[
                    j].vpn_range);
                assert(j != k as int);
                assert(pk.vpn_range.disjoint(parent0.areas@[j].vpn_range));
            } else {
                lemma_count_cow_surj(parent0.areas@, s_vpn, k as int, i
                    - eager_total);
                let j = choose|j: int|
                    0 <= j < k && (#[trigger] parent0.areas@[
                    j]).vpn_range.start.0 < s_vpn && j - count_eager(
                        parent0.areas@.take(j),
                        s_vpn,
                    ) == i - eager_total;
                assert(child.areas@[i].vpn_range == parent0.areas@[
                    j].vpn_range);
                assert(j != k as int);
                assert(pk.vpn_range.disjoint(parent0.areas@[j].vpn_range));
            }
        }
    }

    /// What pushing a shared copy of parent region `k` demands of the
    /// frame handles: the child owns none of the region's frames.
    #[verifier::rlimit(100)]
    #[verifier::spinoff_prover]
    proof fn lemma_share_frames(
        parent0: MemorySet,
        arena0: FrameArena,
        eager_ms: MemorySet,
        eager_arena: FrameArena,
        s_vpn: int,
        eager_total: int,
        k: int,
        parent: MemorySet,
        child: MemorySet,
        arena: FrameArena,
    )
        requires
            fork_fixed_inv(parent0, arena0, eager_ms, eager_arena, s_vpn, eager_total),
            fork_step_inv(
                parent0,
                arena0,
                eager_ms,
                eager_arena,
                s_vpn,
                eager_total,
                k,
                parent,
                child,
                arena,
            ),
            0 <= k < parent0.areas.len(),
            parent0.areas@[k as int].vpn_range.start.0 < s_vpn,
        ensures
            forall|i: int, q: int|
                0 <= i < child.areas.len() && #[trigger] child.areas@[i].owns_ppn(q)
                    ==> !parent.areas@[k as int].owns_ppn(q),
    {
        reveal(fork_fixed_inv);
        reveal(fork_step_inv);
        let pk = parent0.areas@[k as int];
        assert forall|i: int, q: int|
            0 <= i < child.areas.len() && #[trigger] child.areas@[i].owns_ppn(
                q,
            ) implies !parent.areas@[k as int].owns_ppn(q) by {
            if parent.areas@[k as int].owns_ppn(q) {
                let w = choose|w: usize|
                    #[trigger] pk.data_frames@.contains_key(w) && pk.data_frames@[w].0 == q;
                assert(arena0.is_live(q)) by {
                    assert(pk.vpn_range.contains(w));
                    assert(parent0.page_table@[w].ppn == pk.data_frames@[w]);
                }
                let j = choose|j: int|
                    0 <= j < k && (#[trigger] parent0.areas@[j]).vpn_range.start.0 < s_vpn
                        && parent0.areas@[j].owns_ppn(q);
                let w2 = choose|w2: usize|
                    #[trigger] parent0.areas@[j].data_frames@.contains_key(w2)
                        && parent0.areas@[j].data_frames@[w2].0 == q;
                assert(parent0.areas@[j].data_frames@[w2] != pk.data_frames@[w]);
                assert(false);
            }
        }
    }

    /// What pushing a shared copy of parent region `k` demands of the
    /// reference counts: headroom on every frame of the region.
    #[verifier::rlimit(100)]
    #[verifier::spinoff_prover]
    proof fn lemma_share_headroom(
        parent0: MemorySet,
        arena0: FrameArena,
        eager_ms: MemorySet,
        eager_arena: FrameArena,
        s_vpn: int,
        eager_total: int,
        k: int,
        parent: MemorySet,
        child: MemorySet,
        arena: FrameArena,
    )
        requires
            fork_fixed_inv(parent0, arena0, eager_ms, eager_arena, s_vpn, eager_total),
            fork_step_inv(
                parent0,
                arena0,
                eager_ms,
                eager_arena,
                s_vpn,
                eager_total,
                k,
                parent,
                child,
                arena,
            ),
            0 <= k < parent0.areas.len(),
            parent0.areas@[k as int].vpn_range.start.0 < s_vpn,
        ensures
            forall|v: usize|
                #[trigger] parent.areas@[k as int].vpn_range.contains(v) ==> arena.refs_of(
                    parent.page_table@[v].ppn.0 as int,
                ) < usize::MAX,
    {
        reveal(fork_fixed_inv);
        reveal(fork_step_inv);
        let pk = parent0.areas@[k as int];
        assert forall|v: usize|
            #[trigger] parent.areas@[k as int].vpn_range.contains(v) implies arena.refs_of(parent.page_table@[v].ppn.0 as int) < usize::MAX by {
            assert(pk.vpn_range.contains(v));
            assert(!(exists|j: int|
                0 <= j < k && parent0.areas@[j].vpn_range.start.0 < s_vpn && (
                #[trigger] parent0.areas@[j].vpn_range.contains(v)))) by {
                if exists|j: int|
                    0 <= j < k && parent0.areas@[j].vpn_range.start.0 < s_vpn
                        && (#[trigger] parent0.areas@[j].vpn_range.contains(
                        v,
                    )) {
                    let j = choose|j: int|
                        0 <= j < k && parent0.areas@[j].vpn_range.start.0
                            < s_vpn && (#[trigger] parent0.areas@[j].vpn_range.contains(v));
                    assert(pk.vpn_range.disjoint(parent0.areas@[j].vpn_range));
                    assert(false);
                }
            }
            assert(parent.page_table@.contains_key(v));
            assert(parent.page_table@[v] == parent0.page_table@[v]);
            let p = parent0.page_table@[v].ppn.0 as int;
            assert(arena0.is_live(p)) by {
                assert(pk.data_frames@.contains_key(v));
            }
            assert(!(exists|j: int|
                0 <= j < k && (#[trigger] parent0.areas@[j]).vpn_range.start.0
                    < s_vpn && parent0.areas@[j].owns_ppn(p))) by {
                if exists|j: int|
                    0 <= j < k && (#[trigger] parent0.areas@[
                    j]).vpn_range.start.0 < s_vpn && parent0.areas@[
                    j].owns_ppn(p) {
                    let j = choose|j: int|
                        0 <= j < k && (#[trigger] parent0.areas@[
                        j]).vpn_range.start.0 < s_vpn && parent0.areas@[
                        j].owns_ppn(p);
                    let w = choose|w: usize|
                        #[trigger] parent0.areas@[j].data_frames@.contains_key(
                            w,
                        ) && parent0.areas@[j].data_frames@[w].0 == p;
                    assert(pk.data_frames@.contains_key(v));
                    assert(pk.data_frames@[v].0 == p);
                    assert(parent0.areas@[j].data_frames@[w] != pk.data_frames@[v]);
                    assert(false);
                }
            }
            assert(arena.refs_of(p) == arena0.refs_of(p));
            assert(arena0.contains_ppn(p));
        }
    }

    /// The framings of one sharing step: the eager prefix, its entries and
    /// every frame's bytes are kept.
    #[verifier::rlimit(100)]
    #[verifier::spinoff_prover]
    proof fn lemma_complete_frames(
        parent0: MemorySet,
        arena0: FrameArena,
        eager_ms: MemorySet,
        eager_arena: FrameArena,
        s_vpn: int,
        eager_total: int,
        k: int,
        pre_parent: MemorySet,
        parent: MemorySet,
        pre_child: MemorySet,
        child: MemorySet,
        pre_arena: FrameArena,
        arena: FrameArena,
    )
        requires
            fork_fixed_inv(parent0, arena0, eager_ms, eager_arena, s_vpn, eager_total),
            fork_step_inv(
                parent0,
                arena0,
                eager_ms,
                eager_arena,
                s_vpn,
                eager_total,
                k,
                pre_parent,
                pre_child,
                pre_arena,
            ),
            0 <= k < parent0.areas.len(),
            parent0.areas@[k as int].vpn_range.start.0 < s_vpn,
            child.inv(arena),
            parent.inv(arena),
            parent.areas == pre_parent.areas,
            parent.page_table.root_ppn == pre_parent.page_table.root_ppn,
            child.page_table.root_ppn == pre_child.page_table.root_ppn,
            child.areas@.len() == pre_child.areas@.len() + 1,
            forall|j: int|
                0 <= j < pre_child.areas@.len() ==> #[trigger] child.areas@[j] == pre_child.areas@[j],
            child.areas@.last().vpn_range == pre_parent.areas@[k].vpn_range,
            child.areas@.last().map_type == MapType::Framed,
            child.areas@.last().map_perm == pre_parent.areas@[k].map_perm,
            forall|v: usize|
                #[trigger] pre_parent.areas@[k].vpn_range.contains(v) ==> {
                    let p = pre_parent.page_table@[v].ppn;
                    &&& child.page_table@.contains_key(v)
                    &&& child.page_table@[v].ppn == p
                    &&& child.page_table@[v].flags == (PTEFlags {
                        w: false,
                        cow: true,
                        ..pre_parent.page_table@[v].flags
                    })
                    &&& parent.page_table@.contains_key(v)
                    &&& parent.page_table@[v].ppn == p
                    &&& parent.page_table@[v].flags == (PTEFlags {
                        w: false,
                        cow: true,
                        ..pre_parent.page_table@[v].flags
                    })
                    &&& arena.refs_of(p.0 as int) == pre_arena.refs_of(p.0 as int) + 1
                    &&& child.areas@.last().data_frames@.contains_key(v)
                    &&& child.areas@.last().data_frames@[v] == p
                },
            forall|v: usize|
                !pre_parent.areas@[k].vpn_range.contains(v) ==> (
                #[trigger] child.page_table@.contains_key(v) == pre_child.page_table@.contains_key(v))
                    && (pre_child.page_table@.contains_key(v) ==> child.page_table@[v]
                    == pre_child.page_table@[v]),
            forall|v: usize|
                !pre_parent.areas@[k].vpn_range.contains(v) ==> (
                #[trigger] parent.page_table@.contains_key(v) == pre_parent.page_table@.contains_key(
                    v,
                )) && (pre_parent.page_table@.contains_key(v) ==> parent.page_table@[v]
                    == pre_parent.page_table@[v]),
            arena.base == pre_arena.base,
            arena.capacity == pre_arena.capacity,
            arena.slots.len() == pre_arena.slots.len(),
            forall|q: int|
                pre_arena.contains_ppn(q) && !pre_parent.areas@[k].owns_ppn(q)
                    ==> #[trigger] arena.refs_of(q) == pre_arena.refs_of(q),
            forall|q: int|
                #![trigger arena.data_of(q)]
                pre_arena.contains_ppn(q) ==> arena.data_of(q) == pre_arena.data_of(q),
        ensures
            child.areas@.len() == eager_total + (k + 1 - count_eager(
                parent0.areas@.take(k + 1),
                s_vpn,
            )),
            count_eager(parent0.areas@.take(k + 1), s_vpn) <= k + 1,
            arena.base == arena0.base,
            arena.capacity == arena0.capacity,
            arena.slots.len() >= arena0.slots.len(),
            arena.slots.len() == eager_arena.slots.len(),
            arena.base == eager_arena.base,
            parent.areas == parent0.areas,
            parent.page_table.root_ppn == parent0.page_table.root_ppn,
            parent.inv(arena),
            child.inv(arena),
            forall|i: int|
                0 <= i < eager_total ==> #[trigger] child.areas@[i] == eager_ms.areas@[i],
            forall|v: usize|
                #[trigger] eager_ms.page_table@.contains_key(v)
                    ==> child.page_table@.contains_key(v) && child.page_table@[v]
                    == eager_ms.page_table@[v],
            forall|q: int|
                eager_arena.contains_ppn(q) ==> #[trigger] arena.data_of(q)
                    == eager_arena.data_of(q),
    {
        reveal(fork_fixed_inv);
        reveal(fork_step_inv);
        let pk = parent0.areas@[k as int];
        let last = child.areas@.last();
        lemma_count_eager_mono(parent0.areas@, s_vpn, 0, k);
        lemma_count_eager_step(parent0.areas@, s_vpn, k);
        assert(parent0.areas@.take(0) =~= Seq::<MapArea>::empty());
        let pre_parent_pt = pre_parent.page_table@;
        let parent_pt = parent.page_table@;
        let pre_child_pt = pre_child.page_table@;
        let child_pt = child.page_table@;
        assert forall|i: int|
            0 <= i < eager_total implies #[trigger] child.areas@[i]
            == eager_ms.areas@[i] by {
            assert(child.areas@[i] == pre_child.areas@[i]);
        }
        assert forall|v: usize|
            #[trigger] eager_ms.page_table@.contains_key(
                v,
            ) implies child_pt.contains_key(v)
            && child_pt[v] == eager_ms.page_table@[v] by {
            assert(!pk.vpn_range.contains(v)) by {
                if pk.vpn_range.contains(v) {
                    assert(0 <= (k) < parent0.areas@.len() && parent0.areas@[
                        k as int].vpn_range.start.0 < s_vpn && parent0.areas@[
                        k as int].vpn_range.contains(v));
                }
            }
            assert(pre_child_pt.contains_key(v));
            assert(child_pt.contains_key(v));
            assert(child_pt[v] == pre_child_pt[v]);
        }
        assert forall|q: int|
            eager_arena.contains_ppn(q) implies #[trigger] arena.data_of(q)
            == eager_arena.data_of(q) by {
            assert(pre_arena.contains_ppn(q));
            assert(arena.data_of(q) == pre_arena.data_of(q));
            assert(pre_arena.data_of(q) == eager_arena.data_of(q));
        }
    }

    /// The indexed region structure of one sharing step: each considered
    /// below-split parent region has its child region in place.
    #[verifier::rlimit(100)]
    #[verifier::spinoff_prover]
    proof fn lemma_complete_index(
        parent0: MemorySet,
        arena0: FrameArena,
        eager_ms: MemorySet,
        eager_arena: FrameArena,
        s_vpn: int,
        eager_total: int,
        k: int,
        pre_parent: MemorySet,
        parent: MemorySet,
        pre_child: MemorySet,
        child: MemorySet,
        pre_arena: FrameArena,
        arena: FrameArena,
    )
        requires
            fork_fixed_inv(parent0, arena0, eager_ms, eager_arena, s_vpn, eager_total),
            fork_step_inv(
                parent0,
                arena0,
                eager_ms,
                eager_arena,
                s_vpn,
                eager_total,
                k,
                pre_parent,
                pre_child,
                pre_arena,
            ),
            0 <= k < parent0.areas.len(),
            parent0.areas@[k as int].vpn_range.start.0 < s_vpn,
            child.inv(arena),
            parent.inv(arena),
            parent.areas == pre_parent.areas,
            parent.page_table.root_ppn == pre_parent.page_table.root_ppn,
            child.page_table.root_ppn == pre_child.page_table.root_ppn,
            child.areas@.len() == pre_child.areas@.len() + 1,
            forall|j: int|
                0 <= j < pre_child.areas@.len() ==> #[trigger] child.areas@[j] == pre_child.areas@[j],
            child.areas@.last().vpn_range == pre_parent.areas@[k].vpn_range,
            child.areas@.last().map_type == MapType::Framed,
            child.areas@.last().map_perm == pre_parent.areas@[k].map_perm,
            forall|v: usize|
                #[trigger] pre_parent.areas@[k].vpn_range.contains(v) ==> {
                    let p = pre_parent.page_table@[v].ppn;
                    &&& child.page_table@.contains_key(v)
                    &&& child.page_table@[v].ppn == p
                    &&& child.page_table@[v].flags == (PTEFlags {
                        w: false,
                        cow: true,
                        ..pre_parent.page_table@[v].flags
                    })
                    &&& parent.page_table@.contains_key(v)
                    &&& parent.page_table@[v].ppn == p
                    &&& parent.page_table@[v].flags == (PTEFlags {
                        w: false,
                        cow: true,
                        ..pre_parent.page_table@[v].flags
                    })
                    &&& arena.refs_of(p.0 as int) == pre_arena.refs_of(p.0 as int) + 1
                    &&& child.areas@.last().data_frames@.contains_key(v)
                    &&& child.areas@.last().data_frames@[v] == p
                },
            forall|v: usize|
                !pre_parent.areas@[k].vpn_range.contains(v) ==> (
                #[trigger] child.page_table@.contains_key(v) == pre_child.page_table@.contains_key(v))
                    && (pre_child.page_table@.contains_key(v) ==> child.page_table@[v]
                    == pre_child.page_table@[v]),
            forall|v: usize|
                !pre_parent.areas@[k].vpn_range.contains(v) ==> (
                #[trigger] parent.page_table@.contains_key(v) == pre_parent.page_table@.contains_key(
                    v,
                )) && (pre_parent.page_table@.contains_key(v) ==> parent.page_table@[v]
                    == pre_parent.page_table@[v]),
            arena.base == pre_arena.base,
            arena.capacity == pre_arena.capacity,
            arena.slots.len() == pre_arena.slots.len(),
            forall|q: int|
                pre_arena.contains_ppn(q) && !pre_parent.areas@[k].owns_ppn(q)
                    ==> #[trigger] arena.refs_of(q) == pre_arena.refs_of(q),
            forall|q: int|
                #![trigger arena.data_of(q)]
                pre_arena.contains_ppn(q) ==> arena.data_of(q) == pre_arena.data_of(q),
        ensures
            forall|j: int|
                0 <= j < k + 1 && (#[trigger] parent0.areas@[j]).vpn_range.start.0 < s_vpn ==> {
                    let a = eager_total + j - count_eager(parent0.areas@.take(j), s_vpn);
                    &&& 0 <= a < child.areas@.len()
                    &&& child.areas@[a].vpn_range == parent0.areas@[j].vpn_range
                    &&& child.areas@[a].map_type == MapType::Framed
                    &&& child.areas@[a].map_perm == parent0.areas@[j].map_perm
                },
    {
        reveal(fork_fixed_inv);
        reveal(fork_step_inv);
        let pk = parent0.areas@[k as int];
        let last = child.areas@.last();
        lemma_count_eager_mono(parent0.areas@, s_vpn, 0, k);
        lemma_count_eager_step(parent0.areas@, s_vpn, k);
        assert(parent0.areas@.take(0) =~= Seq::<MapArea>::empty());
        let pre_parent_pt = pre_parent.page_table@;
        let parent_pt = parent.page_table@;
        let pre_child_pt = pre_child.page_table@;
        let child_pt = child.page_table@;
        assert forall|j: int|
            0 <= j < k + 1 && (#[trigger] parent0.areas@[
            j]).vpn_range.start.0 < s_vpn implies {
            let a = eager_total + j - count_eager(
                parent0.areas@.take(j),
                s_vpn,
            );
            &&& 0 <= a < child.areas@.len()
            &&& child.areas@[a].vpn_range == parent0.areas@[j].vpn_range
            &&& child.areas@[a].map_type == MapType::Framed
            &&& child.areas@[a].map_perm == parent0.areas@[j].map_perm
        } by {
            lemma_count_eager_mono(parent0.areas@, s_vpn, 0, j);
            assert(parent0.areas@.take(0) =~= Seq::<MapArea>::empty());
        let pre_parent_pt = pre_parent.page_table@;
        let parent_pt = parent.page_table@;
        let pre_child_pt = pre_child.page_table@;
        let child_pt = child.page_table@;
            let a = eager_total + j - count_eager(
                parent0.areas@.take(j),
                s_vpn,
            );
            if j == k as int {
                assert(a == pre_child.areas@.len());
                assert(child.areas@[a] == last);
            } else {
                lemma_count_eager_step(parent0.areas@, s_vpn, j);
                lemma_count_eager_lipschitz(
                    parent0.areas@,
                    s_vpn,
                    j + 1,
                    k,
                );
                assert(a < pre_child.areas@.len());
                assert(child.areas@[a] == pre_child.areas@[a]);
            }
        }
    }

    /// The frame-provenance of one sharing step: every frame a child region
    /// owns is either fresh or a shared below-split parent frame.
    #[verifier::rlimit(100)]
    #[verifier::spinoff_prover]
    proof fn lemma_complete_owns(
        parent0: MemorySet,
        arena0: FrameArena,
        eager_ms: MemorySet,
        eager_arena: FrameArena,
        s_vpn: int,
        eager_total: int,
        k: int,
        pre_parent: MemorySet,
        parent: MemorySet,
        pre_child: MemorySet,
        child: MemorySet,
        pre_arena: FrameArena,
        arena: FrameArena,
    )
        requires
            0 <= k < parent0.areas.len(),
            parent0.areas@[k as int].vpn_range.start.0 < s_vpn,
            parent0.areas@[k as int].wf(),
            parent0.areas@[k as int].map_type == MapType::Framed,
            parent0.areas@[k as int].mapped_in(parent0.page_table@, arena0),
            forall|i: int, q: int|
                0 <= i < pre_child.areas.len() && #[trigger] pre_child.areas@[i].owns_ppn(q)
                    ==> !arena0.is_live(q) || (exists|j: int|
                    0 <= j < k && (#[trigger] parent0.areas@[j]).vpn_range.start.0 < s_vpn
                        && parent0.areas@[j].owns_ppn(q)),
            child.areas@.len() == pre_child.areas@.len() + 1,
            forall|j: int|
                0 <= j < pre_child.areas@.len() ==> #[trigger] child.areas@[j] == pre_child.areas@[
                j],
            child.areas@.last().vpn_range == pre_parent.areas@[k].vpn_range,
            child.areas@.last().wf(),
            pre_parent.areas == parent0.areas,
            forall|v: usize|
                #[trigger] pre_parent.areas@[k].vpn_range.contains(v)
                    ==> child.areas@.last().data_frames@.contains_key(v)
                    && child.areas@.last().data_frames@[v] == pre_parent.page_table@[v].ppn,
            forall|v: usize|
                !(exists|j: int|
                    0 <= j < k && parent0.areas@[j].vpn_range.start.0 < s_vpn && (
                    #[trigger] parent0.areas@[j].vpn_range.contains(v))) ==> (
                #[trigger] pre_parent.page_table@.contains_key(v)
                    == parent0.page_table@.contains_key(v)) && (parent0.page_table@.contains_key(
                    v,
                ) ==> pre_parent.page_table@[v] == parent0.page_table@[v]),
            parent0.areas_disjoint(),
        ensures
            forall|i: int, q: int|
                0 <= i < child.areas.len() && #[trigger] child.areas@[i].owns_ppn(q)
                    ==> !arena0.is_live(q) || (exists|j: int|
                    0 <= j < k + 1 && (#[trigger] parent0.areas@[j]).vpn_range.start.0 < s_vpn
                        && parent0.areas@[j].owns_ppn(q)),
    {
        let pk = parent0.areas@[k as int];
        let last = child.areas@.last();
        assert forall|i: int, q: int|
            0 <= i < child.areas.len() && #[trigger] child.areas@[i].owns_ppn(
                q,
            ) implies !arena0.is_live(q) || (exists|j: int|
                0 <= j < k + 1 && (#[trigger] parent0.areas@[
                j]).vpn_range.start.0 < s_vpn && parent0.areas@[j].owns_ppn(
                q,
            )) by {
            if i < pre_child.areas.len() {
                assert(child.areas@[i] == pre_child.areas@[i]);
                assert(pre_child.areas@[i].owns_ppn(q));
            } else {
                assert(child.areas@[i] == last);
                if last.owns_ppn(q) {
                    let w = choose|w: usize|
                        #[trigger] last.data_frames@.contains_key(w)
                            && last.data_frames@[w].0 == q;
                    assert(last.vpn_range.contains(w));
                    assert(pk.vpn_range.contains(w));
                    assert(!(exists|j: int|
                        0 <= j < k && parent0.areas@[j].vpn_range.start.0 < s_vpn && (
                        #[trigger] parent0.areas@[j].vpn_range.contains(w)))) by {
                        if exists|j: int|
                            0 <= j < k && parent0.areas@[j].vpn_range.start.0 < s_vpn && (
                            #[trigger] parent0.areas@[j].vpn_range.contains(w)) {
                            let j = choose|j: int|
                                0 <= j < k && parent0.areas@[j].vpn_range.start.0 < s_vpn && (
                                #[trigger] parent0.areas@[j].vpn_range.contains(w));
                            assert(pk.vpn_range.disjoint(parent0.areas@[j].vpn_range));
                            assert(false);
                        }
                    }
                    assert(pk.mapped_in(parent0.page_table@, arena0));
                    assert(parent0.page_table@.contains_key(w));
                    assert(pre_parent.page_table@.contains_key(w));
                    assert(pre_parent.page_table@[w] == parent0.page_table@[w]);
                    assert(last.data_frames@[w] == parent0.page_table@[w].ppn);
                    assert(pk.data_frames@.contains_key(w));
                    assert(pk.data_frames@[w] == parent0.page_table@[w].ppn);
                    assert(pk.owns_ppn(q));
                    assert(0 <= (k) < k + 1 && parent0.areas@[
                        k as int].vpn_range.start.0 < s_vpn && parent0.areas@[
                        k as int].owns_ppn(q));
                }
            }
        }
    }

    /// The parent-side framing of one sharing step: entries and counts
    /// outside the considered regions are untouched.
    #[verifier::rlimit(100)]
    #[verifier::spinoff_prover]
    proof fn lemma_complete_parent(
        parent0: MemorySet,
        arena0: FrameArena,
        eager_ms: MemorySet,
        eager_arena: FrameArena,
        s_vpn: int,
        eager_total: int,
        k: int,
        pre_parent: MemorySet,
        parent: MemorySet,
        pre_child: MemorySet,
        child: MemorySet,
        pre_arena: FrameArena,
        arena: FrameArena,
    )
        requires
            fork_fixed_inv(parent0, arena0, eager_ms, eager_arena, s_vpn, eager_total),
            fork_step_inv(
                parent0,
                arena0,
                eager_ms,
                eager_arena,
                s_vpn,
                eager_total,
                k,
                pre_parent,
                pre_child,
                pre_arena,
            ),
            0 <= k < parent0.areas.len(),
            parent0.areas@[k as int].vpn_range.start.0 < s_vpn,
            child.inv(arena),
            parent.inv(arena),
            parent.areas == pre_parent.areas,
            parent.page_table.root_ppn == pre_parent.page_table.root_ppn,
            child.page_table.root_ppn == pre_child.page_table.root_ppn,
            child.areas@.len() == pre_child.areas@.len() + 1,
            forall|j: int|
                0 <= j < pre_child.areas@.len() ==> #[trigger] child.areas@[j] == pre_child.areas@[j],
            child.areas@.last().vpn_range == pre_parent.areas@[k].vpn_range,
            child.areas@.last().map_type == MapType::Framed,
            child.areas@.last().map_perm == pre_parent.areas@[k].map_perm,
            forall|v: usize|
                #[trigger] pre_parent.areas@[k].vpn_range.contains(v) ==> {
                    let p = pre_parent.page_table@[v].ppn;
                    &&& child.page_table@.contains_key(v)
                    &&& child.page_table@[v].ppn == p
                    &&& child.page_table@[v].flags == (PTEFlags {
                        w: false,
                        cow: true,
                        ..pre_parent.page_table@[v].flags
                    })
                    &&& parent.page_table@.contains_key(v)
                    &&& parent.page_table@[v].ppn == p
                    &&& parent.page_table@[v].flags == (PTEFlags {
                        w: false,
                        cow: true,
                        ..pre_parent.page_table@[v].flags
                    })
                    &&& arena.refs_of(p.0 as int) == pre_arena.refs_of(p.0 as int) + 1
                    &&& child.areas@.last().data_frames@.contains_key(v)
                    &&& child.areas@.last().data_frames@[v] == p
                },
            forall|v: usize|
                !pre_parent.areas@[k].vpn_range.contains(v) ==> (
                #[trigger] child.page_table@.contains_key(v) == pre_child.page_table@.contains_key(v))
                    && (pre_child.page_table@.contains_key(v) ==> child.page_table@[v]
                    == pre_child.page_table@[v]),
            forall|v: usize|
                !pre_parent.areas@[k].vpn_range.contains(v) ==> (
                #[trigger] parent.page_table@.contains_key(v) == pre_parent.page_table@.contains_key(
                    v,
                )) && (pre_parent.page_table@.contains_key(v) ==> parent.page_table@[v]
                    == pre_parent.page_table@[v]),
            arena.base == pre_arena.base,
            arena.capacity == pre_arena.capacity,
            arena.slots.len() == pre_arena.slots.len(),
            forall|q: int|
                pre_arena.contains_ppn(q) && !pre_parent.areas@[k].owns_ppn(q)
                    ==> #[trigger] arena.refs_of(q) == pre_arena.refs_of(q),
            forall|q: int|
                #![trigger arena.data_of(q)]
                pre_arena.contains_ppn(q) ==> arena.data_of(q) == pre_arena.data_of(q),
        ensures
            forall|v: usize|
                !(exists|j: int|
                    0 <= j < k + 1 && parent0.areas@[j].vpn_range.start.0 < s_vpn && (
                    #[trigger] parent0.areas@[j].vpn_range.contains(v))) ==> (
                #[trigger] parent.page_table@.contains_key(v) == parent0.page_table@.contains_key(
                    v,
                )) && (parent0.page_table@.contains_key(v) ==> parent.page_table@[v]
                    == parent0.page_table@[v]),
            forall|q: int|
                arena0.is_live(q) && !(exists|j: int|
                    0 <= j < k + 1 && (#[trigger] parent0.areas@[j]).vpn_range.start.0 < s_vpn
                        && parent0.areas@[j].owns_ppn(q)) ==> #[trigger] arena.refs_of(q)
                    == arena0.refs_of(q),
    {
        reveal(fork_fixed_inv);
        reveal(fork_step_inv);
        let pk = parent0.areas@[k as int];
        let last = child.areas@.last();
        lemma_count_eager_mono(parent0.areas@, s_vpn, 0, k);
        lemma_count_eager_step(parent0.areas@, s_vpn, k);
        assert(parent0.areas@.take(0) =~= Seq::<MapArea>::empty());
        let pre_parent_pt = pre_parent.page_table@;
        let parent_pt = parent.page_table@;
        let pre_child_pt = pre_child.page_table@;
        let child_pt = child.page_table@;
        assert forall|v: usize|
            !(exists|j: int|
                0 <= j < k + 1 && parent0.areas@[j].vpn_range.start.0 < s_vpn
                    && (#[trigger] parent0.areas@[j].vpn_range.contains(
                    v,
                ))) implies (#[trigger] parent_pt.contains_key(v) == parent0.page_table@.contains_key(v)) && (parent0.page_table@.contains_key(v) ==> parent_pt[v] == parent0.page_table@[v]) by {
            assert(!pk.vpn_range.contains(v)) by {
                if pk.vpn_range.contains(v) {
                    assert(0 <= (k) < k + 1 && parent0.areas@[
                        k as int].vpn_range.start.0 < s_vpn && parent0.areas@[
                        k as int].vpn_range.contains(v));
                }
            }
            assert(!(exists|j: int|
                0 <= j < k && parent0.areas@[j].vpn_range.start.0 < s_vpn && (
                #[trigger] parent0.areas@[j].vpn_range.contains(v)))) by {
                if exists|j: int|
                    0 <= j < k && parent0.areas@[j].vpn_range.start.0 < s_vpn
                        && (#[trigger] parent0.areas@[j].vpn_range.contains(
                        v,
                    )) {
                    let j = choose|j: int|
                        0 <= j < k && parent0.areas@[j].vpn_range.start.0
                            < s_vpn && (#[trigger] parent0.areas@[
                        j].vpn_range.contains(v));
                    assert(0 <= j < k + 1 && parent0.areas@[
                        j].vpn_range.start.0 < s_vpn && parent0.areas@[
                        j].vpn_range.contains(v));
                    assert(false);
                }
            }
            assert(parent_pt.contains_key(v)
                == pre_parent_pt.contains_key(v));
            assert(pre_parent_pt.contains_key(v)
                == parent0.page_table@.contains_key(v));
            if parent0.page_table@.contains_key(v) {
                assert(parent_pt[v] == pre_parent_pt[v]);
                assert(pre_parent_pt[v] == parent0.page_table@[v]);
            }
        }
        assert forall|q: int|
            arena0.is_live(q) && !(exists|j: int|
                0 <= j < k + 1 && (#[trigger] parent0.areas@[
                j]).vpn_range.start.0 < s_vpn && parent0.areas@[j].owns_ppn(
                q,
            )) implies #[trigger] arena.refs_of(q) == arena0.refs_of(q) by {
            assert(!pk.owns_ppn(q)) by {
                if pk.owns_ppn(q) {
                    assert(0 <= (k) < k + 1 && parent0.areas@[
                        k as int].vpn_range.start.0 < s_vpn && parent0.areas@[
                        k as int].owns_ppn(q));
                }
            }
            assert(!(exists|j: int|
                0 <= j < k && (#[trigger] parent0.areas@[j]).vpn_range.start.0
                    < s_vpn && parent0.areas@[j].owns_ppn(q))) by {
                if exists|j: int|
                    0 <= j < k && (#[trigger] parent0.areas@[
                    j]).vpn_range.start.0 < s_vpn && parent0.areas@[
                    j].owns_ppn(q) {
                    let j = choose|j: int|
                        0 <= j < k && (#[trigger] parent0.areas@[
                        j]).vpn_range.start.0 < s_vpn && parent0.areas@[
                        j].owns_ppn(q);
                    assert(0 <= j < k + 1 && parent0.areas@[
                        j].vpn_range.start.0 < s_vpn && parent0.areas@[
                        j].owns_ppn(q));
                    assert(false);
                }
            }
            assert(arena.refs_of(q) == pre_arena.refs_of(q));
            assert(pre_arena.refs_of(q) == arena0.refs_of(q));
        }
    }



    /// Carry the fork bookkeeping across one sharing step, from the raw
    /// facts the page-table update leaves behind.
    #[verifier::rlimit(100)]
    #[verifier::spinoff_prover]
    proof fn lemma_share_finish(
        parent0: MemorySet,
        arena0: FrameArena,
        eager_ms: MemorySet,
        eager_arena: FrameArena,
        s: int,
        eager_total: int,
        k: int,
        pre_parent: MemorySet,
        parent: MemorySet,
        pre_ms: MemorySet,
        child: MemorySet,
        pre_arena: FrameArena,
        arena: FrameArena,
    )
        requires
            fork_fixed_inv(parent0, arena0, eager_ms, eager_arena, s, eager_total),
            fork_step_inv(
                parent0,
                arena0,
                eager_ms,
                eager_arena,
                s,
                eager_total,
                k,
                pre_parent,
                pre_ms,
                pre_arena,
            ),
            0 <= k < parent0.areas.len(),
            parent0.areas@[k].vpn_range.start.0 < s,
            pre_parent.areas == parent0.areas,
            child.inv(arena),
            parent.inv(arena),
            parent.areas == pre_parent.areas,
            parent.page_table.root_ppn == pre_parent.page_table.root_ppn,
            child.page_table.root_ppn == pre_ms.page_table.root_ppn,
            child.areas@.len() == pre_ms.areas@.len() + 1,
            forall|j: int|
                0 <= j < pre_ms.areas@.len() ==> #[trigger] child.areas@[j] == pre_ms.areas@[j],
            child.areas@.last().vpn_range == pre_parent.areas@[k].vpn_range,
            child.areas@.last().map_type == MapType::Framed,
            child.areas@.last().map_perm == pre_parent.areas@[k].map_perm,
            forall|v: usize|
                #[trigger] pre_parent.areas@[k].vpn_range.contains(v) ==> {
                    let p = pre_parent.page_table@[v].ppn;
                    &&& child.page_table@.contains_key(v)
                    &&& child.page_table@[v].ppn == p
                    &&& child.page_table@[v].flags == (PTEFlags {
                        w: false,
                        cow: true,
                        ..pre_parent.page_table@[v].flags
                    })
                    &&& parent.page_table@.contains_key(v)
                    &&& parent.page_table@[v].ppn == p
                    &&& parent.page_table@[v].flags == (PTEFlags {
                        w: false,
                        cow: true,
                        ..pre_parent.page_table@[v].flags
                    })
                    &&& arena.refs_of(p.0 as int) == pre_arena.refs_of(p.0 as int) + 1
                    &&& child.areas@.last().data_frames@.contains_key(v)
                    &&& child.areas@.last().data_frames@[v] == p
                },
            forall|v: usize|
                !pre_parent.areas@[k].vpn_range.contains(v) ==> (#[trigger] child.page_table@.contains_key(v) == pre_ms.page_table@.contains_key(v)) && (pre_ms.page_table@.contains_key(v) ==> child.page_table@[v] == pre_ms.page_table@[v]),
            forall|v: usize|
                !pre_parent.areas@[k].vpn_range.contains(v) ==> (#[trigger] parent.page_table@.contains_key(v) == pre_parent.page_table@.contains_key(v)) && (pre_parent.page_table@.contains_key(v) ==> parent.page_table@[v] == pre_parent.page_table@[v]),
            arena.base == pre_arena.base,
            arena.capacity == pre_arena.capacity,
            arena.slots.len() == pre_arena.slots.len(),
            arena.free_frames() == pre_arena.free_frames(),
            forall|q: int|
                pre_arena.contains_ppn(q) && !pre_parent.areas@[k].owns_ppn(q)
                    ==> #[trigger] arena.refs_of(q) == pre_arena.refs_of(q),
            forall|q: int|
                #![trigger arena.data_of(q)]
                pre_arena.contains_ppn(q) ==> arena.data_of(q) == pre_arena.data_of(q),
            forall|q: int| pre_arena.is_live(q) ==> #[trigger] arena.is_live(q),
        ensures
            fork_step_inv(
                parent0,
                arena0,
                eager_ms,
                eager_arena,
                s,
                eager_total,
                k + 1,
                parent,
                child,
                arena,
            ),
    {
        lemma_unpack_fork_inv(
            parent0,
            arena0,
            eager_ms,
            eager_arena,
            s,
            eager_total,
            k,
            pre_parent,
            pre_ms,
            pre_arena,
        );
        lemma_cow_share_step(
            parent0,
            arena0,
            pre_parent.page_table@,
            parent.page_table@,
            pre_ms.page_table@,
            child.page_table@,
            pre_arena,
            arena,
            s,
            k,
        );
        Self::lemma_complete_frames(
            parent0,
            arena0,
            eager_ms,
            eager_arena,
            s,
            eager_total,
            k,
            pre_parent,
            parent,
            pre_ms,
            child,
            pre_arena,
            arena,
        );
        Self::lemma_complete_index(
            parent0,
            arena0,
            eager_ms,
            eager_arena,
            s,
            eager_total,
            k,
            pre_parent,
            parent,
            pre_ms,
            child,
            pre_arena,
            arena,
        );
        assert(child.areas@[child.areas@.len() - 1].wf());
        assert(child.areas@.last().wf());
        assert(parent0.areas@[k].wf());
        assert(parent0.areas@[k].mapped_in(parent0.page_table@, arena0));
        Self::lemma_complete_owns(
            parent0,
            arena0,
            eager_ms,
            eager_arena,
            s,
            eager_total,
            k,
            pre_parent,
            parent,
            pre_ms,
            child,
            pre_arena,
            arena,
        );
        Self::lemma_complete_parent(
            parent0,
            arena0,
            eager_ms,
            eager_arena,
            s,
            eager_total,
            k,
            pre_parent,
            parent,
            pre_ms,
            child,
            pre_arena,
            arena,
        );
        lemma_pack_fork_inv(
            parent0,
            arena0,
            eager_ms,
            eager_arena,
            s,
            eager_total,
            k,
            parent,
            child,
            arena,
        );
    }

    /// Mark one parent region's pages shared in both spaces, having first
    /// re-derived what the page-table update demands from the fork
    /// bookkeeping.
    #[verifier::rlimit(100)]
    #[verifier::spinoff_prover]
    fn push_cow_shared(
        &mut self,
        arena: &mut FrameArena,
        parent: &mut MemorySet,
        k: usize,
        Ghost(parent0): Ghost<MemorySet>,
        Ghost(arena0): Ghost<FrameArena>,
        Ghost(eager_ms): Ghost<MemorySet>,
        Ghost(eager_arena): Ghost<FrameArena>,
        Ghost(s_vpn): Ghost<int>,
        Ghost(eager_total): Ghost<int>,
    )
        requires
            fork_fixed_inv(parent0, arena0, eager_ms, eager_arena, s_vpn, eager_total),
            fork_step_inv(
                parent0,
                arena0,
                eager_ms,
                eager_arena,
                s_vpn,
                eager_total,
                k as int,
                *old(parent),
                *old(self),
                *old(arena),
            ),
            0 <= (k as int) < parent0.areas.len(),
            parent0.areas@[k as int].vpn_range.start.0 < s_vpn,
            old(parent).areas == parent0.areas,
        ensures
            final(self).inv(*final(arena)),
            final(parent).inv(*final(arena)),
            final(parent).areas == old(parent).areas,
            final(parent).page_table.root_ppn == old(parent).page_table.root_ppn,
            final(self).page_table.root_ppn == old(self).page_table.root_ppn,
            final(self).areas@.len() == old(self).areas@.len() + 1,
            forall|j: int|
                0 <= j < old(self).areas@.len() ==> #[trigger] final(self).areas@[j] == old(self).areas@[j],
            final(self).areas@.last().vpn_range == old(parent).areas@[k as int].vpn_range,
            final(self).areas@.last().map_type == MapType::Framed,
            final(self).areas@.last().map_perm == old(parent).areas@[k as int].map_perm,
            forall|v: usize|
                #[trigger] old(parent).areas@[k as int].vpn_range.contains(v) ==> {
                    let p = old(parent).page_table@[v].ppn;
                    &&& final(self).page_table@.contains_key(v)
                    &&& final(self).page_table@[v].ppn == p
                    &&& final(self).page_table@[v].flags == (PTEFlags {
                        w: false,
                        cow: true,
                        ..old(parent).page_table@[v].flags
                    })
                    &&& final(parent).page_table@.contains_key(v)
                    &&& final(parent).page_table@[v].ppn == p
                    &&& final(parent).page_table@[v].flags == (PTEFlags {
                        w: false,
                        cow: true,
                        ..old(parent).page_table@[v].flags
                    })
                    &&& final(arena).refs_of(p.0 as int) == old(arena).refs_of(p.0 as int) + 1
                    &&& final(self).areas@.last().data_frames@.contains_key(v)
                    &&& final(self).areas@.last().data_frames@[v] == p
                },
            forall|v: usize|
                !old(parent).areas@[k as int].vpn_range.contains(v) ==> (#[trigger] final(self).page_table@.contains_key(v) == old(self).page_table@.contains_key(v)) && (old(self).page_table@.contains_key(v) ==> final(self).page_table@[v] == old(self).page_table@[v]),
            forall|v: usize|
                !old(parent).areas@[k as int].vpn_range.contains(v) ==> (#[trigger] final(parent).page_table@.contains_key(v) == old(parent).page_table@.contains_key(v)) && (old(parent).page_table@.contains_key(v) ==> final(parent).page_table@[v] == old(parent).page_table@[v]),
            final(arena).base == old(arena).base,
            final(arena).capacity == old(arena).capacity,
            final(arena).slots.len() == old(arena).slots.len(),
            final(arena).free_frames() == old(arena).free_frames(),
            forall|q: int|
                old(arena).contains_ppn(q) && !old(parent).areas@[k as int].owns_ppn(q)
                    ==> #[trigger] final(arena).refs_of(q) == old(arena).refs_of(q),
            forall|q: int|
                #![trigger final(arena).data_of(q)]
                old(arena).contains_ppn(q) ==> final(arena).data_of(q) == old(arena).data_of(q),
            forall|q: int| old(arena).is_live(q) ==> #[trigger] final(arena).is_live(q),
    {
        proof {
            lemma_unpack_fork_inv(
                parent0,
                arena0,
                eager_ms,
                eager_arena,
                s_vpn,
                eager_total,
                k as int,
                *parent,
                *self,
                *arena,
            );
            Self::lemma_share_prepare(
                parent0,
                eager_ms,
                s_vpn,
                eager_total,
                k as int,
                *parent,
                *self,
            );
            Self::lemma_share_headroom(
                parent0,
                arena0,
                eager_ms,
                eager_arena,
                s_vpn,
                eager_total,
                k as int,
                *parent,
                *self,
                *arena,
            );
            Self::lemma_share_frames(
                parent0,
                arena0,
                eager_ms,
                eager_arena,
                s_vpn,
                eager_total,
                k as int,
                *parent,
                *self,
                *arena,
            );
        }
        self.push_cow_area(arena, parent, k);
    }

    /// Share one more parent region into the child during a
    /// copy-on-write fork, carrying the fork's bookkeeping across the
    /// step.
    #[verifier::rlimit(100)]
    #[verifier::spinoff_prover]
    fn share_cow_area(
        &mut self,
        arena: &mut FrameArena,
        parent: &mut MemorySet,
        k: usize,
        Ghost(parent0): Ghost<MemorySet>,
        Ghost(arena0): Ghost<FrameArena>,
        Ghost(eager_ms): Ghost<MemorySet>,
        Ghost(eager_arena): Ghost<FrameArena>,
        Ghost(s_vpn): Ghost<int>,
        Ghost(eager_total): Ghost<int>,
    )
        requires
            fork_fixed_inv(parent0, arena0, eager_ms, eager_arena, s_vpn, eager_total),
            fork_step_inv(
                parent0,
                arena0,
                eager_ms,
                eager_arena,
                s_vpn,
                eager_total,
                k as int,
                *old(parent),
                *old(self),
                *old(arena),
            ),
            0 <= (k as int) < parent0.areas.len(),
            parent0.areas@[k as int].vpn_range.start.0 < s_vpn,
            old(parent).areas == parent0.areas,
        ensures
            fork_step_inv(
                parent0,
                arena0,
                eager_ms,
                eager_arena,
                s_vpn,
                eager_total,
                k as int + 1,
                *final(parent),
                *final(self),
                *final(arena),
            ),
    {
        let ghost pre_ms = *self;
        let ghost pre_parent = *parent;
        let ghost pre_arena = *arena;
        self.push_cow_shared(
            arena,
            parent,
            k,
            Ghost(parent0),
            Ghost(arena0),
            Ghost(eager_ms),
            Ghost(eager_arena),
            Ghost(s_vpn),
            Ghost(eager_total),
        );
        proof {
            Self::lemma_share_finish(
                parent0,
                arena0,
                eager_ms,
                eager_arena,
                s_vpn,
                eager_total,
                k as int,
                pre_parent,
                *parent,
                pre_ms,
                *self,
                pre_arena,
                *arena,
            );
        }
    }

    /// Passing over a region at or above the split leaves the fork
    /// bookkeeping intact for one more region index.
    #[verifier::rlimit(100)]
    #[verifier::spinoff_prover]
    proof fn lemma_share_skip(
        parent0: MemorySet,
        arena0: FrameArena,
        eager_ms: MemorySet,
        eager_arena: FrameArena,
        s_vpn: int,
        eager_total: int,
        k: int,
        parent: MemorySet,
        child: MemorySet,
        arena: FrameArena,
    )
        requires
            fork_fixed_inv(parent0, arena0, eager_ms, eager_arena, s_vpn, eager_total),
            fork_step_inv(
                parent0,
                arena0,
                eager_ms,
                eager_arena,
                s_vpn,
                eager_total,
                k,
                parent,
                child,
                arena,
            ),
            0 <= k < parent0.areas.len(),
            parent0.areas@[k as int].vpn_range.start.0 >= s_vpn,
        ensures
            fork_step_inv(
                parent0,
                arena0,
                eager_ms,
                eager_arena,
                s_vpn,
                eager_total,
                k + 1,
                parent,
                child,
                arena,
            ),
    {
        reveal(fork_fixed_inv);
        reveal(fork_step_inv);
        lemma_count_eager_step(parent0.areas@, s_vpn, k);
        assert(cow_pages_shared(
            parent0,
            arena0,
            parent.page_table@,
            child.page_table@,
            arena,
            s_vpn,
            k + 1,
        )) by {
            reveal(cow_pages_shared);
        }
        assert forall|v: usize|
            !(exists|j: int|
                0 <= j < k + 1 && parent0.areas@[j].vpn_range.start.0 < s_vpn && (
                #[trigger] parent0.areas@[j].vpn_range.contains(v))) implies (
        #[trigger] parent.page_table@.contains_key(v) == parent0.page_table@.contains_key(v)) && (
        parent0.page_table@.contains_key(v) ==> parent.page_table@[v] == parent0.page_table@[
            v]) by {
            assert(!(exists|j: int|
                0 <= j < k && parent0.areas@[j].vpn_range.start.0 < s_vpn && (
                #[trigger] parent0.areas@[j].vpn_range.contains(v)))) by {
                if exists|j: int|
                    0 <= j < k && parent0.areas@[j].vpn_range.start.0 < s_vpn && (
                    #[trigger] parent0.areas@[j].vpn_range.contains(v)) {
                    let j = choose|j: int|
                        0 <= j < k && parent0.areas@[j].vpn_range.start.0 < s_vpn && (
                        #[trigger] parent0.areas@[j].vpn_range.contains(v));
                    assert(0 <= j < k + 1 && parent0.areas@[j].vpn_range.start.0 < s_vpn
                        && parent0.areas@[j].vpn_range.contains(v));
                    assert(false);
                }
            }
        }
        assert forall|q: int|
            arena0.is_live(q) && !(exists|j: int|
                0 <= j < k + 1 && (#[trigger] parent0.areas@[j]).vpn_range.start.0 < s_vpn
                    && parent0.areas@[j].owns_ppn(q)) implies #[trigger] arena.refs_of(q)
            == arena0.refs_of(q) by {
            assert(!(exists|j: int|
                0 <= j < k && (#[trigger] parent0.areas@[j]).vpn_range.start.0 < s_vpn
                    && parent0.areas@[j].owns_ppn(q))) by {
                if exists|j: int|
                    0 <= j < k && (#[trigger] parent0.areas@[j]).vpn_range.start.0 < s_vpn
                        && parent0.areas@[j].owns_ppn(q) {
                    let j = choose|j: int|
                        0 <= j < k && (#[trigger] parent0.areas@[j]).vpn_range.start.0 < s_vpn
                            && parent0.areas@[j].owns_ppn(q);
                    assert(0 <= j < k + 1 && parent0.areas@[j].vpn_range.start.0 < s_vpn
                        && parent0.areas@[j].owns_ppn(q));
                    assert(false);
                }
            }
        }
        assert(fork_step_inv(
            parent0,
            arena0,
            eager_ms,
            eager_arena,
            s_vpn,
            eager_total,
            k + 1,
            parent,
            child,
            arena,
        ));
    }

    /// At the end of a copy-on-write fork, the bookkeeping yields the
    /// fork's stated outcome.
    #[verifier::rlimit(100)]
    #[verifier::spinoff_prover]
    proof fn lemma_fork_exit(
        parent0: MemorySet,
        arena0: FrameArena,
        eager_ms: MemorySet,
        eager_arena: FrameArena,
        split_addr: usize,
        eager_total: int,
        parent: MemorySet,
        child: MemorySet,
        arena: FrameArena,
    )
        requires
            fork_fixed_inv(
                parent0,
                arena0,
                eager_ms,
                eager_arena,
                split_page(split_addr as int),
                eager_total,
            ),
            fork_step_inv(
                parent0,
                arena0,
                eager_ms,
                eager_arena,
                split_page(split_addr as int),
                eager_total,
                parent0.areas@.len() as int,
                parent,
                child,
                arena,
            ),
            eager_ms.inv(eager_arena),
            eager_pages_duplicated(
                parent0,
                arena0,
                eager_ms.page_table@,
                eager_arena,
                split_page(split_addr as int),
            ),
            parent0.page_table@.contains_key(trampoline_vpn() as usize)
                ==> eager_ms.page_table@.contains_key(trampoline_vpn() as usize)
                && eager_ms.page_table@[trampoline_vpn() as usize] == parent0.page_table@[
                trampoline_vpn() as usize],
            parent0.page_table@.contains_key(signal_trampoline_vpn() as usize)
                ==> eager_ms.page_table@.contains_key(signal_trampoline_vpn() as usize)
                && eager_ms.page_table@[signal_trampoline_vpn() as usize] == parent0.page_table@[
                signal_trampoline_vpn() as usize],
            eager_arena.base == arena0.base,
            eager_arena.slots.len() >= arena0.slots.len(),
            forall|q: int|
                arena0.is_live(q) ==> #[trigger] eager_arena.refs_of(q) == arena0.refs_of(q),
            forall|q: int|
                #![trigger eager_arena.data_of(q)]
                arena0.is_live(q) ==> eager_arena.data_of(q) == arena0.data_of(q),
        ensures
            child.inv(arena),
            parent.inv(arena),
            parent.areas == parent0.areas,
            parent.page_table.root_ppn == parent0.page_table.root_ppn,
            child.areas@.len() == parent0.areas@.len(),
            parent0.page_table@.contains_key(trampoline_vpn() as usize)
                ==> child.page_table@.contains_key(trampoline_vpn() as usize)
                && child.page_table@[trampoline_vpn() as usize] == parent0.page_table@[
                trampoline_vpn() as usize],
            parent0.page_table@.contains_key(signal_trampoline_vpn() as usize)
                ==> child.page_table@.contains_key(signal_trampoline_vpn() as usize)
                && child.page_table@[signal_trampoline_vpn() as usize] == parent0.page_table@[
                signal_trampoline_vpn() as usize],
            forall|q: int|
                arena0.is_live(q) ==> #[trigger] arena.data_of(q) == arena0.data_of(q),
            forall|i: int, v: usize|
                0 <= i < parent0.areas.len() && parent0.areas@[i].vpn_range.start.0 < split_page(
                    split_addr as int,
                ) && #[trigger] parent0.areas@[i].vpn_range.contains(v) ==> {
                    let p = parent0.page_table@[v].ppn;
                    &&& parent.page_table@.contains_key(v)
                    &&& parent.page_table@[v].ppn == p
                    &&& parent.page_table@[v].flags == (PTEFlags {
                        w: false,
                        cow: true,
                        ..parent0.page_table@[v].flags
                    })
                    &&& child.page_table@.contains_key(v)
                    &&& child.page_table@[v].ppn == p
                    &&& child.page_table@[v].flags == (PTEFlags {
                        w: false,
                        cow: true,
                        ..parent0.page_table@[v].flags
                    })
                    &&& arena.refs_of(p.0 as int) == arena0.refs_of(p.0 as int) + 1
                },
            forall|v: usize|
                !(exists|i: int|
                    0 <= i < parent0.areas.len() && parent0.areas@[i].vpn_range.start.0
                        < split_page(split_addr as int) && (#[trigger] parent0.areas@[
                    i].vpn_range.contains(v))) ==> (#[trigger] parent.page_table@.contains_key(v)
                    == parent0.page_table@.contains_key(v)) && (parent0.page_table@.contains_key(
                    v,
                ) ==> parent.page_table@[v] == parent0.page_table@[v]),
            forall|q: int|
                arena0.is_live(q) && !(exists|j: int|
                    0 <= j < parent0.areas.len() && (#[trigger] parent0.areas@[
                    j]).vpn_range.start.0 < split_page(split_addr as int) && parent0.areas@[
                    j].owns_ppn(q)) ==> #[trigger] arena.refs_of(q) == arena0.refs_of(q),
            forall|j: int|
                0 <= j < parent0.areas.len() && (#[trigger] parent0.areas@[j]).vpn_range.start.0
                    >= split_page(split_addr as int) ==> 0 <= count_eager(
                    parent0.areas@.take(j),
                    split_page(split_addr as int),
                ) < child.areas@.len() && child.areas@[count_eager(
                    parent0.areas@.take(j),
                    split_page(split_addr as int),
                )].vpn_range == parent0.areas@[j].vpn_range && child.areas@[count_eager(
                    parent0.areas@.take(j),
                    split_page(split_addr as int),
                )].map_type == parent0.areas@[j].map_type && child.areas@[count_eager(
                    parent0.areas@.take(j),
                    split_page(split_addr as int),
                )].map_perm == parent0.areas@[j].map_perm,
            forall|j: int|
                0 <= j < parent0.areas.len() && (#[trigger] parent0.areas@[j]).vpn_range.start.0
                    < split_page(split_addr as int) ==> {
                    let a = count_eager(parent0.areas@, split_page(split_addr as int)) + j
                        - count_eager(parent0.areas@.take(j), split_page(split_addr as int));
                    &&& 0 <= a < child.areas@.len()
                    &&& child.areas@[a].vpn_range == parent0.areas@[j].vpn_range
                    &&& child.areas@[a].map_type == MapType::Framed
                    &&& child.areas@[a].map_perm == parent0.areas@[j].map_perm
                    &&& forall|v: usize|
                        #[trigger] parent0.areas@[j].vpn_range.contains(v) ==> child.areas@[
                            a].data_frames@.contains_key(v) && child.areas@[a].data_frames@[v]
                            == parent0.page_table@[v].ppn
                },
            forall|j: int, v: usize|
                0 <= j < parent0.areas.len() && parent0.areas@[j].vpn_range.start.0 >= split_page(
                    split_addr as int,
                ) && parent0.areas@[j].map_type == MapType::Framed && #[trigger] parent0.areas@[
                j].vpn_range.contains(v) ==> child.page_table@.contains_key(v) && !arena0.is_live(
                    child.page_table@[v].ppn.0 as int,
                ) && arena.data_of(child.page_table@[v].ppn.0 as int) == arena0.data_of(
                    parent0.page_table@[v].ppn.0 as int,
                ),
    {
        let s_vpn = split_page(split_addr as int);
        let n = parent0.areas@.len();
        let eager_total_g = eager_total;
        reveal(fork_fixed_inv);
        reveal(fork_step_inv);
        assert(parent0.areas@.take(parent0.areas@.len() as int) =~= parent0.areas@);
        lemma_count_eager_lipschitz(parent0.areas@, s_vpn, 0, parent0.areas@.len() as int);
        assert(parent0.areas@.take(0) =~= Seq::<MapArea>::empty());
        assert(eager_total <= child.areas@.len());
        assert forall|j: int, v: usize|
            0 <= j < parent0.areas.len() && parent0.areas@[
            j].vpn_range.start.0 >= split_page(split_addr as int) && parent0.areas@[
            j].map_type == MapType::Framed && #[trigger] parent0.areas@[
            j].vpn_range.contains(v) implies child.page_table@.contains_key(v) && !arena0.is_live(child.page_table@[v].ppn.0 as int) && arena.data_of(
            child.page_table@[v].ppn.0 as int,
        ) == arena0.data_of(parent0.page_table@[v].ppn.0 as int) by {
            reveal(eager_pages_duplicated);
            assert(!(exists|j2: int|
                0 <= j2 < n && parent0.areas@[j2].vpn_range.start.0 < s_vpn && (
                #[trigger] parent0.areas@[j2].vpn_range.contains(v)))) by {
                if exists|j2: int|
                    0 <= j2 < n && parent0.areas@[j2].vpn_range.start.0 < s_vpn && (
                    #[trigger] parent0.areas@[j2].vpn_range.contains(v)) {
                    let j2 = choose|j2: int|
                        0 <= j2 < n && parent0.areas@[j2].vpn_range.start.0 < s_vpn
                            && (#[trigger] parent0.areas@[j2].vpn_range.contains(v));
                    assert(parent0.areas@[j].vpn_range.disjoint(
                        parent0.areas@[j2].vpn_range,
                    ));
                    assert(false);
                }
            }
            assert(eager_ms.page_table@.contains_key(v));
            assert(child.page_table@.contains_key(v));
            assert(child.page_table@[v] == eager_ms.page_table@[v]);
            let np = eager_ms.page_table@[v].ppn.0 as int;
            let a = count_eager(parent0.areas@.take(j), s_vpn);
            assert(0 <= a < eager_ms.areas@.len() && eager_ms.areas@[a].vpn_range == parent0.areas@[j].vpn_range);
            assert(eager_ms.areas@[a].mapped_in(eager_ms.page_table@, eager_arena));
            assert(eager_ms.areas@[a].vpn_range.contains(v));
            assert(eager_arena.is_live(np));
            assert(eager_arena.contains_ppn(np));
            assert(arena.data_of(np) == eager_arena.data_of(np));
        }
        assert forall|q: int|
            arena0.is_live(q) implies #[trigger] arena.data_of(q) == arena0.data_of(
            q,
        ) by {
            assert(eager_arena.data_of(q) == arena0.data_of(q));
            assert(eager_arena.contains_ppn(q)) by {
                assert(eager_arena.refs_of(q) == arena0.refs_of(q));
            }
            assert(arena.data_of(q) == eager_arena.data_of(q));
        }
        assert forall|j: int|
            0 <= j < parent0.areas.len() && (#[trigger] parent0.areas@[
            j]).vpn_range.start.0 >= split_page(split_addr as int) implies 0 <= count_eager(
            parent0.areas@.take(j),
            split_page(split_addr as int),
        ) < child.areas@.len() && child.areas@[count_eager(
            parent0.areas@.take(j),
            split_page(split_addr as int),
        )].vpn_range == parent0.areas@[j].vpn_range && child.areas@[count_eager(
            parent0.areas@.take(j),
            split_page(split_addr as int),
        )].map_type == parent0.areas@[j].map_type && child.areas@[count_eager(
            parent0.areas@.take(j),
            split_page(split_addr as int),
        )].map_perm == parent0.areas@[j].map_perm by {
            let a = count_eager(parent0.areas@.take(j), s_vpn);
            assert(child.areas@[a] == eager_ms.areas@[a]);
        }
        assert forall|j: int|
            0 <= j < parent0.areas.len() && (#[trigger] parent0.areas@[
            j]).vpn_range.start.0 < split_page(split_addr as int) implies {
            let a = count_eager(parent0.areas@, split_page(split_addr as int)) + j
                - count_eager(parent0.areas@.take(j), split_page(split_addr as int));
            forall|v: usize|
                #[trigger] parent0.areas@[j].vpn_range.contains(v)
                    ==> child.areas@[a].data_frames@.contains_key(v)
                    && child.areas@[a].data_frames@[v] == parent0.page_table@[
                    v].ppn
        } by {
            let a = count_eager(parent0.areas@, split_page(split_addr as int)) + j
                - count_eager(parent0.areas@.take(j), split_page(split_addr as int));
            assert(0 <= a < child.areas@.len());
            assert(child.areas@[a].vpn_range == parent0.areas@[j].vpn_range);
            assert(child.areas@[a].map_type == MapType::Framed);
            assert forall|v: usize|
                #[trigger] parent0.areas@[j].vpn_range.contains(
                    v,
                ) implies child.areas@[a].data_frames@.contains_key(v)
                && child.areas@[a].data_frames@[v] == parent0.page_table@[
                v].ppn by {
                assert(child.areas@[a].mapped_in(child.page_table@, arena));
                assert(child.areas@[a].vpn_range.contains(v));
                assert(child.areas@[a].data_frames@.contains_key(v));
                assert(child.page_table@[v].ppn == child.areas@[a].data_frames@[v]);
                assert(child.page_table@[v].ppn == parent0.page_table@[v].ppn)
                    by {
                    reveal(cow_pages_shared);
                    assert(parent0.areas@[j].vpn_range.contains(v));
                }
            }
        }
        if parent0.page_table@.contains_key(trampoline_vpn() as usize) {
            assert(!(exists|j2: int|
                0 <= j2 < n && parent0.areas@[j2].vpn_range.start.0 < s_vpn && (
                #[trigger] parent0.areas@[j2].vpn_range.contains(
                    trampoline_vpn() as usize,
                )))) by {
                if exists|j2: int|
                    0 <= j2 < n && parent0.areas@[j2].vpn_range.start.0 < s_vpn && (
                    #[trigger] parent0.areas@[j2].vpn_range.contains(
                        trampoline_vpn() as usize,
                    )) {
                    let j2 = choose|j2: int|
                        0 <= j2 < n && parent0.areas@[j2].vpn_range.start.0 < s_vpn
                            && (#[trigger] parent0.areas@[j2].vpn_range.contains(
                            trampoline_vpn() as usize,
                        ));
                    assert(parent0.areas@[j2].vpn_range.end.0
                        <= signal_trampoline_vpn());
                    assert(false);
                }
            }
            assert(child.page_table@.contains_key(trampoline_vpn() as usize)
                && child.page_table@[trampoline_vpn() as usize] == parent0.page_table@[trampoline_vpn() as usize]);
        }
        if parent0.page_table@.contains_key(signal_trampoline_vpn() as usize) {
            assert(!(exists|j2: int|
                0 <= j2 < n && parent0.areas@[j2].vpn_range.start.0 < s_vpn && (
                #[trigger] parent0.areas@[j2].vpn_range.contains(
                    signal_trampoline_vpn() as usize,
                )))) by {
                if exists|j2: int|
                    0 <= j2 < n && parent0.areas@[j2].vpn_range.start.0 < s_vpn && (
                    #[trigger] parent0.areas@[j2].vpn_range.contains(
                        signal_trampoline_vpn() as usize,
                    )) {
                    let j2 = choose|j2: int|
                        0 <= j2 < n && parent0.areas@[j2].vpn_range.start.0 < s_vpn
                            && (#[trigger] parent0.areas@[j2].vpn_range.contains(
                            signal_trampoline_vpn() as usize,
                        ));
                    assert(parent0.areas@[j2].vpn_range.end.0
                        <= signal_trampoline_vpn());
                    assert(false);
                }
            }
            assert(child.page_table@.contains_key(signal_trampoline_vpn() as usize)
                && child.page_table@[signal_trampoline_vpn() as usize] == parent0.page_table@[signal_trampoline_vpn() as usize]);
        }
        assert forall|i: int, v: usize|
            0 <= i < parent0.areas.len() && parent0.areas@[
            i].vpn_range.start.0 < split_page(split_addr as int) && #[trigger] parent0.areas@[i].vpn_range.contains(v) implies {
            let p = parent0.page_table@[v].ppn;
            &&& parent.page_table@.contains_key(v)
            &&& parent.page_table@[v].ppn == p
            &&& parent.page_table@[v].flags == (PTEFlags {
                w: false,
                cow: true,
                ..parent0.page_table@[v].flags
            })
            &&& child.page_table@.contains_key(v)
            &&& child.page_table@[v].ppn == p
            &&& child.page_table@[v].flags == (PTEFlags {
                w: false,
                cow: true,
                ..parent0.page_table@[v].flags
            })
            &&& arena.refs_of(p.0 as int) == arena0.refs_of(p.0 as int) + 1
        } by {
            reveal(cow_pages_shared);
        }
    }

    /// Fork this space copy-on-write, parameterised by a split address:
    /// regions whose range starts at or above the split page are duplicated
    /// eagerly (fresh frames, bytes copied); regions below it share the
    /// parent's frames, with both sides' entries rewritten to clear the
    /// writable bit and set the copy-on-write marker, and each shared
    /// frame's reference count incremented. A split of zero shares the
    /// whole range copy-on-write: the safe default.
    #[verifier::rlimit(100)]
    #[verifier::spinoff_prover]
    pub fn from_copy_on_write(
        arena: &mut FrameArena,
        user_space: &mut MemorySet,
        split_addr: usize,
    ) -> (r: MemorySet)
        requires
            old(user_space).inv(*old(arena)),
            old(arena).free_frames() >= 1 + total_eager_pages(
                old(user_space).areas@,
                split_page(split_addr as int),
            ),
            forall|i: int|
                0 <= i < old(user_space).areas.len() && (#[trigger] old(user_space).areas@[i]).vpn_range.start.0 < split_page(split_addr as int) ==> old(user_space).areas@[i].map_type == MapType::Framed,
            forall|q: int|
                #[trigger] old(arena).contains_ppn(q) ==> old(arena).refs_of(q) < usize::MAX,
        ensures
            r.inv(*final(arena)),
            final(user_space).inv(*final(arena)),
            final(user_space).areas == old(user_space).areas,
            final(user_space).page_table.root_ppn == old(user_space).page_table.root_ppn,
            r.areas@.len() == old(user_space).areas@.len(),
            forall|i: int, v: usize|
                0 <= i < old(user_space).areas.len() && old(user_space).areas@[i].vpn_range.start.0
                    < split_page(split_addr as int) && #[trigger] old(user_space).areas@[i].vpn_range.contains(v) ==> {
                    let p = old(user_space).page_table@[v].ppn;
                    &&& final(user_space).page_table@.contains_key(v)
                    &&& final(user_space).page_table@[v].ppn == p
                    &&& final(user_space).page_table@[v].flags == (PTEFlags {
                        w: false,
                        cow: true,
                        ..old(user_space).page_table@[v].flags
                    })
                    &&& r.page_table@.contains_key(v)
                    &&& r.page_table@[v].ppn == p
                    &&& r.page_table@[v].flags == (PTEFlags {
                        w: false,
                        cow: true,
                        ..old(user_space).page_table@[v].flags
                    })
                    &&& final(arena).refs_of(p.0 as int) == old(arena).refs_of(p.0 as int) + 1
                },
            forall|v: usize|
                !(exists|i: int|
                    0 <= i < old(user_space).areas.len() && old(user_space).areas@[i].vpn_range.start.0 < split_page(split_addr as int)
                        && (#[trigger] old(user_space).areas@[i].vpn_range.contains(v))) ==> (
                #[trigger] final(user_space).page_table@.contains_key(v) == old(user_space).page_table@.contains_key(v)) && (old(user_space).page_table@.contains_key(v)
                    ==> final(user_space).page_table@[v] == old(user_space).page_table@[v]),
            old(user_space).page_table@.contains_key(trampoline_vpn() as usize)
                ==> r.page_table@.contains_key(trampoline_vpn() as usize)
                && r.page_table@[trampoline_vpn() as usize] == old(user_space).page_table@[
                trampoline_vpn() as usize],
            old(user_space).page_table@.contains_key(signal_trampoline_vpn() as usize)
                ==> r.page_table@.contains_key(signal_trampoline_vpn() as usize)
                && r.page_table@[signal_trampoline_vpn() as usize] == old(user_space).page_table@[
                signal_trampoline_vpn() as usize],
            forall|q: int|
                old(arena).is_live(q) ==> #[trigger] final(arena).data_of(q) == old(arena).data_of(
                    q,
                ),
            forall|q: int|
                old(arena).is_live(q) && !(exists|j: int|
                    0 <= j < old(user_space).areas.len() && (#[trigger] old(user_space).areas@[
                    j]).vpn_range.start.0 < split_page(split_addr as int) && old(user_space).areas@[j].owns_ppn(q)) ==> #[trigger] final(arena).refs_of(q) == old(arena).refs_of(q),
            forall|j: int|
                0 <= j < old(user_space).areas.len() && (#[trigger] old(user_space).areas@[
                j]).vpn_range.start.0 >= split_page(split_addr as int) ==> 0 <= count_eager(
                    old(user_space).areas@.take(j),
                    split_page(split_addr as int),
                ) < r.areas@.len() && r.areas@[count_eager(
                    old(user_space).areas@.take(j),
                    split_page(split_addr as int),
                )].vpn_range == old(user_space).areas@[j].vpn_range && r.areas@[count_eager(
                    old(user_space).areas@.take(j),
                    split_page(split_addr as int),
                )].map_type == old(user_space).areas@[j].map_type && r.areas@[count_eager(
                    old(user_space).areas@.take(j),
                    split_page(split_addr as int),
                )].map_perm == old(user_space).areas@[j].map_perm,
            forall|j: int|
                0 <= j < old(user_space).areas.len() && (#[trigger] old(user_space).areas@[
                j]).vpn_range.start.0 < split_page(split_addr as int) ==> {
                    let a = count_eager(old(user_space).areas@, split_page(split_addr as int)) + j
                        - count_eager(
                        old(user_space).areas@.take(j),
                        split_page(split_addr as int),
                    );
                    &&& 0 <= a < r.areas@.len()
                    &&& r.areas@[a].vpn_range == old(user_space).areas@[j].vpn_range
                    &&& r.areas@[a].map_type == MapType::Framed
                    &&& r.areas@[a].map_perm == old(user_space).areas@[j].map_perm
                    &&& forall|v: usize|
                        #[trigger] old(user_space).areas@[j].vpn_range.contains(v) ==> r.areas@[
                            a].data_frames@.contains_key(v) && r.areas@[a].data_frames@[v] == old(user_space).page_table@[v].ppn
                },
            forall|j: int, v: usize|
                0 <= j < old(user_space).areas.len() && old(user_space).areas@[
                j].vpn_range.start.0 >= split_page(split_addr as int) && old(user_space).areas@[
                j].map_type == MapType::Framed && #[trigger] old(user_space).areas@[
                j].vpn_range.contains(v) ==> r.page_table@.contains_key(v) && !old(arena).is_live(
                    r.page_table@[v].ppn.0 as int,
                ) && final(arena).data_of(r.page_table@[v].ppn.0 as int) == old(arena).data_of(
                    old(user_space).page_table@[v].ppn.0 as int,
                ),
    {
        let ghost s_vpn = split_page(split_addr as int);
        let mut memory_set = Self::cow_fork_eager(arena, &*user_space, split_addr);
        let ghost eager_ms = memory_set;
        let ghost eager_arena = *arena;
        proof {
            assert(eager_ms.inv(eager_arena));
            assert(old(user_space).page_table@.contains_key(trampoline_vpn() as usize)
                ==> eager_ms.page_table@.contains_key(trampoline_vpn() as usize)
                && eager_ms.page_table@[trampoline_vpn() as usize] == old(user_space).page_table@[trampoline_vpn() as usize]);
            assert(old(user_space).page_table@.contains_key(signal_trampoline_vpn() as usize)
                ==> eager_ms.page_table@.contains_key(signal_trampoline_vpn() as usize)
                && eager_ms.page_table@[signal_trampoline_vpn() as usize] == old(user_space).page_table@[signal_trampoline_vpn() as usize]);
            assert(eager_pages_duplicated(
                *old(user_space),
                *old(arena),
                eager_ms.page_table@,
                eager_arena,
                s_vpn,
            )) by {
                reveal(eager_pages_duplicated);
            }
            assert forall|j: int|
                0 <= j < old(user_space).areas@.len() && (#[trigger] old(user_space).areas@[
                j]).vpn_range.start.0 >= s_vpn implies 0 <= count_eager(
                old(user_space).areas@.take(j),
                s_vpn,
            ) < eager_ms.areas@.len() && eager_ms.areas@[count_eager(
                old(user_space).areas@.take(j),
                s_vpn,
            )].vpn_range == old(user_space).areas@[j].vpn_range && eager_ms.areas@[count_eager(
                old(user_space).areas@.take(j),
                s_vpn,
            )].map_type == old(user_space).areas@[j].map_type && eager_ms.areas@[count_eager(
                old(user_space).areas@.take(j),
                s_vpn,
            )].map_perm == old(user_space).areas@[j].map_perm by {
            }
            assert(cow_pages_shared(
                *old(user_space),
                *old(arena),
                user_space.page_table@,
                memory_set.page_table@,
                *arena,
                s_vpn,
                0,
            )) by {
                reveal(cow_pages_shared);
            }
            assert forall|v: usize|
                #[trigger] eager_ms.page_table@.contains_key(v) implies !(exists|j: int|
                    0 <= j < user_space.areas@.len() && user_space.areas@[j].vpn_range.start.0
                        < s_vpn && (#[trigger] user_space.areas@[j].vpn_range.contains(
                        v,
                    ))) by {
                if exists|j: int|
                    0 <= j < user_space.areas@.len() && user_space.areas@[j].vpn_range.start.0
                        < s_vpn && (#[trigger] user_space.areas@[j].vpn_range.contains(v)) {
                    let j = choose|j: int|
                        0 <= j < user_space.areas@.len() && user_space.areas@[j].vpn_range.start.0
                            < s_vpn && (#[trigger] user_space.areas@[j].vpn_range.contains(v));
                    assert(v != crate::memory_set::trampoline_vpn()
                        && v != crate::memory_set::signal_trampoline_vpn()) by {
                        assert(user_space.areas@[j].vpn_range.end.0 <= signal_trampoline_vpn());
                    }
                    assert(eager_ms.in_some_area(v));
                    let i = choose|i: int|
                        0 <= i < eager_ms.areas.len() && (
                        #[trigger] eager_ms.areas@[i]).vpn_range.contains(v);
                    assert(user_space.areas@.take(user_space.areas@.len() as int)
                        =~= user_space.areas@);
                    assert(0 <= i < count_eager(user_space.areas@, s_vpn));
                    lemma_count_eager_surj(user_space.areas@, s_vpn, user_space.areas@.len() as int, i);
                    let j2 = choose|j2: int|
                        0 <= j2 < user_space.areas@.len() && (#[trigger] user_space.areas@[
                        j2]).vpn_range.start.0 >= s_vpn && count_eager(
                            user_space.areas@.take(j2),
                            s_vpn,
                        ) == i;
                    assert(eager_ms.areas@[i].vpn_range == user_space.areas@[j2].vpn_range);
                    assert(user_space.areas@[j2].vpn_range.disjoint(
                        user_space.areas@[j].vpn_range,
                    ));
                    assert(false);
                }
            }
        }
        let n: usize = user_space.areas.len();
        let split_vpn: VirtPageNum = VirtAddr(split_addr).floor();
        let ghost eager_total = count_eager(old(user_space).areas@, s_vpn);
        proof {
            assert(old(user_space).areas@.take(0) =~= Seq::<MapArea>::empty());
            assert(fork_fixed_inv(
                *old(user_space),
                *old(arena),
                eager_ms,
                eager_arena,
                s_vpn,
                eager_total,
            )) by {
                reveal(fork_fixed_inv);
            }
            assert(fork_step_inv(
                *old(user_space),
                *old(arena),
                eager_ms,
                eager_arena,
                s_vpn,
                eager_total,
                0,
                *user_space,
                memory_set,
                *arena,
            )) by {
                reveal(fork_step_inv);
            }
        }
        let mut k: usize = 0;
        while k < n
            invariant
                n == old(user_space).areas@.len(),
                k <= n,
                s_vpn == split_page(split_addr as int),
                split_vpn.0 == spec_floor(split_addr as int),
                user_space.areas == old(user_space).areas,
                fork_fixed_inv(
                    *old(user_space),
                    *old(arena),
                    eager_ms,
                    eager_arena,
                    s_vpn,
                    eager_total,
                ),
                fork_step_inv(
                    *old(user_space),
                    *old(arena),
                    eager_ms,
                    eager_arena,
                    s_vpn,
                    eager_total,
                    k as int,
                    *user_space,
                    memory_set,
                    *arena,
                ),
            decreases n - k,
        {
            let cow: bool = split_addr == 0 || user_space.areas[k].vpn_range.get_start().0
                < split_vpn.0;
            proof {
                assert(cow == (old(user_space).areas@[k as int].vpn_range.start.0 < s_vpn));
            }
            if cow {
                memory_set.share_cow_area(
                    arena,
                    user_space,
                    k,
                    Ghost(*old(user_space)),
                    Ghost(*old(arena)),
                    Ghost(eager_ms),
                    Ghost(eager_arena),
                    Ghost(s_vpn),
                    Ghost(eager_total),
                );
                proof {
                    assert(user_space.areas == old(user_space).areas) by {
                        reveal(fork_step_inv);
                    }
                }
            } else {
                proof {
                    Self::lemma_share_skip(
                        *old(user_space),
                        *old(arena),
                        eager_ms,
                        eager_arena,
                        s_vpn,
                        eager_total,
                        k as int,
                        *user_space,
                        memory_set,
                        *arena,
                    );
                }
            }
            k = k + 1;
        }
        proof {
            Self::lemma_fork_exit(
                *old(user_space),
                *old(arena),
                eager_ms,
                eager_arena,
                split_addr,
                eager_total,
                *user_space,
                memory_set,
                *arena,
            );
        }
        memory_set
    }

    /// Full copies of the regions, frame handles included.
    pub fn clone_areas(&self) -> (r: Vec<MapArea>)
        requires
            forall|i: int| 0 <= i < self.areas.len() ==> (#[trigger] self.areas@[i]).wf(),
        ensures
            r@.len() == self.areas@.len(),
            forall|i: int|
                0 <= i < r@.len() ==> (#[trigger] r@[i]).vpn_range == self.areas@[i].vpn_range
                    && r@[i].map_type == self.areas@[i].map_type && r@[i].map_perm
                    == self.areas@[i].map_perm && r@[i].data_frames@
                    == self.areas@[i].data_frames@,
    {
        let mut r: Vec<MapArea> = Vec::new();
        let n: usize = self.areas.len();
        let mut i: usize = 0;
        while i < n
            invariant
                n == self.areas@.len(),
                i <= n,
                forall|k: int| 0 <= k < n ==> (#[trigger] self.areas@[k]).wf(),
                r@.len() == i,
                forall|k: int|
                    0 <= k < i ==> (#[trigger] r@[k]).vpn_range == self.areas@[k].vpn_range
                        && r@[k].map_type == self.areas@[k].map_type && r@[k].map_perm
                        == self.areas@[k].map_perm && r@[k].data_frames@
                        == self.areas@[k].data_frames@,
            decreases n - i,
        {
            let a = self.areas[i].duplicate();
            r.push(a);
            i = i + 1;
        }
        r
    }

    /// Drop all region bookkeeping, releasing the frame references, while
    /// keeping the page-table structure itself: used when a process is
    /// exiting and its table is about to be discarded wholesale. The
    /// address space no longer satisfies its invariant afterwards.
    pub fn recycle_data_pages(&mut self, arena: &mut FrameArena)
        requires
            old(self).inv(*old(arena)),
        ensures
            final(arena).wf(),
            final(self).areas@.len() == 0,
            final(self).page_table@ == old(self).page_table@,
            final(self).page_table.root_ppn == old(self).page_table.root_ppn,
            final(arena).base == old(arena).base,
            final(arena).capacity == old(arena).capacity,
            final(arena).slots.len() == old(arena).slots.len(),
            forall|q: int|
                old(arena).contains_ppn(q) && (forall|i: int|
                    0 <= i < old(self).areas.len() ==> !(#[trigger] old(self).areas@[i]).owns_ppn(
                        q,
                    )) ==> #[trigger] final(arena).refs_of(q) == old(arena).refs_of(q),
            forall|i: int, u: usize|
                0 <= i < old(self).areas.len() && (#[trigger] old(self).areas@[i].data_frames@.contains_key(u)) ==> final(arena).refs_of(
                    old(self).areas@[i].data_frames@[u].0 as int,
                ) == old(arena).refs_of(old(self).areas@[i].data_frames@[u].0 as int) - 1,
    {
        let mut k: usize = self.areas.len();
        while k > 0
            invariant
                k == self.areas@.len(),
                arena.wf(),
                k <= old(self).areas@.len(),
                self.page_table == old(self).page_table,
                forall|i: int| 0 <= i < k ==> self.areas@[i] == old(self).areas@[i],
                old(self).inv(*old(arena)),
                arena.base == old(arena).base,
                arena.capacity == old(arena).capacity,
                arena.slots.len() == old(arena).slots.len(),
                forall|i: int|
                    0 <= i < k ==> (#[trigger] old(self).areas@[i]).frames_live(*arena),
                forall|q: int|
                    old(arena).contains_ppn(q) && (forall|i: int|
                        k <= i < old(self).areas.len() ==> !(#[trigger] old(self).areas@[i]).owns_ppn(q)) ==> #[trigger] arena.refs_of(q) == old(arena).refs_of(q),
                forall|i: int, u: usize|
                    k <= i < old(self).areas.len() && (#[trigger] old(self).areas@[i].data_frames@.contains_key(u)) ==> arena.refs_of(
                        old(self).areas@[i].data_frames@[u].0 as int,
                    ) == old(arena).refs_of(old(self).areas@[i].data_frames@[u].0 as int) - 1,
            decreases k,
        {
            let mut area = match self.areas.pop() {
                Some(a) => a,
                None => vstd::pervasive::unreached(),
            };
            k = k - 1;
            let ghost pre_arena = *arena;
            area.release_frames(arena);
            proof {
                let ai = old(self).areas@[k as int];
                assert forall|i: int|
                    0 <= i < k implies (#[trigger] old(self).areas@[i]).frames_live(*arena) by {
                    assert forall|u: usize|
                        #[trigger] old(self).areas@[i].data_frames@.contains_key(u) implies arena.is_live(
                        old(self).areas@[i].data_frames@[u].0 as int,
                    ) by {
                        let pq = old(self).areas@[i].data_frames@[u].0 as int;
                        assert(!ai.owns_ppn(pq));
                        assert(arena.refs_of(pq) == pre_arena.refs_of(pq));
                    }
                }
                assert forall|q: int|
                    old(arena).contains_ppn(q) && (forall|i: int|
                        k <= i < old(self).areas.len() ==> !(#[trigger] old(self).areas@[i]).owns_ppn(q)) implies #[trigger] arena.refs_of(q) == old(arena).refs_of(q) by {
                    assert(!ai.owns_ppn(q));
                    assert(pre_arena.refs_of(q) == old(arena).refs_of(q));
                    assert(arena.refs_of(q) == pre_arena.refs_of(q));
                }
                assert forall|i: int, u: usize|
                    k <= i < old(self).areas.len() && (#[trigger] old(self).areas@[i].data_frames@.contains_key(u)) implies arena.refs_of(
                    old(self).areas@[i].data_frames@[u].0 as int,
                ) == old(arena).refs_of(old(self).areas@[i].data_frames@[u].0 as int) - 1 by {
                    let pq = old(self).areas@[i].data_frames@[u].0 as int;
                    if i == k {
                        assert(arena.refs_of(pq) == pre_arena.refs_of(pq) - 1);
                        assert(pre_arena.refs_of(pq) == old(arena).refs_of(pq));
                    } else {
                        assert(!ai.owns_ppn(pq));
                        assert(arena.refs_of(pq) == pre_arena.refs_of(pq));
                    }
                }
            }
        }
    }
}

} // verus!
