//! Laws the address-space model obeys, stated once over every state the
//! invariant admits. Copy-on-write sharing, fault resolution and region
//! removal are stated directly on the contracts of `from_copy_on_write`,
//! `cow_alloc` and `remove_area_with_start_vpn`.

use vstd::prelude::*;

use crate::area::{mem_byte, MapType};
use crate::frame::FrameArena;
use crate::memory_set::{signal_trampoline_vpn, trampoline_vpn, MemorySet};
use crate::page_table::PageTableEntry;

verus! {

/// Translation is total on the declared regions and empty in the gaps:
/// in any address space satisfying the invariant, a page translates when
/// it belongs to some region, and a page outside every region — other
/// than the two trampoline pages — does not translate at all.
pub proof fn lemma_translate_exactly_regions(ms: MemorySet, arena: FrameArena, v: usize)
    requires
        ms.inv(arena),
    ensures
        ms.in_some_area(v) ==> ms.page_table@.contains_key(v),
        !ms.in_some_area(v) && v != trampoline_vpn() && v != signal_trampoline_vpn()
            ==> !ms.page_table@.contains_key(v),
{
    if ms.in_some_area(v) {
        let i = choose|i: int|
            0 <= i < ms.areas.len() && (#[trigger] ms.areas@[i]).vpn_range.contains(v);
        assert(ms.areas@[i].mapped_in(ms.page_table@, arena));
        assert(ms.areas@[i].vpn_range.contains(v));
    }
}

/// Every page of a direct-mapped region translates to the physical page
/// of the same number.
pub proof fn lemma_direct_identity(ms: MemorySet, arena: FrameArena, i: int, v: usize)
    requires
        ms.inv(arena),
        0 <= i < ms.areas.len(),
        ms.areas@[i].map_type == MapType::Identical,
        ms.areas@[i].vpn_range.contains(v),
    ensures
        ms.page_table@.contains_key(v),
        ms.page_table@[v].ppn.0 == v,
{
    assert(ms.areas@[i].mapped_in(ms.page_table@, arena));
    assert(ms.areas@[i].vpn_range.contains(v));
}

/// Round trip: bytes that a copy placed into memory at a virtual range
/// are exactly the bytes a read of the same range through translation
/// returns, whatever the offset and however many pages the run spans.
pub proof fn lemma_copy_read_round_trip(
    pt: Map<usize, PageTableEntry>,
    arena: FrameArena,
    base_va: int,
    data: Seq<u8>,
    r: Seq<u8>,
)
    requires
        r.len() == data.len(),
        forall|i: int| 0 <= i < data.len() ==> #[trigger] mem_byte(pt, arena, base_va + i) == data[i],
        forall|i: int| 0 <= i < r.len() ==> #[trigger] r[i] == mem_byte(pt, arena, base_va + i),
    ensures
        r == data,
{
    assert(r =~= data);
}

} // verus!
