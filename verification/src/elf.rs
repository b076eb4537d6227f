//! The executable-image format: a flat byte buffer holding a fixed-layout
//! header and a table of segment headers, the loadable entries of which
//! define the initial mappings of a process. Parsing is specified byte by
//! byte over the image; a malformed image is reported, never loaded.

use vstd::prelude::*;

use crate::addr::{spec_ceil, spec_floor, PhysPageNum, VirtAddr, VirtPageNum};
use crate::area::{MapArea, MapPermission, MapType};
use crate::config::{
    AT_BASE, AT_CLKTCK, AT_EGID, AT_ENTRY, AT_EUID, AT_FLAGS, AT_GID, AT_HWCAP, AT_NOTELF,
    AT_PAGESZ, AT_PHDR, AT_PHENT, AT_PHNUM, AT_PLATFORM, AT_SECURE, AT_UID, CLOCK_TICKS_PER_SEC,
    NOTELF_VALUE, PAGE_SIZE, SIGNAL_STACK_SIZE, TRAP_CONTEXT, USER_ADDR_CEIL, USER_HEAP_SIZE,
    USER_SIGNAL_STACK, USER_STACK, USER_STACK_SIZE,
};
use crate::area::lemma_page_split;
use crate::frame::FrameArena;
use crate::memory_set::{KernelLayout, MemorySet};

verus! {

/// The 16-bit little-endian value at `off`.
pub open spec fn le16(data: Seq<u8>, off: int) -> int {
    data[off] + 0x100 * data[off + 1]
}

/// The 32-bit little-endian value at `off`.
pub open spec fn le32(data: Seq<u8>, off: int) -> int {
    data[off] + 0x100 * data[off + 1] + 0x1_0000 * data[off + 2] + 0x100_0000 * data[off + 3]
}

/// The 64-bit little-endian value at `off`.
pub open spec fn le64(data: Seq<u8>, off: int) -> int {
    le32(data, off) + 0x1_0000_0000 * le32(data, off + 4)
}

/// Read a 16-bit little-endian value.
pub fn read_u16(data: &[u8], off: usize) -> (r: u64)
    requires
        off + 2 <= data@.len(),
        data@.len() <= usize::MAX,
    ensures
        r == le16(data@, off as int),
        0 <= r < 0x1_0000,
{
    let b0: u64 = data[off] as u64;
    let b1: u64 = data[off + 1] as u64;
    b0 + 0x100 * b1
}

/// Read a 32-bit little-endian value.
pub fn read_u32(data: &[u8], off: usize) -> (r: u64)
    requires
        off + 4 <= data@.len(),
        data@.len() <= usize::MAX,
    ensures
        r == le32(data@, off as int),
        0 <= r < 0x1_0000_0000,
{
    let b0: u64 = data[off] as u64;
    let b1: u64 = data[off + 1] as u64;
    let b2: u64 = data[off + 2] as u64;
    let b3: u64 = data[off + 3] as u64;
    b0 + 0x100 * b1 + 0x1_0000 * b2 + 0x100_0000 * b3
}

/// Read a 64-bit little-endian value.
pub fn read_u64(data: &[u8], off: usize) -> (r: u64)
    requires
        off + 8 <= data@.len(),
        data@.len() <= usize::MAX,
    ensures
        r == le64(data@, off as int),
{
    let lo: u64 = read_u32(data, off);
    let hi: u64 = read_u32(data, off + 4);
    lo + 0x1_0000_0000 * hi
}

/// The image begins with the fixed magic signature.
pub open spec fn magic_ok(data: Seq<u8>) -> bool {
    &&& data.len() >= 64
    &&& data[0] == 0x7f
    &&& data[1] == 0x45
    &&& data[2] == 0x4c
    &&& data[3] == 0x46
}

/// Recorded program entry point.
pub open spec fn spec_entry_point(data: Seq<u8>) -> int {
    le64(data, 24)
}

/// File offset of the segment-header table.
pub open spec fn spec_ph_offset(data: Seq<u8>) -> int {
    le64(data, 32)
}

/// Size of one segment-header entry.
pub open spec fn spec_ph_entry_size(data: Seq<u8>) -> int {
    le16(data, 54)
}

/// Number of segment-header entries.
pub open spec fn spec_ph_count(data: Seq<u8>) -> int {
    le16(data, 56)
}

/// File offset of segment header `i`.
pub open spec fn ph_base(data: Seq<u8>, i: int) -> int {
    spec_ph_offset(data) + 56 * i
}

/// Segment header `i` describes a loadable segment.
pub open spec fn is_load(data: Seq<u8>, i: int) -> bool {
    le32(data, ph_base(data, i)) == 1
}

/// Flag word of segment `i` (bit 0 execute, bit 1 write, bit 2 read).
pub open spec fn seg_flags(data: Seq<u8>, i: int) -> int {
    le32(data, ph_base(data, i) + 4)
}

/// File offset of segment `i`'s bytes.
pub open spec fn seg_offset(data: Seq<u8>, i: int) -> int {
    le64(data, ph_base(data, i) + 8)
}

/// First virtual address of segment `i`.
pub open spec fn seg_vaddr(data: Seq<u8>, i: int) -> int {
    le64(data, ph_base(data, i) + 16)
}

/// Bytes of segment `i` present in the file.
pub open spec fn seg_file_size(data: Seq<u8>, i: int) -> int {
    le64(data, ph_base(data, i) + 32)
}

/// Bytes of segment `i` in memory.
pub open spec fn seg_mem_size(data: Seq<u8>, i: int) -> int {
    le64(data, ph_base(data, i) + 40)
}

/// A well-formed image: correct signature, a complete segment-header
/// table of the expected entry size, and loadable segments that lie in
/// ascending page-disjoint order inside the user address range, each with
/// its file bytes present in the buffer.
pub open spec fn image_wf(data: Seq<u8>) -> bool {
    &&& magic_ok(data)
    &&& spec_ph_entry_size(data) == 56
    &&& spec_ph_offset(data) + 56 * spec_ph_count(data) <= data.len()
    &&& data.len() + USER_ADDR_CEIL <= usize::MAX
    &&& spec_entry_point(data) < USER_ADDR_CEIL
    &&& forall|i: int|
        0 <= i < spec_ph_count(data) && #[trigger] is_load(data, i) ==> {
            &&& seg_vaddr(data, i) + seg_mem_size(data, i) < USER_ADDR_CEIL
            &&& seg_file_size(data, i) <= seg_mem_size(data, i)
            &&& seg_offset(data, i) + seg_file_size(data, i) <= data.len()
        }
    &&& forall|i: int, j: int|
        0 <= i < j < spec_ph_count(data) && #[trigger] is_load(data, i) && #[trigger] is_load(
            data,
            j,
        ) ==> crate::addr::spec_ceil(seg_vaddr(data, i) + seg_mem_size(data, i))
            <= crate::addr::spec_floor(seg_vaddr(data, j))
}

/// One parsed segment header. Only the fields of a loadable entry are
/// meaningful.
#[derive(Clone, Copy, PartialEq, Eq, Structural, Debug)]
pub struct ElfSegment {
    pub loadable: bool,
    pub vaddr: usize,
    pub mem_size: usize,
    pub offset: usize,
    pub file_size: usize,
    pub readable: bool,
    pub writable: bool,
    pub executable: bool,
}

/// The parsed segment matches header `i` of the image.
pub open spec fn seg_matches(data: Seq<u8>, i: int, s: ElfSegment) -> bool {
    &&& s.loadable == is_load(data, i)
    &&& s.loadable ==> {
        &&& s.vaddr == seg_vaddr(data, i)
        &&& s.mem_size == seg_mem_size(data, i)
        &&& s.offset == seg_offset(data, i)
        &&& s.file_size == seg_file_size(data, i)
        &&& s.readable == (seg_flags(data, i) % 8 >= 4)
        &&& s.writable == (seg_flags(data, i) % 4 >= 2)
        &&& s.executable == (seg_flags(data, i) % 2 == 1)
    }
}

/// Validate the image and parse its segment-header table. Returns the
/// headers, in table order, exactly when the image is well formed.
pub fn parse_segments(data: &[u8]) -> (r: Option<Vec<ElfSegment>>)
    ensures
        r is Some <==> image_wf(data@),
        r matches Some(v) ==> {
            &&& v@.len() == spec_ph_count(data@)
            &&& forall|i: int| 0 <= i < v@.len() ==> seg_matches(data@, i, #[trigger] v@[i])
        },
{
    if data.len() < 64 {
        return None;
    }
    if !(data[0] == 0x7f && data[1] == 0x45 && data[2] == 0x4c && data[3] == 0x46) {
        return None;
    }
    let ph_entry_size: u64 = read_u16(data, 54);
    if ph_entry_size != 56 {
        return None;
    }
    let ph_off64: u64 = read_u64(data, 32);
    let count: u64 = read_u16(data, 56);
    if data.len() > usize::MAX - USER_ADDR_CEIL {
        return None;
    }
    if ph_off64 > data.len() as u64 {
        proof {
            assert(56 * spec_ph_count(data@) >= 0);
        }
        return None;
    }
    let entry64: u64 = read_u64(data, 24);
    if entry64 >= USER_ADDR_CEIL as u64 {
        return None;
    }
    let ph_off: usize = ph_off64 as usize;
    let n: usize = count as usize;
    if n > (usize::MAX - ph_off) / 56 {
        proof {
            vstd::arithmetic::div_mod::lemma_fundamental_div_mod(
                usize::MAX - ph_off,
                56,
            );
            assert(n * 56 > usize::MAX - ph_off) by (nonlinear_arith)
                requires
                    n as int > (usize::MAX - ph_off) as int / 56,
                    usize::MAX - ph_off == 56 * ((usize::MAX - ph_off) as int / 56) + (usize::MAX
                        - ph_off) as int % 56,
                    0 <= (usize::MAX - ph_off) as int % 56 < 56,
            ;
        }
        return None;
    }
    proof {
        vstd::arithmetic::div_mod::lemma_fundamental_div_mod(usize::MAX - ph_off, 56);
        assert(n * 56 <= usize::MAX - ph_off) by (nonlinear_arith)
            requires
                n as int <= (usize::MAX - ph_off) as int / 56,
                usize::MAX - ph_off == 56 * ((usize::MAX - ph_off) as int / 56) + (usize::MAX
                    - ph_off) as int % 56,
                0 <= (usize::MAX - ph_off) as int % 56,
        ;
    }
    if ph_off + n * 56 > data.len() {
        return None;
    }
    let mut segs: Vec<ElfSegment> = Vec::new();
    let ghost gd = data@;
    let mut high: usize = 0;
    let mut i: usize = 0;
    while i < n
        invariant
            n == spec_ph_count(gd),
            gd == data@,
            gd.len() == data@.len(),
            i <= n,
            ph_off == spec_ph_offset(gd),
            ph_off + n * 56 <= data@.len(),
            data@.len() <= usize::MAX,
            segs@.len() == i,
            forall|j: int| 0 <= j < i ==> seg_matches(gd, j, #[trigger] segs@[j]),
            forall|j: int|
                0 <= j < i && #[trigger] is_load(gd, j) ==> {
                    &&& seg_vaddr(gd, j) + seg_mem_size(gd, j) < USER_ADDR_CEIL
                    &&& seg_file_size(gd, j) <= seg_mem_size(gd, j)
                    &&& seg_offset(gd, j) + seg_file_size(gd, j) <= gd.len()
                },
            forall|j: int|
                0 <= j < i && #[trigger] is_load(gd, j) ==> crate::addr::spec_ceil(
                    seg_vaddr(gd, j) + seg_mem_size(gd, j),
                ) <= high,
            high == 0 || exists|a: int|
                0 <= a < i && #[trigger] is_load(gd, a) && crate::addr::spec_ceil(
                    seg_vaddr(gd, a) + seg_mem_size(gd, a),
                ) == high,
            forall|a: int, b: int|
                0 <= a < b < i && #[trigger] is_load(gd, a) && #[trigger] is_load(gd, b)
                    ==> crate::addr::spec_ceil(seg_vaddr(gd, a) + seg_mem_size(gd, a))
                    <= crate::addr::spec_floor(seg_vaddr(gd, b)),
            high <= USER_ADDR_CEIL,
        decreases n - i,
    {
        let base: usize = ph_off + i * 56;
        proof {
            assert(base + 56 <= data@.len()) by {
                assert((i as int + 1) * 56 <= n as int * 56) by (nonlinear_arith)
                    requires
                        i as int + 1 <= n as int,
                ;
            }
            assert(ph_base(gd, i as int) == base);
        }
        let seg_type: u64 = read_u32(data, base);
        if seg_type == 1 {
            let flags: u64 = read_u32(data, base + 4);
            let offset: u64 = read_u64(data, base + 8);
            let vaddr: u64 = read_u64(data, base + 16);
            let file_size: u64 = read_u64(data, base + 32);
            let mem_size: u64 = read_u64(data, base + 40);
            if vaddr >= USER_ADDR_CEIL as u64 || mem_size >= USER_ADDR_CEIL as u64 || vaddr
                + mem_size >= USER_ADDR_CEIL as u64 {
                proof {
                    assert(is_load(gd, i as int));
                    assert(seg_vaddr(gd, i as int) + seg_mem_size(gd, i as int)
                        >= USER_ADDR_CEIL);
                    assert(!image_wf(gd));
                }
                return None;
            }
            if file_size > mem_size {
                proof {
                    assert(is_load(gd, i as int));
                    assert(!image_wf(gd));
                }
                return None;
            }
            if offset > data.len() as u64 || file_size > data.len() as u64 - offset {
                proof {
                    assert(is_load(gd, i as int));
                    assert(seg_offset(gd, i as int) + seg_file_size(gd, i as int) > gd.len());
                    assert(!image_wf(gd));
                }
                return None;
            }
            let end_va: usize = (vaddr + mem_size) as usize;
            let end_page: usize = VirtAddrCeil::ceil_usize(end_va);
            let start_page: usize = (vaddr as usize) / PAGE_SIZE;
            if start_page < high {
                proof {
                    assert(high != 0);
                    let a = choose|a: int|
                        0 <= a < i && #[trigger] is_load(gd, a) && crate::addr::spec_ceil(
                            seg_vaddr(gd, a) + seg_mem_size(gd, a),
                        ) == high;
                    assert(is_load(gd, i as int));
                    assert(crate::addr::spec_ceil(seg_vaddr(gd, a) + seg_mem_size(gd, a))
                        > crate::addr::spec_floor(seg_vaddr(gd, i as int)));
                    assert(!image_wf(gd));
                }
                return None;
            }
            let r: bool = (flags % 8) >= 4;
            let w: bool = (flags % 4) >= 2;
            let x: bool = (flags % 2) == 1;
            segs.push(
                ElfSegment {
                    loadable: true,
                    vaddr: vaddr as usize,
                    mem_size: mem_size as usize,
                    offset: offset as usize,
                    file_size: file_size as usize,
                    readable: r,
                    writable: w,
                    executable: x,
                },
            );
            let ghost old_high = high;
            if end_page > high {
                high = end_page;
            }
            proof {
                vstd::arithmetic::div_mod::lemma_div_is_ordered(
                    end_va as int + PAGE_SIZE - 1,
                    USER_ADDR_CEIL as int + PAGE_SIZE - 1,
                    PAGE_SIZE as int,
                );
                assert((USER_ADDR_CEIL as int + PAGE_SIZE - 1) / (PAGE_SIZE as int)
                    <= USER_ADDR_CEIL);
                if end_page > old_high {
                    assert(0 <= (i as int) < i + 1 && is_load(gd, i as int)
                        && crate::addr::spec_ceil(
                        seg_vaddr(gd, i as int) + seg_mem_size(gd, i as int),
                    ) == high);
                } else if old_high != 0 {
                    let a = choose|a: int|
                        0 <= a < i && #[trigger] is_load(gd, a) && crate::addr::spec_ceil(
                            seg_vaddr(gd, a) + seg_mem_size(gd, a),
                        ) == old_high;
                    assert(0 <= a < i + 1 && is_load(gd, a) && crate::addr::spec_ceil(
                        seg_vaddr(gd, a) + seg_mem_size(gd, a),
                    ) == high);
                }
            }
        } else {
            segs.push(
                ElfSegment {
                    loadable: false,
                    vaddr: 0,
                    mem_size: 0,
                    offset: 0,
                    file_size: 0,
                    readable: false,
                    writable: false,
                    executable: false,
                },
            );
            proof {
                if high != 0 {
                    let a = choose|a: int|
                        0 <= a < i && #[trigger] is_load(gd, a) && crate::addr::spec_ceil(
                            seg_vaddr(gd, a) + seg_mem_size(gd, a),
                        ) == high;
                    assert(0 <= a < i + 1 && is_load(gd, a) && crate::addr::spec_ceil(
                        seg_vaddr(gd, a) + seg_mem_size(gd, a),
                    ) == high);
                }
            }
        }
        i = i + 1;
    }
    Some(segs)
}

/// Helper namespace for total page rounding on raw numbers.
pub struct VirtAddrCeil {}

impl VirtAddrCeil {
    /// `spec_ceil` on a raw address, total even at the top of the range.
    pub fn ceil_usize(a: usize) -> (r: usize)
        ensures
            r == crate::addr::spec_ceil(a as int),
    {
        crate::addr::VirtAddr(a).ceil().0
    }
}

/// A startup-descriptor entry handed to the new process's runtime
/// startup code.
#[derive(Clone, Copy, PartialEq, Eq, Structural, Debug)]
pub struct AuxHeader {
    pub aux_type: usize,
    pub value: usize,
}

/// Why an image was rejected.
#[derive(Clone, Copy, PartialEq, Eq, Structural, Debug)]
pub enum ImageError {
    /// The buffer is not a well-formed executable image.
    InvalidImage,
}

/// Frames the loadable segments among the first `n` headers need.
pub open spec fn loads_pages(data: Seq<u8>, n: int) -> int
    decreases n,
{
    if n <= 0 {
        0
    } else {
        loads_pages(data, n - 1) + if is_load(data, n - 1) {
            spec_ceil(seg_vaddr(data, n - 1) + seg_mem_size(data, n - 1)) - spec_floor(
                seg_vaddr(data, n - 1),
            )
        } else {
            0int
        }
    }
}

/// Page number one past the last loadable segment among the first `n`
/// headers (the highest mapped page, as segments ascend).
pub open spec fn loads_last_end(data: Seq<u8>, n: int) -> int
    decreases n,
{
    if n <= 0 {
        0
    } else if is_load(data, n - 1) {
        spec_ceil(seg_vaddr(data, n - 1) + seg_mem_size(data, n - 1))
    } else {
        loads_last_end(data, n - 1)
    }
}

/// Base address of the first loadable segment whose start is page-aligned,
/// searching headers `lo` to `hi`; zero when none is.
pub open spec fn head_va_from(data: Seq<u8>, lo: int, hi: int) -> int
    decreases hi - lo,
{
    if lo >= hi {
        0
    } else if is_load(data, lo) && seg_vaddr(data, lo) % (PAGE_SIZE as int) == 0 {
        seg_vaddr(data, lo)
    } else {
        head_va_from(data, lo + 1, hi)
    }
}

/// Some header among `lo` to `hi` is a loadable segment with page-aligned
/// start.
pub open spec fn has_head(data: Seq<u8>, lo: int, hi: int) -> bool {
    exists|j: int|
        lo <= j < hi && #[trigger] is_load(data, j) && seg_vaddr(data, j) % (PAGE_SIZE as int) == 0
}

pub proof fn lemma_head_va_extend(data: Seq<u8>, lo: int, hi: int)
    requires
        lo <= hi,
    ensures
        head_va_from(data, lo, hi + 1) == if has_head(data, lo, hi) {
            head_va_from(data, lo, hi)
        } else if is_load(data, hi) && seg_vaddr(data, hi) % (PAGE_SIZE as int) == 0 {
            seg_vaddr(data, hi)
        } else {
            0int
        },
    decreases hi - lo,
{
    if lo >= hi {
        assert(head_va_from(data, lo + 1, hi + 1) == 0);
        assert(!has_head(data, lo, hi));
    } else {
        if is_load(data, lo) && seg_vaddr(data, lo) % (PAGE_SIZE as int) == 0 {
            assert(has_head(data, lo, hi)) by {
                assert(lo <= lo < hi && is_load(data, lo) && seg_vaddr(data, lo) % (
                PAGE_SIZE as int) == 0);
            }
        } else {
            lemma_head_va_extend(data, lo + 1, hi);
            assert(has_head(data, lo, hi) == has_head(data, lo + 1, hi)) by {
                if has_head(data, lo, hi) {
                    let j = choose|j: int|
                        lo <= j < hi && #[trigger] is_load(data, j) && seg_vaddr(data, j) % (
                        PAGE_SIZE as int) == 0;
                    assert(j != lo);
                    assert(lo + 1 <= j < hi && is_load(data, j) && seg_vaddr(data, j) % (
                    PAGE_SIZE as int) == 0);
                }
            }
        }
    }
}

/// The startup descriptors handed to a program loaded from the image: the
/// fixed environment entries followed by the segment-header table address.
pub open spec fn spec_auxv(data: Seq<u8>) -> Seq<AuxHeader> {
    seq![
        AuxHeader { aux_type: AT_PHENT, value: 56 },
        AuxHeader { aux_type: AT_PHNUM, value: spec_ph_count(data) as usize },
        AuxHeader { aux_type: AT_PAGESZ, value: PAGE_SIZE },
        AuxHeader { aux_type: AT_BASE, value: 0 },
        AuxHeader { aux_type: AT_FLAGS, value: 0 },
        AuxHeader { aux_type: AT_ENTRY, value: spec_entry_point(data) as usize },
        AuxHeader { aux_type: AT_UID, value: 0 },
        AuxHeader { aux_type: AT_EUID, value: 0 },
        AuxHeader { aux_type: AT_GID, value: 0 },
        AuxHeader { aux_type: AT_EGID, value: 0 },
        AuxHeader { aux_type: AT_PLATFORM, value: 0 },
        AuxHeader { aux_type: AT_HWCAP, value: 0 },
        AuxHeader { aux_type: AT_CLKTCK, value: CLOCK_TICKS_PER_SEC },
        AuxHeader { aux_type: AT_SECURE, value: 0 },
        AuxHeader { aux_type: AT_NOTELF, value: NOTELF_VALUE },
        AuxHeader {
            aux_type: AT_PHDR,
            value: (head_va_from(data, 0, spec_ph_count(data)) + spec_ph_offset(data)) as usize,
        },
    ]
}

pub proof fn lemma_loads_pages_mono(data: Seq<u8>, i: int, n: int)
    requires
        0 <= i <= n,
    ensures
        loads_pages(data, i) <= loads_pages(data, n),
    decreases n - i,
{
    if i < n {
        if is_load(data, n - 1) {
            vstd::arithmetic::div_mod::lemma_div_is_ordered(
                seg_vaddr(data, n - 1),
                seg_vaddr(data, n - 1) + seg_mem_size(data, n - 1) + PAGE_SIZE - 1,
                PAGE_SIZE as int,
            );
        }
        lemma_loads_pages_mono(data, i, n - 1);
    }
}

/// The regions built so far each cover exactly one already-processed
/// loadable segment's page range.
pub open spec fn areas_match_loads(gd: Seq<u8>, areas: Seq<MapArea>, i: int) -> bool {
    forall|a: int|
        #![trigger areas[a]]
        0 <= a < areas.len() ==> exists|j: int|
            0 <= j < i && #[trigger] is_load(gd, j) && areas[a].vpn_range.start.0 == spec_floor(
                seg_vaddr(gd, j),
            ) && areas[a].vpn_range.end.0 == spec_ceil(seg_vaddr(gd, j) + seg_mem_size(gd, j))
}

pub proof fn lemma_new_seg_disjoint(gd: Seq<u8>, areas: Seq<MapArea>, i: int, r: crate::area::VPNRange)
    requires
        image_wf(gd),
        0 <= i < spec_ph_count(gd),
        is_load(gd, i),
        areas_match_loads(gd, areas, i),
        r.start.0 == spec_floor(seg_vaddr(gd, i)),
        r.end.0 == spec_ceil(seg_vaddr(gd, i) + seg_mem_size(gd, i)),
    ensures
        forall|a: int| 0 <= a < areas.len() ==> r.disjoint((#[trigger] areas[a]).vpn_range),
{
    assert forall|a: int| 0 <= a < areas.len() implies r.disjoint(
        (#[trigger] areas[a]).vpn_range,
    ) by {
        let j = choose|j: int|
            0 <= j < i && #[trigger] is_load(gd, j) && areas[a].vpn_range.start.0 == spec_floor(
                seg_vaddr(gd, j),
            ) && areas[a].vpn_range.end.0 == spec_ceil(seg_vaddr(gd, j) + seg_mem_size(gd, j));
        assert(spec_ceil(seg_vaddr(gd, j) + seg_mem_size(gd, j)) <= spec_floor(seg_vaddr(gd, i)));
    }
}

pub proof fn lemma_area_corr_extend(gd: Seq<u8>, pre: Seq<MapArea>, post: Seq<MapArea>, i: int)
    requires
        0 <= i,
        post.len() == pre.len() + 1,
        forall|k: int| 0 <= k < pre.len() ==> #[trigger] post[k] == pre[k],
        areas_match_loads(gd, pre, i),
        is_load(gd, i),
        post.last().vpn_range.start.0 == spec_floor(seg_vaddr(gd, i)),
        post.last().vpn_range.end.0 == spec_ceil(seg_vaddr(gd, i) + seg_mem_size(gd, i)),
    ensures
        areas_match_loads(gd, post, i + 1),
{
    assert forall|a: int|
        #![trigger post[a]]
        0 <= a < post.len() implies exists|j: int|
            0 <= j < i + 1 && #[trigger] is_load(gd, j) && post[a].vpn_range.start.0 == spec_floor(
                seg_vaddr(gd, j),
            ) && post[a].vpn_range.end.0 == spec_ceil(
                seg_vaddr(gd, j) + seg_mem_size(gd, j),
            ) by {
        if a < pre.len() {
            assert(post[a] == pre[a]);
            let j = choose|j: int|
                0 <= j < i && #[trigger] is_load(gd, j) && pre[a].vpn_range.start.0 == spec_floor(
                    seg_vaddr(gd, j),
                ) && pre[a].vpn_range.end.0 == spec_ceil(seg_vaddr(gd, j) + seg_mem_size(gd, j));
            assert(0 <= j < i + 1 && is_load(gd, j) && post[a].vpn_range.start.0 == spec_floor(
                seg_vaddr(gd, j),
            ) && post[a].vpn_range.end.0 == spec_ceil(seg_vaddr(gd, j) + seg_mem_size(gd, j)));
        } else {
            assert(post[a] == post.last());
            assert(0 <= i < i + 1 && is_load(gd, i) && post[a].vpn_range.start.0 == spec_floor(
                seg_vaddr(gd, i),
            ) && post[a].vpn_range.end.0 == spec_ceil(seg_vaddr(gd, i) + seg_mem_size(gd, i)));
        }
    }
}

impl MemorySet {
    /// Build an address space from an executable image: one indirected
    /// region per loadable segment, with permissions from the segment's
    /// flags plus user access and the segment's file bytes copied in
    /// (honouring a non-page-aligned start); then, in order, a fixed-size
    /// user heap one guard page above the highest segment, the kernel-only
    /// trap-context page, the user stack and the signal-delivery stack
    /// below their configured ceilings; and the two trampoline pages.
    /// Returns the space, the initial stack top, the heap bottom, the
    /// entry point, and the startup-descriptor vector — or rejects a
    /// malformed image. Relies on the arena holding a frame for every
    /// page to be mapped; exhaustion is fatal to the calling context.
    #[verifier::rlimit(100)]
    #[verifier::spinoff_prover]
    pub fn from_elf(arena: &mut FrameArena, layout: &KernelLayout, elf_data: &[u8]) -> (r: Result<
        (MemorySet, usize, usize, usize, Vec<AuxHeader>),
        ImageError,
    >)
        requires
            old(arena).wf(),
            image_wf(elf_data@) ==> old(arena).free_frames() >= 1 + loads_pages(
                elf_data@,
                spec_ph_count(elf_data@),
            ) + (USER_HEAP_SIZE / PAGE_SIZE) + 1 + (USER_STACK_SIZE / PAGE_SIZE) + (
            SIGNAL_STACK_SIZE / PAGE_SIZE),
        ensures
            r is Err <==> !image_wf(elf_data@),
            r is Err ==> *final(arena) == *old(arena),
            r matches Ok(t) ==> {
                &&& t.0.inv(*final(arena))
                &&& t.1 == USER_STACK
                &&& t.2 == loads_last_end(elf_data@, spec_ph_count(elf_data@)) * PAGE_SIZE
                    + PAGE_SIZE
                &&& t.3 == spec_entry_point(elf_data@)
                &&& t.4@ == spec_auxv(elf_data@)
                &&& t.0.page_table@.contains_key(crate::memory_set::trampoline_vpn() as usize)
                &&& t.0.page_table@.contains_key(
                    crate::memory_set::signal_trampoline_vpn() as usize,
                )
                &&& t.0.areas@.len() >= 4
                &&& t.0.areas@[t.0.areas@.len() - 4].vpn_range.start.0 == loads_last_end(
                    elf_data@,
                    spec_ph_count(elf_data@),
                ) + 1
                &&& t.0.areas@[t.0.areas@.len() - 4].vpn_range.end.0 == loads_last_end(
                    elf_data@,
                    spec_ph_count(elf_data@),
                ) + 1 + USER_HEAP_SIZE / PAGE_SIZE
                &&& t.0.areas@[t.0.areas@.len() - 4].map_type == MapType::Framed
                &&& t.0.areas@[t.0.areas@.len() - 4].map_perm == (MapPermission {
                    r: true,
                    w: true,
                    x: false,
                    u: true,
                })
                &&& t.0.areas@[t.0.areas@.len() - 3].vpn_range.start.0 == spec_floor(
                    TRAP_CONTEXT as int,
                )
                &&& t.0.areas@[t.0.areas@.len() - 3].vpn_range.end.0 == spec_floor(
                    TRAP_CONTEXT as int,
                ) + 1
                &&& t.0.areas@[t.0.areas@.len() - 3].map_type == MapType::Framed
                &&& t.0.areas@[t.0.areas@.len() - 3].map_perm == (MapPermission {
                    r: true,
                    w: true,
                    x: false,
                    u: false,
                })
                &&& t.0.areas@[t.0.areas@.len() - 2].vpn_range.start.0 == spec_floor(
                    (USER_STACK - USER_STACK_SIZE) as int,
                )
                &&& t.0.areas@[t.0.areas@.len() - 2].vpn_range.end.0 == spec_ceil(
                    USER_STACK as int,
                )
                &&& t.0.areas@[t.0.areas@.len() - 2].map_type == MapType::Framed
                &&& t.0.areas@[t.0.areas@.len() - 2].map_perm == (MapPermission {
                    r: true,
                    w: true,
                    x: false,
                    u: true,
                })
                &&& t.0.areas@[t.0.areas@.len() - 1].vpn_range.start.0 == spec_floor(
                    (USER_SIGNAL_STACK - SIGNAL_STACK_SIZE) as int,
                )
                &&& t.0.areas@[t.0.areas@.len() - 1].vpn_range.end.0 == spec_ceil(
                    USER_SIGNAL_STACK as int,
                )
                &&& t.0.areas@[t.0.areas@.len() - 1].map_type == MapType::Framed
                &&& t.0.areas@[t.0.areas@.len() - 1].map_perm == (MapPermission {
                    r: true,
                    w: true,
                    x: false,
                    u: true,
                })
            },
    {
        let segs = match parse_segments(elf_data) {
            Some(s) => s,
            None => {
                return Err(ImageError::InvalidImage);
            },
        };
        let ghost gd = elf_data@;
        let ghost init_free = old(arena).free_frames();
        let dlen: usize = elf_data.len();
        let n: usize = segs.len();
        proof {
            lemma_loads_pages_mono(gd, 0, n as int);
        }
        let mut memory_set = MemorySet::new_bare(arena);
        memory_set.map_trampoline(arena, PhysPageNum(layout.strampoline / PAGE_SIZE));
        memory_set.map_signal_trampoline(arena, PhysPageNum(layout.ssignaltrampoline / PAGE_SIZE));
        let ph_off64: u64 = read_u64(elf_data, 32);
        let entry64: u64 = read_u64(elf_data, 24);
        let count16: u64 = read_u16(elf_data, 56);
        let mut max_end_vpn: usize = 0;
        let mut head_va: usize = 0;
        let mut head_found: bool = false;
        let mut i: usize = 0;
        while i < n
            invariant
                n == segs@.len(),
                n == spec_ph_count(gd),
                gd == elf_data@,
                gd.len() <= usize::MAX,
                image_wf(gd),
                forall|j: int| 0 <= j < n ==> seg_matches(gd, j, #[trigger] segs@[j]),
                i <= n,
                memory_set.inv(*arena),
                arena.base == old(arena).base,
                arena.capacity == old(arena).capacity,
                arena.slots.len() >= old(arena).slots.len(),
                init_free == old(arena).free_frames(),
                init_free >= 1 + loads_pages(gd, n as int) + (USER_HEAP_SIZE / PAGE_SIZE) + 1 + (
                USER_STACK_SIZE / PAGE_SIZE) + (SIGNAL_STACK_SIZE / PAGE_SIZE),
                arena.free_frames() == init_free - 1 - loads_pages(gd, i as int),
                memory_set.page_table@.contains_key(crate::memory_set::trampoline_vpn() as usize),
                memory_set.page_table@.contains_key(
                    crate::memory_set::signal_trampoline_vpn() as usize,
                ),
                areas_match_loads(gd, memory_set.areas@, i as int),

                max_end_vpn == loads_last_end(gd, i as int),
                max_end_vpn <= USER_ADDR_CEIL / PAGE_SIZE,
                forall|j: int|
                    0 <= j < i && #[trigger] is_load(gd, j) ==> spec_ceil(
                        seg_vaddr(gd, j) + seg_mem_size(gd, j),
                    ) <= max_end_vpn,
                head_found == has_head(gd, 0, i as int),
                head_va == head_va_from(gd, 0, i as int),
                !head_found ==> head_va == 0,
                head_va < USER_ADDR_CEIL,
            decreases n - i,
        {
            let ghost pre_ms = memory_set;
            if segs[i].loadable {
                let seg = segs[i];
                proof {
                    assert(seg_matches(gd, i as int, seg));
                    assert(is_load(gd, i as int));
                    assert(seg.vaddr + seg.mem_size < USER_ADDR_CEIL);
                }
                let start_va = VirtAddr(seg.vaddr);
                let end_va = VirtAddr(seg.vaddr + seg.mem_size);
                let map_perm = MapPermission::new(seg.readable, seg.writable, seg.executable, true);
                let area = MapArea::new(start_va, end_va, MapType::Framed, map_perm);
                let ghost garea = area;
                max_end_vpn = area.vpn_range.get_end().0;
                let offset: usize = start_va.page_offset();
                if !head_found && offset == 0 {
                    head_va = seg.vaddr;
                    head_found = true;
                }
                proof {
                    lemma_head_va_extend(gd, 0, i as int);
                    vstd::arithmetic::div_mod::lemma_fundamental_div_mod(
                        seg.vaddr as int,
                        PAGE_SIZE as int,
                    );
                    lemma_loads_pages_mono(gd, i as int + 1, n as int);
                    assert(loads_pages(gd, i as int + 1) == loads_pages(gd, i as int)
                        + garea.vpn_range.page_count());
                    vstd::arithmetic::div_mod::lemma_div_is_ordered(
                        seg.vaddr as int + seg.mem_size + PAGE_SIZE - 1,
                        USER_ADDR_CEIL as int + PAGE_SIZE - 1,
                        PAGE_SIZE as int,
                    );
                    assert((USER_ADDR_CEIL as int + PAGE_SIZE - 1) / (PAGE_SIZE as int)
                        == USER_ADDR_CEIL / PAGE_SIZE);
                    assert(garea.vpn_range.end.0 <= USER_ADDR_CEIL / PAGE_SIZE);
                    assert((USER_ADDR_CEIL / PAGE_SIZE) < crate::memory_set::signal_trampoline_vpn()) by {
                        vstd::arithmetic::div_mod::lemma_div_is_ordered(
                            USER_ADDR_CEIL as int + PAGE_SIZE,
                            crate::config::SIGNAL_TRAMPOLINE as int,
                            PAGE_SIZE as int,
                        );
                        assert((USER_ADDR_CEIL as int + PAGE_SIZE) / (PAGE_SIZE as int)
                            == USER_ADDR_CEIL / PAGE_SIZE + 1);
                    }
                    lemma_new_seg_disjoint(gd, memory_set.areas@, i as int, garea.vpn_range);
                    assert(offset + seg.file_size <= garea.vpn_range.page_count() * PAGE_SIZE) by {
                        vstd::arithmetic::div_mod::lemma_fundamental_div_mod(
                            seg.vaddr as int + seg.mem_size + PAGE_SIZE - 1,
                            PAGE_SIZE as int,
                        );
                        assert(garea.vpn_range.page_count() * PAGE_SIZE >= seg.vaddr + seg.mem_size
                            - garea.vpn_range.start.0 * PAGE_SIZE) by (nonlinear_arith)
                            requires
                                garea.vpn_range.end.0 * (PAGE_SIZE as int) >= seg.vaddr as int
                                    + seg.mem_size,
                                garea.vpn_range.page_count() == garea.vpn_range.end.0
                                    - garea.vpn_range.start.0,
                        ;
                        assert(offset == seg.vaddr - garea.vpn_range.start.0 * PAGE_SIZE);
                    }
                    assert(garea.vpn_range.end.0 <= usize::MAX as int / PAGE_SIZE as int) by {
                        vstd::arithmetic::div_mod::lemma_div_is_ordered(
                            USER_ADDR_CEIL as int + PAGE_SIZE - 1,
                            usize::MAX as int,
                            PAGE_SIZE as int,
                        );
                    }
                }
                let data_slice = vstd::slice::slice_subrange(
                    elf_data,
                    seg.offset,
                    seg.offset + seg.file_size,
                );
                memory_set.push_with_offset(arena, area, offset, Some(data_slice));
                proof {
                    lemma_area_corr_extend(gd, pre_ms.areas@, memory_set.areas@, i as int);
                    assert forall|j: int|
                        0 <= j < i + 1 && #[trigger] is_load(gd, j) implies spec_ceil(
                        seg_vaddr(gd, j) + seg_mem_size(gd, j),
                    ) <= max_end_vpn by {
                        if j < i {
                            assert(spec_ceil(seg_vaddr(gd, j) + seg_mem_size(gd, j))
                                <= spec_floor(seg_vaddr(gd, i as int)));
                            vstd::arithmetic::div_mod::lemma_div_is_ordered(
                                seg_vaddr(gd, i as int),
                                seg_vaddr(gd, i as int) + seg_mem_size(gd, i as int) + PAGE_SIZE
                                    - 1,
                                PAGE_SIZE as int,
                            );
                        }
                    }
                }
            } else {
                proof {
                    lemma_head_va_extend(gd, 0, i as int);
                    assert(!is_load(gd, i as int)) by {
                        assert(seg_matches(gd, i as int, segs@[i as int]));
                    }
                }
            }
            i = i + 1;
        }
        let mut auxv: Vec<AuxHeader> = Vec::new();
        auxv.push(AuxHeader { aux_type: AT_PHENT, value: 56 });
        auxv.push(AuxHeader { aux_type: AT_PHNUM, value: count16 as usize });
        auxv.push(AuxHeader { aux_type: AT_PAGESZ, value: PAGE_SIZE });
        auxv.push(AuxHeader { aux_type: AT_BASE, value: 0 });
        auxv.push(AuxHeader { aux_type: AT_FLAGS, value: 0 });
        auxv.push(AuxHeader { aux_type: AT_ENTRY, value: entry64 as usize });
        auxv.push(AuxHeader { aux_type: AT_UID, value: 0 });
        auxv.push(AuxHeader { aux_type: AT_EUID, value: 0 });
        auxv.push(AuxHeader { aux_type: AT_GID, value: 0 });
        auxv.push(AuxHeader { aux_type: AT_EGID, value: 0 });
        auxv.push(AuxHeader { aux_type: AT_PLATFORM, value: 0 });
        auxv.push(AuxHeader { aux_type: AT_HWCAP, value: 0 });
        auxv.push(AuxHeader { aux_type: AT_CLKTCK, value: CLOCK_TICKS_PER_SEC });
        auxv.push(AuxHeader { aux_type: AT_SECURE, value: 0 });
        auxv.push(AuxHeader { aux_type: AT_NOTELF, value: NOTELF_VALUE });
        proof {
            assert(auxv@ =~= spec_auxv(gd).take(15));
        }
        let user_heap_bottom: usize = max_end_vpn * PAGE_SIZE + PAGE_SIZE;
        let user_heap_top: usize = user_heap_bottom + USER_HEAP_SIZE;
        proof {
            crate::memory_set::lemma_ceil_of_aligned(user_heap_top as int);
            lemma_page_split(max_end_vpn as int + 1, 0);
            lemma_page_split(max_end_vpn as int + 1, USER_HEAP_SIZE as int);
            assert(spec_floor(user_heap_bottom as int) == max_end_vpn + 1);
            assert(spec_ceil(user_heap_top as int) == max_end_vpn + 1 + USER_HEAP_SIZE
                / PAGE_SIZE);
            assert(max_end_vpn + 1 + USER_HEAP_SIZE / PAGE_SIZE
                <= crate::memory_set::signal_trampoline_vpn()) by {
                vstd::arithmetic::div_mod::lemma_div_is_ordered(
                    USER_ADDR_CEIL as int + PAGE_SIZE + USER_HEAP_SIZE,
                    crate::config::SIGNAL_TRAMPOLINE as int,
                    PAGE_SIZE as int,
                );
                assert((USER_ADDR_CEIL as int + PAGE_SIZE + USER_HEAP_SIZE) / (PAGE_SIZE as int)
                    == USER_ADDR_CEIL / PAGE_SIZE + 1 + USER_HEAP_SIZE / PAGE_SIZE);
            }
            assert forall|a: int|
                0 <= a < memory_set.areas@.len() implies (VPNRangeOf::range(
                max_end_vpn + 1,
                max_end_vpn + 1 + USER_HEAP_SIZE / PAGE_SIZE,
            )).disjoint((#[trigger] memory_set.areas@[a]).vpn_range) by {
                let j = choose|j: int|
                    0 <= j < n && #[trigger] is_load(gd, j) && memory_set.areas@[
                    a].vpn_range.start.0 == spec_floor(seg_vaddr(gd, j)) && memory_set.areas@[
                    a].vpn_range.end.0 == spec_ceil(seg_vaddr(gd, j) + seg_mem_size(gd, j));
            }
        }
        let ghost ms0 = memory_set;
        memory_set.push(
            arena,
            MapArea::new(
                VirtAddr(user_heap_bottom),
                VirtAddr(user_heap_top),
                MapType::Framed,
                MapPermission::new(true, true, false, true),
            ),
            None,
        );
        proof {
            assert((TRAP_CONTEXT as int) % (PAGE_SIZE as int) == 0);
            assert((crate::config::SIGNAL_TRAMPOLINE as int) % (PAGE_SIZE as int) == 0);
            crate::memory_set::lemma_ceil_of_aligned(
                TRAP_CONTEXT as int + PAGE_SIZE,
            );
            assert(spec_ceil(TRAP_CONTEXT as int + PAGE_SIZE)
                == crate::memory_set::signal_trampoline_vpn());
            assert(spec_floor(TRAP_CONTEXT as int) + 1 == spec_ceil(
                TRAP_CONTEXT as int + PAGE_SIZE,
            ));
            assert(spec_floor(TRAP_CONTEXT as int) >= max_end_vpn + 1 + USER_HEAP_SIZE
                / PAGE_SIZE) by {
                vstd::arithmetic::div_mod::lemma_div_is_ordered(
                    USER_ADDR_CEIL as int + PAGE_SIZE + USER_HEAP_SIZE,
                    TRAP_CONTEXT as int,
                    PAGE_SIZE as int,
                );
                assert((USER_ADDR_CEIL as int + PAGE_SIZE + USER_HEAP_SIZE) / (PAGE_SIZE as int)
                    == USER_ADDR_CEIL / PAGE_SIZE + 1 + USER_HEAP_SIZE / PAGE_SIZE);
            }
            assert forall|a: int|
                0 <= a < memory_set.areas@.len() implies (VPNRangeOf::range(
                spec_floor(TRAP_CONTEXT as int),
                spec_floor(TRAP_CONTEXT as int) + 1,
            )).disjoint((#[trigger] memory_set.areas@[a]).vpn_range) by {
                if a < ms0.areas@.len() {
                    assert(memory_set.areas@[a] == ms0.areas@[a]);
                    let j = choose|j: int|
                        0 <= j < n && #[trigger] is_load(gd, j) && ms0.areas@[a].vpn_range.start.0
                            == spec_floor(seg_vaddr(gd, j)) && ms0.areas@[a].vpn_range.end.0
                            == spec_ceil(seg_vaddr(gd, j) + seg_mem_size(gd, j));
                } else {
                    assert(memory_set.areas@[a] == memory_set.areas@.last());
                }
            }
        }
        let ghost ms1 = memory_set;
        memory_set.push(
            arena,
            MapArea::new(
                VirtAddr(TRAP_CONTEXT),
                VirtAddr(TRAP_CONTEXT + PAGE_SIZE),
                MapType::Framed,
                MapPermission::new(true, true, false, false),
            ),
            None,
        );
        let user_stack_top: usize = USER_STACK;
        let user_stack_bottom: usize = user_stack_top - USER_STACK_SIZE;
        proof {
            assert((user_stack_bottom as int) % (PAGE_SIZE as int) == 0);
            assert((user_stack_top as int) % (PAGE_SIZE as int) == 0);
            crate::memory_set::lemma_ceil_of_aligned(user_stack_top as int);
            assert(spec_ceil(user_stack_top as int) <= spec_floor(TRAP_CONTEXT as int)) by {
                vstd::arithmetic::div_mod::lemma_div_is_ordered(
                    user_stack_top as int,
                    TRAP_CONTEXT as int,
                    PAGE_SIZE as int,
                );
            }
            assert(spec_floor(user_stack_bottom as int) >= max_end_vpn + 1 + USER_HEAP_SIZE
                / PAGE_SIZE) by {
                vstd::arithmetic::div_mod::lemma_div_is_ordered(
                    USER_ADDR_CEIL as int + PAGE_SIZE + USER_HEAP_SIZE,
                    user_stack_bottom as int,
                    PAGE_SIZE as int,
                );
                assert((USER_ADDR_CEIL as int + PAGE_SIZE + USER_HEAP_SIZE) / (PAGE_SIZE as int)
                    == USER_ADDR_CEIL / PAGE_SIZE + 1 + USER_HEAP_SIZE / PAGE_SIZE);
            }
            assert(spec_ceil(user_stack_top as int) <= crate::memory_set::signal_trampoline_vpn())
                by {
                vstd::arithmetic::div_mod::lemma_div_is_ordered(
                    user_stack_top as int,
                    crate::config::SIGNAL_TRAMPOLINE as int,
                    PAGE_SIZE as int,
                );
            }
            assert forall|a: int|
                0 <= a < memory_set.areas@.len() implies (VPNRangeOf::range(
                spec_floor(user_stack_bottom as int),
                spec_ceil(user_stack_top as int),
            )).disjoint((#[trigger] memory_set.areas@[a]).vpn_range) by {
                if a < ms0.areas@.len() {
                    assert(memory_set.areas@[a] == ms0.areas@[a]);
                    let j = choose|j: int|
                        0 <= j < n && #[trigger] is_load(gd, j) && ms0.areas@[a].vpn_range.start.0
                            == spec_floor(seg_vaddr(gd, j)) && ms0.areas@[a].vpn_range.end.0
                            == spec_ceil(seg_vaddr(gd, j) + seg_mem_size(gd, j));
                } else if a < ms1.areas@.len() {
                    assert(memory_set.areas@[a] == ms1.areas@[a]);
                    assert(memory_set.areas@[a] == ms1.areas@.last());
                } else {
                    assert(memory_set.areas@[a] == memory_set.areas@.last());
                }
            }
        }
        let ghost ms2 = memory_set;
        memory_set.push(
            arena,
            MapArea::new(
                VirtAddr(user_stack_bottom),
                VirtAddr(user_stack_top),
                MapType::Framed,
                MapPermission::new(true, true, false, true),
            ),
            None,
        );
        let signal_stack_top: usize = USER_SIGNAL_STACK;
        let signal_stack_bottom: usize = signal_stack_top - SIGNAL_STACK_SIZE;
        proof {
            assert((signal_stack_bottom as int) % (PAGE_SIZE as int) == 0);
            assert((signal_stack_top as int) % (PAGE_SIZE as int) == 0);
            crate::memory_set::lemma_ceil_of_aligned(signal_stack_top as int);
            assert(spec_ceil(signal_stack_top as int) <= spec_floor(user_stack_bottom as int)) by {
                vstd::arithmetic::div_mod::lemma_div_is_ordered(
                    signal_stack_top as int,
                    user_stack_bottom as int,
                    PAGE_SIZE as int,
                );
            }
            assert(spec_floor(signal_stack_bottom as int) >= max_end_vpn + 1 + USER_HEAP_SIZE
                / PAGE_SIZE) by {
                vstd::arithmetic::div_mod::lemma_div_is_ordered(
                    USER_ADDR_CEIL as int + PAGE_SIZE + USER_HEAP_SIZE,
                    signal_stack_bottom as int,
                    PAGE_SIZE as int,
                );
                assert((USER_ADDR_CEIL as int + PAGE_SIZE + USER_HEAP_SIZE) / (PAGE_SIZE as int)
                    == USER_ADDR_CEIL / PAGE_SIZE + 1 + USER_HEAP_SIZE / PAGE_SIZE);
            }
            assert(spec_ceil(signal_stack_top as int)
                <= crate::memory_set::signal_trampoline_vpn()) by {
                vstd::arithmetic::div_mod::lemma_div_is_ordered(
                    signal_stack_top as int,
                    crate::config::SIGNAL_TRAMPOLINE as int,
                    PAGE_SIZE as int,
                );
            }
            assert forall|a: int|
                0 <= a < memory_set.areas@.len() implies (VPNRangeOf::range(
                spec_floor(signal_stack_bottom as int),
                spec_ceil(signal_stack_top as int),
            )).disjoint((#[trigger] memory_set.areas@[a]).vpn_range) by {
                if a < ms0.areas@.len() {
                    assert(memory_set.areas@[a] == ms0.areas@[a]);
                    let j = choose|j: int|
                        0 <= j < n && #[trigger] is_load(gd, j) && ms0.areas@[a].vpn_range.start.0
                            == spec_floor(seg_vaddr(gd, j)) && ms0.areas@[a].vpn_range.end.0
                            == spec_ceil(seg_vaddr(gd, j) + seg_mem_size(gd, j));
                } else if a < ms1.areas@.len() {
                    assert(memory_set.areas@[a] == ms1.areas@.last());
                } else if a < ms2.areas@.len() {
                    assert(memory_set.areas@[a] == ms2.areas@.last());
                } else {
                    assert(memory_set.areas@[a] == memory_set.areas@.last());
                }
            }
        }
        let ghost ms3 = memory_set;
        memory_set.push(
            arena,
            MapArea::new(
                VirtAddr(signal_stack_bottom),
                VirtAddr(signal_stack_top),
                MapType::Framed,
                MapPermission::new(true, true, false, true),
            ),
            None,
        );
        let ph_head_addr: usize = head_va + ph_off64 as usize;
        auxv.push(AuxHeader { aux_type: AT_PHDR, value: ph_head_addr });
        proof {
            assert(auxv@ =~= spec_auxv(gd));
            let m = memory_set.areas@.len();
            assert(memory_set.areas@[m - 4] == ms1.areas@.last());
            assert(memory_set.areas@[m - 3] == ms2.areas@.last());
            assert(memory_set.areas@[m - 2] == ms3.areas@.last());
        }
        Ok((memory_set, user_stack_top, user_heap_bottom, entry64 as usize, auxv))
    }
}

/// Helper namespace for building page ranges in specifications.
pub struct VPNRangeOf {}

impl VPNRangeOf {
    /// The half-open page range `[start, end)`.
    pub open spec fn range(start: int, end: int) -> crate::area::VPNRange {
        crate::area::VPNRange {
            start: VirtPageNum(start as usize),
            end: VirtPageNum(end as usize),
        }
    }
}

} // verus!
