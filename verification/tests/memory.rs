//! End-to-end exercises of the address-space core: kernel layout,
//! image loading, byte round trips, copy-on-write forking, fault
//! resolution and region removal.

use ultra_mm::addr::{PhysPageNum, VirtAddr, VirtPageNum};
use ultra_mm::area::{MapPermission, MapType};
use ultra_mm::config::{
    PAGE_SIZE, SIGNAL_TRAMPOLINE, TRAMPOLINE, USER_HEAP_SIZE, USER_STACK, USER_STACK_SIZE,
};
use ultra_mm::elf::{AuxHeader, ImageError};
use ultra_mm::frame::FrameArena;
use ultra_mm::memory_set::{KernelLayout, KernelToken, MemorySet};

fn test_layout() -> KernelLayout {
    KernelLayout {
        stext: 0x8020_0000,
        etext: 0x8020_4000,
        srodata: 0x8020_4000,
        erodata: 0x8020_6000,
        sdata: 0x8020_6000,
        edata: 0x8020_8000,
        sbss_with_stack: 0x8020_8000,
        ebss: 0x8021_0000,
        ekernel: 0x8021_0000,
        strampoline: 0x8020_0000,
        ssignaltrampoline: 0x8020_1000,
    }
}

fn put_u16(v: &mut Vec<u8>, off: usize, x: u16) {
    v[off] = (x & 0xff) as u8;
    v[off + 1] = (x >> 8) as u8;
}

fn put_u32(v: &mut Vec<u8>, off: usize, x: u32) {
    for k in 0..4 {
        v[off + k] = ((x >> (8 * k)) & 0xff) as u8;
    }
}

fn put_u64(v: &mut Vec<u8>, off: usize, x: u64) {
    for k in 0..8 {
        v[off + k] = ((x >> (8 * k)) & 0xff) as u8;
    }
}

/// An image with two loadable segments: read+execute code at 0x1000 of
/// size 0x1000 whose file bytes count up, and read+write data at 0x2010
/// (a 0x10-byte intra-page misalignment) of size 0x800.
fn two_segment_image() -> Vec<u8> {
    let code_bytes: Vec<u8> = (0..256u32).map(|i| (i % 251) as u8).collect();
    let data_bytes: Vec<u8> = (0..0x300u32).map(|i| (i * 7 % 253) as u8).collect();
    let ph_off = 64usize;
    let code_off = 64 + 2 * 56;
    let data_off = code_off + code_bytes.len();
    let mut img = vec![0u8; data_off + data_bytes.len()];
    img[0] = 0x7f;
    img[1] = 0x45;
    img[2] = 0x4c;
    img[3] = 0x46;
    put_u64(&mut img, 24, 0x1000);
    put_u64(&mut img, 32, ph_off as u64);
    put_u16(&mut img, 54, 56);
    put_u16(&mut img, 56, 2);
    let base0 = ph_off;
    put_u32(&mut img, base0, 1);
    put_u32(&mut img, base0 + 4, 0b101);
    put_u64(&mut img, base0 + 8, code_off as u64);
    put_u64(&mut img, base0 + 16, 0x1000);
    put_u64(&mut img, base0 + 32, code_bytes.len() as u64);
    put_u64(&mut img, base0 + 40, 0x1000);
    let base1 = ph_off + 56;
    put_u32(&mut img, base1, 1);
    put_u32(&mut img, base1 + 4, 0b110);
    put_u64(&mut img, base1 + 8, data_off as u64);
    put_u64(&mut img, base1 + 16, 0x2010);
    put_u64(&mut img, base1 + 32, data_bytes.len() as u64);
    put_u64(&mut img, base1 + 40, 0x800);
    for (i, b) in code_bytes.iter().enumerate() {
        img[code_off + i] = *b;
    }
    for (i, b) in data_bytes.iter().enumerate() {
        img[data_off + i] = *b;
    }
    img
}

#[test]
fn kernel_space_identity_and_protection() {
    let mut arena = FrameArena::new(0x90000, 64);
    let layout = test_layout();
    let kernel = MemorySet::new_kernel(&mut arena, &layout);

    let mid_text = VirtAddr((layout.stext + layout.etext) / 2).floor();
    let pte = kernel.translate(mid_text).unwrap();
    assert_eq!(pte.ppn().0, mid_text.0);
    assert!(!pte.writable());
    assert!(pte.executable());

    let mid_rodata = VirtAddr((layout.srodata + layout.erodata) / 2).floor();
    let pte = kernel.translate(mid_rodata).unwrap();
    assert_eq!(pte.ppn().0, mid_rodata.0);
    assert!(!pte.writable());

    let mid_data = VirtAddr((layout.sdata + layout.edata) / 2).floor();
    let pte = kernel.translate(mid_data).unwrap();
    assert!(!pte.executable());
    assert!(pte.writable());

    let mmio = VirtAddr(0x1000_1000).floor();
    let pte = kernel.translate(mmio).unwrap();
    assert_eq!(pte.ppn().0, mmio.0);

    // a gap far below the kernel sections never translates
    assert!(kernel.translate(VirtPageNum(0x2000)).is_none());

    // the trampoline page is installed outside the region list
    let tramp = VirtAddr(TRAMPOLINE).floor();
    let pte = kernel.translate(tramp).unwrap();
    assert_eq!(pte.ppn().0, layout.strampoline / PAGE_SIZE);

    let token = KernelToken { token: kernel.token() };
    assert_eq!(token.token(), kernel.token());
    assert_eq!(kernel.token() >> 60, 8);
}

#[test]
fn image_load_two_segments() {
    let mut arena = FrameArena::new(0x90000, 256);
    let layout = test_layout();
    let img = two_segment_image();
    let (ms, user_sp, heap_bottom, entry, auxv) =
        MemorySet::from_elf(&mut arena, &layout, &img).unwrap();

    assert_eq!(user_sp, USER_STACK);
    assert_eq!(entry, 0x1000);
    // highest segment ends at 0x2810, rounded to 0x3000; one guard page above
    assert_eq!(heap_bottom, 0x4000);
    assert!(heap_bottom >= 0x4000);

    let entry_aux: Vec<&AuxHeader> = auxv.iter().filter(|a| a.aux_type == 9).collect();
    assert_eq!(entry_aux.len(), 1);
    assert_eq!(entry_aux[0].value, 0x1000);
    let page_aux: Vec<&AuxHeader> = auxv.iter().filter(|a| a.aux_type == 6).collect();
    assert_eq!(page_aux[0].value, PAGE_SIZE);
    let phdr_aux: Vec<&AuxHeader> = auxv.iter().filter(|a| a.aux_type == 3).collect();
    assert_eq!(phdr_aux[0].value, 0x1000 + 64);

    // every declared page translates
    assert!(ms.translate(VirtPageNum(1)).is_some());
    assert!(ms.translate(VirtPageNum(2)).is_some());
    for p in heap_bottom / PAGE_SIZE..(heap_bottom + USER_HEAP_SIZE) / PAGE_SIZE {
        assert!(ms.translate(VirtPageNum(p)).is_some());
    }
    for p in (USER_STACK - USER_STACK_SIZE) / PAGE_SIZE..USER_STACK / PAGE_SIZE {
        assert!(ms.translate(VirtPageNum(p)).is_some());
    }
    // the guard gap between the image and the heap does not
    assert!(ms.translate(VirtPageNum(3)).is_none());
    assert!(ms.translate(VirtPageNum(0)).is_none());
    // trampolines are present
    assert!(ms.translate(VirtAddr(TRAMPOLINE).floor()).is_some());
    assert!(ms.translate(VirtAddr(SIGNAL_TRAMPOLINE).floor()).is_some());

    // segment bytes landed at their addresses, offset included
    let code = ms.read_bytes(&arena, VirtAddr(0x1000), 256);
    for (i, b) in code.iter().enumerate() {
        assert_eq!(*b, (i as u32 % 251) as u8);
    }
    let data = ms.read_bytes(&arena, VirtAddr(0x2010), 0x300);
    for (i, b) in data.iter().enumerate() {
        assert_eq!(*b, (i as u32 * 7 % 253) as u8);
    }
    // the zero-filled tail of the data segment
    let tail = ms.read_bytes(&arena, VirtAddr(0x2010 + 0x300), 0x100);
    assert!(tail.iter().all(|b| *b == 0));
}

#[test]
fn image_rejects_bad_magic() {
    let mut arena = FrameArena::new(0x90000, 256);
    let layout = test_layout();
    let mut img = two_segment_image();
    img[1] = 0x00;
    match MemorySet::from_elf(&mut arena, &layout, &img) {
        Err(ImageError::InvalidImage) => {},
        _ => panic!("a corrupted signature must be rejected"),
    }
    assert_eq!(arena.free_count(), 256);
}

#[test]
fn image_rejects_truncated_file_bytes() {
    let mut arena = FrameArena::new(0x90000, 256);
    let layout = test_layout();
    let mut img = two_segment_image();
    // claim more file bytes than the buffer holds
    put_u64(&mut img, 64 + 32, 0x10_0000);
    assert!(MemorySet::from_elf(&mut arena, &layout, &img).is_err());
}

#[test]
fn copy_round_trip_with_offset() {
    let mut arena = FrameArena::new(0x90000, 64);
    let mut ms = MemorySet::new_bare(&mut arena);
    ms.insert_framed_area(
        &mut arena,
        VirtAddr(0x10000),
        VirtAddr(0x13000),
        MapPermission::new(true, true, false, true),
    );
    let n = 2 * PAGE_SIZE + 100;
    let bytes: Vec<u8> = (0..n).map(|i| (i % 241) as u8).collect();
    let offset = 0x123;
    ms.areas[0].copy_data(&ms.page_table, &mut arena, &bytes, offset);
    let back = ms.read_bytes(&arena, VirtAddr(0x10000 + offset), n);
    assert_eq!(back, bytes);
    // bytes before the window kept their zero fill
    let before = ms.read_bytes(&arena, VirtAddr(0x10000), offset);
    assert!(before.iter().all(|b| *b == 0));
}

#[test]
fn eager_copy_duplicates_bytes() {
    let mut arena = FrameArena::new(0x90000, 64);
    let mut ms = MemorySet::new_bare(&mut arena);
    ms.insert_framed_area(
        &mut arena,
        VirtAddr(0x10000),
        VirtAddr(0x11000),
        MapPermission::new(true, true, false, true),
    );
    let bytes: Vec<u8> = (0..PAGE_SIZE).map(|i| (i % 199) as u8).collect();
    ms.areas[0].copy_data(&ms.page_table, &mut arena, &bytes, 0);
    let copy = MemorySet::from_existed_user(&mut arena, &ms);
    let src_ppn = ms.translate(VirtPageNum(0x10)).unwrap().ppn();
    let dst_ppn = copy.translate(VirtPageNum(0x10)).unwrap().ppn();
    assert_ne!(src_ppn.0, dst_ppn.0);
    assert_eq!(copy.read_bytes(&arena, VirtAddr(0x10000), PAGE_SIZE), bytes);
    // writing the copy leaves the original untouched
    arena.write_byte(dst_ppn, 0, 0xaa);
    assert_eq!(ms.read_bytes(&arena, VirtAddr(0x10000), 1), vec![bytes[0]]);
}

#[test]
fn cow_fork_shares_frames_read_only() {
    let mut arena = FrameArena::new(0x90000, 64);
    let mut parent = MemorySet::new_bare(&mut arena);
    parent.insert_framed_area(
        &mut arena,
        VirtAddr(0x10000),
        VirtAddr(0x12000),
        MapPermission::new(true, true, false, true),
    );
    let bytes: Vec<u8> = (0..300).map(|i| (i % 97) as u8).collect();
    parent.areas[0].copy_data(&parent.page_table, &mut arena, &bytes, 0);

    let child = MemorySet::from_copy_on_write(&mut arena, &mut parent, 0);

    for p in 0x10..0x12 {
        let ppte = parent.translate(VirtPageNum(p)).unwrap();
        let cpte = child.translate(VirtPageNum(p)).unwrap();
        assert_eq!(ppte.ppn().0, cpte.ppn().0);
        assert!(!ppte.writable());
        assert!(!cpte.writable());
        assert!(ppte.is_cow());
        assert!(cpte.is_cow());
        assert_eq!(arena.ref_count(ppte.ppn()), 2);
    }
    // both sides still read the same bytes
    assert_eq!(child.read_bytes(&arena, VirtAddr(0x10000), 300), bytes);
    assert_eq!(parent.read_bytes(&arena, VirtAddr(0x10000), 300), bytes);
}

#[test]
fn cow_fault_resolution_copies_then_restores() {
    let mut arena = FrameArena::new(0x90000, 64);
    let mut parent = MemorySet::new_bare(&mut arena);
    parent.insert_framed_area(
        &mut arena,
        VirtAddr(0x10000),
        VirtAddr(0x11000),
        MapPermission::new(true, true, false, true),
    );
    let bytes: Vec<u8> = (0..PAGE_SIZE).map(|i| (i % 83) as u8).collect();
    parent.areas[0].copy_data(&parent.page_table, &mut arena, &bytes, 0);
    let mut child = MemorySet::from_copy_on_write(&mut arena, &mut parent, 0);

    let vpn = VirtPageNum(0x10);
    let shared = parent.translate(vpn).unwrap().ppn();
    assert_eq!(arena.ref_count(shared), 2);

    // the shared frame has two sharers: the child gets a private copy
    let r = child.cow_alloc(&mut arena, vpn, shared);
    assert_eq!(r, 0);
    let child_pte = child.translate(vpn).unwrap();
    assert_ne!(child_pte.ppn().0, shared.0);
    assert!(child_pte.writable());
    assert!(!child_pte.is_cow());
    assert_eq!(child.read_bytes(&arena, VirtAddr(0x10000), PAGE_SIZE), bytes);
    assert_eq!(arena.ref_count(shared), 1);

    // the parent is now the sole sharer: write access returns in place
    let r = parent.cow_alloc(&mut arena, vpn, shared);
    assert_eq!(r, 0);
    let ppte = parent.translate(vpn).unwrap();
    assert_eq!(ppte.ppn().0, shared.0);
    assert!(ppte.writable());
    assert!(!ppte.is_cow());
    assert_eq!(parent.read_bytes(&arena, VirtAddr(0x10000), PAGE_SIZE), bytes);
}

#[test]
fn split_fork_duplicates_upper_regions() {
    let mut arena = FrameArena::new(0x90000, 64);
    let mut parent = MemorySet::new_bare(&mut arena);
    parent.insert_framed_area(
        &mut arena,
        VirtAddr(0x10000),
        VirtAddr(0x11000),
        MapPermission::new(true, true, false, true),
    );
    parent.insert_framed_area(
        &mut arena,
        VirtAddr(0x30000),
        VirtAddr(0x31000),
        MapPermission::new(true, true, false, true),
    );
    let low: Vec<u8> = vec![1; 16];
    let high: Vec<u8> = vec![2; 16];
    parent.areas[0].copy_data(&parent.page_table, &mut arena, &low, 0);
    parent.areas[1].copy_data(&parent.page_table, &mut arena, &high, 0);

    let child = MemorySet::from_copy_on_write(&mut arena, &mut parent, 0x20000);

    // the low region is shared copy-on-write
    let lp = parent.translate(VirtPageNum(0x10)).unwrap();
    let lc = child.translate(VirtPageNum(0x10)).unwrap();
    assert_eq!(lp.ppn().0, lc.ppn().0);
    assert!(lp.is_cow() && lc.is_cow());
    assert_eq!(arena.ref_count(lp.ppn()), 2);

    // the high region was copied eagerly into a fresh frame
    let hp = parent.translate(VirtPageNum(0x30)).unwrap();
    let hc = child.translate(VirtPageNum(0x30)).unwrap();
    assert_ne!(hp.ppn().0, hc.ppn().0);
    assert!(!hp.is_cow() && !hc.is_cow());
    assert_eq!(arena.ref_count(hp.ppn()), 1);
    assert_eq!(child.read_bytes(&arena, VirtAddr(0x30000), 16), high);
}

#[test]
fn remove_area_untranslates_and_absent_is_noop() {
    let mut arena = FrameArena::new(0x90000, 64);
    let mut ms = MemorySet::new_bare(&mut arena);
    ms.insert_framed_area(
        &mut arena,
        VirtAddr(0x10000),
        VirtAddr(0x12000),
        MapPermission::new(true, true, false, true),
    );
    assert!(ms.translate(VirtPageNum(0x10)).is_some());
    let free_before = arena.free_count();

    ms.remove_area_with_start_vpn(&mut arena, VirtPageNum(0x10));
    assert!(ms.translate(VirtPageNum(0x10)).is_none());
    assert!(ms.translate(VirtPageNum(0x11)).is_none());
    assert_eq!(ms.areas.len(), 0);
    assert_eq!(arena.free_count(), free_before + 2);

    // removing an absent region changes nothing
    let areas_before = ms.areas.len();
    ms.remove_area_with_start_vpn(&mut arena, VirtPageNum(0x42));
    assert_eq!(ms.areas.len(), areas_before);
    assert_eq!(arena.free_count(), free_before + 2);
}

#[test]
fn recycle_releases_frames_and_keeps_table() {
    let mut arena = FrameArena::new(0x90000, 64);
    let mut ms = MemorySet::new_bare(&mut arena);
    ms.insert_framed_area(
        &mut arena,
        VirtAddr(0x10000),
        VirtAddr(0x12000),
        MapPermission::new(true, true, false, true),
    );
    let free_after_map = arena.free_count();
    ms.recycle_data_pages(&mut arena);
    assert_eq!(ms.areas.len(), 0);
    assert_eq!(arena.free_count(), free_after_map + 2);
    // the table structure itself still answers lookups
    assert!(ms.translate(VirtPageNum(0x10)).is_some());
}

#[test]
fn area_flag_and_type_accessors() {
    let mut arena = FrameArena::new(0x90000, 8);
    let mut ms = MemorySet::new_bare(&mut arena);
    ms.insert_framed_area(
        &mut arena,
        VirtAddr(0x10000),
        VirtAddr(0x11000),
        MapPermission::new(true, false, false, true),
    );
    assert_eq!(ms.areas[0].map_type, MapType::Framed);
    let pte = ms.translate(VirtPageNum(0x10)).unwrap();
    assert!(pte.is_valid());
    assert!(pte.readable());
    assert!(!pte.writable());
    assert!(!pte.is_cow());
    let cloned = ms.clone_areas();
    assert_eq!(cloned.len(), 1);
    assert_eq!(
        cloned[0].vpn_range.get_start().0,
        ms.areas[0].vpn_range.get_start().0
    );
}

#[test]
fn set_flags_and_cow_markers() {
    let mut arena = FrameArena::new(0x90000, 8);
    let mut ms = MemorySet::new_bare(&mut arena);
    ms.insert_framed_area(
        &mut arena,
        VirtAddr(0x10000),
        VirtAddr(0x11000),
        MapPermission::new(true, true, false, true),
    );
    let vpn = VirtPageNum(0x10);
    ms.set_cow(&arena, vpn);
    let pte = ms.translate(vpn).unwrap();
    assert!(pte.is_cow());
    assert!(!pte.writable());
    ms.reset_cow(&arena, vpn);
    let pte = ms.translate(vpn).unwrap();
    assert!(!pte.is_cow());
    assert!(pte.writable());
    // an absent entry reports failure without change
    assert_eq!(ms.set_pte_flags(&arena, VirtPageNum(0x999), 0b1110), -1);
    assert_eq!(ms.set_pte_flags(&arena, vpn, 0b0110), 0);
    let pte = ms.translate(vpn).unwrap();
    assert!(pte.readable());
    assert!(pte.writable());
    assert!(!pte.executable());
}
