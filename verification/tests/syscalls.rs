//! Exercises of the system-call decision layer: identities, heap
//! adjustment, fork planning, waiting, mapping calls and the page-fault
//! classifier.

use ultra_mm::addr::{VirtAddr, VirtPageNum};
use ultra_mm::area::MapPermission;
use ultra_mm::config::{CLONE_CHILD_CLEARTID, CLONE_CHILD_SETTID, PAGE_SIZE, SIGCHLD};
use ultra_mm::frame::FrameArena;
use ultra_mm::memory_set::MemorySet;
use ultra_mm::process::{ChildInfo, ProcessInfo, TidAddress};
use ultra_mm::syscall::{
    classify_page_fault, sys_brk, sys_fork, sys_getegid, sys_geteuid, sys_getgid, sys_getpid,
    sys_getppid, sys_gettid, sys_getuid, sys_mmap, sys_mprotect, sys_munmap, sys_sbrk,
    sys_set_tid_address, sys_uname, sys_wait4, sys_waitpid, sys_yield, FaultAction, WaitAction,
};

fn test_proc() -> ProcessInfo {
    ProcessInfo {
        pid: 7,
        tgid: 5,
        parent_tgid: Some(1),
        tid_address: TidAddress { set_child_tid: 0, clear_child_tid: 0 },
        children: Vec::new(),
        heap_end: 0x4000,
    }
}

#[test]
fn identity_calls() {
    let p = test_proc();
    assert_eq!(sys_getuid(), 0);
    assert_eq!(sys_geteuid(), 0);
    assert_eq!(sys_getgid(), 0);
    assert_eq!(sys_getegid(), 0);
    assert_eq!(sys_yield(), 0);
    assert_eq!(sys_getpid(&p), 5);
    assert_eq!(sys_gettid(&p), 7);
    assert_eq!(sys_getppid(&p), 1);
}

#[test]
fn tid_address_is_recorded() {
    let mut p = test_proc();
    let r = sys_set_tid_address(&mut p, 0xdead_b000);
    assert_eq!(r, 7);
    assert_eq!(p.tid_address.clear_child_tid, 0xdead_b000);
}

#[test]
fn heap_calls() {
    let mut p = test_proc();
    assert_eq!(sys_sbrk(&mut p, 0x1000, 0), 0x5000);
    assert_eq!(p.heap_end, 0x5000);
    assert_eq!(sys_sbrk(&mut p, -0x800, 1), 0x4800);
    assert_eq!(sys_brk(&mut p, 0), 0x4800);
    assert_eq!(sys_brk(&mut p, 0x9000), 0);
    assert_eq!(p.heap_end, 0x9000);
}

#[test]
fn fork_plans() {
    let plan = sys_fork(SIGCHLD, 0, 0, 0, 42);
    assert_eq!(plan.parent_return, 42);
    assert_eq!(plan.child_return, 0);
    assert_eq!(plan.set_child_tid, None);
    assert_eq!(plan.clear_child_tid, None);
    assert_eq!(plan.child_stack, None);

    let plan = sys_fork(CLONE_CHILD_SETTID, 0x8000, 0, 0x77770, 43);
    assert_eq!(plan.set_child_tid, Some(0x77770));
    assert_eq!(plan.write_tid_at, Some(0x77770));
    assert_eq!(plan.clear_child_tid, None);
    assert_eq!(plan.child_stack, Some(0x8000));
    assert_eq!(plan.parent_return, 43);

    let plan = sys_fork(CLONE_CHILD_CLEARTID, 0, 0, 0x88880, 44);
    assert_eq!(plan.clear_child_tid, Some(0x88880));
    assert_eq!(plan.set_child_tid, None);
}

#[test]
fn wait_reports_missing_and_running_children() {
    let mut p = test_proc();
    assert!(matches!(sys_wait4(&mut p, -1, 0, 0), WaitAction::NoChild));
    p.children.push(ChildInfo { pid: 9, tgid: 9, zombie: false, exit_code: 0 });
    assert!(matches!(sys_wait4(&mut p, -1, 0, 0), WaitAction::Wait));
    assert!(matches!(sys_wait4(&mut p, 9, 0, 0), WaitAction::Wait));
    assert!(matches!(sys_wait4(&mut p, 12, 0, 0), WaitAction::NoChild));
    assert_eq!(p.children.len(), 1);
}

#[test]
fn wait_reaps_first_matching_zombie() {
    let mut p = test_proc();
    p.children.push(ChildInfo { pid: 9, tgid: 9, zombie: false, exit_code: 0 });
    p.children.push(ChildInfo { pid: 10, tgid: 10, zombie: true, exit_code: 3 });
    p.children.push(ChildInfo { pid: 11, tgid: 11, zombie: true, exit_code: 4 });
    match sys_wait4(&mut p, -1, 0x1000, 0) {
        WaitAction::Reaped(pid, status) => {
            assert_eq!(pid, 10);
            assert_eq!(status, 3 * 256);
        },
        _ => panic!("the first matching zombie must be reaped"),
    }
    assert_eq!(p.children.len(), 2);
    assert_eq!(p.children[0].pid, 9);
    assert_eq!(p.children[1].pid, 11);

    match sys_waitpid(&mut p, 11) {
        WaitAction::Reaped(pid, code) => {
            assert_eq!(pid, 11);
            assert_eq!(code, 4);
        },
        _ => panic!("a named zombie child must be reaped"),
    }
    assert_eq!(p.children.len(), 1);
}

#[test]
fn mmap_munmap_and_mprotect() {
    let mut arena = FrameArena::new(0x90000, 64);
    let mut ms = MemorySet::new_bare(&mut arena);
    let r = sys_mmap(&mut ms, &mut arena, 0x2_0000, 2 * PAGE_SIZE, 0b011, 0, 0, 0);
    assert_eq!(r, 0x2_0000);
    let pte = ms.translate(VirtPageNum(0x20)).unwrap();
    assert!(pte.readable());
    assert!(pte.writable());
    assert!(!pte.executable());

    // protection change walks every page of the range
    assert_eq!(sys_mprotect(&mut ms, &arena, 0x2_0000, 2 * PAGE_SIZE, 0b001), 0);
    let pte = ms.translate(VirtPageNum(0x21)).unwrap();
    assert!(pte.readable());
    assert!(!pte.writable());
    // a misaligned request is rejected
    assert_eq!(sys_mprotect(&mut ms, &arena, 0x2_0010, PAGE_SIZE, 0b001), -1);

    assert_eq!(sys_munmap(&mut ms, &mut arena, 0x2_0000, 2 * PAGE_SIZE), 0);
    assert!(ms.translate(VirtPageNum(0x20)).is_none());
    assert_eq!(sys_munmap(&mut ms, &mut arena, 0x2_0000, 2 * PAGE_SIZE), -1);
}

#[test]
fn uname_record() {
    let mut buf: Vec<u8> = Vec::new();
    assert_eq!(sys_uname(&mut buf), 0);
    assert_eq!(buf.len(), 6 * 65);
    assert_eq!(&buf[0..7], b"UltraOS");
    assert_eq!(buf[7], 0);
    assert_eq!(&buf[65..72], b"UltraOS");
    assert_eq!(&buf[130..135], b"Alpha");
    assert_eq!(&buf[195..198], b"1.1");
    assert_eq!(&buf[260..268], b"RISC-V64");
    assert_eq!(&buf[325..342], b"UltraTEAM/UltraOS");
    assert_eq!(buf[342], 0);
}

#[test]
fn page_fault_classification() {
    let mut arena = FrameArena::new(0x90000, 64);
    let mut parent = MemorySet::new_bare(&mut arena);
    parent.insert_framed_area(
        &mut arena,
        VirtAddr(0x10000),
        VirtAddr(0x11000),
        MapPermission::new(true, true, false, true),
    );
    // a plain writable page is not a resolvable fault
    assert_eq!(
        classify_page_fault(&parent, VirtAddr(0x10004)),
        FaultAction::Terminate
    );
    let _child = MemorySet::from_copy_on_write(&mut arena, &mut parent, 0);
    // after the fork the same page faults as copy-on-write
    assert_eq!(
        classify_page_fault(&parent, VirtAddr(0x10004)),
        FaultAction::Resolve
    );
    // an unmapped address terminates
    assert_eq!(
        classify_page_fault(&parent, VirtAddr(0x55000)),
        FaultAction::Terminate
    );
}
