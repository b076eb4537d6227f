//! The decision layer of the system calls that spec the process
//! environment: each function computes, from the handed-in process state
//! and arguments, the result and state change the call performs. The
//! surrounding kernel performs the outside work — context switches,
//! user-memory writes, the actual clone — and applies these decisions.

use vstd::prelude::*;

use crate::addr::{spec_floor, VirtAddr, VirtPageNum};
use crate::config::{CLONE_CHILD_CLEARTID, CLONE_CHILD_SETTID, PAGE_SIZE, SIGCHLD};
use crate::frame::FrameArena;
use crate::memory_set::MemorySet;
use crate::page_table::{PTEFlags, PageTableEntry};
use crate::process::{ChildInfo, ProcessInfo};

verus! {

/// Yield the processor; the caller performs the actual switch. Always
/// reports success.
pub fn sys_yield() -> (r: isize)
    ensures
        r == 0,
{
    0
}

/// Real user id: the single-user system reports the superuser.
pub fn sys_getuid() -> (r: isize)
    ensures
        r == 0,
{
    0
}

/// Effective user id: the single-user system reports the superuser.
pub fn sys_geteuid() -> (r: isize)
    ensures
        r == 0,
{
    0
}

/// Real group id: the single-user system reports the superuser's group.
pub fn sys_getgid() -> (r: isize)
    ensures
        r == 0,
{
    0
}

/// Effective group id: the single-user system reports the superuser's
/// group.
pub fn sys_getegid() -> (r: isize)
    ensures
        r == 0,
{
    0
}

/// Process id as user programs see it: the thread-group id.
pub fn sys_getpid(proc_info: &ProcessInfo) -> (r: isize)
    requires
        proc_info.wf(),
    ensures
        r == proc_info.tgid,
{
    proc_info.tgid as isize
}

/// Thread id as user programs see it: the kernel process id.
pub fn sys_gettid(proc_info: &ProcessInfo) -> (r: isize)
    requires
        proc_info.wf(),
    ensures
        r == proc_info.pid,
{
    proc_info.pid as isize
}

/// Parent's process id. The caller guarantees a parent exists; the
/// initial process never asks.
pub fn sys_getppid(proc_info: &ProcessInfo) -> (r: isize)
    requires
        proc_info.wf(),
        proc_info.parent_tgid is Some,
    ensures
        r == proc_info.parent_tgid.unwrap(),
{
    match proc_info.parent_tgid {
        Some(t) => t as isize,
        None => vstd::pervasive::unreached(),
    }
}

/// Remember the address to clear when this thread exits, and report the
/// thread id.
pub fn sys_set_tid_address(proc_info: &mut ProcessInfo, tidptr: usize) -> (r: isize)
    requires
        old(proc_info).wf(),
    ensures
        final(proc_info).tid_address.clear_child_tid == tidptr,
        final(proc_info).tid_address.set_child_tid == old(proc_info).tid_address.set_child_tid,
        final(proc_info).pid == old(proc_info).pid,
        final(proc_info).tgid == old(proc_info).tgid,
        final(proc_info).parent_tgid == old(proc_info).parent_tgid,
        final(proc_info).children == old(proc_info).children,
        final(proc_info).heap_end == old(proc_info).heap_end,
        r == old(proc_info).pid,
{
    proc_info.tid_address.clear_child_tid = tidptr;
    proc_info.pid as isize
}

/// Grow or shrink the heap and report its new top.
pub fn sys_sbrk(proc_info: &mut ProcessInfo, grow_size: isize, is_shrink: usize) -> (r: isize)
    requires
        old(proc_info).wf(),
        grow_size > isize::MIN,
        0 <= old(proc_info).heap_end + grow_size <= isize::MAX,
    ensures
        final(proc_info).heap_end == old(proc_info).heap_end + grow_size,
        r == final(proc_info).heap_end,
        final(proc_info).children == old(proc_info).children,
        final(proc_info).pid == old(proc_info).pid,
{
    proc_info.grow_proc(grow_size) as isize
}

/// Set the heap top to the given address, or report the current top when
/// asked for address zero.
pub fn sys_brk(proc_info: &mut ProcessInfo, brk_addr: usize) -> (r: isize)
    requires
        old(proc_info).wf(),
        old(proc_info).heap_end <= isize::MAX,
        brk_addr <= isize::MAX,
    ensures
        brk_addr == 0 ==> r == old(proc_info).heap_end && *final(proc_info) == *old(proc_info),
        brk_addr != 0 ==> r == 0 && final(proc_info).heap_end == brk_addr && final(proc_info).children == old(proc_info).children && final(proc_info).pid == old(proc_info).pid,
    {
    if brk_addr == 0 {
        return proc_info.grow_proc(0) as isize;
    }
    let former_addr: usize = proc_info.grow_proc(0);
    let grow_size: isize = brk_addr as isize - former_addr as isize;
    proc_info.grow_proc(grow_size);
    0
}

/// The actions a fork decides on beyond duplicating the task: where to
/// record thread ids, the child's initial stack pointer, the value the
/// child observes from the call, and the parent's return value.
#[derive(Clone, Copy, PartialEq, Eq, Structural, Debug)]
pub struct ForkPlan {
    pub set_child_tid: Option<usize>,
    pub clear_child_tid: Option<usize>,
    pub write_tid_at: Option<usize>,
    pub child_stack: Option<usize>,
    pub child_return: usize,
    pub parent_return: isize,
}

/// Decide a fork request: the recognised clone flags pick the thread-id
/// bookkeeping, a non-zero stack pointer is installed in the child, the
/// child observes zero and the parent the child's id. Unrecognised flag
/// combinations are fatal to the caller and excluded here.
pub fn sys_fork(flags: usize, stack_ptr: usize, ptid: usize, ctid: usize, child_pid: usize) -> (r:
    ForkPlan)
    requires
        flags == SIGCHLD || flags == CLONE_CHILD_SETTID || flags == CLONE_CHILD_CLEARTID,
        child_pid <= isize::MAX,
    ensures
        r.set_child_tid == if flags == CLONE_CHILD_SETTID {
            Some(ctid)
        } else {
            None::<usize>
        },
        r.write_tid_at == if flags == CLONE_CHILD_SETTID {
            Some(ctid)
        } else {
            None::<usize>
        },
        r.clear_child_tid == if flags == CLONE_CHILD_CLEARTID {
            Some(ctid)
        } else {
            None::<usize>
        },
        r.child_stack == if stack_ptr != 0 {
            Some(stack_ptr)
        } else {
            None::<usize>
        },
        r.child_return == 0,
        r.parent_return == child_pid,
{
    let set_child_tid: Option<usize> = if flags == CLONE_CHILD_SETTID {
        Some(ctid)
    } else {
        None
    };
    let clear_child_tid: Option<usize> = if flags == CLONE_CHILD_CLEARTID {
        Some(ctid)
    } else {
        None
    };
    let write_tid_at: Option<usize> = if flags == CLONE_CHILD_SETTID {
        Some(ctid)
    } else {
        None
    };
    let child_stack: Option<usize> = if stack_ptr != 0 {
        Some(stack_ptr)
    } else {
        None
    };
    ForkPlan {
        set_child_tid,
        clear_child_tid,
        write_tid_at,
        child_stack,
        child_return: 0,
        parent_return: child_pid as isize,
    }
}

/// The child matches a wait request for `pid` (a request of -1 matches
/// any child).
pub open spec fn child_matches(c: ChildInfo, pid: int) -> bool {
    pid == -1 || c.pid == pid
}

/// What one attempt at waiting decides: no such child exists, a matching
/// child is still running (the caller suspends and retries), or the first
/// matching zombie child was reaped, with its id and the value to store.
#[derive(Clone, Copy, PartialEq, Eq, Structural, Debug)]
pub enum WaitAction {
    NoChild,
    Wait,
    Reaped(usize, i32),
}

/// The reap of the first matching zombie child, at index `i`.
pub open spec fn reaped_post(
    pre: ProcessInfo,
    post: ProcessInfo,
    pid: int,
    i: int,
    cpid: usize,
    code: i32,
) -> bool {
    &&& 0 <= i < pre.children.len()
    &&& child_matches(pre.children@[i], pid)
    &&& pre.children@[i].zombie
    &&& forall|j: int|
        0 <= j < i ==> !(child_matches(#[trigger] pre.children@[j], pid) && pre.children@[
        j].zombie)
    &&& post.children@ == pre.children@.remove(i)
    &&& cpid == pre.children@[i].pid
    &&& code == pre.children@[i].exit_code
    &&& post.pid == pre.pid
    &&& post.tgid == pre.tgid
    &&& post.parent_tgid == pre.parent_tgid
    &&& post.tid_address == pre.tid_address
    &&& post.heap_end == pre.heap_end
}

/// One attempt at wait4: report a missing child, tell the caller to
/// suspend and retry, or reap the first matching zombie, returning its id
/// and its exit code shifted into status position. Extended options are
/// not supported and excluded here. The caller stores the status at the
/// request's address when that address is non-zero.
pub fn sys_wait4(proc_info: &mut ProcessInfo, pid: isize, wstatus: usize, option: isize) -> (r:
    WaitAction)
    requires
        old(proc_info).wf(),
        option == 0,
    ensures
        final(proc_info).wf(),
        r is NoChild <==> !(exists|i: int|
            0 <= i < old(proc_info).children.len() && child_matches(
                #[trigger] old(proc_info).children@[i],
                pid as int,
            )),
        r is NoChild ==> *final(proc_info) == *old(proc_info),
        r is Wait <==> (exists|i: int|
            0 <= i < old(proc_info).children.len() && child_matches(
                #[trigger] old(proc_info).children@[i],
                pid as int,
            )) && !(exists|i: int|
            0 <= i < old(proc_info).children.len() && child_matches(
                #[trigger] old(proc_info).children@[i],
                pid as int,
            ) && old(proc_info).children@[i].zombie),
        r is Wait ==> *final(proc_info) == *old(proc_info),
        r matches WaitAction::Reaped(cpid, status) ==> exists|i: int|
            #![trigger old(proc_info).children@[i]]
            reaped_post(
                *old(proc_info),
                *final(proc_info),
                pid as int,
                i,
                cpid,
                old(proc_info).children@[i].exit_code,
            ) && status == old(proc_info).children@[i].exit_code * 256,
{
    let r = reap_first_match(proc_info, pid);
    match r {
        WaitAction::Reaped(cpid, code) => WaitAction::Reaped(cpid, code * 256),
        other => other,
    }
}

/// One attempt at waitpid: like wait4 but the exit code is stored
/// unshifted; a matching child that is still running reports "try again"
/// rather than suspending.
pub fn sys_waitpid(proc_info: &mut ProcessInfo, pid: isize) -> (r: WaitAction)
    requires
        old(proc_info).wf(),
    ensures
        final(proc_info).wf(),
        r is NoChild <==> !(exists|i: int|
            0 <= i < old(proc_info).children.len() && child_matches(
                #[trigger] old(proc_info).children@[i],
                pid as int,
            )),
        r is NoChild ==> *final(proc_info) == *old(proc_info),
        r is Wait <==> (exists|i: int|
            0 <= i < old(proc_info).children.len() && child_matches(
                #[trigger] old(proc_info).children@[i],
                pid as int,
            )) && !(exists|i: int|
            0 <= i < old(proc_info).children.len() && child_matches(
                #[trigger] old(proc_info).children@[i],
                pid as int,
            ) && old(proc_info).children@[i].zombie),
        r is Wait ==> *final(proc_info) == *old(proc_info),
        r matches WaitAction::Reaped(cpid, code) ==> exists|i: int|
            #![trigger old(proc_info).children@[i]]
            reaped_post(*old(proc_info), *final(proc_info), pid as int, i, cpid, code),
{
    reap_first_match(proc_info, pid)
}

/// Scan the child list for the wait decision, reaping the first matching
/// zombie.
fn reap_first_match(proc_info: &mut ProcessInfo, pid: isize) -> (r: WaitAction)
    requires
        old(proc_info).wf(),
    ensures
        final(proc_info).wf(),
        r is NoChild <==> !(exists|i: int|
            0 <= i < old(proc_info).children.len() && child_matches(
                #[trigger] old(proc_info).children@[i],
                pid as int,
            )),
        r is NoChild ==> *final(proc_info) == *old(proc_info),
        r is Wait <==> (exists|i: int|
            0 <= i < old(proc_info).children.len() && child_matches(
                #[trigger] old(proc_info).children@[i],
                pid as int,
            )) && !(exists|i: int|
            0 <= i < old(proc_info).children.len() && child_matches(
                #[trigger] old(proc_info).children@[i],
                pid as int,
            ) && old(proc_info).children@[i].zombie),
        r is Wait ==> *final(proc_info) == *old(proc_info),
        r matches WaitAction::Reaped(cpid, code) ==> exists|i: int|
            #![trigger old(proc_info).children@[i]]
            reaped_post(*old(proc_info), *final(proc_info), pid as int, i, cpid, code),
{
    let n: usize = proc_info.children.len();
    let mut any_match: bool = false;
    let mut i: usize = 0;
    while i < n
        invariant
            n == proc_info.children.len(),
            i <= n,
            old(proc_info).wf(),
            *proc_info == *old(proc_info),
            any_match == exists|j: int|
                0 <= j < i && child_matches(#[trigger] proc_info.children@[j], pid as int),
            forall|j: int|
                0 <= j < i ==> !(child_matches(#[trigger] proc_info.children@[j], pid as int)
                    && proc_info.children@[j].zombie),
        decreases n - i,
    {
        let c = proc_info.children[i];
        let matches_req: bool = pid == -1 || (pid >= 0 && c.pid == pid as usize);
        proof {
            assert(matches_req == child_matches(proc_info.children@[i as int], pid as int));
        }
        if matches_req && c.zombie {
            let ghost gi = i as int;
            proc_info.children.remove(i);
            proof {
                assert(reaped_post(
                    *old(proc_info),
                    *proc_info,
                    pid as int,
                    gi,
                    c.pid,
                    c.exit_code,
                ));
                assert forall|k: int|
                    0 <= k < proc_info.children.len() implies (
                #[trigger] proc_info.children@[k]).pid <= isize::MAX && proc_info.children@[k].tgid
                    <= isize::MAX && -0x40_0000 <= proc_info.children@[k].exit_code
                    <= 0x40_0000 by {
                    if k < gi {
                        assert(proc_info.children@[k] == old(proc_info).children@[k]);
                    } else {
                        assert(proc_info.children@[k] == old(proc_info).children@[k + 1]);
                    }
                }
            }
            return WaitAction::Reaped(c.pid, c.exit_code);
        }
        if matches_req {
            any_match = true;
            proof {
                assert(child_matches(proc_info.children@[i as int], pid as int));
            }
        }
        i = i + 1;
    }
    if any_match {
        WaitAction::Wait
    } else {
        WaitAction::NoChild
    }
}

/// Install an anonymous read/write-per-request region for a mapping
/// request; the caller fills any file-backed contents afterwards through
/// the region. Reports the chosen address. The caller has verified
/// non-overlap; frame-pool exhaustion during the mapping is fatal to it.
pub fn sys_mmap(
    ms: &mut MemorySet,
    arena: &mut FrameArena,
    start: usize,
    len: usize,
    prot: usize,
    flags: usize,
    fd: usize,
    off: usize,
) -> (r: isize)
    requires
        old(ms).inv(*old(arena)),
        start + len <= isize::MAX,
        forall|i: int|
            0 <= i < old(ms).areas.len() ==> (#[trigger] old(ms).areas@[i]).vpn_range.disjoint(
                crate::area::VPNRange {
                    start: VirtPageNum(spec_floor(start as int) as usize),
                    end: VirtPageNum(crate::addr::spec_ceil((start + len) as int) as usize),
                },
            ),
        crate::addr::spec_ceil((start + len) as int) <= crate::memory_set::signal_trampoline_vpn(),
        old(arena).free_frames() >= crate::addr::spec_ceil((start + len) as int) - spec_floor(
            start as int,
        ),
    ensures
        final(ms).inv(*final(arena)),
        r == start,
        final(ms).areas@.len() == old(ms).areas@.len() + 1,
        final(ms).areas@.last().vpn_range.start.0 == spec_floor(start as int),
        final(ms).areas@.last().vpn_range.end.0 == crate::addr::spec_ceil((start + len) as int),
        final(ms).areas@.last().map_perm == (crate::area::MapPermission {
            r: prot % 2 == 1,
            w: prot % 4 >= 2,
            x: prot % 8 >= 4,
            u: true,
        }),
        forall|v: usize|
            spec_floor(start as int) <= v < crate::addr::spec_ceil((start + len) as int)
                ==> #[trigger] final(ms).page_table@.contains_key(v) && final(ms).page_table@[v].flags == (crate::area::MapPermission {
                r: prot % 2 == 1,
                w: prot % 4 >= 2,
                x: prot % 8 >= 4,
                u: true,
            }).spec_pte_flags(),
        final(arena).base == old(arena).base,
        final(arena).capacity == old(arena).capacity,
        final(arena).free_frames() == old(arena).free_frames() - (crate::addr::spec_ceil(
            (start + len) as int,
        ) - spec_floor(start as int)),
        forall|q: int|
            old(arena).contains_ppn(q) && !final(ms).areas@.last().owns_ppn(q)
                ==> #[trigger] final(arena).refs_of(q) == old(arena).refs_of(q),
        forall|q: int|
            #![trigger final(arena).data_of(q)]
            old(arena).contains_ppn(q) && !final(ms).areas@.last().owns_ppn(q) ==> final(arena).data_of(q) == old(arena).data_of(q),
        forall|q: int| #[trigger] final(ms).areas@.last().owns_ppn(q) ==> !old(arena).is_live(q),
        forall|v: usize|
            #![trigger final(ms).page_table@[v]]
            spec_floor(start as int) <= v < crate::addr::spec_ceil((start + len) as int)
                ==> !old(arena).is_live(final(ms).page_table@[v].ppn.0 as int) && final(arena).is_live(final(ms).page_table@[v].ppn.0 as int) && final(arena).refs_of(
                final(ms).page_table@[v].ppn.0 as int,
            ) == 1 && final(arena).data_of(final(ms).page_table@[v].ppn.0 as int)
                == crate::frame::zero_page(),
{
    let readable: bool = prot % 2 == 1;
    let writable: bool = prot % 4 >= 2;
    let executable: bool = prot % 8 >= 4;
    ms.insert_mmap_area(
        arena,
        VirtAddr(start),
        VirtAddr(start + len),
        crate::area::MapPermission::new(readable, writable, executable, true),
    );
    start as isize
}

/// Remove the mapping whose region starts at the given address: its pages
/// become untranslatable and its frames are released. Reports failure
/// when no region starts there.
pub fn sys_munmap(ms: &mut MemorySet, arena: &mut FrameArena, start: usize, len: usize) -> (r:
    isize)
    requires
        old(ms).inv(*old(arena)),
    ensures
        final(ms).inv(*final(arena)),
        r == 0 <==> exists|i: int|
            0 <= i < old(ms).areas.len() && (#[trigger] old(ms).areas@[i]).vpn_range.start.0
                == spec_floor(start as int),
        r != 0 ==> r == -1 && *final(ms) == *old(ms) && *final(arena) == *old(arena),
        r == 0 ==> exists|i: int|
            #![trigger old(ms).areas@[i]]
            MemorySet::removed_area_post(
                *old(ms),
                *old(arena),
                *final(ms),
                *final(arena),
                i,
                VirtPageNum(spec_floor(start as int) as usize),
            ),
{
    let start_vpn = VirtAddr(start).floor();
    let n: usize = ms.areas.len();
    let mut found: bool = false;
    let mut i: usize = 0;
    while i < n
        invariant
            n == ms.areas.len(),
            i <= n,
            *ms == *old(ms),
            found == exists|j: int|
                0 <= j < i && (#[trigger] ms.areas@[j]).vpn_range.start.0 == start_vpn.0,
        decreases n - i,
    {
        if ms.areas[i].vpn_range.get_start().0 == start_vpn.0 {
            found = true;
            proof {
                assert(ms.areas@[i as int].vpn_range.start.0 == start_vpn.0);
            }
        }
        i = i + 1;
    }
    if found {
        proof {
            let j = choose|j: int|
                0 <= j < n && (#[trigger] ms.areas@[j]).vpn_range.start.0 == start_vpn.0;
            assert(ms.areas@[j].vpn_range.start == start_vpn);
        }
        ms.remove_area_with_start_vpn(arena, start_vpn);
        0
    } else {
        proof {
            assert forall|j: int|
                0 <= j < old(ms).areas.len() implies (#[trigger] old(ms).areas@[
            j]).vpn_range.start.0 != spec_floor(start as int) by {
                assert(ms.areas@[j].vpn_range.start.0 != start_vpn.0);
            }
        }
        -1
    }
}

/// Change the protection of the pages covering an aligned range: the
/// readable/writable/executable bits of each entry are replaced from the
/// request (the writable bit withheld on copy-on-write entries). Reports
/// failure on a misaligned address or length. An unmapped page in the
/// range is an invariant breach, fatal to the caller and excluded here.
pub fn sys_mprotect(
    ms: &mut MemorySet,
    arena: &FrameArena,
    addr: usize,
    len: usize,
    prot: isize,
) -> (r: isize)
    requires
        old(ms).inv(*arena),
        0 <= prot,
        addr + len <= usize::MAX,
        (addr % PAGE_SIZE == 0 && len % PAGE_SIZE == 0) ==> forall|v: usize|
            spec_floor(addr as int) <= v < spec_floor(addr as int) + len / PAGE_SIZE
                ==> old(ms).page_table@.contains_key(v),
    ensures
        final(ms).inv(*arena),
        r == if addr % PAGE_SIZE == 0 && len % PAGE_SIZE == 0 {
            0isize
        } else {
            -1isize
        },
        r == -1 ==> *final(ms) == *old(ms),
        r == 0 ==> forall|v: usize|
            spec_floor(addr as int) <= v < spec_floor(addr as int) + len / PAGE_SIZE
                ==> #[trigger] final(ms).page_table@.contains_key(v),
        r == 0 ==> forall|v: usize|
            #![trigger final(ms).page_table@[v]]
            spec_floor(addr as int) <= v < spec_floor(addr as int) + len / PAGE_SIZE ==> final(ms).page_table@[v] == (PageTableEntry {
                ppn: old(ms).page_table@[v].ppn,
                flags: PTEFlags {
                    r: ((2 * prot) as usize) & 2 != 0,
                    w: (((2 * prot) as usize) & 4 != 0) && !old(ms).page_table@[v].flags.cow,
                    x: ((2 * prot) as usize) & 8 != 0,
                    ..old(ms).page_table@[v].flags
                },
            }),
        r == 0 ==> forall|v: usize|
            !(spec_floor(addr as int) <= v < spec_floor(addr as int) + len / PAGE_SIZE) ==> (
            #[trigger] final(ms).page_table@.contains_key(v) == old(ms).page_table@.contains_key(
                v,
            )) && (old(ms).page_table@.contains_key(v) ==> final(ms).page_table@[v] == old(ms).page_table@[v]),
{
    if addr % PAGE_SIZE != 0 || len % PAGE_SIZE != 0 {
        return -1;
    }
    let start_vpn: usize = addr / PAGE_SIZE;
    let pages: usize = len / PAGE_SIZE;
    let flag_word: usize = 2 * (prot as usize);
    proof {
        vstd::arithmetic::div_mod::lemma_div_is_ordered(
            len as int,
            usize::MAX as int,
            PAGE_SIZE as int,
        );
    }
    let mut k: usize = 0;
    while k < pages
        invariant
            old(ms).inv(*arena),
            ms.inv(*arena),
            k <= pages,
            start_vpn == spec_floor(addr as int),
            start_vpn + pages <= usize::MAX,
            flag_word == ((2 * prot) as usize),
            ms.areas == old(ms).areas,
            ms.page_table.root_ppn == old(ms).page_table.root_ppn,
            forall|v: usize|
                start_vpn <= v < start_vpn + pages ==> old(ms).page_table@.contains_key(v),
            forall|v: usize|
                start_vpn <= v < start_vpn + k ==> #[trigger] ms.page_table@.contains_key(v),
            forall|v: usize|
                #![trigger ms.page_table@[v]]
                start_vpn <= v < start_vpn + k ==> ms.page_table@[v] == (PageTableEntry {
                    ppn: old(ms).page_table@[v].ppn,
                    flags: PTEFlags {
                        r: flag_word & 2 != 0,
                        w: (flag_word & 4 != 0) && !old(ms).page_table@[v].flags.cow,
                        x: flag_word & 8 != 0,
                        ..old(ms).page_table@[v].flags
                    },
                }),
            forall|v: usize|
                !(start_vpn <= v < start_vpn + k) ==> (#[trigger] ms.page_table@.contains_key(v)
                    == old(ms).page_table@.contains_key(v)),
            forall|v: usize|
                #![trigger ms.page_table@[v]]
                !(start_vpn <= v < start_vpn + k) && old(ms).page_table@.contains_key(v)
                    ==> ms.page_table@[v] == old(ms).page_table@[v],
        decreases pages - k,
    {
        let ghost pre = *ms;
        let vpn = VirtPageNum(start_vpn + k);
        proof {
            assert(old(ms).page_table@.contains_key(vpn.0));
            assert(ms.page_table@.contains_key(vpn.0));
        }
        let rr = ms.set_pte_flags(arena, vpn, flag_word);
        proof {
            assert(rr == 0);
            assert forall|v: usize|
                start_vpn <= v < start_vpn + k + 1 implies #[trigger] ms.page_table@.contains_key(
                v,
            ) by {
                if v < start_vpn + k {
                    assert(pre.page_table@.contains_key(v));
                }
            }
            assert forall|v: usize|
                #![trigger ms.page_table@[v]]
                start_vpn <= v < start_vpn + k + 1 implies ms.page_table@[v] == (PageTableEntry {
                ppn: old(ms).page_table@[v].ppn,
                flags: PTEFlags {
                    r: flag_word & 2 != 0,
                    w: (flag_word & 4 != 0) && !old(ms).page_table@[v].flags.cow,
                    x: flag_word & 8 != 0,
                    ..old(ms).page_table@[v].flags
                },
            }) by {
                if v < start_vpn + k {
                    assert(pre.page_table@.contains_key(v));
                    assert(ms.page_table@.contains_key(v));
                    assert(ms.page_table@[v] == pre.page_table@[v]);
                } else {
                    assert(pre.page_table@[v] == old(ms).page_table@[v]);
                }
            }
        }
        k = k + 1;
    }
    0
}

/// One round of the sleep loop has reached its deadline exactly when the
/// current time is at or past it, comparing seconds first and breaking
/// ties on microseconds.
pub fn sleep_deadline_reached(end_sec: u64, end_usec: u64, now_sec: u64, now_usec: u64) -> (r:
    bool)
    ensures
        r == (now_sec > end_sec || (now_sec == end_sec && now_usec >= end_usec)),
{
    now_sec > end_sec || (now_sec == end_sec && now_usec >= end_usec)
}

/// What the trap handler decides for a page fault below the trampoline:
/// a write fault on a copy-on-write-marked page is resolved into a
/// private copy; any other page fault terminates the faulting program.
#[derive(Clone, Copy, PartialEq, Eq, Structural, Debug)]
pub enum FaultAction {
    Resolve,
    Terminate,
}

/// Classify a page fault at `va`: resolvable exactly when the faulting
/// page is mapped and carries the copy-on-write marker. Faults above the
/// trampoline are an invariant breach, fatal to the caller and excluded
/// here.
pub fn classify_page_fault(ms: &MemorySet, va: VirtAddr) -> (r: FaultAction)
    requires
        va.0 <= crate::config::TRAMPOLINE,
    ensures
        r == FaultAction::Resolve <==> ms.page_table@.contains_key(
            spec_floor(va.0 as int) as usize,
        ) && ms.page_table@[spec_floor(va.0 as int) as usize].flags.cow,
{
    match ms.translate(va.floor()) {
        Some(pte) => {
            if pte.is_cow() {
                FaultAction::Resolve
            } else {
                FaultAction::Terminate
            }
        },
        None => FaultAction::Terminate,
    }
}

/// One 65-byte identity field: the name, zero-padded.
pub open spec fn uname_field(name: Seq<u8>) -> Seq<u8> {
    name + Seq::new((65 - name.len()) as nat, |i: int| 0u8)
}

/// Bytes of the system name: "UltraOS".
pub open spec fn uname_sysname() -> Seq<u8> {
    seq![85u8, 108u8, 116u8, 114u8, 97u8, 79u8, 83u8]
}

/// Bytes of the release name: "Alpha".
pub open spec fn uname_release() -> Seq<u8> {
    seq![65u8, 108u8, 112u8, 104u8, 97u8]
}

/// Bytes of the version: "1.1".
pub open spec fn uname_version() -> Seq<u8> {
    seq![49u8, 46u8, 49u8]
}

/// Bytes of the machine name: "RISC-V64".
pub open spec fn uname_machine() -> Seq<u8> {
    seq![82u8, 73u8, 83u8, 67u8, 45u8, 86u8, 54u8, 52u8]
}

/// Bytes of the domain name: "UltraTEAM/UltraOS".
pub open spec fn uname_domain() -> Seq<u8> {
    seq![
        85u8,
        108u8,
        116u8,
        114u8,
        97u8,
        84u8,
        69u8,
        65u8,
        77u8,
        47u8,
        85u8,
        108u8,
        116u8,
        114u8,
        97u8,
        79u8,
        83u8,
    ]
}

/// The full identity record: six zero-padded 65-byte fields — system
/// name, node name, release, version, machine, domain.
pub open spec fn uname_bytes() -> Seq<u8> {
    uname_field(uname_sysname()) + uname_field(uname_sysname()) + uname_field(uname_release())
        + uname_field(uname_version()) + uname_field(uname_machine()) + uname_field(uname_domain())
}

/// Append `name` to the buffer and zero-pad the field to 65 bytes.
fn push_uname_field(buf: &mut Vec<u8>, name: &Vec<u8>)
    requires
        name@.len() <= 65,
    ensures
        final(buf)@ == old(buf)@ + uname_field(name@),
{
    let mut j: usize = 0;
    let n: usize = name.len();
    while j < n
        invariant
            n == name@.len(),
            j <= n,
            buf@ == old(buf)@ + name@.take(j as int),
        decreases n - j,
    {
        buf.push(name[j]);
        proof {
            assert(buf@ =~= old(buf)@ + name@.take(j as int + 1));
        }
        j = j + 1;
    }
    proof {
        assert(name@.take(n as int) =~= name@);
    }
    let mut z: usize = n;
    while z < 65
        invariant
            name@.len() <= 65,
            n == name@.len(),
            n <= z <= 65,
            buf@ == old(buf)@ + name@ + Seq::new((z - n) as nat, |i: int| 0u8),
        decreases 65 - z,
    {
        buf.push(0u8);
        proof {
            assert(buf@ =~= old(buf)@ + name@ + Seq::new((z + 1 - n) as nat, |i: int| 0u8));
        }
        z = z + 1;
    }
}

/// Fill the buffer with the system identity record and report success;
/// the caller copies the bytes out to the requesting program.
pub fn sys_uname(buf: &mut Vec<u8>) -> (r: isize)
    ensures
        final(buf)@ == uname_bytes(),
        r == 0,
{
    buf.clear();
    let mut sysname: Vec<u8> = Vec::new();
    sysname.push(85);
    sysname.push(108);
    sysname.push(116);
    sysname.push(114);
    sysname.push(97);
    sysname.push(79);
    sysname.push(83);
    proof {
        assert(sysname@ =~= uname_sysname());
    }
    let mut release: Vec<u8> = Vec::new();
    release.push(65);
    release.push(108);
    release.push(112);
    release.push(104);
    release.push(97);
    proof {
        assert(release@ =~= uname_release());
    }
    let mut version: Vec<u8> = Vec::new();
    version.push(49);
    version.push(46);
    version.push(49);
    proof {
        assert(version@ =~= uname_version());
    }
    let mut machine: Vec<u8> = Vec::new();
    machine.push(82);
    machine.push(73);
    machine.push(83);
    machine.push(67);
    machine.push(45);
    machine.push(86);
    machine.push(54);
    machine.push(52);
    proof {
        assert(machine@ =~= uname_machine());
    }
    let mut domain: Vec<u8> = Vec::new();
    domain.push(85);
    domain.push(108);
    domain.push(116);
    domain.push(114);
    domain.push(97);
    domain.push(84);
    domain.push(69);
    domain.push(65);
    domain.push(77);
    domain.push(47);
    domain.push(85);
    domain.push(108);
    domain.push(116);
    domain.push(114);
    domain.push(97);
    domain.push(79);
    domain.push(83);
    proof {
        assert(domain@ =~= uname_domain());
    }
    push_uname_field(buf, &sysname);
    push_uname_field(buf, &sysname);
    push_uname_field(buf, &release);
    push_uname_field(buf, &version);
    push_uname_field(buf, &machine);
    push_uname_field(buf, &domain);
    proof {
        assert(buf@ =~= uname_bytes());
    }
    0
}

} // verus!
