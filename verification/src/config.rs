//! Fixed virtual-layout and protocol constants: page geometry, the
//! trampoline / trap-context / stack addresses shared by every address
//! space, the startup-descriptor type tags, and the clone flags the fork
//! path recognises.

use vstd::prelude::*;

verus! {

/// Bytes in one page.
pub const PAGE_SIZE: usize = 4096;

/// log2 of the page size.
pub const PAGE_SIZE_BITS: usize = 12;

/// Highest page of every address space: the shared trampoline code page.
pub const TRAMPOLINE: usize = usize::MAX - PAGE_SIZE + 1;

/// Signal-delivery trampoline page, directly below the trampoline.
pub const SIGNAL_TRAMPOLINE: usize = TRAMPOLINE - PAGE_SIZE;

/// Per-process trap-context page, below the signal trampoline.
pub const TRAP_CONTEXT: usize = SIGNAL_TRAMPOLINE - PAGE_SIZE;

/// Ceiling of the user stack (exclusive top address).
pub const USER_STACK: usize = TRAP_CONTEXT - PAGE_SIZE;

/// Bytes reserved for the user stack.
pub const USER_STACK_SIZE: usize = 65536;

/// Ceiling of the signal-delivery stack, below the user stack and a guard page.
pub const USER_SIGNAL_STACK: usize = USER_STACK - USER_STACK_SIZE - PAGE_SIZE;

/// Bytes reserved for the signal-delivery stack.
pub const SIGNAL_STACK_SIZE: usize = 8192;

/// Bytes reserved for the user heap placed above the loaded image.
pub const USER_HEAP_SIZE: usize = 131072;

/// Every user mapping made by the image loader stays strictly below this
/// address, which in turn lies below the signal stack's lowest page.
pub const USER_ADDR_CEIL: usize = 0x4000_0000;

/// Top of usable physical memory for the kernel's identity mapping.
pub const MEMORY_END: usize = 0x8080_0000;

/// Startup-descriptor type tag: address of the segment-header table.
pub const AT_PHDR: usize = 3;
/// Startup-descriptor type tag: size of one segment-header entry.
pub const AT_PHENT: usize = 4;
/// Startup-descriptor type tag: number of segment-header entries.
pub const AT_PHNUM: usize = 5;
/// Startup-descriptor type tag: page size.
pub const AT_PAGESZ: usize = 6;
/// Startup-descriptor type tag: interpreter base (zero placeholder).
pub const AT_BASE: usize = 7;
/// Startup-descriptor type tag: flags (zero placeholder).
pub const AT_FLAGS: usize = 8;
/// Startup-descriptor type tag: program entry point.
pub const AT_ENTRY: usize = 9;
/// Startup-descriptor type tag: program is not a plain image marker.
pub const AT_NOTELF: usize = 10;
/// Startup-descriptor type tag: real user id (zero placeholder).
pub const AT_UID: usize = 11;
/// Startup-descriptor type tag: effective user id (zero placeholder).
pub const AT_EUID: usize = 12;
/// Startup-descriptor type tag: real group id (zero placeholder).
pub const AT_GID: usize = 13;
/// Startup-descriptor type tag: effective group id (zero placeholder).
pub const AT_EGID: usize = 14;
/// Startup-descriptor type tag: platform string (zero placeholder).
pub const AT_PLATFORM: usize = 15;
/// Startup-descriptor type tag: hardware capabilities (zero placeholder).
pub const AT_HWCAP: usize = 16;
/// Startup-descriptor type tag: clock ticks per second.
pub const AT_CLKTCK: usize = 17;
/// Startup-descriptor type tag: secure-execution mode (zero placeholder).
pub const AT_SECURE: usize = 23;

/// Clock ticks per second reported in the startup descriptors.
pub const CLOCK_TICKS_PER_SEC: usize = 100;

/// Value reported for the `AT_NOTELF` placeholder descriptor.
pub const NOTELF_VALUE: usize = 0x112d;

/// Clone flag: store the child's thread id at the given child address.
pub const CLONE_CHILD_SETTID: usize = 0x0100_0000;

/// Clone flag: remember an address to clear when the child exits.
pub const CLONE_CHILD_CLEARTID: usize = 0x0020_0000;

/// Default fork behaviour: raise the child-exited signal at termination.
pub const SIGCHLD: usize = 17;

/// Memory-mapped I/O windows `(base, length)` identity-mapped into the
/// kernel address space.
pub fn mmio_windows() -> (v: Vec<(usize, usize)>)
    ensures
        v@ =~= seq![(0x1000_1000usize, 0x1000usize)],
{
    let mut v: Vec<(usize, usize)> = Vec::new();
    v.push((0x1000_1000usize, 0x1000usize));
    v
}

} // verus!
