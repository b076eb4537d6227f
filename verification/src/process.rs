//! The slice of per-process state the system-call layer decides over:
//! identifiers, the thread-id bookkeeping addresses, the child list a
//! parent may wait on, and the heap cursor. The scheduler owns the real
//! process objects; it hands this view in and applies the decisions.

use vstd::prelude::*;

verus! {

/// Addresses recorded for thread-id bookkeeping at clone and exit.
#[derive(Clone, Copy, PartialEq, Eq, Structural, Debug)]
pub struct TidAddress {
    pub set_child_tid: usize,
    pub clear_child_tid: usize,
}

/// What a parent can observe of one child.
#[derive(Clone, Copy, PartialEq, Eq, Structural, Debug)]
pub struct ChildInfo {
    pub pid: usize,
    pub tgid: usize,
    pub zombie: bool,
    pub exit_code: i32,
}

/// The per-process state the system-call layer reads and updates.
pub struct ProcessInfo {
    pub pid: usize,
    pub tgid: usize,
    pub parent_tgid: Option<usize>,
    pub tid_address: TidAddress,
    pub children: Vec<ChildInfo>,
    pub heap_end: usize,
}

impl ProcessInfo {
    /// Identifiers fit the signed word returned by the system calls, and
    /// exit codes leave room for the status shift.
    pub open spec fn wf(self) -> bool {
        &&& self.pid <= isize::MAX
        &&& self.tgid <= isize::MAX
        &&& (self.parent_tgid matches Some(t) ==> t <= isize::MAX)
        &&& forall|i: int|
            0 <= i < self.children.len() ==> (#[trigger] self.children@[i]).pid <= isize::MAX
                && self.children@[i].tgid <= isize::MAX && -0x40_0000
                <= self.children@[i].exit_code <= 0x40_0000
    }

    /// Move the heap cursor by the given amount and report the new top.
    pub fn grow_proc(&mut self, grow_size: isize) -> (r: usize)
        requires
            grow_size > isize::MIN,
            0 <= old(self).heap_end + grow_size <= usize::MAX,
        ensures
            final(self).heap_end == old(self).heap_end + grow_size,
            r == final(self).heap_end,
            final(self).pid == old(self).pid,
            final(self).tgid == old(self).tgid,
            final(self).parent_tgid == old(self).parent_tgid,
            final(self).tid_address == old(self).tid_address,
            final(self).children == old(self).children,
    {
        if grow_size >= 0 {
            self.heap_end = self.heap_end + (grow_size as usize);
        } else {
            let shrink: usize = (-grow_size) as usize;
            self.heap_end = self.heap_end - shrink;
        }
        self.heap_end
    }
}

} // verus!
