//! The per-address-space page table, modelled as a finite map from virtual
//! page number to page-table entry. Intermediate radix-tree levels of the
//! hardware table are abstracted away; only the root frame is drawn from
//! the frame arena, and the table's identifying token encodes that root.

use vstd::prelude::*;

use std::collections::HashMap;

use crate::addr::{PhysPageNum, VirtPageNum};
use crate::frame::FrameArena;

verus! {

broadcast use vstd::std_specs::hash::group_hash_axioms;

/// Protection and state bits of one entry. The copy-on-write marker is
/// never set together with the writable bit.
#[derive(Clone, Copy, PartialEq, Eq, Structural, Debug)]
pub struct PTEFlags {
    /// Entry is valid.
    pub v: bool,
    /// Readable.
    pub r: bool,
    /// Writable.
    pub w: bool,
    /// Executable.
    pub x: bool,
    /// Accessible from user mode.
    pub u: bool,
    /// Copy-on-write marker: the page is shared and a write must first be
    /// resolved into a private copy.
    pub cow: bool,
}

impl PTEFlags {
    /// A mapped entry is valid, and a copy-on-write page is never writable.
    pub open spec fn well_formed(self) -> bool {
        self.v && (self.cow ==> !self.w)
    }

    /// Flags of a freshly installed mapping: valid, not copy-on-write.
    pub fn new(r: bool, w: bool, x: bool, u: bool) -> (f: PTEFlags)
        ensures
            f == (PTEFlags { v: true, r, w, x, u, cow: false }),
    {
        PTEFlags { v: true, r, w, x, u, cow: false }
    }
}

/// One translation: target physical page and its flags.
#[derive(Clone, Copy, PartialEq, Eq, Structural, Debug)]
pub struct PageTableEntry {
    pub ppn: PhysPageNum,
    pub flags: PTEFlags,
}

impl PageTableEntry {
    /// Target physical page number.
    pub fn ppn(&self) -> (r: PhysPageNum)
        ensures
            r == self.ppn,
    {
        self.ppn
    }

    /// Protection and state bits.
    pub fn flags(&self) -> (r: PTEFlags)
        ensures
            r == self.flags,
    {
        self.flags
    }

    /// The entry is valid.
    pub fn is_valid(&self) -> (r: bool)
        ensures
            r == self.flags.v,
    {
        self.flags.v
    }

    /// The entry carries the copy-on-write marker.
    pub fn is_cow(&self) -> (r: bool)
        ensures
            r == self.flags.cow,
    {
        self.flags.cow
    }

    /// The page may be read.
    pub fn readable(&self) -> (r: bool)
        ensures
            r == self.flags.r,
    {
        self.flags.r
    }

    /// The page may be written.
    pub fn writable(&self) -> (r: bool)
        ensures
            r == self.flags.w,
    {
        self.flags.w
    }

    /// The page may be executed.
    pub fn executable(&self) -> (r: bool)
        ensures
            r == self.flags.x,
    {
        self.flags.x
    }
}

/// Addressing-mode bits of the hardware token: page-based translation.
pub const TOKEN_MODE: u64 = 8u64 << 60;

/// A page table: its root frame number and the installed translations.
pub struct PageTable {
    pub root_ppn: PhysPageNum,
    pub entries: HashMap<usize, PageTableEntry>,
}

impl PageTable {
    /// The installed translations, as a map from virtual page number to
    /// entry.
    pub open spec fn view(self) -> Map<usize, PageTableEntry> {
        self.entries@
    }

    /// Every installed entry is valid, and no copy-on-write entry is
    /// writable.
    pub open spec fn wf(self) -> bool {
        forall|v: usize| #[trigger] self@.contains_key(v) ==> self@[v].flags.well_formed()
    }

    /// A fresh, empty table whose root is drawn from the frame arena.
    /// Relies on the arena still having a free frame; exhaustion during
    /// table construction is fatal to the caller's context.
    pub fn new(arena: &mut FrameArena) -> (r: PageTable)
        requires
            old(arena).wf(),
            old(arena).free_frames() > 0,
        ensures
            final(arena).wf(),
            final(arena).same_except(*old(arena), r.root_ppn.0 as int),
            final(arena).is_live(r.root_ppn.0 as int),
            final(arena).refs_of(r.root_ppn.0 as int) == 1,
            !old(arena).is_live(r.root_ppn.0 as int),
            final(arena).free_frames() == old(arena).free_frames() - 1,
            r@ == Map::<usize, PageTableEntry>::empty(),
            r.wf(),
    {
        let root = match arena.allocate() {
            Some(p) => p,
            None => vstd::pervasive::unreached(),
        };
        PageTable { root_ppn: root, entries: HashMap::new() }
    }

    /// The hardware-consumable identifier of this table: addressing mode
    /// plus root frame number.
    pub fn token(&self) -> (r: u64)
        ensures
            r == TOKEN_MODE | (self.root_ppn.0 as u64),
    {
        TOKEN_MODE | (self.root_ppn.0 as u64)
    }

    /// Install or overwrite the translation of `vpn`.
    pub fn map(&mut self, vpn: VirtPageNum, ppn: PhysPageNum, flags: PTEFlags)
        requires
            old(self).wf(),
            flags.well_formed(),
        ensures
            final(self).wf(),
            final(self).root_ppn == old(self).root_ppn,
            final(self)@ == old(self)@.insert(vpn.0, PageTableEntry { ppn, flags }),
    {
        self.entries.insert(vpn.0, PageTableEntry { ppn, flags });
        proof {
            assert forall|v: usize| #[trigger] self@.contains_key(v) implies self@[v].flags.well_formed() by {
                if v != vpn.0 {
                    assert(old(self)@.contains_key(v));
                }
            }
        }
    }

    /// Remove the translation of `vpn`; a no-op if none is installed.
    pub fn unmap(&mut self, vpn: VirtPageNum)
        requires
            old(self).wf(),
        ensures
            final(self).wf(),
            final(self).root_ppn == old(self).root_ppn,
            final(self)@ == old(self)@.remove(vpn.0),
    {
        self.entries.remove(&vpn.0);
        proof {
            assert forall|v: usize| #[trigger] self@.contains_key(v) implies self@[v].flags.well_formed() by {
                assert(old(self)@.contains_key(v));
            }
        }
    }

    /// Look up the translation of `vpn`.
    pub fn translate(&self, vpn: VirtPageNum) -> (r: Option<PageTableEntry>)
        ensures
            r == if self@.contains_key(vpn.0) {
                Some(self@[vpn.0])
            } else {
                None::<PageTableEntry>
            },
    {
        match self.entries.get(&vpn.0) {
            Some(e) => Some(*e),
            None => None,
        }
    }

    /// Replace the protection/state bits of an installed entry without
    /// touching the backing frame.
    pub fn set_flags(&mut self, vpn: VirtPageNum, flags: PTEFlags)
        requires
            old(self).wf(),
            old(self)@.contains_key(vpn.0),
            flags.well_formed(),
        ensures
            final(self).wf(),
            final(self).root_ppn == old(self).root_ppn,
            final(self)@ == old(self)@.insert(
                vpn.0,
                PageTableEntry { ppn: old(self)@[vpn.0].ppn, flags },
            ),
    {
        let e = match self.entries.get(&vpn.0) {
            Some(e) => *e,
            None => vstd::pervasive::unreached(),
        };
        self.entries.insert(vpn.0, PageTableEntry { ppn: e.ppn, flags });
    }

    /// Mark an installed entry copy-on-write, clearing its writable bit.
    pub fn set_cow(&mut self, vpn: VirtPageNum)
        requires
            old(self).wf(),
            old(self)@.contains_key(vpn.0),
        ensures
            final(self).wf(),
            final(self).root_ppn == old(self).root_ppn,
            final(self)@ == old(self)@.insert(
                vpn.0,
                PageTableEntry {
                    ppn: old(self)@[vpn.0].ppn,
                    flags: PTEFlags { w: false, cow: true, ..old(self)@[vpn.0].flags },
                },
            ),
    {
        let e = match self.entries.get(&vpn.0) {
            Some(e) => *e,
            None => vstd::pervasive::unreached(),
        };
        self.entries.insert(
            vpn.0,
            PageTableEntry { ppn: e.ppn, flags: PTEFlags { w: false, cow: true, ..e.flags } },
        );
    }

    /// Clear the copy-on-write marker of an installed entry, restoring the
    /// writable bit.
    pub fn reset_cow(&mut self, vpn: VirtPageNum)
        requires
            old(self).wf(),
            old(self)@.contains_key(vpn.0),
        ensures
            final(self).wf(),
            final(self).root_ppn == old(self).root_ppn,
            final(self)@ == old(self)@.insert(
                vpn.0,
                PageTableEntry {
                    ppn: old(self)@[vpn.0].ppn,
                    flags: PTEFlags { w: true, cow: false, ..old(self)@[vpn.0].flags },
                },
            ),
    {
        let e = match self.entries.get(&vpn.0) {
            Some(e) => *e,
            None => vstd::pervasive::unreached(),
        };
        self.entries.insert(
            vpn.0,
            PageTableEntry { ppn: e.ppn, flags: PTEFlags { w: true, cow: false, ..e.flags } },
        );
    }

    /// Atomically repoint an installed entry to a new frame, clearing the
    /// copy-on-write marker and setting the writable bit while leaving all
    /// other flags intact. Used exactly once per fault, at resolution time.
    pub fn remap_cow(&mut self, vpn: VirtPageNum, ppn: PhysPageNum, former_ppn: PhysPageNum)
        requires
            old(self).wf(),
            old(self)@.contains_key(vpn.0),
            old(self)@[vpn.0].ppn == former_ppn,
        ensures
            final(self).wf(),
            final(self).root_ppn == old(self).root_ppn,
            final(self)@ == old(self)@.insert(
                vpn.0,
                PageTableEntry {
                    ppn,
                    flags: PTEFlags { w: true, cow: false, ..old(self)@[vpn.0].flags },
                },
            ),
    {
        let e = match self.entries.get(&vpn.0) {
            Some(e) => *e,
            None => vstd::pervasive::unreached(),
        };
        self.entries.insert(
            vpn.0,
            PageTableEntry { ppn, flags: PTEFlags { w: true, cow: false, ..e.flags } },
        );
    }

    /// Replace the readable/writable/executable bits of an installed entry
    /// from an encoded flag word (bits 1 to 3). The writable bit is
    /// withheld while the entry is copy-on-write marked. Returns 0 when
    /// the entry exists and -1 when it does not.
    pub fn set_pte_flags(&mut self, vpn: VirtPageNum, flags: usize) -> (r: isize)
        requires
            old(self).wf(),
        ensures
            final(self).wf(),
            final(self).root_ppn == old(self).root_ppn,
            r == if old(self)@.contains_key(vpn.0) {
                0isize
            } else {
                -1isize
            },
            old(self)@.contains_key(vpn.0) ==> final(self)@ == old(self)@.insert(
                vpn.0,
                PageTableEntry {
                    ppn: old(self)@[vpn.0].ppn,
                    flags: PTEFlags {
                        r: flags & 2 != 0,
                        w: (flags & 4 != 0) && !old(self)@[vpn.0].flags.cow,
                        x: flags & 8 != 0,
                        ..old(self)@[vpn.0].flags
                    },
                },
            ),
            !old(self)@.contains_key(vpn.0) ==> final(self)@ == old(self)@,
    {
        let e = match self.entries.get(&vpn.0) {
            Some(e) => *e,
            None => {
                return -1;
            },
        };
        let w: bool = (flags & 4 != 0) && !e.flags.cow;
        self.entries.insert(
            vpn.0,
            PageTableEntry {
                ppn: e.ppn,
                flags: PTEFlags { r: flags & 2 != 0, w, x: flags & 8 != 0, ..e.flags },
            },
        );
        0
    }
}

} // verus!
