//! Page-granular address units: byte addresses and page numbers, with the
//! floor / ceiling conversions used at the API boundaries.

use vstd::prelude::*;

use crate::config::PAGE_SIZE;

verus! {

/// A virtual byte address.
#[derive(Clone, Copy, PartialEq, Eq, Structural, Debug)]
pub struct VirtAddr(pub usize);

/// A virtual page number.
#[derive(Clone, Copy, PartialEq, Eq, Structural, Debug)]
pub struct VirtPageNum(pub usize);

/// A physical page number.
#[derive(Clone, Copy, PartialEq, Eq, Structural, Debug)]
pub struct PhysPageNum(pub usize);

/// Page number of the last page that starts at or below the address.
pub open spec fn spec_floor(a: int) -> int {
    a / (PAGE_SIZE as int)
}

/// Page number of the first page boundary at or above the address.
pub open spec fn spec_ceil(a: int) -> int {
    (a + PAGE_SIZE - 1) / (PAGE_SIZE as int)
}

/// Byte offset of the address within its page.
pub open spec fn spec_page_offset(a: int) -> int {
    a % (PAGE_SIZE as int)
}

impl VirtAddr {
    /// Page number of the page containing this address.
    pub fn floor(self) -> (r: VirtPageNum)
        ensures
            r.0 == spec_floor(self.0 as int),
    {
        VirtPageNum(self.0 / PAGE_SIZE)
    }

    /// First page number at or above this address; total even at the top
    /// of the address space.
    pub fn ceil(self) -> (r: VirtPageNum)
        ensures
            r.0 == spec_ceil(self.0 as int),
    {
        if self.0 == 0 {
            VirtPageNum(0)
        } else {
            let r: usize = (self.0 - 1) / PAGE_SIZE + 1;
            proof {
                vstd::arithmetic::div_mod::lemma_div_plus_one(
                    self.0 - 1,
                    PAGE_SIZE as int,
                );
            }
            VirtPageNum(r)
        }
    }

    /// Byte offset within the page.
    pub fn page_offset(self) -> (r: usize)
        ensures
            r == spec_page_offset(self.0 as int),
    {
        self.0 % PAGE_SIZE
    }
}

} // verus!
