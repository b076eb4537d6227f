//! Address-space and virtual-memory management core of a page-based
//! teaching kernel: page-table representation, per-process address spaces
//! as collections of mapped regions, construction of an address space from
//! an executable image, copy-on-write forking, and on-demand resolution of
//! copy-on-write page faults.

pub mod addr;
pub mod frame;
pub mod page_table;
pub mod area;
pub mod elf;
pub mod memory_set;
pub mod laws;
pub mod process;
pub mod syscall;
pub mod config;
