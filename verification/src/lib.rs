//! Memory-management core for a small RISC-V64 kernel using the Sv39
//! three-level paging scheme.
//!
//! The crate provides typed physical/virtual addresses and page numbers,
//! a stack-based physical frame allocator, Sv39 page-table entry encoding,
//! and a page-table abstraction that builds, walks and tears down
//! three-level tables over an explicit model of the physical page frames.

use vstd::prelude::*;

pub mod addr;
pub mod frame_allocator;
pub mod memory_set;
pub mod page_table;
pub mod phys_mem;
pub mod pte;

verus! {

/// Size of one page frame in bytes. Address words are `u64`: the core
/// targets a 64-bit machine.
pub const PAGE_SIZE: u64 = 4096;

/// Number of page-table entries in one table frame.
pub const PAGE_ITEM_COUNT: usize = 512;

/// Base of the kernel high-half direct map: physical address `p` is
/// addressable at virtual address `p | VIRT_ADDR_START`.
pub const VIRT_ADDR_START: u64 = 0xffff_ffc0_0000_0000;

/// Complement of `VIRT_ADDR_START`: strips the high-half bits when going
/// from a direct-mapped virtual address back to a physical one.
pub const VIRT_ADDR_START_MASK: u64 = 0x0000_003f_ffff_ffff;

/// `VIRT_ADDR_START_MASK >> 12`: a physical page number that fits under the
/// direct-map window is no larger than this.
pub const PPN_MASK: u64 = 0x3ff_ffff;

/// One more than the largest physical page number under the direct-map
/// window.
pub const PPN_LIMIT: u64 = 0x400_0000;

} // verus!
