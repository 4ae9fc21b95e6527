//! Fixed layout and sizing constants shared by the whole memory core.
use vstd::prelude::*;

verus! {

/// Size in bytes of one page / physical frame.
pub const PAGE_SIZE: usize = 4096;

/// log2 of `PAGE_SIZE`: how far an address is shifted to obtain a page number.
pub const PAGE_SIZE_BITS: usize = 12;

/// Exclusive upper bound of usable physical memory on the target board.
pub const MEMORY_END: usize = 0x80800000;

/// Bytes reserved for one user stack.
pub const USER_STACK_SIZE: usize = 4096 * 2;

/// Bytes reserved for one kernel stack.
pub const KERNEL_STACK_SIZE: usize = 4096 * 2;

/// Virtual address of the single trampoline page, at the very top of the
/// virtual address range; every address space maps it identically.
pub const TRAMPOLINE: usize = usize::MAX - PAGE_SIZE + 1;

/// Virtual address of the per-task trap-context page, directly below the
/// trampoline.
pub const TRAP_CONTEXT: usize = TRAMPOLINE - PAGE_SIZE;

} // verus!
