//! Virtual-memory core of a small SV39-style kernel, verified with Verus:
//! typed address arithmetic, a stack-style physical frame allocator with
//! double-free detection, lazily built three-level page tables with exact
//! translation contracts, logical segments mapped identically or backed by
//! owned frames, and address spaces assembled either for the kernel itself
//! from its linker layout or for a task from an executable image.
//!
//! Everything that touches hardware or process-wide state — the root-table
//! register write, the global singletons, the raw byte sources — stays with
//! the embedding kernel; this crate supplies the verified decisions and
//! data structures underneath.

pub mod address;
pub mod config;
pub mod elf;
pub mod frame_allocator;
pub mod memory_set;
pub mod page_table;
