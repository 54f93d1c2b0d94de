//! Platform and memory-layout constants of the kernel.
use vstd::prelude::*;

verus! {

/// Size of one page in bytes.
pub const PAGE_SIZE: usize = 4096;
/// Number of offset bits within a page.
pub const PAGE_SIZE_BITS: usize = 12;
/// Ticks of the platform timer per second.
pub const CLOCK_FREQ: usize = 12500000;
/// Size of a user stack in bytes.
pub const USER_STACK_SIZE: usize = 8192;
/// Size of a kernel stack in bytes.
pub const KERNEL_STACK_SIZE: usize = 8192;
/// Virtual address of the trampoline page (the highest page).
pub const TRAMPOLINE: usize = usize::MAX - PAGE_SIZE + 1;
/// Virtual address of the page that holds a user trap context.
pub const TRAP_CONTEXT_BASE: usize = usize::MAX - 2 * PAGE_SIZE + 1;
/// Stride charged to a task of priority one per dispatch.
pub const BIG_STRIDE: usize = 65536;

} // verus!
