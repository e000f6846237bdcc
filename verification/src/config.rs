//! Constants in the kernel.
use vstd::prelude::*;

verus! {

/// User app's stack size.
pub const USER_STACK_SIZE: u64 = 0x2000;

/// Kernel stack size.
pub const KERNEL_STACK_SIZE: u64 = 0x2000;

/// Kernel heap size.
pub const KERNEL_HEAP_SIZE: usize = 0x200_0000;

/// Page size: 4 KiB.
pub const PAGE_SIZE: u64 = 0x1000;

/// Page size bits.
pub const PAGE_SIZE_BITS: u64 = 0xc;

/// The virtual address of the trampoline, the highest page.
pub const TRAMPOLINE: u64 = 0xffff_ffff_ffff_f000;

/// The virtual address of the trap context, the page below.
pub const TRAP_CONTEXT_BASE: u64 = 0xffff_ffff_ffff_e000;

/// Clock frequency.
pub const CLOCK_FREQ: usize = 12500000;

/// The end of physical memory.
pub const MEMORY_END: u64 = 0x8800_0000;

/// Where the registers of the block device lie in physical memory.
pub const MMIO_BASE: u64 = 0x1000_1000;

/// How many bytes those registers take.
pub const MMIO_SIZE: u64 = 0x1000;

/// What the pass of a task is a part of: the higher its priority, the smaller.
pub const BIG_STRIDE: usize = 0x10_0000;

} // verus!
