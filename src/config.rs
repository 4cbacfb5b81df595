//! Kernel configuration and platform constants.
use vstd::prelude::*;

verus! {

/// Size of a page and of a physical frame, in bytes.
pub const PAGE_SIZE: u64 = 0x1000;

/// Width of the in-page offset of an address.
pub const PAGE_SIZE_BITS: usize = 0xc;

/// Size of a user stack.
pub const USER_STACK_SIZE: u64 = 4096 * 2;

/// Size of a kernel stack.
pub const KERNEL_STACK_SIZE: u64 = 4096 * 2;

/// Size of the kernel heap.
pub const KERNEL_HEAP_SIZE: usize = 0x20_0000;

/// Virtual address of the trampoline page, the highest page of every address space.
pub const TRAMPOLINE: u64 = 0xffff_ffff_ffff_f000;

/// Virtual address of the trap-context page, one page below the trampoline.
pub const TRAP_CONTEXT: u64 = 0xffff_ffff_ffff_e000;

/// Size of a disk block, in bytes.
pub const BLOCK_SZ: usize = 512;

/// Number of disk blocks held by the block cache at once.
pub const BLOCK_CACHE_SIZE: usize = 16;

/// Physical memory ends here (QEMU virt board with 8 MiB above 0x8000_0000).
pub const MEMORY_END: u64 = 0x8080_0000;

} // verus!
