//! Kernel configuration constants.

use vstd::prelude::*;

verus! {

/// Page size (4 KiB).
pub const PAGE_SIZE: u64 = 0x1000;

/// Number of address bits inside a page.
pub const PAGE_SIZE_BITS: u64 = 12;

/// User stack size (8 KiB).
pub const USER_STACK_SIZE: u64 = 0x2000;

/// Kernel stack size (16 KiB).
pub const KERNEL_STACK_SIZE: u64 = 0x4000;

/// Kernel heap size (8 MiB).
pub const KERNEL_HEAP_SIZE: u64 = 0x80_0000;

/// Start of physical memory on the QEMU `virt` machine.
pub const MEMORY_START: u64 = 0x8000_0000;

/// End of physical memory (128 MiB of RAM).
pub const MEMORY_END: u64 = 0x8800_0000;

/// Start of the kernel image.
pub const KERNEL_START: u64 = 0x8022_0000;

/// End of the kernel image.
pub const KERNEL_END: u64 = 0x8042_0000;

/// Start of the kernel heap.
pub const KERNEL_HEAP_START: u64 = 0x8042_0000;

/// End of the kernel heap.
pub const KERNEL_HEAP_END: u64 = KERNEL_HEAP_START + KERNEL_HEAP_SIZE;

/// Start of the memory-mapped device window.
pub const MMIO_START: u64 = 0x0200_0000;

/// End of the memory-mapped device window.
pub const MMIO_END: u64 = 0x1000_0000;

/// Largest number of tasks.
pub const MAX_APP_NUM: usize = 16;

/// Largest system call number.
pub const MAX_SYSCALL_NUM: usize = 500;

/// Timer frequency (10 MHz on QEMU).
pub const CLOCK_FREQ: u64 = 10_000_000;

/// The last page of the address space, shared by every address space.
pub const TRAMPOLINE: u64 = 0xFFFF_FFFF_FFFF_F000;

/// The page below the trampoline, holding a task's trap frame.
pub const TRAP_CONTEXT: u64 = 0xFFFF_FFFF_FFFF_E000;

/// Lowest address of the user stack.
pub const USER_STACK_BOTTOM: u64 = 0x1000_0000;

/// One past the highest address of the user stack.
pub const USER_STACK_TOP: u64 = USER_STACK_BOTTOM + USER_STACK_SIZE;

/// Where anonymous mappings are placed when the caller names no address.
pub const MMAP_START: u64 = 0x2000_0000;

} // verus!
