//! Memory management: addresses, frames, page tables and address spaces.

pub mod elf_space;
pub mod frame_allocator;
pub mod inspect;
pub mod kernel_space;
pub mod memory_layout;
pub mod memory_set;
pub mod page_table;
