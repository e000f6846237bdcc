//! Memory: addresses, physical frames, page tables and address spaces.
pub mod access;
pub mod address;
pub mod admission;
pub mod calls;
pub mod elf;
pub mod frame_allocator;
pub mod kernel_space;
pub mod laws;
pub mod memory_set;
pub mod mmap;
pub mod page_table;
pub mod places;
pub mod user_memory;
pub mod user_space;
