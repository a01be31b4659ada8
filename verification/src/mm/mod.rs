//! Memory management: addresses, page tables, frames and address spaces.

pub mod address;
pub mod device_tree;
pub mod elf;
pub mod frame_allocator;
pub mod frame_history;
pub mod boot_memory;
pub mod heap_allocator;
pub mod pte;
pub mod shm;
pub mod tlb;
pub mod user_buffer;
pub mod user_string;
pub mod phys;
pub mod page_table;
pub mod area;
pub mod kernel_space;
pub mod memory_set;
pub mod mmap;
