//! Core of a small SV39 teaching kernel: physical frames, page tables,
//! address spaces, the easy-fs on-disk file system and the process model.

pub mod config;
pub mod address;
pub mod frame_allocator;
pub mod page_table;
pub mod memory_set;
pub mod elf;
pub mod block_dev;
pub mod block_cache;
pub mod bitmap;
pub mod layout;
pub mod efs;
pub mod trap_context;
pub mod pid;
pub mod task;
pub mod syscall;
pub mod process;
