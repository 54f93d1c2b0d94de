//! The logic of a small RISC-V teaching kernel with Sv39 paging: address
//! spaces and page tables, processes and stride scheduling, traps and system
//! calls, pipes, a flat file system, and locks with deadlock detection.
//!
//! Hardware, I/O and global state stay with the caller: the functions here
//! take the state they act on and return what is to be done.
pub mod address;
pub mod boot;
pub mod config;
pub mod deadlock;
pub mod elf;
pub mod fs;
pub mod laws;
pub mod memory_set;
pub mod page_table;
pub mod pipe;
pub mod process;
pub mod signal;
pub mod sync;
pub mod syscall;
pub mod task;
pub mod timer;
pub mod trap;
