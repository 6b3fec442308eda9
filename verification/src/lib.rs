//! Memory-management and scheduling core of a small RISC-V (Sv39) teaching
//! kernel: addresses and page numbers, a stack frame allocator, a three-level
//! page table, address spaces built from areas and ELF images, tasks and
//! their round-robin scheduler, and the decisions the kernel takes on traps
//! and system calls, all over an explicit model of physical memory.
use vstd::prelude::*;

pub mod address;
pub mod phys_mem;
pub mod frame_allocator;
pub mod page_table;
pub mod memory_set;
pub mod elf;
pub mod user_space;
pub mod task;
pub mod syscall;
pub mod trap;
pub mod timer;
pub mod loader;
pub mod mm;
pub mod batch;
