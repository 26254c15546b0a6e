//! A verified model of the process, memory and synchronisation system calls
//! of a small RISC-V teaching kernel.

pub mod banker;
pub mod resource;
pub mod sync;
pub mod mm;
pub mod task;
pub mod memory_set;
pub mod process;
pub mod frame_allocator;
