//! The verified core of a small RISC-V batch and multitasking kernel: the buddy
//! heap allocator and its free lists (stacks of block addresses), the task
//! scheduler's decisions, system-call and trap dispatch, console rendering, and
//! the address and timer arithmetic of the loader, the timer and the UART
//! driver.
use vstd::prelude::*;

pub mod batch;
pub mod bits;
pub mod buddy_allocator;
pub mod config;
pub mod console;
pub mod linked_list;
pub mod loader;
pub mod sync;
pub mod syscall;
pub mod task;
pub mod timer;
pub mod trap;
pub mod uart;
pub mod user;

