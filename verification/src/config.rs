//! Kernel-wide constants.
use vstd::prelude::*;

verus! {

/// The number of applications the kernel can hold.
pub const MAX_APP_NUM: usize = 16;
/// The size of each application's kernel stack.
pub const KERNEL_STACK_SIZE: usize = 8192;
/// The size of each application's user stack.
pub const USER_STACK_SIZE: usize = 4096;
/// The address where the first application is loaded.
pub const APP_BASE_ADDRESS: usize = 0x80400000;
/// The room reserved for each application image.
pub const APP_MAX_SIZE: usize = 0x20000;
/// The size of the kernel heap.
pub const KERNEL_HEAP_SIZE: usize = 0x100000;
/// The size of a page.
pub const PAGE_SIZE: usize = 0x1000;
/// The frequency of the machine timer (12.5 MHz under QEMU).
pub const CLOCK_FREQ: usize = 12500000;
/// How many timer interrupts the kernel asks for per second.
pub const TICKS_PER_SEC: usize = 100;

} // verus!
