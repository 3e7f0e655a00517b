//! Timer arithmetic: reading the machine timer in milliseconds and placing the
//! next timer interrupt.
use vstd::prelude::*;
use crate::config::{CLOCK_FREQ, TICKS_PER_SEC};

verus! {

/// The address of the machine timer `mtime`.
pub const MTIME_BASE: usize = 0x0200bff8;
/// The address of hart 0's timer compare register `mtimecmp`.
pub const MTIMECMP_BASE: usize = 0x02004000;
/// The ticks between two machine-mode timer interrupts.
pub const INTERVAL: usize = 1000000;
/// The ticks between two scheduling timer interrupts.
pub const TICKS_PER_TRIGGER: usize = 125000;

/// Milliseconds since boot for a timer reading of `ticks`.
pub fn get_time_ms(ticks: usize) -> (ms: usize)
    ensures
        ms == ticks / (CLOCK_FREQ / 1000),
{
    ticks / (CLOCK_FREQ / 1000)
}

/// The address of the `mtimecmp` register of hart `hart_id`.
pub fn get_time_cmp_addr(hart_id: usize) -> (addr: usize)
    requires
        MTIMECMP_BASE + 8 * hart_id <= usize::MAX,
    ensures
        addr == MTIMECMP_BASE + 8 * hart_id,
{
    MTIMECMP_BASE + 8 * hart_id
}

/// The deadline of the next scheduling interrupt when the timer reads `now`:
/// a hundredth of a second later.
pub fn set_next_trigger(now: usize) -> (deadline: usize)
    requires
        now + CLOCK_FREQ / TICKS_PER_SEC <= usize::MAX,
    ensures
        deadline == now + CLOCK_FREQ / TICKS_PER_SEC,
        deadline == now + TICKS_PER_TRIGGER,
{
    now + CLOCK_FREQ / TICKS_PER_SEC
}

/// The deadline the machine-mode clock handler sets when `mtime` reads
/// `mtime`: `INTERVAL` ticks later, wrapping round.
pub fn clock_interrupt_deadline(mtime: u64) -> (deadline: u64)
    ensures
        deadline == (mtime + INTERVAL) % 0x1_0000_0000_0000_0000,
{
    mtime.wrapping_add(INTERVAL as u64)
}

/// The `mtimecmp` address that machine-mode setup programs for hart `hart_id`,
/// and the deadline of its first interrupt when `mtime` reads `mtime`. The
/// setup offsets the base by the hart number itself, not by eight bytes per
/// hart as [`get_time_cmp_addr`] does; the two agree on hart 0, the hart the
/// kernel boots on.
pub fn first_timer_deadline(hart_id: usize, mtime: u64) -> (r: (usize, u64))
    requires
        MTIMECMP_BASE + hart_id <= usize::MAX,
    ensures
        r.0 == MTIMECMP_BASE + hart_id,
        r.1 == (mtime + CLOCK_FREQ / TICKS_PER_SEC) % 0x1_0000_0000_0000_0000,
{
    (MTIMECMP_BASE + hart_id, mtime.wrapping_add((CLOCK_FREQ / TICKS_PER_SEC) as u64))
}

} // verus!
