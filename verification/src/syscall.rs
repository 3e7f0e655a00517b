//! System-call dispatch: which service a call number selects, and what the
//! services decide.
use vstd::prelude::*;
use crate::task::{
    TaskManager, TaskStatus, TaskSwitch, exit_cur_and_run_next, suspend_cur_and_run_next,
    switch_after, after_switch, switched_to,
};
use crate::timer::get_time_ms;
use crate::config::CLOCK_FREQ;
use vstd::utf8::valid_utf8;

verus! {

/// Read from a file descriptor (not served).
pub const SYSCALL_READ: usize = 63;
/// Write to a file descriptor.
pub const SYSCALL_WRITE: usize = 64;
/// End the calling application.
pub const SYSCALL_EXIT: usize = 93;
/// Give up the processor.
pub const SYSCALL_YIELD: usize = 124;
/// Milliseconds since boot.
pub const SYSCALL_GET_TIME: usize = 169;
/// Standard input.
pub const FD_STDIN: usize = 0;
/// Standard output.
pub const FD_STDOUT: usize = 1;

/// What the kernel does for a system call.
#[derive(Clone, Copy, PartialEq, Eq, Structural, Debug)]
pub enum SyscallAction {
    /// Write `len` bytes at `buf` to `fd`.
    Write { fd: usize, buf: usize, len: usize },
    /// The application ended with `code`; make `switch`.
    Exit { code: i32, switch: TaskSwitch },
    /// The application yielded; make `switch`, then return 0.
    Yield { switch: TaskSwitch },
    /// Read the timer and return the milliseconds since boot.
    GetTime,
}

/// The call numbers the kernel serves: write, exit, yield and get-time.
pub open spec fn served(syscall_id: usize) -> bool {
    syscall_id == SYSCALL_WRITE || syscall_id == SYSCALL_EXIT || syscall_id == SYSCALL_YIELD
        || syscall_id == SYSCALL_GET_TIME
}

/// Whether the kernel serves the call number `syscall_id`.
pub fn is_served(syscall_id: usize) -> (b: bool)
    ensures
        b == served(syscall_id),
        b <==> (syscall_id == 64 || syscall_id == 93 || syscall_id == 124 || syscall_id == 169),
{
    syscall_id == SYSCALL_WRITE || syscall_id == SYSCALL_EXIT || syscall_id == SYSCALL_YIELD
        || syscall_id == SYSCALL_GET_TIME
}

/// Dispatches the system call `syscall_id` with `args` for the running task
/// of `tm`. Only the served call numbers are dispatched; any other is fatal.
pub fn syscall(tm: &mut TaskManager, syscall_id: usize, args: [usize; 3]) -> (a: SyscallAction)
    requires
        old(tm).wf(),
        served(syscall_id),
    ensures
        final(tm).wf(),
        syscall_id == SYSCALL_WRITE ==> a == (SyscallAction::Write {
            fd: args@[0],
            buf: args@[1],
            len: args@[2],
        }) && *final(tm) == *old(tm),
        syscall_id == SYSCALL_EXIT ==> a == (SyscallAction::Exit {
            code: args@[0] as i32,
            switch: switch_after(
                old(tm).statuses(),
                old(tm).app_count(),
                old(tm).current(),
                TaskStatus::Exited,
            ),
        }) && final(tm).statuses() == after_switch(
            old(tm).statuses(),
            old(tm).app_count(),
            old(tm).current(),
            TaskStatus::Exited,
        ) && final(tm).current() == switched_to(
            old(tm).statuses(),
            old(tm).app_count(),
            old(tm).current(),
            TaskStatus::Exited,
        ) && final(tm).contexts() == old(tm).contexts()
            && final(tm).app_count() == old(tm).app_count(),
        syscall_id == SYSCALL_YIELD ==> a == (SyscallAction::Yield {
            switch: switch_after(
                old(tm).statuses(),
                old(tm).app_count(),
                old(tm).current(),
                TaskStatus::Ready,
            ),
        }) && final(tm).statuses() == after_switch(
            old(tm).statuses(),
            old(tm).app_count(),
            old(tm).current(),
            TaskStatus::Ready,
        ) && final(tm).current() == switched_to(
            old(tm).statuses(),
            old(tm).app_count(),
            old(tm).current(),
            TaskStatus::Ready,
        ) && final(tm).contexts() == old(tm).contexts()
            && final(tm).app_count() == old(tm).app_count(),
        syscall_id == SYSCALL_GET_TIME ==> a == SyscallAction::GetTime && *final(tm) == *old(tm),
        a is Write <==> syscall_id == 64,
        a is Exit <==> syscall_id == 93,
        a is Yield <==> syscall_id == 124,
        a is GetTime <==> syscall_id == 169,
{
    if syscall_id == SYSCALL_WRITE {
        SyscallAction::Write { fd: args[0], buf: args[1], len: args[2] }
    } else if syscall_id == SYSCALL_EXIT {
        let switch = sys_exit(tm, args[0] as i32);
        SyscallAction::Exit { code: args[0] as i32, switch }
    } else if syscall_id == SYSCALL_YIELD {
        let (switch, _ret) = sys_yield(tm);
        SyscallAction::Yield { switch }
    } else {
        SyscallAction::GetTime
    }
}

/// What writing `buf` to standard output returns: its length. Only standard
/// output is served, and only text: the bytes must be valid UTF-8.
pub fn sys_write(fd: usize, buf: &[u8]) -> (r: isize)
    requires
        fd == FD_STDOUT,
        valid_utf8(buf@),
    ensures
        r == buf@.len() as isize,
{
    buf.len() as isize
}

/// The running task yields: it stays ready and the next ready task runs; the
/// call returns 0.
pub fn sys_yield(tm: &mut TaskManager) -> (r: (TaskSwitch, isize))
    requires
        old(tm).wf(),
    ensures
        final(tm).wf(),
        r.1 == 0,
        r.0 == switch_after(
            old(tm).statuses(),
            old(tm).app_count(),
            old(tm).current(),
            TaskStatus::Ready,
        ),
        final(tm).statuses() == after_switch(
            old(tm).statuses(),
            old(tm).app_count(),
            old(tm).current(),
            TaskStatus::Ready,
        ),
        final(tm).current() == switched_to(old(tm).statuses(), old(tm).app_count(), old(tm).current(), TaskStatus::Ready),
        final(tm).contexts() == old(tm).contexts(),
        final(tm).app_count() == old(tm).app_count(),
{
    let sw = suspend_cur_and_run_next(tm);
    (sw, 0)
}

/// The running task exits with `exit_code`: it is marked exited and the next
/// ready task runs (the machine shuts down when none is left).
pub fn sys_exit(tm: &mut TaskManager, exit_code: i32) -> (sw: TaskSwitch)
    requires
        old(tm).wf(),
    ensures
        final(tm).wf(),
        sw == switch_after(
            old(tm).statuses(),
            old(tm).app_count(),
            old(tm).current(),
            TaskStatus::Exited,
        ),
        final(tm).statuses() == after_switch(
            old(tm).statuses(),
            old(tm).app_count(),
            old(tm).current(),
            TaskStatus::Exited,
        ),
        final(tm).current() == switched_to(old(tm).statuses(), old(tm).app_count(), old(tm).current(), TaskStatus::Exited),
        final(tm).contexts() == old(tm).contexts(),
        final(tm).app_count() == old(tm).app_count(),
{
    exit_cur_and_run_next(tm)
}

/// The milliseconds since boot for a timer reading of `ticks`, as the call's
/// return value.
pub fn sys_get_time(ticks: usize) -> (r: isize)
    ensures
        r == (ticks / (CLOCK_FREQ / 1000)) as isize,
{
    get_time_ms(ticks) as isize
}

/// The kernel serves exactly four call numbers: write (64), exit (93), yield
/// (124) and get-time (169); every other number is refused.
pub proof fn lemma_served_numbers(syscall_id: usize)
    ensures
        served(syscall_id) <==> (syscall_id == 64 || syscall_id == 93 || syscall_id == 124
            || syscall_id == 169),
        !served(63),
{
}

} // verus!
