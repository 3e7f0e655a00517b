//! The user library's system calls: which call number and which arguments
//! each of `read`, `write` and `exit` hands to the kernel. Trapping into the
//! kernel with them is left to the caller.
use vstd::prelude::*;
use crate::syscall::{SYSCALL_READ, SYSCALL_WRITE, SYSCALL_EXIT};

verus! {

/// A system call as an application issues it: the call number (in `a7`) and
/// its three arguments (in `a0..a2`).
#[derive(Clone, Copy, PartialEq, Eq, Structural, Debug)]
pub struct SyscallRequest {
    pub id: usize,
    pub a0: usize,
    pub a1: usize,
    pub a2: usize,
}

/// Reads from `fd` into the `len` bytes at `buf`.
pub fn read(fd: usize, buf: usize, len: usize) -> (r: SyscallRequest)
    ensures
        r == (SyscallRequest { id: SYSCALL_READ, a0: fd, a1: buf, a2: len }),
{
    SyscallRequest { id: SYSCALL_READ, a0: fd, a1: buf, a2: len }
}

/// Writes the `len` bytes at `buf` to `fd`.
pub fn write(fd: usize, buf: usize, len: usize) -> (r: SyscallRequest)
    ensures
        r == (SyscallRequest { id: SYSCALL_WRITE, a0: fd, a1: buf, a2: len }),
{
    SyscallRequest { id: SYSCALL_WRITE, a0: fd, a1: buf, a2: len }
}

/// Ends the application with `exit_code`.
pub fn exit(exit_code: i32) -> (r: SyscallRequest)
    ensures
        r == (SyscallRequest { id: SYSCALL_EXIT, a0: exit_code as usize, a1: 0, a2: 0 }),
{
    SyscallRequest { id: SYSCALL_EXIT, a0: exit_code as usize, a1: 0, a2: 0 }
}

/// The exit code an application passes is the one the kernel reads back from
/// the argument register.
pub proof fn lemma_exit_code_round_trip(exit_code: i32)
    ensures
        (exit_code as usize) as i32 == exit_code,
{
    assert((exit_code as usize) as i32 == exit_code) by (bit_vector);
}

} // verus!
