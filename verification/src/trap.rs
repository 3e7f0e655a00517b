//! The trap handler's decisions: what a trap from user mode asks the kernel to
//! do, and the register updates it makes on the saved context.
use vstd::prelude::*;

verus! {

/// The registers saved when a trap enters the kernel: the general-purpose
/// registers, `sstatus` and `sepc`.
#[derive(Clone, Copy, Debug)]
pub struct TrapContext {
    pub x: [usize; 32],
    pub sstatus: usize,
    pub sepc: usize,
}

impl TrapContext {
    /// Sets the stack pointer (`x2`).
    pub fn set_sp(&mut self, sp: usize)
        ensures
            final(self).x@ == old(self).x@.update(2, sp),
            final(self).sstatus == old(self).sstatus,
            final(self).sepc == old(self).sepc,
    {
        self.x.set(2, sp);
    }

    /// The context an application starts from: every register zero but the
    /// stack pointer `sp`, the given `sstatus`, and `sepc` at `entry`.
    pub fn app_init_context(entry: usize, sp: usize, sstatus: usize) -> (cx: TrapContext)
        ensures
            cx.x@ == Seq::new(32, |i: int| 0usize).update(2, sp),
            cx.sstatus == sstatus,
            cx.sepc == entry,
    {
        let mut cx = TrapContext { x: [0; 32], sstatus, sepc: entry };
        cx.set_sp(sp);
        assert(cx.x@ =~= Seq::new(32, |i: int| 0usize).update(2, sp));
        cx
    }
}

/// The causes of a trap the kernel tells apart.
#[derive(Clone, Copy, PartialEq, Eq, Structural, Debug)]
pub enum TrapCause {
    UserEnvCall,
    StoreFault,
    StorePageFault,
    IllegalInstruction,
    SupervisorTimer,
    SupervisorSoft,
    Other,
}

/// What the kernel does about a trap.
#[derive(Clone, Copy, PartialEq, Eq, Structural, Debug)]
pub enum TrapAction {
    /// Serve the system call `id` with arguments `a0`, `a1`, `a2`; its result
    /// goes to `a0`.
    Syscall { id: usize, a0: usize, a1: usize, a2: usize },
    /// The application wrote where it may not: kill it and run the next.
    KillPageFault,
    /// The application ran an illegal instruction: kill it and run the next.
    KillIllegalInstruction,
    /// The time slice is over: program the next tick and run the next task.
    Preempt,
    /// A software interrupt (the forwarded timer): clear its pending bit and
    /// program the next tick.
    SoftwareTick,
}

/// Decides what to do about a trap of cause `cause` taken with context `tc`.
/// For a system call the saved `sepc` moves past the `ecall`. Only the causes
/// the kernel handles are decided here; any other trap is fatal.
pub fn trap_handler(tc: &mut TrapContext, cause: TrapCause) -> (a: TrapAction)
    requires
        cause != TrapCause::Other,
        cause == TrapCause::UserEnvCall ==> old(tc).sepc + 4 <= usize::MAX,
    ensures
        final(tc).x == old(tc).x,
        final(tc).sstatus == old(tc).sstatus,
        cause == TrapCause::UserEnvCall ==> final(tc).sepc == old(tc).sepc + 4 && a == (
        TrapAction::Syscall {
            id: old(tc).x@[17],
            a0: old(tc).x@[10],
            a1: old(tc).x@[11],
            a2: old(tc).x@[12],
        }),
        cause != TrapCause::UserEnvCall ==> final(tc).sepc == old(tc).sepc,
        cause == TrapCause::StoreFault || cause == TrapCause::StorePageFault ==> a
            == TrapAction::KillPageFault,
        cause == TrapCause::IllegalInstruction ==> a == TrapAction::KillIllegalInstruction,
        cause == TrapCause::SupervisorTimer ==> a == TrapAction::Preempt,
        cause == TrapCause::SupervisorSoft ==> a == TrapAction::SoftwareTick,
{
    match cause {
        TrapCause::UserEnvCall => {
            tc.sepc = tc.sepc + 4;
            TrapAction::Syscall { id: tc.x[17], a0: tc.x[10], a1: tc.x[11], a2: tc.x[12] }
        },
        TrapCause::StoreFault | TrapCause::StorePageFault => TrapAction::KillPageFault,
        TrapCause::IllegalInstruction => TrapAction::KillIllegalInstruction,
        TrapCause::SupervisorTimer => TrapAction::Preempt,
        TrapCause::SupervisorSoft => TrapAction::SoftwareTick,
        TrapCause::Other => vstd::pervasive::unreached(),
    }
}

/// Puts the result of a system call in `a0` (`x10`).
pub fn set_syscall_result(tc: &mut TrapContext, ret: isize)
    ensures
        final(tc).x@ == old(tc).x@.update(10, ret as usize),
        final(tc).sstatus == old(tc).sstatus,
        final(tc).sepc == old(tc).sepc,
{
    tc.x.set(10, ret as usize);
}

/// `sip` with the supervisor software-interrupt pending bit flipped.
pub fn clear_software_pending(sip: usize) -> (r: usize)
    ensures
        r == sip ^ 2,
{
    sip ^ 2
}

} // verus!
