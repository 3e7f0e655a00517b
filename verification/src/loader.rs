//! Where the multitasking loader puts each application and its stacks, and what
//! it copies.
use vstd::prelude::*;
use crate::config::{APP_BASE_ADDRESS, APP_MAX_SIZE, KERNEL_STACK_SIZE, USER_STACK_SIZE};
use crate::trap::TrapContext;

verus! {

/// The address application `app_id` is loaded at.
pub fn get_base_i(app_id: usize) -> (b: usize)
    requires
        APP_BASE_ADDRESS + app_id * APP_MAX_SIZE <= usize::MAX,
    ensures
        b == APP_BASE_ADDRESS + app_id * APP_MAX_SIZE,
{
    APP_BASE_ADDRESS + app_id * APP_MAX_SIZE
}

/// An application's kernel stack, by the address of its lowest byte.
pub struct KernelStack {
    pub base: usize,
}

/// An application's user stack, by the address of its lowest byte.
pub struct UserStack {
    pub base: usize,
}

impl KernelStack {
    /// The top of the stack.
    pub fn get_sp(&self) -> (sp: usize)
        requires
            self.base + KERNEL_STACK_SIZE <= usize::MAX,
        ensures
            sp == self.base + KERNEL_STACK_SIZE,
    {
        self.base + KERNEL_STACK_SIZE
    }

    /// The address a trap context pushed on the empty stack occupies: just
    /// below the top.
    pub fn push_context(&self) -> (addr: usize)
        requires
            self.base + KERNEL_STACK_SIZE <= usize::MAX,
            vstd::layout::size_of::<TrapContext>() <= self.base + KERNEL_STACK_SIZE,
        ensures
            addr == self.base + KERNEL_STACK_SIZE - vstd::layout::size_of::<TrapContext>(),
    {
        self.get_sp() - core::mem::size_of::<TrapContext>()
    }
}

impl UserStack {
    /// The top of the stack.
    pub fn get_sp(&self) -> (sp: usize)
        requires
            self.base + USER_STACK_SIZE <= usize::MAX,
        ensures
            sp == self.base + USER_STACK_SIZE,
    {
        self.base + USER_STACK_SIZE
    }
}

/// The first context of application `app_id`: it starts at its load address
/// on the top of its user stack with status `sstatus`; the context goes to the
/// returned address on its kernel stack, which is also the stack pointer its
/// first switch restores.
pub fn init_app_cx(app_id: usize, kstack: &KernelStack, ustack: &UserStack, sstatus: usize) -> (r: (
    TrapContext,
    usize,
))
    requires
        APP_BASE_ADDRESS + app_id * APP_MAX_SIZE <= usize::MAX,
        kstack.base + KERNEL_STACK_SIZE <= usize::MAX,
        ustack.base + USER_STACK_SIZE <= usize::MAX,
        vstd::layout::size_of::<TrapContext>() <= kstack.base + KERNEL_STACK_SIZE,
    ensures
        r.0.sepc == APP_BASE_ADDRESS + app_id * APP_MAX_SIZE,
        r.0.x@ == Seq::new(32, |i: int| 0usize).update(2, (ustack.base + USER_STACK_SIZE) as usize),
        r.0.sstatus == sstatus,
        r.1 == kstack.base + KERNEL_STACK_SIZE - vstd::layout::size_of::<TrapContext>(),
{
    let cx = TrapContext::app_init_context(get_base_i(app_id), ustack.get_sp(), sstatus);
    (cx, kstack.push_context())
}

/// One copy the loader makes: `len` bytes from `src` to `dst`, after clearing
/// the application's whole slot at `dst`.
#[derive(Clone, Copy, PartialEq, Eq, Structural, Debug)]
pub struct AppLoad {
    pub src: usize,
    pub len: usize,
    pub dst: usize,
}

/// The copies that load all `num_app` applications, whose images lie between
/// consecutive entries of `app_start`, each to its own slot.
pub fn load_apps(app_start: &[usize], num_app: usize) -> (plan: Vec<AppLoad>)
    requires
        app_start@.len() >= num_app + 1,
        forall|i: int, j: int| 0 <= i <= j <= num_app ==> app_start@[i] <= app_start@[j],
        num_app > 0 ==> APP_BASE_ADDRESS + (num_app - 1) * APP_MAX_SIZE <= usize::MAX,
    ensures
        plan@.len() == num_app,
        forall|i: int|
            0 <= i < num_app ==> #[trigger] plan@[i] == (AppLoad {
                src: app_start@[i],
                len: (app_start@[i + 1] - app_start@[i]) as usize,
                dst: (APP_BASE_ADDRESS + i * APP_MAX_SIZE) as usize,
            }),
{
    let mut plan: Vec<AppLoad> = Vec::new();
    let mut i: usize = 0;
    while i < num_app
        invariant
            i <= num_app,
            app_start@.len() >= num_app + 1,
            forall|k: int, j: int| 0 <= k <= j <= num_app ==> app_start@[k] <= app_start@[j],
            num_app > 0 ==> APP_BASE_ADDRESS + (num_app - 1) * APP_MAX_SIZE <= usize::MAX,
            plan@.len() == i,
            forall|k: int|
                0 <= k < i ==> #[trigger] plan@[k] == (AppLoad {
                    src: app_start@[k],
                    len: (app_start@[k + 1] - app_start@[k]) as usize,
                    dst: (APP_BASE_ADDRESS + k * APP_MAX_SIZE) as usize,
                }),
        decreases num_app - i,
    {
        proof {
            assert(i * APP_MAX_SIZE <= (num_app - 1) * APP_MAX_SIZE) by (nonlinear_arith)
                requires
                    i < num_app,
            ;
        }
        let dst = get_base_i(i);
        plan.push(AppLoad { src: app_start[i], len: app_start[i + 1] - app_start[i], dst });
        i = i + 1;
    }
    plan
}

} // verus!
