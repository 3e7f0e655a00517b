//! The task manager's decisions: which application runs next, and what each
//! scheduling event does to the task table. Switching contexts is left to the
//! caller, which gets the switch to make as a [`TaskSwitch`].
use vstd::prelude::*;
use crate::config::MAX_APP_NUM;
use crate::sync::UpSafeCell;

verus! {

/// Where a task stands.
#[derive(Clone, Copy, PartialEq, Eq, Structural, Debug)]
pub enum TaskStatus {
    UnInit,
    Ready,
    Running,
    Exited,
}

/// The registers `__switch` saves for a task: the return address, the stack
/// pointer and the callee-saved registers `s0..s11`.
#[derive(Clone, Copy, Debug)]
pub struct TaskContext {
    pub ra: usize,
    pub sp: usize,
    pub s: [usize; 12],
}

impl TaskContext {
    /// A context of zeros.
    pub fn zero_init() -> (c: TaskContext)
        ensures
            c.ra == 0,
            c.sp == 0,
            c.s@ == Seq::new(12, |i: int| 0usize),
    {
        let c = TaskContext { ra: 0, sp: 0, s: [0; 12] };
        assert(c.s@ =~= Seq::new(12, |i: int| 0usize));
        c
    }

    /// A context that, switched to, returns into `restore` (the trap-return
    /// routine) on the kernel stack `kstack_ptr`.
    pub fn goto_restore(restore: usize, kstack_ptr: usize) -> (c: TaskContext)
        ensures
            c.ra == restore,
            c.sp == kstack_ptr,
            c.s@ == Seq::new(12, |i: int| 0usize),
    {
        let c = TaskContext { ra: restore, sp: kstack_ptr, s: [0; 12] };
        assert(c.s@ =~= Seq::new(12, |i: int| 0usize));
        c
    }
}

/// A task: its saved context and its status.
#[derive(Clone, Copy, Debug)]
pub struct TaskControlBlock {
    pub task_cx: TaskContext,
    pub task_status: TaskStatus,
}

/// The task table and the index of the running task.
pub struct TaskManagerInner {
    tasks: Vec<TaskControlBlock>,
    current_task: usize,
}

/// The task manager: how many applications there are and their table.
pub struct TaskManager {
    num_app: usize,
    inner: UpSafeCell<TaskManagerInner>,
}

/// The switch the caller has to make after a scheduling decision.
#[derive(Clone, Copy, PartialEq, Eq, Structural, Debug)]
pub enum TaskSwitch {
    /// Save the context of task `from` and resume task `to`.
    Switch { from: usize, to: usize },
    /// Resume task `to` from a scratch context (the first switch).
    Start { to: usize },
    /// No task is ready: shut the machine down.
    Shutdown,
}

/// The first task after `cur`, counting `d, d + 1, .. n` steps round the table
/// of `n` tasks, that is ready.
pub open spec fn ready_from(st: Seq<TaskStatus>, n: nat, cur: nat, d: nat) -> Option<nat>
    decreases n + 1 - d,
{
    if n == 0 || d > n || d == 0 {
        None
    } else if st[(((cur + d) as int) % (n as int))] == TaskStatus::Ready {
        Some((((cur + d) as int) % (n as int)) as nat)
    } else {
        ready_from(st, n, cur, d + 1)
    }
}

/// The next ready task after `cur`, round the table of `n` tasks (`cur`
/// itself last).
pub open spec fn next_ready(st: Seq<TaskStatus>, n: nat, cur: nat) -> Option<nat> {
    ready_from(st, n, cur, 1)
}

impl TaskManager {
    /// The status of each task.
    pub closed spec fn statuses(&self) -> Seq<TaskStatus> {
        self.inner.value().tasks@.map(|i: int, t: TaskControlBlock| t.task_status)
    }

    /// The saved context of each task.
    pub closed spec fn contexts(&self) -> Seq<TaskContext> {
        self.inner.value().tasks@.map(|i: int, t: TaskControlBlock| t.task_cx)
    }

    /// The index of the running task.
    pub closed spec fn current(&self) -> nat {
        self.inner.value().current_task as nat
    }

    /// How many applications there are.
    pub closed spec fn app_count(&self) -> nat {
        self.num_app as nat
    }

    /// A full table, at most `MAX_APP_NUM` applications, and a running task
    /// inside the table.
    pub open spec fn wf(&self) -> bool {
        &&& self.statuses().len() == MAX_APP_NUM
        &&& self.contexts().len() == MAX_APP_NUM
        &&& self.app_count() <= MAX_APP_NUM
        &&& self.current() < MAX_APP_NUM
    }

    /// The table for `num_app` applications: each is ready to return, through
    /// `restore`, on its kernel stack `kstack_ptrs[i]`; the other slots are
    /// uninitialised; task 0 is current.
    pub fn new(num_app: usize, restore: usize, kstack_ptrs: &Vec<usize>) -> (tm: TaskManager)
        requires
            num_app <= MAX_APP_NUM,
            kstack_ptrs@.len() >= num_app,
        ensures
            tm.wf(),
            tm.app_count() == num_app,
            tm.current() == 0,
            forall|i: int|
                0 <= i < MAX_APP_NUM ==> #[trigger] tm.statuses()[i] == (if i < num_app {
                    TaskStatus::Ready
                } else {
                    TaskStatus::UnInit
                }),
            forall|i: int|
                0 <= i < num_app ==> (#[trigger] tm.contexts()[i]).ra == restore
                    && tm.contexts()[i].sp == kstack_ptrs@[i] && tm.contexts()[i].s@ == Seq::new(
                    12,
                    |k: int| 0usize,
                ),
            forall|i: int|
                num_app <= i < MAX_APP_NUM ==> (#[trigger] tm.contexts()[i]).ra == 0
                    && tm.contexts()[i].sp == 0 && tm.contexts()[i].s@ == Seq::new(
                    12,
                    |k: int| 0usize,
                ),
    {
        let mut tasks: Vec<TaskControlBlock> = Vec::new();
        let mut i: usize = 0;
        while i < MAX_APP_NUM
            invariant
                i <= MAX_APP_NUM,
                num_app <= MAX_APP_NUM,
                kstack_ptrs@.len() >= num_app,
                tasks@.len() == i,
                forall|j: int|
                    0 <= j < i ==> (#[trigger] tasks@[j]).task_status == (if j < num_app {
                        TaskStatus::Ready
                    } else {
                        TaskStatus::UnInit
                    }),
                forall|j: int|
                    0 <= j < i && j < num_app ==> (#[trigger] tasks@[j]).task_cx.ra == restore
                        && tasks@[j].task_cx.sp == kstack_ptrs@[j] && tasks@[j].task_cx.s@
                        == Seq::new(12, |k: int| 0usize),
                forall|j: int|
                    num_app <= j < i ==> (#[trigger] tasks@[j]).task_cx.ra == 0
                        && tasks@[j].task_cx.sp == 0 && tasks@[j].task_cx.s@ == Seq::new(
                        12,
                        |k: int| 0usize,
                    ),
            decreases MAX_APP_NUM - i,
        {
            if i < num_app {
                tasks.push(
                    TaskControlBlock {
                        task_cx: TaskContext::goto_restore(restore, kstack_ptrs[i]),
                        task_status: TaskStatus::Ready,
                    },
                );
            } else {
                tasks.push(
                    TaskControlBlock {
                        task_cx: TaskContext::zero_init(),
                        task_status: TaskStatus::UnInit,
                    },
                );
            }
            i = i + 1;
        }
        TaskManager {
            num_app,
            inner: UpSafeCell::new(TaskManagerInner { tasks, current_task: 0 }),
        }
    }

    /// How many applications there are.
    pub fn num_app(&self) -> (n: usize)
        ensures
            n == self.app_count(),
    {
        self.num_app
    }

    /// The index of the running task.
    pub fn current_task(&self) -> (c: usize)
        ensures
            c == self.current(),
    {
        self.inner.shared_access().current_task
    }

    /// The status of task `i`.
    pub fn status(&self, i: usize) -> (s: TaskStatus)
        requires
            self.wf(),
            i < MAX_APP_NUM,
        ensures
            s == self.statuses()[i as int],
    {
        self.inner.shared_access().tasks[i].task_status
    }

    /// The saved context of task `i`.
    pub fn context(&self, i: usize) -> (c: TaskContext)
        requires
            self.wf(),
            i < MAX_APP_NUM,
        ensures
            c == self.contexts()[i as int],
    {
        self.inner.shared_access().tasks[i].task_cx
    }

    /// Mutable access to the saved context of task `i`, for the context switch
    /// to save into or load from.
    pub fn context_mut(&mut self, i: usize) -> (c: &mut TaskContext)
        requires
            old(self).wf(),
            i < MAX_APP_NUM,
        ensures
            *c == old(self).contexts()[i as int],
            final(self).contexts() == old(self).contexts().update(i as int, *final(c)),
            final(self).statuses() == old(self).statuses(),
            final(self).current() == old(self).current(),
            final(self).app_count() == old(self).app_count(),
    {
        let inner = self.inner.exclusive_access();
        &mut inner.tasks[i].task_cx
    }

    /// Sets the status of task `i`.
    fn set_status(&mut self, i: usize, st: TaskStatus)
        requires
            old(self).wf(),
            i < MAX_APP_NUM,
        ensures
            final(self).wf(),
            final(self).statuses() == old(self).statuses().update(i as int, st),
            final(self).contexts() == old(self).contexts(),
            final(self).current() == old(self).current(),
            final(self).app_count() == old(self).app_count(),
    {
        let inner = self.inner.exclusive_access();
        let mut t = inner.tasks[i];
        t.task_status = st;
        inner.tasks.set(i, t);
        proof {
            assert(self.statuses() =~= old(self).statuses().update(i as int, st));
            assert(self.contexts() =~= old(self).contexts());
        }
    }

    /// Marks the running task as exited.
    pub fn mark_cur_exited(&mut self)
        requires
            old(self).wf(),
        ensures
            final(self).wf(),
            final(self).statuses() == old(self).statuses().update(
                old(self).current() as int,
                TaskStatus::Exited,
            ),
            final(self).contexts() == old(self).contexts(),
            final(self).current() == old(self).current(),
            final(self).app_count() == old(self).app_count(),
    {
        let cur = self.current_task();
        self.set_status(cur, TaskStatus::Exited);
    }

    /// Marks the running task as ready to run again later.
    pub fn mark_cur_suspended(&mut self)
        requires
            old(self).wf(),
        ensures
            final(self).wf(),
            final(self).statuses() == old(self).statuses().update(
                old(self).current() as int,
                TaskStatus::Ready,
            ),
            final(self).contexts() == old(self).contexts(),
            final(self).current() == old(self).current(),
            final(self).app_count() == old(self).app_count(),
    {
        let cur = self.current_task();
        self.set_status(cur, TaskStatus::Ready);
    }

    /// The first ready task after the running one, round the table (the running
    /// one last); `None` when no task is ready.
    pub fn find_next_task(&self) -> (r: Option<usize>)
        requires
            self.wf(),
        ensures
            r == (match next_ready(self.statuses(), self.app_count(), self.current()) {
                Some(t) => Some(t as usize),
                None => None::<usize>,
            }),
    {
        let inner = self.inner.shared_access();
        let cur = inner.current_task;
        let n = self.num_app;
        let ghost st = self.statuses();
        let mut id = cur + 1;
        while id < cur + n + 1
            invariant
                self.wf(),
                st == self.statuses(),
                *inner == self.inner.value(),
                cur == self.current(),
                n == self.app_count(),
                cur + 1 <= id <= cur + n + 1,
                ready_from(st, n as nat, cur as nat, (id - cur) as nat) == next_ready(
                    st,
                    n as nat,
                    cur as nat,
                ),
            decreases cur + n + 1 - id,
        {
            let t = id % n;
            proof {
                assert(st[t as int] == inner.tasks@[t as int].task_status);
            }
            if inner.tasks[t].task_status == TaskStatus::Ready {
                return Some(t);
            }
            id = id + 1;
        }
        None
    }

    /// Hands the processor to the next ready task: it becomes the running
    /// task; with none ready, the machine is to shut down.
    pub fn run_next_task(&mut self) -> (sw: TaskSwitch)
        requires
            old(self).wf(),
        ensures
            final(self).wf(),
            final(self).contexts() == old(self).contexts(),
            final(self).app_count() == old(self).app_count(),
            match next_ready(old(self).statuses(), old(self).app_count(), old(self).current()) {
                Some(t) => sw == (TaskSwitch::Switch {
                    from: old(self).current() as usize,
                    to: t as usize,
                }) && final(self).current() == t && final(self).statuses() == old(
                    self,
                ).statuses().update(t as int, TaskStatus::Running),
                None => sw == TaskSwitch::Shutdown && final(self).statuses() == old(
                    self,
                ).statuses() && final(self).current() == old(self).current(),
            },
    {
        proof {
            lemma_next_ready_in_table(self.statuses(), self.app_count(), self.current());
        }
        match self.find_next_task() {
            Some(nxt) => {
                let cur = self.current_task();
                self.set_status(nxt, TaskStatus::Running);
                let inner = self.inner.exclusive_access();
                inner.current_task = nxt;
                proof {
                    assert(self.statuses() =~= old(self).statuses().update(
                        nxt as int,
                        TaskStatus::Running,
                    ));
                    assert(self.contexts() =~= old(self).contexts());
                }
                TaskSwitch::Switch { from: cur, to: nxt }
            },
            None => TaskSwitch::Shutdown,
        }
    }

    /// Starts the first task: task 0 becomes running.
    pub fn run_first_task(&mut self) -> (sw: TaskSwitch)
        requires
            old(self).wf(),
        ensures
            final(self).wf(),
            sw == (TaskSwitch::Start { to: 0 }),
            final(self).statuses() == old(self).statuses().update(0, TaskStatus::Running),
            final(self).contexts() == old(self).contexts(),
            final(self).current() == old(self).current(),
            final(self).app_count() == old(self).app_count(),
    {
        self.set_status(0, TaskStatus::Running);
        TaskSwitch::Start { to: 0 }
    }
}

/// A task the search finds is in the table and ready.
pub proof fn lemma_next_ready_in_table(st: Seq<TaskStatus>, n: nat, cur: nat)
    ensures
        (next_ready(st, n, cur) matches Some(t) ==> t < n && st[t as int] == TaskStatus::Ready),
{
    lemma_ready_from_in_table(st, n, cur, 1);
}

proof fn lemma_ready_from_in_table(st: Seq<TaskStatus>, n: nat, cur: nat, d: nat)
    ensures
        (ready_from(st, n, cur, d) matches Some(t) ==> t < n && st[t as int] == TaskStatus::Ready),
    decreases n + 1 - d,
{
    if !(n == 0 || d > n || d == 0) && st[(((cur + d) as int) % (n as int))] != TaskStatus::Ready {
        lemma_ready_from_in_table(st, n, cur, d + 1);
    }
}

/// Marks the running task of `tm` as exited.
pub fn mark_cur_exited(tm: &mut TaskManager)
    requires
        old(tm).wf(),
    ensures
        final(tm).wf(),
        final(tm).statuses() == old(tm).statuses().update(
            old(tm).current() as int,
            TaskStatus::Exited,
        ),
        final(tm).contexts() == old(tm).contexts(),
        final(tm).current() == old(tm).current(),
        final(tm).app_count() == old(tm).app_count(),
{
    tm.mark_cur_exited()
}

/// Marks the running task of `tm` as ready to run again.
pub fn mark_cur_suspended(tm: &mut TaskManager)
    requires
        old(tm).wf(),
    ensures
        final(tm).wf(),
        final(tm).statuses() == old(tm).statuses().update(
            old(tm).current() as int,
            TaskStatus::Ready,
        ),
        final(tm).contexts() == old(tm).contexts(),
        final(tm).current() == old(tm).current(),
        final(tm).app_count() == old(tm).app_count(),
{
    tm.mark_cur_suspended()
}

/// Hands the processor of `tm` to the next ready task.
pub fn run_next_task(tm: &mut TaskManager) -> (sw: TaskSwitch)
    requires
        old(tm).wf(),
    ensures
        final(tm).wf(),
        final(tm).contexts() == old(tm).contexts(),
        final(tm).app_count() == old(tm).app_count(),
        match next_ready(old(tm).statuses(), old(tm).app_count(), old(tm).current()) {
            Some(t) => sw == (TaskSwitch::Switch { from: old(tm).current() as usize, to: t as usize })
                && final(tm).current() == t && final(tm).statuses() == old(tm).statuses().update(
                t as int,
                TaskStatus::Running,
            ),
            None => sw == TaskSwitch::Shutdown && final(tm).statuses() == old(tm).statuses()
                && final(tm).current() == old(tm).current(),
        },
{
    tm.run_next_task()
}

/// Starts the first task of `tm`.
pub fn run_first_task(tm: &mut TaskManager) -> (sw: TaskSwitch)
    requires
        old(tm).wf(),
    ensures
        final(tm).wf(),
        sw == (TaskSwitch::Start { to: 0 }),
        final(tm).statuses() == old(tm).statuses().update(0, TaskStatus::Running),
        final(tm).contexts() == old(tm).contexts(),
        final(tm).current() == old(tm).current(),
        final(tm).app_count() == old(tm).app_count(),
{
    tm.run_first_task()
}

/// The statuses after the running task was marked `mark` and the next ready
/// task, if any, was made running.
pub open spec fn after_switch(
    st: Seq<TaskStatus>,
    n: nat,
    cur: nat,
    mark: TaskStatus,
) -> Seq<TaskStatus> {
    let marked = st.update(cur as int, mark);
    match next_ready(marked, n, cur) {
        Some(t) => marked.update(t as int, TaskStatus::Running),
        None => marked,
    }
}

/// The switch made after the running task was marked `mark`.
pub open spec fn switch_after(
    st: Seq<TaskStatus>,
    n: nat,
    cur: nat,
    mark: TaskStatus,
) -> TaskSwitch {
    match next_ready(st.update(cur as int, mark), n, cur) {
        Some(t) => TaskSwitch::Switch { from: cur as usize, to: t as usize },
        None => TaskSwitch::Shutdown,
    }
}

/// The running task after the running task `cur` was marked `mark`.
pub open spec fn switched_to(st: Seq<TaskStatus>, n: nat, cur: nat, mark: TaskStatus) -> nat {
    match next_ready(st.update(cur as int, mark), n, cur) {
        Some(t) => t,
        None => cur,
    }
}

/// The running task of `tm` gives up the processor but stays ready; the next
/// ready task (possibly itself) runs.
pub fn suspend_cur_and_run_next(tm: &mut TaskManager) -> (sw: TaskSwitch)
    requires
        old(tm).wf(),
    ensures
        final(tm).wf(),
        final(tm).contexts() == old(tm).contexts(),
        final(tm).app_count() == old(tm).app_count(),
        sw == switch_after(old(tm).statuses(), old(tm).app_count(), old(tm).current(), TaskStatus::Ready),
        final(tm).statuses() == after_switch(
            old(tm).statuses(),
            old(tm).app_count(),
            old(tm).current(),
            TaskStatus::Ready,
        ),
        final(tm).current() == switched_to(
            old(tm).statuses(),
            old(tm).app_count(),
            old(tm).current(),
            TaskStatus::Ready,
        ),
{
    mark_cur_suspended(tm);
    run_next_task(tm)
}

/// The running task of `tm` is done; the next ready task runs, or, with none
/// left, the machine is to shut down.
pub fn exit_cur_and_run_next(tm: &mut TaskManager) -> (sw: TaskSwitch)
    requires
        old(tm).wf(),
    ensures
        final(tm).wf(),
        final(tm).contexts() == old(tm).contexts(),
        final(tm).app_count() == old(tm).app_count(),
        sw == switch_after(old(tm).statuses(), old(tm).app_count(), old(tm).current(), TaskStatus::Exited),
        final(tm).statuses() == after_switch(
            old(tm).statuses(),
            old(tm).app_count(),
            old(tm).current(),
            TaskStatus::Exited,
        ),
        final(tm).current() == switched_to(
            old(tm).statuses(),
            old(tm).app_count(),
            old(tm).current(),
            TaskStatus::Exited,
        ),
{
    mark_cur_exited(tm);
    run_next_task(tm)
}


/// With every step from `d` on failing, the search finds nothing; a ready
/// task `d2` steps on, with `d <= d2 <= n`, makes it find one.
proof fn lemma_ready_from_steps(st: Seq<TaskStatus>, n: nat, cur: nat, d: nat)
    requires
        d >= 1,
    ensures
        (forall|d2: nat|
            d <= d2 <= n ==> st[#[trigger] (((cur + d2) as int) % (n as int))] != TaskStatus::Ready)
            ==> ready_from(st, n, cur, d) is None,
        (exists|d2: nat|
            d <= d2 <= n && st[#[trigger] (((cur + d2) as int) % (n as int))] == TaskStatus::Ready)
            ==> ready_from(st, n, cur, d) is Some,
    decreases n + 1 - d,
{
    if d <= n {
        lemma_ready_from_steps(st, n, cur, d + 1);
        if exists|d2: nat|
            d <= d2 <= n && st[#[trigger] (((cur + d2) as int) % (n as int))] == TaskStatus::Ready {
            let d2 = choose|d2: nat|
                d <= d2 <= n && st[#[trigger] (((cur + d2) as int) % (n as int))]
                    == TaskStatus::Ready;
            if d2 > d {
                assert(d + 1 <= d2 <= n);
            }
        }
    }
}

/// The scheduler finds no task to run exactly when no task of the table is
/// ready; one it finds is in the table and ready.
pub proof fn lemma_next_ready_none_iff(st: Seq<TaskStatus>, n: nat, cur: nat)
    ensures
        next_ready(st, n, cur) is None <==> (forall|t: int|
            0 <= t < n ==> #[trigger] st[t] != TaskStatus::Ready),
        (next_ready(st, n, cur) matches Some(t) ==> t < n && st[t as int] == TaskStatus::Ready),
{
    lemma_next_ready_in_table(st, n, cur);
    lemma_ready_from_steps(st, n, cur, 1);
    if n > 0 {
        assert forall|d2: nat| 1 <= d2 <= n implies 0 <= #[trigger] (((cur + d2) as int) % (
        n as int)) < n by {}
        if exists|t: int| 0 <= t < n && #[trigger] st[t] == TaskStatus::Ready {
            let t = choose|t: int| 0 <= t < n && #[trigger] st[t] == TaskStatus::Ready;
            let r = (cur as int) % (n as int);
            let d0 = (t + n - r) % (n as int);
            let d2: nat = if d0 == 0 {
                n
            } else {
                d0 as nat
            };
            vstd::arithmetic::div_mod::lemma_add_mod_noop(cur as int, d2 as int, n as int);
            vstd::arithmetic::div_mod::lemma_add_mod_noop(r, t + n - r, n as int);
            vstd::arithmetic::div_mod::lemma_mod_twice(cur as int, n as int);
            vstd::arithmetic::div_mod::lemma_mod_self_0(n as int);
            vstd::arithmetic::div_mod::lemma_add_mod_noop(t, n as int, n as int);
            vstd::arithmetic::div_mod::lemma_small_mod(t as nat, n);
            vstd::arithmetic::div_mod::lemma_small_mod(d0 as nat, n);
            assert((d2 as int) % (n as int) == d0);
            assert(((cur + d2) as int) % (n as int) == t);
            assert(1 <= d2 <= n);
        }
    }
}


/// A task that exits is never the one switched to, and stays exited: the next
/// ready task runs, or the machine shuts down.
pub proof fn lemma_exited_not_rescheduled(st: Seq<TaskStatus>, n: nat, cur: nat)
    requires
        cur < st.len(),
        n <= st.len(),
    ensures
        next_ready(st.update(cur as int, TaskStatus::Exited), n, cur) != Some(cur),
        after_switch(st, n, cur, TaskStatus::Exited)[cur as int] == TaskStatus::Exited,
{
    let marked = st.update(cur as int, TaskStatus::Exited);
    lemma_next_ready_in_table(marked, n, cur);
}

/// Exactly task `cur` of the table is running.
pub open spec fn one_running(st: Seq<TaskStatus>, cur: nat) -> bool {
    &&& cur < st.len()
    &&& st[cur as int] == TaskStatus::Running
    &&& forall|i: int| 0 <= i < st.len() && i != cur ==> #[trigger] st[i] != TaskStatus::Running
}

/// A switch away from the running task `cur`, marked `mark` (ready when it
/// yields, exited when it ends), that finds a task to run leaves exactly that
/// task running; it is the first ready task after `cur` round the table, and
/// every other task but `cur` keeps its status.
pub proof fn lemma_switch_keeps_one_running(st: Seq<TaskStatus>, n: nat, cur: nat, mark: TaskStatus)
    requires
        one_running(st, cur),
        n <= st.len(),
        mark == TaskStatus::Ready || mark == TaskStatus::Exited,
        switch_after(st, n, cur, mark) != TaskSwitch::Shutdown,
    ensures
        one_running(after_switch(st, n, cur, mark), switched_to(st, n, cur, mark)),
        next_ready(st.update(cur as int, mark), n, cur) == Some(switched_to(st, n, cur, mark)),
        switched_to(st, n, cur, mark) != cur ==> after_switch(st, n, cur, mark)[cur as int] == mark,
        forall|i: int|
            0 <= i < st.len() && i != cur && i != switched_to(st, n, cur, mark) ==> #[trigger] after_switch(
                st,
                n,
                cur,
                mark,
            )[i] == st[i],
{
    let marked = st.update(cur as int, mark);
    lemma_next_ready_in_table(marked, n, cur);
    let after = after_switch(st, n, cur, mark);
    let t = switched_to(st, n, cur, mark);
    assert forall|i: int| 0 <= i < after.len() && i != t implies #[trigger] after[i]
        != TaskStatus::Running by {
        if i != cur {
            assert(after[i] == st[i]);
        }
    }
}

/// A task that yields always finds a task to run, itself if no other is
/// ready, if it is in the table: so exactly one task stays running.
pub proof fn lemma_yield_keeps_one_running(st: Seq<TaskStatus>, n: nat, cur: nat)
    requires
        one_running(st, cur),
        cur < n <= st.len(),
    ensures
        switch_after(st, n, cur, TaskStatus::Ready) != TaskSwitch::Shutdown,
        one_running(
            after_switch(st, n, cur, TaskStatus::Ready),
            switched_to(st, n, cur, TaskStatus::Ready),
        ),
{
    let marked = st.update(cur as int, TaskStatus::Ready);
    lemma_next_ready_none_iff(marked, n, cur);
    assert(marked[cur as int] == TaskStatus::Ready);
    lemma_switch_keeps_one_running(st, n, cur, TaskStatus::Ready);
}

/// Starting the first task of a table where no task runs leaves exactly
/// task 0 running.
pub proof fn lemma_first_task_one_running(st: Seq<TaskStatus>)
    requires
        st.len() > 0,
        forall|i: int| 0 <= i < st.len() ==> #[trigger] st[i] != TaskStatus::Running,
    ensures
        one_running(st.update(0, TaskStatus::Running), 0),
{
    let after = st.update(0, TaskStatus::Running);
    assert forall|i: int| 0 <= i < after.len() && i != 0 implies #[trigger] after[i]
        != TaskStatus::Running by {
        assert(after[i] == st[i]);
    }
}

} // verus!
