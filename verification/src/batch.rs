//! The batch system's application manager: how many applications there are,
//! where their images lie, which one runs next, and what it reports.
use vstd::prelude::*;
use crate::config::{MAX_APP_NUM, APP_BASE_ADDRESS, APP_MAX_SIZE};
use crate::console::{
    Log, char_bytes, decimal, hex_digits, spec_reset, print, print_decimal, print_hex, begin_line,
    end_line,
};
use crate::loader::AppLoad;
use crate::trap::TrapContext;

verus! {

/// The size of the batch system's kernel stack.
pub const BATCH_KERNEL_STACK_SIZE: usize = 8192;
/// The size of the batch system's user stack.
pub const BATCH_USER_STACK_SIZE: usize = 8192;

/// The log line `[kernel] num of apps: n`.
pub open spec fn app_count_line(n: nat) -> Seq<u8> {
    char_bytes(Log::Info.spec_line_prefix()) + char_bytes("[kernel] num of apps: "@) + decimal(n)
        + seq![10u8] + char_bytes(spec_reset())
}

/// The log line `[kernel] app_i in address: [0x.., 0x..)`.
pub open spec fn app_range_line(i: nat, start: nat, end: nat) -> Seq<u8> {
    char_bytes(Log::Info.spec_line_prefix()) + char_bytes("[kernel] app_"@) + decimal(i)
        + char_bytes(" in address: ["@) + seq![48u8, 120u8] + hex_digits(start) + char_bytes(
        ","@,
    ) + seq![48u8, 120u8] + hex_digits(end) + char_bytes(")"@) + seq![10u8] + char_bytes(
        spec_reset(),
    )
}

/// The range lines of the first `k` applications.
pub open spec fn app_range_lines(starts: Seq<usize>, k: nat) -> Seq<u8>
    decreases k,
{
    if k == 0 {
        Seq::empty()
    } else {
        app_range_lines(starts, (k - 1) as nat) + app_range_line(
            (k - 1) as nat,
            starts[k - 1] as nat,
            starts[k as int] as nat,
        )
    }
}

/// The applications and the index of the next one to run.
pub struct AppManager {
    num_app: usize,
    current_app: usize,
    app_start: Vec<usize>,
}

impl AppManager {
    /// How many applications there are.
    pub closed spec fn app_count(&self) -> nat {
        self.num_app as nat
    }

    /// The index of the next application to run.
    pub closed spec fn current(&self) -> nat {
        self.current_app as nat
    }

    /// Where the images start; image `i` ends where image `i + 1` starts.
    pub closed spec fn starts(&self) -> Seq<usize> {
        self.app_start@
    }

    /// A table of `MAX_APP_NUM + 1` boundaries for at most `MAX_APP_NUM`
    /// applications.
    pub open spec fn wf(&self) -> bool {
        &&& self.starts().len() == MAX_APP_NUM + 1
        &&& self.app_count() <= MAX_APP_NUM
    }

    /// The manager of `num_app` applications whose image boundaries are `raw`
    /// (the linker's table); the first application runs first.
    pub fn new(num_app: usize, raw: &[usize]) -> (m: AppManager)
        requires
            num_app <= MAX_APP_NUM,
            raw@.len() == num_app + 1,
        ensures
            m.wf(),
            m.app_count() == num_app,
            m.current() == 0,
            m.starts() == raw@ + Seq::new((MAX_APP_NUM - num_app) as nat, |i: int| 0usize),
    {
        let mut app_start: Vec<usize> = Vec::new();
        let mut i: usize = 0;
        while i < MAX_APP_NUM + 1
            invariant
                i <= MAX_APP_NUM + 1,
                num_app <= MAX_APP_NUM,
                raw@.len() == num_app + 1,
                app_start@.len() == i,
                forall|k: int|
                    0 <= k < i ==> #[trigger] app_start@[k] == (if k <= num_app {
                        raw@[k]
                    } else {
                        0usize
                    }),
            decreases MAX_APP_NUM + 1 - i,
        {
            if i <= num_app {
                app_start.push(raw[i]);
            } else {
                app_start.push(0);
            }
            i = i + 1;
        }
        let m = AppManager { num_app, current_app: 0, app_start };
        assert(m.starts() =~= raw@ + Seq::new((MAX_APP_NUM - num_app) as nat, |i: int| 0usize));
        m
    }

    /// How many applications there are.
    pub fn num_app(&self) -> (n: usize)
        ensures
            n == self.app_count(),
    {
        self.num_app
    }

    /// The index of the next application to run.
    pub fn get_cur_app(&self) -> (c: usize)
        ensures
            c == self.current(),
    {
        self.current_app
    }

    /// Moves on to the next application.
    pub fn move_to_next_app(&mut self)
        requires
            old(self).current() + 1 <= usize::MAX,
        ensures
            final(self).current() == old(self).current() + 1,
            final(self).app_count() == old(self).app_count(),
            final(self).starts() == old(self).starts(),
    {
        self.current_app = self.current_app + 1;
    }

    /// What loading application `id` copies to the load address: its image.
    /// Only an application that has not run yet can be loaded; once every
    /// application has run there is nothing left to load.
    pub fn load_app(&self, id: usize) -> (r: AppLoad)
        requires
            self.wf(),
            id < self.app_count(),
            self.starts()[id as int] <= self.starts()[id + 1],
        ensures
            r == (AppLoad {
                src: self.starts()[id as int],
                len: (self.starts()[id + 1] - self.starts()[id as int]) as usize,
                dst: APP_BASE_ADDRESS,
            }),
    {
        AppLoad {
            src: self.app_start[id],
            len: self.app_start[id + 1] - self.app_start[id],
            dst: APP_BASE_ADDRESS,
        }
    }

    /// Picks the next application, which must exist: what to load for it,
    /// after which the one after it is next.
    pub fn run_next_app(&mut self) -> (r: AppLoad)
        requires
            old(self).wf(),
            old(self).current() < old(self).app_count(),
            old(self).starts()[old(self).current() as int] <= old(self).starts()[old(
                self,
            ).current() as int + 1],
        ensures
            final(self).wf(),
            final(self).app_count() == old(self).app_count(),
            final(self).starts() == old(self).starts(),
            final(self).current() == old(self).current() + 1,
            r == (AppLoad {
                src: old(self).starts()[old(self).current() as int],
                len: (old(self).starts()[old(self).current() as int + 1] - old(self).starts()[old(
                    self,
                ).current() as int]) as usize,
                dst: APP_BASE_ADDRESS,
            }),
    {
        let cur = self.get_cur_app();
        let r = self.load_app(cur);
        self.move_to_next_app();
        r
    }

    /// Appends the report of the applications: their number, then each one's
    /// image range.
    pub fn print_app_info(&self, out: &mut Vec<u8>)
        requires
            self.wf(),
        ensures
            final(out)@ == old(out)@ + app_count_line(self.app_count()) + app_range_lines(
                self.starts(),
                self.app_count(),
            ),
    {
        begin_line(out, Log::Info);
        print(out, "[kernel] num of apps: ");
        print_decimal(out, self.num_app);
        end_line(out);
        proof {
            assert(out@ =~= old(out)@ + app_count_line(self.app_count()));
        }
        let ghost base = out@;
        let mut i: usize = 0;
        while i < self.num_app
            invariant
                self.wf(),
                i <= self.num_app,
                out@ == base + app_range_lines(self.starts(), i as nat),
                base == old(out)@ + app_count_line(self.app_count()),
            decreases self.num_app - i,
        {
            let ghost before = out@;
            begin_line(out, Log::Info);
            print(out, "[kernel] app_");
            print_decimal(out, i);
            print(out, " in address: [");
            print_hex(out, self.app_start[i]);
            print(out, ",");
            print_hex(out, self.app_start[i + 1]);
            print(out, ")");
            end_line(out);
            proof {
                assert(out@ =~= before + app_range_line(
                    i as nat,
                    self.starts()[i as int] as nat,
                    self.starts()[i + 1] as nat,
                ));
            }
            i = i + 1;
        }
    }
}


/// Brings the application manager up: reports the applications it found.
pub fn app_manager_init(m: &AppManager, out: &mut Vec<u8>)
    requires
        m.wf(),
    ensures
        final(out)@ == old(out)@ + app_count_line(m.app_count()) + app_range_lines(
            m.starts(),
            m.app_count(),
        ),
{
    m.print_app_info(out)
}


/// The context the batch system enters an application with, and where it goes
/// on the kernel stack at `kstack_base`: the application starts at the load
/// address on the top of the user stack at `ustack_base`, with status
/// `sstatus`.
pub fn batch_app_cx(kstack_base: usize, ustack_base: usize, sstatus: usize) -> (r: (
    TrapContext,
    usize,
))
    requires
        kstack_base + BATCH_KERNEL_STACK_SIZE <= usize::MAX,
        ustack_base + BATCH_USER_STACK_SIZE <= usize::MAX,
        vstd::layout::size_of::<TrapContext>() <= kstack_base + BATCH_KERNEL_STACK_SIZE,
    ensures
        r.0.sepc == APP_BASE_ADDRESS,
        r.0.x@ == Seq::new(32, |i: int| 0usize).update(
            2,
            (ustack_base + BATCH_USER_STACK_SIZE) as usize,
        ),
        r.0.sstatus == sstatus,
        r.1 == kstack_base + BATCH_KERNEL_STACK_SIZE - vstd::layout::size_of::<TrapContext>(),
{
    let cx = TrapContext::app_init_context(
        APP_BASE_ADDRESS,
        ustack_base + BATCH_USER_STACK_SIZE,
        sstatus,
    );
    (cx, kstack_base + BATCH_KERNEL_STACK_SIZE - core::mem::size_of::<TrapContext>())
}

} // verus!
