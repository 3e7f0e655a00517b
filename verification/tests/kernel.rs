use os_core::batch::{app_manager_init, AppManager};
use os_core::buddy_allocator::Heap;
use os_core::console::{
    begin_line, end_line, print, print_decimal, print_hex, print_info, println_info, Log,
};
use os_core::loader::{get_base_i, init_app_cx, load_apps, AppLoad, KernelStack, UserStack};
use os_core::sync::UpSafeCell;
use os_core::syscall::{
    is_served, sys_exit, sys_get_time, sys_write, sys_yield, syscall, SyscallAction,
};
use os_core::task::{
    exit_cur_and_run_next, mark_cur_exited, mark_cur_suspended, run_first_task, run_next_task,
    suspend_cur_and_run_next, TaskContext, TaskManager, TaskStatus, TaskSwitch,
};
use os_core::timer::{
    clock_interrupt_deadline, first_timer_deadline, get_time_cmp_addr, get_time_ms,
    set_next_trigger,
};
use os_core::trap::{
    clear_software_pending, set_syscall_result, trap_handler, TrapAction, TrapCause, TrapContext,
};
use os_core::uart::{console_putchar, input_available, output_empty, shutdown_word, SerialPort, PASS};

fn text(out: &[u8]) -> String {
    String::from_utf8(out.to_vec()).unwrap()
}

#[test]
fn print_sends_low_bytes_of_chars() {
    let mut out = Vec::new();
    print(&mut out, "hi!");
    assert_eq!(out, b"hi!".to_vec());
    let mut out2 = Vec::new();
    print(&mut out2, "\u{e9}\u{20ac}");
    assert_eq!(out2, vec![0xe9u8, 0xac]);
}

#[test]
fn numbers_render_like_format() {
    for n in [0usize, 7, 10, 12345, usize::MAX] {
        let mut out = Vec::new();
        print_decimal(&mut out, n);
        assert_eq!(text(&out), format!("{}", n));
        let mut out = Vec::new();
        print_hex(&mut out, n);
        assert_eq!(text(&out), format!("{:#x}", n));
    }
}

#[test]
fn log_lines_carry_color_and_tag() {
    let mut out = Vec::new();
    println_info(&mut out, Log::Info, "hello");
    assert_eq!(text(&out), "\x1b[96m[Info] hello\n\x1b[0m");
    let mut out = Vec::new();
    println_info(&mut out, Log::Debug, "dbg");
    assert_eq!(text(&out), "\x1b[32mdbg\n\x1b[0m");
    let mut out = Vec::new();
    println_info(&mut out, Log::Panic, "p");
    assert_eq!(text(&out), "\x1b[95m[Panic] p\n\x1b[0m");
    let mut out = Vec::new();
    print_info(&mut out, Log::Error, "x");
    assert_eq!(text(&out), "\x1b[31mx\x1b[0m");
    let mut out = Vec::new();
    begin_line(&mut out, Log::Warning);
    end_line(&mut out);
    assert_eq!(text(&out), "\x1b[93m[Warning] \n\x1b[0m");
    assert_eq!(Log::Trace.color(), "\x1b[90m");
}

#[test]
fn uart_register_traffic() {
    let p = SerialPort::new(0x10000000);
    assert_eq!((p.rbr, p.ier, p.fcr, p.lcr, p.mcr, p.lsr, p.msr, p.scr),
        (0x10000000, 0x10000001, 0x10000002, 0x10000003, 0x10000004, 0x10000005, 0x10000006, 0x10000007));
    assert_eq!(p.init(), vec![
        (0x10000001, 0x00), (0x10000003, 0x80), (0x10000000, 0x03), (0x10000001, 0x00),
        (0x10000003, 0x03), (0x10000002, 0xc7), (0x10000004, 0x0b), (0x10000001, 0x01),
    ]);
    assert_eq!(p.putchar(b'a'), vec![(0x10000000, b'a')]);
    assert_eq!(p.putchar(0x7f), vec![(0x10000000, 0x08), (0x10000000, b' '), (0x10000000, 0x08)]);
    assert_eq!(console_putchar(&p, 0x08), vec![(0x10000000, 0x08), (0x10000000, b' '), (0x10000000, 0x08)]);
    assert!(output_empty(0x60));
    assert!(!output_empty(0x01));
    assert!(input_available(0x01));
    assert!(!input_available(0x60));
    assert_eq!(shutdown_word(PASS), 0x5555);
}

#[test]
fn timer_arithmetic() {
    assert_eq!(get_time_ms(12500), 1);
    assert_eq!(get_time_ms(25_000_000), 2000);
    assert_eq!(get_time_ms(12499), 0);
    assert_eq!(get_time_cmp_addr(1), 0x02004008);
    assert_eq!(set_next_trigger(1000), 126000);
    assert_eq!(clock_interrupt_deadline(5), 1_000_005);
    assert_eq!(clock_interrupt_deadline(u64::MAX), 999_999);
    assert_eq!(first_timer_deadline(0, 5), (0x02004000, 125_005));
}

#[test]
fn loader_places_apps_and_stacks() {
    assert_eq!(get_base_i(0), 0x80400000);
    assert_eq!(get_base_i(3), 0x80460000);
    let ks = KernelStack { base: 0x1000 };
    let us = UserStack { base: 0x9000 };
    assert_eq!(ks.get_sp(), 0x3000);
    assert_eq!(us.get_sp(), 0xa000);
    assert_eq!(ks.push_context(), 0x3000 - core::mem::size_of::<TrapContext>());
    let (cx, addr) = init_app_cx(2, &ks, &us, 0x20);
    assert_eq!(cx.sepc, 0x80440000);
    assert_eq!(cx.x[2], 0xa000);
    assert_eq!(cx.sstatus, 0x20);
    assert_eq!(addr, ks.push_context());
    let plan = load_apps(&[100, 150, 400], 2);
    assert_eq!(plan, vec![
        AppLoad { src: 100, len: 50, dst: 0x80400000 },
        AppLoad { src: 150, len: 250, dst: 0x80420000 },
    ]);
}

#[test]
fn batch_manager_reports_and_runs_apps_in_order() {
    let raw = [0x80200000usize, 0x80201000, 0x80203000];
    let mut m = AppManager::new(2, &raw);
    let mut out = Vec::new();
    m.print_app_info(&mut out);
    let expected = format!(
        "\x1b[96m[Info] [kernel] num of apps: {}\n\x1b[0m\x1b[96m[Info] [kernel] app_0 in address: [{:#x},{:#x})\n\x1b[0m\x1b[96m[Info] [kernel] app_1 in address: [{:#x},{:#x})\n\x1b[0m",
        2, raw[0], raw[1], raw[1], raw[2]
    );
    assert_eq!(text(&out), expected);
    let mut out2 = Vec::new();
    app_manager_init(&m, &mut out2);
    assert_eq!(out2, out);
    assert_eq!(m.get_cur_app(), 0);
    assert_eq!(m.load_app(1), AppLoad { src: 0x80201000, len: 0x2000, dst: 0x80400000 });
    assert_eq!(m.run_next_app(), AppLoad { src: 0x80200000, len: 0x1000, dst: 0x80400000 });
    assert_eq!(m.get_cur_app(), 1);
    assert_eq!(m.run_next_app(), AppLoad { src: 0x80201000, len: 0x2000, dst: 0x80400000 });
    assert_eq!(m.get_cur_app(), 2);
    assert_eq!(m.get_cur_app(), m.num_app());
}

fn manager(n: usize) -> TaskManager {
    TaskManager::new(n, 0xdead, &vec![0x100, 0x200, 0x300, 0x400])
}

#[test]
fn task_table_starts_ready() {
    let tm = manager(3);
    for i in 0..3 {
        assert_eq!(tm.status(i), TaskStatus::Ready);
    }
    for i in 3..16 {
        assert_eq!(tm.status(i), TaskStatus::UnInit);
    }
    assert_eq!(tm.context(1).sp, 0x200);
    assert_eq!(tm.context(1).ra, 0xdead);
    assert_eq!(tm.context(5).ra, 0);
    assert_eq!((tm.context(15).sp, tm.context(15).s), (0, [0; 12]));
    assert_eq!(tm.current_task(), 0);
    assert_eq!(tm.num_app(), 3);
    let z = TaskContext::zero_init();
    assert_eq!((z.ra, z.sp, z.s), (0, 0, [0; 12]));
}

#[test]
fn round_robin_until_all_exit() {
    let mut tm = manager(3);
    assert_eq!(run_first_task(&mut tm), TaskSwitch::Start { to: 0 });
    assert_eq!(tm.status(0), TaskStatus::Running);
    assert_eq!(suspend_cur_and_run_next(&mut tm), TaskSwitch::Switch { from: 0, to: 1 });
    assert_eq!(tm.status(0), TaskStatus::Ready);
    assert_eq!(tm.status(1), TaskStatus::Running);
    assert_eq!(exit_cur_and_run_next(&mut tm), TaskSwitch::Switch { from: 1, to: 2 });
    assert_eq!(tm.status(1), TaskStatus::Exited);
    assert_eq!(exit_cur_and_run_next(&mut tm), TaskSwitch::Switch { from: 2, to: 0 });
    assert_eq!(tm.current_task(), 0);
    assert_eq!(exit_cur_and_run_next(&mut tm), TaskSwitch::Shutdown);
    for i in 0..3 {
        assert_eq!(tm.status(i), TaskStatus::Exited);
    }
    assert_eq!(tm.find_next_task(), None);
}

#[test]
fn a_lone_yielding_task_runs_again() {
    let mut tm = manager(1);
    run_first_task(&mut tm);
    assert_eq!(suspend_cur_and_run_next(&mut tm), TaskSwitch::Switch { from: 0, to: 0 });
    assert_eq!(tm.status(0), TaskStatus::Running);
}

#[test]
fn no_apps_means_no_task_to_run() {
    let mut tm = manager(0);
    assert_eq!(tm.find_next_task(), None);
    assert_eq!(run_next_task(&mut tm), TaskSwitch::Shutdown);
}

#[test]
fn marks_touch_only_the_running_task() {
    let mut tm = manager(3);
    mark_cur_exited(&mut tm);
    assert_eq!(tm.status(0), TaskStatus::Exited);
    assert_eq!(tm.status(1), TaskStatus::Ready);
    mark_cur_suspended(&mut tm);
    assert_eq!(tm.status(0), TaskStatus::Ready);
    assert_eq!(tm.find_next_task(), Some(1));
}

#[test]
fn syscall_dispatch() {
    let mut tm = manager(2);
    run_first_task(&mut tm);
    assert_eq!(syscall(&mut tm, 64, [1, 0x1000, 5]), SyscallAction::Write { fd: 1, buf: 0x1000, len: 5 });
    assert_eq!(syscall(&mut tm, 169, [0, 0, 0]), SyscallAction::GetTime);
    assert!(!is_served(999));
    assert!(!is_served(63));
    assert!(is_served(64) && is_served(93) && is_served(124) && is_served(169));
    assert_eq!(
        syscall(&mut tm, 124, [0, 0, 0]),
        SyscallAction::Yield { switch: TaskSwitch::Switch { from: 0, to: 1 } }
    );
    assert_eq!(
        syscall(&mut tm, 93, [(-1i32) as usize, 0, 0]),
        SyscallAction::Exit { code: -1, switch: TaskSwitch::Switch { from: 1, to: 0 } }
    );
    assert_eq!(tm.status(1), TaskStatus::Exited);
}

#[test]
fn syscall_services() {
    let mut tm = manager(2);
    run_first_task(&mut tm);
    assert_eq!(sys_yield(&mut tm), (TaskSwitch::Switch { from: 0, to: 1 }, 0));
    assert_eq!(sys_exit(&mut tm, 3), TaskSwitch::Switch { from: 1, to: 0 });
    assert_eq!(sys_get_time(37_500), 3);
    assert_eq!(sys_write(1, b"hello"), 5);
    assert_eq!(sys_write(1, "h\u{e9}llo".as_bytes()), 6);
}

#[test]
fn trap_decisions() {
    let mut tc = TrapContext::app_init_context(0x80400000, 0x5000, 0x20);
    assert_eq!(tc.x[2], 0x5000);
    assert_eq!(tc.sepc, 0x80400000);
    tc.x[17] = 64;
    tc.x[10] = 1;
    tc.x[11] = 0x1234;
    tc.x[12] = 3;
    assert_eq!(
        trap_handler(&mut tc, TrapCause::UserEnvCall),
        TrapAction::Syscall { id: 64, a0: 1, a1: 0x1234, a2: 3 }
    );
    assert_eq!(tc.sepc, 0x80400004);
    assert_eq!(trap_handler(&mut tc, TrapCause::StoreFault), TrapAction::KillPageFault);
    assert_eq!(trap_handler(&mut tc, TrapCause::StorePageFault), TrapAction::KillPageFault);
    assert_eq!(trap_handler(&mut tc, TrapCause::IllegalInstruction), TrapAction::KillIllegalInstruction);
    assert_eq!(trap_handler(&mut tc, TrapCause::SupervisorTimer), TrapAction::Preempt);
    assert_eq!(trap_handler(&mut tc, TrapCause::SupervisorSoft), TrapAction::SoftwareTick);
    assert_eq!(tc.sepc, 0x80400004);
    set_syscall_result(&mut tc, -1);
    assert_eq!(tc.x[10], usize::MAX);
    assert_eq!(clear_software_pending(0x22), 0x20);
    assert_eq!(clear_software_pending(0x20), 0x22);
}

#[test]
fn up_safe_cell_hands_out_its_value() {
    let mut c = UpSafeCell::new(5u32);
    *c.exclusive_access() = 6;
    assert_eq!(*c.shared_access(), 6);
}

#[test]
fn heap_guards() {
    let mut h = Heap::new();
    assert!(!h.can_manage(0x2000, 0x1000));
    assert!(!h.can_manage(0, 0x100));
    assert!(h.can_manage(0, 1));
    assert!(h.can_manage(0x1000, 0x2000));
    assert_eq!(Heap::cut_total(0x1000, 0x4000), Some(0x3000));
    h.manage(0x1000, 0x2000);
    assert!(!h.can_manage(0x1800, 0x3000));
    assert!(h.can_manage(0x2000, 0x3000));
    let a = h.allocate(16, 8).unwrap();
    assert!(h.can_dealloc(a, 16, 8));
    assert!(!h.can_dealloc(0, 16, 8));
    assert!(!h.can_dealloc(a + 8, 16, 8));
    assert!(!h.can_dealloc(a + 16, 16, 8));
    h.dealloc(a, 16, 8);
    assert!(!h.can_dealloc(a, 16, 8));
}

fn running_tasks(tm: &TaskManager) -> Vec<usize> {
    (0..16).filter(|&i| tm.status(i) == TaskStatus::Running).collect()
}

#[test]
fn exactly_the_current_task_runs_after_each_switch() {
    let mut tm = manager(4);
    run_first_task(&mut tm);
    assert_eq!(running_tasks(&tm), vec![0]);
    suspend_cur_and_run_next(&mut tm);
    assert_eq!(running_tasks(&tm), vec![tm.current_task()]);
    assert_eq!(tm.current_task(), 1);
    exit_cur_and_run_next(&mut tm);
    assert_eq!(running_tasks(&tm), vec![2]);
    suspend_cur_and_run_next(&mut tm);
    assert_eq!(running_tasks(&tm), vec![3]);
    assert_eq!(tm.status(2), TaskStatus::Ready);
    assert_eq!(tm.status(1), TaskStatus::Exited);
    suspend_cur_and_run_next(&mut tm);
    assert_eq!(running_tasks(&tm), vec![0]);
}
