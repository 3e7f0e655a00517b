use os_core::syscall::{syscall, SyscallAction};
use os_core::task::{run_first_task, TaskManager, TaskSwitch};
use os_core::user::{exit, read, SyscallRequest};

#[test]
fn user_calls_pick_their_numbers() {
    assert_eq!(read(0, 0x1000, 4), SyscallRequest { id: 63, a0: 0, a1: 0x1000, a2: 4 });
    assert_eq!(os_core::user::write(1, 0x2000, 5), SyscallRequest { id: 64, a0: 1, a1: 0x2000, a2: 5 });
    assert_eq!(exit(3), SyscallRequest { id: 93, a0: 3, a1: 0, a2: 0 });
    assert_eq!(exit(-1), SyscallRequest { id: 93, a0: usize::MAX, a1: 0, a2: 0 });
}

#[test]
fn the_kernel_reads_back_the_exit_code() {
    let mut tm = TaskManager::new(2, 0, &vec![0x100, 0x200]);
    run_first_task(&mut tm);
    let req = exit(-7);
    assert_eq!(
        syscall(&mut tm, req.id, [req.a0, req.a1, req.a2]),
        SyscallAction::Exit { code: -7, switch: TaskSwitch::Switch { from: 0, to: 1 } }
    );
}
