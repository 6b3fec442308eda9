use rnix::loader::get_app_data;
use rnix::syscall::{SyscallRequest, SYSCALL_EXIT, SYSCALL_WRITE, SYSCALL_YIELD, syscall};
use rnix::timer::{get_time_ms, set_next_trigger};
use rnix::trap::{KillReason, TrapAction, TrapCause, trap_handler, trap_return};

#[test]
fn syscall_decoding() {
    assert_eq!(syscall(SYSCALL_WRITE, [1, 0x10000, 12]), SyscallRequest::Write { fd: 1, buf: 0x10000, len: 12 });
    assert_eq!(syscall(SYSCALL_EXIT, [7, 0, 0]), SyscallRequest::Exit { xstate: 7 });
    // the exit code is the low 32 bits of the argument
    assert_eq!(syscall(SYSCALL_EXIT, [usize::MAX, 0, 0]), SyscallRequest::Exit { xstate: -1 });
    assert_eq!(syscall(SYSCALL_YIELD, [1, 2, 3]), SyscallRequest::Yield);
    assert_eq!((SYSCALL_WRITE, SYSCALL_EXIT, SYSCALL_YIELD), (64, 93, 124));
}

#[test]
fn trap_causes() {
    assert_eq!(trap_handler(TrapCause::SupervisorTimer, 0x1000, 0, [0; 3]), TrapAction::Preempt);
    assert_eq!(trap_handler(TrapCause::UserEnvCall, 0x1000, 64, [1, 0x2000, 5]),
        TrapAction::Syscall { sepc: 0x1004, request: SyscallRequest::Write { fd: 1, buf: 0x2000, len: 5 } });
    assert_eq!(trap_handler(TrapCause::UserEnvCall, 0x1ffc, 124, [0; 3]),
        TrapAction::Syscall { sepc: 0x2000, request: SyscallRequest::Yield });
    assert_eq!(trap_handler(TrapCause::StoreFault, 0, 0, [0; 3]), TrapAction::Kill(KillReason::PageFault));
    assert_eq!(trap_handler(TrapCause::StorePageFault, 0, 0, [0; 3]), TrapAction::Kill(KillReason::PageFault));
    assert_eq!(trap_handler(TrapCause::IllegalInstruction, 0, 0, [0; 3]),
        TrapAction::Kill(KillReason::IllegalInstruction));
}

#[test]
fn trap_return_jumps_into_the_trampoline() {
    let r = trap_return(0x8020_3000, 0x8020_3090, usize::MAX - 4095, usize::MAX - 8191, (8u64 << 60) | 0x80400);
    assert_eq!(r.restore_va, usize::MAX - 4095 + 0x90);
    assert_eq!(r.trap_cx_ptr, usize::MAX - 8191);
    assert_eq!(r.user_satp, (8u64 << 60) | 0x80400);
}

#[test]
fn timer_values() {
    // a 12.5 MHz clock: a slice is 125000 ticks, a millisecond 12500
    assert_eq!(set_next_trigger(1000, 12_500_000), 126_000);
    assert_eq!(get_time_ms(25_000_000, 12_500_000), 2000);
    assert_eq!(get_time_ms(12_499, 12_500_000), 0);
}

#[test]
fn app_data_ranges() {
    let starts = vec![0x8040_0000, 0x8040_1000, 0x8040_3000];
    assert_eq!(get_app_data(&starts, 0), (0x8040_0000, 0x1000));
    assert_eq!(get_app_data(&starts, 1), (0x8040_1000, 0x2000));
}

#[test]
fn batch_moves_through_the_applications() {
    let mut m = rnix::batch::AppManager::new(2);
    assert_eq!(m.get_current_app(), 0);
    assert!(!m.move_to_next_app());
    assert!(!m.move_to_next_app());
    assert_eq!(m.get_current_app(), 2);
    // moving past the last one means all have completed
    assert!(m.move_to_next_app());
}
