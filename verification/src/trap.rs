//! Traps from user mode: what the kernel does for each cause, and where it
//! jumps to return to user mode through the trampoline.
use vstd::prelude::*;
use crate::syscall::{SyscallRequest, supported_syscall, syscall, decode_syscall};

verus! {

/// The causes of a trap the kernel handles; it handles no other.
#[derive(Clone, Copy, Debug, PartialEq, Eq, Structural)]
pub enum TrapCause {
    SupervisorTimer,
    UserEnvCall,
    StoreFault,
    StorePageFault,
    IllegalInstruction,
}

/// Why an application is killed.
#[derive(Clone, Copy, Debug, PartialEq, Eq, Structural)]
pub enum KillReason {
    PageFault,
    IllegalInstruction,
}

/// What the kernel does for a trap.
#[derive(Clone, Copy, Debug, PartialEq, Eq, Structural)]
pub enum TrapAction {
    /// The time slice is over: arm the next timer interrupt and switch to
    /// the next ready task.
    Preempt,
    /// Serve the system call `request`, resuming the application at `sepc`
    /// with the call's result in a0.
    Syscall { sepc: usize, request: SyscallRequest },
    /// End the application and switch to the next ready task.
    Kill(KillReason),
}

/// The kernel's handling of a trap with cause `cause`, taken at `sepc`, with
/// registers a7 (the system call number) and a0..a2 (its arguments): a timer
/// interrupt preempts, an environment call from user mode is served as a
/// system call and resumes after the `ecall` instruction, a store fault or
/// store page fault or an illegal instruction kills the application.
pub fn trap_handler(cause: TrapCause, sepc: usize, a7: usize, args: [usize; 3]) -> (action: TrapAction)
    requires
        cause == TrapCause::UserEnvCall ==> supported_syscall(a7) && sepc + 4 <= usize::MAX,
    ensures
        cause == TrapCause::SupervisorTimer ==> action == TrapAction::Preempt,
        cause == TrapCause::UserEnvCall ==> action == (TrapAction::Syscall {
            sepc: (sepc + 4) as usize,
            request: decode_syscall(a7, args@),
        }),
        cause == TrapCause::StoreFault || cause == TrapCause::StorePageFault ==> action == TrapAction::Kill(KillReason::PageFault),
        cause == TrapCause::IllegalInstruction ==> action == TrapAction::Kill(KillReason::IllegalInstruction),
{
    match cause {
        TrapCause::SupervisorTimer => TrapAction::Preempt,
        TrapCause::UserEnvCall => TrapAction::Syscall { sepc: sepc + 4, request: syscall(a7, args) },
        TrapCause::StoreFault | TrapCause::StorePageFault => TrapAction::Kill(KillReason::PageFault),
        TrapCause::IllegalInstruction => TrapAction::Kill(KillReason::IllegalInstruction),
    }
}

/// Where returning to user mode jumps and with what: the trampoline's copy
/// of the restore code, a0 the trap context's virtual address and a1 the
/// application's `satp` value.
#[derive(Clone, Copy, Debug, PartialEq, Eq, Structural)]
pub struct TrapReturn {
    pub restore_va: usize,
    pub trap_cx_ptr: usize,
    pub user_satp: u64,
}

/// The return to user mode: the restore code lies `restore - alltraps`
/// bytes into the trap code, which the trampoline page maps at
/// `trampoline`.
pub fn trap_return(alltraps: usize, restore: usize, trampoline: usize, trap_context: usize, user_satp: u64)
    -> (r: TrapReturn)
    requires
        alltraps <= restore,
        restore - alltraps + trampoline <= usize::MAX,
    ensures
        r.restore_va == restore - alltraps + trampoline,
        r.trap_cx_ptr == trap_context,
        r.user_satp == user_satp,
{
    TrapReturn { restore_va: restore - alltraps + trampoline, trap_cx_ptr: trap_context, user_satp }
}

} // verus!
