//! System calls: decoding a call's number and arguments into the request
//! the kernel serves, and the calls served by the scheduler alone.
use vstd::prelude::*;
use crate::task::{TaskManager, TaskSwitch, TaskStatus, next_ready, suspend_current_and_run_next,
    exit_current_and_run_next};

verus! {

/// Write bytes to a file descriptor.
pub const SYSCALL_WRITE: usize = 64;
/// End the calling application.
pub const SYSCALL_EXIT: usize = 93;
/// Give up the processor to the next ready application.
pub const SYSCALL_YIELD: usize = 124;

/// The system calls the kernel serves.
pub open spec fn supported_syscall(id: usize) -> bool {
    id == SYSCALL_WRITE || id == SYSCALL_EXIT || id == SYSCALL_YIELD
}

/// A decoded system call.
#[derive(Clone, Copy, Debug, PartialEq, Eq, Structural)]
pub enum SyscallRequest {
    /// Write `len` bytes from user address `buf` to file descriptor `fd`.
    Write { fd: usize, buf: usize, len: usize },
    /// End the application with exit code `xstate`.
    Exit { xstate: i32 },
    /// Yield the processor.
    Yield,
}

/// The request of a supported system call `id` with arguments `args`:
/// write takes the descriptor, the buffer's address and its length, exit the
/// exit code (the low 32 bits of the first argument), yield nothing.
pub open spec fn decode_syscall(id: usize, args: Seq<usize>) -> SyscallRequest {
    if id == SYSCALL_EXIT {
        SyscallRequest::Exit { xstate: args[0] as i32 }
    } else if id == SYSCALL_WRITE {
        SyscallRequest::Write { fd: args[0], buf: args[1], len: args[2] }
    } else {
        SyscallRequest::Yield
    }
}

/// Decodes system call `syscall_id` with arguments `args` (see
/// `decode_syscall`).
pub fn syscall(syscall_id: usize, args: [usize; 3]) -> (r: SyscallRequest)
    requires
        supported_syscall(syscall_id),
    ensures
        r == decode_syscall(syscall_id, args@),
{
    if syscall_id == SYSCALL_EXIT {
        SyscallRequest::Exit { xstate: args[0] as i32 }
    } else if syscall_id == SYSCALL_WRITE {
        SyscallRequest::Write { fd: args[0], buf: args[1], len: args[2] }
    } else {
        SyscallRequest::Yield
    }
}

/// Ends the current application: it is marked exited and the next ready
/// task is switched to; `None` when none is left.
pub fn sys_exit(manager: &mut TaskManager, xstate: i32) -> (r: Option<TaskSwitch>)
    requires
        old(manager).wf(),
        old(manager).app_count() > 0,
    ensures
        final(manager).wf(),
        ({
            let st1 = old(manager).statuses().update(old(manager).current(), TaskStatus::Exited);
            match next_ready(st1, old(manager).current()) {
                Some(id) => {
                    &&& r == Some(TaskSwitch { from: old(manager).current() as usize, to: id as usize })
                    &&& final(manager).statuses() == st1.update(id, TaskStatus::Running)
                    &&& final(manager).current() == id
                },
                None => r is None && final(manager).statuses() == st1,
            }
        }),
{
    exit_current_and_run_next(manager)
}

/// Yields: the current task is suspended and the next ready one, possibly
/// the same, is switched to; the call returns 0 once the task runs again.
pub fn sys_yield(manager: &mut TaskManager) -> (r: (isize, TaskSwitch))
    requires
        old(manager).wf(),
        old(manager).app_count() > 0,
    ensures
        r.0 == 0,
        final(manager).wf(),
        ({
            let st1 = old(manager).statuses().update(old(manager).current(), TaskStatus::Ready);
            next_ready(st1, old(manager).current()) matches Some(id) && {
                &&& r.1 == (TaskSwitch { from: old(manager).current() as usize, to: id as usize })
                &&& final(manager).statuses() == st1.update(id, TaskStatus::Running)
                &&& final(manager).current() == id
            }
        }),
{
    let switch = suspend_current_and_run_next(manager);
    (0, switch)
}

} // verus!
