use rnix::address::{PhysPageNum, VirtPageNum};
use rnix::frame_allocator::StackFrameAllocator;
use rnix::memory_set::MemorySet;
use rnix::phys_mem::PhysMem;
use rnix::syscall::{sys_exit, sys_yield};
use rnix::task::{
    TaskContext, TaskControlBlock, TaskManager, TaskStatus, TaskSwitch, TASK_CONTEXT_SIZE, current_trap_ctx,
    current_user_token, exit_current_and_run_next, run_first_task, suspend_current_and_run_next,
};
use rnix::user_space::UserLayout;

const TRAMPOLINE: usize = usize::MAX - 4096 + 1;

fn tasks(n: usize, mem: &mut PhysMem, a: &mut StackFrameAllocator) -> Vec<TaskControlBlock> {
    let mut v = Vec::new();
    for i in 0..n {
        v.push(TaskControlBlock {
            task_ctx_ptr: 0,
            task_status: TaskStatus::Ready,
            memory_set: MemorySet::new_bare(a, mem),
            trap_ctx_ppn: PhysPageNum(0x500 + i),
            base_size: 0,
        });
    }
    v
}

fn manager(n: usize) -> TaskManager {
    let mut mem = PhysMem::new(0x100, 16);
    let mut a = StackFrameAllocator::new();
    a.init(PhysPageNum(0x100), PhysPageNum(0x110));
    TaskManager::new(tasks(n, &mut mem, &mut a))
}

fn statuses(m: &TaskManager) -> Vec<TaskStatus> {
    (0..m.num_app()).map(|i| m.status(i)).collect()
}

#[test]
fn task_contexts() {
    let c = TaskContext::goto_restore(0x8020_0abc);
    assert_eq!(c.ra(), 0x8020_0abc);
    assert_eq!(c.s(), [0; 12]);
    let d = TaskContext::goto_trap_return(0x8020_1000);
    assert_eq!(d.ra(), 0x8020_1000);
    assert_eq!(d.s(), [0; 12]);
}

#[test]
fn round_robin_order() {
    let mut m = manager(3);
    assert_eq!(run_first_task(&mut m), 0);
    assert_eq!(statuses(&m), vec![TaskStatus::Running, TaskStatus::Ready, TaskStatus::Ready]);
    assert_eq!(m.find_next_task_id(), Some(1));
    assert_eq!(suspend_current_and_run_next(&mut m), TaskSwitch { from: 0, to: 1 });
    assert_eq!(suspend_current_and_run_next(&mut m), TaskSwitch { from: 1, to: 2 });
    // wraps round to the first task
    assert_eq!(suspend_current_and_run_next(&mut m), TaskSwitch { from: 2, to: 0 });
    assert_eq!(m.current_task(), 0);
    assert_eq!(statuses(&m), vec![TaskStatus::Running, TaskStatus::Ready, TaskStatus::Ready]);
}

#[test]
fn exited_tasks_are_skipped_until_all_complete() {
    let mut m = manager(3);
    run_first_task(&mut m);
    assert_eq!(exit_current_and_run_next(&mut m), Some(TaskSwitch { from: 0, to: 1 }));
    assert_eq!(suspend_current_and_run_next(&mut m), TaskSwitch { from: 1, to: 2 });
    // task 0 exited: the next after 2 is 1
    assert_eq!(suspend_current_and_run_next(&mut m), TaskSwitch { from: 2, to: 1 });
    assert_eq!(exit_current_and_run_next(&mut m), Some(TaskSwitch { from: 1, to: 2 }));
    // only task 2 is left: yielding switches to itself
    assert_eq!(suspend_current_and_run_next(&mut m), TaskSwitch { from: 2, to: 2 });
    assert_eq!(exit_current_and_run_next(&mut m), None);
    assert_eq!(statuses(&m), vec![TaskStatus::Exited, TaskStatus::Exited, TaskStatus::Exited]);
}

#[test]
fn single_running_task_marking() {
    let mut m = manager(2);
    run_first_task(&mut m);
    m.mark_current_suspended();
    assert_eq!(statuses(&m), vec![TaskStatus::Ready, TaskStatus::Ready]);
    assert_eq!(m.run_next_task(), TaskSwitch { from: 0, to: 1 });
    m.mark_current_exited();
    assert_eq!(statuses(&m), vec![TaskStatus::Ready, TaskStatus::Exited]);
    assert_eq!(m.find_next_task_id(), Some(0));
}

#[test]
fn no_ready_task_means_completed() {
    let mut m = manager(1);
    run_first_task(&mut m);
    m.mark_current_exited();
    assert_eq!(m.find_next_task_id(), None);
    let empty = TaskManager::new(Vec::new());
    assert_eq!(empty.find_next_task_id(), None);
}

#[test]
fn current_token_and_trap_context() {
    let mut m = manager(2);
    run_first_task(&mut m);
    assert_eq!(current_user_token(&m), (8u64 << 60) | 0x100);
    assert_eq!(current_trap_ctx(&m), PhysPageNum(0x500));
    suspend_current_and_run_next(&mut m);
    assert_eq!(current_user_token(&m), (8u64 << 60) | 0x101);
    assert_eq!(m.get_current_ctx(), PhysPageNum(0x501));
    assert_eq!(m.task(1).get_user_token(), m.get_current_token());
}

#[test]
fn yield_and_exit_calls() {
    let mut m = manager(2);
    run_first_task(&mut m);
    assert_eq!(sys_yield(&mut m), (0, TaskSwitch { from: 0, to: 1 }));
    assert_eq!(sys_exit(&mut m, 3), Some(TaskSwitch { from: 1, to: 0 }));
    assert_eq!(sys_exit(&mut m, 0), None);
}

fn one_page_elf(fill: u8) -> Vec<u8> {
    let mut v = vec![0u8; 64];
    v[0..4].copy_from_slice(&[0x7f, b'E', b'L', b'F']);
    v[4] = 2;
    v[5] = 1;
    v[24..32].copy_from_slice(&0x10000u64.to_le_bytes());
    v[32..40].copy_from_slice(&64u64.to_le_bytes());
    v[54..56].copy_from_slice(&56u16.to_le_bytes());
    v[56..58].copy_from_slice(&1u16.to_le_bytes());
    for x in [1u32, 5u32] {
        v.extend_from_slice(&x.to_le_bytes());
    }
    for x in [4096u64, 0x10000, 0x10000, 4096, 4096, 4096] {
        v.extend_from_slice(&x.to_le_bytes());
    }
    v.resize(4096, 0);
    v.resize(8192, fill);
    v
}

#[test]
fn task_takes_exactly_the_frames_it_needs() {
    // 9 frames for the address space, then the kernel stack's two frames
    // and its two tables in the kernel's space
    let layout = UserLayout { trampoline: TRAMPOLINE, strampoline: 0x101000, trap_context: TRAMPOLINE - 4096, user_stack_size: 8192 };
    let elf = one_page_elf(0x33);
    let top = 0x4000_0000;
    for (frames, loads) in [(14usize, true), (13usize, false)] {
        let mut mem = PhysMem::new(0x100, 64);
        let mut a = StackFrameAllocator::new();
        a.init(PhysPageNum(0x100), PhysPageNum(0x100 + frames));
        let mut ks = MemorySet::new_bare(&mut a, &mut mem);
        let tcb = TaskControlBlock::new(&elf, &mut ks, &layout, top - 0x2000, top, 0, 0, 0, &mut a, &mut mem);
        assert_eq!(tcb.is_some(), loads);
        if loads {
            assert_eq!(a.free_count(), 0);
        }
    }
}

#[test]
fn task_from_elf_with_kernel_stack() {
    let mut mem = PhysMem::new(0x100, 64);
    let mut a = StackFrameAllocator::new();
    a.init(PhysPageNum(0x100), PhysPageNum(0x140));
    let mut ks = MemorySet::new_bare(&mut a, &mut mem);
    let layout = UserLayout { trampoline: TRAMPOLINE, strampoline: 0x101000, trap_context: TRAMPOLINE - 4096, user_stack_size: 8192 };
    let elf = one_page_elf(0x33);
    let top = 0x4000_0000;
    let tcb = TaskControlBlock::new(&elf, &mut ks, &layout, top - 0x2000, top, 0x8020_1234, 0x8020_2000, 0x1_0000_0122,
        &mut a, &mut mem).unwrap();
    assert_eq!(tcb.task_status, TaskStatus::Ready);
    assert_eq!(tcb.base_size, 0x11000 + 4096 + 8192);
    assert_eq!(tcb.task_ctx_ptr, top - TASK_CONTEXT_SIZE);
    // the trap context page is the frame the task's space maps it to
    let tc = tcb.memory_set.translate(&mem, VirtPageNum((TRAMPOLINE - 4096) / 4096)).unwrap();
    assert_eq!(tc.ppn(), tcb.trap_ctx_ppn);
    // the kernel stack is mapped R|W in the kernel's space, its context at the top
    let top_page = ks.translate(&mem, VirtPageNum(top / 4096 - 1)).unwrap();
    assert!(top_page.is_valid() && top_page.readable() && top_page.writable());
    assert_eq!(mem.read_word(top_page.ppn().0, 499), 0x8020_1234);
    assert_eq!(mem.read_word(top_page.ppn().0, 511), 0);
    // the trap context: sp, sstatus with SPP cleared, entry, kernel satp, kernel sp, handler
    let t = tcb.trap_ctx_ppn.0;
    assert_eq!(mem.read_word(t, 2), (0x11000 + 4096 + 8192) as u64);
    assert_eq!(mem.read_word(t, 32), 0x1_0000_0022);
    assert_eq!(mem.read_word(t, 33), 0x10000);
    assert_eq!(mem.read_word(t, 34), ks.token());
    assert_eq!(mem.read_word(t, 35), top as u64);
    assert_eq!(mem.read_word(t, 36), 0x8020_2000);
    assert_eq!(mem.read_word(t, 10), 0);
    // code still reads the file's bytes
    let code = tcb.memory_set.translate(&mem, VirtPageNum(0x10)).unwrap();
    assert_eq!(mem.read_word(code.ppn().0, 0), 0x3333_3333_3333_3333);
    // a file that cannot be loaded leaves the kernel's space as it was
    let mut bad = one_page_elf(0);
    bad[73] = 0x1f; // the segment's file bytes would end past the file
    assert!(TaskControlBlock::new(&bad, &mut ks, &layout, top + 0x1000, top + 0x3000, 0, 0, 0, &mut a, &mut mem).is_none());
    assert!(ks.translate(&mem, VirtPageNum(top / 4096 + 1)).is_none());
}
