//! Tasks and their round-robin scheduling: each application is a task with
//! a status, an address space and a saved context; the scheduler marks the
//! current task suspended or exited and picks the next ready task after it,
//! going round the tasks in order.
use vstd::prelude::*;
use crate::address::{PAGE_SIZE, PhysPageNum, VirtAddr, VirtPageNum, floor_of, ceil_of, offset_of};
use crate::phys_mem::{PhysMem, frames_ok, word_at, lemma_set_word, lemma_zero_page_words, zero_page};
use crate::frame_allocator::{StackFrameAllocator, handed_out};
use crate::page_table::{mapping, walk, l1_slots, l0_slots, plan_frames, frames_needed};
use crate::memory_set::{MapPermission, MapType, MemorySet, span, slots_distinct, lemma_wf_kept, lemma_permission_union};
use crate::elf::{ElfSegment, elf_image, elf_magic};
use crate::user_space::{
    UserLayout, elf_loads, built_upto, built_filled, stack_top, area_ranges, user_plans, lemma_built_kept,
    lemma_last_frame_written, area_holds, area_data,
};

verus! {

/// The state of a task.
#[derive(Clone, Copy, Debug, PartialEq, Eq, Structural)]
pub enum TaskStatus {
    UnInit,
    Ready,
    Running,
    Exited,
}

/// The registers a task switch saves: the return address and the
/// callee-saved registers s0..s11.
pub struct TaskContext {
    ra: usize,
    s: [usize; 12],
}

impl TaskContext {
    /// The saved return address.
    pub closed spec fn ret_addr(&self) -> usize {
        self.ra
    }

    /// The saved registers s0..s11.
    pub closed spec fn saved(&self) -> Seq<usize> {
        self.s@
    }

    /// A context whose switch returns to `restore` (the address of the code
    /// that restores a trap context) with all saved registers zero.
    pub fn goto_restore(restore: usize) -> (c: TaskContext)
        ensures
            c.ret_addr() == restore,
            c.saved() == Seq::new(12, |i: int| 0usize),
    {
        let c = TaskContext { ra: restore, s: [0usize; 12] };
        assert(c.saved() =~= Seq::new(12, |i: int| 0usize));
        c
    }

    /// A context whose switch returns to `trap_return` (the address of the
    /// function that returns to user mode) with all saved registers zero.
    pub fn goto_trap_return(trap_return: usize) -> (c: TaskContext)
        ensures
            c.ret_addr() == trap_return,
            c.saved() == Seq::new(12, |i: int| 0usize),
    {
        let c = TaskContext { ra: trap_return, s: [0usize; 12] };
        assert(c.saved() =~= Seq::new(12, |i: int| 0usize));
        c
    }

    /// The saved return address.
    pub fn ra(&self) -> (r: usize)
        ensures
            r == self.ret_addr(),
    {
        self.ra
    }

    /// The saved registers s0..s11.
    pub fn s(&self) -> (r: [usize; 12])
        ensures
            r@ == self.saved(),
    {
        self.s
    }
}

/// A task: where its task context lies on its kernel stack, its status, its
/// address space, the physical page of its trap context and the top of its
/// user stack.
pub struct TaskControlBlock {
    pub task_ctx_ptr: usize,
    pub task_status: TaskStatus,
    pub memory_set: MemorySet,
    pub trap_ctx_ppn: PhysPageNum,
    pub base_size: usize,
}

/// Whether a task can be made from the ELF file `data` with `free` frames at
/// hand when its kernel stack takes `kstack_frames` frames: its address
/// space can be built, and the frames left after building it cover the
/// kernel stack.
pub open spec fn task_loads(data: Seq<u8>, l: UserLayout, free: nat, kstack_frames: nat) -> bool {
    &&& elf_loads(data, l, free)
    &&& elf_image(data) matches Some((segs, e))
    &&& free - (1 + plan_frames(Set::empty(), Set::empty(), user_plans(segs, l))) >= kstack_frames
}

/// The frames mapping the kernel stack `bottom .. top` into the address
/// space with root `root` takes: a frame per page and the tables it lacks.
pub open spec fn kernel_stack_frames(mem: Map<usize, Seq<u8>>, root: usize, bottom: usize, top: usize) -> nat {
    frames_needed(l1_slots(mem, root), l0_slots(mem, root), floor_of(bottom) as int, span(floor_of(bottom), ceil_of(top)), 1)
}

/// The 13 words a task context occupies in memory: the return address,
/// then s0..s11.
pub open spec fn context_words(c: TaskContext) -> Seq<u64> {
    seq![c.ret_addr() as u64] + c.saved().map_values(|x: usize| x as u64)
}

/// Byte size of a task context in memory.
pub const TASK_CONTEXT_SIZE: usize = 104;

/// Writes the task context `ctx` at the top of the kernel stack that ends
/// at `top` (page-aligned), the last area of the kernel's address space: its
/// 13 words fill the last 104 bytes of the frame of the stack's top page.
fn write_task_context(kernel_space: &MemorySet, top: usize, ctx: &TaskContext, mem: &mut PhysMem,
    Ghost(alloc): Ghost<StackFrameAllocator>) -> (frame: usize)
    requires
        kernel_space.wf(old(mem)@, alloc),
        kernel_space.areas().len() > 0,
        kernel_space.areas().last().kind() == MapType::Framed,
        kernel_space.areas().last().in_range(top / 4096 - 1),
        kernel_space.areas().last().frames_map().contains_key((top / 4096 - 1) as usize),
        offset_of(top) == 0,
        top >= 4096,
    ensures
        frame == kernel_space.areas().last().frames_map()[(top / 4096 - 1) as usize],
        kernel_space.wf(final(mem)@, alloc),
        final(mem)@.dom() == old(mem)@.dom(),
        frames_ok(final(mem)@),
        forall|p: usize| p != frame ==> #[trigger] final(mem)@[p] == old(mem)@[p],
        forall|i: int| 0 <= i < 13 ==> #[trigger] word_at(final(mem)@[frame], 499 + i) == context_words(*ctx)[i],
        forall|j: int| 0 <= j < 499 ==> #[trigger] word_at(final(mem)@[frame], j) == word_at(old(mem)@[frame], j),
{
    let ghost mem0 = mem@;
    let ghost root = kernel_space.root();
    let vpn = VirtPageNum(top / PAGE_SIZE - 1);
    let ghost a = kernel_space.areas().last();
    proof {
        let i = kernel_space.areas().len() - 1;
        assert(kernel_space.areas()[i] == a);
        assert(mapping(mem0, root, vpn.0) == Some(a.entry(vpn.0)));
        assert(a.frames().contains(a.frames_map()[vpn.0]));
        assert(crate::memory_set::areas_frames(kernel_space.areas()).contains(a.frames_map()[vpn.0]));
        assert(mem0.contains_key(a.frames_map()[vpn.0]));
        crate::page_table::lemma_pte_fields(a.target(vpn.0), (a.perm() | 1) as u8);
    }
    let frame = kernel_space.translate(mem, vpn).unwrap().ppn().0;
    let ghost f0 = mem0[frame];
    let words = ctx.s();
    let ra = ctx.ra();
    mem.write_word(frame, 499, ra as u64);
    proof {
        lemma_set_word(f0, 499, ra as u64);
    }
    let mut i: usize = 0;
    while i < 12
        invariant
            i <= 12,
            words@ == ctx.saved(),
            ra == ctx.ret_addr(),
            mem@.dom() == mem0.dom(),
            frames_ok(mem@),
            mem0.contains_key(frame),
            mem@[frame].len() == 4096,
            forall|p: usize| p != frame ==> #[trigger] mem@[p] == mem0[p],
            forall|k: int| 0 <= k < i + 1 ==> #[trigger] word_at(mem@[frame], 499 + k) == context_words(*ctx)[k],
            forall|j: int| 0 <= j < 499 ==> #[trigger] word_at(mem@[frame], j) == word_at(f0, j),
        decreases 12 - i,
    {
        let ghost f1 = mem@[frame];
        mem.write_word(frame, 500 + i, words[i] as u64);
        proof {
            lemma_set_word(f1, 500 + i, words[i as int] as u64);
            assert(context_words(*ctx)[i + 1] == words@[i as int] as u64);
        }
        i = i + 1;
    }
    proof {
        let m = mem@;
        assert forall|p: usize| #[trigger] kernel_space.owned_all().contains(p) && mem0.contains_key(p) && p != frame
            implies m[p] == mem0[p] by {}
        assert(!kernel_space.pt().owned().contains(frame));
        crate::page_table::lemma_tree_frame(mem0, m, root, kernel_space.pt().owned());
        assert forall|k: int, v: usize| 0 <= k < kernel_space.areas().len() && kernel_space.areas()[k].in_range(v as int)
            implies #[trigger] mapping(m, root, v) == Some(#[trigger] kernel_space.areas()[k].entry(v)) by {
            assert(walk(m, root, v) == walk(mem0, root, v));
            assert(mapping(mem0, root, v) == Some(kernel_space.areas()[k].entry(v)));
        }
    }
    frame
}

/// The 37 words of an application's first trap context: registers x0..x31
/// (all zero but the stack pointer x2), `sstatus` with SPP cleared (the
/// trap returns to user mode), `sepc` (the entry point), the kernel's
/// `satp` value, the kernel stack pointer and the trap handler's address.
pub open spec fn trap_context_words(entry: usize, sp: usize, sstatus: usize, kernel_satp: u64, kernel_sp: usize,
    trap_handler: usize) -> Seq<u64> {
    Seq::new(37, |i: int|
        if i == 2 {
            sp as u64
        } else if i == 32 {
            (sstatus & !0x100usize) as u64
        } else if i == 33 {
            entry as u64
        } else if i == 34 {
            kernel_satp
        } else if i == 35 {
            kernel_sp as u64
        } else if i == 36 {
            trap_handler as u64
        } else {
            0u64
        })
}

/// Writes an application's first trap context (see `trap_context_words`)
/// into the zeroed frame `ppn`; the rest of the frame stays zero.
fn init_trap_context(mem: &mut PhysMem, ppn: usize, entry: usize, sp: usize, sstatus: usize, kernel_satp: u64,
    kernel_sp: usize, trap_handler: usize)
    requires
        old(mem)@.contains_key(ppn),
        frames_ok(old(mem)@),
        old(mem)@[ppn] == zero_page(),
    ensures
        final(mem)@ == old(mem)@.insert(ppn, final(mem)@[ppn]),
        final(mem)@[ppn].len() == 4096,
        frames_ok(final(mem)@),
        forall|i: int| 0 <= i < 512 ==> #[trigger] word_at(final(mem)@[ppn], i) == if i < 37 {
            trap_context_words(entry, sp, sstatus, kernel_satp, kernel_sp, trap_handler)[i]
        } else {
            0u64
        },
{
    let ghost f0 = mem@[ppn];
    mem.write_word(ppn, 2, sp as u64);
    let ghost f1 = mem@[ppn];
    mem.write_word(ppn, 32, (sstatus & !0x100) as u64);
    let ghost f2 = mem@[ppn];
    mem.write_word(ppn, 33, entry as u64);
    let ghost f3 = mem@[ppn];
    mem.write_word(ppn, 34, kernel_satp);
    let ghost f4 = mem@[ppn];
    mem.write_word(ppn, 35, kernel_sp as u64);
    let ghost f5 = mem@[ppn];
    mem.write_word(ppn, 36, trap_handler as u64);
    proof {
        lemma_zero_page_words();
        lemma_set_word(f0, 2, sp as u64);
        lemma_set_word(f1, 32, (sstatus & !0x100) as u64);
        lemma_set_word(f2, 33, entry as u64);
        lemma_set_word(f3, 34, kernel_satp);
        lemma_set_word(f4, 35, kernel_sp as u64);
        lemma_set_word(f5, 36, trap_handler as u64);
        let ws = trap_context_words(entry, sp, sstatus, kernel_satp, kernel_sp, trap_handler);
        assert forall|i: int| 0 <= i < 512 implies #[trigger] word_at(mem@[ppn], i) == if i < 37 { ws[i] } else { 0u64 } by {
            assert(word_at(f0, i) == 0);
        }
        assert(mem@ =~= old(mem)@.insert(ppn, mem@[ppn]));
    }
}

/// Adds the kernel stack `bottom .. top` to the kernel's address space,
/// framed and R|W, when the allocator holds the frames that takes (see
/// `kernel_stack_frames`); returns whether it did, changing nothing
/// otherwise.
fn insert_kernel_stack(kernel_space: &mut MemorySet, bottom: usize, top: usize, alloc: &mut StackFrameAllocator,
    mem: &mut PhysMem) -> (done: bool)
    requires
        old(kernel_space).wf(old(mem)@, *old(alloc)),
        offset_of(top) == 0,
        bottom < top,
        slots_distinct((floor_of(bottom), ceil_of(top))),
        forall|v: usize| floor_of(bottom) <= v < ceil_of(top) ==> #[trigger] mapping(old(mem)@, old(kernel_space).root(), v) is None,
    ensures
        done == (old(alloc).num_free() >= kernel_stack_frames(old(mem)@, old(kernel_space).root(), bottom, top)),
        !done ==> *final(kernel_space) == *old(kernel_space) && *final(alloc) == *old(alloc) && final(mem)@ == old(mem)@,
        final(kernel_space).wf(final(mem)@, *final(alloc)),
        done ==> {
            &&& final(kernel_space).root() == old(kernel_space).root()
            &&& final(kernel_space).areas().drop_last() == old(kernel_space).areas()
            &&& final(kernel_space).areas().len() == old(kernel_space).areas().len() + 1
            &&& final(kernel_space).areas().last().range().start.0 == floor_of(bottom)
            &&& final(kernel_space).areas().last().range().end.0 == ceil_of(top)
            &&& final(kernel_space).areas().last().kind() == MapType::Framed
            &&& final(kernel_space).areas().last().perm() == 6
            &&& forall|v: usize| #![trigger final(kernel_space).areas().last().frames_map()[v]]
                #![trigger final(kernel_space).areas().last().frames_map().contains_key(v)]
                floor_of(bottom) <= v < ceil_of(top) ==> {
                &&& final(kernel_space).areas().last().frames_map().contains_key(v)
                &&& old(alloc).free_set().contains(final(kernel_space).areas().last().frames_map()[v])
            }
            &&& handed_out(*old(alloc), *final(alloc), old(kernel_space).owned_all(), final(kernel_space).owned_all())
            &&& final(mem)@.dom() == old(mem)@.dom()
            &&& forall|p: usize| old(mem)@.contains_key(p) && !final(kernel_space).pt().owned().contains(p)
                && !old(alloc).free_set().contains(p) ==> #[trigger] final(mem)@[p] == old(mem)@[p]
        },
{
    let first = bottom / PAGE_SIZE;
    let pages = top / PAGE_SIZE - first;
    let free = alloc.free_count();
    proof {
        assert(first == floor_of(bottom));
        assert(pages == span(floor_of(bottom), ceil_of(top)));
    }
    if !kernel_space.frames_fit(mem, first, pages, free) {
        return false;
    }
    let pr = MapPermission::R();
    let pw = MapPermission::W();
    proof {
        lemma_permission_union(pr, pw);
        assert(2u8 | 4u8 == 6u8) by (bit_vector);
    }
    kernel_space.insert_framed_area(VirtAddr::from(bottom), VirtAddr::from(top), pr | pw, alloc, mem);
    true
}

impl TaskControlBlock {
    /// The task of the application in the ELF file `elf_data`: its address
    /// space is built (`MemorySet::from_elf`), the physical page of its trap
    /// context found, and its kernel stack `kernel_stack_bottom ..
    /// kernel_stack_top` added to the kernel's address space, framed and
    /// R|W. The task is ready, its user stack pointer is the top of its user
    /// stack. `None` when the address space cannot be built or the frames
    /// left do not cover the kernel stack; the kernel's address space is
    /// then unchanged.
    pub fn new(elf_data: &[u8], kernel_space: &mut MemorySet, layout: &UserLayout, kernel_stack_bottom: usize,
        kernel_stack_top: usize, trap_return: usize, trap_handler: usize, sstatus: usize, alloc: &mut StackFrameAllocator,
        mem: &mut PhysMem) -> (r: Option<TaskControlBlock>)
        requires
            elf_magic(elf_data@),
            old(kernel_space).wf(old(mem)@, *old(alloc)),
            offset_of(layout.trampoline) == 0,
            offset_of(layout.strampoline) == 0,
            offset_of(layout.trap_context) == 0,
            layout.trap_context < layout.trampoline,
            offset_of(kernel_stack_top) == 0,
            kernel_stack_bottom < kernel_stack_top,
            slots_distinct((floor_of(kernel_stack_bottom), ceil_of(kernel_stack_top))),
            forall|v: usize| floor_of(kernel_stack_bottom) <= v < ceil_of(kernel_stack_top)
                ==> #[trigger] mapping(old(mem)@, old(kernel_space).root(), v) is None,
        ensures
            r is Some <==> task_loads(elf_data@, *layout, old(alloc).num_free(),
                kernel_stack_frames(old(mem)@, old(kernel_space).root(), kernel_stack_bottom, kernel_stack_top)),
            r is None ==> *final(kernel_space) == *old(kernel_space),
            r is None && !elf_loads(elf_data@, *layout, old(alloc).num_free()) ==> *final(alloc) == *old(alloc)
                && final(mem)@ == old(mem)@,
            final(kernel_space).wf(final(mem)@, *final(alloc)),
            r matches Some(tcb) ==> elf_image(elf_data@) matches Some((segs, e)) && {
                &&& tcb.task_status == TaskStatus::Ready
                &&& tcb.base_size == stack_top(segs, *layout)
                &&& tcb.memory_set.wf(final(mem)@, *final(alloc))
                &&& built_filled(tcb.memory_set, final(mem)@, elf_data@, segs, *layout, segs.len() + 2int, segs.len() + 1int)
                &&& forall|i: int| 0 <= i < 512 ==> #[trigger] word_at(final(mem)@[tcb.trap_ctx_ppn.0], i) == if i < 37 {
                    trap_context_words(e as usize, stack_top(segs, *layout) as usize, sstatus,
                        (8u64 << 60u64) | (final(kernel_space).root() as u64), kernel_stack_top, trap_handler)[i]
                } else {
                    0u64
                }
                &&& tcb.trap_ctx_ppn.0 == tcb.memory_set.areas()[segs.len() + 1int].frames_map()[floor_of(layout.trap_context)]
                &&& final(kernel_space).areas() == old(kernel_space).areas().push(final(kernel_space).areas().last())
                &&& final(kernel_space).areas().last().range().start.0 == floor_of(kernel_stack_bottom)
                &&& final(kernel_space).areas().last().range().end.0 == ceil_of(kernel_stack_top)
                &&& final(kernel_space).areas().last().kind() == MapType::Framed
                &&& final(kernel_space).areas().last().perm() == 6
                &&& final(kernel_space).root() == old(kernel_space).root()
                &&& tcb.task_ctx_ptr == kernel_stack_top - TASK_CONTEXT_SIZE
                &&& ({
                    let f = final(kernel_space).areas().last().frames_map()[(kernel_stack_top / 4096 - 1) as usize];
                    &&& word_at(final(mem)@[f], 499) == trap_return as u64
                    &&& forall|i: int| 500 <= i < 512 ==> #[trigger] word_at(final(mem)@[f], i) == 0
                })
            },
    {
        let ghost mem0 = mem@;
        let ghost alloc0 = *alloc;
        let ghost ks0 = *kernel_space;
        let ghost kspan = span(floor_of(kernel_stack_bottom), ceil_of(kernel_stack_top));
        let (memory_set, user_sp, entry) = match MemorySet::from_elf(elf_data, layout, alloc, mem) {
            Some(x) => x,
            None => return None,
        };
        let ghost segs: Seq<ElfSegment> = match elf_image(elf_data@) {
            Some((sg, _)) => sg,
            None => Seq::empty(),
        };
        let ghost mem1 = mem@;
        let ghost alloc1 = *alloc;
        proof {
            lemma_wf_kept(ks0, mem0, mem1, alloc0, alloc1);
            let root = ks0.root();
            assert forall|p: usize| #[trigger] ks0.pt().owned().contains(p) && mem0.contains_key(p) implies mem1[p] == mem0[p] by {
                assert(ks0.owned_all().contains(p));
                assert(!alloc0.free_set().contains(p));
            }
            crate::page_table::lemma_tree_frame(mem0, mem1, root, ks0.pt().owned());
            assert(l1_slots(mem1, root) =~= l1_slots(mem0, root));
            assert(l0_slots(mem1, root) =~= l0_slots(mem0, root));
        }
        let tc_vpn = VirtPageNum::from_aligned(VirtAddr::from(layout.trap_context));
        proof {
            let k = segs.len() + 1int;
            let a = memory_set.areas()[k];
            assert(area_ranges(segs, *layout)[k] == (floor_of(layout.trap_context), ceil_of(layout.trampoline)));
            assert(a.in_range(tc_vpn.0 as int));
            assert(mapping(mem1, memory_set.root(), tc_vpn.0) == Some(a.entry(tc_vpn.0)));
            assert(a.frames_map().contains_key(tc_vpn.0));
            assert(a.frames().contains(a.frames_map()[tc_vpn.0]));
            assert(mem1.contains_key(a.target(tc_vpn.0)));
            crate::page_table::lemma_pte_fields(a.target(tc_vpn.0), (a.perm() | 1) as u8);
        }
        let trap_ctx_ppn = memory_set.translate(mem, tc_vpn).unwrap().ppn();
        if !insert_kernel_stack(kernel_space, kernel_stack_bottom, kernel_stack_top, alloc, mem) {
            return None;
        }
        proof {
            let ks = *kernel_space;
            assert forall|p: usize| #[trigger] memory_set.owned_all().contains(p) && mem1.contains_key(p)
                implies mem@[p] == mem1[p] by {
                assert(alloc0.free_set().contains(p) && !alloc1.free_set().contains(p));
                assert(!ks0.owned_all().contains(p));
                assert(!ks.owned_all().contains(p));
                assert(!ks.pt().owned().contains(p));
            }
            lemma_built_kept(memory_set, mem1, mem@, alloc1, elf_data@, segs, *layout, segs.len() + 2int);
            lemma_wf_kept(memory_set, mem1, mem@, alloc1, *alloc);
        }
        let ghost mem2 = mem@;
        let ctx = TaskContext::goto_trap_return(trap_return);
        let frame = write_task_context(kernel_space, kernel_stack_top, &ctx, mem, Ghost(*alloc));
        proof {
            let t = (kernel_stack_top / 4096 - 1) as usize;
            assert(kernel_space.areas().last().frames_map().contains_key(t));
            assert(alloc1.free_set().contains(frame));
            assert forall|p: usize| #[trigger] memory_set.owned_all().contains(p) && mem2.contains_key(p)
                implies mem@[p] == mem2[p] by {
                assert(p != frame);
            }
            lemma_built_kept(memory_set, mem2, mem@, *alloc, elf_data@, segs, *layout, segs.len() + 2int);
            lemma_wf_kept(memory_set, mem2, mem@, *alloc, *alloc);
            assert(context_words(ctx)[0] == trap_return as u64);
            assert forall|i: int| 500 <= i < 512 implies #[trigger] word_at(mem@[frame], i) == 0 by {
                assert(word_at(mem@[frame], 499 + (i - 499)) == context_words(ctx)[i - 499]);
                assert(context_words(ctx)[i - 499] == ctx.saved()[i - 500] as u64);
            }
        }
        let ghost mem3 = mem@;
        let kernel_satp = kernel_space.token();
        proof {
            let k = segs.len() + 1int;
            let a = memory_set.areas()[k];
            assert(a.in_range(tc_vpn.0 as int));
            assert(area_data(elf_data@, segs, k) is None);
            assert(area_holds(a, mem3, None));
            assert(mem3[trap_ctx_ppn.0] == zero_page());
            assert(a.frames().contains(trap_ctx_ppn.0));
            assert(crate::memory_set::areas_frames(memory_set.areas()).contains(trap_ctx_ppn.0));
            assert(memory_set.owned_all().contains(trap_ctx_ppn.0));
            assert(mem3.contains_key(trap_ctx_ppn.0));
        }
        init_trap_context(mem, trap_ctx_ppn.0, entry, user_sp, sstatus, kernel_satp, kernel_stack_top, trap_handler);
        proof {
            let ks = *kernel_space;
            let p = trap_ctx_ppn.0;
            lemma_last_frame_written(memory_set, mem3, mem@, *alloc, elf_data@, segs, *layout, segs.len() + 2int,
                tc_vpn.0, mem@[p]);
            assert(alloc0.free_set().contains(p) && !alloc1.free_set().contains(p));
            assert(!ks0.owned_all().contains(p));
            assert(!ks.owned_all().contains(p));
            assert forall|q: usize| #[trigger] ks.owned_all().contains(q) && mem3.contains_key(q) implies mem@[q] == mem3[q] by {
                assert(q != p);
            }
            assert(mem@.dom() =~= mem3.dom());
            lemma_wf_kept(ks, mem3, mem@, *alloc, *alloc);
            assert(frame != p);
        }
        let tcb = TaskControlBlock {
            task_ctx_ptr: kernel_stack_top - TASK_CONTEXT_SIZE,
            task_status: TaskStatus::Ready,
            memory_set,
            trap_ctx_ppn,
            base_size: user_sp,
        };
        proof {
            assert(kernel_space.areas() =~= ks0.areas().push(kernel_space.areas().last()));
            assert(tcb.memory_set.wf(mem@, *alloc));
            assert(tcb.trap_ctx_ppn.0 == tcb.memory_set.areas()[segs.len() + 1int].frames_map()[floor_of(layout.trap_context)]);
            assert(tcb.base_size == stack_top(segs, *layout));
            assert(kernel_space.root() == ks0.root());
            assert(word_at(mem@[frame], 499 + 0int) == context_words(ctx)[0]);
            assert(word_at(mem@[frame], 499) == trap_return as u64);
        }
        Some(tcb)
    }

    /// The `satp` value of the task's address space.
    pub fn get_user_token(&self) -> (t: u64)
        ensures
            t == (8u64 << 60u64) | (self.memory_set.root() as u64),
    {
        self.memory_set.token()
    }
}

/// A switch from the task context of task `from` to that of task `to`.
#[derive(Clone, Copy, Debug, PartialEq, Eq, Structural)]
pub struct TaskSwitch {
    pub from: usize,
    pub to: usize,
}

/// Position of task `id` in the round-robin order after task `cur` among
/// `n` tasks: 1 for the next one, `n` for `cur` itself.
pub open spec fn rr_dist(cur: int, id: int, n: int) -> int {
    if id > cur { id - cur } else { id + n - cur }
}

/// The task the scheduler picks after `cur`: the ready task nearest after it
/// in round-robin order, `cur` itself last; `None` when no task is ready.
pub open spec fn next_ready(st: Seq<TaskStatus>, cur: int) -> Option<int> {
    if exists|j: int| 0 <= j < st.len() && st[j] == TaskStatus::Ready {
        Some(choose|id: int| 0 <= id < st.len() && st[id] == TaskStatus::Ready
            && forall|j: int| 0 <= j < st.len() && st[j] == TaskStatus::Ready ==> rr_dist(cur, id, st.len() as int)
            <= #[trigger] rr_dist(cur, j, st.len() as int))
    } else {
        None
    }
}

/// Two task control blocks agree on everything but the status.
pub open spec fn same_but_status(a: TaskControlBlock, b: TaskControlBlock) -> bool {
    &&& a.task_ctx_ptr == b.task_ctx_ptr
    &&& a.memory_set == b.memory_set
    &&& a.trap_ctx_ppn == b.trap_ctx_ppn
    &&& a.base_size == b.base_size
}

/// At most one task runs, and it is the current one.
pub open spec fn one_running(st: Seq<TaskStatus>, cur: int) -> bool {
    forall|j: int| 0 <= j < st.len() && #[trigger] st[j] == TaskStatus::Running ==> j == cur
}

/// The tasks, the number of applications and which task is current.
pub struct TaskManager {
    num_app: usize,
    tasks: Vec<TaskControlBlock>,
    current_task: usize,
}

impl TaskManager {
    /// The status of each task.
    pub closed spec fn statuses(&self) -> Seq<TaskStatus> {
        self.tasks@.map_values(|t: TaskControlBlock| t.task_status)
    }

    /// The tasks.
    pub closed spec fn task_list(&self) -> Seq<TaskControlBlock> {
        self.tasks@
    }

    /// The current task.
    pub closed spec fn current(&self) -> int {
        self.current_task as int
    }

    /// The number of applications.
    pub closed spec fn app_count(&self) -> int {
        self.num_app as int
    }

    /// There is one task per application and the current one is among them.
    pub open spec fn wf(&self) -> bool {
        &&& self.statuses().len() == self.app_count()
        &&& self.task_list().len() == self.app_count()
        &&& 0 <= self.current()
        &&& (self.current() < self.app_count() || self.app_count() == 0 && self.current() == 0)
    }

    /// A manager of `tasks`, one per application, the first one current.
    pub fn new(tasks: Vec<TaskControlBlock>) -> (m: TaskManager)
        ensures
            m.wf(),
            m.app_count() == tasks@.len(),
            m.task_list() == tasks@,
            m.current() == 0,
    {
        let num_app = tasks.len();
        TaskManager { num_app, tasks, current_task: 0 }
    }

    /// The number of applications.
    pub fn num_app(&self) -> (n: usize)
        ensures
            n == self.app_count(),
    {
        self.num_app
    }

    /// The current task.
    pub fn current_task(&self) -> (c: usize)
        ensures
            c == self.current(),
    {
        self.current_task
    }

    /// The status of task `id`.
    pub fn status(&self, id: usize) -> (s: TaskStatus)
        requires
            self.wf(),
            id < self.app_count(),
        ensures
            s == self.statuses()[id as int],
    {
        self.tasks[id].task_status
    }

    /// Sets the status of task `id`.
    fn set_status(&mut self, id: usize, status: TaskStatus)
        requires
            old(self).wf(),
            id < old(self).app_count(),
        ensures
            final(self).wf(),
            final(self).statuses() == old(self).statuses().update(id as int, status),
            final(self).current() == old(self).current(),
            final(self).app_count() == old(self).app_count(),
            forall|j: int| 0 <= j < old(self).app_count() ==> same_but_status(#[trigger] final(self).task_list()[j],
                old(self).task_list()[j]),
    {
        self.tasks[id].task_status = status;
        assert(self.statuses() =~= old(self).statuses().update(id as int, status));
    }

    /// The task `id`.
    pub fn task(&self, id: usize) -> (t: &TaskControlBlock)
        requires
            self.wf(),
            id < self.app_count(),
        ensures
            *t == self.task_list()[id as int],
    {
        &self.tasks[id]
    }
}

impl TaskManager {
    /// The ready task nearest after the current one in round-robin order
    /// (the current one itself last), or `None` when no task is ready.
    pub fn find_next_task_id(&self) -> (r: Option<usize>)
        requires
            self.wf(),
        ensures
            match r {
                Some(id) => {
                    &&& id < self.app_count()
                    &&& self.statuses()[id as int] == TaskStatus::Ready
                    &&& forall|j: int| 0 <= j < self.app_count() && self.statuses()[j] == TaskStatus::Ready
                        ==> rr_dist(self.current(), id as int, self.app_count()) <= #[trigger] rr_dist(self.current(), j,
                        self.app_count())
                },
                None => forall|j: int| 0 <= j < self.app_count() ==> #[trigger] self.statuses()[j] != TaskStatus::Ready,
            },
            match r {
                Some(id) => next_ready(self.statuses(), self.current()) == Some(id as int),
                None => next_ready(self.statuses(), self.current()) is None,
            },
    {
        let n = self.num_app;
        let cur = self.current_task;
        let ghost st = self.statuses();
        let mut k: usize = 0;
        let mut id: usize = cur;
        while k < n
            invariant
                n == self.app_count(),
                cur == self.current(),
                st == self.statuses(),
                self.wf(),
                k <= n,
                id < n || n == 0,
                k == 0 ==> id == cur,
                k > 0 ==> rr_dist(cur as int, id as int, n as int) == k,
                forall|j: int| 0 <= j < n && rr_dist(cur as int, j, n as int) <= k ==> #[trigger] st[j] != TaskStatus::Ready,
            decreases n - k,
        {
            id = if id + 1 == n { 0 } else { id + 1 };
            k = k + 1;
            if self.tasks[id].task_status == TaskStatus::Ready {
                proof {
                    assert(st[id as int] == TaskStatus::Ready);
                    lemma_next_ready_is(st, cur as int, id as int);
                }
                return Some(id);
            }
            proof {
                assert(st[id as int] != TaskStatus::Ready);
            }
        }
        proof {
            assert forall|j: int| 0 <= j < n implies #[trigger] st[j] != TaskStatus::Ready by {
                assert(rr_dist(cur as int, j, n as int) <= n);
            }
        }
        None
    }
}

impl TaskManager {
    /// Marks the current task exited.
    pub fn mark_current_exited(&mut self)
        requires
            old(self).wf(),
            old(self).app_count() > 0,
        ensures
            final(self).wf(),
            final(self).statuses() == old(self).statuses().update(old(self).current(), TaskStatus::Exited),
            final(self).current() == old(self).current(),
            final(self).app_count() == old(self).app_count(),
            forall|j: int| 0 <= j < old(self).app_count() ==> same_but_status(#[trigger] final(self).task_list()[j],
                old(self).task_list()[j]),
    {
        let cur = self.current_task;
        self.set_status(cur, TaskStatus::Exited);
    }

    /// Marks the current task ready again.
    pub fn mark_current_suspended(&mut self)
        requires
            old(self).wf(),
            old(self).app_count() > 0,
        ensures
            final(self).wf(),
            final(self).statuses() == old(self).statuses().update(old(self).current(), TaskStatus::Ready),
            final(self).current() == old(self).current(),
            final(self).app_count() == old(self).app_count(),
            forall|j: int| 0 <= j < old(self).app_count() ==> same_but_status(#[trigger] final(self).task_list()[j],
                old(self).task_list()[j]),
    {
        let cur = self.current_task;
        self.set_status(cur, TaskStatus::Ready);
    }

    /// Picks the next ready task (see `find_next_task_id`), marks it running
    /// and makes it current; returns the switch from the task that was
    /// current to it. There must be a ready task: with none, all
    /// applications have completed and the kernel stops instead.
    pub fn run_next_task(&mut self) -> (r: TaskSwitch)
        requires
            old(self).wf(),
            next_ready(old(self).statuses(), old(self).current()) is Some,
        ensures
            final(self).wf(),
            final(self).app_count() == old(self).app_count(),
            forall|j: int| 0 <= j < old(self).app_count() ==> same_but_status(#[trigger] final(self).task_list()[j],
                old(self).task_list()[j]),
            ({
                let id = next_ready(old(self).statuses(), old(self).current())->0;
                &&& r == (TaskSwitch { from: old(self).current() as usize, to: id as usize })
                &&& final(self).statuses() == old(self).statuses().update(id, TaskStatus::Running)
                &&& final(self).current() == id
            }),
    {
        let next = self.find_next_task_id().unwrap();
        let from = self.current_task;
        self.set_status(next, TaskStatus::Running);
        self.current_task = next;
        TaskSwitch { from, to: next }
    }

    /// Marks the first task running; returns it, the task to switch to.
    pub fn run_first_task(&mut self) -> (first: usize)
        requires
            old(self).wf(),
            old(self).app_count() > 0,
        ensures
            first == 0,
            final(self).wf(),
            final(self).statuses() == old(self).statuses().update(0, TaskStatus::Running),
            final(self).current() == old(self).current(),
            final(self).app_count() == old(self).app_count(),
            forall|j: int| 0 <= j < old(self).app_count() ==> same_but_status(#[trigger] final(self).task_list()[j],
                old(self).task_list()[j]),
    {
        self.set_status(0, TaskStatus::Running);
        0
    }

    /// The `satp` value of the current task's address space.
    pub fn get_current_token(&self) -> (t: u64)
        requires
            self.wf(),
            self.app_count() > 0,
        ensures
            t == (8u64 << 60u64) | (self.task_list()[self.current()].memory_set.root() as u64),
    {
        self.tasks[self.current_task].get_user_token()
    }

    /// The physical page of the current task's trap context.
    pub fn get_current_ctx(&self) -> (p: PhysPageNum)
        requires
            self.wf(),
            self.app_count() > 0,
        ensures
            p == self.task_list()[self.current()].trap_ctx_ppn,
    {
        self.tasks[self.current_task].trap_ctx_ppn
    }
}

/// Marks task 0 running; returns it, the task to switch to first.
pub fn run_first_task(manager: &mut TaskManager) -> (first: usize)
    requires
        old(manager).wf(),
        old(manager).app_count() > 0,
    ensures
        final(manager).app_count() == old(manager).app_count(),
        forall|j: int| 0 <= j < old(manager).app_count() ==> same_but_status(#[trigger] final(manager).task_list()[j],
            old(manager).task_list()[j]),
        first == 0,
        final(manager).wf(),
        final(manager).statuses() == old(manager).statuses().update(0, TaskStatus::Running),
        final(manager).current() == old(manager).current(),
        old(manager).current() == 0 && one_running(old(manager).statuses(), 0)
            ==> one_running(final(manager).statuses(), final(manager).current()),
{
    manager.run_first_task()
}

/// Suspends the current task and switches to the next ready one, which may
/// be the same task: there always is one, the suspended task being ready.
/// If only the current task was running before, only the new current task
/// runs after; an exited task stays exited.
#[verifier::rlimit(40)]
pub fn suspend_current_and_run_next(manager: &mut TaskManager) -> (r: TaskSwitch)
    requires
        old(manager).wf(),
        old(manager).app_count() > 0,
    ensures
        final(manager).app_count() == old(manager).app_count(),
        forall|j: int| 0 <= j < old(manager).app_count() ==> same_but_status(#[trigger] final(manager).task_list()[j],
            old(manager).task_list()[j]),
        final(manager).wf(),
        ({
            let st1 = old(manager).statuses().update(old(manager).current(), TaskStatus::Ready);
            next_ready(st1, old(manager).current()) matches Some(id) && {
                &&& r == (TaskSwitch { from: old(manager).current() as usize, to: id as usize })
                &&& final(manager).statuses() == st1.update(id, TaskStatus::Running)
                &&& final(manager).current() == id
            }
        }),
        scheduler_step(old(manager).statuses(), old(manager).current(), final(manager).statuses(), final(manager).current()),
        one_running(old(manager).statuses(), old(manager).current())
            ==> one_running(final(manager).statuses(), final(manager).current()),
        forall|j: int| 0 <= j < old(manager).app_count() && j != old(manager).current()
            && #[trigger] old(manager).statuses()[j] == TaskStatus::Exited ==> final(manager).statuses()[j] == TaskStatus::Exited,
{
    manager.mark_current_suspended();
    let ghost st1 = manager.statuses();
    proof {
        assert(st1[manager.current()] == TaskStatus::Ready);
        lemma_next_ready_spec(st1, old(manager).current());
    }
    manager.run_next_task()
}

/// Exits the current task and switches to the next ready one; `None` when
/// none is left: all applications have completed. If only the current task
/// was running before, only the new current task runs after, and an exited
/// task stays exited.
#[verifier::rlimit(40)]
pub fn exit_current_and_run_next(manager: &mut TaskManager) -> (r: Option<TaskSwitch>)
    requires
        old(manager).wf(),
        old(manager).app_count() > 0,
    ensures
        final(manager).app_count() == old(manager).app_count(),
        forall|j: int| 0 <= j < old(manager).app_count() ==> same_but_status(#[trigger] final(manager).task_list()[j],
            old(manager).task_list()[j]),
        final(manager).wf(),
        ({
            let st1 = old(manager).statuses().update(old(manager).current(), TaskStatus::Exited);
            match next_ready(st1, old(manager).current()) {
                Some(id) => {
                    &&& r == Some(TaskSwitch { from: old(manager).current() as usize, to: id as usize })
                    &&& final(manager).statuses() == st1.update(id, TaskStatus::Running)
                    &&& final(manager).current() == id
                },
                None => r is None && final(manager).statuses() == st1 && final(manager).current() == old(manager).current(),
            }
        }),
        scheduler_step(old(manager).statuses(), old(manager).current(), final(manager).statuses(), final(manager).current()),
        one_running(old(manager).statuses(), old(manager).current())
            ==> one_running(final(manager).statuses(), final(manager).current()),
        forall|j: int| 0 <= j < old(manager).app_count() && #[trigger] old(manager).statuses()[j] == TaskStatus::Exited
            ==> final(manager).statuses()[j] == TaskStatus::Exited,
{
    manager.mark_current_exited();
    let ghost st1 = manager.statuses();
    proof {
        lemma_next_ready_spec(st1, old(manager).current());
    }
    match manager.find_next_task_id() {
        Some(_) => Some(manager.run_next_task()),
        None => None,
    }
}

/// The `satp` value of the current task's address space.
pub fn current_user_token(manager: &TaskManager) -> (t: u64)
    requires
        manager.wf(),
        manager.app_count() > 0,
    ensures
        t == (8u64 << 60u64) | (manager.task_list()[manager.current()].memory_set.root() as u64),
{
    manager.get_current_token()
}

/// The physical page of the current task's trap context.
pub fn current_trap_ctx(manager: &TaskManager) -> (p: PhysPageNum)
    requires
        manager.wf(),
        manager.app_count() > 0,
    ensures
        p == manager.task_list()[manager.current()].trap_ctx_ppn,
{
    manager.get_current_ctx()
}

/// The statuses and current task after one scheduling call from `st0` with
/// current task `cur0`: the current task is suspended (made ready) or exits,
/// then the next ready task runs and becomes current; when none is ready
/// after an exit, nothing runs.
pub open spec fn scheduler_step(st0: Seq<TaskStatus>, cur0: int, st1: Seq<TaskStatus>, cur1: int) -> bool {
    ||| {
        let s = st0.update(cur0, TaskStatus::Ready);
        next_ready(s, cur0) matches Some(id) && st1 == s.update(id, TaskStatus::Running) && cur1 == id
    }
    ||| {
        let s = st0.update(cur0, TaskStatus::Exited);
        match next_ready(s, cur0) {
            Some(id) => st1 == s.update(id, TaskStatus::Running) && cur1 == id,
            None => st1 == s && cur1 == cur0,
        }
    }
}

/// A task that has exited stays exited: over any run of scheduling calls,
/// each made while the current task runs, a task exited in one state is
/// exited in every later state, and the scheduler never picks it.
pub proof fn lemma_exited_stays_exited(sts: Seq<Seq<TaskStatus>>, curs: Seq<int>, k: int, m: int, j: int)
    requires
        sts.len() == curs.len(),
        0 <= k <= m < sts.len(),
        forall|i: int| 0 <= i < sts.len() ==> 0 <= #[trigger] curs[i] < sts[i].len(),
        forall|i: int| 0 <= i && i + 1 < sts.len() ==> #[trigger] sts[i][curs[i]] == TaskStatus::Running
            && scheduler_step(sts[i], curs[i], sts[i + 1], curs[i + 1]),
        0 <= j < sts[k].len(),
        sts[k][j] == TaskStatus::Exited,
    ensures
        j < sts[m].len(),
        sts[m][j] == TaskStatus::Exited,
        next_ready(sts[m], curs[m]) != Some(j),
    decreases m - k,
{
    if m > k {
        lemma_exited_stays_exited(sts, curs, k, m - 1, j);
        let i = m - 1;
        let st0 = sts[i];
        let cur0 = curs[i];
        assert(0 <= curs[i] < sts[i].len());
        assert(st0[cur0] == TaskStatus::Running && scheduler_step(st0, cur0, sts[m], curs[m]));
        assert(j != cur0);
        let s_ready = st0.update(cur0, TaskStatus::Ready);
        let s_exit = st0.update(cur0, TaskStatus::Exited);
        lemma_next_ready_spec(s_ready, cur0);
        lemma_next_ready_spec(s_exit, cur0);
        assert(s_ready[j] == TaskStatus::Exited);
        assert(s_exit[j] == TaskStatus::Exited);
    }
    assert(0 <= curs[m] < sts[m].len());
    lemma_next_ready_spec(sts[m], curs[m]);
}

/// What `next_ready` picks is a ready task, the nearest after `cur`; when
/// it picks none, no task is ready.
pub proof fn lemma_next_ready_spec(st: Seq<TaskStatus>, cur: int)
    requires
        0 <= cur < st.len(),
    ensures
        match next_ready(st, cur) {
            Some(id) => {
                &&& 0 <= id < st.len()
                &&& st[id] == TaskStatus::Ready
                &&& forall|j: int| 0 <= j < st.len() && st[j] == TaskStatus::Ready ==> rr_dist(cur, id, st.len() as int)
                    <= #[trigger] rr_dist(cur, j, st.len() as int)
            },
            None => forall|j: int| 0 <= j < st.len() ==> #[trigger] st[j] != TaskStatus::Ready,
        },
{
    let n = st.len() as int;
    if exists|j: int| 0 <= j < st.len() && st[j] == TaskStatus::Ready {
        let j0 = choose|j: int| 0 <= j < st.len() && st[j] == TaskStatus::Ready;
        // the ready task with the smallest distance exists
        let best = lemma_nearest_ready(st, cur, j0, n);
    }
}

/// Among the ready tasks there is one nearest after `cur`.
proof fn lemma_nearest_ready(st: Seq<TaskStatus>, cur: int, j0: int, bound: int) -> (best: int)
    requires
        0 <= cur < st.len(),
        0 <= j0 < st.len(),
        st[j0] == TaskStatus::Ready,
        rr_dist(cur, j0, st.len() as int) <= bound,
    ensures
        0 <= best < st.len(),
        st[best] == TaskStatus::Ready,
        forall|j: int| 0 <= j < st.len() && st[j] == TaskStatus::Ready ==> rr_dist(cur, best, st.len() as int)
            <= #[trigger] rr_dist(cur, j, st.len() as int),
    decreases bound,
{
    let n = st.len() as int;
    if exists|j: int| 0 <= j < n && st[j] == TaskStatus::Ready && rr_dist(cur, j, n) < rr_dist(cur, j0, n) {
        let j1 = choose|j: int| 0 <= j < n && st[j] == TaskStatus::Ready && rr_dist(cur, j, n) < rr_dist(cur, j0, n);
        lemma_nearest_ready(st, cur, j1, bound - 1)
    } else {
        j0
    }
}

/// A ready task nearer than every other ready one is the one picked.
proof fn lemma_next_ready_is(st: Seq<TaskStatus>, cur: int, id: int)
    requires
        0 <= cur < st.len(),
        0 <= id < st.len(),
        st[id] == TaskStatus::Ready,
        forall|j: int| 0 <= j < st.len() && st[j] == TaskStatus::Ready ==> rr_dist(cur, id, st.len() as int)
            <= #[trigger] rr_dist(cur, j, st.len() as int),
    ensures
        next_ready(st, cur) == Some(id),
{
    let n = st.len() as int;
    let c = choose|x: int| 0 <= x < st.len() && st[x] == TaskStatus::Ready
        && forall|j: int| 0 <= j < st.len() && st[j] == TaskStatus::Ready ==> rr_dist(cur, x, n)
        <= #[trigger] rr_dist(cur, j, n);
    assert(rr_dist(cur, c, n) <= rr_dist(cur, id, n));
    assert(rr_dist(cur, id, n) <= rr_dist(cur, c, n));
}

} // verus!
