//! The stack frame allocator: hands out physical page frames from a range,
//! reusing returned frames first (last returned, first reused).
use vstd::prelude::*;
use crate::address::{PhysAddr, PhysPageNum, ceil_of, floor_of};
use crate::phys_mem::{PhysMem, frames_ok, zero_page};

verus! {

/// Allocator state: frames `current .. end` were never handed out; `recycled`
/// holds returned frames, the last one is reused first.
pub struct StackFrameAllocator {
    current: usize,
    end: usize,
    recycled: Vec<usize>,
}

impl StackFrameAllocator {
    /// First frame of the range that was never handed out.
    pub closed spec fn current(&self) -> usize {
        self.current
    }

    /// End of the range of frames.
    pub closed spec fn end(&self) -> usize {
        self.end
    }

    /// Returned frames, in the order they were returned.
    pub closed spec fn recycled(&self) -> Seq<usize> {
        self.recycled@
    }

    /// The frames the allocator may still hand out.
    pub open spec fn free_set(&self) -> Set<usize> {
        Set::new(|p: usize| self.recycled().contains(p) || self.current() <= p < self.end())
    }

    /// Number of successful allocations the allocator can still make.
    pub open spec fn num_free(&self) -> nat {
        self.recycled().len() + if self.current() <= self.end() {
            (self.end() - self.current()) as nat
        } else {
            0nat
        }
    }

    /// The allocator never hands out a frame twice: the untouched range is
    /// not reversed, returned frames are distinct and all lie below the
    /// untouched range.
    pub open spec fn sound(&self) -> bool {
        &&& self.current() <= self.end()
        &&& self.recycled().no_duplicates()
        &&& forall|i: int| 0 <= i < self.recycled().len() ==> #[trigger] self.recycled()[i] < self.current()
    }

    /// `allocate` does not overflow on this state.
    pub open spec fn alloc_ok(&self) -> bool {
        self.recycled().len() == 0 && self.current() != self.end() ==> self.current() < usize::MAX
    }

    /// The frame `allocate` hands out in this state.
    pub open spec fn alloc_result(&self) -> Option<usize> {
        if self.recycled().len() > 0 {
            Some(self.recycled().last())
        } else if self.current() == self.end() {
            None
        } else {
            Some(self.current())
        }
    }

    /// `p` is a valid frame to give back: one the allocator handed out (it
    /// lies below the untouched range) that was not given back since.
    pub open spec fn dealloc_ok(&self, p: usize) -> bool {
        p < self.current() && !self.recycled().contains(p)
    }

    /// `b` is `a` after handing out frame `p`: the last returned frame if
    /// there is one, else the next frame of the range.
    pub open spec fn took_frame(a: StackFrameAllocator, b: StackFrameAllocator, p: usize) -> bool {
        &&& a.alloc_result() == Some(p)
        &&& b.end() == a.end()
        &&& if a.recycled().len() > 0 {
            b.recycled() == a.recycled().drop_last() && b.current() == a.current()
        } else {
            b.recycled() == a.recycled() && b.current() == a.current() + 1
        }
    }

    /// An allocator with an empty range and no returned frames.
    pub fn new() -> (a: Self)
        ensures
            a.current() == 0,
            a.end() == 0,
            a.recycled() == Seq::<usize>::empty(),
    {
        StackFrameAllocator { current: 0, end: 0, recycled: Vec::new() }
    }

    /// Number of frames the allocator may still hand out.
    pub fn free_count(&self) -> (r: usize)
        requires
            self.sound(),
        ensures
            r == self.num_free(),
    {
        proof {
            lemma_distinct_below(self.recycled@, self.current as nat);
        }
        self.recycled.len() + (self.end - self.current)
    }

    /// Sets the range of never-used frames to `start .. end`; returned frames
    /// are kept.
    pub fn init(&mut self, start: PhysPageNum, end: PhysPageNum)
        ensures
            final(self).current() == start.0,
            final(self).end() == end.0,
            final(self).recycled() == old(self).recycled(),
    {
        self.current = start.0;
        self.end = end.0;
    }

    /// Hands out a frame: the last returned one if any, else the next frame
    /// of the range, else nothing.
    pub fn allocate(&mut self) -> (r: Option<PhysPageNum>)
        requires
            old(self).alloc_ok(),
        ensures
            r == (match old(self).alloc_result() {
                Some(p) => Some(PhysPageNum(p)),
                None => None::<PhysPageNum>,
            }),
            old(self).recycled().len() > 0 ==> {
                &&& final(self).recycled() == old(self).recycled().drop_last()
                &&& final(self).current() == old(self).current()
            },
            old(self).recycled().len() == 0 && old(self).current() == old(self).end() ==> {
                &&& final(self).recycled() == old(self).recycled()
                &&& final(self).current() == old(self).current()
            },
            old(self).recycled().len() == 0 && old(self).current() != old(self).end() ==> {
                &&& final(self).recycled() == old(self).recycled()
                &&& final(self).current() == old(self).current() + 1
            },
            final(self).end() == old(self).end(),
            old(self).sound() ==> {
                &&& r is None <==> old(self).num_free() == 0
                &&& final(self).sound()
                &&& r matches Some(p) ==> {
                    &&& old(self).free_set().contains(p.0)
                    &&& final(self).free_set() == old(self).free_set().remove(p.0)
                    &&& final(self).num_free() + 1 == old(self).num_free()
                }
            },
    {
        proof {
            if old(self).sound() && old(self).recycled().len() > 0 {
                lemma_pop_free_set(*old(self));
            }
        }
        match self.recycled.pop() {
            Some(ppn) => Some(PhysPageNum(ppn)),
            None => {
                if self.current == self.end {
                    None
                } else {
                    self.current = self.current + 1;
                    Some(PhysPageNum(self.current - 1))
                }
            },
        }
    }

    /// Takes back frame `ppn`, which must be valid: handed out and not given
    /// back since.
    pub fn dealloc(&mut self, ppn: PhysPageNum)
        requires
            old(self).dealloc_ok(ppn.0),
        ensures
            final(self).recycled() == old(self).recycled().push(ppn.0),
            final(self).current() == old(self).current(),
            final(self).end() == old(self).end(),
            old(self).sound() ==> {
                &&& final(self).sound()
                &&& final(self).free_set() == old(self).free_set().insert(ppn.0)
                &&& final(self).num_free() == old(self).num_free() + 1
            },
    {
        self.recycled.push(ppn.0);
        proof {
            let r0 = old(self).recycled();
            let r1 = self.recycled();
            assert forall|q: usize| r1.contains(q) <==> (r0.contains(q) || q == ppn.0) by {
                if r1.contains(q) {
                    let i = choose|i: int| 0 <= i < r1.len() && r1[i] == q;
                    if i < r0.len() {
                        assert(r0[i] == q);
                    }
                }
                if r0.contains(q) {
                    let i = choose|i: int| 0 <= i < r0.len() && r0[i] == q;
                    assert(r1[i] == q);
                }
                if q == ppn.0 {
                    assert(r1[r0.len() as int] == q);
                }
            }
            assert(self.free_set() =~= old(self).free_set().insert(ppn.0));
        }
    }
}

/// Handing out a frame from a sound allocator takes one of its free frames
/// away and leaves it sound.
pub proof fn lemma_took_frame(a: StackFrameAllocator, b: StackFrameAllocator, p: usize)
    requires
        a.sound(),
        StackFrameAllocator::took_frame(a, b, p),
    ensures
        b.sound(),
        a.free_set().contains(p),
        !b.free_set().contains(p),
        b.free_set() == a.free_set().remove(p),
        b.num_free() + 1 == a.num_free(),
{
    if a.recycled().len() > 0 {
        lemma_pop_free_set(a);
        assert(b.free_set() =~= a.free_set().remove(p));
    } else {
        assert(b.free_set() =~= a.free_set().remove(p));
    }
}

/// A sound allocator never overflows; it hands out a frame exactly when it
/// has a free one, and the frame it hands out is free.
pub proof fn lemma_alloc_result_free(a: StackFrameAllocator)
    requires
        a.sound(),
    ensures
        a.alloc_ok(),
        a.alloc_result() is Some <==> a.num_free() > 0,
        a.alloc_result() matches Some(p) ==> a.free_set().contains(p),
{
    if a.recycled().len() > 0 {
        assert(a.recycled().contains(a.recycled().last())) by {
            assert(a.recycled()[a.recycled().len() - 1] == a.recycled().last());
        }
    }
}

proof fn lemma_pop_free_set(a: StackFrameAllocator)
    requires
        a.sound(),
        a.recycled().len() > 0,
    ensures
        a.free_set().contains(a.recycled().last()),
        a.recycled().drop_last().no_duplicates(),
        !a.recycled().drop_last().contains(a.recycled().last()),
        Set::new(|p: usize| a.recycled().drop_last().contains(p) || a.current() <= p < a.end())
            == a.free_set().remove(a.recycled().last()),
{
    let r = a.recycled();
    let d = r.drop_last();
    let x = r.last();
    assert(r.contains(x)) by {
        assert(r[r.len() - 1] == x);
    }
    assert forall|i: int, j: int| 0 <= i < d.len() && 0 <= j < d.len() && i != j implies d[i] != d[j] by {
        assert(d[i] == r[i] && d[j] == r[j]);
    }
    if d.contains(x) {
        let i = choose|i: int| 0 <= i < d.len() && d[i] == x;
        assert(r[i] == r[r.len() - 1]);
    }
    assert forall|p: usize| r.contains(p) && p != x implies d.contains(p) by {
        let i = choose|i: int| 0 <= i < r.len() && r[i] == p;
        assert(i != r.len() - 1);
        assert(d[i] == p);
    }
    assert forall|p: usize| d.contains(p) implies r.contains(p) by {
        let i = choose|i: int| 0 <= i < d.len() && d[i] == p;
        assert(r[i] == p);
    }
    assert(x < a.current()) by {
        assert(r[r.len() - 1] < a.current());
    }
    assert(Set::new(|p: usize| d.contains(p) || a.current() <= p < a.end()) =~= a.free_set().remove(x));
}

/// A frame that was just returned is the next one handed out, and handing it
/// out brings the returned frames back to what they were before.
pub proof fn lemma_dealloc_then_alloc(a: StackFrameAllocator, p: usize, b: StackFrameAllocator)
    requires
        b.recycled() == a.recycled().push(p),
        b.current() == a.current(),
        b.end() == a.end(),
    ensures
        b.alloc_ok(),
        b.alloc_result() == Some(p),
        b.recycled().drop_last() == a.recycled(),
{
    assert(b.recycled().drop_last() =~= a.recycled());
}

/// From `a0` to `a1` the allocator only handed frames out, and the frames it
/// handed out are exactly those `owned1` holds beyond `owned0`.
pub open spec fn handed_out(a0: StackFrameAllocator, a1: StackFrameAllocator, owned0: Set<usize>, owned1: Set<usize>) -> bool {
    &&& a1.end() == a0.end()
    &&& a0.current() <= a1.current()
    &&& a1.free_set().subset_of(a0.free_set())
    &&& owned0.subset_of(owned1)
    &&& forall|p: usize| #[trigger] owned1.contains(p) ==> owned0.contains(p) || (a0.free_set().contains(p)
        && !a1.free_set().contains(p))
    &&& forall|p: usize| #[trigger] a0.free_set().contains(p) && !a1.free_set().contains(p) ==> owned1.contains(p)
}

/// A frame that is in use, zeroed when it was taken.
pub struct FrameTracker {
    pub ppn: PhysPageNum,
}

impl FrameTracker {
    /// Takes frame `ppn` into use and fills it with zero bytes.
    pub fn new(ppn: PhysPageNum, mem: &mut PhysMem) -> (f: FrameTracker)
        requires
            old(mem)@.contains_key(ppn.0),
            frames_ok(old(mem)@),
        ensures
            f.ppn == ppn,
            final(mem)@ == old(mem)@.insert(ppn.0, zero_page()),
            frames_ok(final(mem)@),
    {
        mem.zero_frame(ppn.0);
        FrameTracker { ppn }
    }
}

/// Sets the allocator's range to the whole pages between the end of the
/// kernel image `ekernel` (rounded up) and the end of memory `memory_end`
/// (rounded down).
pub fn init_frame_allocator(allocator: &mut StackFrameAllocator, ekernel: usize, memory_end: usize)
    ensures
        final(allocator).current() == ceil_of(ekernel),
        final(allocator).end() == floor_of(memory_end),
        final(allocator).recycled() == old(allocator).recycled(),
{
    allocator.init(PhysAddr::from(ekernel).ceil(), PhysAddr::from(memory_end).floor());
}

/// Takes a frame from the allocator and zeroes it.
pub fn alloc_frame(allocator: &mut StackFrameAllocator, mem: &mut PhysMem) -> (f: Option<FrameTracker>)
    requires
        old(allocator).alloc_ok(),
        frames_ok(old(mem)@),
        old(allocator).alloc_result() matches Some(p) ==> old(mem)@.contains_key(p),
    ensures
        final(allocator).end() == old(allocator).end(),
        old(allocator).recycled().len() > 0 ==> {
            &&& final(allocator).recycled() == old(allocator).recycled().drop_last()
            &&& final(allocator).current() == old(allocator).current()
        },
        old(allocator).recycled().len() == 0 && old(allocator).current() == old(allocator).end() ==> {
            &&& final(allocator).recycled() == old(allocator).recycled()
            &&& final(allocator).current() == old(allocator).current()
        },
        old(allocator).recycled().len() == 0 && old(allocator).current() != old(allocator).end() ==> {
            &&& final(allocator).recycled() == old(allocator).recycled()
            &&& final(allocator).current() == old(allocator).current() + 1
        },
        match old(allocator).alloc_result() {
            Some(p) => f matches Some(t) && t.ppn.0 == p && final(mem)@ == old(mem)@.insert(p, zero_page())
                && StackFrameAllocator::took_frame(*old(allocator), *final(allocator), p),
            None => f is None && final(mem)@ == old(mem)@,
        },
        frames_ok(final(mem)@),
{
    match allocator.allocate() {
        Some(ppn) => Some(FrameTracker::new(ppn, mem)),
        None => None,
    }
}

/// Returns frame `ppn` to the allocator.
pub fn dealloc_frame(allocator: &mut StackFrameAllocator, ppn: PhysPageNum)
    requires
        old(allocator).dealloc_ok(ppn.0),
    ensures
        final(allocator).recycled() == old(allocator).recycled().push(ppn.0),
        final(allocator).current() == old(allocator).current(),
        final(allocator).end() == old(allocator).end(),
{
    allocator.dealloc(ppn);
}

/// Distinct numbers all below `c` are at most `c` many.
proof fn lemma_distinct_below(s: Seq<usize>, c: nat)
    requires
        s.no_duplicates(),
        forall|i: int| 0 <= i < s.len() ==> #[trigger] s[i] < c,
    ensures
        s.len() <= c,
    decreases c,
{
    if c == 0 {
        if s.len() > 0 {
            assert(s[0] < c);
        }
    } else if s.contains((c - 1) as usize) {
        let k = s.index_of((c - 1) as usize);
        let t = s.remove(k);
        assert forall|i: int| 0 <= i < t.len() implies #[trigger] t[i] < c - 1 by {
            let j = if i < k { i } else { i + 1 };
            assert(t[i] == s[j]);
            assert(j != k);
        }
        assert forall|i: int, j: int| 0 <= i < t.len() && 0 <= j < t.len() && i != j implies t[i] != t[j] by {
            let a = if i < k { i } else { i + 1 };
            let b = if j < k { j } else { j + 1 };
            assert(t[i] == s[a] && t[j] == s[b]);
        }
        lemma_distinct_below(t, (c - 1) as nat);
    } else {
        assert forall|i: int| 0 <= i < s.len() implies #[trigger] s[i] < c - 1 by {
            assert(s[i] != (c - 1) as usize);
        }
        lemma_distinct_below(s, (c - 1) as nat);
    }
}

/// Handing out frames in two steps hands out what the two steps did.
pub proof fn lemma_handed_out_trans(a0: StackFrameAllocator, a1: StackFrameAllocator, a2: StackFrameAllocator,
    o0: Set<usize>, o1: Set<usize>, o2: Set<usize>)
    requires
        handed_out(a0, a1, o0, o1),
        handed_out(a1, a2, o1, o2),
    ensures
        handed_out(a0, a2, o0, o2),
{
    assert forall|p: usize| #[trigger] a0.free_set().contains(p) && !a2.free_set().contains(p) implies o2.contains(p) by {
        if a1.free_set().contains(p) {
            assert(a1.free_set().contains(p) && !a2.free_set().contains(p));
        } else {
            assert(o1.contains(p));
        }
    }
}

/// The allocator was set up with the range `s .. e`, and `held` are the
/// frames it handed out that were not given back: it is sound, hands out
/// frames of `s .. e` only, and none of the held frames is one it may still
/// hand out.
pub open spec fn serves_range(a: StackFrameAllocator, s: usize, e: usize, held: Set<usize>) -> bool {
    &&& a.sound()
    &&& a.end() == e
    &&& s <= a.current()
    &&& forall|i: int| 0 <= i < a.recycled().len() ==> s <= #[trigger] a.recycled()[i]
    &&& forall|p: usize| #[trigger] held.contains(p) ==> s <= p && a.dealloc_ok(p)
}

/// A new allocator given the range `s .. e` by `init` serves that range and
/// holds no frame.
pub proof fn lemma_init_serves_range(a: StackFrameAllocator, s: usize, e: usize)
    requires
        a.recycled() == Seq::<usize>::empty(),
        a.current() == s,
        a.end() == e,
        s <= e,
    ensures
        serves_range(a, s, e, Set::empty()),
{
}

/// Over any sequence of calls, a frame that `allocate` hands out lies in the
/// range `s .. e` given to `init` and differs from every frame handed out
/// and not given back; the allocator then also holds that frame.
pub proof fn lemma_allocate_serves_range(a: StackFrameAllocator, b: StackFrameAllocator, s: usize, e: usize,
    held: Set<usize>, p: usize)
    requires
        serves_range(a, s, e, held),
        StackFrameAllocator::took_frame(a, b, p),
    ensures
        s <= p < e,
        !held.contains(p),
        serves_range(b, s, e, held.insert(p)),
{
    lemma_took_frame(a, b, p);
    if a.recycled().len() > 0 {
        assert(a.recycled()[a.recycled().len() - 1] == p);
        assert(a.recycled().contains(p));
        assert forall|q: usize| #[trigger] b.recycled().contains(q) implies a.recycled().contains(q) by {
            let i = choose|i: int| 0 <= i < b.recycled().len() && b.recycled()[i] == q;
            assert(a.recycled()[i] == q);
        }
        assert forall|i: int| 0 <= i < b.recycled().len() implies s <= #[trigger] b.recycled()[i] by {
            assert(b.recycled()[i] == a.recycled()[i]);
        }
        assert(!b.recycled().contains(p)) by {
            assert(!b.free_set().contains(p));
        }
    } else {
        assert(p == a.current());
    }
}

/// Giving back a frame the allocator holds is valid, and the allocator still
/// serves its range without that frame.
pub proof fn lemma_dealloc_serves_range(a: StackFrameAllocator, b: StackFrameAllocator, s: usize, e: usize,
    held: Set<usize>, p: usize)
    requires
        serves_range(a, s, e, held),
        held.contains(p),
        b.recycled() == a.recycled().push(p),
        b.current() == a.current(),
        b.end() == a.end(),
    ensures
        a.dealloc_ok(p),
        serves_range(b, s, e, held.remove(p)),
{
    let r0 = a.recycled();
    let r1 = b.recycled();
    assert forall|q: usize| #[trigger] r1.contains(q) implies r0.contains(q) || q == p by {
        let i = choose|i: int| 0 <= i < r1.len() && r1[i] == q;
        if i < r0.len() {
            assert(r0[i] == q);
        }
    }
    assert forall|i: int| 0 <= i < r1.len() implies s <= #[trigger] r1[i] by {
        if i < r0.len() {
            assert(r1[i] == r0[i]);
        }
    }
    assert forall|i: int| 0 <= i < r1.len() implies #[trigger] r1[i] < b.current() by {
        if i < r0.len() {
            assert(r1[i] == r0[i]);
        }
    }
    assert forall|i: int, j: int| 0 <= i < r1.len() && 0 <= j < r1.len() && i != j implies r1[i] != r1[j] by {
        if i < r0.len() && j < r0.len() {
            assert(r1[i] == r0[i] && r1[j] == r0[j]);
        } else if i < r0.len() {
            assert(r1[i] == r0[i]);
            assert(r0.contains(r0[i]));
        } else {
            assert(r1[j] == r0[j]);
            assert(r0.contains(r0[j]));
        }
    }
    assert forall|q: usize| #[trigger] held.remove(p).contains(q) implies s <= q && b.dealloc_ok(q) by {
        assert(held.contains(q) && a.dealloc_ok(q));
    }
}

} // verus!
