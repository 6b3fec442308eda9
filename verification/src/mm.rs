//! Memory-management start-up.
use vstd::prelude::*;
use crate::address::{floor_of, ceil_of};
use crate::frame_allocator::{StackFrameAllocator, init_frame_allocator};

verus! {

/// Hands the physical memory from the end of the kernel (`ekernel`, rounded
/// up to a page) to the end of memory (`memory_end`, rounded down) to the
/// frame allocator; frames returned earlier stay available.
pub fn init(allocator: &mut StackFrameAllocator, ekernel: usize, memory_end: usize)
    ensures
        final(allocator).current() == ceil_of(ekernel),
        final(allocator).end() == floor_of(memory_end),
        final(allocator).recycled() == old(allocator).recycled(),
{
    init_frame_allocator(allocator, ekernel, memory_end);
}

} // verus!
