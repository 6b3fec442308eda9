use rnix::address::PhysPageNum;
use rnix::frame_allocator::{StackFrameAllocator, alloc_frame, dealloc_frame, init_frame_allocator};
use rnix::mm;
use rnix::phys_mem::PhysMem;

#[test]
fn allocator_hands_out_range_in_order() {
    let mut a = StackFrameAllocator::new();
    a.init(PhysPageNum(10), PhysPageNum(13));
    assert_eq!(a.free_count(), 3);
    assert_eq!(a.allocate(), Some(PhysPageNum(10)));
    assert_eq!(a.allocate(), Some(PhysPageNum(11)));
    assert_eq!(a.allocate(), Some(PhysPageNum(12)));
    assert_eq!(a.allocate(), None);
    assert_eq!(a.free_count(), 0);
}

#[test]
fn dealloc_then_alloc_returns_same_frame() {
    let mut a = StackFrameAllocator::new();
    a.init(PhysPageNum(100), PhysPageNum(200));
    let p = a.allocate().unwrap();
    let q = a.allocate().unwrap();
    a.dealloc(p);
    a.dealloc(q);
    assert_eq!(a.free_count(), 100);
    // the last frame returned is reused first
    assert_eq!(a.allocate(), Some(q));
    assert_eq!(a.allocate(), Some(p));
    assert_eq!(a.allocate(), Some(PhysPageNum(102)));
}

#[test]
fn empty_allocator_has_nothing() {
    let mut a = StackFrameAllocator::new();
    assert_eq!(a.free_count(), 0);
    assert_eq!(a.allocate(), None);
}

#[test]
fn init_rounds_kernel_end_up_and_memory_end_down() {
    let mut a = StackFrameAllocator::new();
    init_frame_allocator(&mut a, 0x8020_0001, 0x8080_0fff);
    assert_eq!(a.free_count(), 0x80800 - 0x80201);
    assert_eq!(a.allocate(), Some(PhysPageNum(0x80201)));
}

#[test]
fn mm_init_sets_up_the_allocator() {
    let mut a = StackFrameAllocator::new();
    mm::init(&mut a, 0x8040_0000, 0x8040_3000);
    assert_eq!(a.free_count(), 3);
    assert_eq!(a.allocate(), Some(PhysPageNum(0x80400)));
}

#[test]
fn alloc_frame_zeroes_and_dealloc_frame_returns() {
    let mut mem = PhysMem::new(0x10, 4);
    let mut a = StackFrameAllocator::new();
    a.init(PhysPageNum(0x10), PhysPageNum(0x14));
    mem.write_word(0x10, 3, 0xdead_beef);
    let f = alloc_frame(&mut a, &mut mem).unwrap();
    assert_eq!(f.ppn, PhysPageNum(0x10));
    assert_eq!(mem.read_word(0x10, 3), 0);
    dealloc_frame(&mut a, f.ppn);
    assert_eq!(a.free_count(), 4);
    let g = alloc_frame(&mut a, &mut mem).unwrap();
    assert_eq!(g.ppn, PhysPageNum(0x10));
}

#[test]
fn phys_mem_words_and_pages() {
    let mut mem = PhysMem::new(0x20, 2);
    assert!(mem.contains(0x20));
    assert!(mem.contains(0x21));
    assert!(!mem.contains(0x22));
    mem.write_word(0x21, 511, 0x0102_0304_0506_0708);
    assert_eq!(mem.read_word(0x21, 511), 0x0102_0304_0506_0708);
    let tail = mem.read_bytes(0x21, 4088, 4096);
    assert_eq!(tail, vec![8, 7, 6, 5, 4, 3, 2, 1]);
    mem.zero_frame(0x21);
    assert_eq!(mem.read_word(0x21, 511), 0);
    let data: Vec<u8> = (0..8192u32).map(|i| (i % 251) as u8).collect();
    mem.write_page(0x20, &data, 4096);
    assert_eq!(mem.read_bytes(0x20, 0, 3), vec![(4096 % 251) as u8, (4097 % 251) as u8, (4098 % 251) as u8]);
}
