use rnix::address::{PhysPageNum, VirtAddr, VirtPageNum};
use rnix::elf::{ElfSegment, ProgramHeaderInfo, SegmentKind, read_elf_image, segment_from_header};
use rnix::frame_allocator::StackFrameAllocator;
use rnix::memory_set::MemorySet;
use rnix::page_table::translated_byte_buffer;
use rnix::phys_mem::PhysMem;
use rnix::user_space::UserLayout;

const TRAMPOLINE: usize = usize::MAX - 4096 + 1;

/// A 64-bit little-endian ELF file with the given program headers
/// (type, flags, offset, vaddr, filesz, memsz), padded to `len` bytes and
/// filled with `fill` after the headers.
fn make_elf(entry: u64, phs: &[(u32, u32, u64, u64, u64, u64)], len: usize, fill: u8) -> Vec<u8> {
    let mut v = vec![0u8; 64];
    v[0..4].copy_from_slice(&[0x7f, b'E', b'L', b'F']);
    v[4] = 2; // 64-bit
    v[5] = 1; // little endian
    v[6] = 1;
    v[16..18].copy_from_slice(&2u16.to_le_bytes());
    v[18..20].copy_from_slice(&0xf3u16.to_le_bytes());
    v[20..24].copy_from_slice(&1u32.to_le_bytes());
    v[24..32].copy_from_slice(&entry.to_le_bytes());
    v[32..40].copy_from_slice(&64u64.to_le_bytes());
    v[52..54].copy_from_slice(&64u16.to_le_bytes());
    v[54..56].copy_from_slice(&56u16.to_le_bytes());
    v[56..58].copy_from_slice(&(phs.len() as u16).to_le_bytes());
    for &(t, f, off, va, fsz, msz) in phs {
        v.extend_from_slice(&t.to_le_bytes());
        v.extend_from_slice(&f.to_le_bytes());
        v.extend_from_slice(&off.to_le_bytes());
        v.extend_from_slice(&va.to_le_bytes());
        v.extend_from_slice(&va.to_le_bytes());
        v.extend_from_slice(&fsz.to_le_bytes());
        v.extend_from_slice(&msz.to_le_bytes());
        v.extend_from_slice(&4096u64.to_le_bytes());
    }
    while v.len() < len {
        v.push(fill);
    }
    v
}

fn user_layout() -> UserLayout {
    UserLayout { trampoline: TRAMPOLINE, strampoline: 0x101000, trap_context: TRAMPOLINE - 4096, user_stack_size: 8192 }
}

#[test]
fn reads_loadable_segments_and_entry() {
    // a loadable R|X segment, a note (skipped), a loadable R|W segment
    let elf = make_elf(0x10000, &[(1, 5, 4096, 0x10000, 4096, 4096), (4, 4, 200, 0, 8, 8), (1, 6, 8192, 0x11000, 4096, 4096)],
        12288, 0xab);
    let img = read_elf_image(&elf).unwrap();
    assert_eq!(img.entry_point, 0x10000);
    assert_eq!(img.segments.len(), 2);
    assert_eq!(img.segments[0], ElfSegment {
        start_va: 0x10000, end_va: 0x11000, readable: true, writable: false, executable: true, data_start: 4096,
        data_end: 8192 });
    assert_eq!(img.segments[1].start_va, 0x11000);
    assert!(img.segments[1].writable && !img.segments[1].executable);
}

#[test]
fn rejects_bad_magic_short_files_and_bad_segments() {
    let mut elf = make_elf(0x10000, &[(1, 5, 4096, 0x10000, 4096, 4096)], 8192, 0);
    assert!(read_elf_image(&elf).is_some());
    elf[1] = b'X';
    assert!(read_elf_image(&elf).is_none());
    assert!(read_elf_image(&[0x7f, b'E', b'L']).is_none());
    let short = &make_elf(0, &[], 64, 0)[..40];
    assert!(read_elf_image(short).is_none());
    // segment bytes past the end of the file
    let elf = make_elf(0x10000, &[(1, 5, 4096, 0x10000, 8192, 8192)], 8192, 0);
    assert!(read_elf_image(&elf).is_none());
    // an unknown program header type
    let elf = make_elf(0x10000, &[(0x5000_0000, 5, 4096, 0x10000, 4096, 4096)], 8192, 0);
    assert!(read_elf_image(&elf).is_none());
}

#[test]
fn segment_from_header_cases() {
    let ph = ProgramHeaderInfo {
        kind: Some(SegmentKind::Load), offset: 16, virtual_addr: 0x1000, file_size: 32, mem_size: 64, readable: true,
        writable: true, executable: false };
    let s = segment_from_header(&ph, 100).unwrap().unwrap();
    assert_eq!((s.start_va, s.end_va, s.data_start, s.data_end), (0x1000, 0x1040, 16, 48));
    assert_eq!(segment_from_header(&ph, 47), None);
    let other = ProgramHeaderInfo { kind: Some(SegmentKind::Other), ..ph };
    assert_eq!(segment_from_header(&other, 100), Some(None));
    let unknown = ProgramHeaderInfo { kind: None, ..ph };
    assert_eq!(segment_from_header(&unknown, 100), None);
    let wraps = ProgramHeaderInfo { virtual_addr: u64::MAX, ..ph };
    assert_eq!(segment_from_header(&wraps, 100), None);
    let off_wraps = ProgramHeaderInfo { offset: u64::MAX, ..ph };
    assert_eq!(segment_from_header(&off_wraps, 100), None);
}

#[test]
fn from_elf_builds_the_user_space() {
    let elf = make_elf(0x10000, &[(1, 5, 4096, 0x10000, 4096, 4096)], 8192, 0x5a);
    let mut mem = PhysMem::new(0x100, 64);
    let mut a = StackFrameAllocator::new();
    a.init(PhysPageNum(0x100), PhysPageNum(0x140));
    let (ms, sp, entry) = MemorySet::from_elf(&elf, &user_layout(), &mut a, &mut mem).unwrap();
    assert_eq!(entry, 0x10000);
    // one guard page above the segment, then two stack pages
    assert_eq!(sp, 0x11000 + 4096 + 8192);
    let code = ms.translate(&mem, VirtPageNum(0x10)).unwrap();
    assert!(code.is_valid() && code.readable() && code.executable() && !code.writable());
    assert_eq!(code.flags().bits() & 0x10, 0x10);
    assert_eq!(mem.read_bytes(code.ppn().0, 0, 4), vec![0x5a; 4]);
    let bytes = translated_byte_buffer(&mem, ms.token(), 0x10010, 8);
    assert_eq!(bytes, vec![vec![0x5a; 8]]);
    // guard page unmapped, stack pages mapped R|W|U
    assert!(!ms.translate(&mem, VirtPageNum(0x11)).unwrap().is_valid());
    let stack = ms.translate(&mem, VirtPageNum(0x12)).unwrap();
    assert_eq!(stack.flags().bits(), 0b10111);
    // trap context R|W, trampoline R|X
    let tc = ms.translate(&mem, VirtAddr(TRAMPOLINE - 4096).floor()).unwrap();
    assert_eq!(tc.flags().bits(), 0b0111);
    let tr = ms.translate(&mem, VirtAddr(TRAMPOLINE).floor()).unwrap();
    assert_eq!(tr.ppn(), PhysPageNum(0x101));
}

#[test]
fn from_elf_refuses_what_it_cannot_build() {
    let mut mem = PhysMem::new(0x100, 64);
    let mut a = StackFrameAllocator::new();
    a.init(PhysPageNum(0x100), PhysPageNum(0x140));
    // file bytes beyond the segment's pages
    let elf = make_elf(0x10000, &[(1, 5, 4096, 0x10000, 4097, 4096)], 12288, 0);
    assert!(MemorySet::from_elf(&elf, &user_layout(), &mut a, &mut mem).is_none());
    // two segments on the same page
    let elf = make_elf(0x10000, &[(1, 5, 4096, 0x10000, 4096, 4096), (1, 6, 4096, 0x10000, 4096, 4096)], 8192, 0);
    assert!(MemorySet::from_elf(&elf, &user_layout(), &mut a, &mut mem).is_none());
    assert_eq!(a.free_count(), 64);
    // too few frames
    let mut small = StackFrameAllocator::new();
    small.init(PhysPageNum(0x100), PhysPageNum(0x108));
    let elf = make_elf(0x10000, &[(1, 5, 4096, 0x10000, 4096, 4096)], 8192, 0);
    assert!(MemorySet::from_elf(&elf, &user_layout(), &mut small, &mut mem).is_none());
    assert_eq!(small.free_count(), 8);
}

#[test]
fn from_elf_takes_exactly_the_frames_it_needs() {
    // the root, the trampoline's two tables, the segment's frame and two
    // tables, two stack frames and the trap context's frame
    let elf = make_elf(0x10000, &[(1, 5, 4096, 0x10000, 4096, 4096)], 8192, 0);
    let mut mem = PhysMem::new(0x100, 64);
    let mut a = StackFrameAllocator::new();
    a.init(PhysPageNum(0x100), PhysPageNum(0x109));
    assert!(MemorySet::from_elf(&elf, &user_layout(), &mut a, &mut mem).is_some());
    assert_eq!(a.free_count(), 0);
}

#[test]
fn two_user_spaces_share_no_frame() {
    let mut mem = PhysMem::new(0x100, 64);
    let mut a = StackFrameAllocator::new();
    a.init(PhysPageNum(0x100), PhysPageNum(0x140));
    let elf1 = make_elf(0x10000, &[(1, 5, 4096, 0x10000, 4096, 4096)], 8192, 1);
    let elf2 = make_elf(0x10000, &[(1, 5, 4096, 0x10000, 4096, 4096)], 8192, 2);
    let (ms1, _, _) = MemorySet::from_elf(&elf1, &user_layout(), &mut a, &mut mem).unwrap();
    let (ms2, _, _) = MemorySet::from_elf(&elf2, &user_layout(), &mut a, &mut mem).unwrap();
    assert_ne!(ms1.token(), ms2.token());
    let p1 = ms1.translate(&mem, VirtPageNum(0x10)).unwrap().ppn();
    let p2 = ms2.translate(&mem, VirtPageNum(0x10)).unwrap().ppn();
    assert_ne!(p1, p2);
    // the first space still reads its own bytes
    assert_eq!(translated_byte_buffer(&mem, ms1.token(), 0x10000, 4), vec![vec![1; 4]]);
    assert_eq!(translated_byte_buffer(&mem, ms2.token(), 0x10000, 4), vec![vec![2; 4]]);
}

#[test]
fn partial_segments_are_copied_then_zeroed() {
    // a data segment of 100 file bytes over two pages of memory
    let elf = make_elf(0x20000, &[(1, 5, 4096, 0x10000, 4096, 4096), (1, 6, 8192, 0x11000, 100, 0x1800)], 12288, 0x77);
    let mut mem = PhysMem::new(0x100, 64);
    let mut a = StackFrameAllocator::new();
    a.init(PhysPageNum(0x100), PhysPageNum(0x140));
    let (ms, sp, entry) = MemorySet::from_elf(&elf, &user_layout(), &mut a, &mut mem).unwrap();
    assert_eq!(entry, 0x20000);
    // the last segment ends at page 0x13; a guard page, then the stack
    assert_eq!(sp, 0x13000 + 4096 + 8192);
    let p = ms.translate(&mem, VirtPageNum(0x11)).unwrap().ppn().0;
    assert_eq!(mem.read_bytes(p, 0, 100), vec![0x77; 100]);
    assert_eq!(mem.read_bytes(p, 100, 4096), vec![0; 3996]);
    let q = ms.translate(&mem, VirtPageNum(0x12)).unwrap().ppn().0;
    assert_eq!(mem.read_bytes(q, 0, 4096), vec![0; 4096]);
    assert_eq!(translated_byte_buffer(&mem, ms.token(), 0x11060, 8), vec![vec![0x77, 0x77, 0x77, 0x77, 0, 0, 0, 0]]);
}
