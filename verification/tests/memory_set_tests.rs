use rnix::address::{PhysPageNum, VirtAddr, VirtPageNum};
use rnix::frame_allocator::StackFrameAllocator;
use rnix::memory_set::{KernelLayout, MapArea, MapPermission, MapType, MemorySet, remap_test};
use rnix::page_table::PageTable;
use rnix::phys_mem::PhysMem;

const TRAMPOLINE: usize = usize::MAX - 4096 + 1;

fn kernel_layout() -> KernelLayout {
    KernelLayout {
        stext: 0x100000,
        etext: 0x101800,
        srodata: 0x102000,
        erodata: 0x102100,
        sdata: 0x103000,
        edata: 0x103010,
        sbss_with_stack: 0x104000,
        ebss: 0x106000,
        ekernel: 0x106000,
        strampoline: 0x101000,
        trampoline: TRAMPOLINE,
        memory_end: 0x140000,
    }
}

fn memory() -> (PhysMem, StackFrameAllocator) {
    let mem = PhysMem::new(0x100, 0x40);
    let mut a = StackFrameAllocator::new();
    a.init(PhysPageNum(0x106), PhysPageNum(0x140));
    (mem, a)
}

#[test]
fn map_permission_bits() {
    assert_eq!(MapPermission::R().bits(), 2);
    assert_eq!(MapPermission::W().bits(), 4);
    assert_eq!(MapPermission::X().bits(), 8);
    assert_eq!(MapPermission::U().bits(), 16);
    assert_eq!((MapPermission::R() | MapPermission::W() | MapPermission::U()).bits(), 22);
}

#[test]
fn kernel_space_layout_and_remap_test() {
    let (mut mem, mut a) = memory();
    let layout = kernel_layout();
    let free0 = a.free_count();
    let ks = MemorySet::new_kernel(&layout, &mut a, &mut mem);
    // root, two tables for the trampoline, two for the kernel's pages
    assert_eq!(free0 - a.free_count(), 5);
    assert!(remap_test(&ks, &layout, &mem));
    // identical mapping with the section's permission plus V
    let text = ks.translate(&mem, VirtPageNum(0x100)).unwrap();
    assert_eq!(text.ppn(), PhysPageNum(0x100));
    assert_eq!(text.flags().bits(), 0b1011);
    let data = ks.translate(&mem, VirtPageNum(0x103)).unwrap();
    assert_eq!(data.flags().bits(), 0b0111);
    let rest = ks.translate(&mem, VirtPageNum(0x13f)).unwrap();
    assert_eq!(rest.ppn(), PhysPageNum(0x13f));
    // the trampoline maps to its code, R|X
    let t = ks.translate(&mem, VirtAddr(TRAMPOLINE).floor()).unwrap();
    assert_eq!(t.ppn(), PhysPageNum(0x101));
    assert_eq!(t.flags().bits(), 0b1011);
    // the page after the end of memory is not mapped
    assert!(!ks.translate(&mem, VirtPageNum(0x140)).unwrap().is_valid());
    assert_eq!(ks.token(), (8u64 << 60) | 0x106);
}

#[test]
fn new_bare_maps_nothing() {
    let (mut mem, mut a) = memory();
    let ms = MemorySet::new_bare(&mut a, &mut mem);
    assert!(ms.translate(&mem, VirtPageNum(0x10)).is_none());
    assert_eq!(a.free_count(), 0x39);
}

#[test]
fn insert_framed_area_maps_zeroed_frames() {
    let (mut mem, mut a) = memory();
    let mut ms = MemorySet::new_bare(&mut a, &mut mem);
    ms.insert_framed_area(VirtAddr(0x10000), VirtAddr(0x12001), MapPermission::R() | MapPermission::W(), &mut a, &mut mem);
    for vpn in 0x10..0x13 {
        let e = ms.translate(&mem, VirtPageNum(vpn)).unwrap();
        assert!(e.is_valid() && e.readable() && e.writable() && !e.executable());
        assert_eq!(mem.read_word(e.ppn().0, 0), 0);
    }
    assert!(!ms.translate(&mem, VirtPageNum(0x13)).unwrap().is_valid());
}

#[test]
fn push_copies_data_page_by_page() {
    let (mut mem, mut a) = memory();
    let mut ms = MemorySet::new_bare(&mut a, &mut mem);
    let data: Vec<u8> = (0..8192u32).map(|i| (i / 4096 + 1) as u8).collect();
    let area = MapArea::new(VirtAddr(0x20000), VirtAddr(0x22000), MapType::Framed, MapPermission::R() | MapPermission::U());
    ms.push(area, Some(&data), &mut a, &mut mem);
    let p0 = ms.translate(&mem, VirtPageNum(0x20)).unwrap().ppn().0;
    let p1 = ms.translate(&mem, VirtPageNum(0x21)).unwrap().ppn().0;
    assert_ne!(p0, p1);
    assert_eq!(mem.read_bytes(p0, 0, 2), vec![1, 1]);
    assert_eq!(mem.read_bytes(p1, 4094, 4096), vec![2, 2]);
}

#[test]
fn map_area_map_and_unmap_return_frames() {
    let (mut mem, mut a) = memory();
    let mut pt = PageTable::new(&mut a, &mut mem);
    let mut area = MapArea::new(VirtAddr(0x30000), VirtAddr(0x32000), MapType::Framed, MapPermission::R());
    let before = a.free_count();
    area.map(&mut pt, &mut a, &mut mem);
    assert_eq!(before - a.free_count(), 4);
    assert!(pt.translate(&mem, VirtPageNum(0x31)).unwrap().is_valid());
    area.unmap(&mut pt, &mut a, &mut mem);
    assert_eq!(before - a.free_count(), 2);
    assert!(!pt.translate(&mem, VirtPageNum(0x31)).unwrap().is_valid());
}

#[test]
fn identical_area_maps_same_numbers() {
    let (mut mem, mut a) = memory();
    let mut pt = PageTable::new(&mut a, &mut mem);
    let mut area = MapArea::new(VirtAddr(0x100000), VirtAddr(0x101000), MapType::Identical, MapPermission::R());
    let vpn = VirtPageNum(0x100);
    area.map_one(&mut pt, vpn, &mut a, &mut mem);
    assert_eq!(pt.translate(&mem, vpn).unwrap().ppn(), PhysPageNum(0x100));
    area.unmap_one(&mut pt, vpn, &mut a, &mut mem);
    assert!(!pt.translate(&mem, vpn).unwrap().is_valid());
}

#[test]
fn remap_test_fails_without_the_kernel_mapped() {
    let (mut mem, mut a) = memory();
    let bare = MemorySet::new_bare(&mut a, &mut mem);
    assert!(!remap_test(&bare, &kernel_layout(), &mem));
}
