use rnix::address::{PhysAddr, PhysPageNum, VirtAddr, VirtPageNum, VPNRange, PAGE_SIZE};

#[test]
fn virt_addr_floor_ceil_offset() {
    let a = VirtAddr(0x1234_5678);
    assert_eq!(a.page_offset(), 0x678);
    assert_eq!(a.floor().0, 0x12345);
    assert_eq!(a.ceil().0, 0x12346);
    let b = VirtAddr(0x8000_0000);
    assert_eq!(b.page_offset(), 0);
    assert_eq!(b.floor().0, 0x80000);
    assert_eq!(b.ceil().0, 0x80000);
}

#[test]
fn phys_addr_floor_ceil_offset() {
    let a = PhysAddr(0x8020_0001);
    assert_eq!(a.page_offset(), 1);
    assert_eq!(a.floor().0, 0x80200);
    assert_eq!(a.ceil().0, 0x80201);
    let z = PhysAddr(0);
    assert_eq!(z.floor().0, 0);
    assert_eq!(z.ceil().0, 0);
}

#[test]
fn vpn_indexes_root_first() {
    let v = VirtPageNum((3 << 18) | (5 << 9) | 7);
    assert_eq!(v.indexes(), [3, 5, 7]);
    assert_eq!(VirtPageNum(0x7ff_ffff).indexes(), [511, 511, 511]);
    assert_eq!(VirtPageNum(0).indexes(), [0, 0, 0]);
}

#[test]
fn page_number_address_round_trip() {
    let vpn = VirtPageNum(0x10);
    let va = VirtAddr::from(vpn);
    assert_eq!(va.0, 0x10 * PAGE_SIZE);
    assert_eq!(VirtPageNum::from_aligned(va), vpn);
    let ppn = PhysPageNum(0x80200);
    let pa = PhysAddr::from(ppn);
    assert_eq!(pa.0, 0x8020_0000);
    assert_eq!(PhysPageNum::from_aligned(pa), ppn);
    assert_eq!(usize::from(va), 0x10000);
}

#[test]
fn vpn_step_and_range() {
    let mut v = VirtPageNum(41);
    v.step();
    assert_eq!(v.0, 42);
    let r = VPNRange::new(VirtPageNum(3), VirtPageNum(9));
    assert_eq!(r.get_start().0, 3);
    assert_eq!(r.get_end().0, 9);
}
