use rnix::address::{PhysPageNum, VirtPageNum};
use rnix::frame_allocator::StackFrameAllocator;
use rnix::page_table::{PTEFlags, PageTable, PageTableEntry, translated_byte_buffer};
use rnix::phys_mem::PhysMem;

fn setup() -> (PhysMem, StackFrameAllocator) {
    let mem = PhysMem::new(0x100, 32);
    let mut a = StackFrameAllocator::new();
    a.init(PhysPageNum(0x100), PhysPageNum(0x120));
    (mem, a)
}

#[test]
fn pte_fields() {
    let e = PageTableEntry::new(PhysPageNum(0x80200), PTEFlags::V() | PTEFlags::R() | PTEFlags::X());
    assert_eq!(e.bits, (0x80200u64 << 10) | 0b1011);
    assert_eq!(e.ppn(), PhysPageNum(0x80200));
    assert_eq!(e.flags().bits(), 0b1011);
    assert!(e.is_valid());
    assert!(e.readable());
    assert!(!e.writable());
    assert!(e.executable());
    let z = PageTableEntry::empty();
    assert!(!z.is_valid());
    assert_eq!(z.ppn(), PhysPageNum(0));
}

#[test]
fn pte_flags_bits() {
    assert_eq!(PTEFlags::V().bits(), 1);
    assert_eq!(PTEFlags::D().bits(), 0x80);
    assert_eq!(PTEFlags::empty().bits(), 0);
    assert_eq!(PTEFlags::from_bits(0x0a).unwrap().bits(), 0x0a);
    assert_eq!(PTEFlags::from_bits_truncate(0xff).bits(), 0xff);
    assert!((PTEFlags::R() | PTEFlags::W()).contains(PTEFlags::W()));
    assert!(!PTEFlags::R().contains(PTEFlags::W()));
}

#[test]
fn map_translate_unmap() {
    let (mut mem, mut a) = setup();
    let mut pt = PageTable::new(&mut a, &mut mem);
    assert_eq!(a.free_count(), 31);
    let vpn = VirtPageNum(0x12345);
    assert!(pt.translate(&mem, vpn).is_none());
    pt.map(&mut mem, &mut a, vpn, PhysPageNum(0x80400), PTEFlags::R() | PTEFlags::W() | PTEFlags::U());
    // two table frames were created on the way
    assert_eq!(a.free_count(), 29);
    let e = pt.translate(&mem, vpn).unwrap();
    assert!(e.is_valid());
    assert_eq!(e.ppn(), PhysPageNum(0x80400));
    assert!(e.readable() && e.writable() && !e.executable());
    // a page in the same leaf table needs no new table
    pt.map(&mut mem, &mut a, VirtPageNum(0x12346), PhysPageNum(0x80401), PTEFlags::R());
    assert_eq!(a.free_count(), 29);
    pt.unmap(&mut mem, vpn);
    let e = pt.translate(&mem, vpn).unwrap();
    assert!(!e.is_valid());
    assert_eq!(pt.translate(&mem, VirtPageNum(0x12346)).unwrap().ppn(), PhysPageNum(0x80401));
}

#[test]
fn find_pte_create_builds_tables() {
    let (mut mem, mut a) = setup();
    let mut pt = PageTable::new(&mut a, &mut mem);
    let r = pt.find_pte_create(&mut mem, &mut a, VirtPageNum(7));
    assert!(r.is_some());
    assert_eq!(a.free_count(), 29);
    let e = pt.translate(&mem, VirtPageNum(7)).unwrap();
    assert!(!e.is_valid());
}

#[test]
fn token_round_trip() {
    let (mut mem, mut a) = setup();
    let pt = PageTable::new(&mut a, &mut mem);
    let t = pt.token();
    assert_eq!(t, (8u64 << 60) | 0x100);
    let back = PageTable::from_token(t);
    assert_eq!(back.token(), t);
}

#[test]
fn translated_byte_buffer_reads_user_bytes() {
    let (mut mem, mut a) = setup();
    let mut pt = PageTable::new(&mut a, &mut mem);
    pt.map(&mut mem, &mut a, VirtPageNum(0x10), PhysPageNum(0x11f), PTEFlags::R() | PTEFlags::U());
    pt.map(&mut mem, &mut a, VirtPageNum(0x11), PhysPageNum(0x11e), PTEFlags::R() | PTEFlags::U());
    mem.write_word(0x11f, 1, u64::from_le_bytes(*b"hello, w"));
    mem.write_word(0x11e, 0, u64::from_le_bytes(*b"orld!!!!"));
    let pieces = translated_byte_buffer(&mem, pt.token(), 0x10008, 8);
    assert_eq!(pieces.len(), 1);
    assert_eq!(pieces[0], b"hello, w".to_vec());
    // an aligned buffer over two pages: each piece ends at the page offset of
    // the next page's start, so the full first page gives an empty piece
    let pieces = translated_byte_buffer(&mem, pt.token(), 0x10000, 4096 + 5);
    assert_eq!(pieces.len(), 2);
    assert!(pieces[0].is_empty());
    assert_eq!(pieces[1], b"orld!".to_vec());
    assert!(translated_byte_buffer(&mem, pt.token(), 0x10000, 0).is_empty());
}
