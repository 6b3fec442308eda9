use rnix::elf::ElfSegment;
use rnix::user_space::{UserLayout, user_frames_fit, range_slots_distinct, ranges_apart, ranges_slots_disjoint,
    segment_bytes_fit, user_area_ranges};

const TRAMPOLINE: usize = usize::MAX - 4096 + 1;

#[test]
fn slots_of_one_range() {
    assert!(range_slots_distinct((0, 0x800_0000)));
    assert!(!range_slots_distinct((0, 0x800_0001)));
    assert!(range_slots_distinct((5, 5)));
    assert!(range_slots_distinct((9, 3)));
}

#[test]
fn slots_of_two_ranges() {
    assert!(!ranges_slots_disjoint((0x10, 0x12), (0x11, 0x13)));
    assert!(ranges_slots_disjoint((0x10, 0x12), (0x12, 0x14)));
    // pages 2^27 apart share a slot
    assert!(!ranges_slots_disjoint((0x10, 0x11), (0x800_0010, 0x800_0011)));
    // the last slot and the first: apart, unless a range wraps round
    assert!(ranges_slots_disjoint((0x7ff_ffff, 0x800_0000), (0, 1)));
    assert!(!ranges_slots_disjoint((0x7ff_fffe, 0x800_0001), (0, 1)));
    assert!(ranges_slots_disjoint((0, 0), (0, 0x1000_0000)));
    assert!(!ranges_slots_disjoint((0, 0x800_0000), (77, 78)));
}

#[test]
fn apart_lists() {
    assert!(ranges_apart(&vec![(0x10, 0x11), (0x12, 0x14), (0xf_ffff_ffff_ffff, 0x10_0000_0000_0000)]));
    assert!(!ranges_apart(&vec![(0x10, 0x11), (0x12, 0x14), (0x13, 0x15)]));
}

#[test]
fn frames_cover_costs() {
    let tv = TRAMPOLINE / 4096;
    let rs = vec![(0x10, 0x11), (0x12, 0x14)];
    // the root, the trampoline's two tables, two tables for the pages
    // (they share them) and a frame per page
    assert!(user_frames_fit(8, tv, &rs));
    assert!(!user_frames_fit(7, tv, &rs));
    assert!(user_frames_fit(3, tv, &vec![]));
    assert!(!user_frames_fit(2, tv, &vec![]));
    // pages under another second-level entry need a leaf table of their own
    let far = vec![(0x10, 0x11), (0x200, 0x201)];
    assert!(user_frames_fit(8, tv, &far));
    assert!(!user_frames_fit(7, tv, &far));
}

fn seg(start_va: usize, end_va: usize, data_start: usize, data_end: usize) -> ElfSegment {
    ElfSegment { start_va, end_va, readable: true, writable: false, executable: true, data_start, data_end }
}

#[test]
fn area_ranges_of_an_image() {
    let layout = UserLayout { trampoline: TRAMPOLINE, strampoline: 0x1000, trap_context: TRAMPOLINE - 4096, user_stack_size: 8192 };
    let segs = vec![seg(0x10000, 0x10800, 0, 4096), seg(0x11000, 0x13000, 4096, 12288)];
    let rs = user_area_ranges(&segs, &layout).unwrap();
    assert_eq!(rs, vec![(0x10, 0x11), (0x11, 0x13), (0x14, 0x16), (TRAMPOLINE / 4096 - 1, TRAMPOLINE / 4096)]);
    assert!(segment_bytes_fit(12288, &segs, &rs));
    assert!(!segment_bytes_fit(12287, &segs, &rs));
    // file bytes shorter than the segment's pages fit; longer ones do not
    let short = vec![seg(0x10000, 0x10800, 0, 100)];
    let rs2 = user_area_ranges(&short, &layout).unwrap();
    assert!(segment_bytes_fit(12288, &short, &rs2));
    let long = vec![seg(0x10000, 0x10800, 0, 4097)];
    let rs3 = user_area_ranges(&long, &layout).unwrap();
    assert!(!segment_bytes_fit(12288, &long, &rs3));
    // a stack that would end past the machine word
    let high = vec![seg(usize::MAX - 8191, usize::MAX - 4095, 0, 4096)];
    assert!(user_area_ranges(&high, &layout).is_none());
}
