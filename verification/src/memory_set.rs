//! Address spaces: areas of virtual pages mapped identically or onto frames
//! of their own, and the sets of areas that make up the kernel's and the
//! applications' address spaces.
use vstd::prelude::*;
use vstd::std_specs::ops::{BitOrSpec, BitOrSpecImpl};
use std::collections::BTreeMap;
use crate::address::{PAGE_SIZE, PhysAddr, PhysPageNum, VirtAddr, VirtPageNum, VPNRange, vpn_index, floor_of, ceil_of, offset_of, page_start};
use crate::phys_mem::{PhysMem, frames_ok, zero_page};
use crate::frame_allocator::{StackFrameAllocator, FrameTracker, alloc_frame, dealloc_frame, lemma_took_frame, lemma_alloc_result_free, handed_out};
use crate::page_table::{
    PTEFlags, PageTable, PageTableEntry, pte_bits, walk, mapping, same_slot, missing_tables, frame_source_ok,
    walk_after_create, l1_valid, l0_valid, l1_slots, l0_slots, frames_needed, lemma_tree_frame,
    lemma_same_slot_same_walk, range_l1, range_l0, plan_frames, lemma_range_slots_step, plans_fit, plans_view,
};
use crate::user_space::{all_apart, ranges_apart};

verus! {

broadcast use vstd::laws_cmp::group_laws_cmp, vstd::std_specs::btree::group_btree_axioms;

/// How an area's virtual pages reach physical pages.
#[derive(Clone, Copy, Debug, PartialEq, Eq, Structural)]
pub enum MapType {
    /// Each virtual page maps to the physical page with the same number.
    Identical,
    /// Each virtual page maps to a frame the area takes from the allocator.
    Framed,
}

/// Access permissions of an area: R, W, X, U, the same bits as in a
/// page-table entry.
#[derive(Clone, Copy, Debug, PartialEq, Eq, Structural)]
pub struct MapPermission {
    bits: u8,
}

#[allow(non_snake_case)]
impl MapPermission {
    /// The raw bits.
    pub closed spec fn spec_bits(&self) -> u8 {
        self.bits
    }

    /// Readable.
    pub fn R() -> (p: MapPermission)
        ensures p.spec_bits() == 2,
    {
        MapPermission { bits: 2 }
    }

    /// Writable.
    pub fn W() -> (p: MapPermission)
        ensures p.spec_bits() == 4,
    {
        MapPermission { bits: 4 }
    }

    /// Executable.
    pub fn X() -> (p: MapPermission)
        ensures p.spec_bits() == 8,
    {
        MapPermission { bits: 8 }
    }

    /// Accessible from user mode.
    pub fn U() -> (p: MapPermission)
        ensures p.spec_bits() == 16,
    {
        MapPermission { bits: 16 }
    }

    /// The raw bits.
    pub fn bits(&self) -> (r: u8)
        ensures r == self.spec_bits(),
    {
        self.bits
    }
}

impl core::ops::BitOr for MapPermission {
    type Output = MapPermission;

    fn bitor(self, rhs: MapPermission) -> (r: MapPermission) {
        MapPermission { bits: self.bits | rhs.bits }
    }
}

impl BitOrSpecImpl for MapPermission {
    open spec fn obeys_bitor_spec() -> bool {
        true
    }

    open spec fn bitor_req(self, rhs: MapPermission) -> bool {
        true
    }

    closed spec fn bitor_spec(self, rhs: MapPermission) -> MapPermission {
        MapPermission { bits: (self.bits | rhs.bits) as u8 }
    }
}

/// The union of two permissions holds the bits of both.
pub proof fn lemma_permission_union(p: MapPermission, q: MapPermission)
    ensures
        BitOrSpec::bitor_spec(p, q).spec_bits() == p.spec_bits() | q.spec_bits(),
{
}

/// A range of virtual pages with one mapping type and one permission, and
/// the frames it owns when it is framed.
pub struct MapArea {
    vpn_range: VPNRange,
    data_frames: BTreeMap<usize, FrameTracker>,
    map_type: MapType,
    map_permission: MapPermission,
}

impl MapArea {
    /// The range of virtual pages.
    pub closed spec fn range(&self) -> VPNRange {
        self.vpn_range
    }

    /// The mapping type.
    pub closed spec fn kind(&self) -> MapType {
        self.map_type
    }

    /// The permission bits.
    pub closed spec fn perm(&self) -> u8 {
        self.map_permission.bits
    }

    /// The frame of each virtual page that has one.
    pub closed spec fn frames_map(&self) -> Map<usize, usize> {
        self.data_frames@.map_values(|f: FrameTracker| f.ppn.0)
    }

    /// The frames the area owns.
    pub open spec fn frames(&self) -> Set<usize> {
        self.frames_map().values()
    }

    /// Whether `v` is one of the area's virtual pages.
    pub open spec fn in_range(&self, v: int) -> bool {
        self.range().start.0 <= v < self.range().end.0
    }

    /// Number of virtual pages of the area.
    pub open spec fn page_count(&self) -> nat {
        self.range().len()
    }

    /// The physical page virtual page `vpn` maps to.
    pub open spec fn target(&self, vpn: usize) -> usize {
        if self.kind() == MapType::Identical { vpn } else { self.frames_map()[vpn] }
    }

    /// The leaf entry of virtual page `vpn`: its physical page, the area's
    /// permission and V.
    pub open spec fn entry(&self, vpn: usize) -> PageTableEntry {
        PageTableEntry { bits: pte_bits(self.target(vpn), self.perm() | 1) }
    }

    /// Frames taken from the allocator for each mapped page.
    pub open spec fn frames_per_page(&self) -> nat {
        if self.kind() == MapType::Framed { 1 } else { 0 }
    }

    /// The area over the pages from `start_va` rounded down to `end_va`
    /// rounded up, owning no frame yet.
    pub fn new(start_va: VirtAddr, end_va: VirtAddr, map_type: MapType, map_permission: MapPermission) -> (a: MapArea)
        ensures
            a.range().start.0 == floor_of(start_va.0),
            a.range().end.0 == ceil_of(end_va.0),
            a.kind() == map_type,
            a.perm() == map_permission.spec_bits(),
            a.frames_map() == Map::<usize, usize>::empty(),
            a.frame_count() == 0,
    {
        let start_vpn = start_va.floor();
        let end_vpn = end_va.ceil();
        let a = MapArea {
            vpn_range: VPNRange::new(start_vpn, end_vpn),
            data_frames: BTreeMap::new(),
            map_type,
            map_permission,
        };
        assert(a.frames_map() =~= Map::<usize, usize>::empty());
        a
    }

    /// Maps virtual page `vpn` in `page_table`: to the physical page of the
    /// same number when identical, else to a zeroed frame taken from the
    /// allocator, which the area then owns; with the area's permission and V.
    pub fn map_one(&mut self, page_table: &mut PageTable, vpn: VirtPageNum, alloc: &mut StackFrameAllocator, mem: &mut PhysMem)
        requires
            old(page_table).wf(old(mem)@),
            frame_source_ok(*old(alloc), old(mem)@, old(page_table).owned().union(old(self).frames())),
            old(alloc).num_free() >= old(self).frames_per_page() + missing_tables(old(mem)@, old(page_table).root(), vpn.0),
            mapping(old(mem)@, old(page_table).root(), vpn.0) is None,
            old(self).kind() == MapType::Framed ==> !old(self).frames_map().contains_key(vpn.0),
        ensures
            final(self).range() == old(self).range(),
            final(self).kind() == old(self).kind(),
            final(self).perm() == old(self).perm(),
            old(self).kind() == MapType::Identical ==> final(self).frames_map() == old(self).frames_map(),
            final(self).frame_count() == old(self).frame_count() + old(self).frames_per_page(),
            old(self).kind() == MapType::Framed ==> {
                &&& Some(final(self).frames_map()[vpn.0]) == old(alloc).alloc_result()
                &&& final(self).frames_map() == old(self).frames_map().insert(vpn.0, final(self).frames_map()[vpn.0])
                &&& final(mem)@[final(self).frames_map()[vpn.0]] == zero_page()
                &&& !final(page_table).owned().contains(final(self).frames_map()[vpn.0])
            },
            final(page_table).root() == old(page_table).root(),
            final(page_table).wf(final(mem)@),
            frame_source_ok(*final(alloc), final(mem)@, final(page_table).owned().union(final(self).frames())),
            handed_out(*old(alloc), *final(alloc), old(page_table).owned().union(old(self).frames()),
                final(page_table).owned().union(final(self).frames())),
            old(page_table).owned().subset_of(final(page_table).owned()),
            forall|p: usize| #[trigger] final(page_table).owned().contains(p) ==> old(page_table).owned().contains(p)
                || old(alloc).free_set().contains(p),
            final(alloc).num_free() + old(self).frames_per_page() + missing_tables(old(mem)@, old(page_table).root(), vpn.0)
                == old(alloc).num_free(),
            final(mem)@.dom() == old(mem)@.dom(),
            forall|p: usize| old(mem)@.contains_key(p) && !final(page_table).owned().union(final(self).frames()).contains(p)
                ==> #[trigger] final(mem)@[p] == old(mem)@[p],
            forall|p: usize| old(mem)@.contains_key(p) && old(page_table).owned().union(old(self).frames()).contains(p)
                && !final(page_table).owned().contains(p) ==> #[trigger] final(mem)@[p] == old(mem)@[p],
            forall|v: usize| #[trigger] mapping(final(mem)@, final(page_table).root(), v) == if same_slot(v, vpn.0) {
                Some(final(self).entry(vpn.0))
            } else {
                mapping(old(mem)@, old(page_table).root(), v)
            },
            forall|x: int| 0 <= x < 512 ==> #[trigger] l1_valid(final(mem)@, final(page_table).root(), x)
                == (l1_valid(old(mem)@, old(page_table).root(), x) || x == vpn_index(vpn.0, 0)),
            forall|x: int, y: int| 0 <= x < 512 && 0 <= y < 512 ==> #[trigger] l0_valid(final(mem)@, final(page_table).root(), x, y)
                == (l0_valid(old(mem)@, old(page_table).root(), x, y) || (x == vpn_index(vpn.0, 0) && y == vpn_index(vpn.0, 1))),
    {
        let ghost mem0 = mem@;
        let ghost alloc0 = *alloc;
        let ghost frames0 = self.frames();
        let ghost owned0 = page_table.owned();
        let ghost root = page_table.root();
        let ppn: PhysPageNum;
        match self.map_type {
            MapType::Identical => {
                ppn = PhysPageNum::from(vpn.0);
            },
            MapType::Framed => {
                proof {
                    lemma_alloc_result_free(*alloc);
                }
                let frame = alloc_frame(alloc, mem).unwrap();
                ppn = frame.ppn;
                proof {
                    lemma_took_frame(alloc0, *alloc, ppn.0);
                    assert(mem@.dom() =~= mem0.dom());
                    lemma_tree_frame(mem0, mem@, root, owned0);
                }
                self.data_frames.insert(vpn.0, frame);
                proof {
                    assert(!old(self).data_frames@.contains_key(vpn.0));
                    assert(self.data_frames@.dom() =~= old(self).data_frames@.dom().insert(vpn.0));
                    assert(self.frames_map() =~= old(self).frames_map().insert(vpn.0, ppn.0));
                    assert(self.frames() =~= frames0.insert(ppn.0)) by {
                        assert forall|q: usize| self.frames().contains(q) implies frames0.insert(ppn.0).contains(q) by {
                            let k = choose|k: usize| self.frames_map().contains_key(k) && self.frames_map()[k] == q;
                            if k != vpn.0 {
                                assert(old(self).frames_map().contains_key(k) && old(self).frames_map()[k] == q);
                            }
                        }
                        assert forall|q: usize| frames0.insert(ppn.0).contains(q) implies self.frames().contains(q) by {
                            if q == ppn.0 {
                                assert(self.frames_map()[vpn.0] == q);
                            } else {
                                let k = choose|k: usize| old(self).frames_map().contains_key(k) && old(self).frames_map()[k] == q;
                                assert(k != vpn.0);
                                assert(self.frames_map()[k] == q);
                            }
                        }
                    }
                }
            },
        }
        let ghost mem1 = mem@;
        let ghost alloc1 = *alloc;
        let pte_flags = PTEFlags::from_bits(self.map_permission.bits()).unwrap();
        page_table.map(mem, alloc, vpn, ppn, pte_flags);
        proof {
            let frames1 = self.frames();
            let owned1 = page_table.owned();
            assert(frames1 == frames0 || (self.map_type == MapType::Framed && frames1 == frames0.insert(ppn.0)));
            assert forall|p: usize| mem0.contains_key(p) && old(page_table).owned().union(old(self).frames()).contains(p)
                && !page_table.owned().contains(p) implies #[trigger] mem@[p] == mem0[p] by {
                assert(frames0.contains(p));
                assert(p != ppn.0 || self.map_type == MapType::Identical);
            }
            assert(page_table.owned().union(self.frames()) =~= page_table.owned().union(self.frames()));
        }
    }

    /// Maps every virtual page of the area in `page_table`, in increasing
    /// order, as `map_one` does.
    #[verifier::rlimit(100)]
    #[verifier::spinoff_prover]
    pub fn map(&mut self, page_table: &mut PageTable, alloc: &mut StackFrameAllocator, mem: &mut PhysMem)
        requires
            old(page_table).wf(old(mem)@),
            frame_source_ok(*old(alloc), old(mem)@, old(page_table).owned().union(old(self).frames())),
            forall|v: usize| old(self).in_range(v as int) ==> #[trigger] mapping(old(mem)@, old(page_table).root(), v) is None,
            forall|v: usize, w: usize| old(self).in_range(v as int) && old(self).in_range(w as int) && v != w
                ==> !#[trigger] same_slot(v, w),
            old(self).kind() == MapType::Framed ==> forall|v: usize| old(self).in_range(v as int)
                ==> !#[trigger] old(self).frames_map().contains_key(v),
            old(alloc).num_free() >= frames_needed(l1_slots(old(mem)@, old(page_table).root()),
                l0_slots(old(mem)@, old(page_table).root()), old(self).range().start.0 as int, old(self).page_count(),
                old(self).frames_per_page()),
        ensures
            map_done(*old(self), *old(page_table), old(mem)@, *old(alloc), *final(self), *final(page_table), final(mem)@,
                *final(alloc)),
            final(self).range() == old(self).range(),
            final(self).kind() == old(self).kind(),
            final(self).perm() == old(self).perm(),
            old(self).kind() == MapType::Identical ==> final(self).frames_map() == old(self).frames_map(),
            final(self).frame_count() == old(self).frame_count() + if old(self).kind() == MapType::Framed {
                old(self).page_count()
            } else {
                0nat
            },
            old(self).kind() == MapType::Framed ==> {
                &&& forall|v: usize| !old(self).in_range(v as int) ==> (#[trigger] final(self).frames_map().contains_key(v)
                    == old(self).frames_map().contains_key(v)) && (old(self).frames_map().contains_key(v)
                    ==> final(self).frames_map()[v] == old(self).frames_map()[v])
                &&& forall|v: usize| #![trigger final(self).frames_map().contains_key(v)]
                    #![trigger final(self).frames_map()[v]] old(self).in_range(v as int) ==> {
                    &&& final(self).frames_map().contains_key(v)
                    &&& final(mem)@[final(self).frames_map()[v]] == zero_page()
                    &&& !final(page_table).owned().contains(final(self).frames_map()[v])
                    &&& old(alloc).free_set().contains(final(self).frames_map()[v])
                }
                &&& forall|v: usize, w: usize| old(self).in_range(v as int) && old(self).in_range(w as int) && v != w
                    ==> #[trigger] final(self).frames_map()[v] != #[trigger] final(self).frames_map()[w]
            },
            final(page_table).root() == old(page_table).root(),
            final(page_table).wf(final(mem)@),
            frame_source_ok(*final(alloc), final(mem)@, final(page_table).owned().union(final(self).frames())),
            handed_out(*old(alloc), *final(alloc), old(page_table).owned().union(old(self).frames()),
                final(page_table).owned().union(final(self).frames())),
            old(page_table).owned().subset_of(final(page_table).owned()),
            forall|p: usize| #[trigger] final(page_table).owned().contains(p) ==> old(page_table).owned().contains(p)
                || old(alloc).free_set().contains(p),
            final(alloc).num_free() + frames_needed(l1_slots(old(mem)@, old(page_table).root()),
                l0_slots(old(mem)@, old(page_table).root()), old(self).range().start.0 as int, old(self).page_count(),
                old(self).frames_per_page()) == old(alloc).num_free(),
            final(mem)@.dom() == old(mem)@.dom(),
            forall|p: usize| old(mem)@.contains_key(p) && !final(page_table).owned().union(final(self).frames()).contains(p)
                ==> #[trigger] final(mem)@[p] == old(mem)@[p],
            forall|p: usize| old(mem)@.contains_key(p) && old(page_table).owned().union(old(self).frames()).contains(p)
                && !final(page_table).owned().contains(p) ==> #[trigger] final(mem)@[p] == old(mem)@[p],
            forall|v: usize| old(self).in_range(v as int) ==> #[trigger] mapping(final(mem)@, final(page_table).root(), v)
                == Some(final(self).entry(v)),
            forall|v: usize| (forall|w: usize| old(self).in_range(w as int) ==> !same_slot(v, w))
                ==> #[trigger] mapping(final(mem)@, final(page_table).root(), v) == mapping(old(mem)@, old(page_table).root(), v),
            l1_slots(final(mem)@, final(page_table).root()) == l1_slots(old(mem)@, old(page_table).root()).union(
                range_l1(old(self).range().start.0 as int, old(self).page_count())),
            l0_slots(final(mem)@, final(page_table).root()) == l0_slots(old(mem)@, old(page_table).root()).union(
                range_l0(old(self).range().start.0 as int, old(self).page_count())),
    {
        let ghost mem0 = mem@;
        let ghost alloc0 = *alloc;
        let ghost owned_all0 = page_table.owned().union(self.frames());
        let ghost fm0 = self.frames_map();
        let ghost root = page_table.root();
        let ghost fpp = self.frames_per_page();
        let ghost lo = self.vpn_range.start.0 as int;
        let ghost total = frames_needed(l1_slots(mem0, root), l0_slots(mem0, root), lo, self.page_count(), fpp);
        let end = self.vpn_range.get_end();
        let mut vpn = self.vpn_range.get_start();
        proof {
            if self.kind() == MapType::Framed {
                lemma_framed_start(fm0, page_table.owned(), mem0, alloc0.free_set(), lo, end.0 as int);
            }
        }
        while vpn.0 < end.0
            invariant
                self.range() == old(self).range(),
                self.kind() == old(self).kind(),
                self.perm() == old(self).perm(),
                self.frames_per_page() == fpp,
                end == self.range().end,
                lo == self.range().start.0,
                lo <= vpn.0,
                vpn.0 <= end.0 || vpn.0 == lo,
                page_table.root() == root,
                page_table.wf(mem@),
                frame_source_ok(*alloc, mem@, page_table.owned().union(self.frames())),
                handed_out(alloc0, *alloc, owned_all0, page_table.owned().union(self.frames())),
                old(page_table).owned().subset_of(page_table.owned()),
                forall|p: usize| #[trigger] page_table.owned().contains(p) ==> old(page_table).owned().contains(p)
                    || alloc0.free_set().contains(p),
                alloc.free_set().subset_of(alloc0.free_set()),
                l1_slots(mem@, root) == l1_slots(mem0, root).union(range_l1(lo, (vpn.0 - lo) as nat)),
                l0_slots(mem@, root) == l0_slots(mem0, root).union(range_l0(lo, (vpn.0 - lo) as nat)),
                owned_all0 == old(page_table).owned().union(old(self).frames()),
                frame_source_ok(alloc0, mem0, owned_all0),
                total == frames_needed(l1_slots(mem0, root), l0_slots(mem0, root), lo, old(self).page_count(), fpp),
                total == (alloc0.num_free() - alloc.num_free()) + frames_needed(l1_slots(mem@, root), l0_slots(mem@, root),
                    vpn.0 as int, (if vpn.0 <= end.0 { (end.0 - vpn.0) as nat } else { 0nat }), fpp),
                alloc.num_free() >= frames_needed(l1_slots(mem@, root), l0_slots(mem@, root),
                    vpn.0 as int, (if vpn.0 <= end.0 { (end.0 - vpn.0) as nat } else { 0nat }), fpp),
                alloc.num_free() <= alloc0.num_free(),
                forall|v: usize| vpn.0 <= v < end.0 ==> #[trigger] mapping(mem@, root, v) is None,
                forall|v: usize, w: usize| self.in_range(v as int) && self.in_range(w as int) && v != w
                    ==> !#[trigger] same_slot(v, w),
                forall|v: usize| lo <= v < vpn.0 ==> #[trigger] mapping(mem@, root, v) == Some(self.entry(v)),
                forall|v: usize| (forall|w: usize| lo <= w < vpn.0 ==> !same_slot(v, w))
                    ==> #[trigger] mapping(mem@, root, v) == mapping(mem0, root, v),
                self.kind() == MapType::Identical ==> self.frames_map() == fm0,
                self.frame_count() == old(self).frame_count() + if fpp == 1 { (vpn.0 - lo) as nat } else { 0nat },
                fpp == 0 || fpp == 1,
                self.kind() == MapType::Framed ==> framed_progress(self.frames_map(), page_table.owned(), mem@,
                    alloc0.free_set(), alloc.free_set(), fm0, lo, vpn.0 as int, end.0 as int),
                mem@.dom() == mem0.dom(),
                forall|p: usize| mem0.contains_key(p) && !page_table.owned().union(self.frames()).contains(p)
                    ==> #[trigger] mem@[p] == mem0[p],
                forall|p: usize| mem0.contains_key(p) && owned_all0.contains(p) && !page_table.owned().contains(p)
                    ==> #[trigger] mem@[p] == mem0[p],
            decreases end.0 - vpn.0,
        {
            let ghost mem1 = mem@;
            let ghost alloc1 = *alloc;
            let ghost owned1 = page_table.owned().union(self.frames());
            let ghost pt_owned1 = page_table.owned();
            let ghost fm1 = self.frames_map();
            proof {
                lemma_missing_tables_slots(mem1, root, vpn.0);
                lemma_alloc_result_free(alloc1);
            }
            proof {
                if self.kind() == MapType::Framed {
                    assert(!self.frames_map().contains_key(vpn.0)) by {
                        reveal(framed_progress);
                    }
                    assert forall|q: usize| #[trigger] fm1.contains_key(q) implies owned1.contains(fm1[q]) by {
                        assert(self.frames().contains(fm1[q]));
                    }
                }
            }
            self.map_one(page_table, vpn, alloc, mem);
            proof {
                let a = vpn_index(vpn.0, 0) as int;
                let b = vpn_index(vpn.0, 1) as int;
                assert(l1_slots(mem@, root) =~= l1_slots(mem1, root).insert(a));
                assert(l0_slots(mem@, root) =~= l0_slots(mem1, root).insert((a, b)));
                lemma_range_slots_step(lo, vpn.0 as int);
                if self.kind() == MapType::Framed {
                    let p = self.frames_map()[vpn.0];
                    assert(alloc1.free_set().contains(p));
                    assert(!owned1.contains(p));
                    assert(!alloc.free_set().contains(p)) by {
                        assert(page_table.owned().union(self.frames()).contains(p)) by {
                            assert(self.frames_map().contains_key(vpn.0));
                        }
                    }
                    lemma_framed_step(fm1, self.frames_map(), pt_owned1, page_table.owned(), owned1, mem0, mem1, mem@,
                        alloc0.free_set(), alloc1.free_set(), alloc.free_set(), fm0, lo, vpn.0, end.0 as int);
                }
            }
            vpn.step();
        }
        proof {
            if self.kind() == MapType::Framed {
                lemma_framed_done(self.frames_map(), page_table.owned(), mem@, alloc0.free_set(), alloc.free_set(), fm0, lo,
                    vpn.0 as int, end.0 as int);
            }
        }
    }
}

/// The tables a walk lacks, counted by which root entries and entry pairs
/// already lead to tables.
proof fn lemma_missing_tables_slots(mem: Map<usize, Seq<u8>>, root: usize, v: usize)
    ensures
        missing_tables(mem, root, v) == (if l1_slots(mem, root).contains(vpn_index(v, 0) as int) { 0nat } else { 1nat })
            + (if l0_slots(mem, root).contains((vpn_index(v, 0) as int, vpn_index(v, 1) as int)) { 0nat } else { 1nat }),
{
    crate::address::lemma_indexes_compose(v);
}

impl MapArea {
    /// Unmaps virtual page `vpn` from `page_table`; a framed area gives the
    /// page's frame, if it has one, back to the allocator.
    pub fn unmap_one(&mut self, page_table: &mut PageTable, vpn: VirtPageNum, alloc: &mut StackFrameAllocator, mem: &mut PhysMem)
        requires
            old(page_table).wf(old(mem)@),
            mapping(old(mem)@, old(page_table).root(), vpn.0) is Some,
            old(self).kind() == MapType::Framed && old(self).frames_map().contains_key(vpn.0)
                ==> old(alloc).dealloc_ok(old(self).frames_map()[vpn.0]),
        ensures
            final(self).range() == old(self).range(),
            final(self).kind() == old(self).kind(),
            final(self).perm() == old(self).perm(),
            old(self).kind() == MapType::Framed ==> final(self).frames_map() == old(self).frames_map().remove(vpn.0),
            old(self).kind() == MapType::Identical ==> final(self).frames_map() == old(self).frames_map(),
            final(alloc).current() == old(alloc).current(),
            final(alloc).end() == old(alloc).end(),
            final(alloc).recycled() == if old(self).kind() == MapType::Framed && old(self).frames_map().contains_key(vpn.0) {
                old(alloc).recycled().push(old(self).frames_map()[vpn.0])
            } else {
                old(alloc).recycled()
            },
            *final(page_table) == *old(page_table),
            final(page_table).wf(final(mem)@),
            final(mem)@.dom() == old(mem)@.dom(),
            forall|p: usize| old(mem)@.contains_key(p) && !final(page_table).owned().contains(p)
                ==> #[trigger] final(mem)@[p] == old(mem)@[p],
            forall|v: usize| #[trigger] mapping(final(mem)@, final(page_table).root(), v) == if same_slot(v, vpn.0) {
                None
            } else {
                mapping(old(mem)@, old(page_table).root(), v)
            },
    {
        match self.map_type {
            MapType::Framed => {
                let removed = self.data_frames.remove(&vpn.0);
                proof {
                    assert(self.frames_map() =~= old(self).frames_map().remove(vpn.0));
                }
                match removed {
                    Some(frame) => {
                        dealloc_frame(alloc, frame.ppn);
                    },
                    None => {},
                }
            },
            _ => {},
        }
        page_table.unmap(mem, vpn);
    }
}

/// The frames a framed area with frame map `fm` gives back when its pages
/// `from .. to` are unmapped in increasing order.
pub open spec fn returned_frames(fm: Map<usize, usize>, from: int, to: int) -> Seq<usize>
    decreases to - from,
{
    if to <= from {
        Seq::empty()
    } else if fm.contains_key((to - 1) as usize) {
        returned_frames(fm, from, to - 1).push(fm[(to - 1) as usize])
    } else {
        returned_frames(fm, from, to - 1)
    }
}

impl MapArea {
    /// Whether unmapping the pages in increasing order gives each frame back
    /// to `alloc` without being refused.
    pub open spec fn unmap_dealloc_ok(&self, alloc: StackFrameAllocator) -> bool {
        self.kind() == MapType::Framed ==> forall|v: usize| self.in_range(v as int) && #[trigger] self.frames_map().contains_key(v)
            ==> self.frames_map()[v] < alloc.current() && !(alloc.recycled() + returned_frames(self.frames_map(),
                self.range().start.0 as int, v as int)).contains(self.frames_map()[v])
    }

    /// Unmaps every virtual page of the area from `page_table`, in increasing
    /// order, as `unmap_one` does.
    #[verifier::rlimit(100)]
    #[verifier::spinoff_prover]
    pub fn unmap(&mut self, page_table: &mut PageTable, alloc: &mut StackFrameAllocator, mem: &mut PhysMem)
        requires
            old(page_table).wf(old(mem)@),
            forall|v: usize| old(self).in_range(v as int) ==> #[trigger] mapping(old(mem)@, old(page_table).root(), v) is Some,
            forall|v: usize, w: usize| old(self).in_range(v as int) && old(self).in_range(w as int) && v != w
                ==> !#[trigger] same_slot(v, w),
            old(self).unmap_dealloc_ok(*old(alloc)),
        ensures
            unmap_done(*old(self), *old(page_table), old(mem)@, *old(alloc), *final(self), *final(page_table), final(mem)@,
                *final(alloc)),
            final(self).range() == old(self).range(),
            final(self).kind() == old(self).kind(),
            final(self).perm() == old(self).perm(),
            old(self).kind() == MapType::Framed ==> final(self).frames_map()
                == old(self).frames_map().remove_keys(Set::new(|v: usize| old(self).in_range(v as int))),
            old(self).kind() == MapType::Identical ==> final(self).frames_map() == old(self).frames_map(),
            final(alloc).current() == old(alloc).current(),
            final(alloc).end() == old(alloc).end(),
            final(alloc).recycled() == if old(self).kind() == MapType::Framed {
                old(alloc).recycled() + returned_frames(old(self).frames_map(), old(self).range().start.0 as int,
                    old(self).range().end.0 as int)
            } else {
                old(alloc).recycled()
            },
            *final(page_table) == *old(page_table),
            final(page_table).wf(final(mem)@),
            final(mem)@.dom() == old(mem)@.dom(),
            forall|p: usize| old(mem)@.contains_key(p) && !final(page_table).owned().contains(p)
                ==> #[trigger] final(mem)@[p] == old(mem)@[p],
            forall|v: usize| old(self).in_range(v as int) ==> #[trigger] mapping(final(mem)@, final(page_table).root(), v) is None,
            forall|v: usize| (forall|w: usize| old(self).in_range(w as int) ==> !same_slot(v, w))
                ==> #[trigger] mapping(final(mem)@, final(page_table).root(), v) == mapping(old(mem)@, old(page_table).root(), v),
    {
        let ghost mem0 = mem@;
        let ghost alloc0 = *alloc;
        let ghost fm0 = self.frames_map();
        let ghost root = page_table.root();
        let ghost lo = self.vpn_range.start.0 as int;
        let end = self.vpn_range.get_end();
        let mut vpn = self.vpn_range.get_start();
        while vpn.0 < end.0
            invariant
                self.range() == old(self).range(),
                self.kind() == old(self).kind(),
                self.perm() == old(self).perm(),
                end == self.range().end,
                lo == self.range().start.0,
                lo <= vpn.0,
                vpn.0 <= end.0 || vpn.0 == lo,
                *page_table == *old(page_table),
                page_table.root() == root,
                page_table.wf(mem@),
                fm0 == old(self).frames_map(),
                old(self).unmap_dealloc_ok(alloc0),
                alloc.current() == alloc0.current(),
                alloc.end() == alloc0.end(),
                alloc.recycled() == if self.kind() == MapType::Framed {
                    alloc0.recycled() + returned_frames(fm0, lo, vpn.0 as int)
                } else {
                    alloc0.recycled()
                },
                self.kind() == MapType::Framed ==> self.frames_map()
                    == fm0.remove_keys(Set::new(|v: usize| lo <= v < vpn.0)),
                self.kind() == MapType::Identical ==> self.frames_map() == fm0,
                forall|v: usize| vpn.0 <= v < end.0 ==> #[trigger] mapping(mem@, root, v) is Some,
                forall|v: usize, w: usize| self.in_range(v as int) && self.in_range(w as int) && v != w
                    ==> !#[trigger] same_slot(v, w),
                forall|v: usize| lo <= v < vpn.0 ==> #[trigger] mapping(mem@, root, v) is None,
                forall|v: usize| (forall|w: usize| lo <= w < vpn.0 ==> !same_slot(v, w))
                    ==> #[trigger] mapping(mem@, root, v) == mapping(mem0, root, v),
                mem@.dom() == mem0.dom(),
                forall|p: usize| mem0.contains_key(p) && !page_table.owned().contains(p) ==> #[trigger] mem@[p] == mem0[p],
            decreases end.0 - vpn.0,
        {
            let ghost mem1 = mem@;
            let ghost recycled1 = alloc.recycled();
            proof {
                if self.kind() == MapType::Framed && self.frames_map().contains_key(vpn.0) {
                    assert(fm0.contains_key(vpn.0) && self.frames_map()[vpn.0] == fm0[vpn.0]);
                    assert(old(self).in_range(vpn.0 as int));
                }
            }
            self.unmap_one(page_table, vpn, alloc, mem);
            proof {
                let next = vpn.0 + 1;
                if self.kind() == MapType::Framed {
                    assert(returned_frames(fm0, lo, next as int) == if fm0.contains_key(vpn.0) {
                        returned_frames(fm0, lo, vpn.0 as int).push(fm0[vpn.0])
                    } else {
                        returned_frames(fm0, lo, vpn.0 as int)
                    });
                    assert(self.frames_map() =~= fm0.remove_keys(Set::new(|v: usize| lo <= v < next)));
                    if fm0.contains_key(vpn.0) {
                        assert(alloc.recycled() =~= alloc0.recycled() + returned_frames(fm0, lo, next as int));
                    }
                }
            }
            vpn.step();
        }
        proof {
            if self.kind() == MapType::Framed {
                assert(self.frames_map() =~= fm0.remove_keys(Set::new(|v: usize| old(self).in_range(v as int))));
            }
        }
    }
}

/// What mapping area `a0` with table `pt0`, memory `m0` and allocator `al0`
/// gave: the area `a1`, table `pt1`, memory `m1` and allocator `al1`. The
/// area keeps its range and kind; its pages are mapped and other pages map
/// as before; the allocator only handed frames out, to the table or the
/// area; a framed area took a distinct free frame for each of its pages.
pub open spec fn map_done(a0: MapArea, pt0: PageTable, m0: Map<usize, Seq<u8>>, al0: StackFrameAllocator, a1: MapArea,
    pt1: PageTable, m1: Map<usize, Seq<u8>>, al1: StackFrameAllocator) -> bool {
    &&& a1.range() == a0.range()
    &&& a1.kind() == a0.kind()
    &&& pt1.root() == pt0.root()
    &&& pt1.wf(m1)
    &&& forall|v: usize| a0.in_range(v as int) ==> #[trigger] mapping(m1, pt1.root(), v) == Some(a1.entry(v))
    &&& forall|v: usize| (forall|w: usize| a0.in_range(w as int) ==> !same_slot(v, w))
        ==> #[trigger] mapping(m1, pt1.root(), v) == mapping(m0, pt0.root(), v)
    &&& frame_source_ok(al1, m1, pt1.owned().union(a1.frames()))
    &&& handed_out(al0, al1, pt0.owned().union(a0.frames()), pt1.owned().union(a1.frames()))
    &&& a0.kind() == MapType::Framed ==> {
        &&& forall|v: usize| #![trigger a1.frames_map()[v]] #![trigger a1.frames_map().contains_key(v)]
            a0.in_range(v as int) ==> a1.frames_map().contains_key(v) && al0.free_set().contains(a1.frames_map()[v])
        &&& forall|v: usize, w: usize| a0.in_range(v as int) && a0.in_range(w as int) && v != w
            ==> #[trigger] a1.frames_map()[v] != #[trigger] a1.frames_map()[w]
    }
}

/// What unmapping area `a1` with table `pt1`, memory `m1` and allocator
/// `al1` gave: no page of the area is mapped, other pages map as before; a
/// framed area dropped the frames of its pages and the allocator got them
/// back, in the order of the pages.
pub open spec fn unmap_done(a1: MapArea, pt1: PageTable, m1: Map<usize, Seq<u8>>, al1: StackFrameAllocator, a2: MapArea,
    pt2: PageTable, m2: Map<usize, Seq<u8>>, al2: StackFrameAllocator) -> bool {
    &&& a2.range() == a1.range()
    &&& a2.kind() == a1.kind()
    &&& pt2 == pt1
    &&& pt2.wf(m2)
    &&& forall|v: usize| a1.in_range(v as int) ==> #[trigger] mapping(m2, pt2.root(), v) is None
    &&& forall|v: usize| (forall|w: usize| a1.in_range(w as int) ==> !same_slot(v, w))
        ==> #[trigger] mapping(m2, pt2.root(), v) == mapping(m1, pt1.root(), v)
    &&& al2.current() == al1.current()
    &&& al2.end() == al1.end()
    &&& a1.kind() == MapType::Framed ==> {
        &&& a2.frames_map() == a1.frames_map().remove_keys(Set::new(|v: usize| a1.in_range(v as int)))
        &&& al2.recycled() == al1.recycled() + returned_frames(a1.frames_map(), a1.range().start.0 as int,
            a1.range().end.0 as int)
    }
}

/// The frames given back for pages `from .. to` are frames of pages among them.
proof fn lemma_returned_frames_from(fm: Map<usize, usize>, from: int, to: int, x: usize)
    requires
        0 <= from,
        to <= usize::MAX,
        returned_frames(fm, from, to).contains(x),
    ensures
        exists|u: usize| from <= u < to && #[trigger] fm.contains_key(u) && fm[u] == x,
    decreases to - from,
{
    if to > from {
        let r = returned_frames(fm, from, to - 1);
        let last = (to - 1) as usize;
        if fm.contains_key(last) {
            let rp = r.push(fm[last]);
            assert(returned_frames(fm, from, to) == rp);
            let i = choose|i: int| 0 <= i < rp.len() && #[trigger] rp[i] == x;
            if i < r.len() {
                assert(r[i] == x);
                lemma_returned_frames_from(fm, from, to - 1, x);
            } else {
                assert(fm[last] == x);
                assert(from <= last < to);
            }
        } else {
            lemma_returned_frames_from(fm, from, to - 1, x);
        }
    }
}

/// The frame of each page among `from .. to` is given back.
proof fn lemma_returned_frames_has(fm: Map<usize, usize>, from: int, to: int, u: usize)
    requires
        from <= u < to,
        fm.contains_key(u),
    ensures
        returned_frames(fm, from, to).contains(fm[u]),
    decreases to - from,
{
    let r = returned_frames(fm, from, to - 1);
    if u == to - 1 {
        assert(returned_frames(fm, from, to) == r.push(fm[u]));
        assert(r.push(fm[u])[r.len() as int] == fm[u]);
    } else {
        lemma_returned_frames_has(fm, from, to - 1, u);
        let i = choose|i: int| 0 <= i < r.len() && r[i] == fm[u];
        if fm.contains_key((to - 1) as usize) {
            assert(r.push(fm[(to - 1) as usize])[i] == fm[u]);
        }
    }
}

/// Once `map` has run, `unmap` may run: the table is well formed, every
/// page of the area is mapped, its pages fall in distinct slots, and each
/// frame `unmap` would give back is one the allocator handed out and has
/// not taken back.
pub proof fn lemma_map_allows_unmap(a0: MapArea, pt0: PageTable, m0: Map<usize, Seq<u8>>, al0: StackFrameAllocator,
    a1: MapArea, pt1: PageTable, m1: Map<usize, Seq<u8>>, al1: StackFrameAllocator)
    requires
        pt0.wf(m0),
        frame_source_ok(al0, m0, pt0.owned().union(a0.frames())),
        forall|v: usize, w: usize| a0.in_range(v as int) && a0.in_range(w as int) && v != w
            ==> !#[trigger] same_slot(v, w),
        map_done(a0, pt0, m0, al0, a1, pt1, m1, al1),
    ensures
        pt1.wf(m1),
        forall|v: usize| a1.in_range(v as int) ==> #[trigger] mapping(m1, pt1.root(), v) is Some,
        forall|v: usize, w: usize| a1.in_range(v as int) && a1.in_range(w as int) && v != w
            ==> !#[trigger] same_slot(v, w),
        a1.unmap_dealloc_ok(al1),
{
    let fm = a1.frames_map();
    let lo = a1.range().start.0 as int;
    let hi = a1.range().end.0 as int;
    assert forall|v: usize| a1.in_range(v as int) implies #[trigger] mapping(m1, pt1.root(), v) is Some by {
        assert(mapping(m1, pt1.root(), v) == Some(a1.entry(v)));
    }
    if a1.kind() == MapType::Framed {
        assert forall|v: usize| a1.in_range(v as int) && #[trigger] fm.contains_key(v)
            implies fm[v] < al1.current() && !(al1.recycled() + returned_frames(fm, lo, v as int)).contains(fm[v]) by {
            let f = fm[v];
            assert(a1.frames().contains(f));
            assert(pt1.owned().union(a1.frames()).contains(f));
            assert(!al1.free_set().contains(f));
            assert(al0.free_set().contains(f));
            if al0.recycled().contains(f) {
                let i = choose|i: int| 0 <= i < al0.recycled().len() && al0.recycled()[i] == f;
                assert(al0.recycled()[i] < al0.current());
            }
            if (al1.recycled() + returned_frames(fm, lo, v as int)).contains(f) {
                let c = al1.recycled() + returned_frames(fm, lo, v as int);
                let i = choose|i: int| 0 <= i < c.len() && c[i] == f;
                if i < al1.recycled().len() {
                    assert(al1.recycled()[i] == f);
                    assert(al1.recycled().contains(f));
                } else {
                    let r = returned_frames(fm, lo, v as int);
                    assert(r[i - al1.recycled().len()] == f);
                    assert(r.contains(f));
                    lemma_returned_frames_from(fm, lo, v as int, f);
                    let u = choose|u: usize| lo <= u < v && #[trigger] fm.contains_key(u) && fm[u] == f;
                    assert(fm[u] != fm[v]);
                }
            }
        }
    }
}

/// Mapping an area and then unmapping it undoes the mapping: `unmap` may run
/// after `map` (see `lemma_map_allows_unmap`), and after it no page of the
/// area is mapped, every page outside the area's table slots maps as before
/// the `map`, and a framed area holds no frame of its pages while the
/// allocator may hand each of them out again.
pub proof fn lemma_map_then_unmap(a0: MapArea, pt0: PageTable, m0: Map<usize, Seq<u8>>, al0: StackFrameAllocator,
    a1: MapArea, pt1: PageTable, m1: Map<usize, Seq<u8>>, al1: StackFrameAllocator,
    a2: MapArea, pt2: PageTable, m2: Map<usize, Seq<u8>>, al2: StackFrameAllocator)
    requires
        pt0.wf(m0),
        frame_source_ok(al0, m0, pt0.owned().union(a0.frames())),
        forall|v: usize, w: usize| a0.in_range(v as int) && a0.in_range(w as int) && v != w
            ==> !#[trigger] same_slot(v, w),
        map_done(a0, pt0, m0, al0, a1, pt1, m1, al1),
        unmap_done(a1, pt1, m1, al1, a2, pt2, m2, al2),
    ensures
        forall|v: usize| a0.in_range(v as int) ==> #[trigger] mapping(m2, pt2.root(), v) is None,
        forall|v: usize| (forall|w: usize| a0.in_range(w as int) ==> !same_slot(v, w))
            ==> #[trigger] mapping(m2, pt2.root(), v) == mapping(m0, pt0.root(), v),
        a0.kind() == MapType::Framed ==> forall|v: usize| #![trigger a1.frames_map()[v]] a0.in_range(v as int) ==> {
            &&& !a2.frames_map().contains_key(v)
            &&& al2.free_set().contains(a1.frames_map()[v])
        },
{
    lemma_map_allows_unmap(a0, pt0, m0, al0, a1, pt1, m1, al1);
    let fm = a1.frames_map();
    let lo = a1.range().start.0 as int;
    let hi = a1.range().end.0 as int;
    if a1.kind() == MapType::Framed {
        assert forall|v: usize| #![trigger a1.frames_map()[v]] a0.in_range(v as int) implies {
            &&& !a2.frames_map().contains_key(v)
            &&& al2.free_set().contains(a1.frames_map()[v])
        } by {
            assert(fm.contains_key(v));
            lemma_returned_frames_has(fm, lo, hi, v);
            let r = returned_frames(fm, lo, hi);
            let i = choose|i: int| 0 <= i < r.len() && r[i] == fm[v];
            assert((al1.recycled() + r)[al1.recycled().len() + i] == fm[v]);
            assert(al2.recycled().contains(fm[v]));
        }
    }
    assert forall|v: usize| (forall|w: usize| a0.in_range(w as int) ==> !same_slot(v, w))
        implies #[trigger] mapping(m2, pt2.root(), v) == mapping(m0, pt0.root(), v) by {
        assert(mapping(m2, pt2.root(), v) == mapping(m1, pt1.root(), v));
    }
}

/// The frame the walk for `v` reaches.
pub open spec fn target_frame(mem: Map<usize, Seq<u8>>, root: usize, v: usize) -> usize {
    walk(mem, root, v)->0.spec_ppn()
}

/// Page `k` of `data`, padded with zeros past the end of the data.
pub open spec fn data_page(data: Seq<u8>, k: int) -> Seq<u8> {
    fill_page(zero_page(), data, k)
}

/// The page `frame` with its first bytes replaced by what page `k` of
/// `data` holds: all of it when the data covers the page, its first part
/// when the data ends inside the page, none of it when the data ends before.
pub open spec fn fill_page(frame: Seq<u8>, data: Seq<u8>, k: int) -> Seq<u8> {
    Seq::new(4096, |i: int| if k * 4096 + i < data.len() { data[k * 4096 + i] } else { frame[i] })
}

impl MapArea {
    /// Number of frames the area owns.
    pub closed spec fn frame_count(&self) -> nat {
        self.data_frames@.len()
    }

    /// Copies `data` into the area page by page: the bytes of page `k` of the
    /// data go to the start of the frame the `k`-th virtual page of the area
    /// is mapped to, and the rest of each frame is kept. The area must be
    /// framed and the data no longer than its frames.
    pub fn copy_data(&mut self, page_table: &mut PageTable, data: &[u8], mem: &mut PhysMem)
        requires
            old(self).kind() == MapType::Framed,
            old(self).frame_count() * 4096 <= usize::MAX,
            old(self).page_count() * 4096 <= usize::MAX,
            data@.len() <= old(self).frame_count() * 4096,
            old(page_table).wf(old(mem)@),
            forall|v: usize| old(self).in_range(v as int) ==> {
                &&& #[trigger] walk(old(mem)@, old(page_table).root(), v) is Some
                &&& old(mem)@.contains_key(target_frame(old(mem)@, old(page_table).root(), v))
                &&& !old(page_table).owned().contains(target_frame(old(mem)@, old(page_table).root(), v))
            },
        ensures
            *final(self) == *old(self),
            *final(page_table) == *old(page_table),
            final(page_table).wf(final(mem)@),
            final(mem)@.dom() == old(mem)@.dom(),
            forall|v: usize| #[trigger] walk(final(mem)@, final(page_table).root(), v) == walk(old(mem)@, old(page_table).root(), v),
            forall|v: usize| old(self).in_range(v as int) && (forall|u: usize| old(self).in_range(u as int) && u != v
                ==> target_frame(old(mem)@, old(page_table).root(), u) != target_frame(old(mem)@, old(page_table).root(), v))
                ==> #[trigger] final(mem)@[target_frame(old(mem)@, old(page_table).root(), v)]
                == fill_page(old(mem)@[target_frame(old(mem)@, old(page_table).root(), v)], data@, v - old(self).range().start.0),
            forall|p: usize| old(mem)@.contains_key(p) && (forall|v: usize| old(self).in_range(v as int)
                ==> target_frame(old(mem)@, old(page_table).root(), v) != p) ==> #[trigger] final(mem)@[p] == old(mem)@[p],
    {
        let ghost mem0 = mem@;
        let ghost root = page_table.root();
        let ghost lo = self.vpn_range.start.0 as int;
        assert(self.data_frames@.len() == self.data_frames.len());
        let end = self.vpn_range.get_end();
        let mut vpn = self.vpn_range.get_start();
        let mut index: usize = 0;
        let dlen = data.len();
        while vpn.0 < end.0
            invariant
                dlen == data@.len(),
                *self == *old(self),
                *page_table == *old(page_table),
                page_table.root() == root,
                end == self.range().end,
                lo == self.range().start.0,
                lo <= vpn.0,
                vpn.0 <= end.0 || vpn.0 == lo,
                index == vpn.0 - lo,
                self.page_count() * 4096 <= usize::MAX,
                page_table.wf(mem@),
                mem@.dom() == mem0.dom(),
                frames_ok(mem@),
                forall|v: usize| #[trigger] walk(mem@, root, v) == walk(mem0, root, v),
                forall|v: usize| self.in_range(v as int) ==> {
                    &&& #[trigger] walk(mem0, root, v) is Some
                    &&& mem0.contains_key(target_frame(mem0, root, v))
                    &&& !page_table.owned().contains(target_frame(mem0, root, v))
                },
                forall|v: usize| lo <= v < vpn.0 && (forall|u: usize| lo <= u < vpn.0 && u != v ==> target_frame(mem0, root, u)
                    != target_frame(mem0, root, v)) ==> #[trigger] mem@[target_frame(mem0, root, v)]
                    == fill_page(mem0[target_frame(mem0, root, v)], data@, v - lo),
                forall|p: usize| mem0.contains_key(p) && (forall|v: usize| lo <= v < vpn.0 ==> target_frame(mem0, root, v) != p)
                    ==> #[trigger] mem@[p] == mem0[p],
            decreases end.0 - vpn.0,
        {
            let ghost mem1 = mem@;
            let ghost cur = vpn.0;
            assert(self.in_range(vpn.0 as int));
            assert(index * 4096 + 4096 <= self.page_count() * 4096) by (nonlinear_arith)
                requires
                    index == vpn.0 - lo,
                    vpn.0 < end.0,
                    self.page_count() == end.0 - lo;
            let src_start = index * PAGE_SIZE;
            let ppn = page_table.translate(mem, vpn).unwrap().ppn();
            let ghost t = target_frame(mem0, root, cur);
            proof {
                assert(ppn.0 == t);
            }
            if src_start < dlen {
                let count = if dlen - src_start < PAGE_SIZE { dlen - src_start } else { PAGE_SIZE };
                mem.write_bytes(ppn.0, data, src_start, count);
                proof {
                    assert(mem@[t] =~= fill_page(mem1[t], data@, cur - lo));
                }
            } else {
                proof {
                    assert(mem1[t] =~= fill_page(mem1[t], data@, cur - lo));
                }
            }
            proof {
                let m = mem@;
                assert(m.dom() =~= mem1.dom());
                assert forall|p: usize| p != t implies #[trigger] m[p] == mem1[p] by {}
                crate::page_table::lemma_tree_frame(mem1, m, root, page_table.owned());
                assert forall|v: usize| lo <= v < cur + 1 && (forall|u: usize| lo <= u < cur + 1 && u != v
                    ==> target_frame(mem0, root, u) != target_frame(mem0, root, v)) implies #[trigger] m[target_frame(mem0, root, v)]
                    == fill_page(mem0[target_frame(mem0, root, v)], data@, v - lo) by {
                    if v < cur {
                        assert(target_frame(mem0, root, cur) != target_frame(mem0, root, v));
                    } else {
                        assert forall|u: usize| lo <= u < cur implies target_frame(mem0, root, u) != t by {
                            assert(u != cur);
                        }
                        assert(mem1[t] == mem0[t]);
                    }
                }
                assert forall|p: usize| mem0.contains_key(p) && (forall|v: usize| lo <= v < cur + 1 ==> target_frame(mem0, root, v) != p)
                    implies #[trigger] m[p] == mem0[p] by {
                    assert(target_frame(mem0, root, cur) != p);
                }
            }
            index = index + 1;
            vpn.step();
        }
    }
}

/// Number of pages in `start .. end` (zero when `end <= start`).
pub open spec fn span(start: usize, end: usize) -> nat {
    if start <= end { (end - start) as nat } else { 0 }
}

/// The frames owned by any of `areas`.
pub open spec fn areas_frames(areas: Seq<MapArea>) -> Set<usize> {
    Set::new(|p: usize| exists|i: int| 0 <= i < areas.len() && #[trigger] areas[i].frames().contains(p))
}

/// Adding an area adds its frames.
proof fn lemma_areas_frames_push(areas: Seq<MapArea>, a: MapArea)
    ensures
        areas_frames(areas.push(a)) == areas_frames(areas).union(a.frames()),
{
    let l = areas.push(a);
    assert forall|p: usize| areas_frames(l).contains(p) implies areas_frames(areas).union(a.frames()).contains(p) by {
        let i = choose|i: int| 0 <= i < l.len() && #[trigger] l[i].frames().contains(p);
        if i < areas.len() {
            assert(areas[i].frames().contains(p));
        }
    }
    assert forall|p: usize| areas_frames(areas).union(a.frames()).contains(p) implies areas_frames(l).contains(p) by {
        if areas_frames(areas).contains(p) {
            let i = choose|i: int| 0 <= i < areas.len() && #[trigger] areas[i].frames().contains(p);
            assert(l[i].frames().contains(p));
        } else {
            assert(l[areas.len() as int].frames().contains(p));
        }
    }
    assert(areas_frames(l) =~= areas_frames(areas).union(a.frames()));
}

/// An address space: a page table and the areas mapped in it.
pub struct MemorySet {
    page_table: PageTable,
    areas: Vec<MapArea>,
}

impl MemorySet {
    /// The page table.
    pub closed spec fn pt(&self) -> PageTable {
        self.page_table
    }

    /// The areas, in the order they were added.
    pub closed spec fn areas(&self) -> Seq<MapArea> {
        self.areas@
    }

    /// Page number of the root table.
    pub open spec fn root(&self) -> usize {
        self.pt().root()
    }

    /// The frames the address space owns: its table frames and its areas'
    /// frames.
    pub open spec fn owned_all(&self) -> Set<usize> {
        self.pt().owned().union(areas_frames(self.areas()))
    }

    /// Every page of every area is mapped as its area says.
    pub open spec fn areas_mapped(&self, mem: Map<usize, Seq<u8>>) -> bool {
        forall|i: int, v: usize| 0 <= i < self.areas().len() && self.areas()[i].in_range(v as int)
            ==> #[trigger] mapping(mem, self.root(), v) == Some(#[trigger] self.areas()[i].entry(v))
    }

    /// The address space is well formed in `mem` with frames coming from
    /// `alloc`: its tables form a tree, the allocator hands out no frame it
    /// owns, its areas' frames are part of memory and no table frames, and
    /// every area is mapped.
    pub open spec fn wf(&self, mem: Map<usize, Seq<u8>>, alloc: StackFrameAllocator) -> bool {
        &&& self.pt().wf(mem)
        &&& frame_source_ok(alloc, mem, self.owned_all())
        &&& forall|i: int, p: usize| 0 <= i < self.areas().len() && #[trigger] self.areas()[i].frames().contains(p)
            ==> mem.contains_key(p) && !self.pt().owned().contains(p)
        &&& self.areas_mapped(mem)
    }

    /// What `push` needs of an area: its pages are unmapped and fall in
    /// distinct slots, a framed area has no frame for them yet, and its own
    /// frames are neither free nor owned by the address space.
    pub open spec fn can_push(&self, area: MapArea, mem: Map<usize, Seq<u8>>, alloc: StackFrameAllocator) -> bool {
        &&& forall|v: usize| area.in_range(v as int) ==> #[trigger] mapping(mem, self.root(), v) is None
        &&& forall|v: usize, w: usize| area.in_range(v as int) && area.in_range(w as int) && v != w ==> !#[trigger] same_slot(v, w)
        &&& area.kind() == MapType::Framed ==> forall|v: usize| area.in_range(v as int) ==> !#[trigger] area.frames_map().contains_key(v)
        &&& forall|p: usize| #[trigger] area.frames().contains(p) ==> !alloc.free_set().contains(p) && !self.owned_all().contains(p)
            && mem.contains_key(p)
        &&& alloc.num_free() >= frames_needed(l1_slots(mem, self.root()), l0_slots(mem, self.root()),
            area.range().start.0 as int, area.page_count(), area.frames_per_page())
    }

    /// The `satp` value of the address space's page table.
    pub fn token(&self) -> (t: u64)
        ensures
            t == (8u64 << 60u64) | (self.root() as u64),
    {
        self.page_table.token()
    }

    /// Whether `free` frames cover what mapping the `n` pages from `start`
    /// on, one frame each, takes with the tables the address space already
    /// has.
    pub fn frames_fit(&self, mem: &PhysMem, start: usize, n: usize, free: usize) -> (b: bool)
        requires
            self.pt().wf(mem@),
            start + n <= usize::MAX,
        ensures
            b == (free >= frames_needed(l1_slots(mem@, self.root()), l0_slots(mem@, self.root()), start as int, n as nat, 1)),
    {
        self.page_table.frames_fit(mem, start, n, free)
    }

    /// The leaf entry for `vpn` in the address space's page table.
    pub fn translate(&self, mem: &PhysMem, vpn: VirtPageNum) -> (r: Option<PageTableEntry>)
        requires
            self.pt().wf(mem@),
        ensures
            r == walk(mem@, self.root(), vpn.0),
    {
        proof {
            crate::address::lemma_indexes_compose(vpn.0);
        }
        self.page_table.translate(mem, vpn)
    }
}

/// Progress of mapping a framed area whose frame map was `fm0`: pages
/// `cur .. end` have no frame yet, pages outside `lo .. cur` keep theirs, and
/// each page of `lo .. cur` has a zeroed frame of its own, taken from `free0`,
/// no longer free and no table frame.
#[verifier::opaque]
spec fn framed_progress(
    fm: Map<usize, usize>,
    pt_owned: Set<usize>,
    mem: Map<usize, Seq<u8>>,
    free0: Set<usize>,
    free: Set<usize>,
    fm0: Map<usize, usize>,
    lo: int,
    cur: int,
    end: int,
) -> bool {
    &&& forall|v: usize| cur <= v < end ==> !#[trigger] fm.contains_key(v)
    &&& forall|v: usize| !(lo <= v < cur) ==> (#[trigger] fm.contains_key(v) == fm0.contains_key(v)) && (fm0.contains_key(v)
        ==> fm[v] == fm0[v])
    &&& forall|v: usize| lo <= v < cur ==> {
        &&& #[trigger] fm.contains_key(v)
        &&& mem[fm[v]] == zero_page()
        &&& !pt_owned.contains(fm[v])
        &&& free0.contains(fm[v])
        &&& !free.contains(fm[v])
    }
    &&& forall|v: usize, w: usize| lo <= v < cur && lo <= w < cur && v != w ==> #[trigger] fm[v] != #[trigger] fm[w]
}

proof fn lemma_framed_start(fm0: Map<usize, usize>, pt_owned: Set<usize>, mem: Map<usize, Seq<u8>>, free0: Set<usize>, lo: int, end: int)
    requires
        forall|v: usize| lo <= v < end ==> !#[trigger] fm0.contains_key(v),
    ensures
        framed_progress(fm0, pt_owned, mem, free0, free0, fm0, lo, lo, end),
{
    reveal(framed_progress);
}

proof fn lemma_framed_done(
    fm: Map<usize, usize>,
    pt_owned: Set<usize>,
    mem: Map<usize, Seq<u8>>,
    free0: Set<usize>,
    free: Set<usize>,
    fm0: Map<usize, usize>,
    lo: int,
    cur: int,
    end: int,
)
    requires
        framed_progress(fm, pt_owned, mem, free0, free, fm0, lo, cur, end),
        lo <= cur,
        cur >= end,
        cur == lo || cur == end,
    ensures
        forall|v: usize| !(lo <= v < end) ==> (#[trigger] fm.contains_key(v) == fm0.contains_key(v)) && (fm0.contains_key(v)
            ==> fm[v] == fm0[v]),
        forall|v: usize| #![trigger fm.contains_key(v)] #![trigger fm[v]] lo <= v < end ==> {
            &&& fm.contains_key(v)
            &&& mem[fm[v]] == zero_page()
            &&& !pt_owned.contains(fm[v])
            &&& free0.contains(fm[v])
        },
        forall|v: usize, w: usize| lo <= v < end && lo <= w < end && v != w ==> #[trigger] fm[v] != #[trigger] fm[w],
{
    reveal(framed_progress);
    assert forall|v: usize| lo <= v < end implies {
        &&& #[trigger] fm.contains_key(v)
        &&& mem[fm[v]] == zero_page()
        &&& !pt_owned.contains(fm[v])
        &&& free0.contains(fm[v])
    } by {
        assert(lo <= v < cur);
        assert(fm.contains_key(v));
    }
}

proof fn lemma_framed_step(
    fm1: Map<usize, usize>,
    fm2: Map<usize, usize>,
    pt_owned1: Set<usize>,
    pt_owned2: Set<usize>,
    owned1: Set<usize>,
    mem0: Map<usize, Seq<u8>>,
    mem1: Map<usize, Seq<u8>>,
    mem2: Map<usize, Seq<u8>>,
    free0: Set<usize>,
    free1: Set<usize>,
    free2: Set<usize>,
    fm0: Map<usize, usize>,
    lo: int,
    cur: usize,
    end: int,
)
    requires
        framed_progress(fm1, pt_owned1, mem1, free0, free1, fm0, lo, cur as int, end),
        lo <= cur < end,
        fm2 == fm1.insert(cur, fm2[cur]),
        free1.contains(fm2[cur]),
        !free2.contains(fm2[cur]),
        free2.subset_of(free1),
        free1.subset_of(free0),
        mem2[fm2[cur]] == zero_page(),
        !pt_owned2.contains(fm2[cur]),
        forall|q: usize| #[trigger] pt_owned2.contains(q) ==> pt_owned1.contains(q) || free1.contains(q),
        forall|q: usize| #[trigger] fm1.contains_key(q) ==> owned1.contains(fm1[q]),
        forall|q: usize| mem1.contains_key(q) && owned1.contains(q) && !pt_owned2.contains(q) ==> #[trigger] mem2[q] == mem1[q],
        mem1.dom() == mem0.dom(),
        forall|q: usize| #[trigger] free0.contains(q) ==> mem0.contains_key(q),
    ensures
        framed_progress(fm2, pt_owned2, mem2, free0, free2, fm0, lo, cur + 1, end),
{
    reveal(framed_progress);
    let p = fm2[cur];
    assert forall|v: usize| lo <= v < cur + 1 implies {
        &&& #[trigger] fm2.contains_key(v)
        &&& mem2[fm2[v]] == zero_page()
        &&& !pt_owned2.contains(fm2[v])
        &&& free0.contains(fm2[v])
        &&& !free2.contains(fm2[v])
    } by {
        if v != cur {
            let q = fm1[v];
            assert(fm1.contains_key(v));
            assert(fm2[v] == q);
            assert(mem0.contains_key(q));
            assert(!free1.contains(q));
            assert(!pt_owned2.contains(q));
            assert(owned1.contains(q));
        }
    }
    assert forall|v: usize, w: usize| lo <= v < cur + 1 && lo <= w < cur + 1 && v != w implies #[trigger] fm2[v] != #[trigger] fm2[w] by {
        if v == cur {
            assert(fm1.contains_key(w));
            assert(fm2[w] == fm1[w]);
            assert(!free1.contains(fm1[w]));
        } else if w == cur {
            assert(fm1.contains_key(v));
            assert(fm2[v] == fm1[v]);
            assert(!free1.contains(fm1[v]));
        } else {
            assert(fm2[v] == fm1[v]);
            assert(fm2[w] == fm1[w]);
        }
    }
}

impl MemorySet {
    /// Maps `map_area` in the address space, copies `data` into its frames
    /// when given (each page holds its part of the data, then zeros), and
    /// adds the area.
    #[verifier::rlimit(100)]
    #[verifier::spinoff_prover]
    pub fn push(&mut self, map_area: MapArea, data: Option<&[u8]>, alloc: &mut StackFrameAllocator, mem: &mut PhysMem)
        requires
            old(self).wf(old(mem)@, *old(alloc)),
            old(self).can_push(map_area, old(mem)@, *old(alloc)),
            data matches Some(d) ==> {
                &&& map_area.kind() == MapType::Framed
                &&& (map_area.frame_count() + map_area.page_count()) * 4096 <= usize::MAX
                &&& d@.len() <= (map_area.frame_count() + map_area.page_count()) * 4096
            },
        ensures
            final(self).root() == old(self).root(),
            final(self).wf(final(mem)@, *final(alloc)),
            final(self).areas().len() == old(self).areas().len() + 1,
            final(self).areas().drop_last() == old(self).areas(),
            final(self).areas().last().range() == map_area.range(),
            final(self).areas().last().kind() == map_area.kind(),
            final(self).areas().last().perm() == map_area.perm(),
            map_area.kind() == MapType::Identical ==> final(self).areas().last().frames_map() == map_area.frames_map(),
            map_area.kind() == MapType::Framed ==> {
                &&& forall|v: usize| !map_area.in_range(v as int) ==> (#[trigger] final(self).areas().last().frames_map().contains_key(v)
                    == map_area.frames_map().contains_key(v)) && (map_area.frames_map().contains_key(v)
                    ==> final(self).areas().last().frames_map()[v] == map_area.frames_map()[v])
                &&& forall|v: usize| #![trigger final(self).areas().last().frames_map()[v]]
                    #![trigger final(self).areas().last().frames_map().contains_key(v)] map_area.in_range(v as int) ==> {
                    &&& final(self).areas().last().frames_map().contains_key(v)
                    &&& old(alloc).free_set().contains(final(self).areas().last().frames_map()[v])
                    &&& final(mem)@[final(self).areas().last().frames_map()[v]] == match data {
                        Some(d) => data_page(d@, v - map_area.range().start.0),
                        None => zero_page(),
                    }
                }
            },
            forall|v: usize| (forall|w: usize| map_area.in_range(w as int) ==> !same_slot(v, w))
                ==> #[trigger] mapping(final(mem)@, final(self).root(), v) == mapping(old(mem)@, old(self).root(), v),
            handed_out(*old(alloc), *final(alloc), old(self).owned_all().union(map_area.frames()), final(self).owned_all()),
            final(alloc).num_free() + frames_needed(l1_slots(old(mem)@, old(self).root()), l0_slots(old(mem)@, old(self).root()),
                map_area.range().start.0 as int, map_area.page_count(), map_area.frames_per_page()) == old(alloc).num_free(),
            final(mem)@.dom() == old(mem)@.dom(),
            forall|p: usize| old(mem)@.contains_key(p) && !final(self).pt().owned().contains(p) && !old(alloc).free_set().contains(p)
                ==> #[trigger] final(mem)@[p] == old(mem)@[p],
            l1_slots(final(mem)@, final(self).root()) == l1_slots(old(mem)@, old(self).root()).union(
                range_l1(map_area.range().start.0 as int, map_area.page_count())),
            l0_slots(final(mem)@, final(self).root()) == l0_slots(old(mem)@, old(self).root()).union(
                range_l0(map_area.range().start.0 as int, map_area.page_count())),
    {
        let ghost mem0 = mem@;
        let ghost alloc0 = *alloc;
        let ghost root = self.root();
        let ghost pt0 = self.page_table;
        let ghost areas0 = self.areas@;
        let ghost owned_all0 = self.owned_all();
        let mut map_area = map_area;
        let ghost area0 = map_area;
        proof {
            assert forall|p: usize| #[trigger] alloc0.free_set().contains(p) implies mem0.contains_key(p)
                && !pt0.owned().union(area0.frames()).contains(p) by {
                assert(!owned_all0.contains(p));
            }
        }
        map_area.map(&mut self.page_table, alloc, mem);
        let ghost mem1 = mem@;
        proof {
            if map_area.kind() == MapType::Framed {
                assert forall|v: usize| map_area.in_range(v as int) implies {
                    &&& #[trigger] walk(mem1, root, v) is Some
                    &&& mem1.contains_key(target_frame(mem1, root, v))
                    &&& !self.page_table.owned().contains(target_frame(mem1, root, v))
                    &&& target_frame(mem1, root, v) == map_area.frames_map()[v]
                } by {
                    assert(mapping(mem1, root, v) == Some(map_area.entry(v)));
                    let f = map_area.frames_map()[v];
                    assert(map_area.frames_map().contains_key(v));
                    assert(alloc0.free_set().contains(f));
                    assert(mem0.contains_key(f));
                    crate::page_table::lemma_pte_fields(f, map_area.perm() | 1);
                }
            }
        }
        match data {
            Some(d) => {
                map_area.copy_data(&mut self.page_table, d, mem);
            },
            None => {},
        }
        self.areas.push(map_area);
        proof {
            let pt1 = self.page_table;
            let a1 = map_area;
            let m2 = mem@;
            let free0 = alloc0.free_set();
            let free1 = alloc.free_set();
            lemma_areas_frames_push(areas0, a1);
            assert(self.areas@ == areas0.push(a1));
            assert(self.owned_all() == pt1.owned().union(areas_frames(areas0)).union(a1.frames())) by {
                assert(self.owned_all() =~= pt1.owned().union(areas_frames(areas0)).union(a1.frames()));
            }
            assert(pt1.wf(m2));
            assert(m2.dom() == mem0.dom());
            // the address space's frames and the allocator's free frames stay apart
            assert forall|p: usize| #[trigger] free1.contains(p) implies m2.contains_key(p) && !self.owned_all().contains(p) by {
                assert(free0.contains(p));
                assert(!owned_all0.contains(p));
                assert(!areas_frames(areas0).contains(p));
            }
            assert(frame_source_ok(*alloc, m2, self.owned_all()));
            // every area's frames are part of memory and no table frames
            assert forall|i: int, p: usize| 0 <= i < self.areas().len() && #[trigger] self.areas()[i].frames().contains(p)
                implies m2.contains_key(p) && !pt1.owned().contains(p) by {
                if i < areas0.len() {
                    assert(self.areas()[i] == areas0[i]);
                    assert(areas_frames(areas0).contains(p));
                    assert(owned_all0.contains(p));
                    assert(!free0.contains(p));
                    assert(!pt0.owned().contains(p));
                } else {
                    assert(self.areas()[i] == a1);
                    if area0.frames().contains(p) {
                        assert(!free0.contains(p));
                        assert(!owned_all0.contains(p));
                    } else {
                        let v = choose|v: usize| a1.frames_map().contains_key(v) && a1.frames_map()[v] == p;
                        if area0.kind() == MapType::Framed && area0.in_range(v as int) {
                        } else {
                            assert(area0.frames_map().contains_key(v));
                            assert(area0.frames().contains(p));
                        }
                    }
                }
            }
            // every area stays mapped
            assert forall|i: int, v: usize| 0 <= i < self.areas().len() && self.areas()[i].in_range(v as int)
                implies #[trigger] mapping(m2, self.root(), v) == Some(#[trigger] self.areas()[i].entry(v)) by {
                if i < areas0.len() {
                    assert(self.areas()[i] == areas0[i]);
                    assert(mapping(mem0, root, v) == Some(areas0[i].entry(v)));
                    assert forall|w: usize| area0.in_range(w as int) implies !same_slot(v, w) by {
                        if same_slot(v, w) {
                            crate::page_table::lemma_same_slot_same_walk(mem0, root, v, w);
                        }
                    }
                    assert(mapping(mem1, root, v) == mapping(mem0, root, v));
                    crate::page_table::lemma_same_slot_same_walk(m2, root, v, v);
                } else {
                    assert(self.areas()[i] == a1);
                    assert(mapping(mem1, root, v) == Some(a1.entry(v)));
                }
            }
            assert(self.wf(m2, *alloc));
            assert forall|p: usize| #[trigger] pt1.owned().contains(p) && mem1.contains_key(p) implies m2[p] == mem1[p] by {
                if data is Some {
                    assert forall|v: usize| a1.in_range(v as int) implies target_frame(mem1, root, v) != p by {}
                }
            }
            crate::page_table::lemma_tree_frame(mem1, m2, root, pt1.owned());
            assert(l1_slots(m2, root) =~= l1_slots(mem1, root));
            assert(l0_slots(m2, root) =~= l0_slots(mem1, root));
            let o0 = owned_all0.union(area0.frames());
            let o1 = self.owned_all();
            assert(handed_out(alloc0, *alloc, pt0.owned().union(area0.frames()), pt1.owned().union(a1.frames())));
            assert(o0.subset_of(o1)) by {
                assert forall|p: usize| o0.contains(p) implies o1.contains(p) by {
                    if pt0.owned().contains(p) || area0.frames().contains(p) {
                        assert(pt0.owned().union(area0.frames()).contains(p));
                    }
                }
            }
            assert forall|p: usize| #[trigger] o1.contains(p) implies o0.contains(p) || (free0.contains(p) && !free1.contains(p)) by {
                if pt1.owned().contains(p) || a1.frames().contains(p) {
                    assert(pt1.owned().union(a1.frames()).contains(p));
                }
            }
            assert forall|p: usize| #[trigger] free0.contains(p) && !free1.contains(p) implies o1.contains(p) by {
                assert(pt1.owned().union(a1.frames()).contains(p));
            }
            assert(handed_out(alloc0, *alloc, o0, o1));
            assert forall|v: usize| #[trigger] mapping(m2, root, v) == mapping(mem1, root, v) by {
                assert(walk(m2, root, v) == walk(mem1, root, v));
            }
            if area0.kind() == MapType::Framed {
                assert forall|v: usize| #![trigger a1.frames_map()[v]] area0.in_range(v as int) implies m2[a1.frames_map()[v]]
                    == match data {
                        Some(d) => data_page(d@, v - area0.range().start.0),
                        None => zero_page(),
                    } by {
                    assert(a1.frames_map().contains_key(v));
                    match data {
                        Some(d) => {
                            assert(target_frame(mem1, root, v) == a1.frames_map()[v]);
                            assert forall|u: usize| v < u < a1.range().end.0 implies target_frame(mem1, root, u)
                                != target_frame(mem1, root, v) by {
                                assert(a1.in_range(u as int));
                                assert(target_frame(mem1, root, u) == a1.frames_map()[u]);
                            }
                        },
                        None => {},
                    }
                }
                assert(self.areas().last() == a1);
                assert forall|v: usize| #![trigger a1.frames_map()[v]] #![trigger a1.frames_map().contains_key(v)]
                    area0.in_range(v as int) implies {
                    &&& a1.frames_map().contains_key(v)
                    &&& free0.contains(a1.frames_map()[v])
                    &&& m2[a1.frames_map()[v]] == match data {
                        Some(d) => data_page(d@, v - area0.range().start.0),
                        None => zero_page(),
                    }
                } by {
                    assert(a1.frames_map().contains_key(v));
                    assert(m2[a1.frames_map()[v]] == match data {
                        Some(d) => data_page(d@, v - area0.range().start.0),
                        None => zero_page(),
                    });
                }
                assert forall|v: usize| !area0.in_range(v as int) implies (#[trigger] self.areas().last().frames_map().contains_key(v)
                    == area0.frames_map().contains_key(v)) && (area0.frames_map().contains_key(v)
                    ==> self.areas().last().frames_map()[v] == area0.frames_map()[v]) by {
                    assert(a1.frames_map().contains_key(v) == area0.frames_map().contains_key(v));
                }
            }
        }
    }
}


impl MemorySet {
    /// An address space with a fresh, empty page table and no area.
    pub fn new_bare(alloc: &mut StackFrameAllocator, mem: &mut PhysMem) -> (ms: MemorySet)
        requires
            old(alloc).alloc_ok(),
            frames_ok(old(mem)@),
            old(alloc).alloc_result() matches Some(p) && old(mem)@.contains_key(p),
        ensures
            ms.areas() == Seq::<MapArea>::empty(),
            Some(ms.root()) == old(alloc).alloc_result(),
            StackFrameAllocator::took_frame(*old(alloc), *final(alloc), ms.root()),
            final(mem)@ == old(mem)@.insert(ms.root(), zero_page()),
            forall|v: usize| #[trigger] mapping(final(mem)@, ms.root(), v) is None,
            l1_slots(final(mem)@, ms.root()) == Set::<int>::empty(),
            l0_slots(final(mem)@, ms.root()) == Set::<(int, int)>::empty(),
            ms.pt().wf(final(mem)@),
            ms.owned_all() == Set::<usize>::empty().insert(ms.root()),
            old(alloc).sound() && (forall|p: usize| #[trigger] old(alloc).free_set().contains(p) ==> old(mem)@.contains_key(p))
                ==> ms.wf(final(mem)@, *final(alloc)),
    {
        let ms = MemorySet { page_table: PageTable::new(alloc, mem), areas: Vec::new() };
        proof {
            let m = mem@;
            let r = ms.root();
            assert forall|v: usize| #[trigger] mapping(m, r, v) is None by {
                assert(walk(m, r, v) is None);
            }
            assert(l1_slots(m, r) =~= Set::<int>::empty()) by {
                assert forall|x: int| 0 <= x < 512 implies !l1_valid(m, r, x) by {
                    assert(walk(m, r, (x * 0x40000) as usize) is None);
                    crate::page_table::lemma_pte_fields(0, 0);
                    lemma_index_of_root_slot(x);
                }
            }
            assert(l0_slots(m, r) =~= Set::<(int, int)>::empty());
            assert(areas_frames(ms.areas()) =~= Set::<usize>::empty());
            assert(ms.owned_all() =~= Set::<usize>::empty().insert(r));
            if old(alloc).sound() && (forall|p: usize| #[trigger] old(alloc).free_set().contains(p) ==> old(mem)@.contains_key(p)) {
                crate::frame_allocator::lemma_took_frame(*old(alloc), *alloc, r);
                assert(ms.owned_all() =~= Set::<usize>::empty().insert(r));
            }
        }
        ms
    }
}

impl MemorySet {
    /// Maps the trampoline page: virtual page `trampoline` to the physical
    /// page `strampoline`, readable and executable. Both addresses must be
    /// page-aligned.
    pub(crate) fn map_trampoline(&mut self, trampoline: usize, strampoline: usize, alloc: &mut StackFrameAllocator, mem: &mut PhysMem)
        requires
            old(self).wf(old(mem)@, *old(alloc)),
            offset_of(trampoline) == 0,
            offset_of(strampoline) == 0,
            mapping(old(mem)@, old(self).root(), floor_of(trampoline)) is None,
            old(alloc).num_free() >= missing_tables(old(mem)@, old(self).root(), floor_of(trampoline)),
        ensures
            final(self).root() == old(self).root(),
            final(self).areas() == old(self).areas(),
            final(self).wf(final(mem)@, *final(alloc)),
            forall|v: usize| #[trigger] mapping(final(mem)@, final(self).root(), v) == if same_slot(v, floor_of(trampoline)) {
                Some(PageTableEntry { bits: pte_bits(floor_of(strampoline), 11) })
            } else {
                mapping(old(mem)@, old(self).root(), v)
            },
            l1_slots(final(mem)@, final(self).root()) == l1_slots(old(mem)@, old(self).root()).union(
                range_l1(floor_of(trampoline) as int, 1)),
            l0_slots(final(mem)@, final(self).root()) == l0_slots(old(mem)@, old(self).root()).union(
                range_l0(floor_of(trampoline) as int, 1)),
            handed_out(*old(alloc), *final(alloc), old(self).owned_all(), final(self).owned_all()),
            final(alloc).num_free() + missing_tables(old(mem)@, old(self).root(), floor_of(trampoline)) == old(alloc).num_free(),
            final(mem)@.dom() == old(mem)@.dom(),
            forall|p: usize| old(mem)@.contains_key(p) && !final(self).pt().owned().contains(p)
                ==> #[trigger] final(mem)@[p] == old(mem)@[p],
    {
        let ghost mem0 = mem@;
        let ghost alloc0 = *alloc;
        let ghost root = self.root();
        let ghost pt0 = self.page_table;
        let flags = PTEFlags::R() | PTEFlags::X();
        assert(2u8 | 8u8 == 10u8 && (10u8 | 1u8) == 11u8) by (bit_vector);
        proof {
            assert forall|p: usize| #[trigger] alloc0.free_set().contains(p) implies mem0.contains_key(p)
                && !pt0.owned().contains(p) by {
                assert(!self.owned_all().contains(p));
            }
        }
        self.page_table.map(mem, alloc, VirtPageNum::from_aligned(VirtAddr::from(trampoline)),
            PhysPageNum::from_aligned(PhysAddr::from(strampoline)), flags);
        proof {
            let m = mem@;
            let pt1 = self.page_table;
            let a = vpn_index(floor_of(trampoline), 0) as int;
            let b = vpn_index(floor_of(trampoline), 1) as int;
            assert(l1_slots(m, root) =~= l1_slots(mem0, root).insert(a));
            assert(l0_slots(m, root) =~= l0_slots(mem0, root).insert((a, b)));
            lemma_range_slots_step(floor_of(trampoline) as int, floor_of(trampoline) as int);
            assert(range_l1(floor_of(trampoline) as int, 0) =~= Set::<int>::empty());
            assert(range_l0(floor_of(trampoline) as int, 0) =~= Set::<(int, int)>::empty());
            let free0 = alloc0.free_set();
            let free1 = alloc.free_set();
            assert forall|p: usize| #[trigger] free1.contains(p) implies m.contains_key(p) && !self.owned_all().contains(p) by {
                assert(!pt0.owned().union(areas_frames(self.areas())).contains(p));
            }
            assert forall|i: int, p: usize| 0 <= i < self.areas().len() && #[trigger] self.areas()[i].frames().contains(p)
                implies m.contains_key(p) && !pt1.owned().contains(p) by {
                assert(areas_frames(self.areas()).contains(p));
                assert(!free0.contains(p));
            }
            assert forall|i: int, v: usize| 0 <= i < self.areas().len() && self.areas()[i].in_range(v as int)
                implies #[trigger] mapping(m, root, v) == Some(#[trigger] self.areas()[i].entry(v)) by {
                assert(mapping(mem0, root, v) == Some(self.areas()[i].entry(v)));
                if same_slot(v, floor_of(trampoline)) {
                    crate::page_table::lemma_same_slot_same_walk(mem0, root, v, floor_of(trampoline));
                }
            }
            assert(self.wf(m, *alloc));
            assert forall|p: usize| #[trigger] self.owned_all().contains(p) implies old(self).owned_all().contains(p)
                || (free0.contains(p) && !free1.contains(p)) by {
                if pt1.owned().contains(p) && !pt0.owned().contains(p) {
                    assert(free0.contains(p));
                    assert(!free1.contains(p));
                }
            }
            assert forall|p: usize| #[trigger] free0.contains(p) && !free1.contains(p) implies self.owned_all().contains(p) by {
                assert(pt1.owned().contains(p));
            }
        }
    }

    /// Adds a framed area over `start_va` rounded down to `end_va` rounded
    /// up, with permission `permission`; its frames are zeroed.
    pub fn insert_framed_area(&mut self, start_va: VirtAddr, end_va: VirtAddr, permission: MapPermission,
        alloc: &mut StackFrameAllocator, mem: &mut PhysMem)
        requires
            old(self).wf(old(mem)@, *old(alloc)),
            forall|v: usize| floor_of(start_va.0) <= v < ceil_of(end_va.0) ==> #[trigger] mapping(old(mem)@, old(self).root(), v) is None,
            forall|v: usize, w: usize| floor_of(start_va.0) <= v < ceil_of(end_va.0) && floor_of(start_va.0) <= w < ceil_of(end_va.0)
                && v != w ==> !#[trigger] same_slot(v, w),
            old(alloc).num_free() >= frames_needed(l1_slots(old(mem)@, old(self).root()), l0_slots(old(mem)@, old(self).root()),
                floor_of(start_va.0) as int, span(floor_of(start_va.0), ceil_of(end_va.0)), 1),
        ensures
            final(self).root() == old(self).root(),
            final(self).wf(final(mem)@, *final(alloc)),
            final(self).areas().drop_last() == old(self).areas(),
            final(self).areas().len() == old(self).areas().len() + 1,
            final(self).areas().last().range().start.0 == floor_of(start_va.0),
            final(self).areas().last().range().end.0 == ceil_of(end_va.0),
            final(self).areas().last().kind() == MapType::Framed,
            final(self).areas().last().perm() == permission.spec_bits(),
            forall|v: usize| #![trigger final(self).areas().last().frames_map()[v]]
                #![trigger final(self).areas().last().frames_map().contains_key(v)] floor_of(start_va.0) <= v < ceil_of(end_va.0) ==> {
                &&& final(self).areas().last().frames_map().contains_key(v)
                &&& old(alloc).free_set().contains(final(self).areas().last().frames_map()[v])
                &&& final(mem)@[final(self).areas().last().frames_map()[v]] == zero_page()
            },
            forall|v: usize| (forall|w: usize| floor_of(start_va.0) <= w < ceil_of(end_va.0) ==> !same_slot(v, w))
                ==> #[trigger] mapping(final(mem)@, final(self).root(), v) == mapping(old(mem)@, old(self).root(), v),
            handed_out(*old(alloc), *final(alloc), old(self).owned_all(), final(self).owned_all()),
            final(mem)@.dom() == old(mem)@.dom(),
            forall|p: usize| old(mem)@.contains_key(p) && !final(self).pt().owned().contains(p) && !old(alloc).free_set().contains(p)
                ==> #[trigger] final(mem)@[p] == old(mem)@[p],
    {
        let area = MapArea::new(start_va, end_va, MapType::Framed, permission);
        proof {
            assert(area.frames() =~= Set::<usize>::empty());
            assert(old(self).owned_all().union(area.frames()) =~= old(self).owned_all());
        }
        let ghost area0 = area;
        self.push(area, None, alloc, mem);
        proof {
            assert forall|v: usize| #![trigger self.areas().last().frames_map()[v]]
                #![trigger self.areas().last().frames_map().contains_key(v)] floor_of(start_va.0) <= v < ceil_of(end_va.0)
                implies {
                &&& self.areas().last().frames_map().contains_key(v)
                &&& old(alloc).free_set().contains(self.areas().last().frames_map()[v])
                &&& mem@[self.areas().last().frames_map()[v]] == zero_page()
            } by {
                assert(area0.in_range(v as int));
            }
        }
    }
}

/// The places the kernel's address space is built from: its sections as the
/// linker laid them out, the trampoline code, the trampoline's virtual
/// address and the end of physical memory.
#[derive(Clone, Copy, Debug, PartialEq, Eq, Structural)]
pub struct KernelLayout {
    pub stext: usize,
    pub etext: usize,
    pub srodata: usize,
    pub erodata: usize,
    pub sdata: usize,
    pub edata: usize,
    pub sbss_with_stack: usize,
    pub ebss: usize,
    pub ekernel: usize,
    pub strampoline: usize,
    pub trampoline: usize,
    pub memory_end: usize,
}

impl KernelLayout {
    /// Page ranges of the kernel's areas, in the order they are added:
    /// text, read-only data, data, bss with the boot stack, and the rest of
    /// physical memory.
    pub open spec fn ranges(self) -> Seq<(usize, usize)> {
        seq![
            (floor_of(self.stext), ceil_of(self.etext)),
            (floor_of(self.srodata), ceil_of(self.erodata)),
            (floor_of(self.sdata), ceil_of(self.edata)),
            (floor_of(self.sbss_with_stack), ceil_of(self.ebss)),
            (floor_of(self.ekernel), ceil_of(self.memory_end)),
        ]
    }

    /// Permission bits of the kernel's areas: R|X, R, R|W, R|W, R|W.
    pub open spec fn perms(self) -> Seq<u8> {
        seq![10u8, 2u8, 6u8, 6u8, 6u8]
    }

    /// Mapping plans: the trampoline page, then every area; identical
    /// mappings take no data frames.
    pub open spec fn plans(self) -> Seq<(int, nat, nat)> {
        seq![
            (floor_of(self.trampoline) as int, 1nat, 0nat),
            (self.ranges()[0].0 as int, span(self.ranges()[0].0, self.ranges()[0].1), 0nat),
            (self.ranges()[1].0 as int, span(self.ranges()[1].0, self.ranges()[1].1), 0nat),
            (self.ranges()[2].0 as int, span(self.ranges()[2].0, self.ranges()[2].1), 0nat),
            (self.ranges()[3].0 as int, span(self.ranges()[3].0, self.ranges()[3].1), 0nat),
            (self.ranges()[4].0 as int, span(self.ranges()[4].0, self.ranges()[4].1), 0nat),
        ]
    }

    /// The areas' pages and the trampoline page all fall in distinct slots.
    pub open spec fn slots_apart(self) -> bool {
        &&& forall|i: int| 0 <= i < 5 ==> slots_distinct(#[trigger] self.ranges()[i])
        &&& forall|i: int, j: int| 0 <= i < j < 5 ==> slots_disjoint(#[trigger] self.ranges()[i], #[trigger] self.ranges()[j])
        &&& forall|i: int| 0 <= i < 5 ==> slots_disjoint(#[trigger] self.ranges()[i],
            (floor_of(self.trampoline), (floor_of(self.trampoline) + 1) as usize))
    }
}

impl KernelLayout {
    /// Whether the kernel's address space can be built with `free` frames at
    /// hand: the areas and the trampoline page fall in distinct slots, and
    /// the frames cover the root table and what mapping the plans takes.
    pub fn can_build(&self, free: usize) -> (b: bool)
        ensures
            b == (self.slots_apart() && free >= 1 + plan_frames(Set::empty(), Set::empty(), self.plans())),
    {
        let tv = VirtAddr::from(self.trampoline).floor().0;
        let mut rs: Vec<(usize, usize)> = Vec::new();
        rs.push((VirtAddr::from(self.stext).floor().0, VirtAddr::from(self.etext).ceil().0));
        rs.push((VirtAddr::from(self.srodata).floor().0, VirtAddr::from(self.erodata).ceil().0));
        rs.push((VirtAddr::from(self.sdata).floor().0, VirtAddr::from(self.edata).ceil().0));
        rs.push((VirtAddr::from(self.sbss_with_stack).floor().0, VirtAddr::from(self.ebss).ceil().0));
        rs.push((VirtAddr::from(self.ekernel).floor().0, VirtAddr::from(self.memory_end).ceil().0));
        let ghost kr = self.ranges();
        let ghost tr = (floor_of(self.trampoline), (floor_of(self.trampoline) + 1) as usize);
        proof {
            assert(tv == floor_of(self.trampoline));
            assert(rs@ =~= kr);
        }
        let mut plans: Vec<(usize, usize, usize)> = Vec::new();
        plans.push((tv, 1, 0));
        let mut i: usize = 0;
        while i < 5
            invariant
                rs@ == kr,
                kr.len() == 5,
                tv == floor_of(self.trampoline),
                i <= 5,
                plans@.len() == i + 1,
                plans@[0] == (tv, 1usize, 0usize),
                forall|j: int| 0 <= j < i ==> #[trigger] plans@[j + 1] == (kr[j].0, span(kr[j].0, kr[j].1) as usize, 0usize),
                forall|j: int| 0 <= j < plans@.len() ==> #[trigger] plans@[j].0 + plans@[j].1 <= usize::MAX && plans@[j].2 <= 1,
            decreases 5 - i,
        {
            let r = rs[i];
            let pages = if r.0 <= r.1 { r.1 - r.0 } else { 0 };
            plans.push((r.0, pages, 0));
            proof {
                assert(plans@[i + 1] == (r.0, pages, 0usize));
            }
            i = i + 1;
        }
        proof {
            let pv = plans_view(plans@);
            let kp = self.plans();
            assert forall|j: int| 0 <= j < 6 implies pv[j] == kp[j] by {
                if j > 0 {
                    assert(plans@[(j - 1) + 1] == (kr[j - 1].0, span(kr[j - 1].0, kr[j - 1].1) as usize, 0usize));
                    assert(span(kr[j - 1].0, kr[j - 1].1) <= usize::MAX);
                }
            }
            assert(pv =~= kp);
        }
        let mut all = rs;
        all.push((tv, tv + 1));
        proof {
            assert(all@ =~= kr.push(tr));
        }
        let apart = ranges_apart(&all);
        proof {
            let a = all@;
            if apart {
                assert forall|i: int| 0 <= i < 5 implies slots_distinct(#[trigger] kr[i]) by {
                    assert(slots_distinct(a[i]));
                }
                assert forall|i: int, j: int| 0 <= i < j < 5 implies slots_disjoint(#[trigger] kr[i], #[trigger] kr[j]) by {
                    assert(slots_disjoint(a[i], a[j]));
                }
                assert forall|i: int| 0 <= i < 5 implies slots_disjoint(#[trigger] kr[i], tr) by {
                    assert(slots_disjoint(a[i], a[5]));
                }
            }
            if self.slots_apart() {
                assert forall|i: int| 0 <= i < a.len() implies slots_distinct(#[trigger] a[i]) by {
                    if i < 5 {
                        assert(slots_distinct(kr[i]));
                    } else {
                        assert forall|v: usize, w: usize| tr.0 <= v < tr.1 && tr.0 <= w < tr.1 && v != w
                            implies !#[trigger] same_slot(v, w) by {}
                    }
                }
                assert forall|i: int, j: int| 0 <= i < j < a.len() implies slots_disjoint(#[trigger] a[i], #[trigger] a[j]) by {
                    if j < 5 {
                        assert(slots_disjoint(kr[i], kr[j]));
                    } else {
                        assert(slots_disjoint(kr[i], tr));
                    }
                }
            }
        }
        if !apart {
            return false;
        }
        plans_fit(free, &plans)
    }
}

/// No two pages of the range fall in the same slot.
pub open spec fn slots_distinct(r: (usize, usize)) -> bool {
    forall|v: usize, w: usize| r.0 <= v < r.1 && r.0 <= w < r.1 && v != w ==> !#[trigger] same_slot(v, w)
}

/// No page of one range falls in the slot of a page of the other.
pub open spec fn slots_disjoint(r: (usize, usize), q: (usize, usize)) -> bool {
    forall|v: usize, w: usize| r.0 <= v < r.1 && q.0 <= w < q.1 ==> !#[trigger] same_slot(v, w)
}

/// Whether page `v` falls in the slot of a page of one of the first `k`
/// ranges.
pub open spec fn covered(ranges: Seq<(usize, usize)>, k: int, v: usize) -> bool {
    exists|i: int, w: usize| #![trigger same_slot(v, w), ranges[i]] 0 <= i < k && ranges[i].0 <= w < ranges[i].1 && same_slot(v, w)
}

impl MemorySet {
    fn push_identical(&mut self, start_va: VirtAddr, end_va: VirtAddr, permission: MapPermission,
        alloc: &mut StackFrameAllocator, mem: &mut PhysMem)
        requires
            old(self).wf(old(mem)@, *old(alloc)),
            forall|v: usize| floor_of(start_va.0) <= v < ceil_of(end_va.0) ==> #[trigger] mapping(old(mem)@, old(self).root(), v) is None,
            slots_distinct((floor_of(start_va.0), ceil_of(end_va.0))),
            old(alloc).num_free() >= frames_needed(l1_slots(old(mem)@, old(self).root()), l0_slots(old(mem)@, old(self).root()),
                floor_of(start_va.0) as int, span(floor_of(start_va.0), ceil_of(end_va.0)), 0),
        ensures
            final(self).root() == old(self).root(),
            final(self).wf(final(mem)@, *final(alloc)),
            final(self).areas().drop_last() == old(self).areas(),
            final(self).areas().len() == old(self).areas().len() + 1,
            final(self).areas().last().range().start.0 == floor_of(start_va.0),
            final(self).areas().last().range().end.0 == ceil_of(end_va.0),
            final(self).areas().last().kind() == MapType::Identical,
            final(self).areas().last().perm() == permission.spec_bits(),
            forall|v: usize| (forall|w: usize| floor_of(start_va.0) <= w < ceil_of(end_va.0) ==> !same_slot(v, w))
                ==> #[trigger] mapping(final(mem)@, final(self).root(), v) == mapping(old(mem)@, old(self).root(), v),
            final(alloc).num_free() + frames_needed(l1_slots(old(mem)@, old(self).root()), l0_slots(old(mem)@, old(self).root()),
                floor_of(start_va.0) as int, span(floor_of(start_va.0), ceil_of(end_va.0)), 0) == old(alloc).num_free(),
            l1_slots(final(mem)@, final(self).root()) == l1_slots(old(mem)@, old(self).root()).union(
                range_l1(floor_of(start_va.0) as int, span(floor_of(start_va.0), ceil_of(end_va.0)))),
            l0_slots(final(mem)@, final(self).root()) == l0_slots(old(mem)@, old(self).root()).union(
                range_l0(floor_of(start_va.0) as int, span(floor_of(start_va.0), ceil_of(end_va.0)))),
    {
        let area = MapArea::new(start_va, end_va, MapType::Identical, permission);
        proof {
            assert(area.frames() =~= Set::<usize>::empty());
        }
        self.push(area, None, alloc, mem);
    }

    /// The kernel's address space: the trampoline page, then text (R|X),
    /// read-only data (R), data (R|W), bss with the boot stack (R|W) and the
    /// rest of physical memory (R|W), all mapped identically.
    pub fn new_kernel(layout: &KernelLayout, alloc: &mut StackFrameAllocator, mem: &mut PhysMem) -> (ms: MemorySet)
        requires
            old(alloc).sound(),
            frames_ok(old(mem)@),
            forall|p: usize| #[trigger] old(alloc).free_set().contains(p) ==> old(mem)@.contains_key(p),
            offset_of(layout.trampoline) == 0,
            offset_of(layout.strampoline) == 0,
            layout.slots_apart(),
            old(alloc).num_free() >= 1 + plan_frames(Set::empty(), Set::empty(), layout.plans()),
        ensures
            ms.wf(final(mem)@, *final(alloc)),
            ms.areas().len() == 5,
            forall|i: int| 0 <= i < 5 ==> {
                &&& (#[trigger] ms.areas()[i]).range().start.0 == layout.ranges()[i].0
                &&& ms.areas()[i].range().end.0 == layout.ranges()[i].1
                &&& ms.areas()[i].kind() == MapType::Identical
                &&& ms.areas()[i].perm() == layout.perms()[i]
            },
            forall|v: usize| same_slot(v, floor_of(layout.trampoline)) ==> #[trigger] mapping(final(mem)@, ms.root(), v)
                == Some(PageTableEntry { bits: pte_bits(floor_of(layout.strampoline), 11) }),
            forall|v: usize| !same_slot(v, floor_of(layout.trampoline)) && !covered(layout.ranges(), 5, v)
                ==> #[trigger] mapping(final(mem)@, ms.root(), v) is None,
            final(alloc).num_free() + 1 + plan_frames(Set::empty(), Set::empty(), layout.plans()) == old(alloc).num_free(),
    {
        proof {
            crate::frame_allocator::lemma_alloc_result_free(*old(alloc));
        }
        let ghost alloc0 = *old(alloc);
        let ghost total = 1 + plan_frames(Set::empty(), Set::empty(), layout.plans());
        let mut memory_set = Self::new_bare(alloc, mem);
        let ghost root = memory_set.root();
        let ghost tv = floor_of(layout.trampoline);
        let ghost rs = layout.ranges();
        let ghost plans = layout.plans();
        proof {
            crate::frame_allocator::lemma_took_frame(alloc0, *alloc, root);
            crate::address::lemma_indexes_compose(tv);
            assert(frames_needed(Set::empty(), Set::empty(), tv as int, 1, 0) == 2) by {
                assert(frames_needed(Set::<int>::empty().insert(vpn_index(tv, 0) as int),
                    Set::<(int, int)>::empty().insert((vpn_index(tv, 0) as int, vpn_index(tv, 1) as int)), tv + 1, 0, 0) == 0);
            }
            assert(missing_tables(mem@, root, tv) == 2) by {
                assert(!l1_slots(mem@, root).contains(vpn_index(tv, 0) as int));
            }
            assert(plans[0] == (tv as int, 1nat, 0nat));
        }
        memory_set.map_trampoline(layout.trampoline, layout.strampoline, alloc, mem);
        proof {
            assert(plans.skip(1) == plans.drop_first());
            assert(l1_slots(mem@, root) =~= Set::<int>::empty().union(range_l1(tv as int, 1)));
            assert(l0_slots(mem@, root) =~= Set::<(int, int)>::empty().union(range_l0(tv as int, 1)));
            assert forall|v: usize| !same_slot(v, tv) && !covered(rs, 0, v) implies #[trigger] mapping(mem@, root, v) is None by {}
        }
        let starts: [usize; 5] = [layout.stext, layout.srodata, layout.sdata, layout.sbss_with_stack, layout.ekernel];
        let ends: [usize; 5] = [layout.etext, layout.erodata, layout.edata, layout.ebss, layout.memory_end];
        let pr = MapPermission::R();
        let pw = MapPermission::W();
        let px = MapPermission::X();
        let perms: [MapPermission; 5] = [pr | px, pr, pr | pw, pr | pw, pr | pw];
        proof {
            lemma_permission_union(pr, px);
            lemma_permission_union(pr, pw);
            assert(2u8 | 8u8 == 10u8 && 2u8 | 4u8 == 6u8) by (bit_vector);
        }
        let mut k: usize = 0;
        while k < 5
            invariant
                0 <= k <= 5,
                starts@ == seq![layout.stext, layout.srodata, layout.sdata, layout.sbss_with_stack, layout.ekernel],
                ends@ == seq![layout.etext, layout.erodata, layout.edata, layout.ebss, layout.memory_end],
                forall|i: int| 0 <= i < 5 ==> (#[trigger] perms@[i]).spec_bits() == layout.perms()[i],
                rs == layout.ranges(),
                plans == layout.plans(),
                layout.slots_apart(),
                tv == floor_of(layout.trampoline),
                memory_set.root() == root,
                memory_set.wf(mem@, *alloc),
                memory_set.areas().len() == k,
                forall|i: int| 0 <= i < k ==> {
                    &&& (#[trigger] memory_set.areas()[i]).range().start.0 == rs[i].0
                    &&& memory_set.areas()[i].range().end.0 == rs[i].1
                    &&& memory_set.areas()[i].kind() == MapType::Identical
                    &&& memory_set.areas()[i].perm() == layout.perms()[i]
                },
                forall|v: usize| same_slot(v, tv) ==> #[trigger] mapping(mem@, root, v)
                    == Some(PageTableEntry { bits: pte_bits(floor_of(layout.strampoline), 11) }),
                forall|v: usize| !same_slot(v, tv) && !covered(rs, k as int, v) ==> #[trigger] mapping(mem@, root, v) is None,
                total == 1 + plan_frames(Set::empty(), Set::empty(), plans),
                total == (alloc0.num_free() - alloc.num_free()) + plan_frames(l1_slots(mem@, root), l0_slots(mem@, root),
                    plans.skip(k + 1)),
                alloc.num_free() >= plan_frames(l1_slots(mem@, root), l0_slots(mem@, root), plans.skip(k + 1)),
            decreases 5 - k,
        {
            let ghost mem1 = mem@;
            let ghost alloc1 = *alloc;
            let ghost areas1 = memory_set.areas();
            let ghost r = rs[k as int];
            proof {
                assert(plans.skip(k + 1)[0] == plans[k + 1]);
                assert(plans.skip(k + 1).drop_first() == plans.skip(k + 2));
                assert(plans[k + 1] == (r.0 as int, span(r.0, r.1), 0nat));
                assert(r == (floor_of(starts@[k as int]), ceil_of(ends@[k as int])));
                assert(slots_distinct(r));
                assert forall|v: usize| r.0 <= v < r.1 implies #[trigger] mapping(mem1, root, v) is None by {
                    assert(slots_disjoint(r, (tv, (tv + 1) as usize)));
                    assert(!same_slot(v, tv));
                    if covered(rs, k as int, v) {
                        let (i, w) = choose|i: int, w: usize| 0 <= i < k && rs[i].0 <= w < rs[i].1 && #[trigger] same_slot(v, w)
                            && #[trigger] rs[i] == rs[i];
                        assert(slots_disjoint(rs[i], rs[k as int]));
                        assert(same_slot(w, v));
                    }
                }
            }
            memory_set.push_identical(VirtAddr::from(starts[k]), VirtAddr::from(ends[k]), perms[k], alloc, mem);
            proof {
                assert(memory_set.areas()[k as int] == memory_set.areas().last());
                assert(memory_set.areas()[k as int].range().start.0 == rs[k as int].0);
                assert(memory_set.areas()[k as int].range().end.0 == rs[k as int].1);
                assert(memory_set.areas()[k as int].perm() == layout.perms()[k as int]) by {
                    assert(perms@[k as int].spec_bits() == layout.perms()[k as int]);
                }
                assert forall|i: int| 0 <= i < k + 1 implies {
                    &&& (#[trigger] memory_set.areas()[i]).range().start.0 == rs[i].0
                    &&& memory_set.areas()[i].range().end.0 == rs[i].1
                    &&& memory_set.areas()[i].kind() == MapType::Identical
                    &&& memory_set.areas()[i].perm() == layout.perms()[i]
                } by {
                    if i < k {
                        assert(memory_set.areas().drop_last()[i] == areas1[i]);
                        assert(memory_set.areas()[i] == areas1[i]);
                    }
                }
                assert forall|v: usize| same_slot(v, tv) implies #[trigger] mapping(mem@, root, v)
                    == Some(PageTableEntry { bits: pte_bits(floor_of(layout.strampoline), 11) }) by {
                    assert(slots_disjoint(r, (tv, (tv + 1) as usize)));
                    assert forall|w: usize| r.0 <= w < r.1 implies !same_slot(v, w) by {
                        assert(!same_slot(w, tv));
                    }
                }
                assert forall|v: usize| !same_slot(v, tv) && !covered(rs, k + 1, v) implies #[trigger] mapping(mem@, root, v) is None by {
                    assert forall|w: usize| r.0 <= w < r.1 implies !same_slot(v, w) by {
                        if same_slot(v, w) {
                            assert(rs[k as int] == rs[k as int]);
                            assert(covered(rs, k + 1, v));
                        }
                    }
                    if covered(rs, k as int, v) {
                        let (i, w) = choose|i: int, w: usize| 0 <= i < k && rs[i].0 <= w < rs[i].1 && #[trigger] same_slot(v, w)
                            && #[trigger] rs[i] == rs[i];
                        assert(covered(rs, k + 1, v));
                    }
                }
            }
            k = k + 1;
        }
        memory_set
    }
}

/// Root slot `x` is the first index of virtual page `x * 2^18`.
proof fn lemma_index_of_root_slot(x: int)
    requires
        0 <= x < 512,
    ensures
        vpn_index((x * 0x40000) as usize, 0) == x,
{
    assert((x * 0x40000) / 0x40000 == x) by (nonlinear_arith)
        requires 0 <= x < 512;
}

/// An address space stays well formed, with the same mappings and tables,
/// when none of its frames changes and the allocator hands out no frame it
/// did not already hold.
pub proof fn lemma_wf_kept(ms: MemorySet, m0: Map<usize, Seq<u8>>, m1: Map<usize, Seq<u8>>, a0: StackFrameAllocator,
    a1: StackFrameAllocator)
    requires
        ms.wf(m0, a0),
        m1.dom() == m0.dom(),
        frames_ok(m1),
        forall|p: usize| #[trigger] ms.owned_all().contains(p) && m0.contains_key(p) ==> m1[p] == m0[p],
        a1.sound(),
        a1.free_set().subset_of(a0.free_set()),
    ensures
        ms.wf(m1, a1),
        forall|v: usize| #[trigger] mapping(m1, ms.root(), v) == mapping(m0, ms.root(), v),
        l1_slots(m1, ms.root()) == l1_slots(m0, ms.root()),
        l0_slots(m1, ms.root()) == l0_slots(m0, ms.root()),
{
    let root = ms.root();
    assert forall|p: usize| #[trigger] ms.pt().owned().contains(p) && m0.contains_key(p) implies m1[p] == m0[p] by {
        assert(ms.owned_all().contains(p));
    }
    assert forall|p: usize| #[trigger] a1.free_set().contains(p) implies m1.contains_key(p) && !ms.owned_all().contains(p) by {
        assert(a0.free_set().contains(p));
    }
    lemma_tree_frame(m0, m1, root, ms.pt().owned());
    assert(l1_slots(m1, root) =~= l1_slots(m0, root));
    assert(l0_slots(m1, root) =~= l0_slots(m0, root));
    assert forall|v: usize| #[trigger] mapping(m1, root, v) == mapping(m0, root, v) by {
        assert(walk(m1, root, v) == walk(m0, root, v));
    }
    assert forall|i: int, v: usize| 0 <= i < ms.areas().len() && ms.areas()[i].in_range(v as int)
        implies #[trigger] mapping(m1, root, v) == Some(#[trigger] ms.areas()[i].entry(v)) by {
        assert(mapping(m0, root, v) == Some(ms.areas()[i].entry(v)));
    }
}

/// The page in the middle of `start .. end`.
pub open spec fn mid_page(start: usize, end: usize) -> usize {
    floor_of(((start + end) / 2) as usize)
}

/// What the remap test checks of the kernel's address space: the middle
/// pages of the text and of the read-only data have leaf entries without W,
/// and the middle page of the data one without X.
pub open spec fn remap_checks(mem: Map<usize, Seq<u8>>, root: usize, layout: KernelLayout) -> bool {
    &&& walk(mem, root, mid_page(layout.stext, layout.etext)) matches Some(e) && e.bits & 4 != 4
    &&& walk(mem, root, mid_page(layout.srodata, layout.erodata)) matches Some(e) && e.bits & 4 != 4
    &&& walk(mem, root, mid_page(layout.sdata, layout.edata)) matches Some(e) && e.bits & 8 != 8
}

/// The remap test's answer read off the page table: the middle page of the
/// text and the middle page of the read-only data have leaf entries with W
/// (bit 2) clear, and the middle page of the data one with X (bit 3) clear.
pub open spec fn remap_passes(mem: Map<usize, Seq<u8>>, root: usize, layout: KernelLayout) -> bool {
    &&& (walk(mem, root, floor_of(((layout.stext + layout.etext) / 2) as usize)) matches Some(e) && e.bits & 4 == 0)
    &&& (walk(mem, root, floor_of(((layout.srodata + layout.erodata) / 2) as usize)) matches Some(e) && e.bits & 4 == 0)
    &&& (walk(mem, root, floor_of(((layout.sdata + layout.edata) / 2) as usize)) matches Some(e) && e.bits & 8 == 0)
}

/// The remap test fails when the middle page of the text or of the
/// read-only data has no leaf entry or a writable one, or the middle page of
/// the data none or an executable one, and passes otherwise.
pub proof fn lemma_remap_checks_bits(mem: Map<usize, Seq<u8>>, root: usize, layout: KernelLayout)
    ensures
        remap_checks(mem, root, layout) == remap_passes(mem, root, layout),
{
    assert forall|x: u64| (x & 4 != 4) == (x & 4 == 0) && (x & 8 != 8) == (x & 8 == 0) by {
        assert((x & 4 != 4) == (x & 4 == 0) && (x & 8 != 8) == (x & 8 == 0)) by (bit_vector);
    }
}

/// Checks that the kernel's text and read-only data are mapped without
/// write permission and its data without execute permission, looking at the
/// page in the middle of each; false when one of them has no leaf entry.
pub fn remap_test(kernel_space: &MemorySet, layout: &KernelLayout, mem: &PhysMem) -> (passed: bool)
    requires
        kernel_space.pt().wf(mem@),
        layout.stext + layout.etext <= usize::MAX,
        layout.srodata + layout.erodata <= usize::MAX,
        layout.sdata + layout.edata <= usize::MAX,
    ensures
        passed == remap_checks(mem@, kernel_space.root(), *layout),
        passed == remap_passes(mem@, kernel_space.root(), *layout),
{
    proof {
        lemma_remap_checks_bits(mem@, kernel_space.root(), *layout);
    }
    let mid_text = VirtAddr::from((layout.stext + layout.etext) / 2);
    let mid_rodata = VirtAddr::from((layout.srodata + layout.erodata) / 2);
    let mid_data = VirtAddr::from((layout.sdata + layout.edata) / 2);
    let text_ok = match kernel_space.translate(mem, mid_text.floor()) {
        Some(e) => !e.writable(),
        None => false,
    };
    let rodata_ok = match kernel_space.translate(mem, mid_rodata.floor()) {
        Some(e) => !e.writable(),
        None => false,
    };
    let data_ok = match kernel_space.translate(mem, mid_data.floor()) {
        Some(e) => !e.executable(),
        None => false,
    };
    text_ok && rodata_ok && data_ok
}

/// The permissions of the kernel's pages, as `new_kernel` maps them: the
/// text's pages valid, readable and executable, the read-only data's valid
/// and readable, the data's, the bss's and the rest of physical memory's
/// valid, readable and writable, none of them for the user; each maps to
/// the physical page of the same number.
pub proof fn lemma_kernel_page_flags(ms: MemorySet, layout: KernelLayout, mem: Map<usize, Seq<u8>>,
    alloc: StackFrameAllocator, v: usize)
    requires
        ms.wf(mem, alloc),
        ms.areas().len() == 5,
        forall|i: int| 0 <= i < 5 ==> {
            &&& (#[trigger] ms.areas()[i]).range().start.0 == layout.ranges()[i].0
            &&& ms.areas()[i].range().end.0 == layout.ranges()[i].1
            &&& ms.areas()[i].kind() == MapType::Identical
            &&& ms.areas()[i].perm() == layout.perms()[i]
        },
    ensures
        floor_of(layout.stext) <= v < ceil_of(layout.etext) ==> (mapping(mem, ms.root(), v) matches Some(e)
            && e.bits & 0x1f == 0b01011),
        floor_of(layout.srodata) <= v < ceil_of(layout.erodata) ==> (mapping(mem, ms.root(), v) matches Some(e)
            && e.bits & 0x1f == 0b00011),
        floor_of(layout.sdata) <= v < ceil_of(layout.edata) ==> (mapping(mem, ms.root(), v) matches Some(e)
            && e.bits & 0x1f == 0b00111),
        floor_of(layout.sbss_with_stack) <= v < ceil_of(layout.ebss) ==> (mapping(mem, ms.root(), v) matches Some(e)
            && e.bits & 0x1f == 0b00111),
        floor_of(layout.ekernel) <= v < ceil_of(layout.memory_end) ==> (mapping(mem, ms.root(), v) matches Some(e)
            && e.bits & 0x1f == 0b00111),
        forall|i: int| 0 <= i < 5 && #[trigger] layout.ranges()[i].0 <= v < layout.ranges()[i].1 && v < 0x1000_0000_0000
            ==> (mapping(mem, ms.root(), v) matches Some(e) && e.spec_ppn() == v),
{
    let root = ms.root();
    let areas = ms.areas();
    let perms = layout.perms();
    assert forall|i: int| 0 <= i < 5 && #[trigger] areas[i].in_range(v as int) implies mapping(mem, root, v)
        == Some(areas[i].entry(v)) && areas[i].entry(v).bits & 0x1f == ((perms[i] | 1) & 0x1f) as u64
        && (v < 0x1000_0000_0000 ==> areas[i].entry(v).spec_ppn() == v) by {
        crate::page_table::lemma_pte_flag_bits(v, (perms[i] | 1) as u8);
        if v < 0x1000_0000_0000 {
            crate::page_table::lemma_pte_fields(v, (perms[i] | 1) as u8);
        }
    }
    assert(((10u8 | 1u8) & 0x1fu8) as u64 == 0b01011u64) by (bit_vector);
    assert(((2u8 | 1u8) & 0x1fu8) as u64 == 0b00011u64) by (bit_vector);
    assert(((6u8 | 1u8) & 0x1fu8) as u64 == 0b00111u64) by (bit_vector);
    assert(areas[0].in_range(v as int) == (floor_of(layout.stext) <= v < ceil_of(layout.etext)));
    assert(areas[1].in_range(v as int) == (floor_of(layout.srodata) <= v < ceil_of(layout.erodata)));
    assert(areas[2].in_range(v as int) == (floor_of(layout.sdata) <= v < ceil_of(layout.edata)));
    assert(areas[3].in_range(v as int) == (floor_of(layout.sbss_with_stack) <= v < ceil_of(layout.ebss)));
    assert(areas[4].in_range(v as int) == (floor_of(layout.ekernel) <= v < ceil_of(layout.memory_end)));
    assert forall|i: int| 0 <= i < 5 && #[trigger] layout.ranges()[i].0 <= v < layout.ranges()[i].1
        && v < 0x1000_0000_0000 implies (mapping(mem, ms.root(), v) matches Some(e) && e.spec_ppn() == v) by {
        assert(areas[i].in_range(v as int));
    }
}

/// Every kernel address space that `new_kernel` builds passes the remap
/// test: the text (R|X) and read-only data (R) are not writable and the
/// data (R|W) is not executable, for sections that are not empty.
pub proof fn lemma_kernel_remap(ms: MemorySet, layout: KernelLayout, mem: Map<usize, Seq<u8>>, alloc: StackFrameAllocator)
    requires
        ms.wf(mem, alloc),
        ms.areas().len() == 5,
        forall|i: int| 0 <= i < 5 ==> {
            &&& (#[trigger] ms.areas()[i]).range().start.0 == layout.ranges()[i].0
            &&& ms.areas()[i].range().end.0 == layout.ranges()[i].1
            &&& ms.areas()[i].kind() == MapType::Identical
            &&& ms.areas()[i].perm() == layout.perms()[i]
        },
        layout.stext < layout.etext,
        layout.srodata < layout.erodata,
        layout.sdata < layout.edata,
        layout.stext + layout.etext <= usize::MAX,
        layout.srodata + layout.erodata <= usize::MAX,
        layout.sdata + layout.edata <= usize::MAX,
    ensures
        remap_checks(mem, ms.root(), layout),
{
    let root = ms.root();
    let areas = ms.areas();
    assert(areas[0].perm() == 10u8 && areas[1].perm() == 2u8 && areas[2].perm() == 6u8);
    let v0 = mid_page(layout.stext, layout.etext);
    let v1 = mid_page(layout.srodata, layout.erodata);
    let v2 = mid_page(layout.sdata, layout.edata);
    assert(areas[0].in_range(v0 as int));
    assert(areas[1].in_range(v1 as int));
    assert(areas[2].in_range(v2 as int));
    assert(mapping(mem, root, v0) == Some(areas[0].entry(v0)));
    assert(mapping(mem, root, v1) == Some(areas[1].entry(v1)));
    assert(mapping(mem, root, v2) == Some(areas[2].entry(v2)));
    let p0 = areas[0].target(v0) as u64;
    let p1 = areas[1].target(v1) as u64;
    let p2 = areas[2].target(v2) as u64;
    assert(((p0 << 10u64) | ((10u8 | 1u8) as u64)) & 4 != 4) by (bit_vector);
    assert(((p1 << 10u64) | ((2u8 | 1u8) as u64)) & 4 != 4) by (bit_vector);
    assert(((p2 << 10u64) | ((6u8 | 1u8) as u64)) & 8 != 8) by (bit_vector);
}

} // verus!
