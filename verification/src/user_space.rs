//! Application address spaces: the trampoline, the loadable segments of an
//! ELF image with their bytes, a user stack above the last segment behind a
//! guard page, and the page of the trap context.
use vstd::prelude::*;
use vstd::arithmetic::div_mod::{lemma_fundamental_div_mod, lemma_fundamental_div_mod_converse};
use vstd::std_specs::ops::BitOrSpec;
use vstd::slice::slice_subrange;
use crate::address::{PAGE_SIZE, VirtAddr, VirtPageNum, floor_of, ceil_of, offset_of, page_start, vpn_index};
use crate::phys_mem::{PhysMem, frames_ok, zero_page};
use crate::frame_allocator::{StackFrameAllocator, handed_out, lemma_handed_out_trans};
use crate::page_table::{
    PageTableEntry, pte_bits, mapping, walk, same_slot, l1_slots, l0_slots, range_l1, range_l0, frames_needed, plan_frames,
    missing_tables, plans_fit, plans_view,
};
use crate::memory_set::{
    MapArea, MapPermission, MapType, MemorySet, slots_distinct, slots_disjoint, covered, span, data_page,
    areas_frames, lemma_permission_union,
};
use crate::elf::{ElfImage, ElfSegment, elf_image, elf_magic, read_elf_image};

verus! {

/// Number of leaf slots of the three-level table: 2^27.
pub open spec fn slot_count() -> int {
    0x8000000
}

/// Two page numbers fall in the same slot exactly when they agree modulo
/// 2^27.
pub proof fn lemma_same_slot_mod(v: usize, w: usize)
    ensures
        same_slot(v, w) <==> v % 0x8000000 == w % 0x8000000,
{
    assert(((v / 0x40000) % 512 == (w / 0x40000) % 512 && (v / 0x200) % 512 == (w / 0x200) % 512 && v % 512 == w % 512)
        <==> v % 0x8000000 == w % 0x8000000) by (bit_vector);
}

/// `x` is `m` times `q` plus a remainder `r` in `0 .. m`.
proof fn lemma_split(x: int, m: int) -> (qr: (int, int))
    requires
        m > 0,
    ensures
        x == qr.0 * m + qr.1,
        0 <= qr.1 < m,
        qr.1 == x % m,
{
    lemma_fundamental_div_mod(x, m);
    assert(m * (x / m) == (x / m) * m) by (nonlinear_arith);
    (x / m, x % m)
}

/// Two numbers less than `m` apart with the same remainder are equal.
proof fn lemma_mod_close(x: int, y: int, m: int)
    requires
        m > 0,
        x % m == y % m,
        -m < x - y < m,
    ensures
        x == y,
{
    let (qx, r) = lemma_split(x, m);
    let (qy, r2) = lemma_split(y, m);
    assert(qx == qy) by (nonlinear_arith)
        requires
            x == qx * m + r,
            y == qy * m + r,
            -m < x - y < m,
            m > 0;
}

/// Adding `0 < t < m` changes the remainder modulo `m`.
proof fn lemma_mod_shift_differs(y: int, t: int, m: int)
    requires
        m > 0,
        0 < t < m,
    ensures
        (y + t) % m != y % m,
{
    if (y + t) % m == y % m {
        lemma_mod_close(y + t, y, m);
    }
}

/// Equal remainders stay equal when the same amount is added.
proof fn lemma_mod_add_same(x: int, y: int, j: int, m: int)
    requires
        m > 0,
        x % m == y % m,
    ensures
        (x + j) % m == (y + j) % m,
{
    let (qx, r) = lemma_split(x, m);
    let (qy, r2) = lemma_split(y, m);
    let (qj, rj) = lemma_split(r + j, m);
    assert(x + j == (qx + qj) * m + rj) by (nonlinear_arith)
        requires x == qx * m + r, r + j == qj * m + rj;
    assert(y + j == (qy + qj) * m + rj) by (nonlinear_arith)
        requires y == qy * m + r, r == r2, r + j == qj * m + rj;
    lemma_fundamental_div_mod_converse(x + j, m, qx + qj, rj);
    lemma_fundamental_div_mod_converse(y + j, m, qy + qj, rj);
}

/// How far past `a` the next number with the remainder of `c` lies:
/// `0 <= x < m` and `a + x` has the remainder of `c`.
pub open spec fn residue_gap(a: int, c: int, m: int) -> int {
    if c % m >= a % m { c % m - a % m } else { c % m + m - a % m }
}

proof fn lemma_residue_gap(a: int, c: int, m: int)
    requires
        m > 0,
    ensures
        0 <= residue_gap(a, c, m) < m,
        (a + residue_gap(a, c, m)) % m == c % m,
{
    let (qa, ra) = lemma_split(a, m);
    let (qc, rc) = lemma_split(c, m);
    let x = residue_gap(a, c, m);
    if rc >= ra {
        assert(a + x == qa * m + rc);
        lemma_fundamental_div_mod_converse(a + x, m, qa, rc);
    } else {
        assert(a + x == (qa + 1) * m + rc) by (nonlinear_arith)
            requires a == qa * m + ra, x == rc + m - ra;
        lemma_fundamental_div_mod_converse(a + x, m, qa + 1, rc);
    }
}

/// Whether the pages `r.0 .. r.1` fall in distinct slots: exactly when
/// there are at most 2^27 of them.
pub fn range_slots_distinct(r: (usize, usize)) -> (b: bool)
    ensures
        b == slots_distinct(r),
{
    let b = r.1 <= r.0 || r.1 - r.0 <= 0x8000000;
    proof {
        let m = slot_count();
        if b {
            assert forall|v: usize, w: usize| r.0 <= v < r.1 && r.0 <= w < r.1 && v != w implies !#[trigger] same_slot(v, w) by {
                lemma_same_slot_mod(v, w);
                if v % 0x8000000 == w % 0x8000000 {
                    lemma_mod_close(v as int, w as int, m);
                }
            }
        } else {
            let v = r.0;
            let w = (r.0 + 0x8000000) as usize;
            lemma_same_slot_mod(v, w);
            lemma_split(v as int, m);
            let (q, rr) = lemma_split(v as int, m);
            lemma_fundamental_div_mod_converse(w as int, m, q + 1, rr);
            assert(same_slot(v, w));
        }
    }
    b
}

/// Whether no page of `r.0 .. r.1` falls in the slot of a page of
/// `q.0 .. q.1`. Two nonempty ranges of fewer than 2^27 pages each meet
/// exactly when, going round the 2^27 slots from the first page of `r`,
/// the first page of `q` comes before `r` ends or `q` wraps round to the
/// start of `r`.
pub fn ranges_slots_disjoint(r: (usize, usize), q: (usize, usize)) -> (b: bool)
    ensures
        b == slots_disjoint(r, q),
{
    let m: usize = 0x8000000;
    let ghost mi = slot_count();
    if r.1 <= r.0 || q.1 <= q.0 {
        return true;
    }
    let la = r.1 - r.0;
    let lb = q.1 - q.0;
    if la >= m {
        proof {
            lemma_residue_gap(r.0 as int, q.0 as int, mi);
            let v = (r.0 + residue_gap(r.0 as int, q.0 as int, mi)) as usize;
            lemma_same_slot_mod(v, q.0);
            assert(same_slot(v, q.0));
        }
        return false;
    }
    if lb >= m {
        proof {
            lemma_residue_gap(q.0 as int, r.0 as int, mi);
            let w = (q.0 + residue_gap(q.0 as int, r.0 as int, mi)) as usize;
            lemma_same_slot_mod(r.0, w);
            assert(same_slot(r.0, w));
        }
        return false;
    }
    let ra = r.0 % m;
    let rc = q.0 % m;
    let x = if rc >= ra { rc - ra } else { rc + m - ra };
    let meet = x < la || x + lb > m;
    proof {
        let a = r.0 as int;
        let c = q.0 as int;
        assert(x == residue_gap(a, c, mi));
        lemma_residue_gap(a, c, mi);
        if x < la {
            let v = (a + x) as usize;
            lemma_same_slot_mod(v, q.0);
            assert(same_slot(v, q.0));
        } else if x + lb > m {
            let w = (c + (mi - x)) as usize;
            lemma_mod_add_same(a + x, c, mi - x, mi);
            let (qa, ra2) = lemma_split(a, mi);
            lemma_fundamental_div_mod_converse(a + mi, mi, qa + 1, ra2);
            lemma_same_slot_mod(r.0, w);
            assert(same_slot(r.0, w));
        } else {
            assert forall|v: usize, w: usize| r.0 <= v < r.1 && q.0 <= w < q.1 implies !#[trigger] same_slot(v, w) by {
                lemma_same_slot_mod(v, w);
                let i = v - a;
                let j = w - c;
                lemma_mod_add_same(a + x, c, j, mi);
                lemma_mod_shift_differs(a + i, x + j - i, mi);
            }
        }
    }
    !meet
}

/// No two pages of the ranges fall in the same slot: each range's pages are
/// in distinct slots and no two ranges share a slot.
pub open spec fn all_apart(rs: Seq<(usize, usize)>) -> bool {
    &&& forall|i: int| 0 <= i < rs.len() ==> slots_distinct(#[trigger] rs[i])
    &&& forall|i: int, j: int| 0 <= i < j < rs.len() ==> slots_disjoint(#[trigger] rs[i], #[trigger] rs[j])
}

/// Whether no two pages of the ranges fall in the same slot.
pub fn ranges_apart(rs: &Vec<(usize, usize)>) -> (b: bool)
    ensures
        b == all_apart(rs@),
{
    let n = rs.len();
    let mut i: usize = 0;
    while i < n
        invariant
            n == rs@.len(),
            i <= n,
            forall|k: int| 0 <= k < i ==> slots_distinct(#[trigger] rs@[k]),
            forall|k: int, l: int| 0 <= k < i && k < l < n ==> slots_disjoint(#[trigger] rs@[k], #[trigger] rs@[l]),
        decreases n - i,
    {
        if !range_slots_distinct(rs[i]) {
            return false;
        }
        let mut j: usize = i + 1;
        while j < n
            invariant
                n == rs@.len(),
                i < n,
                i + 1 <= j <= n,
                forall|l: int| i < l < j ==> slots_disjoint(rs@[i as int], #[trigger] rs@[l]),
            decreases n - j,
        {
            if !ranges_slots_disjoint(rs[i], rs[j]) {
                return false;
            }
            j = j + 1;
        }
        i = i + 1;
    }
    true
}

/// Where an application's address space puts what its ELF file does not
/// give: the trampoline page (its virtual address and the physical address
/// of its code), the trap context's page and the user stack's size.
#[derive(Clone, Copy, Debug, PartialEq, Eq, Structural)]
pub struct UserLayout {
    pub trampoline: usize,
    pub strampoline: usize,
    pub trap_context: usize,
    pub user_stack_size: usize,
}

/// The page after the last loadable segment, 0 when there is none.
pub open spec fn last_end_vpn(segs: Seq<ElfSegment>) -> usize {
    if segs.len() == 0 { 0 } else { ceil_of(segs.last().end_va) }
}

/// Bottom of the user stack: one guard page above the last segment.
pub open spec fn stack_bottom(segs: Seq<ElfSegment>) -> int {
    page_start(last_end_vpn(segs)) + 4096
}

/// Top of the user stack, the application's initial stack pointer.
pub open spec fn stack_top(segs: Seq<ElfSegment>, l: UserLayout) -> int {
    stack_bottom(segs) + l.user_stack_size
}

/// Virtual address bounds of the areas, in the order they are added: each
/// segment, the user stack, and the trap context up to the trampoline.
pub open spec fn area_bounds(segs: Seq<ElfSegment>, l: UserLayout) -> Seq<(usize, usize)> {
    segs.map_values(|s: ElfSegment| (s.start_va, s.end_va))
        + seq![(stack_bottom(segs) as usize, stack_top(segs, l) as usize), (l.trap_context, l.trampoline)]
}

/// Page ranges of the areas: their bounds rounded outwards to pages.
pub open spec fn area_ranges(segs: Seq<ElfSegment>, l: UserLayout) -> Seq<(usize, usize)> {
    area_bounds(segs, l).map_values(|b: (usize, usize)| (floor_of(b.0), ceil_of(b.1)))
}

/// The trampoline's page.
pub open spec fn trampoline_range(l: UserLayout) -> (usize, usize) {
    (floor_of(l.trampoline), (floor_of(l.trampoline) + 1) as usize)
}

/// Permission bits of a segment: U, then R, W and X as its flags say.
pub open spec fn seg_perm(s: ElfSegment) -> u8 {
    let p1: u8 = if s.readable { 16u8 | 2u8 } else { 16u8 };
    let p2: u8 = if s.writable { p1 | 4u8 } else { p1 };
    if s.executable { p2 | 8u8 } else { p2 }
}

/// Permission bits of the areas: each segment's, then R|W|U for the stack
/// and R|W for the trap context.
pub open spec fn area_perms(segs: Seq<ElfSegment>) -> Seq<u8> {
    segs.map_values(|s: ElfSegment| seg_perm(s)) + seq![22u8, 6u8]
}

/// What area `k` is filled with: a segment's bytes of the file, or zeros.
pub open spec fn area_data(data: Seq<u8>, segs: Seq<ElfSegment>, k: int) -> Option<Seq<u8>> {
    if k < segs.len() {
        Some(data.subrange(segs[k].data_start as int, segs[k].data_end as int))
    } else {
        None
    }
}

/// Mapping plans: the trampoline page `tv`, then each of the page ranges
/// `rs` with a frame per page.
pub open spec fn user_plans_of(tv: int, rs: Seq<(usize, usize)>) -> Seq<(int, nat, nat)> {
    seq![(tv, 1nat, 0nat)] + rs.map_values(|r: (usize, usize)| (r.0 as int, span(r.0, r.1), 1nat))
}

/// Mapping plans of an application's address space: the trampoline page,
/// then each area with a frame per page.
pub open spec fn user_plans(segs: Seq<ElfSegment>, l: UserLayout) -> Seq<(int, nat, nat)> {
    user_plans_of(floor_of(l.trampoline) as int, area_ranges(segs, l))
}

/// What building an address space from the segments of a file of
/// `data_len` bytes needs: the stack ends within the machine word, no two
/// pages of the areas and the trampoline share a slot, and each segment's
/// bytes lie in the file and fit its pages, whose bytes fit the machine
/// word.
pub open spec fn image_fits(data_len: nat, segs: Seq<ElfSegment>, l: UserLayout) -> bool {
    &&& stack_top(segs, l) <= usize::MAX
    &&& all_apart(area_ranges(segs, l).push(trampoline_range(l)))
    &&& forall|i: int| 0 <= i < segs.len() ==> {
        &&& (#[trigger] segs[i]).data_start <= segs[i].data_end <= data_len
        &&& span(area_ranges(segs, l)[i].0, area_ranges(segs, l)[i].1) * 4096 <= usize::MAX
        &&& segs[i].data_end - segs[i].data_start <= span(area_ranges(segs, l)[i].0, area_ranges(segs, l)[i].1) * 4096
    }
}

/// Each page of the area has a frame, holding the page of `content` at the
/// same position, or zeros when there is no content.
pub open spec fn area_holds(a: MapArea, mem: Map<usize, Seq<u8>>, content: Option<Seq<u8>>) -> bool {
    forall|v: usize| #![trigger a.frames_map()[v]] #![trigger a.frames_map().contains_key(v)] a.in_range(v as int) ==> {
        &&& a.frames_map().contains_key(v)
        &&& mem[a.frames_map()[v]] == match content {
            Some(d) => data_page(d, v - a.range().start.0),
            None => zero_page(),
        }
    }
}

/// The first `k` areas of the address space are those of the image, framed,
/// with their permissions and contents, and no two of them share a frame;
/// the trampoline page is mapped readable and executable to its code; no
/// other page is mapped.
pub open spec fn built_upto(ms: MemorySet, mem: Map<usize, Seq<u8>>, data: Seq<u8>, segs: Seq<ElfSegment>,
    l: UserLayout, k: int) -> bool {
    built_filled(ms, mem, data, segs, l, k, k)
}

/// As `built_upto` for `k` areas, with the contents stated only for the
/// first `f` of them.
pub open spec fn built_filled(ms: MemorySet, mem: Map<usize, Seq<u8>>, data: Seq<u8>, segs: Seq<ElfSegment>,
    l: UserLayout, k: int, f: int) -> bool {
    &&& ms.areas().len() == k
    &&& forall|i: int| 0 <= i < k ==> {
        &&& (#[trigger] ms.areas()[i]).range().start.0 == area_ranges(segs, l)[i].0
        &&& ms.areas()[i].range().end.0 == area_ranges(segs, l)[i].1
        &&& ms.areas()[i].kind() == MapType::Framed
        &&& ms.areas()[i].perm() == area_perms(segs)[i]
        &&& (i < f ==> area_holds(ms.areas()[i], mem, area_data(data, segs, i)))
    }
    &&& forall|i: int, j: int, v: usize, w: usize| 0 <= i < j < k && ms.areas()[i].in_range(v as int)
        && ms.areas()[j].in_range(w as int) ==> #[trigger] ms.areas()[i].frames_map()[v]
        != #[trigger] ms.areas()[j].frames_map()[w]
    &&& forall|v: usize| same_slot(v, floor_of(l.trampoline)) ==> #[trigger] mapping(mem, ms.root(), v)
        == Some(PageTableEntry { bits: pte_bits(floor_of(l.strampoline), 11) })
    &&& forall|v: usize| !same_slot(v, floor_of(l.trampoline)) && !covered(area_ranges(segs, l), k, v)
        ==> #[trigger] mapping(mem, ms.root(), v) is None
}

/// An area keeps its contents when none of its frames changes.
proof fn lemma_holds_kept(a: MapArea, m0: Map<usize, Seq<u8>>, m1: Map<usize, Seq<u8>>, c: Option<Seq<u8>>)
    requires
        area_holds(a, m0, c),
        forall|p: usize| #[trigger] a.frames().contains(p) ==> m1[p] == m0[p],
    ensures
        area_holds(a, m1, c),
{
    assert forall|v: usize| #![trigger a.frames_map()[v]] #![trigger a.frames_map().contains_key(v)] a.in_range(v as int) implies {
        &&& a.frames_map().contains_key(v)
        &&& m1[a.frames_map()[v]] == match c {
            Some(d) => data_page(d, v - a.range().start.0),
            None => zero_page(),
        }
    } by {
        assert(a.frames_map().contains_key(v));
        assert(a.frames().contains(a.frames_map()[v]));
    }
}

impl MemorySet {
    /// Adds area `k` of the image: framed over `start_va .. end_va` with
    /// `permission`, filled with `content` when given.
    #[verifier::rlimit(40)]
    fn push_user_area(&mut self, start_va: usize, end_va: usize, permission: MapPermission, content: Option<&[u8]>,
        alloc: &mut StackFrameAllocator, mem: &mut PhysMem, Ghost(data): Ghost<Seq<u8>>,
        Ghost(segs): Ghost<Seq<ElfSegment>>, Ghost(l): Ghost<UserLayout>, Ghost(k): Ghost<int>)
        requires
            0 <= k < segs.len() + 2,
            data.len() <= usize::MAX,
            image_fits(data.len(), segs, l),
            old(self).wf(old(mem)@, *old(alloc)),
            built_upto(*old(self), old(mem)@, data, segs, l, k),
            (start_va, end_va) == area_bounds(segs, l)[k],
            permission.spec_bits() == area_perms(segs)[k],
            match content {
                Some(d) => area_data(data, segs, k) == Some(d@),
                None => area_data(data, segs, k) is None,
            },
            old(alloc).num_free() >= plan_frames(l1_slots(old(mem)@, old(self).root()), l0_slots(old(mem)@, old(self).root()),
                user_plans(segs, l).skip(k + 1)),
        ensures
            final(self).root() == old(self).root(),
            final(self).wf(final(mem)@, *final(alloc)),
            built_upto(*final(self), final(mem)@, data, segs, l, k + 1),
            (old(alloc).num_free() - final(alloc).num_free()) + plan_frames(l1_slots(final(mem)@, final(self).root()),
                l0_slots(final(mem)@, final(self).root()), user_plans(segs, l).skip(k + 2))
                == plan_frames(l1_slots(old(mem)@, old(self).root()), l0_slots(old(mem)@, old(self).root()),
                user_plans(segs, l).skip(k + 1)),
            handed_out(*old(alloc), *final(alloc), old(self).owned_all(), final(self).owned_all()),
            final(mem)@.dom() == old(mem)@.dom(),
            forall|p: usize| old(mem)@.contains_key(p) && !final(self).pt().owned().contains(p) && !old(alloc).free_set().contains(p)
                ==> #[trigger] final(mem)@[p] == old(mem)@[p],
    {
        let ghost mem0 = mem@;
        let ghost alloc0 = *alloc;
        let ghost root = self.root();
        let ghost areas0 = self.areas();
        let ghost pt0 = self.pt();
        let ghost rs = area_ranges(segs, l);
        let ghost r = rs[k];
        let ghost tv = floor_of(l.trampoline);
        let ghost plans = user_plans(segs, l);
        let area = MapArea::new(VirtAddr::from(start_va), VirtAddr::from(end_va), MapType::Framed, permission);
        let ghost area0 = area;
        proof {
            let rst = rs.push(trampoline_range(l));
            assert(rst[k] == r);
            assert(rst[segs.len() + 2int] == trampoline_range(l));
            assert(slots_distinct(r));
            assert(slots_disjoint(r, trampoline_range(l)));
            assert(r == (floor_of(start_va), ceil_of(end_va)));
            assert(area.frames() =~= Set::<usize>::empty());
            assert(self.owned_all().union(area.frames()) =~= self.owned_all());
            assert(plans.skip(k + 1)[0] == plans[k + 1]);
            assert(plans[k + 1] == (r.0 as int, span(r.0, r.1), 1nat));
            assert(plans.skip(k + 1).drop_first() == plans.skip(k + 2));
            assert(area.page_count() == span(r.0, r.1));
            assert forall|v: usize| area.in_range(v as int) implies #[trigger] mapping(mem0, root, v) is None by {
                assert(!same_slot(v, tv)) by {
                    assert(tv <= tv < trampoline_range(l).1);
                }
                if covered(rs, k, v) {
                    let (i, w) = choose|i: int, w: usize| 0 <= i < k && rs[i].0 <= w < rs[i].1 && #[trigger] same_slot(v, w)
                        && #[trigger] rs[i] == rs[i];
                    assert(rst[i] == rs[i]);
                    assert(slots_disjoint(rs[i], r));
                    assert(same_slot(w, v));
                }
            }
            if k < segs.len() {
                let sg = segs[k];
                assert(area_bounds(segs, l)[k] == (sg.start_va, sg.end_va));
                assert(sg.data_end - sg.data_start <= span(r.0, r.1) * 4096);
            }
        }
        self.push(area, content, alloc, mem);
        proof {
            let m = mem@;
            let areas1 = self.areas();
            assert forall|i: int, j: int, v: usize, w: usize| 0 <= i < j < k + 1 && areas1[i].in_range(v as int)
                && areas1[j].in_range(w as int) implies #[trigger] areas1[i].frames_map()[v]
                != #[trigger] areas1[j].frames_map()[w] by {
                assert(areas1.drop_last()[i] == areas0[i]);
                assert(areas1[i] == areas0[i]);
                if j < k {
                    assert(areas1.drop_last()[j] == areas0[j]);
                    assert(areas1[j] == areas0[j]);
                } else {
                    assert(areas1[j] == areas1.last());
                    assert(area0.in_range(w as int));
                    assert(alloc0.free_set().contains(areas1[j].frames_map()[w]));
                    assert(area_holds(areas0[i], mem0, area_data(data, segs, i)));
                    assert(areas0[i].frames_map().contains_key(v));
                    assert(areas0[i].frames().contains(areas0[i].frames_map()[v]));
                    assert(areas_frames(areas0).contains(areas0[i].frames_map()[v]));
                }
            }
            assert forall|i: int| 0 <= i < k + 1 implies {
                &&& (#[trigger] areas1[i]).range().start.0 == rs[i].0
                &&& areas1[i].range().end.0 == rs[i].1
                &&& areas1[i].kind() == MapType::Framed
                &&& areas1[i].perm() == area_perms(segs)[i]
                &&& area_holds(areas1[i], m, area_data(data, segs, i))
            } by {
                if i < k {
                    assert(areas1.drop_last()[i] == areas0[i]);
                    assert(areas1[i] == areas0[i]);
                    assert forall|p: usize| #[trigger] areas0[i].frames().contains(p) implies m[p] == mem0[p] by {
                        assert(areas_frames(areas0).contains(p));
                        assert(areas1[i].frames().contains(p));
                    }
                    lemma_holds_kept(areas0[i], mem0, m, area_data(data, segs, i));
                } else {
                    assert(areas1[i] == areas1.last());
                    assert forall|v: usize| #![trigger areas1[i].frames_map()[v]] #![trigger areas1[i].frames_map().contains_key(v)]
                        areas1[i].in_range(v as int) implies {
                        &&& areas1[i].frames_map().contains_key(v)
                        &&& m[areas1[i].frames_map()[v]] == match area_data(data, segs, i) {
                            Some(d) => data_page(d, v - areas1[i].range().start.0),
                            None => zero_page(),
                        }
                    } by {
                        assert(area0.in_range(v as int));
                    }
                }
            }
            assert forall|v: usize| same_slot(v, tv) implies #[trigger] mapping(m, root, v)
                == Some(PageTableEntry { bits: pte_bits(floor_of(l.strampoline), 11) }) by {
                let rst = rs.push(trampoline_range(l));
                assert(rst[k] == r);
                assert(rst[segs.len() + 2int] == trampoline_range(l));
                assert(slots_disjoint(r, trampoline_range(l)));
                assert forall|w: usize| area0.in_range(w as int) implies !same_slot(v, w) by {
                    assert(!same_slot(w, tv)) by {
                        assert(tv <= tv < trampoline_range(l).1);
                    }
                }
            }
            assert forall|v: usize| !same_slot(v, tv) && !covered(rs, k + 1, v) implies #[trigger] mapping(m, root, v) is None by {
                assert forall|w: usize| area0.in_range(w as int) implies !same_slot(v, w) by {
                    if same_slot(v, w) {
                        assert(rs[k] == rs[k]);
                        assert(covered(rs, k + 1, v));
                    }
                }
                if covered(rs, k, v) {
                    let (i, w) = choose|i: int, w: usize| 0 <= i < k && rs[i].0 <= w < rs[i].1 && #[trigger] same_slot(v, w)
                        && #[trigger] rs[i] == rs[i];
                    assert(covered(rs, k + 1, v));
                }
            }
        }
    }
}

/// One more area added: the frames were taken from those free at the start,
/// and memory outside them is still as it was.
proof fn lemma_frames_kept(a0: StackFrameAllocator, a1: StackFrameAllocator, a2: StackFrameAllocator, o1: Set<usize>,
    o2: Set<usize>, m0: Map<usize, Seq<u8>>, m1: Map<usize, Seq<u8>>, m2: Map<usize, Seq<u8>>, ms: MemorySet)
    requires
        handed_out(a0, a1, Set::empty(), o1),
        handed_out(a1, a2, o1, o2),
        o2 == ms.owned_all(),
        m1.dom() == m0.dom(),
        m2.dom() == m1.dom(),
        forall|p: usize| m0.contains_key(p) && !a0.free_set().contains(p) ==> #[trigger] m1[p] == m0[p],
        forall|p: usize| m1.contains_key(p) && !ms.pt().owned().contains(p) && !a1.free_set().contains(p)
            ==> #[trigger] m2[p] == m1[p],
    ensures
        handed_out(a0, a2, Set::empty(), o2),
        forall|p: usize| m0.contains_key(p) && !a0.free_set().contains(p) ==> #[trigger] m2[p] == m0[p],
{
    lemma_handed_out_trans(a0, a1, a2, Set::empty(), o1, o2);
    assert forall|p: usize| m0.contains_key(p) && !a0.free_set().contains(p) implies #[trigger] m2[p] == m0[p] by {
        assert(!o2.contains(p));
        assert(!a1.free_set().contains(p));
        assert(m1[p] == m0[p]);
    }
}

impl MemorySet {
    /// The address space of an application from the loadable segments of its
    /// ELF file `elf_data`: the trampoline page, each segment framed with U
    /// and its R/W/X flags and filled with its bytes of the file, the user
    /// stack (R|W|U) from one guard page above the last segment, and the
    /// trap context's pages up to the trampoline (R|W). Returns it with the
    /// top of the user stack and the entry point.
    pub fn from_elf_image(elf_data: &[u8], image: &ElfImage, layout: &UserLayout, alloc: &mut StackFrameAllocator,
        mem: &mut PhysMem) -> (r: (MemorySet, usize, usize))
        requires
            old(alloc).sound(),
            frames_ok(old(mem)@),
            forall|p: usize| #[trigger] old(alloc).free_set().contains(p) ==> old(mem)@.contains_key(p),
            offset_of(layout.trampoline) == 0,
            offset_of(layout.strampoline) == 0,
            image_fits(elf_data@.len(), image.segments@, *layout),
            old(alloc).num_free() >= 1 + plan_frames(Set::empty(), Set::empty(), user_plans(image.segments@, *layout)),
        ensures
            r.0.wf(final(mem)@, *final(alloc)),
            built_upto(r.0, final(mem)@, elf_data@, image.segments@, *layout, image.segments@.len() + 2int),
            r.1 == stack_top(image.segments@, *layout),
            r.2 == image.entry_point as usize,
            final(alloc).num_free() + 1 + plan_frames(Set::empty(), Set::empty(), user_plans(image.segments@, *layout))
                == old(alloc).num_free(),
            final(mem)@.dom() == old(mem)@.dom(),
            forall|p: usize| old(mem)@.contains_key(p) && !old(alloc).free_set().contains(p)
                ==> #[trigger] final(mem)@[p] == old(mem)@[p],
            handed_out(*old(alloc), *final(alloc), Set::empty(), r.0.owned_all()),
    {
        proof {
            crate::frame_allocator::lemma_alloc_result_free(*old(alloc));
        }
        let ghost mem0 = old(mem)@;
        let ghost alloc0 = *old(alloc);
        let ghost segs = image.segments@;
        let ghost l = *layout;
        let ghost data = elf_data@;
        let ghost plans = user_plans(segs, l);
        let ghost total = 1 + plan_frames(Set::empty(), Set::empty(), plans);
        let data_len = elf_data.len();
        let mut memory_set = Self::new_bare(alloc, mem);
        let ghost root = memory_set.root();
        let ghost tv = floor_of(layout.trampoline);
        proof {
            crate::frame_allocator::lemma_took_frame(alloc0, *alloc, root);
            crate::address::lemma_indexes_compose(tv);
            assert(frames_needed(Set::empty(), Set::empty(), tv as int, 1, 0) == 2) by {
                assert(frames_needed(Set::<int>::empty().insert(vpn_index(tv, 0) as int),
                    Set::<(int, int)>::empty().insert((vpn_index(tv, 0) as int, vpn_index(tv, 1) as int)), tv + 1, 0, 0) == 0);
            }
            assert(missing_tables(mem@, root, tv) == 2) by {
                assert(!l1_slots(mem@, root).contains(vpn_index(tv, 0) as int));
            }
            assert(plans[0] == (tv as int, 1nat, 0nat));
        }
        let ghost alloc1 = *alloc;
        let ghost owned1 = memory_set.owned_all();
        proof {
            assert(handed_out(alloc0, alloc1, Set::empty(), owned1)) by {
                assert(alloc1.free_set() =~= alloc0.free_set().remove(root));
            }
            assert forall|p: usize| mem0.contains_key(p) && !alloc0.free_set().contains(p) implies #[trigger] mem@[p] == mem0[p] by {
                assert(p != root);
            }
        }
        memory_set.map_trampoline(layout.trampoline, layout.strampoline, alloc, mem);
        proof {
            lemma_handed_out_trans(alloc0, alloc1, *alloc, Set::empty(), owned1, memory_set.owned_all());
            assert forall|p: usize| mem0.contains_key(p) && !alloc0.free_set().contains(p) implies #[trigger] mem@[p] == mem0[p] by {
                assert(!memory_set.owned_all().contains(p));
            }
            assert(plans.skip(1) == plans.drop_first());
            assert(l1_slots(mem@, root) =~= Set::<int>::empty().union(range_l1(tv as int, 1)));
            assert(l0_slots(mem@, root) =~= Set::<(int, int)>::empty().union(range_l0(tv as int, 1)));
            assert forall|v: usize| !same_slot(v, tv) && !covered(area_ranges(segs, l), 0, v)
                implies #[trigger] mapping(mem@, root, v) is None by {}
            assert(built_upto(memory_set, mem@, data, segs, l, 0));
        }
        let n = image.segments.len();
        let mut max_end_vpn = VirtPageNum(0);
        let mut k: usize = 0;
        while k < n
            invariant
                n == segs.len(),
                segs == image.segments@,
                data == elf_data@,
                data_len == data.len(),
                l == *layout,
                plans == user_plans(segs, l),
                k <= n,
                image_fits(data.len(), segs, l),
                memory_set.root() == root,
                memory_set.wf(mem@, *alloc),
                built_upto(memory_set, mem@, data, segs, l, k as int),
                k == 0 ==> max_end_vpn.0 == 0,
                k > 0 ==> max_end_vpn.0 == ceil_of(segs[k - 1].end_va),
                total == 1 + plan_frames(Set::empty(), Set::empty(), plans),
                total == (alloc0.num_free() - alloc.num_free()) + plan_frames(l1_slots(mem@, root), l0_slots(mem@, root),
                    plans.skip(k + 1)),
                alloc.num_free() >= plan_frames(l1_slots(mem@, root), l0_slots(mem@, root), plans.skip(k + 1)),
                mem@.dom() == mem0.dom(),
                forall|p: usize| mem0.contains_key(p) && !alloc0.free_set().contains(p) ==> #[trigger] mem@[p] == mem0[p],
                handed_out(alloc0, *alloc, Set::empty(), memory_set.owned_all()),
            decreases n - k,
        {
            let sg = image.segments[k];
            let pr = MapPermission::R();
            let pw = MapPermission::W();
            let px = MapPermission::X();
            let mut permission = MapPermission::U();
            if sg.readable {
                proof {
                    lemma_permission_union(permission, pr);
                }
                permission = permission | pr;
            }
            if sg.writable {
                proof {
                    lemma_permission_union(permission, pw);
                }
                permission = permission | pw;
            }
            if sg.executable {
                proof {
                    lemma_permission_union(permission, px);
                }
                permission = permission | px;
            }
            max_end_vpn = VirtAddr::from(sg.end_va).ceil();
            proof {
                assert(segs[k as int] == sg);
                assert(sg.data_start <= sg.data_end <= data.len());
                assert(area_bounds(segs, l)[k as int] == (sg.start_va, sg.end_va));
                assert(area_perms(segs)[k as int] == seg_perm(sg));
            }
            let bytes = slice_subrange(elf_data, sg.data_start, sg.data_end);
            let ghost pre = (memory_set.owned_all(), *alloc, mem@);
            memory_set.push_user_area(sg.start_va, sg.end_va, permission, Some(bytes), alloc, mem, Ghost(data),
                Ghost(segs), Ghost(l), Ghost(k as int));
            proof {
                lemma_frames_kept(alloc0, pre.1, *alloc, pre.0, memory_set.owned_all(), mem0, pre.2, mem@, memory_set);
            }
            k = k + 1;
        }
        let max_end_va = VirtAddr::from(max_end_vpn);
        let mut user_stack_bottom: usize = usize::from(max_end_va);
        proof {
            assert(user_stack_bottom == page_start(last_end_vpn(segs)));
        }
        user_stack_bottom += PAGE_SIZE;
        let user_stack_top = user_stack_bottom + layout.user_stack_size;
        let pr = MapPermission::R();
        let pw = MapPermission::W();
        let pu = MapPermission::U();
        let stack_perm = pr | pw | pu;
        proof {
            lemma_permission_union(pr, pw);
            lemma_permission_union(BitOrSpec::bitor_spec(pr, pw), pu);
            assert(2u8 | 4u8 == 6u8 && (6u8 | 16u8) == 22u8) by (bit_vector);
            assert(area_bounds(segs, l)[n as int] == (user_stack_bottom, user_stack_top));
            assert(area_perms(segs)[n as int] == 22u8);
        }
        let ghost pre = (memory_set.owned_all(), *alloc, mem@);
        memory_set.push_user_area(user_stack_bottom, user_stack_top, stack_perm, None, alloc, mem, Ghost(data),
            Ghost(segs), Ghost(l), Ghost(n as int));
        proof {
            lemma_frames_kept(alloc0, pre.1, *alloc, pre.0, memory_set.owned_all(), mem0, pre.2, mem@, memory_set);
        }
        let trap_perm = pr | pw;
        proof {
            assert(area_bounds(segs, l)[n + 1] == (layout.trap_context, layout.trampoline));
            assert(area_perms(segs)[n + 1] == 6u8);
        }
        let ghost pre = (memory_set.owned_all(), *alloc, mem@);
        memory_set.push_user_area(layout.trap_context, layout.trampoline, trap_perm, None, alloc, mem, Ghost(data),
            Ghost(segs), Ghost(l), Ghost(n + 1));
        proof {
            lemma_frames_kept(alloc0, pre.1, *alloc, pre.0, memory_set.owned_all(), mem0, pre.2, mem@, memory_set);
        }
        proof {
            assert(plans.skip(n + 3) =~= Seq::<(int, nat, nat)>::empty());
        }
        (memory_set, user_stack_top, image.entry_point as usize)
    }
}

/// Whether `free` frames cover building an address space whose trampoline
/// is page `tv` and whose areas are the page ranges `rs`: the root table
/// and what mapping the plans takes (see `user_plans_of`).
pub fn user_frames_fit(free: usize, tv: usize, rs: &Vec<(usize, usize)>) -> (b: bool)
    requires
        tv < usize::MAX,
    ensures
        b == (free >= 1 + plan_frames(Set::empty(), Set::empty(), user_plans_of(tv as int, rs@))),
{
    let mut plans: Vec<(usize, usize, usize)> = Vec::new();
    plans.push((tv, 1, 0));
    let mut i: usize = 0;
    while i < rs.len()
        invariant
            tv < usize::MAX,
            i <= rs@.len(),
            plans@.len() == i + 1,
            plans@[0] == (tv, 1usize, 0usize),
            forall|j: int| 0 <= j < i ==> #[trigger] plans@[j + 1] == (rs@[j].0, span(rs@[j].0, rs@[j].1) as usize, 1usize),
            forall|j: int| 0 <= j < plans@.len() ==> #[trigger] plans@[j].0 + plans@[j].1 <= usize::MAX && plans@[j].2 <= 1,
        decreases rs@.len() - i,
    {
        let r = rs[i];
        let pages = if r.0 <= r.1 { r.1 - r.0 } else { 0 };
        plans.push((r.0, pages, 1));
        proof {
            assert(plans@[i + 1] == (r.0, pages, 1usize));
        }
        i = i + 1;
    }
    proof {
        let pv = plans_view(plans@);
        let up = user_plans_of(tv as int, rs@);
        assert(pv.len() == up.len());
        assert forall|j: int| 0 <= j < pv.len() implies pv[j] == up[j] by {
            if j > 0 {
                let r = rs@[j - 1];
                assert(plans@[(j - 1) + 1] == (r.0, span(r.0, r.1) as usize, 1usize));
                assert(span(r.0, r.1) <= usize::MAX);
            }
        }
        assert(pv =~= up);
    }
    plans_fit(free, &plans)
}

/// The areas' page ranges for the segments, or `None` when the user stack
/// would end past the machine word.
pub fn user_area_ranges(segs: &Vec<ElfSegment>, layout: &UserLayout) -> (r: Option<Vec<(usize, usize)>>)
    ensures
        match r {
            Some(v) => stack_top(segs@, *layout) <= usize::MAX && v@ == area_ranges(segs@, *layout),
            None => stack_top(segs@, *layout) > usize::MAX,
        },
{
    let ghost l = *layout;
    let n = segs.len();
    let mut v: Vec<(usize, usize)> = Vec::new();
    let mut i: usize = 0;
    while i < n
        invariant
            n == segs@.len(),
            i <= n,
            v@.len() == i,
            forall|k: int| 0 <= k < i ==> #[trigger] v@[k] == area_ranges(segs@, l)[k],
        decreases n - i,
    {
        let sg = segs[i];
        proof {
            assert(area_bounds(segs@, l)[i as int] == (sg.start_va, sg.end_va));
        }
        v.push((VirtAddr::from(sg.start_va).floor().0, VirtAddr::from(sg.end_va).ceil().0));
        i = i + 1;
    }
    let last_end: usize = if n == 0 { 0 } else { VirtAddr::from(segs[n - 1].end_va).ceil().0 };
    let bottom0 = usize::from(VirtAddr::from(VirtPageNum(last_end)));
    proof {
        assert(bottom0 == page_start(last_end_vpn(segs@)));
    }
    let bottom = match bottom0.checked_add(PAGE_SIZE) {
        Some(b) => b,
        None => return None,
    };
    let top = match bottom.checked_add(layout.user_stack_size) {
        Some(t) => t,
        None => return None,
    };
    v.push((VirtAddr::from(bottom).floor().0, VirtAddr::from(top).ceil().0));
    v.push((VirtAddr::from(layout.trap_context).floor().0, VirtAddr::from(layout.trampoline).ceil().0));
    proof {
        assert(area_bounds(segs@, l)[n as int] == (bottom, top));
        assert(area_bounds(segs@, l)[n + 1] == (layout.trap_context, layout.trampoline));
        assert(v@ =~= area_ranges(segs@, l));
    }
    Some(v)
}

/// Whether each segment's bytes lie in a file of `data_len` bytes and fit
/// the pages of its range, whose bytes fit the machine word; `rs` holds the
/// segments' ranges first.
pub fn segment_bytes_fit(data_len: usize, segs: &Vec<ElfSegment>, rs: &Vec<(usize, usize)>) -> (b: bool)
    requires
        rs@.len() >= segs@.len(),
    ensures
        b == forall|i: int| 0 <= i < segs@.len() ==> {
            &&& (#[trigger] segs@[i]).data_start <= segs@[i].data_end <= data_len
            &&& span(rs@[i].0, rs@[i].1) * 4096 <= usize::MAX
            &&& segs@[i].data_end - segs@[i].data_start <= span(rs@[i].0, rs@[i].1) * 4096
        },
{
    let n = segs.len();
    let mut i: usize = 0;
    while i < n
        invariant
            n == segs@.len(),
            n <= rs@.len(),
            i <= n,
            forall|k: int| 0 <= k < i ==> {
                &&& (#[trigger] segs@[k]).data_start <= segs@[k].data_end <= data_len
                &&& span(rs@[k].0, rs@[k].1) * 4096 <= usize::MAX
                &&& segs@[k].data_end - segs@[k].data_start <= span(rs@[k].0, rs@[k].1) * 4096
            },
        decreases n - i,
    {
        let sg = segs[i];
        let r = rs[i];
        if sg.data_start > sg.data_end || sg.data_end > data_len {
            return false;
        }
        let pages = if r.0 <= r.1 { r.1 - r.0 } else { 0 };
        let size = match pages.checked_mul(PAGE_SIZE) {
            Some(x) => x,
            None => {
                proof {
                    assert(segs@[i as int] == sg);
                }
                return false;
            },
        };
        if sg.data_end - sg.data_start > size {
            proof {
                assert(segs@[i as int] == sg);
            }
            return false;
        }
        i = i + 1;
    }
    true
}

/// Whether an application's address space can be built from the ELF file
/// `data` with `free` frames at hand: the file can be loaded, its segments
/// fit the layout and the frames cover what building takes, the root table
/// and the tables and frames mapping its pages takes.
pub open spec fn elf_loads(data: Seq<u8>, l: UserLayout, free: nat) -> bool {
    match elf_image(data) {
        Some((segs, _)) => image_fits(data.len(), segs, l) && free >= 1 + plan_frames(Set::empty(), Set::empty(),
            user_plans(segs, l)),
        None => false,
    }
}

impl MemorySet {
    /// The address space of the application in the ELF file `elf_data`,
    /// with the top of its user stack and its entry point: the file is read,
    /// its segments are checked against the layout and the frames at hand,
    /// and the address space is built by `from_elf_image`. The file must
    /// start with the ELF magic number. `None`, with nothing taken or
    /// written, when it cannot be built (see `elf_loads`).
    pub fn from_elf(elf_data: &[u8], layout: &UserLayout, alloc: &mut StackFrameAllocator, mem: &mut PhysMem)
        -> (r: Option<(MemorySet, usize, usize)>)
        requires
            elf_magic(elf_data@),
            old(alloc).sound(),
            frames_ok(old(mem)@),
            forall|p: usize| #[trigger] old(alloc).free_set().contains(p) ==> old(mem)@.contains_key(p),
            offset_of(layout.trampoline) == 0,
            offset_of(layout.strampoline) == 0,
        ensures
            r is Some <==> elf_loads(elf_data@, *layout, old(alloc).num_free()),
            r is None ==> *final(alloc) == *old(alloc) && final(mem)@ == old(mem)@,
            r matches Some((ms, sp, entry)) ==> elf_image(elf_data@) matches Some((segs, e)) && {
                &&& ms.wf(final(mem)@, *final(alloc))
                &&& built_upto(ms, final(mem)@, elf_data@, segs, *layout, segs.len() + 2int)
                &&& sp == stack_top(segs, *layout)
                &&& entry == e as usize
                &&& final(alloc).num_free() + 1 + plan_frames(Set::empty(), Set::empty(), user_plans(segs, *layout))
                    == old(alloc).num_free()
                &&& final(mem)@.dom() == old(mem)@.dom()
                &&& forall|p: usize| old(mem)@.contains_key(p) && !old(alloc).free_set().contains(p)
                    ==> #[trigger] final(mem)@[p] == old(mem)@[p]
                &&& handed_out(*old(alloc), *final(alloc), Set::empty(), ms.owned_all())
            },
    {
        let image = match read_elf_image(elf_data) {
            Some(img) => img,
            None => return None,
        };
        let ghost segs = image.segments@;
        let mut ranges = match user_area_ranges(&image.segments, layout) {
            Some(v) => v,
            None => return None,
        };
        let free = alloc.free_count();
        let tv = VirtAddr::from(layout.trampoline).floor().0;
        proof {
            assert(tv == floor_of(layout.trampoline));
            assert(tv < usize::MAX);
        }
        if !user_frames_fit(free, tv, &ranges) {
            return None;
        }
        if !segment_bytes_fit(elf_data.len(), &image.segments, &ranges) {
            return None;
        }
        let ghost rs = ranges@;
        ranges.push((tv, tv + 1));
        if !ranges_apart(&ranges) {
            proof {
                assert(ranges@ == rs.push(trampoline_range(*layout)));
            }
            return None;
        }
        proof {
            assert(ranges@ == rs.push(trampoline_range(*layout)));
            assert(image_fits(elf_data@.len(), segs, *layout));
        }
        Some(Self::from_elf_image(elf_data, &image, layout, alloc, mem))
    }
}

/// An application's address space keeps its areas and their contents when
/// none of its frames changes.
pub proof fn lemma_built_kept(ms: MemorySet, m0: Map<usize, Seq<u8>>, m1: Map<usize, Seq<u8>>, a0: StackFrameAllocator,
    data: Seq<u8>, segs: Seq<ElfSegment>, l: UserLayout, k: int)
    requires
        ms.wf(m0, a0),
        built_upto(ms, m0, data, segs, l, k),
        m1.dom() == m0.dom(),
        frames_ok(m1),
        forall|p: usize| #[trigger] ms.owned_all().contains(p) && m0.contains_key(p) ==> m1[p] == m0[p],
    ensures
        built_upto(ms, m1, data, segs, l, k),
{
    crate::memory_set::lemma_wf_kept(ms, m0, m1, a0, a0);
    assert forall|i: int| 0 <= i < k implies area_holds(#[trigger] ms.areas()[i], m1, area_data(data, segs, i)) by {
        assert forall|p: usize| #[trigger] ms.areas()[i].frames().contains(p) implies m1[p] == m0[p] by {
            assert(areas_frames(ms.areas()).contains(p));
            assert(ms.owned_all().contains(p));
        }
        lemma_holds_kept(ms.areas()[i], m0, m1, area_data(data, segs, i));
    }
}

/// Isolation: an address space built with frames the allocator held after
/// another one was built (as `from_elf` reports) shares no frame with it, so
/// no page of one reaches a frame of the other.
pub proof fn lemma_spaces_share_no_frame(ms1: MemorySet, ms2: MemorySet, m: Map<usize, Seq<u8>>, a1: StackFrameAllocator,
    a2: StackFrameAllocator)
    requires
        ms1.wf(m, a1),
        handed_out(a1, a2, Set::empty(), ms2.owned_all()),
    ensures
        forall|p: usize| #[trigger] ms1.owned_all().contains(p) ==> !ms2.owned_all().contains(p),
{
    assert forall|p: usize| #[trigger] ms1.owned_all().contains(p) implies !ms2.owned_all().contains(p) by {
        assert(!a1.free_set().contains(p));
    }
}

/// The flag bits of a page table entry: V, then R, W and X as given, and U.
pub open spec fn flag_bits(user: bool, r: bool, w: bool, x: bool) -> u64 {
    1u64 | (if r { 2u64 } else { 0u64 }) | (if w { 4u64 } else { 0u64 }) | (if x { 8u64 } else { 0u64 })
        | (if user { 16u64 } else { 0u64 })
}

/// The permissions an application's pages get: each page of a loadable
/// segment is mapped valid and user-accessible, readable, writable and
/// executable exactly as the segment's flags say; each page of the user
/// stack readable and writable for the user; the trap context's page
/// readable and writable for the kernel only.
pub proof fn lemma_user_page_flags(ms: MemorySet, mem: Map<usize, Seq<u8>>, alloc: StackFrameAllocator,
    data: Seq<u8>, segs: Seq<ElfSegment>, l: UserLayout, i: int, v: usize)
    requires
        ms.wf(mem, alloc),
        built_upto(ms, mem, data, segs, l, segs.len() + 2int),
        0 <= i < segs.len() + 2,
        area_ranges(segs, l)[i].0 <= v < area_ranges(segs, l)[i].1,
    ensures
        mapping(mem, ms.root(), v) matches Some(e) && e.bits & 0x1f == if i < segs.len() {
            flag_bits(true, segs[i].readable, segs[i].writable, segs[i].executable)
        } else if i == segs.len() {
            flag_bits(true, true, true, false)
        } else {
            flag_bits(false, true, true, false)
        },
{
    let area = ms.areas()[i];
    assert(area.in_range(v as int));
    assert(mapping(mem, ms.root(), v) == Some(area.entry(v)));
    let p = area.perm();
    crate::page_table::lemma_pte_flag_bits(area.target(v), (p | 1) as u8);
    assert(p == area_perms(segs)[i]);
    if i < segs.len() {
        let s = segs[i];
        assert(p == seg_perm(s));
        let r = s.readable;
        let w = s.writable;
        let x = s.executable;
        let p1: u8 = if r { 16u8 | 2u8 } else { 16u8 };
        let p2: u8 = if w { p1 | 4u8 } else { p1 };
        assert(((p | 1) & 0x1f) as u64 == flag_bits(true, r, w, x)) by (bit_vector)
            requires
                p1 == (if r { 16u8 | 2u8 } else { 16u8 }),
                p2 == (if w { p1 | 4u8 } else { p1 }),
                p == (if x { p2 | 8u8 } else { p2 });
    } else if i == segs.len() {
        assert(p == 22u8);
        assert(((22u8 | 1u8) & 0x1fu8) as u64 == 23u64) by (bit_vector);
        assert(flag_bits(true, true, true, false) == 23u64) by (bit_vector);
    } else {
        assert(p == 6u8);
        assert(((6u8 | 1u8) & 0x1fu8) as u64 == 7u64) by (bit_vector);
        assert(flag_bits(false, true, true, false) == 7u64) by (bit_vector);
    }
}

/// What an application reads at a page of one of its segments is what the
/// file holds there: byte `j` of the frame virtual page `v` leads to is the
/// segment's file byte at the same offset from the segment's first page,
/// and zero past the segment's file bytes.
pub proof fn lemma_segment_bytes_read_back(ms: MemorySet, mem: Map<usize, Seq<u8>>, alloc: StackFrameAllocator,
    data: Seq<u8>, segs: Seq<ElfSegment>, l: UserLayout, i: int, v: usize, j: int)
    requires
        ms.wf(mem, alloc),
        built_upto(ms, mem, data, segs, l, segs.len() + 2int),
        image_fits(data.len(), segs, l),
        0 <= i < segs.len(),
        area_ranges(segs, l)[i].0 <= v < area_ranges(segs, l)[i].1,
        0 <= j < 4096,
    ensures
        ({
            let off = (v - area_ranges(segs, l)[i].0) * 4096 + j;
            &&& walk(mem, ms.root(), v) is Some
            &&& mem[walk(mem, ms.root(), v)->0.spec_ppn()][j] == if off < segs[i].data_end - segs[i].data_start {
                data[segs[i].data_start + off]
            } else {
                0u8
            }
        }),
{
    let area = ms.areas()[i];
    let lo = area_ranges(segs, l)[i].0 as int;
    let sg = segs[i];
    let bytes = data.subrange(sg.data_start as int, sg.data_end as int);
    assert(area.in_range(v as int));
    assert(mapping(mem, ms.root(), v) == Some(area.entry(v)));
    assert(area.frames_map().contains_key(v));
    assert(area.frames().contains(area.frames_map()[v]));
    assert(areas_frames(ms.areas()).contains(area.frames_map()[v]));
    crate::page_table::lemma_pte_fields(area.target(v), (area.perm() | 1) as u8);
    assert(area_data(data, segs, i) == Some(bytes));
    assert(mem[area.frames_map()[v]] == data_page(bytes, v - lo));
}

/// Writing one frame of the last of `k` areas keeps the address space well
/// formed and the contents of every other area, no two areas sharing a
/// frame.
pub proof fn lemma_last_frame_written(ms: MemorySet, m0: Map<usize, Seq<u8>>, m1: Map<usize, Seq<u8>>,
    a: StackFrameAllocator, data: Seq<u8>, segs: Seq<ElfSegment>, l: UserLayout, k: int, w: usize, x: Seq<u8>)
    requires
        ms.wf(m0, a),
        built_upto(ms, m0, data, segs, l, k),
        k >= 1,
        ms.areas()[k - 1].in_range(w as int),
        x.len() == 4096,
        m1 == m0.insert(ms.areas()[k - 1].frames_map()[w], x),
    ensures
        ms.wf(m1, a),
        built_filled(ms, m1, data, segs, l, k, k - 1),
{
    let last = ms.areas()[k - 1];
    let p = last.frames_map()[w];
    let root = ms.root();
    assert(area_holds(last, m0, area_data(data, segs, k - 1)));
    assert(last.frames_map().contains_key(w));
    assert(last.frames().contains(p));
    assert(m0.contains_key(p) && !ms.pt().owned().contains(p));
    assert(m1.dom() =~= m0.dom());
    crate::page_table::lemma_tree_frame(m0, m1, root, ms.pt().owned());
    assert forall|v: usize| #[trigger] mapping(m1, root, v) == mapping(m0, root, v) by {
        assert(walk(m1, root, v) == walk(m0, root, v));
    }
    assert forall|i: int, v: usize| 0 <= i < ms.areas().len() && ms.areas()[i].in_range(v as int)
        implies #[trigger] mapping(m1, root, v) == Some(#[trigger] ms.areas()[i].entry(v)) by {
        assert(mapping(m0, root, v) == Some(ms.areas()[i].entry(v)));
    }
    assert forall|i: int| 0 <= i < k - 1 implies area_holds(#[trigger] ms.areas()[i], m1, area_data(data, segs, i)) by {
        let ai = ms.areas()[i];
        assert(area_holds(ai, m0, area_data(data, segs, i)));
        assert forall|v: usize| #![trigger ai.frames_map()[v]] #![trigger ai.frames_map().contains_key(v)]
            ai.in_range(v as int) implies {
            &&& ai.frames_map().contains_key(v)
            &&& m1[ai.frames_map()[v]] == match area_data(data, segs, i) {
                Some(d) => data_page(d, v - ai.range().start.0),
                None => zero_page(),
            }
        } by {
            assert(ai.frames_map()[v] != last.frames_map()[w]);
        }
    }
}

} // verus!
