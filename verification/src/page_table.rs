//! Sv39 page-table entries and the three-level page table, kept in the
//! physical-memory model.
use vstd::prelude::*;
use vstd::std_specs::ops::BitOrSpecImpl;
use crate::address::{PhysPageNum, VirtAddr, VirtPageNum, vpn_index, floor_of, ceil_of, offset_of};
use crate::phys_mem::{PhysMem, frames_ok, word_at, set_word, zero_page, lemma_set_word, lemma_zero_page_words};
use crate::frame_allocator::{StackFrameAllocator, FrameTracker, alloc_frame, lemma_took_frame, lemma_alloc_result_free};

verus! {

/// Flag bits of a page-table entry: V valid, R readable, W writable,
/// X executable, U user-accessible, G global, A accessed, D dirty. All eight
/// bits are defined, so every byte is a set of flags.
#[derive(Clone, Copy, Debug, PartialEq, Eq, Structural)]
pub struct PTEFlags {
    pub bits: u8,
}

#[allow(non_snake_case)]
impl PTEFlags {
    /// Valid.
    pub fn V() -> (f: PTEFlags)
        ensures f.bits == 1,
    {
        PTEFlags { bits: 1 }
    }

    /// Readable.
    pub fn R() -> (f: PTEFlags)
        ensures f.bits == 2,
    {
        PTEFlags { bits: 2 }
    }

    /// Writable.
    pub fn W() -> (f: PTEFlags)
        ensures f.bits == 4,
    {
        PTEFlags { bits: 4 }
    }

    /// Executable.
    pub fn X() -> (f: PTEFlags)
        ensures f.bits == 8,
    {
        PTEFlags { bits: 8 }
    }

    /// Accessible from user mode.
    pub fn U() -> (f: PTEFlags)
        ensures f.bits == 16,
    {
        PTEFlags { bits: 16 }
    }

    /// Global.
    pub fn G() -> (f: PTEFlags)
        ensures f.bits == 32,
    {
        PTEFlags { bits: 32 }
    }

    /// Accessed.
    pub fn A() -> (f: PTEFlags)
        ensures f.bits == 64,
    {
        PTEFlags { bits: 64 }
    }

    /// Dirty.
    pub fn D() -> (f: PTEFlags)
        ensures f.bits == 128,
    {
        PTEFlags { bits: 128 }
    }

    /// No flag set.
    pub fn empty() -> (f: PTEFlags)
        ensures f.bits == 0,
    {
        PTEFlags { bits: 0 }
    }

    /// The raw bits.
    pub fn bits(&self) -> (r: u8)
        ensures r == self.bits,
    {
        self.bits
    }

    /// The flags with the given bits; every byte is valid, so never `None`.
    pub fn from_bits(bits: u8) -> (r: Option<PTEFlags>)
        ensures r == Some(PTEFlags { bits }),
    {
        Some(PTEFlags { bits })
    }

    /// The flags with the given bits, undefined bits dropped (there are none).
    pub fn from_bits_truncate(bits: u8) -> (r: PTEFlags)
        ensures r.bits == bits,
    {
        assert(bits & 0xff == bits) by (bit_vector);
        PTEFlags { bits: bits & 0xff }
    }

    /// Whether every flag of `other` is set in `self`.
    pub fn contains(&self, other: PTEFlags) -> (r: bool)
        ensures r == (self.bits & other.bits == other.bits),
    {
        self.bits & other.bits == other.bits
    }
}

impl core::ops::BitOr for PTEFlags {
    type Output = PTEFlags;

    fn bitor(self, rhs: PTEFlags) -> (r: PTEFlags) {
        PTEFlags { bits: self.bits | rhs.bits }
    }
}

impl BitOrSpecImpl for PTEFlags {
    open spec fn obeys_bitor_spec() -> bool {
        true
    }

    open spec fn bitor_req(self, rhs: PTEFlags) -> bool {
        true
    }

    open spec fn bitor_spec(self, rhs: PTEFlags) -> PTEFlags {
        PTEFlags { bits: self.bits | rhs.bits }
    }
}

/// A page-table entry: the physical page number in bits 10 and up, the
/// flags in bits 0..8.
#[derive(Clone, Copy, Debug, PartialEq, Eq, Structural)]
pub struct PageTableEntry {
    pub bits: u64,
}

/// The bits of the entry that points to page `ppn` with flag bits `flags`.
pub open spec fn pte_bits(ppn: usize, flags: u8) -> u64 {
    ((ppn as u64) << 10u64) | (flags as u64)
}

impl PageTableEntry {
    /// The physical page number the entry holds.
    pub open spec fn spec_ppn(self) -> usize {
        (self.bits >> 10u64) as usize
    }

    /// The flag bits of the entry.
    pub open spec fn spec_flags(self) -> u8 {
        (self.bits & 0xff) as u8
    }

    /// Whether the V flag is set.
    pub open spec fn spec_valid(self) -> bool {
        self.bits & 1 == 1
    }

    /// The entry pointing to `ppn` with `flags`.
    pub fn new(ppn: PhysPageNum, flags: PTEFlags) -> (e: PageTableEntry)
        ensures
            e.bits == pte_bits(ppn.0, flags.bits),
    {
        PageTableEntry { bits: ((ppn.0 as u64) << 10u64) | (flags.bits as u64) }
    }

    /// The entry with all bits clear.
    pub fn empty() -> (e: PageTableEntry)
        ensures
            e.bits == 0,
    {
        PageTableEntry { bits: 0 }
    }

    /// The physical page number the entry points to.
    pub fn ppn(&self) -> (r: PhysPageNum)
        ensures
            r.0 == self.spec_ppn(),
    {
        PhysPageNum((self.bits >> 10u64) as usize)
    }

    /// The flags of the entry.
    pub fn flags(&self) -> (r: PTEFlags)
        ensures
            r.bits == self.spec_flags(),
    {
        PTEFlags::from_bits_truncate((self.bits & 0xff) as u8)
    }

    /// Whether the V flag is set.
    pub fn is_valid(&self) -> (r: bool)
        ensures
            r == self.spec_valid(),
    {
        let b = self.bits;
        assert(((b & 0xff) as u8) & 1 == 1 <==> b & 1 == 1) by (bit_vector);
        self.flags().contains(PTEFlags::V())
    }

    /// Whether the R flag is set.
    pub fn readable(&self) -> (r: bool)
        ensures
            r == (self.bits & 2 == 2),
    {
        let b = self.bits;
        assert(((b & 0xff) as u8) & 2 == 2 <==> b & 2 == 2) by (bit_vector);
        self.flags().contains(PTEFlags::R())
    }

    /// Whether the W flag is set.
    pub fn writable(&self) -> (r: bool)
        ensures
            r == (self.bits & 4 == 4),
    {
        let b = self.bits;
        assert(((b & 0xff) as u8) & 4 == 4 <==> b & 4 == 4) by (bit_vector);
        self.flags().contains(PTEFlags::W())
    }

    /// Whether the X flag is set.
    pub fn executable(&self) -> (r: bool)
        ensures
            r == (self.bits & 8 == 8),
    {
        let b = self.bits;
        assert(((b & 0xff) as u8) & 8 == 8 <==> b & 8 == 8) by (bit_vector);
        self.flags().contains(PTEFlags::X())
    }
}

/// An entry built from a page number that fits the 44-bit field gives that
/// page number and those flags back; it is valid exactly when V is among the
/// flags. The all-zero entry is not valid.
pub proof fn lemma_pte_fields(ppn: usize, flags: u8)
    requires
        ppn < 0x1000_0000_0000,
    ensures
        (PageTableEntry { bits: pte_bits(ppn, flags) }).spec_ppn() == ppn,
        (PageTableEntry { bits: pte_bits(ppn, flags) }).spec_flags() == flags,
        (PageTableEntry { bits: pte_bits(ppn, flags) }).spec_valid() == (flags & 1 == 1),
        !(PageTableEntry { bits: 0 }).spec_valid(),
{
    let p = ppn as u64;
    assert(p < 0x1000_0000_0000 ==> ((p << 10u64) | (flags as u64)) >> 10u64 == p) by (bit_vector);
    assert(((p << 10u64) | (flags as u64)) & 0xff == flags as u64) by (bit_vector);
    assert((((p << 10u64) | (flags as u64)) & 1 == 1) == (flags & 1 == 1)) by (bit_vector);
    assert(0u64 & 1 == 0) by (bit_vector);
}

/// The low flag bits of an entry are those of the flags it was built with,
/// whatever the page number.
pub proof fn lemma_pte_flag_bits(ppn: usize, flags: u8)
    ensures
        pte_bits(ppn, flags) & 0x1f == (flags & 0x1f) as u64,
{
    let p = ppn as u64;
    assert(((p << 10u64) | (flags as u64)) & 0x1f == (flags & 0x1f) as u64) by (bit_vector);
}

/// Whether an entry built from `flags` is valid depends on the V bit of the
/// flags alone; setting V makes it valid.
pub proof fn lemma_pte_valid_bit(ppn: usize, flags: u8)
    ensures
        (PageTableEntry { bits: pte_bits(ppn, flags) }).spec_valid() == (flags & 1 == 1),
        (flags | 1) & 1 == 1,
{
    let p = ppn as u64;
    assert((((p << 10u64) | (flags as u64)) & 1 == 1) == (flags & 1 == 1)) by (bit_vector);
    assert((flags | 1) & 1 == 1) by (bit_vector);
}

/// The entry stored as word `idx` of frame `page`.
pub open spec fn pte_at(mem: Map<usize, Seq<u8>>, page: usize, idx: int) -> PageTableEntry {
    PageTableEntry { bits: word_at(mem[page], idx) }
}

/// Whether root entry `a` is valid.
pub open spec fn l1_valid(mem: Map<usize, Seq<u8>>, root: usize, a: int) -> bool {
    pte_at(mem, root, a).spec_valid()
}

/// The second-level table page that root entry `a` points to.
pub open spec fn l1_page(mem: Map<usize, Seq<u8>>, root: usize, a: int) -> usize {
    pte_at(mem, root, a).spec_ppn()
}

/// Whether the walk through root entry `a` and second-level entry `b`
/// reaches a leaf table.
pub open spec fn l0_valid(mem: Map<usize, Seq<u8>>, root: usize, a: int, b: int) -> bool {
    l1_valid(mem, root, a) && pte_at(mem, l1_page(mem, root, a), b).spec_valid()
}

/// The leaf table page reached through root entry `a` and second-level entry `b`.
pub open spec fn l0_page(mem: Map<usize, Seq<u8>>, root: usize, a: int, b: int) -> usize {
    pte_at(mem, l1_page(mem, root, a), b).spec_ppn()
}

/// The hardware walk for virtual page `vpn` from root table `root`: the leaf
/// entry (valid or not) when both upper-level entries are valid, else nothing.
pub open spec fn walk(mem: Map<usize, Seq<u8>>, root: usize, vpn: usize) -> Option<PageTableEntry> {
    let a = vpn_index(vpn, 0) as int;
    let b = vpn_index(vpn, 1) as int;
    let c = vpn_index(vpn, 2) as int;
    if !l1_valid(mem, root, a) {
        None
    } else if !l0_valid(mem, root, a, b) {
        None
    } else {
        Some(pte_at(mem, l0_page(mem, root, a, b), c))
    }
}

/// Every table page the walk for `vpn` reads is part of the memory.
pub open spec fn walk_defined(mem: Map<usize, Seq<u8>>, root: usize, vpn: usize) -> bool {
    let a = vpn_index(vpn, 0) as int;
    let b = vpn_index(vpn, 1) as int;
    &&& frames_ok(mem)
    &&& mem.contains_key(root)
    &&& l1_valid(mem, root, a) ==> mem.contains_key(l1_page(mem, root, a))
    &&& l0_valid(mem, root, a, b) ==> mem.contains_key(l0_page(mem, root, a, b))
}

/// The mapping of `vpn`: the leaf entry when the walk reaches a valid one.
pub open spec fn mapping(mem: Map<usize, Seq<u8>>, root: usize, vpn: usize) -> Option<PageTableEntry> {
    match walk(mem, root, vpn) {
        Some(e) => if e.spec_valid() { Some(e) } else { None },
        None => None,
    }
}

/// Two virtual page numbers select the same leaf slot: all three Sv39
/// indexes agree.
pub open spec fn same_slot(v: usize, w: usize) -> bool {
    &&& vpn_index(v, 0) == vpn_index(w, 0)
    &&& vpn_index(v, 1) == vpn_index(w, 1)
    &&& vpn_index(v, 2) == vpn_index(w, 2)
}

/// The tables reachable from `root` form a tree of distinct pages, all in
/// memory and all among `owned`: the root, one second-level page per valid
/// root entry and one leaf page per valid second-level entry.
pub open spec fn tree_ok(mem: Map<usize, Seq<u8>>, root: usize, owned: Set<usize>) -> bool {
    &&& frames_ok(mem)
    &&& mem.contains_key(root)
    &&& owned.contains(root)
    &&& forall|a: int| 0 <= a < 512 && #[trigger] l1_valid(mem, root, a) ==> {
        &&& mem.contains_key(l1_page(mem, root, a))
        &&& owned.contains(l1_page(mem, root, a))
        &&& l1_page(mem, root, a) != root
    }
    &&& forall|a: int, a2: int|
        0 <= a < 512 && 0 <= a2 < 512 && a != a2 && #[trigger] l1_valid(mem, root, a) && #[trigger] l1_valid(mem, root, a2)
            ==> l1_page(mem, root, a) != l1_page(mem, root, a2)
    &&& forall|a: int, b: int| 0 <= a < 512 && 0 <= b < 512 && #[trigger] l0_valid(mem, root, a, b) ==> {
        &&& mem.contains_key(l0_page(mem, root, a, b))
        &&& owned.contains(l0_page(mem, root, a, b))
        &&& l0_page(mem, root, a, b) != root
    }
    &&& forall|a: int, b: int, a2: int|
        0 <= a < 512 && 0 <= b < 512 && 0 <= a2 < 512 && #[trigger] l0_valid(mem, root, a, b) && #[trigger] l1_valid(mem, root, a2)
            ==> l0_page(mem, root, a, b) != l1_page(mem, root, a2)
    &&& forall|a: int, b: int, a2: int, b2: int|
        0 <= a < 512 && 0 <= b < 512 && 0 <= a2 < 512 && 0 <= b2 < 512 && (a != a2 || b != b2)
            && #[trigger] l0_valid(mem, root, a, b) && #[trigger] l0_valid(mem, root, a2, b2)
            ==> l0_page(mem, root, a, b) != l0_page(mem, root, a2, b2)
}

/// Writing word `i` of frame `page` changes the entry there and no other.
pub proof fn lemma_pte_at_write(mem: Map<usize, Seq<u8>>, page: usize, i: int, w: u64)
    requires
        frames_ok(mem),
        mem.contains_key(page),
        0 <= i < 512,
    ensures
        frames_ok(mem.insert(page, set_word(mem[page], i, w))),
        pte_at(mem.insert(page, set_word(mem[page], i, w)), page, i).bits == w,
        forall|q: usize, j: int| 0 <= j < 512 && (q != page || j != i)
            ==> #[trigger] pte_at(mem.insert(page, set_word(mem[page], i, w)), q, j) == pte_at(mem, q, j),
{
    lemma_set_word(mem[page], i, w);
    let m2 = mem.insert(page, set_word(mem[page], i, w));
    assert forall|q: usize, j: int| 0 <= j < 512 && (q != page || j != i)
        implies #[trigger] pte_at(m2, q, j) == pte_at(mem, q, j) by {
        if q == page {
            assert(word_at(set_word(mem[page], i, w), j) == word_at(mem[page], j));
        }
    }
}

/// Zeroing frame `page` makes all its entries zero and changes no other entry.
pub proof fn lemma_pte_at_zero(mem: Map<usize, Seq<u8>>, page: usize)
    requires
        frames_ok(mem),
        mem.contains_key(page),
    ensures
        frames_ok(mem.insert(page, zero_page())),
        forall|j: int| 0 <= j < 512 ==> #[trigger] pte_at(mem.insert(page, zero_page()), page, j).bits == 0,
        forall|q: usize, j: int| q != page ==> #[trigger] pte_at(mem.insert(page, zero_page()), q, j) == pte_at(mem, q, j),
{
    lemma_zero_page_words();
    let m2 = mem.insert(page, zero_page());
    assert forall|j: int| 0 <= j < 512 implies #[trigger] pte_at(m2, page, j).bits == 0 by {
        assert(word_at(zero_page(), j) == 0);
    }
}

/// Changing only frames the tree does not own keeps the tree, every walk and
/// every table entry's validity.
pub proof fn lemma_tree_frame(m1: Map<usize, Seq<u8>>, m2: Map<usize, Seq<u8>>, root: usize, owned: Set<usize>)
    requires
        tree_ok(m1, root, owned),
        m2.dom() == m1.dom(),
        frames_ok(m2),
        forall|p: usize| #[trigger] owned.contains(p) && m1.contains_key(p) ==> m2[p] == m1[p],
    ensures
        tree_ok(m2, root, owned),
        forall|v: usize| #[trigger] walk(m2, root, v) == walk(m1, root, v),
        forall|x: int| 0 <= x < 512 ==> #[trigger] l1_valid(m2, root, x) == l1_valid(m1, root, x),
        forall|x: int, y: int| 0 <= x < 512 && 0 <= y < 512 ==> #[trigger] l0_valid(m2, root, x, y) == l0_valid(m1, root, x, y),
{
    assert forall|x: int| 0 <= x < 512 implies #[trigger] l1_valid(m2, root, x) == l1_valid(m1, root, x)
        && l1_page(m2, root, x) == l1_page(m1, root, x) by {
        assert(m2[root] == m1[root]);
    }
    assert forall|x: int, y: int| 0 <= x < 512 && 0 <= y < 512 implies #[trigger] l0_valid(m2, root, x, y)
        == l0_valid(m1, root, x, y) && (l0_valid(m1, root, x, y) ==> l0_page(m2, root, x, y) == l0_page(m1, root, x, y)) by {
        assert(m2[root] == m1[root]);
        if l1_valid(m1, root, x) {
            assert(owned.contains(l1_page(m1, root, x)));
            assert(m2[l1_page(m1, root, x)] == m1[l1_page(m1, root, x)]);
        }
    }
    assert(m2.dom() =~= m1.dom());
    assert(tree_ok(m2, root, owned));
    assert forall|v: usize| #[trigger] walk(m2, root, v) == walk(m1, root, v) by {
        let a = vpn_index(v, 0) as int;
        let b = vpn_index(v, 1) as int;
        crate::address::lemma_indexes_compose(v);
        assert(l1_valid(m2, root, a) == l1_valid(m1, root, a));
        assert(l0_valid(m2, root, a, b) == l0_valid(m1, root, a, b));
        if l0_valid(m1, root, a, b) {
            let q = l0_page(m1, root, a, b);
            assert(owned.contains(q));
            assert(m2[q] == m1[q]);
        }
    }
}

/// Writing leaf slot `c` of leaf table `l0_page(a, b)` keeps the tree and
/// changes the walk of exactly the virtual pages of that slot.
pub proof fn lemma_leaf_write(mem: Map<usize, Seq<u8>>, root: usize, owned: Set<usize>, vpn: usize, w: u64)
    requires
        tree_ok(mem, root, owned),
        l0_valid(mem, root, vpn_index(vpn, 0) as int, vpn_index(vpn, 1) as int),
    ensures
        ({
            let page = l0_page(mem, root, vpn_index(vpn, 0) as int, vpn_index(vpn, 1) as int);
            let m2 = mem.insert(page, set_word(mem[page], vpn_index(vpn, 2) as int, w));
            &&& tree_ok(m2, root, owned)
            &&& forall|v: usize| #[trigger] walk(m2, root, v)
                == if same_slot(v, vpn) { Some(PageTableEntry { bits: w }) } else { walk(mem, root, v) }
            &&& forall|x: int| 0 <= x < 512 ==> #[trigger] pte_at(m2, root, x) == pte_at(mem, root, x)
            &&& forall|x: int| 0 <= x < 512 ==> #[trigger] l1_valid(m2, root, x) == l1_valid(mem, root, x)
            &&& forall|x: int, y: int| 0 <= x < 512 && 0 <= y < 512 ==> #[trigger] l0_valid(m2, root, x, y)
                == l0_valid(mem, root, x, y)
        }),
{
    let a = vpn_index(vpn, 0) as int;
    let b = vpn_index(vpn, 1) as int;
    let c = vpn_index(vpn, 2) as int;
    let page = l0_page(mem, root, a, b);
    let m2 = mem.insert(page, set_word(mem[page], c, w));
    lemma_pte_at_write(mem, page, c, w);
    assert(page != root);
    assert forall|x: int| 0 <= x < 512 implies #[trigger] pte_at(m2, root, x) == pte_at(mem, root, x) by {}
    assert forall|x: int| 0 <= x < 512 implies #[trigger] l1_valid(m2, root, x) == l1_valid(mem, root, x)
        && l1_page(m2, root, x) == l1_page(mem, root, x) by {
        assert(pte_at(m2, root, x) == pte_at(mem, root, x));
    }
    assert forall|x: int, y: int| 0 <= x < 512 && 0 <= y < 512 implies #[trigger] l0_valid(m2, root, x, y)
        == l0_valid(mem, root, x, y) && (l0_valid(mem, root, x, y) ==> l0_page(m2, root, x, y)
        == l0_page(mem, root, x, y)) by {
        assert(l1_valid(m2, root, x) == l1_valid(mem, root, x));
        if l1_valid(mem, root, x) {
            let p1 = l1_page(mem, root, x);
            assert(p1 != page);
            assert(pte_at(m2, p1, y) == pte_at(mem, p1, y));
        }
    }
    assert(tree_ok(m2, root, owned));
    assert forall|v: usize| #[trigger] walk(m2, root, v)
        == if same_slot(v, vpn) { Some(PageTableEntry { bits: w }) } else { walk(mem, root, v) } by {
        let a2 = vpn_index(v, 0) as int;
        let b2 = vpn_index(v, 1) as int;
        let c2 = vpn_index(v, 2) as int;
        crate::address::lemma_indexes_compose(v);
        crate::address::lemma_indexes_compose(vpn);
        assert(l1_valid(m2, root, a2) == l1_valid(mem, root, a2));
        assert(l0_valid(m2, root, a2, b2) == l0_valid(mem, root, a2, b2));
        if l0_valid(mem, root, a2, b2) {
            let p0 = l0_page(mem, root, a2, b2);
            assert(l0_page(m2, root, a2, b2) == p0);
            if a2 == a && b2 == b {
                assert(p0 == page);
            } else {
                assert(p0 != page);
            }
        }
    }
}

/// Pointing root entry `a`, which was not valid, at a fresh zeroed frame `f`
/// keeps the tree (with `f` owned) and changes no walk.
pub proof fn lemma_new_second_level(mem: Map<usize, Seq<u8>>, root: usize, owned: Set<usize>, a: int, f: usize)
    requires
        tree_ok(mem, root, owned),
        0 <= a < 512,
        !l1_valid(mem, root, a),
        mem.contains_key(f),
        !owned.contains(f),
    ensures
        ({
            let m1 = mem.insert(f, zero_page());
            let m2 = m1.insert(root, set_word(m1[root], a, pte_bits(f, 1)));
            &&& tree_ok(m2, root, owned.insert(f))
            &&& l1_valid(m2, root, a)
            &&& l1_page(m2, root, a) == f
            &&& forall|v: usize| #[trigger] walk(m2, root, v) == walk(mem, root, v)
            &&& forall|y: int| 0 <= y < 512 ==> !#[trigger] l0_valid(m2, root, a, y)
            &&& forall|x: int| 0 <= x < 512 ==> #[trigger] l1_valid(m2, root, x) == (l1_valid(mem, root, x) || x == a)
            &&& forall|x: int, y: int| 0 <= x < 512 && 0 <= y < 512 ==> #[trigger] l0_valid(m2, root, x, y)
                == l0_valid(mem, root, x, y)
        }),
{
    let m1 = mem.insert(f, zero_page());
    let m2 = m1.insert(root, set_word(m1[root], a, pte_bits(f, 1)));
    let owned2 = owned.insert(f);
    lemma_pte_at_zero(mem, f);
    lemma_pte_at_write(m1, root, a, pte_bits(f, 1));
    lemma_pte_fields(f, 1);
    assert(f != root);
    assert(1u8 & 1 == 1) by (bit_vector);
    assert(l1_valid(m2, root, a) && l1_page(m2, root, a) == f);
    assert forall|x: int| 0 <= x < 512 && x != a implies #[trigger] pte_at(m2, root, x) == pte_at(mem, root, x) by {
        assert(pte_at(m2, root, x) == pte_at(m1, root, x));
    }
    assert forall|y: int| 0 <= y < 512 implies !#[trigger] l0_valid(m2, root, a, y) by {
        assert(pte_at(m2, f, y) == pte_at(m1, f, y));
        assert(pte_at(m1, f, y).bits == 0);
        lemma_pte_fields(0, 0);
    }
    assert forall|x: int, y: int| 0 <= x < 512 && 0 <= y < 512 && x != a implies #[trigger] l0_valid(m2, root, x, y)
        == l0_valid(mem, root, x, y) && (l0_valid(mem, root, x, y) ==> l0_page(m2, root, x, y)
        == l0_page(mem, root, x, y)) by {
        assert(pte_at(m2, root, x) == pte_at(mem, root, x));
        if l1_valid(mem, root, x) {
            let p1 = l1_page(mem, root, x);
            assert(p1 != f && p1 != root);
            assert(pte_at(m2, p1, y) == pte_at(m1, p1, y));
            assert(pte_at(m1, p1, y) == pte_at(mem, p1, y));
        }
    }
    assert forall|x: int| 0 <= x < 512 && #[trigger] l1_valid(m2, root, x) implies {
        &&& m2.contains_key(l1_page(m2, root, x))
        &&& owned2.contains(l1_page(m2, root, x))
        &&& l1_page(m2, root, x) != root
    } by {
        if x != a {
            assert(pte_at(m2, root, x) == pte_at(mem, root, x));
            assert(l1_valid(mem, root, x));
            assert(mem.contains_key(l1_page(mem, root, x)));
        }
    }
    assert forall|x: int, x2: int|
        0 <= x < 512 && 0 <= x2 < 512 && x != x2 && #[trigger] l1_valid(m2, root, x) && #[trigger] l1_valid(m2, root, x2)
            implies l1_page(m2, root, x) != l1_page(m2, root, x2) by {
        if x != a {
            assert(pte_at(m2, root, x) == pte_at(mem, root, x));
            assert(l1_valid(mem, root, x));
            assert(owned.contains(l1_page(mem, root, x)));
        }
        if x2 != a {
            assert(pte_at(m2, root, x2) == pte_at(mem, root, x2));
            assert(l1_valid(mem, root, x2));
            assert(owned.contains(l1_page(mem, root, x2)));
        }
    }
    assert forall|x: int, y: int, x2: int|
        0 <= x < 512 && 0 <= y < 512 && 0 <= x2 < 512 && #[trigger] l0_valid(m2, root, x, y) && #[trigger] l1_valid(m2, root, x2)
            implies l0_page(m2, root, x, y) != l1_page(m2, root, x2) by {
        assert(x != a);
        assert(l0_valid(mem, root, x, y));
        assert(l0_page(m2, root, x, y) == l0_page(mem, root, x, y));
        assert(owned.contains(l0_page(mem, root, x, y)));
        if x2 != a {
            assert(pte_at(m2, root, x2) == pte_at(mem, root, x2));
            assert(l1_valid(mem, root, x2));
        }
    }
    assert(tree_ok(m2, root, owned2));
    assert forall|x: int| 0 <= x < 512 implies #[trigger] l1_valid(m2, root, x) == (l1_valid(mem, root, x) || x == a) by {
        if x != a {
            assert(pte_at(m2, root, x) == pte_at(mem, root, x));
        }
    }
    assert forall|x: int, y: int| 0 <= x < 512 && 0 <= y < 512 implies #[trigger] l0_valid(m2, root, x, y)
        == l0_valid(mem, root, x, y) by {
        if x == a {
            assert(!l0_valid(m2, root, a, y));
        }
    }
    assert forall|v: usize| #[trigger] walk(m2, root, v) == walk(mem, root, v) by {
        let a2 = vpn_index(v, 0) as int;
        let b2 = vpn_index(v, 1) as int;
        crate::address::lemma_indexes_compose(v);
        if a2 != a {
            assert(pte_at(m2, root, a2) == pte_at(mem, root, a2));
            assert(l0_valid(m2, root, a2, b2) == l0_valid(mem, root, a2, b2));
        } else {
            assert(!l0_valid(m2, root, a, b2));
        }
    }
}

/// Pointing entry `b` of the second-level table under root entry `a`, which
/// was not valid, at a fresh zeroed frame `g` keeps the tree (with `g` owned);
/// the walks through that entry now reach the zero leaf entries of `g`, and no
/// other walk changes.
pub proof fn lemma_new_leaf_table(mem: Map<usize, Seq<u8>>, root: usize, owned: Set<usize>, a: int, b: int, g: usize)
    requires
        tree_ok(mem, root, owned),
        0 <= a < 512,
        0 <= b < 512,
        l1_valid(mem, root, a),
        !l0_valid(mem, root, a, b),
        mem.contains_key(g),
        !owned.contains(g),
    ensures
        ({
            let p1 = l1_page(mem, root, a);
            let m1 = mem.insert(g, zero_page());
            let m2 = m1.insert(p1, set_word(m1[p1], b, pte_bits(g, 1)));
            &&& tree_ok(m2, root, owned.insert(g))
            &&& l0_valid(m2, root, a, b)
            &&& l0_page(m2, root, a, b) == g
            &&& forall|v: usize| #[trigger] walk(m2, root, v)
                == if vpn_index(v, 0) == a && vpn_index(v, 1) == b { Some(PageTableEntry { bits: 0 }) } else { walk(mem, root, v) }
            &&& forall|x: int| 0 <= x < 512 ==> #[trigger] l1_valid(m2, root, x) == l1_valid(mem, root, x)
            &&& forall|x: int, y: int| 0 <= x < 512 && 0 <= y < 512 ==> #[trigger] l0_valid(m2, root, x, y)
                == (l0_valid(mem, root, x, y) || (x == a && y == b))
        }),
{
    let p1 = l1_page(mem, root, a);
    let m1 = mem.insert(g, zero_page());
    let m2 = m1.insert(p1, set_word(m1[p1], b, pte_bits(g, 1)));
    let owned2 = owned.insert(g);
    assert(owned.contains(p1) && mem.contains_key(p1) && p1 != root);
    assert(p1 != g);
    lemma_pte_at_zero(mem, g);
    lemma_pte_at_write(m1, p1, b, pte_bits(g, 1));
    lemma_pte_fields(g, 1);
    lemma_pte_fields(0, 0);
    assert(1u8 & 1 == 1) by (bit_vector);
    assert forall|x: int| 0 <= x < 512 implies #[trigger] pte_at(m2, root, x) == pte_at(mem, root, x) by {
        assert(pte_at(m2, root, x) == pte_at(m1, root, x));
    }
    assert forall|x: int| 0 <= x < 512 implies #[trigger] l1_valid(m2, root, x) == l1_valid(mem, root, x)
        && l1_page(m2, root, x) == l1_page(mem, root, x) by {
        assert(pte_at(m2, root, x) == pte_at(mem, root, x));
    }
    assert(l0_valid(m2, root, a, b) && l0_page(m2, root, a, b) == g) by {
        assert(l1_page(m2, root, a) == p1);
    }
    assert forall|x: int, y: int| 0 <= x < 512 && 0 <= y < 512 && (x != a || y != b) implies #[trigger] l0_valid(m2, root, x, y)
        == l0_valid(mem, root, x, y) && (l0_valid(mem, root, x, y) ==> l0_page(m2, root, x, y)
        == l0_page(mem, root, x, y)) by {
        assert(l1_valid(m2, root, x) == l1_valid(mem, root, x));
        if l1_valid(mem, root, x) {
            let q = l1_page(mem, root, x);
            assert(l1_page(m2, root, x) == q);
            assert(owned.contains(q));
            assert(q != g);
            assert(pte_at(m2, q, y) == pte_at(m1, q, y));
            assert(pte_at(m1, q, y) == pte_at(mem, q, y));
        }
    }
    assert forall|x: int, y: int| 0 <= x < 512 && 0 <= y < 512 && #[trigger] l0_valid(m2, root, x, y) implies {
        &&& m2.contains_key(l0_page(m2, root, x, y))
        &&& owned2.contains(l0_page(m2, root, x, y))
        &&& l0_page(m2, root, x, y) != root
    } by {
        if x != a || y != b {
            assert(l0_valid(mem, root, x, y));
        }
    }
    assert forall|x: int, y: int, x2: int|
        0 <= x < 512 && 0 <= y < 512 && 0 <= x2 < 512 && #[trigger] l0_valid(m2, root, x, y) && #[trigger] l1_valid(m2, root, x2)
            implies l0_page(m2, root, x, y) != l1_page(m2, root, x2) by {
        assert(l1_valid(mem, root, x2));
        assert(owned.contains(l1_page(mem, root, x2)));
        if x != a || y != b {
            assert(l0_valid(mem, root, x, y));
        }
    }
    assert forall|x: int, y: int, x2: int, y2: int|
        0 <= x < 512 && 0 <= y < 512 && 0 <= x2 < 512 && 0 <= y2 < 512 && (x != x2 || y != y2)
            && #[trigger] l0_valid(m2, root, x, y) && #[trigger] l0_valid(m2, root, x2, y2)
            implies l0_page(m2, root, x, y) != l0_page(m2, root, x2, y2) by {
        if x != a || y != b {
            assert(l0_valid(mem, root, x, y));
            assert(owned.contains(l0_page(mem, root, x, y)));
        }
        if x2 != a || y2 != b {
            assert(l0_valid(mem, root, x2, y2));
            assert(owned.contains(l0_page(mem, root, x2, y2)));
        }
    }
    assert(tree_ok(m2, root, owned2));
    assert forall|v: usize| #[trigger] walk(m2, root, v)
        == if vpn_index(v, 0) == a && vpn_index(v, 1) == b { Some(PageTableEntry { bits: 0 }) } else { walk(mem, root, v) } by {
        let a2 = vpn_index(v, 0) as int;
        let b2 = vpn_index(v, 1) as int;
        let c2 = vpn_index(v, 2) as int;
        crate::address::lemma_indexes_compose(v);
        if a2 == a && b2 == b {
            assert(pte_at(m2, g, c2) == pte_at(m1, g, c2));
            assert(pte_at(m1, g, c2).bits == 0);
        } else {
            assert(l1_valid(m2, root, a2) == l1_valid(mem, root, a2));
            assert(l0_valid(m2, root, a2, b2) == l0_valid(mem, root, a2, b2));
            if l0_valid(mem, root, a2, b2) {
                let q = l0_page(mem, root, a2, b2);
                assert(owned.contains(q) && q != g && q != p1);
                assert(pte_at(m2, q, c2) == pte_at(mem, q, c2));
            }
        }
    }
}

/// The number of table frames a walk to `vpn` still lacks: two when the root
/// entry is not valid, one when only the second-level entry is not valid.
pub open spec fn missing_tables(mem: Map<usize, Seq<u8>>, root: usize, vpn: usize) -> nat {
    if !l1_valid(mem, root, vpn_index(vpn, 0) as int) {
        2
    } else if !l0_valid(mem, root, vpn_index(vpn, 0) as int, vpn_index(vpn, 1) as int) {
        1
    } else {
        0
    }
}

/// The root entries that lead to a second-level table.
pub open spec fn l1_slots(mem: Map<usize, Seq<u8>>, root: usize) -> Set<int> {
    Set::new(|x: int| 0 <= x < 512 && l1_valid(mem, root, x))
}

/// The (root entry, second-level entry) pairs that lead to a leaf table.
pub open spec fn l0_slots(mem: Map<usize, Seq<u8>>, root: usize) -> Set<(int, int)> {
    Set::new(|p: (int, int)| 0 <= p.0 < 512 && 0 <= p.1 < 512 && l0_valid(mem, root, p.0, p.1))
}

/// Frames that mapping the `n` virtual pages from `start` on, one after the
/// other, takes from the allocator, when the root entries `l1s` and the entry
/// pairs `l0s` already lead to tables: `per_page` frames for each page plus
/// one for each table that is still missing when its page comes up.
pub open spec fn frames_needed(l1s: Set<int>, l0s: Set<(int, int)>, start: int, n: nat, per_page: nat) -> nat
    decreases n,
{
    if n == 0 {
        0
    } else {
        let a = vpn_index(start as usize, 0) as int;
        let b = vpn_index(start as usize, 1) as int;
        per_page + (if l1s.contains(a) { 0nat } else { 1nat }) + (if l0s.contains((a, b)) { 0nat } else { 1nat })
            + frames_needed(l1s.insert(a), l0s.insert((a, b)), start + 1, (n - 1) as nat, per_page)
    }
}

/// The root entries the virtual pages `start .. start + n` go through.
pub open spec fn range_l1(start: int, n: nat) -> Set<int> {
    Set::new(|a: int| exists|v: int| start <= v < start + n && a == #[trigger] vpn_index(v as usize, 0) as int)
}

/// The (root entry, second-level entry) pairs the virtual pages
/// `start .. start + n` go through.
pub open spec fn range_l0(start: int, n: nat) -> Set<(int, int)> {
    Set::new(|p: (int, int)| exists|v: int| start <= v < start + n
        && p == (#[trigger] vpn_index(v as usize, 0) as int, vpn_index(v as usize, 1) as int))
}

/// Frames that mapping several ranges of virtual pages one after the other
/// takes: each plan is (first page, number of pages, frames per page).
pub open spec fn plan_frames(l1s: Set<int>, l0s: Set<(int, int)>, plans: Seq<(int, nat, nat)>) -> nat
    decreases plans.len(),
{
    if plans.len() == 0 {
        0
    } else {
        let p = plans[0];
        frames_needed(l1s, l0s, p.0, p.1, p.2) + plan_frames(l1s.union(range_l1(p.0, p.1)), l0s.union(range_l0(p.0, p.1)),
            plans.drop_first())
    }
}

/// Adding page `v` to the pages `lo .. v` adds its root entry and its entry
/// pair to the slots they go through.
pub(crate) proof fn lemma_range_slots_step(lo: int, v: int)
    requires
        lo <= v,
    ensures
        range_l1(lo, (v + 1 - lo) as nat) == range_l1(lo, (v - lo) as nat).insert(vpn_index(v as usize, 0) as int),
        range_l0(lo, (v + 1 - lo) as nat) == range_l0(lo, (v - lo) as nat).insert(
            (vpn_index(v as usize, 0) as int, vpn_index(v as usize, 1) as int)),
{
    let a = vpn_index(v as usize, 0) as int;
    let b = vpn_index(v as usize, 1) as int;
    assert forall|x: int| #[trigger] range_l1(lo, (v + 1 - lo) as nat).contains(x) implies range_l1(lo, (v - lo) as nat).insert(a).contains(x) by {
        let w = choose|w: int| lo <= w < lo + (v + 1 - lo) && x == #[trigger] vpn_index(w as usize, 0) as int;
        if w != v {
            assert(lo <= w < lo + (v - lo));
        }
    }
    assert forall|x: int| #[trigger] range_l1(lo, (v - lo) as nat).insert(a).contains(x) implies range_l1(lo, (v + 1 - lo) as nat).contains(x) by {
        if x == a {
            assert(lo <= v < lo + (v + 1 - lo) && x == vpn_index(v as usize, 0) as int);
        } else {
            let w = choose|w: int| lo <= w < lo + (v - lo) && x == #[trigger] vpn_index(w as usize, 0) as int;
            assert(lo <= w < lo + (v + 1 - lo));
        }
    }
    assert(range_l1(lo, (v + 1 - lo) as nat) =~= range_l1(lo, (v - lo) as nat).insert(a));
    assert forall|x: (int, int)| #[trigger] range_l0(lo, (v + 1 - lo) as nat).contains(x) implies range_l0(lo, (v - lo) as nat).insert((a, b)).contains(x) by {
        let w = choose|w: int| lo <= w < lo + (v + 1 - lo) && x == (#[trigger] vpn_index(w as usize, 0) as int, vpn_index(w as usize, 1) as int);
        if w != v {
            assert(lo <= w < lo + (v - lo));
        }
    }
    assert forall|x: (int, int)| #[trigger] range_l0(lo, (v - lo) as nat).insert((a, b)).contains(x) implies range_l0(lo, (v + 1 - lo) as nat).contains(x) by {
        if x == (a, b) {
            assert(lo <= v < lo + (v + 1 - lo) && x == (vpn_index(v as usize, 0) as int, vpn_index(v as usize, 1) as int));
        } else {
            let w = choose|w: int| lo <= w < lo + (v - lo) && x == (#[trigger] vpn_index(w as usize, 0) as int, vpn_index(w as usize, 1) as int);
            assert(lo <= w < lo + (v + 1 - lo));
        }
    }
    assert(range_l0(lo, (v + 1 - lo) as nat) =~= range_l0(lo, (v - lo) as nat).insert((a, b)));
}

/// The root entries that lead to a table from `root` in the memory of
/// `base`, or none without a base.
pub open spec fn base_l1(base: Option<(&PhysMem, usize)>) -> Set<int> {
    match base {
        Some((m, root)) => l1_slots(m@, root),
        None => Set::empty(),
    }
}

/// The entry pairs that lead to a leaf table from `root` in the memory of
/// `base`, or none without a base.
pub open spec fn base_l0(base: Option<(&PhysMem, usize)>) -> Set<(int, int)> {
    match base {
        Some((m, root)) => l0_slots(m@, root),
        None => Set::empty(),
    }
}

/// The tables of `root` can be read: the root and each second-level table
/// a valid root entry points to are frames of memory.
pub open spec fn tables_readable(mem: Map<usize, Seq<u8>>, root: usize) -> bool {
    &&& frames_ok(mem)
    &&& mem.contains_key(root)
    &&& forall|a: int| 0 <= a < 512 && #[trigger] l1_valid(mem, root, a) ==> mem.contains_key(l1_page(mem, root, a))
}

/// The slot sets `s1` and `s0` are those of the base and the vectors `v1`
/// and `v0` together.
pub open spec fn slots_held(base: Option<(&PhysMem, usize)>, v1: Seq<usize>, v0: Seq<(usize, usize)>, s1: Set<int>,
    s0: Set<(int, int)>) -> bool {
    &&& forall|a: int| #[trigger] s1.contains(a) <==> 0 <= a < 512 && (base_l1(base).contains(a) || v1.contains(a as usize))
    &&& forall|p: (int, int)| #[trigger] s0.contains(p) <==> 0 <= p.0 < 512 && 0 <= p.1 < 512
        && (base_l0(base).contains(p) || v0.contains((p.0 as usize, p.1 as usize)))
}

fn vec_has(v: &Vec<usize>, x: usize) -> (b: bool)
    ensures
        b == v@.contains(x),
{
    let mut i: usize = 0;
    while i < v.len()
        invariant
            i <= v@.len(),
            forall|j: int| 0 <= j < i ==> v@[j] != x,
        decreases v@.len() - i,
    {
        if v[i] == x {
            proof {
                assert(v@[i as int] == x);
            }
            return true;
        }
        i = i + 1;
    }
    false
}

fn vec_has_pair(v: &Vec<(usize, usize)>, x: (usize, usize)) -> (b: bool)
    ensures
        b == v@.contains(x),
{
    let mut i: usize = 0;
    while i < v.len()
        invariant
            i <= v@.len(),
            forall|j: int| 0 <= j < i ==> v@[j] != x,
        decreases v@.len() - i,
    {
        let y = v[i];
        if y.0 == x.0 && y.1 == x.1 {
            proof {
                assert(v@[i as int] == x);
            }
            return true;
        }
        i = i + 1;
    }
    false
}

/// Whether root entry `a`, and entry pair `(a, b)`, lead to tables already:
/// in the base or among the vectors.
fn slot_known(base: Option<(&PhysMem, usize)>, v1: &Vec<usize>, v0: &Vec<(usize, usize)>, a: usize, b: usize)
    -> (r: (bool, bool))
    requires
        base matches Some((m, root)) ==> tables_readable(m@, root),
        a < 512,
        b < 512,
    ensures
        r.0 == (base_l1(base).contains(a as int) || v1@.contains(a)),
        r.1 == (base_l0(base).contains((a as int, b as int)) || v0@.contains((a, b))),
{
    let mut k1 = false;
    let mut k0 = false;
    match base {
        Some((m, root)) => {
            let e0 = read_pte(m, root, a);
            if e0.is_valid() {
                proof {
                    assert(l1_valid(m@, root, a as int));
                }
                k1 = true;
                let e1 = read_pte(m, e0.ppn().0, b);
                k0 = e1.is_valid();
            }
        },
        None => {},
    }
    let h1 = vec_has(v1, a);
    let h0 = vec_has_pair(v0, (a, b));
    (k1 || h1, k0 || h0)
}

/// Adds to `acc` the frames that mapping the `n` pages from `start` on takes
/// (`frames_needed`) when the slot sets `s1`, `s0` (the base and the
/// vectors) already lead to tables, and records the slots in the vectors;
/// `None` when the sum would pass `limit`.
fn count_range(base: Option<(&PhysMem, usize)>, v1: &mut Vec<usize>, v0: &mut Vec<(usize, usize)>,
    Ghost(s1): Ghost<Set<int>>, Ghost(s0): Ghost<Set<(int, int)>>, start: usize, n: usize, per_page: usize, acc: usize,
    limit: usize) -> (r: Option<usize>)
    requires
        base matches Some((m, root)) ==> tables_readable(m@, root),
        slots_held(base, old(v1)@, old(v0)@, s1, s0),
        start + n <= usize::MAX,
        per_page <= 1,
        acc <= limit,
    ensures
        match r {
            Some(c) => {
                &&& c == acc + frames_needed(s1, s0, start as int, n as nat, per_page as nat)
                &&& c <= limit
                &&& slots_held(base, final(v1)@, final(v0)@, s1.union(range_l1(start as int, n as nat)),
                    s0.union(range_l0(start as int, n as nat)))
            },
            None => acc + frames_needed(s1, s0, start as int, n as nat, per_page as nat) > limit,
        },
{
    let mut k: usize = 0;
    let mut c = acc;
    let ghost mut t1 = s1;
    let ghost mut t0 = s0;
    proof {
        assert(range_l1(start as int, 0) =~= Set::<int>::empty());
        assert(range_l0(start as int, 0) =~= Set::<(int, int)>::empty());
        assert(t1 =~= s1.union(range_l1(start as int, 0)));
        assert(t0 =~= s0.union(range_l0(start as int, 0)));
    }
    while k < n
        invariant
            k <= n,
            start + n <= usize::MAX,
            per_page <= 1,
            c <= limit,
            base matches Some((m, root)) ==> tables_readable(m@, root),
            t1 == s1.union(range_l1(start as int, k as nat)),
            t0 == s0.union(range_l0(start as int, k as nat)),
            slots_held(base, v1@, v0@, t1, t0),
            acc + frames_needed(s1, s0, start as int, n as nat, per_page as nat)
                == c + frames_needed(t1, t0, (start + k) as int, (n - k) as nat, per_page as nat),
        decreases n - k,
    {
        let v = start + k;
        let idx = VirtPageNum(v).indexes();
        let a = idx[0];
        let b = idx[1];
        let (k1, k0) = slot_known(base, v1, v0, a, b);
        let ghost ai = a as int;
        let ghost bi = b as int;
        proof {
            assert(t1.contains(ai) == k1);
            assert(t0.contains((ai, bi)) == k0);
            lemma_range_slots_step(start as int, v as int);
            assert((v as int) as usize == v);
        }
        let cost = per_page + (if k1 { 0 } else { 1 }) + (if k0 { 0 } else { 1 });
        if cost > limit - c {
            return None;
        }
        let ghost w1 = v1@;
        let ghost w0 = v0@;
        if !k1 {
            v1.push(a);
        }
        if !k0 {
            v0.push((a, b));
        }
        c = c + cost;
        proof {
            assert forall|y: usize| #[trigger] v1@.contains(y) <==> (w1.contains(y) || (!k1 && y == a)) by {
                if v1@.contains(y) {
                    let j = choose|j: int| 0 <= j < v1@.len() && v1@[j] == y;
                    if j < w1.len() {
                        assert(w1[j] == y);
                    }
                }
                if w1.contains(y) {
                    let j = choose|j: int| 0 <= j < w1.len() && w1[j] == y;
                    assert(v1@[j] == y);
                }
                if !k1 && y == a {
                    assert(v1@[w1.len() as int] == a);
                }
            }
            assert forall|y: (usize, usize)| #[trigger] v0@.contains(y) <==> (w0.contains(y) || (!k0 && y == (a, b))) by {
                if v0@.contains(y) {
                    let j = choose|j: int| 0 <= j < v0@.len() && v0@[j] == y;
                    if j < w0.len() {
                        assert(w0[j] == y);
                    }
                }
                if w0.contains(y) {
                    let j = choose|j: int| 0 <= j < w0.len() && w0[j] == y;
                    assert(v0@[j] == y);
                }
                if !k0 && y == (a, b) {
                    assert(v0@[w0.len() as int] == (a, b));
                }
            }
            let n1 = t1.insert(ai);
            let n0 = t0.insert((ai, bi));
            assert forall|x: int| #[trigger] n1.contains(x) <==> 0 <= x < 512 && (base_l1(base).contains(x)
                || v1@.contains(x as usize)) by {
                assert(t1.contains(x) <==> 0 <= x < 512 && (base_l1(base).contains(x) || w1.contains(x as usize)));
                assert(v1@.contains(x as usize) <==> (w1.contains(x as usize) || (!k1 && x as usize == a)));
                if 0 <= x < 512 {
                    assert((x as usize == a) <==> (x == ai));
                }
            }
            assert forall|q: (int, int)| #[trigger] n0.contains(q) <==> 0 <= q.0 < 512 && 0 <= q.1 < 512
                && (base_l0(base).contains(q) || v0@.contains((q.0 as usize, q.1 as usize))) by {
                assert(t0.contains(q) <==> 0 <= q.0 < 512 && 0 <= q.1 < 512 && (base_l0(base).contains(q)
                    || w0.contains((q.0 as usize, q.1 as usize))));
                assert(v0@.contains((q.0 as usize, q.1 as usize)) <==> (w0.contains((q.0 as usize, q.1 as usize))
                    || (!k0 && (q.0 as usize, q.1 as usize) == (a, b))));
                if 0 <= q.0 < 512 && 0 <= q.1 < 512 {
                    assert(((q.0 as usize, q.1 as usize) == (a, b)) <==> (q == (ai, bi)));
                }
            }
            t1 = n1;
            t0 = n0;
        }
        k = k + 1;
    }
    proof {
        assert((n - k) as nat == 0);
    }
    Some(c)
}

/// The allocator never hands out a frame twice and each frame it can hand
/// out is part of memory and not among `owned`.
pub open spec fn frame_source_ok(alloc: StackFrameAllocator, mem: Map<usize, Seq<u8>>, owned: Set<usize>) -> bool {
    &&& alloc.sound()
    &&& forall|p: usize| #[trigger] alloc.free_set().contains(p) ==> mem.contains_key(p) && !owned.contains(p)
}

/// The walk for `vpn` after the tables it lacked were created: the same as
/// before, except that a walk that stopped early and goes through the same
/// root and second-level entries as `target` now reaches a zero leaf entry.
pub open spec fn walk_after_create(mem: Map<usize, Seq<u8>>, root: usize, target: usize, v: usize) -> Option<PageTableEntry> {
    if vpn_index(v, 0) == vpn_index(target, 0) && vpn_index(v, 1) == vpn_index(target, 1)
        && walk(mem, root, v) is None {
        Some(PageTableEntry { bits: 0 })
    } else {
        walk(mem, root, v)
    }
}

/// A three-level Sv39 page table: the root table frame and every table
/// frame it took from the allocator.
pub struct PageTable {
    root_ppn: PhysPageNum,
    frames: Vec<FrameTracker>,
}

fn read_pte(mem: &PhysMem, page: usize, idx: usize) -> (e: PageTableEntry)
    requires
        mem@.contains_key(page),
        frames_ok(mem@),
        idx < 512,
    ensures
        e == pte_at(mem@, page, idx as int),
{
    PageTableEntry { bits: mem.read_word(page, idx) }
}

/// The mapping plans held as page numbers: (first page, number of pages,
/// frames per page).
pub open spec fn plans_view(plans: Seq<(usize, usize, usize)>) -> Seq<(int, nat, nat)> {
    Seq::new(plans.len(), |i: int| (plans[i].0 as int, plans[i].1 as nat, plans[i].2 as nat))
}

/// Whether `free` frames cover a root table and what mapping the plans one
/// after the other into it takes (`plan_frames`).
pub fn plans_fit(free: usize, plans: &Vec<(usize, usize, usize)>) -> (b: bool)
    requires
        forall|i: int| 0 <= i < plans@.len() ==> #[trigger] plans@[i].0 + plans@[i].1 <= usize::MAX && plans@[i].2 <= 1,
    ensures
        b == (free >= 1 + plan_frames(Set::empty(), Set::empty(), plans_view(plans@))),
{
    let ghost ps = plans_view(plans@);
    if free == 0 {
        return false;
    }
    let limit = free - 1;
    let mut v1: Vec<usize> = Vec::new();
    let mut v0: Vec<(usize, usize)> = Vec::new();
    let ghost mut t1 = Set::<int>::empty();
    let ghost mut t0 = Set::<(int, int)>::empty();
    let mut c: usize = 0;
    let mut i: usize = 0;
    proof {
        assert(ps.skip(0) =~= ps);
    }
    while i < plans.len()
        invariant
            ps == plans_view(plans@),
            i <= plans@.len(),
            c <= limit,
            limit + 1 == free,
            forall|j: int| 0 <= j < plans@.len() ==> #[trigger] plans@[j].0 + plans@[j].1 <= usize::MAX && plans@[j].2 <= 1,
            slots_held(None, v1@, v0@, t1, t0),
            c + plan_frames(t1, t0, ps.skip(i as int)) == plan_frames(Set::empty(), Set::empty(), ps),
        decreases plans@.len() - i,
    {
        let p = plans[i];
        proof {
            assert(plans@[i as int] == p);
            assert(ps.skip(i as int)[0] == ps[i as int]);
            assert(ps.skip(i as int).drop_first() =~= ps.skip(i + 1));
        }
        match count_range(None, &mut v1, &mut v0, Ghost(t1), Ghost(t0), p.0, p.1, p.2, c, limit) {
            Some(c2) => {
                c = c2;
                proof {
                    t1 = t1.union(range_l1(p.0 as int, p.1 as nat));
                    t0 = t0.union(range_l0(p.0 as int, p.1 as nat));
                }
            },
            None => {
                return false;
            },
        }
        i = i + 1;
    }
    proof {
        assert(ps.skip(i as int) =~= Seq::<(int, nat, nat)>::empty());
    }
    true
}

impl PageTable {
    /// Whether `free` frames cover what mapping the `n` pages from `start`
    /// on, one frame each, takes with the tables this table already has
    /// (`frames_needed`).
    pub fn frames_fit(&self, mem: &PhysMem, start: usize, n: usize, free: usize) -> (b: bool)
        requires
            self.wf(mem@),
            start + n <= usize::MAX,
        ensures
            b == (free >= frames_needed(l1_slots(mem@, self.root()), l0_slots(mem@, self.root()), start as int, n as nat, 1)),
    {
        let mut v1: Vec<usize> = Vec::new();
        let mut v0: Vec<(usize, usize)> = Vec::new();
        let root = self.root_ppn.0;
        let ghost s1 = l1_slots(mem@, root);
        let ghost s0 = l0_slots(mem@, root);
        match count_range(Some((mem, root)), &mut v1, &mut v0, Ghost(s1), Ghost(s0), start, n, 1, 0, free) {
            Some(_) => true,
            None => false,
        }
    }
}

impl PageTable {
    /// Page number of the root table.
    pub closed spec fn root(&self) -> usize {
        self.root_ppn.0
    }

    /// The frames the table owns.
    pub closed spec fn owned(&self) -> Set<usize> {
        Set::new(|p: usize| exists|i: int| 0 <= i < self.frames@.len() && #[trigger] self.frames@[i].ppn.0 == p)
    }

    /// The table pages reachable from the root form a tree of distinct frames
    /// of memory, all owned by this table.
    pub open spec fn wf(&self, mem: Map<usize, Seq<u8>>) -> bool {
        tree_ok(mem, self.root(), self.owned())
    }

    /// A table whose root is the frame the allocator hands out next, zeroed;
    /// so no virtual page is mapped.
    pub fn new(alloc: &mut StackFrameAllocator, mem: &mut PhysMem) -> (pt: PageTable)
        requires
            old(alloc).alloc_ok(),
            frames_ok(old(mem)@),
            old(alloc).alloc_result() matches Some(p) && old(mem)@.contains_key(p),
        ensures
            Some(pt.root()) == old(alloc).alloc_result(),
            StackFrameAllocator::took_frame(*old(alloc), *final(alloc), pt.root()),
            pt.owned() == Set::<usize>::empty().insert(pt.root()),
            final(mem)@ == old(mem)@.insert(pt.root(), zero_page()),
            pt.wf(final(mem)@),
            forall|v: usize| #[trigger] walk(final(mem)@, pt.root(), v) is None,
    {
        let frame = alloc_frame(alloc, mem).unwrap();
        let root_ppn = frame.ppn;
        let mut frames: Vec<FrameTracker> = Vec::new();
        frames.push(frame);
        let pt = PageTable { root_ppn, frames };
        proof {
            let m = final(mem)@;
            let r = root_ppn.0;
            assert(pt.owned() =~= Set::<usize>::empty().insert(r)) by {
                assert(pt.frames@[0].ppn.0 == r);
            }
            lemma_pte_at_zero(old(mem)@, r);
            lemma_pte_fields(0, 0);
            assert forall|a: int| 0 <= a < 512 implies !#[trigger] l1_valid(m, r, a) by {
                assert(pte_at(m, r, a).bits == 0);
            }
            assert(tree_ok(m, r, pt.owned()));
            assert forall|v: usize| #[trigger] walk(m, r, v) is None by {
                crate::address::lemma_indexes_compose(v);
                assert(!l1_valid(m, r, vpn_index(v, 0) as int));
            }
        }
        pt
    }

    /// The table rooted at the page number held in the low 44 bits of a
    /// `satp` value; it owns no frame and serves to look entries up.
    pub fn from_token(satp: u64) -> (pt: PageTable)
        ensures
            pt.root() == (satp & 0xfff_ffff_ffff) as usize,
            pt.owned() == Set::<usize>::empty(),
    {
        assert(1u64 << 44u64 == 0x1000_0000_0000u64) by (bit_vector);
        let pt = PageTable { root_ppn: PhysPageNum::from((satp & ((1u64 << 44u64) - 1)) as usize), frames: Vec::new() };
        assert(pt.owned() =~= Set::<usize>::empty());
        pt
    }

    /// The `satp` value that selects this table: Sv39 mode (8) in bits 60..64
    /// and the root page number in the low bits.
    pub fn token(&self) -> (t: u64)
        ensures
            t == (8u64 << 60u64) | (self.root() as u64),
    {
        (8u64 << 60u64) | (self.root_ppn.0 as u64)
    }

    /// Where the leaf entry for `vpn` is stored (its table frame and index),
    /// when the walk reaches a leaf table.
    fn find_pte(&self, mem: &PhysMem, vpn: VirtPageNum) -> (r: Option<(PhysPageNum, usize)>)
        requires
            walk_defined(mem@, self.root(), vpn.0),
        ensures
            match walk(mem@, self.root(), vpn.0) {
                Some(_) => r == Some((
                    PhysPageNum(l0_page(mem@, self.root(), vpn_index(vpn.0, 0) as int, vpn_index(vpn.0, 1) as int)),
                    vpn_index(vpn.0, 2),
                )),
                None => r is None,
            },
    {
        let idxs = vpn.indexes();
        let root = self.root_ppn.0;
        let e0 = read_pte(mem, root, idxs[0]);
        if !e0.is_valid() {
            return None;
        }
        let p1 = e0.ppn().0;
        let e1 = read_pte(mem, p1, idxs[1]);
        if !e1.is_valid() {
            return None;
        }
        Some((e1.ppn(), idxs[2]))
    }

    /// The leaf entry for `vpn` (valid or not), when the walk reaches a leaf
    /// table; a copy of the entry.
    pub fn translate(&self, mem: &PhysMem, vpn: VirtPageNum) -> (r: Option<PageTableEntry>)
        requires
            walk_defined(mem@, self.root(), vpn.0),
        ensures
            r == walk(mem@, self.root(), vpn.0),
    {
        match self.find_pte(mem, vpn) {
            Some((page, idx)) => Some(read_pte(mem, page.0, idx)),
            None => None,
        }
    }

    /// Where the leaf entry for `vpn` is stored (its table frame and index),
    /// creating the missing second-level and leaf tables on the way from
    /// zeroed frames of the allocator; they become owned by the table.
    pub fn find_pte_create(&mut self, mem: &mut PhysMem, alloc: &mut StackFrameAllocator, vpn: VirtPageNum)
        -> (r: Option<(PhysPageNum, usize)>)
        requires
            old(self).wf(old(mem)@),
            frame_source_ok(*old(alloc), old(mem)@, old(self).owned()),
            old(alloc).num_free() >= missing_tables(old(mem)@, old(self).root(), vpn.0),
        ensures
            final(self).root() == old(self).root(),
            final(self).wf(final(mem)@),
            frame_source_ok(*final(alloc), final(mem)@, final(self).owned()),
            final(alloc).num_free() + missing_tables(old(mem)@, old(self).root(), vpn.0) == old(alloc).num_free(),
            old(self).owned().subset_of(final(self).owned()),
            final(alloc).free_set() == old(alloc).free_set().difference(final(self).owned()),
            forall|p: usize| #[trigger] final(self).owned().contains(p) ==> old(self).owned().contains(p)
                || old(alloc).free_set().contains(p),
            final(mem)@.dom() == old(mem)@.dom(),
            forall|p: usize| old(mem)@.contains_key(p) && !final(self).owned().contains(p)
                ==> #[trigger] final(mem)@[p] == old(mem)@[p],
            forall|v: usize| #[trigger] walk(final(mem)@, final(self).root(), v)
                == walk_after_create(old(mem)@, old(self).root(), vpn.0, v),
            l0_valid(final(mem)@, final(self).root(), vpn_index(vpn.0, 0) as int, vpn_index(vpn.0, 1) as int),
            forall|x: int| 0 <= x < 512 ==> #[trigger] l1_valid(final(mem)@, final(self).root(), x)
                == (l1_valid(old(mem)@, old(self).root(), x) || x == vpn_index(vpn.0, 0)),
            forall|x: int, y: int| 0 <= x < 512 && 0 <= y < 512 ==> #[trigger] l0_valid(final(mem)@, final(self).root(), x, y)
                == (l0_valid(old(mem)@, old(self).root(), x, y) || (x == vpn_index(vpn.0, 0) && y == vpn_index(vpn.0, 1))),
            r == Some((
                PhysPageNum(l0_page(final(mem)@, final(self).root(), vpn_index(vpn.0, 0) as int, vpn_index(vpn.0, 1) as int)),
                vpn_index(vpn.0, 2),
            )),
            final(alloc).end() == old(alloc).end(),
            old(alloc).current() <= final(alloc).current(),
            missing_tables(old(mem)@, old(self).root(), vpn.0) == 0 ==> {
                &&& final(mem)@ == old(mem)@
                &&& *final(self) == *old(self)
                &&& *final(alloc) == *old(alloc)
            },
    {
        let ghost mem0 = mem@;
        let ghost alloc0 = *alloc;
        let ghost owned0 = self.owned();
        let ghost a = vpn_index(vpn.0, 0) as int;
        let ghost b = vpn_index(vpn.0, 1) as int;
        let idxs = vpn.indexes();
        let root = self.root_ppn.0;
        let e0 = read_pte(mem, root, idxs[0]);
        let ghost root_entry_valid = e0.spec_valid();
        if !e0.is_valid() {
            proof {
                lemma_alloc_result_free(*alloc);
            }
            let frame = alloc_frame(alloc, mem).unwrap();
            let f = frame.ppn;
            proof {
                lemma_took_frame(alloc0, *alloc, f.0);
            }
            mem.write_word(root, idxs[0], PageTableEntry::new(f, PTEFlags::V()).bits);
            self.frames.push(frame);
            proof {
                lemma_new_second_level(mem0, root, owned0, a, f.0);
                assert(self.owned() =~= owned0.insert(f.0)) by {
                    assert(self.frames@[self.frames@.len() - 1].ppn.0 == f.0);
                    assert forall|p: usize| owned0.contains(p) implies self.owned().contains(p) by {
                        let i = choose|i: int| 0 <= i < old(self).frames@.len() && #[trigger] old(self).frames@[i].ppn.0 == p;
                        assert(self.frames@[i] == old(self).frames@[i]);
                    }
                    assert forall|p: usize| self.owned().contains(p) implies owned0.insert(f.0).contains(p) by {
                        let i = choose|i: int| 0 <= i < self.frames@.len() && #[trigger] self.frames@[i].ppn.0 == p;
                        if i < old(self).frames@.len() {
                            assert(self.frames@[i] == old(self).frames@[i]);
                        }
                    }
                }
                assert(alloc.free_set() =~= alloc0.free_set().difference(self.owned()));
                assert(!l0_valid(mem@, root, a, b));
                assert(missing_tables(mem0, root, vpn.0) == 2);
            }
        }
        let ghost mem1 = mem@;
        let ghost alloc1 = *alloc;
        let ghost owned1 = self.owned();
        let ghost frames1 = self.frames@;
        let e0 = read_pte(mem, root, idxs[0]);
        let p1 = e0.ppn().0;
        let e1 = read_pte(mem, p1, idxs[1]);
        let ghost leaf_table_valid = e1.spec_valid();
        if !e1.is_valid() {
            proof {
                lemma_alloc_result_free(*alloc);
            }
            let frame = alloc_frame(alloc, mem).unwrap();
            let g = frame.ppn;
            proof {
                lemma_took_frame(alloc1, *alloc, g.0);
            }
            mem.write_word(p1, idxs[1], PageTableEntry::new(g, PTEFlags::V()).bits);
            self.frames.push(frame);
            proof {
                lemma_new_leaf_table(mem1, root, owned1, a, b, g.0);
                assert(self.owned() =~= owned1.insert(g.0)) by {
                    assert(self.frames@[self.frames@.len() - 1].ppn.0 == g.0);
                    assert forall|p: usize| owned1.contains(p) implies self.owned().contains(p) by {
                        let i = choose|i: int| 0 <= i < frames1.len() && #[trigger] frames1[i].ppn.0 == p;
                        assert(self.frames@[i] == frames1[i]);
                    }
                    assert forall|p: usize| self.owned().contains(p) implies owned1.insert(g.0).contains(p) by {
                        let i = choose|i: int| 0 <= i < self.frames@.len() && #[trigger] self.frames@[i].ppn.0 == p;
                        if i < frames1.len() {
                            assert(self.frames@[i] == frames1[i]);
                            assert(owned1.contains(p));
                        }
                    }
                }
            }
        }
        let e1 = read_pte(mem, p1, idxs[1]);
        proof {
            if root_entry_valid {
                assert(mem1 == mem0);
            }
            if missing_tables(mem0, root, vpn.0) == 0 {
                assert(root_entry_valid);
                assert(leaf_table_valid);
            }
        }
        Some((e1.ppn(), idxs[2]))
    }

    /// Maps virtual page `vpn` to physical page `ppn` with `flags` and V set,
    /// creating the missing tables; `vpn` must not be mapped yet.
    pub fn map(&mut self, mem: &mut PhysMem, alloc: &mut StackFrameAllocator, vpn: VirtPageNum, ppn: PhysPageNum, flags: PTEFlags)
        requires
            old(self).wf(old(mem)@),
            frame_source_ok(*old(alloc), old(mem)@, old(self).owned()),
            old(alloc).num_free() >= missing_tables(old(mem)@, old(self).root(), vpn.0),
            mapping(old(mem)@, old(self).root(), vpn.0) is None,
        ensures
            final(alloc).end() == old(alloc).end(),
            old(alloc).current() <= final(alloc).current(),
            final(self).root() == old(self).root(),
            final(self).wf(final(mem)@),
            frame_source_ok(*final(alloc), final(mem)@, final(self).owned()),
            final(alloc).num_free() + missing_tables(old(mem)@, old(self).root(), vpn.0) == old(alloc).num_free(),
            old(self).owned().subset_of(final(self).owned()),
            final(alloc).free_set() == old(alloc).free_set().difference(final(self).owned()),
            forall|p: usize| #[trigger] final(self).owned().contains(p) ==> old(self).owned().contains(p)
                || old(alloc).free_set().contains(p),
            final(mem)@.dom() == old(mem)@.dom(),
            forall|p: usize| old(mem)@.contains_key(p) && !final(self).owned().contains(p)
                ==> #[trigger] final(mem)@[p] == old(mem)@[p],
            forall|v: usize| #[trigger] walk(final(mem)@, final(self).root(), v) == if same_slot(v, vpn.0) {
                Some(PageTableEntry { bits: pte_bits(ppn.0, flags.bits | 1) })
            } else {
                walk_after_create(old(mem)@, old(self).root(), vpn.0, v)
            },
            forall|v: usize| #[trigger] mapping(final(mem)@, final(self).root(), v) == if same_slot(v, vpn.0) {
                Some(PageTableEntry { bits: pte_bits(ppn.0, flags.bits | 1) })
            } else {
                mapping(old(mem)@, old(self).root(), v)
            },
            forall|x: int| 0 <= x < 512 ==> #[trigger] l1_valid(final(mem)@, final(self).root(), x)
                == (l1_valid(old(mem)@, old(self).root(), x) || x == vpn_index(vpn.0, 0)),
            forall|x: int, y: int| 0 <= x < 512 && 0 <= y < 512 ==> #[trigger] l0_valid(final(mem)@, final(self).root(), x, y)
                == (l0_valid(old(mem)@, old(self).root(), x, y) || (x == vpn_index(vpn.0, 0) && y == vpn_index(vpn.0, 1))),
    {
        let (page, idx) = self.find_pte_create(mem, alloc, vpn).unwrap();
        let ghost mid = mem@;
        let bits = PageTableEntry::new(ppn, flags | PTEFlags::V()).bits;
        mem.write_word(page.0, idx, bits);
        proof {
            let root = self.root();
            lemma_leaf_write(mid, root, self.owned(), vpn.0, bits);
            lemma_pte_valid_bit(ppn.0, flags.bits | 1);
            lemma_pte_valid_bit(ppn.0, flags.bits);
            lemma_pte_fields(0, 0);
            assert(bits == pte_bits(ppn.0, flags.bits | 1));
            assert forall|v: usize| #[trigger] mapping(mem@, root, v) == if same_slot(v, vpn.0) {
                Some(PageTableEntry { bits: pte_bits(ppn.0, flags.bits | 1) })
            } else {
                mapping(old(mem)@, root, v)
            } by {
                assert(walk(mem@, root, v) == if same_slot(v, vpn.0) {
                    Some(PageTableEntry { bits: pte_bits(ppn.0, flags.bits | 1) })
                } else {
                    walk_after_create(old(mem)@, root, vpn.0, v)
                });
            }
        }
    }

    /// Clears the leaf entry of virtual page `vpn`, which must be mapped.
    pub fn unmap(&mut self, mem: &mut PhysMem, vpn: VirtPageNum)
        requires
            old(self).wf(old(mem)@),
            mapping(old(mem)@, old(self).root(), vpn.0) is Some,
        ensures
            *final(self) == *old(self),
            final(self).wf(final(mem)@),
            final(mem)@.dom() == old(mem)@.dom(),
            forall|p: usize| old(mem)@.contains_key(p) && !final(self).owned().contains(p)
                ==> #[trigger] final(mem)@[p] == old(mem)@[p],
            forall|v: usize| #[trigger] walk(final(mem)@, final(self).root(), v) == if same_slot(v, vpn.0) {
                Some(PageTableEntry { bits: 0 })
            } else {
                walk(old(mem)@, old(self).root(), v)
            },
            forall|v: usize| #[trigger] mapping(final(mem)@, final(self).root(), v) == if same_slot(v, vpn.0) {
                None
            } else {
                mapping(old(mem)@, old(self).root(), v)
            },
    {
        proof {
            crate::address::lemma_indexes_compose(vpn.0);
        }
        let (page, idx) = self.find_pte(mem, vpn).unwrap();
        mem.write_word(page.0, idx, PageTableEntry::empty().bits);
        proof {
            let root = self.root();
            lemma_leaf_write(old(mem)@, root, self.owned(), vpn.0, 0);
            lemma_pte_fields(0, 0);
            assert forall|v: usize| #[trigger] mapping(mem@, root, v) == if same_slot(v, vpn.0) {
                None
            } else {
                mapping(old(mem)@, root, v)
            } by {
                assert(walk(mem@, root, v) == if same_slot(v, vpn.0) {
                    Some(PageTableEntry { bits: 0 })
                } else {
                    walk(old(mem)@, root, v)
                });
            }
        }
    }
}

/// Number of pages the user buffer `[ptr, ptr + len)` touches.
pub open spec fn buffer_pages(ptr: usize, len: usize) -> nat {
    if len == 0 {
        0
    } else {
        (ceil_of((ptr + len) as usize) - floor_of(ptr)) as nat
    }
}

/// Offset in its page where the `k`-th piece of the buffer starts.
pub open spec fn piece_start(ptr: usize, k: int) -> int {
    if k == 0 { offset_of(ptr) as int } else { 0 }
}

/// Offset where the `k`-th piece of the buffer ends: the page offset of the
/// buffer's end when the buffer ends inside the page, else the page offset of
/// the next page's start, which is zero.
pub open spec fn piece_end(ptr: usize, len: usize, k: int) -> int {
    if (floor_of(ptr) + k + 1) * 4096 > ptr + len { offset_of((ptr + len) as usize) as int } else { 0 }
}

/// The `k`-th virtual page the buffer touches.
pub open spec fn buffer_vpn(ptr: usize, k: int) -> usize {
    (floor_of(ptr) + k) as usize
}

/// Every page the buffer touches has a leaf entry whose frame is part of memory.
pub open spec fn buffer_translatable(mem: Map<usize, Seq<u8>>, root: usize, ptr: usize, len: usize) -> bool {
    forall|k: int| 0 <= k < buffer_pages(ptr, len) ==> {
        &&& walk_defined(mem, root, #[trigger] buffer_vpn(ptr, k))
        &&& walk(mem, root, buffer_vpn(ptr, k)) is Some
        &&& mem.contains_key(walk(mem, root, buffer_vpn(ptr, k))->0.spec_ppn())
    }
}

proof fn lemma_buffer_step(ptr: usize, len: usize, k: int, start: usize)
    requires
        len == 0 || ptr + len <= usize::MAX - 4095,
        len == 0 || offset_of(ptr) == 0 || ptr + len < (floor_of(ptr) + 1) * 4096,
        0 <= k,
        k == 0 ==> start == ptr,
        k > 0 ==> start == (floor_of(ptr) + k) * 4096,
        start < ptr + len,
    ensures
        floor_of(start) == floor_of(ptr) + k,
        offset_of(start) == piece_start(ptr, k),
        (floor_of(ptr) + k + 1) * 4096 <= usize::MAX,
        k < buffer_pages(ptr, len),
        ((floor_of(ptr) + k + 1) * 4096 <= ptr + len) ==> piece_end(ptr, len, k) == 0,
        ((floor_of(ptr) + k + 1) * 4096 > ptr + len) ==> {
            &&& piece_end(ptr, len, k) == offset_of((ptr + len) as usize)
            &&& k + 1 == buffer_pages(ptr, len)
            &&& offset_of(start) <= offset_of((ptr + len) as usize)
        },
        ((floor_of(ptr) + k + 1) * 4096 == ptr + len) ==> k + 1 == buffer_pages(ptr, len),
{
    let f = floor_of(ptr) as int;
    let e = ptr + len;
    crate::address::lemma_floor_ceil(ptr);
    crate::address::lemma_floor_ceil(start);
    crate::address::lemma_floor_ceil(e as usize);
    if k > 0 {
        assert(((f + k) * 4096) / 4096 == f + k) by (nonlinear_arith);
        assert(((f + k) * 4096) % 4096 == 0) by (nonlinear_arith);
    }
    assert(floor_of(start) == f + k);
    let fe = floor_of(e as usize) as int;
    assert(fe * 4096 <= e < (fe + 1) * 4096);
    assert((f + k) * 4096 <= start);
    if (f + k + 1) * 4096 > e {
        assert(fe < f + k + 1) by (nonlinear_arith)
            requires fe * 4096 <= e, e < (f + k + 1) * 4096;
        assert(fe >= f + k) by (nonlinear_arith)
            requires (f + k) * 4096 <= start, start < e, e < (fe + 1) * 4096;
    } else {
        assert(fe >= f + k + 1) by (nonlinear_arith)
            requires (f + k + 1) * 4096 <= e, e < (fe + 1) * 4096;
    }
}

/// Pieces of the user buffer `[ptr, ptr + len)` of the address space whose
/// `satp` value is `token`, one per page it touches: piece `k` holds the
/// bytes from `piece_start` to `piece_end` of the `k`-th page's frame. A
/// piece ends at the page offset of the buffer's end or of the next page's
/// start, so a page the buffer covers to its end gives an empty piece, not
/// the page's bytes; only the part of the buffer in its last page, when it
/// ends inside one, comes back.
pub fn translated_byte_buffer(mem: &PhysMem, token: u64, ptr: usize, len: usize) -> (v: Vec<Vec<u8>>)
    requires
        len == 0 || ptr + len <= usize::MAX - 4095,
        len == 0 || offset_of(ptr) == 0 || ptr + len < (floor_of(ptr) + 1) * 4096,
        buffer_translatable(mem@, (token & 0xfff_ffff_ffff) as usize, ptr, len),
    ensures
        v@.len() == buffer_pages(ptr, len),
        forall|k: int| 0 <= k < v@.len() ==> #[trigger] v@[k]@ == mem@[
            walk(mem@, (token & 0xfff_ffff_ffff) as usize, buffer_vpn(ptr, k))->0.spec_ppn()
        ].subrange(piece_start(ptr, k), piece_end(ptr, len, k)),
{
    let page_table = PageTable::from_token(token);
    let ghost root = page_table.root();
    let mut start = ptr;
    let end = ptr + len;
    let mut v: Vec<Vec<u8>> = Vec::new();
    let ghost mut k: int = 0;
    while start < end
        invariant
            page_table.root() == root,
            root == (token & 0xfff_ffff_ffff) as usize,
            end == ptr + len,
            len == 0 || ptr + len <= usize::MAX - 4095,
            len == 0 || offset_of(ptr) == 0 || ptr + len < (floor_of(ptr) + 1) * 4096,
            buffer_translatable(mem@, root, ptr, len),
            0 <= k,
            v@.len() == k,
            k == 0 ==> start == ptr,
            k > 0 ==> start == (floor_of(ptr) + k) * 4096 || (start == end && k == buffer_pages(ptr, len)),
            start <= end,
            start < end ==> k < buffer_pages(ptr, len),
            start >= end ==> k == buffer_pages(ptr, len),
            forall|j: int| 0 <= j < k ==> #[trigger] v@[j]@ == mem@[
                walk(mem@, root, buffer_vpn(ptr, j))->0.spec_ppn()
            ].subrange(piece_start(ptr, j), piece_end(ptr, len, j)),
        decreases end - start,
    {
        let start_va = VirtAddr::from(start);
        let mut vpn = start_va.floor();
        proof {
            lemma_buffer_step(ptr, len, k, start);
        }
        assert(vpn.0 == buffer_vpn(ptr, k));
        let ppn = page_table.translate(mem, vpn).unwrap().ppn();
        vpn.step();
        let mut end_va: VirtAddr = VirtAddr::from(vpn);
        proof {
            crate::address::lemma_page_start_round_trip(vpn.0);
        }
        if end < end_va.0 {
            end_va = VirtAddr::from(end);
        }
        let piece = mem.read_bytes(ppn.0, start_va.page_offset(), end_va.page_offset());
        v.push(piece);
        start = end_va.0;
        proof {
            k = k + 1;
        }
    }
    v
}

/// The walk reads only the three Sv39 indexes of a virtual page number, so
/// page numbers of the same slot have the same walk and the same mapping.
pub proof fn lemma_same_slot_same_walk(mem: Map<usize, Seq<u8>>, root: usize, v: usize, w: usize)
    requires
        same_slot(v, w),
    ensures
        walk(mem, root, v) == walk(mem, root, w),
        mapping(mem, root, v) == mapping(mem, root, w),
{
}

/// Mapping a virtual page and then unmapping it gives back the mappings of
/// every virtual page as they were before.
pub proof fn lemma_map_then_unmap(
    m0: Map<usize, Seq<u8>>,
    m1: Map<usize, Seq<u8>>,
    m2: Map<usize, Seq<u8>>,
    root: usize,
    vpn: usize,
    e: PageTableEntry,
)
    requires
        mapping(m0, root, vpn) is None,
        forall|v: usize| #[trigger] mapping(m1, root, v) == if same_slot(v, vpn) { Some(e) } else { mapping(m0, root, v) },
        forall|v: usize| #[trigger] mapping(m2, root, v) == if same_slot(v, vpn) { None } else { mapping(m1, root, v) },
    ensures
        forall|v: usize| #[trigger] mapping(m2, root, v) == mapping(m0, root, v),
{
    assert forall|v: usize| #[trigger] mapping(m2, root, v) == mapping(m0, root, v) by {
        assert(mapping(m1, root, v) == if same_slot(v, vpn) { Some(e) } else { mapping(m0, root, v) });
        if same_slot(v, vpn) {
            lemma_same_slot_same_walk(m0, root, v, vpn);
        }
    }
}

/// The table looked up from a table's `satp` value has the same root, for
/// every root page number that fits the 44-bit field.
pub proof fn lemma_token_round_trip(root: usize)
    requires
        root < 0x1000_0000_0000,
    ensures
        ((((8u64 << 60u64) | (root as u64)) & 0xfff_ffff_ffff) as usize) == root,
{
    let r = root as u64;
    assert(r < 0x1000_0000_0000 ==> ((8u64 << 60u64) | r) & 0xfff_ffff_ffff == r) by (bit_vector);
}

} // verus!
