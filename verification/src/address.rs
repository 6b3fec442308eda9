//! Physical and virtual addresses and page numbers of the Sv39 scheme.
use vstd::prelude::*;
use vstd::std_specs::convert::FromSpecImpl;

verus! {

/// Size of a page in bytes.
pub const PAGE_SIZE: usize = 0x1000;
/// Number of offset bits inside a page.
pub const PAGE_SIZE_BITS: usize = 0xc;

/// Number of page-table entries in one table page (9 index bits per level).
pub const ENTRIES_PER_TABLE: usize = 512;

/// A physical address.
#[derive(Clone, Copy, Debug, PartialEq, Eq, PartialOrd, Ord, Structural)]
pub struct PhysAddr(pub usize);

/// A physical page number.
#[derive(Clone, Copy, Debug, PartialEq, Eq, PartialOrd, Ord, Structural)]
pub struct PhysPageNum(pub usize);

/// A virtual address.
#[derive(Clone, Copy, Debug, PartialEq, Eq, PartialOrd, Ord, Structural)]
pub struct VirtAddr(pub usize);

/// A virtual page number.
#[derive(Clone, Copy, Debug, PartialEq, Eq, PartialOrd, Ord, Structural)]
pub struct VirtPageNum(pub usize);

/// Offset of `a` inside its page.
pub open spec fn offset_of(a: usize) -> usize {
    (a % 4096) as usize
}

/// Page number of the page that holds `a` (rounded down).
pub open spec fn floor_of(a: usize) -> usize {
    (a / 4096) as usize
}

/// Page number of the first page that starts at or after `a` (rounded up).
pub open spec fn ceil_of(a: usize) -> usize {
    (a / 4096 + if a % 4096 != 0 { 1int } else { 0int }) as usize
}

/// Start address of page `p`: the page number shifted left by the offset bits,
/// truncated to the machine word.
pub open spec fn page_start(p: usize) -> usize {
    (p << 12usize) as usize
}

/// The Sv39 index of virtual page number `vpn` at position `i` of the
/// three-element index array: position 0 is the root level (bits 18..27),
/// position 2 the leaf level (bits 0..9).
pub open spec fn vpn_index(vpn: usize, i: int) -> usize {
    if i == 0 {
        ((vpn / 0x40000) % 512) as usize
    } else if i == 1 {
        ((vpn / 0x200) % 512) as usize
    } else {
        (vpn % 512) as usize
    }
}

proof fn lemma_page_offset(a: usize)
    ensures
        a & 0xfff == a % 4096,
        a >> 12usize == a / 4096,
{
    assert(a & 0xfff == a % 4096) by (bit_vector);
    assert(a >> 12usize == a / 4096) by (bit_vector);
}

impl PhysAddr {
    /// Offset of the address inside its page.
    pub fn page_offset(&self) -> (r: usize)
        ensures
            r == offset_of(self.0),
            r < PAGE_SIZE,
    {
        proof {
            lemma_page_offset(self.0);
        }
        self.0 & (PAGE_SIZE - 1)
    }

    /// Page number of the address, rounded down.
    pub fn floor(&self) -> (r: PhysPageNum)
        ensures
            r.0 == floor_of(self.0),
    {
        PhysPageNum(self.0 / PAGE_SIZE)
    }

    /// Page number of the address, rounded up: one more than `floor` when the
    /// page offset is not zero.
    pub fn ceil(&self) -> (r: PhysPageNum)
        ensures
            r.0 == ceil_of(self.0),
    {
        let add: usize = if self.page_offset() != 0 { 1 } else { 0 };
        PhysPageNum(self.0 / PAGE_SIZE + add)
    }
}

impl VirtAddr {
    /// Offset of the address inside its page.
    pub fn page_offset(&self) -> (r: usize)
        ensures
            r == offset_of(self.0),
            r < PAGE_SIZE,
    {
        proof {
            lemma_page_offset(self.0);
        }
        self.0 & (PAGE_SIZE - 1)
    }

    /// Page number of the address, rounded down.
    pub fn floor(&self) -> (r: VirtPageNum)
        ensures
            r.0 == floor_of(self.0),
    {
        VirtPageNum(self.0 / PAGE_SIZE)
    }

    /// Page number of the address, rounded up: one more than `floor` when the
    /// page offset is not zero.
    pub fn ceil(&self) -> (r: VirtPageNum)
        ensures
            r.0 == ceil_of(self.0),
    {
        let add: usize = if self.page_offset() != 0 { 1 } else { 0 };
        VirtPageNum(self.0 / PAGE_SIZE + add)
    }
}

impl VirtPageNum {
    /// The three 9-bit Sv39 indexes of the page number, root level first.
    pub fn indexes(&self) -> (idx: [usize; 3])
        ensures
            forall|i: int| 0 <= i < 3 ==> #[trigger] idx@[i] == vpn_index(self.0, i),
            forall|i: int| 0 <= i < 3 ==> #[trigger] idx@[i] < ENTRIES_PER_TABLE,
    {
        let mut vpn = self.0;
        let mut idx = [0usize; 3];
        let mut i: usize = 3;
        while i > 0
            invariant
                i <= 3,
                idx@.len() == 3,
                i == 3 ==> vpn == self.0,
                i == 2 ==> vpn == self.0 >> 9usize,
                i == 1 ==> vpn == self.0 >> 18usize,
                i == 0 ==> vpn == self.0 >> 27usize,
                forall|j: int| i <= j < 3 ==> #[trigger] idx@[j] == vpn_index(self.0, j),
            decreases i,
        {
            i = i - 1;
            let v = vpn;
            let x = self.0;
            proof {
                assert(v & 0x1ff == v % 512) by (bit_vector);
                if i == 2 {
                    assert(v == x);
                } else if i == 1 {
                    assert(v == x >> 9usize);
                    assert(x >> 9usize == x / 0x200) by (bit_vector);
                } else {
                    assert(v == x >> 18usize);
                    assert(x >> 18usize == x / 0x40000) by (bit_vector);
                }
            }
            idx[i] = vpn & 0b1_1111_1111;
            vpn = vpn >> 9;
            proof {
                if i == 1 {
                    assert((x >> 9usize) >> 9usize == x >> 18usize) by (bit_vector);
                } else {
                    assert((x >> 18usize) >> 9usize == x >> 27usize) by (bit_vector);
                }
            }
        }
        idx
    }
}


proof fn lemma_shift_page(p: usize)
    ensures
        p * 4096 <= usize::MAX ==> (p << 12usize) == p * 4096,
        (p << 12usize) & 0xfff == 0,
{
    if p * 4096 <= usize::MAX {
        vstd::arithmetic::power2::lemma2_to64();
        vstd::bits::lemma_usize_shl_is_mul(p, 12);
    }
    assert((p << 12usize) & 0xfff == 0) by (bit_vector);
}

impl PhysPageNum {
    /// Page number of a page-aligned physical address; the address must have
    /// a zero page offset.
    pub fn from_aligned(addr: PhysAddr) -> (r: PhysPageNum)
        requires
            offset_of(addr.0) == 0,
        ensures
            r.0 == floor_of(addr.0),
    {
        addr.floor()
    }
}

impl VirtPageNum {
    /// Page number of a page-aligned virtual address; the address must have
    /// a zero page offset.
    pub fn from_aligned(addr: VirtAddr) -> (r: VirtPageNum)
        requires
            offset_of(addr.0) == 0,
        ensures
            r.0 == floor_of(addr.0),
    {
        addr.floor()
    }

    /// Advances the page number by one page.
    pub fn step(&mut self)
        requires
            old(self).0 < usize::MAX,
        ensures
            final(self).0 == old(self).0 + 1,
    {
        self.0 = self.0 + 1;
    }
}

impl From<usize> for PhysAddr {
    fn from(value: usize) -> (r: Self) {
        PhysAddr(value)
    }
}

impl FromSpecImpl<usize> for PhysAddr {
    open spec fn obeys_from_spec() -> bool {
        true
    }

    open spec fn from_spec(v: usize) -> Self {
        PhysAddr(v)
    }
}

impl From<PhysAddr> for usize {
    fn from(value: PhysAddr) -> (r: Self) {
        value.0
    }
}

impl FromSpecImpl<PhysAddr> for usize {
    open spec fn obeys_from_spec() -> bool {
        true
    }

    open spec fn from_spec(v: PhysAddr) -> Self {
        v.0
    }
}

impl From<PhysPageNum> for PhysAddr {
    fn from(value: PhysPageNum) -> (r: Self) {
        PhysAddr(value.0 << PAGE_SIZE_BITS)
    }
}

impl FromSpecImpl<PhysPageNum> for PhysAddr {
    open spec fn obeys_from_spec() -> bool {
        true
    }

    open spec fn from_spec(v: PhysPageNum) -> Self {
        PhysAddr(page_start(v.0))
    }
}

impl From<usize> for PhysPageNum {
    fn from(value: usize) -> (r: Self) {
        PhysPageNum(value)
    }
}

impl FromSpecImpl<usize> for PhysPageNum {
    open spec fn obeys_from_spec() -> bool {
        true
    }

    open spec fn from_spec(v: usize) -> Self {
        PhysPageNum(v)
    }
}

impl From<PhysPageNum> for usize {
    fn from(value: PhysPageNum) -> (r: Self) {
        value.0
    }
}

impl FromSpecImpl<PhysPageNum> for usize {
    open spec fn obeys_from_spec() -> bool {
        true
    }

    open spec fn from_spec(v: PhysPageNum) -> Self {
        v.0
    }
}

impl From<usize> for VirtAddr {
    fn from(value: usize) -> (r: Self) {
        VirtAddr(value)
    }
}

impl FromSpecImpl<usize> for VirtAddr {
    open spec fn obeys_from_spec() -> bool {
        true
    }

    open spec fn from_spec(v: usize) -> Self {
        VirtAddr(v)
    }
}

impl From<VirtAddr> for usize {
    fn from(value: VirtAddr) -> (r: Self) {
        value.0
    }
}

impl FromSpecImpl<VirtAddr> for usize {
    open spec fn obeys_from_spec() -> bool {
        true
    }

    open spec fn from_spec(v: VirtAddr) -> Self {
        v.0
    }
}

impl From<VirtPageNum> for VirtAddr {
    fn from(value: VirtPageNum) -> (r: Self) {
        VirtAddr(value.0 << PAGE_SIZE_BITS)
    }
}

impl FromSpecImpl<VirtPageNum> for VirtAddr {
    open spec fn obeys_from_spec() -> bool {
        true
    }

    open spec fn from_spec(v: VirtPageNum) -> Self {
        VirtAddr(page_start(v.0))
    }
}

impl From<usize> for VirtPageNum {
    fn from(value: usize) -> (r: Self) {
        VirtPageNum(value)
    }
}

impl FromSpecImpl<usize> for VirtPageNum {
    open spec fn obeys_from_spec() -> bool {
        true
    }

    open spec fn from_spec(v: usize) -> Self {
        VirtPageNum(v)
    }
}

impl From<VirtPageNum> for usize {
    fn from(value: VirtPageNum) -> (r: Self) {
        value.0
    }
}

impl FromSpecImpl<VirtPageNum> for usize {
    open spec fn obeys_from_spec() -> bool {
        true
    }

    open spec fn from_spec(v: VirtPageNum) -> Self {
        v.0
    }
}

/// A half-open range `[start, end)` of virtual page numbers.
#[derive(Clone, Copy, Debug, PartialEq, Eq, Structural)]
pub struct VPNRange {
    pub start: VirtPageNum,
    pub end: VirtPageNum,
}

impl VPNRange {
    /// The range `[start, end)`.
    pub fn new(start: VirtPageNum, end: VirtPageNum) -> (r: VPNRange)
        ensures
            r.start == start,
            r.end == end,
    {
        VPNRange { start, end }
    }

    /// First page number of the range.
    pub fn get_start(&self) -> (r: VirtPageNum)
        ensures
            r == self.start,
    {
        self.start
    }

    /// Page number one past the last page of the range.
    pub fn get_end(&self) -> (r: VirtPageNum)
        ensures
            r == self.end,
    {
        self.end
    }

    /// Number of pages in the range (zero when `end <= start`).
    pub open spec fn len(&self) -> nat {
        if self.start.0 <= self.end.0 {
            (self.end.0 - self.start.0) as nat
        } else {
            0
        }
    }
}

/// An address is the start of its rounded-down page plus its page offset; the
/// rounded-up page is the rounded-down page, plus one exactly when the offset
/// is not zero; and the address lies inside its rounded-down page.
pub proof fn lemma_floor_ceil(a: usize)
    ensures
        a == floor_of(a) * 4096 + offset_of(a),
        ceil_of(a) == floor_of(a) + if offset_of(a) != 0 { 1int } else { 0int },
        floor_of(a) * 4096 <= a < (floor_of(a) + 1) * 4096,
        offset_of(a) == 0 ==> ceil_of(a) == floor_of(a),
        floor_of(a) <= ceil_of(a) <= floor_of(a) + 1,
{
}

/// Turning a page number into its start address and back gives the page
/// number again, and the address has a zero page offset, whenever the start
/// address fits in a machine word.
pub proof fn lemma_page_start_round_trip(p: usize)
    requires
        p * 4096 <= usize::MAX,
    ensures
        page_start(p) == p * 4096,
        floor_of(page_start(p)) == p,
        ceil_of(page_start(p)) == p,
        offset_of(page_start(p)) == 0,
{
    lemma_shift_page(p);
}

/// A page-aligned address is the start address of its page number.
pub proof fn lemma_aligned_round_trip(a: usize)
    requires
        offset_of(a) == 0,
    ensures
        page_start(floor_of(a)) == a,
{
    lemma_shift_page(floor_of(a));
}

/// The three Sv39 indexes of a virtual page number are below 512 and put
/// together give back its low 27 bits.
pub proof fn lemma_indexes_compose(vpn: usize)
    ensures
        vpn_index(vpn, 0) < 512,
        vpn_index(vpn, 1) < 512,
        vpn_index(vpn, 2) < 512,
        vpn_index(vpn, 0) * 0x40000 + vpn_index(vpn, 1) * 0x200 + vpn_index(vpn, 2)
            == vpn % 0x8000000,
{
    let v = vpn as int;
    assert((v / 0x40000) % 512 * 0x40000 + (v / 0x200) % 512 * 0x200 + v % 512 == v % 0x8000000)
        by (nonlinear_arith);
}

} // verus!
