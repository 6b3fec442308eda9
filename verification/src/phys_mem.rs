//! A model of physical memory: a window of page frames, each `PAGE_SIZE`
//! bytes, addressed by physical page number. Page-table entries are 8-byte
//! little-endian words inside a frame, as on Sv39 hardware.
use vstd::prelude::*;
use vstd::bytes::{spec_u64_from_le_bytes, spec_u64_to_le_bytes, u64_from_le_bytes, u64_to_le_bytes};
use vstd::slice::slice_subrange;

verus! {

/// Physical memory as a map from physical page number to the bytes of the frame.
pub struct PhysMem {
    base: usize,
    frames: Vec<Vec<u8>>,
}

/// Every frame of the memory holds exactly one page of bytes, and every
/// frame number fits the 44-bit physical page number field of Sv39.
pub open spec fn frames_ok(m: Map<usize, Seq<u8>>) -> bool {
    forall|p: usize| #[trigger] m.contains_key(p) ==> m[p].len() == 4096 && p < 0x1000_0000_0000
}

/// A page of zero bytes.
pub open spec fn zero_page() -> Seq<u8> {
    Seq::new(4096, |i: int| 0u8)
}

/// The 64-bit little-endian word number `idx` of a frame.
pub open spec fn word_at(frame: Seq<u8>, idx: int) -> u64 {
    spec_u64_from_le_bytes(frame.subrange(8 * idx, 8 * idx + 8))
}

/// The frame with word number `idx` replaced by `w`.
pub open spec fn set_word(frame: Seq<u8>, idx: int, w: u64) -> Seq<u8> {
    frame.subrange(0, 8 * idx) + spec_u64_to_le_bytes(w) + frame.subrange(8 * idx + 8, frame.len() as int)
}

/// Replacing a word changes that word and no other, and keeps the page size.
pub proof fn lemma_set_word(frame: Seq<u8>, idx: int, w: u64)
    requires
        frame.len() == 4096,
        0 <= idx < 512,
    ensures
        set_word(frame, idx, w).len() == 4096,
        word_at(set_word(frame, idx, w), idx) == w,
        forall|j: int| 0 <= j < 512 && j != idx ==> #[trigger] word_at(set_word(frame, idx, w), j) == word_at(frame, j),
{
    vstd::bytes::lemma_auto_spec_u64_to_from_le_bytes();
    let f2 = set_word(frame, idx, w);
    assert(spec_u64_to_le_bytes(w).len() == 8);
    assert(f2.subrange(8 * idx, 8 * idx + 8) =~= spec_u64_to_le_bytes(w));
    assert forall|j: int| 0 <= j < 512 && j != idx implies #[trigger] word_at(f2, j) == word_at(frame, j) by {
        assert(f2.subrange(8 * j, 8 * j + 8) =~= frame.subrange(8 * j, 8 * j + 8));
    }
}

/// Every word of a zero page is zero.
pub proof fn lemma_zero_page_words()
    ensures
        forall|j: int| 0 <= j < 512 ==> #[trigger] word_at(zero_page(), j) == 0,
{
    vstd::bytes::lemma_auto_spec_u64_to_from_le_bytes();
    vstd::bytes::spec_u64_to_le_bytes_to_open(0);
    let z = spec_u64_to_le_bytes(0);
    assert(z =~= seq![0u8, 0u8, 0u8, 0u8, 0u8, 0u8, 0u8, 0u8]) by {
        assert(0u64 & 0xff == 0) by (bit_vector);
        assert((0u64 >> 8u64) & 0xff == 0) by (bit_vector);
        assert((0u64 >> 16u64) & 0xff == 0) by (bit_vector);
        assert((0u64 >> 24u64) & 0xff == 0) by (bit_vector);
        assert((0u64 >> 32u64) & 0xff == 0) by (bit_vector);
        assert((0u64 >> 40u64) & 0xff == 0) by (bit_vector);
        assert((0u64 >> 48u64) & 0xff == 0) by (bit_vector);
        assert((0u64 >> 56u64) & 0xff == 0) by (bit_vector);
    }
    assert forall|j: int| 0 <= j < 512 implies #[trigger] word_at(zero_page(), j) == 0 by {
        assert(zero_page().subrange(8 * j, 8 * j + 8) =~= z);
    }
}

impl View for PhysMem {
    type V = Map<usize, Seq<u8>>;

    closed spec fn view(&self) -> Map<usize, Seq<u8>> {
        Map::new(
            |p: usize| self.base <= p < self.base + self.frames@.len(),
            |p: usize| self.frames@[p - self.base]@,
        )
    }
}

impl PhysMem {
    /// Memory of `count` zeroed frames with page numbers `base .. base + count`.
    pub fn new(base: usize, count: usize) -> (m: PhysMem)
        requires
            base + count <= 0x1000_0000_0000,
        ensures
            m@ == Map::new(|p: usize| base <= p < base + count, |p: usize| zero_page()),
            frames_ok(m@),
    {
        let mut frames: Vec<Vec<u8>> = Vec::new();
        let mut i: usize = 0;
        while i < count
            invariant
                i <= count,
                frames@.len() == i,
                forall|k: int| 0 <= k < i ==> #[trigger] frames@[k]@ == zero_page(),
            decreases count - i,
        {
            let mut page: Vec<u8> = Vec::new();
            let mut j: usize = 0;
            while j < 4096
                invariant
                    j <= 4096,
                    page@ == Seq::new(j as nat, |k: int| 0u8),
                decreases 4096 - j,
            {
                page.push(0u8);
                j = j + 1;
            }
            assert(page@ =~= zero_page());
            frames.push(page);
            i = i + 1;
        }
        let m = PhysMem { base, frames };
        assert(m@ =~= Map::new(|p: usize| base <= p < base + count, |p: usize| zero_page()));
        m
    }

    /// Whether frame `ppn` is part of this memory.
    pub fn contains(&self, ppn: usize) -> (r: bool)
        ensures
            r == self@.contains_key(ppn),
    {
        ppn >= self.base && ppn - self.base < self.frames.len()
    }

    /// Reads word `idx` of frame `ppn`.
    pub fn read_word(&self, ppn: usize, idx: usize) -> (w: u64)
        requires
            self@.contains_key(ppn),
            frames_ok(self@),
            idx < 512,
        ensures
            w == word_at(self@[ppn], idx as int),
    {
        let k = ppn - self.base;
        assert(self.frames@[k as int]@ == self@[ppn]);
        let s = slice_subrange(self.frames[k].as_slice(), 8 * idx, 8 * idx + 8);
        u64_from_le_bytes(s)
    }

    /// Writes word `idx` of frame `ppn`.
    pub fn write_word(&mut self, ppn: usize, idx: usize, w: u64)
        requires
            old(self)@.contains_key(ppn),
            frames_ok(old(self)@),
            idx < 512,
        ensures
            final(self)@ == old(self)@.insert(ppn, set_word(old(self)@[ppn], idx as int, w)),
            frames_ok(final(self)@),
    {
        let k = ppn - self.base;
        let bytes = u64_to_le_bytes(w);
        let ghost f0 = self.frames@[k as int]@;
        assert(f0 == old(self)@[ppn]);
        let mut i: usize = 0;
        while i < 8
            invariant
                i <= 8,
                k < self.frames@.len(),
                self.base == old(self).base,
                self.frames@.len() == old(self).frames@.len(),
                forall|q: int| 0 <= q < self.frames@.len() && q != k ==> #[trigger] self.frames@[q] == old(self).frames@[q],
                bytes@ == spec_u64_to_le_bytes(w),
                bytes@.len() == 8,
                f0.len() == 4096,
                idx < 512,
                self.frames@[k as int]@ == f0.subrange(0, 8 * idx as int) + bytes@.subrange(0, i as int)
                    + f0.subrange(8 * idx + i, 4096),
            decreases 8 - i,
        {
            let b = bytes[i];
            self.frames[k].set(8 * idx + i, b);
            i = i + 1;
            proof {
                assert(self.frames@[k as int]@ =~= f0.subrange(0, 8 * idx as int) + bytes@.subrange(0, i as int)
                    + f0.subrange(8 * idx + i, 4096));
            }
        }
        proof {
            assert(bytes@.subrange(0, 8) =~= bytes@);
            assert(self.frames@[k as int]@ =~= set_word(f0, idx as int, w));
            assert(self@ =~= old(self)@.insert(ppn, set_word(old(self)@[ppn], idx as int, w)));
            lemma_set_word(f0, idx as int, w);
        }
    }

    /// Fills frame `ppn` with zero bytes.
    pub fn zero_frame(&mut self, ppn: usize)
        requires
            old(self)@.contains_key(ppn),
            frames_ok(old(self)@),
        ensures
            final(self)@ == old(self)@.insert(ppn, zero_page()),
            frames_ok(final(self)@),
    {
        let k = ppn - self.base;
        let mut i: usize = 0;
        while i < 4096
            invariant
                i <= 4096,
                k < self.frames@.len(),
                self.base == old(self).base,
                self.frames@.len() == old(self).frames@.len(),
                forall|q: int| 0 <= q < self.frames@.len() && q != k ==> #[trigger] self.frames@[q] == old(self).frames@[q],
                self.frames@[k as int]@.len() == 4096,
                forall|j: int| 0 <= j < i ==> #[trigger] self.frames@[k as int]@[j] == 0u8,
            decreases 4096 - i,
        {
            self.frames[k].set(i, 0u8);
            i = i + 1;
        }
        proof {
            assert(self.frames@[k as int]@ =~= zero_page());
            assert(self@ =~= old(self)@.insert(ppn, zero_page()));
        }
    }

    /// Copies the page of bytes `data[start .. start + PAGE_SIZE]` into frame `ppn`.
    pub fn write_page(&mut self, ppn: usize, data: &[u8], start: usize)
        requires
            old(self)@.contains_key(ppn),
            frames_ok(old(self)@),
            start + 4096 <= data@.len(),
        ensures
            final(self)@ == old(self)@.insert(ppn, data@.subrange(start as int, start + 4096)),
            frames_ok(final(self)@),
    {
        let k = ppn - self.base;
        let n = data.len();
        let mut i: usize = 0;
        while i < 4096
            invariant
                i <= 4096,
                start + 4096 <= data@.len(),
                n == data@.len(),
                k < self.frames@.len(),
                self.base == old(self).base,
                self.frames@.len() == old(self).frames@.len(),
                forall|q: int| 0 <= q < self.frames@.len() && q != k ==> #[trigger] self.frames@[q] == old(self).frames@[q],
                self.frames@[k as int]@.len() == 4096,
                forall|j: int| 0 <= j < i ==> #[trigger] self.frames@[k as int]@[j] == data@[start + j],
            decreases 4096 - i,
        {
            self.frames[k].set(i, data[start + i]);
            i = i + 1;
        }
        proof {
            assert(self.frames@[k as int]@ =~= data@.subrange(start as int, start + 4096));
            assert(self@ =~= old(self)@.insert(ppn, data@.subrange(start as int, start + 4096)));
        }
    }

    /// Copies the `count` bytes `data[start .. start + count]` to the start
    /// of frame `ppn`; the rest of the frame is kept.
    pub fn write_bytes(&mut self, ppn: usize, data: &[u8], start: usize, count: usize)
        requires
            old(self)@.contains_key(ppn),
            frames_ok(old(self)@),
            count <= 4096,
            start + count <= data@.len(),
        ensures
            final(self)@ == old(self)@.insert(ppn, data@.subrange(start as int, start + count)
                + old(self)@[ppn].subrange(count as int, 4096)),
            frames_ok(final(self)@),
    {
        let k = ppn - self.base;
        let ghost f0 = old(self)@[ppn];
        assert(self.frames@[k as int]@ == f0);
        let n = data.len();
        let mut i: usize = 0;
        while i < count
            invariant
                n == data@.len(),
                i <= count <= 4096,
                start + count <= data@.len(),
                k < self.frames@.len(),
                self.base == old(self).base,
                self.frames@.len() == old(self).frames@.len(),
                forall|q: int| 0 <= q < self.frames@.len() && q != k ==> #[trigger] self.frames@[q] == old(self).frames@[q],
                self.frames@[k as int]@.len() == 4096,
                f0.len() == 4096,
                forall|j: int| 0 <= j < i ==> #[trigger] self.frames@[k as int]@[j] == data@[start + j],
                forall|j: int| i <= j < 4096 ==> #[trigger] self.frames@[k as int]@[j] == f0[j],
            decreases count - i,
        {
            self.frames[k].set(i, data[start + i]);
            i = i + 1;
        }
        proof {
            assert(self.frames@[k as int]@ =~= data@.subrange(start as int, start + count) + f0.subrange(count as int, 4096));
            assert(self@ =~= old(self)@.insert(ppn, data@.subrange(start as int, start + count) + f0.subrange(count as int, 4096)));
        }
    }

    /// The bytes `from .. to` of frame `ppn`.
    pub fn read_bytes(&self, ppn: usize, from: usize, to: usize) -> (r: Vec<u8>)
        requires
            self@.contains_key(ppn),
            frames_ok(self@),
            from <= to <= 4096,
        ensures
            r@ == self@[ppn].subrange(from as int, to as int),
    {
        let k = ppn - self.base;
        assert(self.frames@[k as int]@ == self@[ppn]);
        let mut r: Vec<u8> = Vec::new();
        let mut i: usize = from;
        while i < to
            invariant
                from <= i <= to <= 4096,
                k < self.frames@.len(),
                self.frames@[k as int]@ == self@[ppn],
                self@[ppn].len() == 4096,
                r@ == self@[ppn].subrange(from as int, i as int),
            decreases to - i,
        {
            r.push(self.frames[k][i]);
            i = i + 1;
            proof {
                assert(r@ =~= self@[ppn].subrange(from as int, i as int));
            }
        }
        r
    }
}

} // verus!
