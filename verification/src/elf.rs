//! Reading an application's ELF image: its header and its program headers,
//! read by the `xmas_elf` crate, and the loadable segments the application's
//! address space is built from.
use vstd::prelude::*;
use xmas_elf::program::Type;
use xmas_elf::header::HeaderPt2;
use xmas_elf::ElfFile;
use crate::elf::SegmentKind::{Load, Other};

verus! {

/// The ELF magic number: 0x7f, 'E', 'L', 'F'.
pub open spec fn elf_magic(d: Seq<u8>) -> bool {
    &&& d.len() >= 4
    &&& d[0] == 0x7fu8
    &&& d[1] == 0x45u8
    &&& d[2] == 0x4cu8
    &&& d[3] == 0x46u8
}

/// The header part that `xmas_elf` reads: the bytes are at least the
/// 16-byte identification, start with the magic number and name a 32-bit
/// (1) or 64-bit (2) class.
pub open spec fn header_accepts(d: Seq<u8>) -> bool {
    &&& d.len() >= 16
    &&& elf_magic(d)
    &&& (d[4] == 1u8 || d[4] == 2u8)
}

/// Inputs on which `xmas_elf` panics while reading the header: the
/// identification is accepted but the bytes end before the rest of the
/// header (36 more bytes for class 1, 48 for class 2).
pub open spec fn header_panics(d: Seq<u8>) -> bool {
    &&& d.len() >= 16
    &&& elf_magic(d)
    &&& ((d[4] == 1u8 && d.len() < 52) || (d[4] == 2u8 && d.len() < 64))
}

/// What the library reads of an ELF header.
#[derive(Clone, Copy, Debug)]
pub struct ElfHeaderInfo {
    pub magic: [u8; 4],
    pub is_64: bool,
    pub entry_point: u64,
    pub ph_offset: u64,
    pub ph_entry_size: u16,
    pub ph_count: u16,
}

/// Whether a program header is loadable (`xmas_elf`'s type `Load`) or of
/// another known type.
#[derive(Clone, Copy, Debug, PartialEq, Eq, Structural)]
pub enum SegmentKind {
    Load,
    Other,
}

/// What the library reads of a program header; `kind` is `None` when the
/// type field holds no known type.
#[derive(Clone, Copy, Debug, PartialEq, Eq, Structural)]
pub struct ProgramHeaderInfo {
    pub kind: Option<SegmentKind>,
    pub offset: u64,
    pub virtual_addr: u64,
    pub file_size: u64,
    pub mem_size: u64,
    pub readable: bool,
    pub writable: bool,
    pub executable: bool,
}

/// The header `xmas_elf` reads from the bytes `data`.
pub uninterp spec fn elf_header(data: Seq<u8>) -> Option<ElfHeaderInfo>;

/// Program header `index` as `xmas_elf` reads it from the bytes `data`.
pub uninterp spec fn elf_program_header(data: Seq<u8>, index: u16) -> Option<ProgramHeaderInfo>;

/// Whether `xmas_elf` finds program header `index` at all: it must be one
/// of the counted headers, and the table's offset and entry size nonzero.
pub open spec fn ph_listed(h: ElfHeaderInfo, index: u16) -> bool {
    index < h.ph_count && h.ph_offset > 0 && h.ph_entry_size > 0
}

/// Inputs on which `xmas_elf` panics while reading program header `index`
/// from bytes stored at an 8-aligned address: the header is listed but its
/// entry runs past the end of the bytes, the entry size is below the size of
/// a program header of the class (56 bytes for 64-bit files, 32 for 32-bit
/// ones), or the entry's offset is not a multiple of the header's alignment
/// (8 for 64-bit files, 4 for 32-bit ones).
pub open spec fn ph_panics(h: ElfHeaderInfo, len: nat, index: u16) -> bool {
    &&& ph_listed(h, index)
    &&& (h.ph_offset + index * h.ph_entry_size + h.ph_entry_size > len
        || h.ph_entry_size < (if h.is_64 { 56int } else { 32int })
        || (h.ph_offset + index * h.ph_entry_size) % (if h.is_64 { 8int } else { 4int }) != 0)
}

/// Reads the ELF header of `data` with `xmas_elf::ElfFile::new`.
///
/// The contract claims that the result is the named header of the bytes,
/// that the crate accepts exactly the bytes that start with the magic number
/// and name a known class, that the magic field is then the first four bytes
/// and that the file is 64-bit exactly when the class byte is 2.
/// The crate asserts that the bytes lie at an address aligned for its
/// header structures, so the wrapper hands it a copy of the bytes at an
/// 8-aligned address. It reads the multi-byte fields in the target's byte
/// order, which the name takes as fixed.
#[verifier::external_body]
fn read_elf_header(data: &[u8]) -> (r: Option<ElfHeaderInfo>)
    requires
        !header_panics(data@),
    ensures
        r == elf_header(data@),
        r is Some <==> header_accepts(data@),
        r matches Some(h) ==> h.magic@ == data@.subrange(0, 4) && h.is_64 == (data@[4] == 2u8),
{
    let n = data.len();
    let mut buf = vec![0u8; n + 7];
    let k = buf.as_ptr().align_offset(8);
    buf[k..k + n].copy_from_slice(data);
    let elf = ElfFile::new(&buf[k..k + n]).ok()?;
    let pt2 = elf.header.pt2;
    Some(ElfHeaderInfo {
        magic: elf.header.pt1.magic,
        is_64: match pt2 {
            HeaderPt2::Header32(_) => false,
            HeaderPt2::Header64(_) => true,
        },
        entry_point: pt2.entry_point(), ph_offset: pt2.ph_offset(),
        ph_entry_size: pt2.ph_entry_size(), ph_count: pt2.ph_count(),
    })
}

/// Reads program header `index` of `data` with
/// `xmas_elf::ElfFile::program_header` (on the file `ElfFile::new` makes of
/// the same bytes), with its type, offset, addresses, sizes and R/W/X flags.
///
/// The contract claims that the result is the named program header of the
/// bytes, and that the crate finds it exactly when it is listed (see
/// `ph_listed`). As for the header, the crate reads a copy of the bytes at
/// an 8-aligned address, so the entry's alignment depends on its offset
/// alone (see `ph_panics`).
#[verifier::external_body]
fn read_program_header(data: &[u8], index: u16) -> (r: Option<ProgramHeaderInfo>)
    requires
        !header_panics(data@),
        elf_header(data@) matches Some(h) && !ph_panics(h, data@.len(), index),
    ensures
        r == elf_program_header(data@, index),
        r is Some <==> ph_listed(elf_header(data@)->0, index),
{
    let n = data.len();
    let mut buf = vec![0u8; n + 7];
    let k = buf.as_ptr().align_offset(8);
    buf[k..k + n].copy_from_slice(data);
    let elf = ElfFile::new(&buf[k..k + n]).ok()?;
    let ph = elf.program_header(index).ok()?;
    let kind = match ph.get_type() {
        Ok(Type::Load) => Some(Load), Err(_) => None, _ => Some(Other)
    };
    let fl = ph.flags();
    Some(ProgramHeaderInfo {
        kind, offset: ph.offset(), virtual_addr: ph.virtual_addr(), file_size: ph.file_size(),
        mem_size: ph.mem_size(), readable: fl.is_read(), writable: fl.is_write(), executable: fl.is_execute()
    })
}

/// A loadable segment as an address space takes it: its virtual addresses
/// `start_va .. end_va`, its R/W/X flags, and the bytes
/// `data_start .. data_end` of the file that fill it.
#[derive(Clone, Copy, Debug, PartialEq, Eq, Structural)]
pub struct ElfSegment {
    pub start_va: usize,
    pub end_va: usize,
    pub readable: bool,
    pub writable: bool,
    pub executable: bool,
    pub data_start: usize,
    pub data_end: usize,
}

/// What a program header gives for a file of `len` bytes: `None` when
/// loading must fail (an unknown type; for a loadable segment, an end address
/// past the machine word, an end offset past 64 bits, or file bytes beyond
/// the file), `Some(None)` for a header of another type, which is skipped,
/// and the segment otherwise.
pub open spec fn segment_of(ph: ProgramHeaderInfo, len: nat) -> Option<Option<ElfSegment>> {
    match ph.kind {
        None => None,
        Some(SegmentKind::Other) => Some(None),
        Some(SegmentKind::Load) => {
            let va = ph.virtual_addr as usize;
            let size = ph.mem_size as usize;
            let data_start = ph.offset as usize;
            let data_end = (ph.offset + ph.file_size) as u64 as usize;
            if va + size > usize::MAX || ph.offset + ph.file_size > u64::MAX || data_start > data_end || data_end > len {
                None
            } else {
                Some(Some(ElfSegment {
                    start_va: va,
                    end_va: (va + size) as usize,
                    readable: ph.readable,
                    writable: ph.writable,
                    executable: ph.executable,
                    data_start,
                    data_end,
                }))
            }
        },
    }
}

/// The loadable segments of the first `n` program headers of `data`, whose
/// header is `h`, in order; `None` when one of them makes loading fail.
pub open spec fn segments_upto(data: Seq<u8>, h: ElfHeaderInfo, n: nat) -> Option<Seq<ElfSegment>>
    decreases n,
{
    if n == 0 {
        Some(Seq::empty())
    } else {
        match segments_upto(data, h, (n - 1) as nat) {
            None => None,
            Some(segs) => {
                let i = (n - 1) as u16;
                if ph_panics(h, data.len(), i) {
                    None
                } else {
                    match elf_program_header(data, i) {
                        None => None,
                        Some(ph) => match segment_of(ph, data.len()) {
                            None => None,
                            Some(None) => Some(segs),
                            Some(Some(s)) => Some(segs.push(s)),
                        },
                    }
                }
            },
        }
    }
}

/// The image of the ELF file `data`: its loadable segments and its entry
/// point, or `None` when the file cannot be loaded.
pub open spec fn elf_image(data: Seq<u8>) -> Option<(Seq<ElfSegment>, u64)> {
    if header_panics(data) {
        None
    } else {
        match elf_header(data) {
            None => None,
            Some(h) => if h.magic@ != data.subrange(0, 4) {
                None
            } else {
                match segments_upto(data, h, h.ph_count as nat) {
                    None => None,
                    Some(segs) => Some((segs, h.entry_point)),
                }
            },
        }
    }
}

/// The segment `s` is what the loadable program header `ph` describes: the
/// same R/W/X flags, the addresses from its virtual address over its memory
/// size, and the file bytes from its offset over its file size.
pub open spec fn segment_follows_header(s: ElfSegment, ph: ProgramHeaderInfo) -> bool {
    &&& s.readable == ph.readable
    &&& s.writable == ph.writable
    &&& s.executable == ph.executable
    &&& s.start_va == ph.virtual_addr as usize
    &&& s.end_va == (ph.virtual_addr as usize) + (ph.mem_size as usize)
    &&& s.data_start == ph.offset as usize
    &&& s.data_end == (ph.offset + ph.file_size) as usize
}

/// A segment a program header gives carries that header's flags,
/// addresses and file range, and only a loadable header gives one.
pub proof fn lemma_segment_of_header(ph: ProgramHeaderInfo, len: nat)
    ensures
        segment_of(ph, len) matches Some(Some(s)) ==> {
            &&& ph.kind == Some(SegmentKind::Load)
            &&& s.readable == ph.readable
            &&& s.writable == ph.writable
            &&& s.executable == ph.executable
            &&& s.start_va == ph.virtual_addr as usize
            &&& s.end_va == (ph.virtual_addr as usize) + (ph.mem_size as usize)
            &&& s.data_start == ph.offset as usize
            &&& s.data_end == (ph.offset + ph.file_size) as usize
        },
{
}

/// Every loadable segment of the first `n` program headers comes from one
/// of them, a loadable one, with its flags, addresses and file range.
proof fn lemma_segments_upto_headers(data: Seq<u8>, h: ElfHeaderInfo, n: nat, k: int)
    requires
        segments_upto(data, h, n) matches Some(segs) && 0 <= k < segs.len(),
    ensures
        exists|i: u16| #![trigger elf_program_header(data, i)] i < n && (elf_program_header(data, i) matches Some(ph)
            && ph.kind == Some(SegmentKind::Load) && segment_follows_header(segments_upto(data, h, n)->0[k], ph)),
    decreases n,
{
    let segs = segments_upto(data, h, n)->0;
    let prev = segments_upto(data, h, (n - 1) as nat)->0;
    let i = (n - 1) as u16;
    let ph = elf_program_header(data, i)->0;
    lemma_segment_of_header(ph, data.len());
    if k < prev.len() {
        assert(segs[k] == prev[k]);
        lemma_segments_upto_headers(data, h, (n - 1) as nat, k);
        let j = choose|j: u16| #![trigger elf_program_header(data, j)] j < n - 1 && (elf_program_header(data, j) matches Some(q)
            && q.kind == Some(SegmentKind::Load) && segment_follows_header(prev[k], q));
        assert(j < n);
    } else {
        assert(segs == prev.push(segs[k]));
        assert(segment_of(ph, data.len()) == Some(Some(segs[k])));
        assert(i < n);
    }
}

/// Each segment of a loadable ELF image comes from a loadable program header
/// of the file and has that header's R/W/X flags, virtual addresses and file
/// range.
pub proof fn lemma_image_segments_follow_headers(data: Seq<u8>, k: int)
    requires
        elf_image(data) matches Some((segs, _)) && 0 <= k < segs.len(),
    ensures
        exists|i: u16| #![trigger elf_program_header(data, i)] elf_program_header(data, i) matches Some(ph)
            && ph.kind == Some(SegmentKind::Load) && segment_follows_header((elf_image(data)->0).0[k], ph),
{
    let h = elf_header(data)->0;
    lemma_segments_upto_headers(data, h, h.ph_count as nat, k);
}

/// The loadable segments of an ELF file and its entry point.
pub struct ElfImage {
    pub segments: Vec<ElfSegment>,
    pub entry_point: u64,
}

/// The segment a program header gives in a file of `len` bytes; see
/// `segment_of`.
pub fn segment_from_header(ph: &ProgramHeaderInfo, len: usize) -> (r: Option<Option<ElfSegment>>)
    ensures
        r == segment_of(*ph, len as nat),
        r matches Some(Some(s)) ==> segment_follows_header(s, *ph),
        r matches Some(Some(_)) ==> ph.kind == Some(SegmentKind::Load),
{
    match ph.kind {
        None => None,
        Some(SegmentKind::Other) => Some(None),
        Some(SegmentKind::Load) => {
            let va = ph.virtual_addr as usize;
            let size = ph.mem_size as usize;
            let end_va = match va.checked_add(size) {
                Some(e) => e,
                None => return None,
            };
            let data_end = match ph.offset.checked_add(ph.file_size) {
                Some(e) => e as usize,
                None => return None,
            };
            let data_start = ph.offset as usize;
            if data_start > data_end || data_end > len {
                return None;
            }
            Some(Some(ElfSegment {
                start_va: va,
                end_va,
                readable: ph.readable,
                writable: ph.writable,
                executable: ph.executable,
                data_start,
                data_end,
            }))
        },
    }
}

/// Reads the ELF file `data`: its header, then each program header in
/// order, keeping the loadable segments. `None` exactly when the file cannot
/// be loaded (see `elf_image`).
pub fn read_elf_image(data: &[u8]) -> (r: Option<ElfImage>)
    ensures
        match r {
            Some(img) => elf_image(data@) == Some((img.segments@, img.entry_point)),
            None => elf_image(data@) is None,
        },
{
    let len = data.len();
    if len >= 16 && data[0] == 0x7f && data[1] == 0x45 && data[2] == 0x4c && data[3] == 0x46
        && ((data[4] == 1 && len < 52) || (data[4] == 2 && len < 64)) {
        return None;
    }
    let h = match read_elf_header(data) {
        Some(h) => h,
        None => return None,
    };
    if h.magic[0] != data[0] || h.magic[1] != data[1] || h.magic[2] != data[2] || h.magic[3] != data[3] {
        proof {
            assert(h.magic@ != data@.subrange(0, 4));
        }
        return None;
    }
    proof {
        assert(h.magic@ =~= data@.subrange(0, 4));
    }
    let mut segments: Vec<ElfSegment> = Vec::new();
    let mut i: u16 = 0;
    while i < h.ph_count
        invariant
            !header_panics(data@),
            elf_header(data@) == Some(h),
            i <= h.ph_count,
            len == data@.len(),
            segments_upto(data@, h, i as nat) == Some(segments@),
        decreases h.ph_count - i,
    {
        let listed = h.ph_offset > 0 && h.ph_entry_size > 0;
        if listed {
            let es = h.ph_entry_size as u64;
            let min: u64 = if h.is_64 { 56 } else { 32 };
            let align: u64 = if h.is_64 { 8 } else { 4 };
            assert((i as u64) * es + es <= 0xffff * 0xffff + 0xffff) by (nonlinear_arith)
                requires i <= 0xffff, es <= 0xffff;
            let fits = match h.ph_offset.checked_add((i as u64) * es + es) {
                Some(end) => end <= len as u64,
                None => false,
            };
            if !fits || es < min || (h.ph_offset + (i as u64) * es) % align != 0 {
                proof {
                    assert(ph_panics(h, data@.len(), i));
                    assert(segments_upto(data@, h, (i + 1) as nat) is None);
                    lemma_segments_fail_stays(data@, h, (i + 1) as nat, h.ph_count as nat);
                }
                return None;
            }
        }
        let ph = read_program_header(data, i);
        let ph = match ph {
            Some(ph) => ph,
            None => {
                proof {
                    lemma_segments_fail_stays(data@, h, (i + 1) as nat, h.ph_count as nat);
                }
                return None;
            },
        };
        match segment_from_header(&ph, len) {
            None => {
                proof {
                    lemma_segments_fail_stays(data@, h, (i + 1) as nat, h.ph_count as nat);
                }
                return None;
            },
            Some(None) => {},
            Some(Some(s)) => {
                segments.push(s);
            },
        }
        i = i + 1;
    }
    Some(ElfImage { segments, entry_point: h.entry_point })
}

/// Once a program header makes loading fail, so does every longer prefix.
proof fn lemma_segments_fail_stays(data: Seq<u8>, h: ElfHeaderInfo, m: nat, n: nat)
    requires
        segments_upto(data, h, m) is None,
        m <= n,
    ensures
        segments_upto(data, h, n) is None,
    decreases n - m,
{
    if m < n {
        lemma_segments_fail_stays(data, h, m, (n - 1) as nat);
    }
}

} // verus!
