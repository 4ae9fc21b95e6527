//! Reader for the executable image format the loader consumes: the magic
//! header, the entry point, and the loadable entries of the program-header
//! table, each with its virtual range, file range and permission flags.
use vstd::prelude::*;

verus! {

/// Little-endian 16-bit field at `off`.
pub open spec fn le16(s: Seq<u8>, off: int) -> int {
    s[off] + s[off + 1] * 0x100
}

/// Little-endian 32-bit field at `off`.
pub open spec fn le32(s: Seq<u8>, off: int) -> int {
    le16(s, off) + le16(s, off + 2) * 0x10000
}

/// Little-endian 64-bit field at `off`.
pub open spec fn le64(s: Seq<u8>, off: int) -> int {
    le32(s, off) + le32(s, off + 4) * 0x100000000
}

/// One loadable entry of the program-header table, reduced to the plain
/// values the loader uses.
#[derive(Copy, Clone, Debug, PartialEq, Eq, Structural)]
pub struct SegmentInfo {
    /// First byte of the segment in the image's virtual layout.
    pub start_va: usize,
    /// One past the last byte of the segment's memory image.
    pub end_va: usize,
    /// Read/write/execute flags as stated by the header: execute is bit 0,
    /// write bit 1, read bit 2.
    pub flags: u32,
    /// First byte of the segment's initialized data within the file.
    pub file_off: usize,
    /// Number of initialized bytes taken from the file.
    pub file_size: usize,
}

/// What a parse of the image can reject.
#[derive(Copy, Clone, Debug, PartialEq, Eq, Structural)]
pub enum ElfError {
    TruncatedHeader,
    BadMagic,
    UnsupportedClass,
    TruncatedProgramHeaders,
    MalformedSegment,
    BadLayout,
    FrameExhausted,
}

/// Whether the image is long enough to hold the fixed header.
pub open spec fn header_len_ok(s: Seq<u8>) -> bool {
    s.len() >= 64
}

/// Whether the image starts with the magic header bytes.
pub open spec fn magic_ok(s: Seq<u8>) -> bool {
    s[0] == 0x7f && s[1] == 0x45 && s[2] == 0x4c && s[3] == 0x46
}

/// Whether the image declares the 64-bit layout this reader understands.
pub open spec fn class_ok(s: Seq<u8>) -> bool {
    s[4] == 2
}

/// Declared entry point of the image.
pub open spec fn spec_entry(s: Seq<u8>) -> int {
    le64(s, 24)
}

/// Offset of the program-header table.
pub open spec fn spec_ph_off(s: Seq<u8>) -> int {
    le64(s, 32)
}

/// Size of one program-header entry.
pub open spec fn spec_ph_entsize(s: Seq<u8>) -> int {
    le16(s, 54)
}

/// Number of program-header entries.
pub open spec fn spec_ph_count(s: Seq<u8>) -> int {
    le16(s, 56)
}

/// Offset of the `i`-th program-header entry.
pub open spec fn phdr_base(s: Seq<u8>, i: int) -> int {
    spec_ph_off(s) + i * spec_ph_entsize(s)
}

/// Whether the whole program-header table lies inside the image and each
/// entry is large enough for the 64-bit layout.
pub open spec fn phdrs_ok(s: Seq<u8>) -> bool {
    &&& spec_ph_entsize(s) >= 56
    &&& spec_ph_off(s) + spec_ph_count(s) * spec_ph_entsize(s) <= s.len()
}

/// Whether the `i`-th entry describes a loadable segment.
pub open spec fn is_load(s: Seq<u8>, i: int) -> bool {
    le32(s, phdr_base(s, i)) == 1
}

/// The plain description of the `i`-th entry.
pub open spec fn seg_of(s: Seq<u8>, i: int) -> SegmentInfo {
    SegmentInfo {
        start_va: le64(s, phdr_base(s, i) + 16) as usize,
        end_va: (le64(s, phdr_base(s, i) + 16) + le64(s, phdr_base(s, i) + 40)) as usize,
        flags: le32(s, phdr_base(s, i) + 4) as u32,
        file_off: le64(s, phdr_base(s, i) + 8) as usize,
        file_size: le64(s, phdr_base(s, i) + 32) as usize,
    }
}

/// Whether the `i`-th loadable entry is internally sound: its arithmetic
/// stays in machine range, its initialized bytes lie inside the image, and it
/// does not claim more initialized bytes than memory.
pub open spec fn seg_ok(s: Seq<u8>, i: int) -> bool {
    &&& le64(s, phdr_base(s, i) + 16) + le64(s, phdr_base(s, i) + 40) <= usize::MAX
    &&& le64(s, phdr_base(s, i) + 8) + le64(s, phdr_base(s, i) + 32) <= s.len()
    &&& le64(s, phdr_base(s, i) + 32) <= le64(s, phdr_base(s, i) + 40)
}

/// Whether every loadable entry of the table is sound.
pub open spec fn segs_ok(s: Seq<u8>) -> bool {
    forall|i: int| 0 <= i < spec_ph_count(s) && is_load(s, i) ==> #[trigger] seg_ok(s, i)
}

/// The loadable segments among the first `n` entries, in table order.
pub open spec fn load_segments_upto(s: Seq<u8>, n: int) -> Seq<SegmentInfo>
    decreases n,
{
    if n <= 0 {
        Seq::empty()
    } else if is_load(s, n - 1) {
        load_segments_upto(s, n - 1).push(seg_of(s, n - 1))
    } else {
        load_segments_upto(s, n - 1)
    }
}

/// All loadable segments of the image, in table order.
pub open spec fn load_segments(s: Seq<u8>) -> Seq<SegmentInfo> {
    load_segments_upto(s, spec_ph_count(s))
}

/// Whether the image parses at all.
pub open spec fn parse_ok(s: Seq<u8>) -> bool {
    header_len_ok(s) && magic_ok(s) && class_ok(s) && phdrs_ok(s) && segs_ok(s)
}

/// The parsed form of an image: its entry point and its loadable segments.
#[derive(Debug, PartialEq, Eq)]
pub struct ElfImage {
    pub entry: usize,
    pub segments: Vec<SegmentInfo>,
}

/// Reads the 16-bit little-endian field at `off`.
fn read_u16(data: &[u8], off: usize) -> (r: u16)
    requires
        off + 2 <= data@.len(),
    ensures
        r == le16(data@, off as int),
{
    let n = data.len();
    let b0 = *vstd::slice::slice_index_get(data, off);
    let b1 = *vstd::slice::slice_index_get(data, off + 1);
    proof {
        assert(((b0 as u16) | ((b1 as u16) << 8)) == (b0 as u16) + (b1 as u16) * 0x100)
            by (bit_vector);
    }
    (b0 as u16) | ((b1 as u16) << 8)
}

/// Reads the 32-bit little-endian field at `off`.
fn read_u32(data: &[u8], off: usize) -> (r: u32)
    requires
        off + 4 <= data@.len(),
    ensures
        r == le32(data@, off as int),
{
    let n = data.len();
    let lo = read_u16(data, off);
    let hi = read_u16(data, off + 2);
    proof {
        assert(((lo as u32) | ((hi as u32) << 16)) == (lo as u32) + (hi as u32) * 0x10000)
            by (bit_vector);
    }
    (lo as u32) | ((hi as u32) << 16)
}

/// Reads the 64-bit little-endian field at `off`.
fn read_u64(data: &[u8], off: usize) -> (r: u64)
    requires
        off + 8 <= data@.len(),
    ensures
        r == le64(data@, off as int),
{
    let n = data.len();
    let lo = read_u32(data, off);
    let hi = read_u32(data, off + 4);
    proof {
        assert(((lo as u64) | ((hi as u64) << 32)) == (lo as u64) + (hi as u64) * 0x100000000)
            by (bit_vector);
    }
    (lo as u64) | ((hi as u64) << 32)
}

/// Parses an image: checks the magic header and the 64-bit class, walks the
/// program-header table, and hands back the entry point together with every
/// loadable segment in table order. Each rejection answers exactly one
/// malformation, checked in the order given by the error conditions below.
pub fn parse_elf(data: &[u8]) -> (r: Result<ElfImage, ElfError>)
    ensures
        r is Ok <==> parse_ok(data@),
        r == Err::<ElfImage, ElfError>(ElfError::TruncatedHeader) <==> !header_len_ok(data@),
        r == Err::<ElfImage, ElfError>(ElfError::BadMagic) <==> header_len_ok(data@) && !magic_ok(
            data@,
        ),
        r == Err::<ElfImage, ElfError>(ElfError::UnsupportedClass) <==> header_len_ok(data@)
            && magic_ok(data@) && !class_ok(data@),
        r == Err::<ElfImage, ElfError>(ElfError::TruncatedProgramHeaders) <==> header_len_ok(data@)
            && magic_ok(data@) && class_ok(data@) && !phdrs_ok(data@),
        r == Err::<ElfImage, ElfError>(ElfError::MalformedSegment) <==> header_len_ok(data@)
            && magic_ok(data@) && class_ok(data@) && phdrs_ok(data@) && !segs_ok(data@),
        r is Ok ==> r.unwrap().entry == spec_entry(data@) as usize && r.unwrap().segments@
            == load_segments(data@),
{
    if data.len() < 64 {
        return Err(ElfError::TruncatedHeader);
    }
    let m0 = *vstd::slice::slice_index_get(data, 0);
    let m1 = *vstd::slice::slice_index_get(data, 1);
    let m2 = *vstd::slice::slice_index_get(data, 2);
    let m3 = *vstd::slice::slice_index_get(data, 3);
    if !(m0 == 0x7f && m1 == 0x45 && m2 == 0x4c && m3 == 0x46) {
        return Err(ElfError::BadMagic);
    }
    let class = *vstd::slice::slice_index_get(data, 4);
    if class != 2 {
        return Err(ElfError::UnsupportedClass);
    }
    let entry = read_u64(data, 24);
    let ph_off = read_u64(data, 32);
    let ph_entsize = read_u16(data, 54);
    let ph_count = read_u16(data, 56);
    if ph_entsize < 56 {
        return Err(ElfError::TruncatedProgramHeaders);
    }
    // The table bound: ph_off + ph_count * ph_entsize must fit in the image.
    proof {
        vstd::arithmetic::mul::lemma_mul_upper_bound(
            ph_count as int,
            0xFFFF,
            ph_entsize as int,
            0xFFFF,
        );
    }
    let table: u64 = (ph_count as u64) * (ph_entsize as u64);
    if ph_off > data.len() as u64 || table > data.len() as u64 - ph_off {
        proof {
            assert(!phdrs_ok(data@));
        }
        return Err(ElfError::TruncatedProgramHeaders);
    }
    let mut segments: Vec<SegmentInfo> = Vec::new();
    let mut i: usize = 0;
    let n: usize = ph_count as usize;
    let data_len = data.len();
    while i < n
        invariant
            n == spec_ph_count(data@),
            0 <= i <= n,
            data@.len() >= 64,
            data_len == data@.len(),
            header_len_ok(data@),
            magic_ok(data@),
            class_ok(data@),
            phdrs_ok(data@),
            entry == spec_entry(data@),
            spec_ph_entsize(data@) == ph_entsize,
            spec_ph_off(data@) == ph_off,
            ph_entsize >= 56,
            spec_ph_off(data@) + spec_ph_count(data@) * spec_ph_entsize(data@) <= data@.len(),
            forall|t: int| 0 <= t < i && is_load(data@, t) ==> #[trigger] seg_ok(data@, t),
            segments@ == load_segments_upto(data@, i as int),
        decreases n - i,
    {
        proof {
            vstd::arithmetic::mul::lemma_mul_inequality(
                i as int + 1,
                n as int,
                ph_entsize as int,
            );
            vstd::arithmetic::mul::lemma_mul_is_distributive_add_other_way(
                ph_entsize as int,
                i as int,
                1,
            );
            vstd::arithmetic::mul::lemma_mul_is_commutative(i as int, ph_entsize as int);
            vstd::arithmetic::mul::lemma_mul_is_commutative(n as int, ph_entsize as int);
            vstd::arithmetic::mul::lemma_mul_inequality(i as int, n as int, ph_entsize as int);
            vstd::arithmetic::mul::lemma_mul_nonnegative(i as int, ph_entsize as int);
            assert(spec_ph_off(data@) + (i as int) * (ph_entsize as int) + ph_entsize
                <= data@.len());
        }
        let base: usize = (ph_off as usize) + i * (ph_entsize as usize);
        proof {
            assert(base as int == phdr_base(data@, i as int));
        }
        let p_type = read_u32(data, base);
        if p_type == 1 {
            proof {
                assert(is_load(data@, i as int));
            }
            let vaddr = read_u64(data, base + 16);
            let memsz = read_u64(data, base + 40);
            let off = read_u64(data, base + 8);
            let filesz = read_u64(data, base + 32);
            if vaddr > u64::MAX - memsz || vaddr + memsz > usize::MAX as u64 {
                proof {
                    assert(!seg_ok(data@, i as int));
                    assert(!segs_ok(data@));
                }
                return Err(ElfError::MalformedSegment);
            }
            if off > data_len as u64 || filesz > data_len as u64 - off {
                proof {
                    assert(!seg_ok(data@, i as int));
                    assert(!segs_ok(data@));
                }
                return Err(ElfError::MalformedSegment);
            }
            if filesz > memsz {
                proof {
                    assert(!seg_ok(data@, i as int));
                    assert(!segs_ok(data@));
                }
                return Err(ElfError::MalformedSegment);
            }
            let flags = read_u32(data, base + 4);
            let seg = SegmentInfo {
                start_va: vaddr as usize,
                end_va: (vaddr + memsz) as usize,
                flags,
                file_off: off as usize,
                file_size: filesz as usize,
            };
            proof {
                assert(seg_ok(data@, i as int));
                assert(seg == seg_of(data@, i as int));
            }
            segments.push(seg);
        }
        i = i + 1;
        proof {
            assert(segments@ == load_segments_upto(data@, i as int));
        }
    }
    Ok(ElfImage { entry: entry as usize, segments })
}

/// There are no more loadable segments than table entries.
pub proof fn lemma_load_segments_len(s: Seq<u8>, n: int)
    requires
        n >= 0,
    ensures
        load_segments_upto(s, n).len() <= n,
    decreases n,
{
    if n > 0 {
        lemma_load_segments_len(s, n - 1);
    }
}

/// Every loadable segment of a sound image stays inside the image's bytes
/// and claims no more initialized bytes than memory.
pub proof fn lemma_load_segments_sound(s: Seq<u8>, n: int)
    requires
        0 <= n <= spec_ph_count(s),
        segs_ok(s),
    ensures
        forall|j: int|
            0 <= j < load_segments_upto(s, n).len() ==> {
                let g = #[trigger] load_segments_upto(s, n)[j];
                &&& g.start_va <= g.end_va
                &&& g.file_off + g.file_size <= s.len()
                &&& g.file_size <= g.end_va - g.start_va
            },
    decreases n,
{
    if n > 0 {
        lemma_load_segments_sound(s, n - 1);
        if is_load(s, n - 1) {
            assert(seg_ok(s, n - 1));
            let g = seg_of(s, n - 1);
            assert(le64(s, phdr_base(s, n - 1) + 16) + le64(s, phdr_base(s, n - 1) + 40)
                <= usize::MAX);
            assert(forall|j: int|
                0 <= j < load_segments_upto(s, n - 1).len()
                    ==> #[trigger] load_segments_upto(s, n)[j] == load_segments_upto(s, n - 1)[j]);
        }
    }
}



} // verus!
