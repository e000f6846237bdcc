//! ELF files: the headers, and the segments to load.
use crate::easy_fs::bytes;
use crate::easy_fs::bytes::{read_u32, read_u64};
use vstd::prelude::*;
use xmas_elf::program::Type;
use xmas_elf::ElfFile;

verus! {

/// What the file header says of loading.
#[derive(Clone, Copy, PartialEq, Eq, Structural, Debug)]
pub struct ElfHeader {
    /// Where execution starts.
    pub entry_point: u64,
    /// The number of program headers.
    pub ph_count: u16,
}

/// The kinds of segments that are told apart.
#[derive(Clone, Copy, PartialEq, Eq, Structural, Debug)]
pub enum SegmentKind {
    /// To be loaded.
    Load,
    /// Of another known type.
    Other,
    /// Of no known type.
    Invalid,
}

/// A program header.
#[derive(Clone, Copy, PartialEq, Eq, Structural, Debug)]
pub struct ProgramHeader {
    pub kind: SegmentKind,
    pub readable: bool,
    pub writable: bool,
    pub executable: bool,
    pub offset: u64,
    pub virtual_addr: u64,
    pub file_size: u64,
    pub mem_size: u64,
}

/// The little-endian `u16` that starts at `off`.
pub open spec fn u16_at(d: Seq<u8>, off: int) -> u16 {
    (d[off] + 0x100 * d[off + 1]) as u16
}

/// The file is one with 64-bit fields.
pub open spec fn wide(d: Seq<u8>) -> bool {
    d[4] == 2
}

/// The field that starts at `narrow_off` in files with 32-bit fields, and at
/// `wide_off` in those with 64-bit fields.
pub open spec fn field_at(d: Seq<u8>, narrow_off: int, wide_off: int) -> u64 {
    if wide(d) {
        bytes::u64_at(d, wide_off)
    } else {
        bytes::u32_at(d, narrow_off) as u64
    }
}

/// The first bytes are those of an ELF file of a known class.
pub open spec fn elf_valid(d: Seq<u8>) -> bool {
    &&& d.len() >= 16
    &&& d[0] == 0x7f && d[1] == 0x45 && d[2] == 0x4c && d[3] == 0x46
    &&& d[4] == 1 || d[4] == 2
}

/// The size of the file header.
pub open spec fn header_size(d: Seq<u8>) -> int {
    if wide(d) {
        64
    } else {
        52
    }
}

/// The file header.
pub open spec fn header_of(d: Seq<u8>) -> ElfHeader {
    ElfHeader {
        entry_point: field_at(d, 24, 24),
        ph_count: u16_at(
            d,
            if wide(d) {
                56
            } else {
                44
            },
        ),
    }
}

/// Where the program headers start.
pub open spec fn ph_offset(d: Seq<u8>) -> u64 {
    field_at(d, 28, 32)
}

/// The size of each entry of the program header table.
pub open spec fn ph_entry_size(d: Seq<u8>) -> u16 {
    u16_at(
        d,
        if wide(d) {
            54
        } else {
            42
        },
    )
}

/// Where program header `i` starts.
pub open spec fn ph_start(d: Seq<u8>, i: int) -> int {
    ph_offset(d) + i * ph_entry_size(d)
}

/// The kind of a segment by its type number.
pub open spec fn segment_kind(t: u32) -> SegmentKind {
    if t == 1 {
        SegmentKind::Load
    } else if t <= 7 || 0x6000_0000 <= t <= 0x7fff_ffff {
        SegmentKind::Other
    } else {
        SegmentKind::Invalid
    }
}

/// Program header `i`.
pub open spec fn program_header_of(d: Seq<u8>, i: int) -> ProgramHeader {
    let p = ph_start(d, i);
    let flags = bytes::u32_at(
        d,
        p + if wide(d) {
            4int
        } else {
            24
        },
    );
    ProgramHeader {
        kind: segment_kind(bytes::u32_at(d, p)),
        readable: flags & 4 == 4,
        writable: flags & 2 == 2,
        executable: flags & 1 == 1,
        offset: field_at(d, p + 4, p + 8),
        virtual_addr: field_at(d, p + 8, p + 16),
        file_size: field_at(d, p + 16, p + 32),
        mem_size: field_at(d, p + 20, p + 40),
    }
}

/// The table of program headers exists.
pub open spec fn has_ph_table(d: Seq<u8>) -> bool {
    ph_offset(d) > 0 && ph_entry_size(d) > 0
}

/// Program header `i` is aligned and lies in the file, in an entry that is large
/// enough.
pub open spec fn ph_readable(d: Seq<u8>, i: int) -> bool {
    let size: int = if wide(d) {
        56
    } else {
        32
    };
    &&& size <= ph_entry_size(d)
    &&& ph_start(d, i) + ph_entry_size(d) <= d.len()
    &&& ph_start(d, i) % (if wide(d) {
        8int
    } else {
        4
    }) == 0
}

/// The file header, read by `xmas_elf::ElfFile::new` with the getters
/// `entry_point` and `ph_count` of its second part.
///
/// What is claimed: the crate accepts exactly the files that start with the magic
/// number and a known class, and reads both fields in place, in the byte order of
/// the machine, which is taken to be little-endian. It panics on a file that ends
/// within its header, and on one that does not start at a multiple of eight; the
/// bytes are copied to such an address first.
#[verifier::external_body]
pub(crate) fn elf_header(data: &[u8]) -> (r: Result<ElfHeader, &'static str>)
    requires
        data@.len() + 8 <= isize::MAX,
        elf_valid(data@) ==> header_size(data@) <= data@.len(),
    ensures
        match r {
            Ok(h) => elf_valid(data@) && h == header_of(data@),
            Err(_) => !elf_valid(data@),
        },
{
    let mut buf: Vec<u8> = Vec::with_capacity(data.len() + 8);
    let k: usize = (buf.as_ptr() as usize).wrapping_neg() % 8;
    buf.resize(k, 0);
    buf.extend_from_slice(data);
    let elf = ElfFile::new(&buf[k..])?;
    Ok(ElfHeader { entry_point: elf.header.pt2.entry_point(), ph_count: elf.header.pt2.ph_count() })
}

/// A program header, read by `xmas_elf::ElfFile::program_header` with the getters
/// of `xmas_elf::program::ProgramHeader`.
///
/// What is claimed: there is a header for each index below the count, if the
/// table exists at all, and its fields are read in place, as those of the file
/// header are. The crate panics on a header that is not aligned, or that ends
/// outside the file or its entry.
#[verifier::external_body]
pub(crate) fn elf_program_header(data: &[u8], index: u16) -> (r: Result<
    ProgramHeader,
    &'static str,
>)
    requires
        data@.len() + 8 <= isize::MAX,
        elf_valid(data@),
        header_size(data@) <= data@.len(),
        index < header_of(data@).ph_count && has_ph_table(data@) ==> ph_readable(
            data@,
            index as int,
        ),
    ensures
        match r {
            Ok(p) => {
                &&& index < header_of(data@).ph_count && has_ph_table(data@)
                &&& p == program_header_of(data@, index as int)
            },
            Err(_) => !(index < header_of(data@).ph_count && has_ph_table(data@)),
        },
{
    let mut buf: Vec<u8> = Vec::with_capacity(data.len() + 8);
    let k: usize = (buf.as_ptr() as usize).wrapping_neg() % 8;
    buf.resize(k, 0);
    buf.extend_from_slice(data);
    let ph = ElfFile::new(&buf[k..])?.program_header(index)?;
    let kind = match ph.get_type() {
        Ok(Type::Load) => SegmentKind::Load,
        Ok(_) => SegmentKind::Other,
        Err(_) => SegmentKind::Invalid,
    };
    let flags = ph.flags();
    Ok(ProgramHeader {
        kind, readable: flags.is_read(), writable: flags.is_write(), executable: flags.is_execute(),
        offset: ph.offset(), virtual_addr: ph.virtual_addr(),
        file_size: ph.file_size(), mem_size: ph.mem_size() })
}

/// What of an ELF file is loaded: its segments, and where execution starts.
pub struct ElfImage {
    pub entry_point: u64,
    pub segments: Vec<ProgramHeader>,
}

/// The segments to load among the first `n` program headers.
pub open spec fn segments_upto(d: Seq<u8>, n: int) -> Seq<ProgramHeader>
    decreases n,
{
    if n <= 0 {
        Seq::empty()
    } else {
        let p = program_header_of(d, n - 1);
        if p.kind == SegmentKind::Load {
            segments_upto(d, n - 1).push(p)
        } else {
            segments_upto(d, n - 1)
        }
    }
}

/// The segments to load.
pub open spec fn segments_of(d: Seq<u8>) -> Seq<ProgramHeader> {
    segments_upto(d, header_of(d).ph_count as int)
}

proof fn lemma_segments_upto(d: Seq<u8>, n: int, i: int)
    requires
        0 <= i < n,
        program_header_of(d, i).kind == SegmentKind::Load,
    ensures
        segments_upto(d, i).len() < segments_upto(d, n).len(),
        segments_upto(d, n)[segments_upto(d, i).len() as int] == program_header_of(d, i),
    decreases n,
{
    if i < n - 1 {
        lemma_segments_upto(d, n - 1, i);
    }
}

/// Every program header of a segment to load is among the segments.
pub proof fn law_all_segments(d: Seq<u8>, i: int)
    requires
        0 <= i < header_of(d).ph_count,
        bytes::u32_at(d, ph_start(d, i)) == 1,
    ensures
        segments_of(d).contains(program_header_of(d, i)),
{
    lemma_segments_upto(d, header_of(d).ph_count as int, i);
    let k = segments_upto(d, i).len() as int;
    assert(segments_of(d)[k] == program_header_of(d, i));
}

/// The segments stand in the order of their program headers.
pub proof fn law_segments_in_order(d: Seq<u8>, i: int, j: int)
    requires
        0 <= i < j < header_of(d).ph_count,
        bytes::u32_at(d, ph_start(d, i)) == 1,
        bytes::u32_at(d, ph_start(d, j)) == 1,
    ensures
        exists|k: int, l: int|
            0 <= k < l < segments_of(d).len() && #[trigger] segments_of(d)[k] == program_header_of(
                d,
                i,
            ) && #[trigger] segments_of(d)[l] == program_header_of(d, j),
{
    let n = header_of(d).ph_count as int;
    lemma_segments_upto(d, n, i);
    lemma_segments_upto(d, n, j);
    lemma_segments_upto(d, j, i);
    let k = segments_upto(d, i).len() as int;
    let l = segments_upto(d, j).len() as int;
    assert(segments_of(d)[k] == program_header_of(d, i));
    assert(segments_of(d)[l] == program_header_of(d, j));
}

proof fn lemma_only_segments(d: Seq<u8>, n: int, k: int)
    requires
        0 <= k < segments_upto(d, n).len(),
    ensures
        exists|i: int|
            0 <= i < n && bytes::u32_at(d, ph_start(d, i)) == 1 && segments_upto(d, n)[k]
                == #[trigger] program_header_of(d, i),
        segments_upto(d, n).len() <= n,
    decreases n,
{
    if n > 0 {
        if segments_upto(d, n - 1).len() > 0 {
            lemma_only_segments(d, n - 1, 0);
        }
        if k < segments_upto(d, n - 1).len() {
            lemma_only_segments(d, n - 1, k);
            let i = choose|i: int|
                0 <= i < n - 1 && bytes::u32_at(d, ph_start(d, i)) == 1 && segments_upto(
                    d,
                    n - 1,
                )[k] == #[trigger] program_header_of(d, i);
            assert(segments_upto(d, n)[k] == program_header_of(d, i));
        } else {
            assert(segments_upto(d, n)[k] == program_header_of(d, n - 1));
        }
    }
}

/// Every segment is that of a program header to load, and there are no more of them.
pub proof fn law_only_segments(d: Seq<u8>, k: int)
    requires
        0 <= k < segments_of(d).len(),
    ensures
        exists|i: int|
            0 <= i < header_of(d).ph_count && bytes::u32_at(d, ph_start(d, i)) == 1
                && segments_of(d)[k] == #[trigger] program_header_of(d, i),
        segments_of(d).len() <= header_of(d).ph_count,
{
    lemma_only_segments(d, header_of(d).ph_count as int, k);
}

/// The headers of the file can be read, and its segments are of known types.
pub open spec fn loadable(d: Seq<u8>) -> bool {
    &&& d.len() + 8 <= isize::MAX
    &&& elf_valid(d)
    &&& header_size(d) <= d.len()
    &&& header_of(d).ph_count > 0 ==> has_ph_table(d)
    &&& headers_readable(d, header_of(d).ph_count as int)
}

/// The first `n` program headers can be read, and are of known types.
pub open spec fn headers_readable(d: Seq<u8>, n: int) -> bool {
    forall|i: int|
        0 <= i < n ==> #[trigger] ph_readable(d, i) && program_header_of(d, i).kind
            != SegmentKind::Invalid
}

/// Reads the headers of an ELF file.
pub fn parse_elf(elf_data: &[u8]) -> (r: ElfImage)
    requires
        loadable(elf_data@),
    ensures
        r.entry_point == header_of(elf_data@).entry_point,
        r.segments@ == segments_of(elf_data@),
{
    let header: ElfHeader = elf_header(elf_data).unwrap();
    let mut segments: Vec<ProgramHeader> = Vec::new();
    let mut i: u16 = 0;
    while i < header.ph_count
        invariant
            header == header_of(elf_data@),
            i <= header.ph_count,
            loadable(elf_data@),
            segments@ == segments_upto(elf_data@, i as int),
        decreases header.ph_count - i,
    {
        assert(ph_readable(elf_data@, i as int));
        let ph: ProgramHeader = elf_program_header(elf_data, i).unwrap();
        if ph.kind == SegmentKind::Load {
            segments.push(ph);
        }
        i += 1;
    }
    ElfImage { entry_point: header.entry_point, segments }
}

/// The `u16` that starts at `off`.
fn read_u16(d: &[u8], off: usize) -> (r: u16)
    requires
        off + 2 <= d@.len(),
    ensures
        r == u16_at(d@, off as int),
{
    d[off] as u16 + 0x100 * (d[off + 1] as u16)
}

/// Whether the program headers can be read, and are of known types.
fn headers_ok(d: &[u8], ph_count: u16) -> (r: bool)
    requires
        d@.len() + 8 <= isize::MAX,
        elf_valid(d@),
        header_size(d@) <= d@.len(),
        ph_count == header_of(d@).ph_count,
        has_ph_table(d@),
    ensures
        r == headers_readable(d@, ph_count as int),
{
    let is_wide: bool = d[4] == 2;
    let offset: u64 = if is_wide {
        read_u64(d, 32)
    } else {
        read_u32(d, 28) as u64
    };
    let entry: u16 = read_u16(
        d,
        if is_wide {
            54
        } else {
            42
        },
    );
    let size: u16 = if is_wide {
        56
    } else {
        32
    };
    let align: u128 = if is_wide {
        8
    } else {
        4
    };
    let mut i: u16 = 0;
    while i < ph_count
        invariant
            i <= ph_count,
            d@.len() + 8 <= isize::MAX,
            elf_valid(d@),
            header_size(d@) <= d@.len(),
            ph_count == header_of(d@).ph_count,
            has_ph_table(d@),
            is_wide == wide(d@),
            offset == ph_offset(d@),
            entry == ph_entry_size(d@),
            size == if wide(d@) {
                56int
            } else {
                32
            },
            align == if wide(d@) {
                8int
            } else {
                4
            },
            headers_readable(d@, i as int),
        decreases ph_count - i,
    {
        assert(0 <= i * entry <= 0xffff * 0xffff) by (nonlinear_arith)
            requires
                0 <= i <= 0xffff,
                0 <= entry <= 0xffff,
        ;
        let start: u128 = offset as u128 + i as u128 * entry as u128;
        if size > entry || start + entry as u128 > d.len() as u128 || start % align != 0 {
            assert(!ph_readable(d@, i as int));
            return false;
        }
        assert(ph_readable(d@, i as int));
        let ph: ProgramHeader = elf_program_header(d, i).unwrap();
        assert(ph == program_header_of(d@, i as int));
        if ph.kind == SegmentKind::Invalid {
            return false;
        }
        assert forall|k: int| 0 <= k < i + 1 implies #[trigger] ph_readable(d@, k)
            && program_header_of(d@, k).kind != SegmentKind::Invalid by {
            if k < i {
                assert(ph_readable(d@, k));
            } else {
                assert(ph_readable(d@, i as int));
            }
        }
        i += 1;
    }
    true
}

/// Whether the headers of the file can be read, and its segments are of known
/// types.
pub fn is_loadable(elf_data: &[u8]) -> (r: bool)
    ensures
        r == loadable(elf_data@),
{
    let d: &[u8] = elf_data;
    let n: usize = d.len();
    if n < 16 || n > isize::MAX as usize - 8 {
        return false;
    }
    if d[0] != 0x7f || d[1] != 0x45 || d[2] != 0x4c || d[3] != 0x46 || (d[4] != 1 && d[4] != 2) {
        return false;
    }
    let is_wide: bool = d[4] == 2;
    if n < 52 || (is_wide && n < 64) {
        return false;
    }
    let header: ElfHeader = elf_header(d).unwrap();
    if header.ph_count == 0 {
        return true;
    }
    let offset: u64 = if is_wide {
        read_u64(d, 32)
    } else {
        read_u32(d, 28) as u64
    };
    let entry: u16 = read_u16(
        d,
        if is_wide {
            54
        } else {
            42
        },
    );
    if offset == 0 || entry == 0 {
        return false;
    }
    headers_ok(d, header.ph_count)
}

} // verus!
