//! Where things lie in memory: addresses and pages, words and frames, the tables that
//! pages need, and the fields of an ELF file.
use super::address;
use super::address::{VirtAddr, VA_SPACE};
use super::elf;
use super::elf::{ProgramHeader, SegmentKind};
use super::frame_allocator::MemData;
use super::kernel_space;
use super::memory_set;
use super::memory_set::{AreaInfo, MapPermission, MemorySet};
use super::page_table;
use super::page_table::Tables;
use super::user_memory;
use super::user_space;
use crate::easy_fs::bytes;
use vstd::prelude::*;

verus! {

/// A page is 4096 bytes: an address lies in the page below it, and the page above it
/// starts there or at the next multiple.
pub proof fn law_pages(a: int)
    ensures
        4096 * address::floor_of(a) <= a < 4096 * address::floor_of(a) + 4096,
        a <= 4096 * address::ceil_of(a) < a + 4096,
{
}

/// The highest of the 39 bits of a virtual address is extended.
pub proof fn law_extended(a: u64)
    requires
        a < 0x80_0000_0000,
    ensures
        address::extended(a) & 0x7f_ffff_ffff == a,
        address::extended(a) >> 38 == if a >> 38 == 0 {
            0
        } else {
            0x3ff_ffffu64
        },
{
    assert((a | 0xffff_ff80_0000_0000u64) & 0x7f_ffff_ffff == a && a & 0x7f_ffff_ffff == a && (a
        >= 0x40_0000_0000 ==> (a | 0xffff_ff80_0000_0000u64) >> 38 == 0x3ff_ffffu64 && a >> 38 != 0)
        && (a < 0x40_0000_0000 ==> a >> 38 == 0)) by (bit_vector)
        requires
            a < 0x80_0000_0000u64,
    ;
}

/// The pages of a framed area are those that hold a byte between its addresses.
pub proof fn law_framed_pages(start: VirtAddr, end: VirtAddr, perm: MapPermission, v: int)
    requires
        start.0 < end.0,
    ensures
        ({
            let info = memory_set::framed_info(start, end, perm);
            &&& info.framed
            &&& info.perm == perm.bits
            &&& (info.start <= v < info.end) == (start.0 < 4096 * v + 4096 && 4096 * v < end.0)
        }),
{
}

/// A word that was written is read back; all other words stay.
pub proof fn law_word_written(m: MemData, p: int, i: int, x: u64, q: int, j: int)
    requires
        m.pages[p].len() == 4096,
        0 <= i < 512,
        0 <= j < 512,
    ensures
        m.with_word(p, i, x).word(q, j) == if q == p && j == i {
            x
        } else {
            m.word(q, j)
        },
        m.with_word(p, i, x).used == m.used,
{
    if q == p {
        bytes::lemma_u64_read_back(m.pages[p], 8 * i, x);
        if j != i {
            bytes::lemma_u64_elsewhere(m.pages[p], 8 * i, bytes::u64_bytes(x), 8 * j);
        }
    }
}

/// A word is eight bytes of its frame.
pub proof fn law_word_bytes(m: MemData, p: int, i: int)
    ensures
        m.word(p, i) == bytes::u64_at(m.pages[p], 8 * i),
{
}

/// A frame that is taken is in use and all zero; the others stay as they are, and so do
/// the bytes of a frame that is given back.
pub proof fn law_frame_taken(m: MemData, p: int, q: int, i: int)
    requires
        0 <= i < 4096,
    ensures
        m.with_frame(p).used.contains(p),
        m.with_frame(p).pages[p][i] == 0,
        q != p ==> m.with_frame(p).used.contains(q) == m.used.contains(q)
            && m.with_frame(p).pages[q] == m.pages[q],
        !m.without_frame(p).used.contains(p),
        q != p ==> m.without_frame(p).used.contains(q) == m.used.contains(q),
        m.without_frame(p).pages[q] == m.pages[q],
{
}

/// Which tables there are after pages were mapped: those that were there, and those
/// that cover one of the pages.
pub proof fn law_tables(t: Tables, start: int, end: int, x: int)
    ensures
        memory_set::tables_upto(t, start, end).l1.contains(x) == (t.l1.contains(x) || exists|v: int|
            start <= v < end && #[trigger] (v / 0x4_0000) == x),
        memory_set::tables_upto(t, start, end).l2.contains(x) == (t.l2.contains(x) || exists|v: int|
            start <= v < end && #[trigger] (v / 512) == x),
    decreases end - start,
{
    if start < end {
        law_tables(t, start, end - 1, x);
        assert((end - 1) / 0x4_0000 == (end - 1) / 0x4_0000);
        assert((end - 1) / 512 == (end - 1) / 512);
    }
}

/// Mapping pages takes a frame for each table that is new, and one for each page if the
/// pages have frames of their own.
pub proof fn law_mapping_cost(t: Tables, start: int, end: int, framed: bool)
    requires
        t.l1.finite(),
        t.l2.finite(),
        start <= end,
    ensures
        memory_set::tables_upto(t, start, end).l1.finite(),
        memory_set::tables_upto(t, start, end).l2.finite(),
        memory_set::cost_upto(t, start, end, framed) == (if framed {
            end - start
        } else {
            0
        }) + (memory_set::tables_upto(t, start, end).l1.len() - t.l1.len()) + (
        memory_set::tables_upto(t, start, end).l2.len() - t.l2.len()),
    decreases end - start,
{
    if start < end {
        law_mapping_cost(t, start, end - 1, framed);
    }
}

/// The first area that starts at a page is found wherever it stands.
pub proof fn law_area_at(infos: Seq<AreaInfo>, v: int, i: int)
    requires
        0 <= i <= infos.len(),
    ensures
        match memory_set::area_at(infos, v, i) {
            Some(k) => {
                &&& i <= k < infos.len()
                &&& infos[k].start == v
                &&& forall|j: int| i <= j < k ==> (#[trigger] infos[j]).start != v
            },
            None => forall|j: int| i <= j < infos.len() ==> (#[trigger] infos[j]).start != v,
        },
    decreases infos.len() - i,
{
    if i < infos.len() && infos[i].start != v {
        law_area_at(infos, v, i + 1);
    }
}

/// An area that is shrunk loses the pages that hold none of its bytes any more, and
/// nothing else changes.
pub proof fn law_shrunk_pages(
    s0: MemorySet,
    m0: MemData,
    s1: MemorySet,
    m1: MemData,
    start: int,
    new_end: int,
    k: int,
    v: int,
)
    requires
        memory_set::shrunk_to(&s0, m0, &s1, m1, start, new_end),
        0 <= k < s0.infos().len(),
        s0.infos()[k].start == start / 4096,
        forall|j: int| 0 <= j < k ==> (#[trigger] s0.infos()[j]).start != start / 4096,
    ensures
        s1.pages(m1).contains_key(v) == (s0.pages(m0).contains_key(v) && !(new_end <= 4096 * v && v
            < s0.infos()[k].end)),
        s1.pages(m1).contains_key(v) ==> s1.pages(m1)[v] == s0.pages(m0)[v],
{
    law_area_at(s0.infos(), start / 4096, 0);
    law_pages(new_end);
}

/// An area that is extended gets the pages up to the one that holds its last byte, and
/// what was mapped stays. New pages with frames of their own are all zero.
pub proof fn law_appended_pages(
    s0: MemorySet,
    m0: MemData,
    s1: MemorySet,
    m1: MemData,
    start: int,
    new_end: int,
    k: int,
    v: int,
)
    requires
        memory_set::appended_to(&s0, m0, &s1, m1, start, new_end),
        0 <= k < s0.infos().len(),
        s0.infos()[k].start == start / 4096,
        forall|j: int| 0 <= j < k ==> (#[trigger] s0.infos()[j]).start != start / 4096,
    ensures
        s1.pages(m1).contains_key(v) == (s0.pages(m0).contains_key(v) || (s0.infos()[k].end <= v
            && 4096 * v < new_end)),
        s0.pages(m0).contains_key(v) ==> s1.pages(m1)[v] == s0.pages(m0)[v],
        s0.infos()[k].framed && s0.infos()[k].end <= v && 4096 * v < new_end ==> s1.page_bytes(m1, v)
            == Seq::new(4096, |i: int| 0u8),
        s1.infos()[k].perm == s0.infos()[k].perm,
        s1.infos()[k].start == s0.infos()[k].start,
{
    law_area_at(s0.infos(), start / 4096, 0);
    law_pages(new_end);
}

/// A string in user memory is what stands before its zero byte.
pub proof fn law_user_string(m: MemData, token: u64, ptr: u64, n: int, i: int)
    requires
        user_memory::user_str(m, token, ptr, n),
        0 <= i < n,
    ensures
        user_memory::user_string(m, token, ptr).len() == n,
        user_memory::user_string(m, token, ptr)[i] == page_table::virt_byte(
            m,
            user_memory::token_root(token),
            (ptr + i) % (VA_SPACE as int),
        ),
        user_memory::user_string(m, token, ptr)[i] != 0,
        page_table::virt_byte(
            m,
            user_memory::token_root(token),
            (ptr + n) % (VA_SPACE as int),
        ) == 0,
{
    user_memory::lemma_one_string(m, token, ptr, n);
    assert(user_memory::user_byte(m, token, ptr + i) != 0);
    assert(user_memory::user_byte(m, token, ptr + n) == 0);
}

/// Where the fields of an ELF file with 64-bit fields lie.
pub proof fn law_elf_fields(d: Seq<u8>, i: int)
    requires
        d[4] == 2,
    ensures
        elf::header_of(d).entry_point == bytes::u64_at(d, 24),
        elf::header_of(d).ph_count == d[56] + 256 * d[57],
        ({
            let p = bytes::u64_at(d, 32) + i * (d[54] + 256 * d[55]);
            let h = elf::program_header_of(d, i);
            &&& elf::ph_start(d, i) == p
            &&& (h.kind == SegmentKind::Load) == (bytes::u32_at(d, p) == 1)
            &&& h.executable == (bytes::u32_at(d, p + 4) & 1 != 0)
            &&& h.writable == (bytes::u32_at(d, p + 4) & 2 != 0)
            &&& h.readable == (bytes::u32_at(d, p + 4) & 4 != 0)
            &&& h.offset == bytes::u64_at(d, p + 8)
            &&& h.virtual_addr == bytes::u64_at(d, p + 16)
            &&& h.file_size == bytes::u64_at(d, p + 32)
            &&& h.mem_size == bytes::u64_at(d, p + 40)
        }),
{
    let f = bytes::u32_at(d, elf::ph_start(d, i) + 4);
    assert((f & 1 == 1) == (f & 1 != 0) && (f & 2 == 2) == (f & 2 != 0) && (f & 4 == 4) == (f & 4
        != 0)) by (bit_vector);
}

/// A file with 64-bit fields can be loaded where its header and all program headers lie
/// in it, at multiples of eight, and are of known types.
pub proof fn law_loadable(d: Seq<u8>)
    requires
        64 <= d.len(),
        d.len() + 8 <= isize::MAX,
        d[0] == 0x7f,
        d[1] == 0x45,
        d[2] == 0x4c,
        d[3] == 0x46,
        d[4] == 2,
        bytes::u64_at(d, 32) > 0,
        elf::ph_entry_size(d) == d[54] + 256 * d[55],
        elf::ph_entry_size(d) >= 56,
        forall|i: int|
            0 <= i < elf::header_of(d).ph_count ==> {
                let p = #[trigger] elf::ph_start(d, i);
                let t = bytes::u32_at(d, p);
                &&& p % 8 == 0
                &&& p + elf::ph_entry_size(d) <= d.len()
                &&& t <= 7 || 0x6000_0000 <= t <= 0x7fff_ffff
            },
    ensures
        elf::loadable(d),
{
    assert forall|i: int| 0 <= i < elf::header_of(d).ph_count implies #[trigger] elf::ph_readable(
        d,
        i,
    ) && elf::program_header_of(d, i).kind != SegmentKind::Invalid by {
        let p = elf::ph_start(d, i);
    }
}

/// What is not an ELF file, or ends within its headers, or has a segment of no known
/// type, is not loaded.
pub proof fn law_not_loadable(d: Seq<u8>, i: int)
    requires
        d.len() < 52 || d[0] != 0x7f || d[1] != 0x45 || d[2] != 0x4c || d[3] != 0x46 || (0 <= i
            < elf::header_of(d).ph_count && (elf::ph_start(d, i) + elf::ph_entry_size(d) > d.len()
            || 8 <= bytes::u32_at(d, elf::ph_start(d, i)) < 0x6000_0000 || bytes::u32_at(
            d,
            elf::ph_start(d, i),
        ) >= 0x8000_0000)),
    ensures
        !elf::loadable(d),
{
    if elf::loadable(d) {
        if 0 <= i < elf::header_of(d).ph_count {
            assert(elf::ph_readable(d, i));
        }
    }
}

/// When a program can be loaded: its segments have places and their bytes lie in the
/// file, the areas are apart from each other, and there are frames enough.
pub proof fn law_image_fits(segments: Seq<ProgramHeader>, d: Seq<u8>, m: MemData)
    ensures
        user_space::image_fits(segments, d, m) == ((forall|k: int|
            0 <= k < segments.len() ==> {
                let p = #[trigger] segments[k];
                let first = p.virtual_addr as int % 0x80_0000_0000 / 4096;
                let end = ((p.virtual_addr + p.mem_size) % 0x80_0000_0000 + 4095) / 4096;
                &&& p.virtual_addr + p.mem_size <= u64::MAX
                &&& p.offset + p.file_size <= d.len()
                &&& p.file_size <= 4096 * (end - first)
            }) && user_space::stack_top(segments) <= u64::MAX && kernel_space::layout_ok(
            user_space::image_infos(segments),
        ) && kernel_space::space_cost(user_space::image_infos(segments)) <= m.free().len()),
{
    if user_space::image_fits(segments, d, m) {
        assert forall|k: int| 0 <= k < segments.len() implies {
            let p = #[trigger] segments[k];
            let first = p.virtual_addr as int % 0x80_0000_0000 / 4096;
            let end = ((p.virtual_addr + p.mem_size) % 0x80_0000_0000 + 4095) / 4096;
            &&& p.virtual_addr + p.mem_size <= u64::MAX
            &&& p.offset + p.file_size <= d.len()
            &&& p.file_size <= 4096 * (end - first)
        } by {
            assert(user_space::segment_ok(segments[k], d));
        }
    }
}

/// Areas that lie one behind the other below the trampoline are in order.
pub proof fn law_layout_in_order(infos: Seq<AreaInfo>)
    requires
        forall|k: int|
            0 <= k < infos.len() ==> 0 <= (#[trigger] infos[k]).start <= infos[k].end
                <= 0x7ff_ffff,
        forall|k: int, l: int|
            0 <= k < l < infos.len() ==> (#[trigger] infos[k]).end <= (#[trigger] infos[l]).start,
    ensures
        kernel_space::layout_ok(infos),
{
}

/// Areas that have a page in common, or one with the trampoline, are not in order.
pub proof fn law_layout_refused(infos: Seq<AreaInfo>, k: int, l: int, v: int)
    requires
        0 <= k < infos.len(),
        0 <= l < infos.len(),
        infos[k].start <= v < infos[k].end,
        (k < l && infos[l].start <= v < infos[l].end) || v == 0x7ff_ffff || v < 0 || v
            >= 0x800_0000,
    ensures
        !kernel_space::layout_ok(infos),
{
    assert(kernel_space::in_areas(infos, v));
}

/// An address space takes the root and the two tables of the trampoline, and for each
/// area what mapping its pages takes.
pub proof fn law_space_cost(infos: Seq<AreaInfo>, info: AreaInfo)
    ensures
        kernel_space::space_cost(Seq::<AreaInfo>::empty()) == 3,
        kernel_space::space_cost(infos.push(info)) == kernel_space::space_cost(infos)
            + memory_set::cost_upto(
            kernel_space::tables_all(kernel_space::first_tables(), infos),
            info.start,
            info.end,
            info.framed,
        ),
        kernel_space::tables_all(kernel_space::first_tables(), infos.push(info))
            == memory_set::tables_upto(
            kernel_space::tables_all(kernel_space::first_tables(), infos),
            info.start,
            info.end,
        ),
        kernel_space::first_tables().l1 == set![511int],
        kernel_space::first_tables().l2 == set![0x3_ffffint],
{
    assert(infos.push(info).drop_last() =~= infos);
    assert(0x7ff_ffffint / 0x4_0000 == 511 && 0x7ff_ffffint / 512 == 0x3_ffff);
    assert(kernel_space::first_tables().l1 =~= set![511int]);
    assert(kernel_space::first_tables().l2 =~= set![0x3_ffffint]);
}

} // verus!
