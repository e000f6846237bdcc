//! What programs and the kernel may do with their memory, as the bits of the page
//! table entries say, and which bytes a program finds there.
use super::address::{PPN_SPACE, VA_SPACE};
use super::elf::ProgramHeader;
use super::frame_allocator::MemData;
use super::kernel_space;
use super::kernel_space::{KernelLayout, TRAMPOLINE_VPN};
use super::laws;
use super::memory_set;
use super::memory_set::{AreaInfo, MemorySet};
use super::page_table;
use super::user_memory;
use super::user_space;
use crate::config::MEMORY_END;
use crate::easy_fs::bytes;
use vstd::prelude::*;

verus! {

/// The flags of an entry stand in its lowest bits.
pub proof fn law_entry_bits(ppn: int, flags: u8, bit: u8)
    requires
        0 <= ppn < PPN_SPACE,
    ensures
        (page_table::pte(ppn, flags) & (bit as u64) != 0) == (flags & bit != 0),
        page_table::pte(ppn, flags) >> 10 == ppn,
{
    let p = ppn as u64;
    let f = flags as u64;
    let b = bit as u64;
    let e = page_table::pte(ppn, flags);
    assert(e == p * 1024 + f);
    assert((e & b != 0) == (f & b != 0) && e >> 10 == p) by (bit_vector)
        requires
            e == p * 1024 + f,
            p < 0x1000_0000_0000u64,
            f < 256,
            b < 256,
    ;
    assert((f & b != 0) == (flags & bit != 0)) by (bit_vector)
        requires
            f == flags as u64,
            b == bit as u64,
    ;
}

/// The flags of which these rights are made up.
proof fn lemma_rights(f: u8, r: bool, w: bool, x: bool, u: bool)
    requires
        f == 1 + (if r {
            2int
        } else {
            0
        }) + (if w {
            4int
        } else {
            0
        }) + (if x {
            8int
        } else {
            0
        }) + (if u {
            16int
        } else {
            0
        }),
    ensures
        f & 1 != 0,
        (f & 2 != 0) == r,
        (f & 4 != 0) == w,
        (f & 8 != 0) == x,
        (f & 16 != 0) == u,
        f & 0xe0 == 0,
{
    let r8: u8 = if r {
        2
    } else {
        0
    };
    let w8: u8 = if w {
        4
    } else {
        0
    };
    let x8: u8 = if x {
        8
    } else {
        0
    };
    let u8_: u8 = if u {
        16
    } else {
        0
    };
    assert(f & 1 != 0 && f & 2 == r8 && f & 4 == w8 && f & 8 == x8 && f & 16 == u8_ && f & 0xe0
        == 0) by (bit_vector)
        requires
            f == 1u8 + r8 + w8 + x8 + u8_,
            r8 == 0u8 || r8 == 2u8,
            w8 == 0u8 || w8 == 4u8,
            x8 == 0u8 || x8 == 8u8,
            u8_ == 0u8 || u8_ == 16u8,
    ;
}

/// An entry with these flags grants these rights.
proof fn lemma_entry_rights(ppn: int, f: u8, r: bool, w: bool, x: bool, u: bool)
    requires
        0 <= ppn < PPN_SPACE,
        f == 1 + (if r {
            2int
        } else {
            0
        }) + (if w {
            4int
        } else {
            0
        }) + (if x {
            8int
        } else {
            0
        }) + (if u {
            16int
        } else {
            0
        }),
    ensures
        ({
            let e = page_table::pte(ppn, f);
            &&& e & 1 != 0
            &&& (e & 2 != 0) == r
            &&& (e & 4 != 0) == w
            &&& (e & 8 != 0) == x
            &&& (e & 16 != 0) == u
            &&& e & 0xe0 == 0
            &&& e >> 10 == ppn
        }),
{
    lemma_rights(f, r, w, x, u);
    law_entry_bits(ppn, f, 1);
    law_entry_bits(ppn, f, 2);
    law_entry_bits(ppn, f, 4);
    law_entry_bits(ppn, f, 8);
    law_entry_bits(ppn, f, 16);
    law_entry_bits(ppn, f, 0xe0);
}

/// A page of an area of an address space that was built.
proof fn lemma_built_entry(
    s: MemorySet,
    m: MemData,
    trampoline: int,
    infos: Seq<AreaInfo>,
    data: Seq<Seq<u8>>,
    k: int,
    v: int,
)
    requires
        kernel_space::built(&s, m, trampoline, infos, data),
        0 <= k < infos.len(),
        infos[k].start <= v < infos[k].end,
    ensures
        ({
            let e = s.pages(m)[v];
            &&& s.pages(m).contains_key(v)
            &&& page_table::lookup(m, s.page_table.root(), v) == Some(e)
            &&& e == page_table::pte(
                if infos[k].framed {
                    page_table::pte_ppn(e)
                } else {
                    v
                },
                page_table::with_valid(infos[k].perm),
            )
            &&& 0 <= page_table::pte_ppn(e) < PPN_SPACE
            &&& 0 <= v < super::address::VPN_SPACE
        }),
{
    assert(kernel_space::in_areas(infos, v));
    assert(s.pages(m).contains_key(v));
    assert(s.page_table.pages(m).contains_key(v));
    assert(kernel_space::area_in(&s, m, infos[k], data[k]));
    s.page_table.lemma_wf(m);
    assert(page_table::lookup(m, s.page_table.root(), v) == Some(s.page_table.pages(m)[v]));
    assert(s.pages(m)[v] == s.page_table.pages(m)[v]);
}

/// A program may read, write and execute the bytes of a segment as the flags of the
/// segment say, and not otherwise.
pub proof fn law_segment_access(
    s: MemorySet,
    m: MemData,
    trampoline: int,
    segments: Seq<ProgramHeader>,
    data: Seq<Seq<u8>>,
    k: int,
    a: int,
)
    requires
        kernel_space::built(&s, m, trampoline, user_space::image_infos(segments), data),
        0 <= k < segments.len(),
        segments[k].virtual_addr <= a < segments[k].virtual_addr + segments[k].mem_size,
        segments[k].virtual_addr as int / (VA_SPACE as int) == (segments[k].virtual_addr
            + segments[k].mem_size) / (VA_SPACE as int),
    ensures
        page_table::lookup(m, s.page_table.root(), a % (VA_SPACE as int) / 4096) matches Some(e) && {
            &&& e & 1 != 0
            &&& (e & 2 != 0) == segments[k].readable
            &&& (e & 4 != 0) == segments[k].writable
            &&& (e & 8 != 0) == segments[k].executable
            &&& e & 16 != 0
            &&& e & 0xe0 == 0
        },
{
    let infos = user_space::image_infos(segments);
    let p = segments[k];
    assert(infos[k] == user_space::segment_info(p));
    let v = a % (VA_SPACE as int) / 4096;
    assert(infos[k].start <= v < infos[k].end);
    lemma_built_entry(s, m, trampoline, infos, data, k, v);
    let e = s.pages(m)[v];
    lemma_entry_rights(
        page_table::pte_ppn(e),
        page_table::with_valid(infos[k].perm),
        p.readable,
        p.writable,
        p.executable,
        true,
    );
}

/// Byte `i` of a segment, from the start of its first page on, lies in one of its
/// pages.
proof fn lemma_segment_page(va: int, size: int, i: int)
    requires
        0 <= va,
        0 <= i,
        va / 4096 * 4096 + i < va + size,
        va / 0x80_0000_0000 == (va + size) / 0x80_0000_0000,
    ensures
        ({
            let v = va % 0x80_0000_0000 / 4096 + i / 4096;
            va % 0x80_0000_0000 / 4096 <= v < ((va + size) % 0x80_0000_0000 + 4095) / 4096
        }),
{
    let c = va / 0x80_0000_0000;
    let x = va - c * 0x80_0000_0000;
    let y = va + size - c * 0x80_0000_0000;
    assert(va % 0x80_0000_0000 == x);
    assert((va + size) % 0x80_0000_0000 == y);
    assert(va / 4096 == c * 0x800_0000 + x / 4096);
    assert(x / 4096 * 4096 + i < y);
}

/// Byte `i` of bytes that lie in pages.
proof fn lemma_page_byte(b: Seq<u8>, i: int)
    requires
        0 <= i,
    ensures
        ({
            let page = bytes::splice(bytes::zeros(4096), 0, memory_set::chunk(b, i / 4096));
            &&& page.len() == 4096
            &&& page[i % 4096] == if i < b.len() {
                b[i]
            } else {
                0
            }
        }),
{
    let x = i / 4096;
    let c = memory_set::chunk(b, x);
    assert(i == 4096 * x + i % 4096);
    assert(c.len() <= 4096);
    if i < b.len() {
        assert(c[i % 4096] == b[i]);
    }
}

/// From the start of its first page on, a segment holds its bytes of the file, and
/// zeros behind them.
pub proof fn law_segment_bytes(
    s: MemorySet,
    m: MemData,
    trampoline: int,
    segments: Seq<ProgramHeader>,
    d: Seq<u8>,
    data: Seq<Seq<u8>>,
    k: int,
    i: int,
)
    requires
        kernel_space::built(&s, m, trampoline, user_space::image_infos(segments), data),
        0 <= k < segments.len(),
        data[k] == user_space::image_data(segments, d)[k],
        segments[k].offset + segments[k].file_size <= d.len(),
        0 <= i,
        segments[k].virtual_addr as int / 4096 * 4096 + i < segments[k].virtual_addr
            + segments[k].mem_size,
        segments[k].virtual_addr as int / (VA_SPACE as int) == (segments[k].virtual_addr
            + segments[k].mem_size) / (VA_SPACE as int),
    ensures
        ({
            let v = segments[k].virtual_addr as int % (VA_SPACE as int) / 4096 + i / 4096;
            &&& s.page_bytes(m, v).len() == 4096
            &&& s.page_bytes(m, v)[i % 4096] == if i < segments[k].file_size {
                d[segments[k].offset + i]
            } else {
                0
            }
        }),
{
    let infos = user_space::image_infos(segments);
    let p = segments[k];
    let v = p.virtual_addr as int % (VA_SPACE as int) / 4096 + i / 4096;
    assert(infos[k] == user_space::segment_info(p));
    lemma_segment_page(p.virtual_addr as int, p.mem_size as int, i);
    assert(infos[k].start <= v < infos[k].end);
    assert(kernel_space::area_in(&s, m, infos[k], data[k]));
    assert(s.page_bytes(m, v) == bytes::splice(
        bytes::zeros(4096),
        0,
        memory_set::chunk(data[k], i / 4096),
    ));
    lemma_page_byte(data[k], i);
}

/// The page of an address in the 8 KiB below the stack pointer.
proof fn lemma_stack_page(g: int, sp: int, a: int)
    requires
        0 <= g,
        g == 0x800_0000 || g + 3 < 0x800_0000,
        sp == if g < 0x400_0000 {
            (g + 3) * 4096
        } else if g < 0x800_0000 {
            (g + 3) * 4096 + 0xffff_ff80_0000_0000
        } else {
            0xffff_ff80_0000_3000
        },
        sp - 8192 <= a < sp,
    ensures
        (g + 1) % 0x800_0000 <= a % 0x80_0000_0000 / 4096 < (g + 3) % 0x800_0000,
{
    let h = if g == 0x800_0000 {
        0
    } else {
        g
    };
    let c = if g < 0x400_0000 {
        0int
    } else {
        0x1ff_ffff
    };
    assert(sp == (h + 3) * 4096 + c * 0x80_0000_0000);
    assert(a % 0x80_0000_0000 == a - c * 0x80_0000_0000);
}

/// A program may read and write its stack, the 8 KiB below its stack pointer, and
/// not execute it.
pub proof fn law_stack_access(
    s: MemorySet,
    m: MemData,
    trampoline: int,
    segments: Seq<ProgramHeader>,
    data: Seq<Seq<u8>>,
    sp: int,
    a: int,
)
    requires
        kernel_space::built(&s, m, trampoline, user_space::image_infos(segments), data),
        sp == user_space::stack_top(segments),
        sp <= u64::MAX,
        sp - 8192 <= a < sp,
    ensures
        page_table::lookup(m, s.page_table.root(), a % (VA_SPACE as int) / 4096) matches Some(e) && {
            &&& e & 1 != 0
            &&& e & 2 != 0
            &&& e & 4 != 0
            &&& e & 8 == 0
            &&& e & 16 != 0
            &&& e & 0xe0 == 0
        },
{
    let infos = user_space::image_infos(segments);
    let n = segments.len() as int;
    let v = a % (VA_SPACE as int) / 4096;
    assert(infos[n].start <= v < infos[n].end && infos[n].perm == 0x16 && infos[n].framed) by {
        laws::lemma_stack_pages(segments);
        laws::lemma_stack_place(segments);
        lemma_stack_page(user_space::load_end(segments), sp, a);
    }
    lemma_built_entry(s, m, trampoline, infos, data, n, v);
    lemma_entry_rights(
        page_table::pte_ppn(s.pages(m)[v]),
        page_table::with_valid(infos[n].perm),
        true,
        true,
        false,
        true,
    );
}

/// The stack of a program lies above all its segments, with a page between them.
pub proof fn law_stack_above(segments: Seq<ProgramHeader>, k: int)
    requires
        user_space::stack_top(segments) < VA_SPACE / 2,
        0 <= k < segments.len(),
        segments[k].virtual_addr + segments[k].mem_size < VA_SPACE,
    ensures
        segments[k].virtual_addr + segments[k].mem_size + 4096 <= user_space::stack_top(segments)
            - 8192,
{
    laws::lemma_stack_place(segments);
    user_space::lemma_load_end(segments);
    let end = segments[k].virtual_addr + segments[k].mem_size;
    assert(user_space::segment_info(segments[k]).end <= user_space::load_end(segments));
    assert(end % (VA_SPACE as int) == end);
    assert(end <= user_space::load_end(segments) * 4096);
}

/// The end of the page that holds the last byte of a segment.
pub open spec fn segment_end(p: ProgramHeader) -> int {
    ((p.virtual_addr + p.mem_size) % (VA_SPACE as int) + 4095) / 4096 * 4096
}

/// The stack pointer of a program stands three pages above the last page of the segment
/// that ends last: a page that is not mapped, and the stack.
pub proof fn law_stack_place(segments: Seq<ProgramHeader>, k: int)
    requires
        user_space::stack_top(segments) < VA_SPACE / 2,
        0 <= k < segments.len(),
    ensures
        segment_end(segments[k]) + 0x3000 <= user_space::stack_top(segments),
        user_space::stack_top(segments) > 0x3000 ==> exists|l: int|
            0 <= l < segments.len() && segment_end(#[trigger] segments[l]) + 0x3000
                == user_space::stack_top(segments),
{
    laws::lemma_stack_place(segments);
    user_space::lemma_load_end(segments);
    let g = user_space::load_end(segments);
    assert(user_space::segment_info(segments[k]).end <= g);
    if user_space::stack_top(segments) > 0x3000 {
        let l = choose|l: int|
            0 <= l < segments.len() && user_space::segment_info(#[trigger] segments[l]).end == g;
        assert(segment_end(segments[l]) == g * 4096);
    }
}

/// The heap of a program starts at its stack pointer, with no page yet. Programs may
/// read and write it.
pub proof fn law_heap_place(segments: Seq<ProgramHeader>)
    requires
        user_space::stack_top(segments) < VA_SPACE / 2,
    ensures
        ({
            let heap = user_space::image_infos(segments)[segments.len() as int + 1];
            &&& heap.start == user_space::stack_top(segments) / 4096
            &&& heap.end == heap.start
            &&& heap.framed
            &&& heap.perm == 2 + 4 + 16
        }),
{
    laws::lemma_stack_place(segments);
    let t = user_space::stack_top(segments);
    assert(t % 4096 == 0);
    assert(t % (VA_SPACE as int) == t);
}

/// The kernel may read and write the trap context of a program, the page below the
/// trampoline; the program may not access it.
pub proof fn law_trap_access(
    s: MemorySet,
    m: MemData,
    trampoline: int,
    segments: Seq<ProgramHeader>,
    data: Seq<Seq<u8>>,
)
    requires
        kernel_space::built(&s, m, trampoline, user_space::image_infos(segments), data),
    ensures
        page_table::lookup(m, s.page_table.root(), 0x7ff_fffe) matches Some(e) && {
            &&& e & 1 != 0
            &&& e & 2 != 0
            &&& e & 4 != 0
            &&& e & 8 == 0
            &&& e & 16 == 0
            &&& e & 0xe0 == 0
        },
{
    let infos = user_space::image_infos(segments);
    let k = segments.len() as int + 2;
    assert(infos[k].start == 0x7ff_fffe && infos[k].end == 0x7ff_ffff);
    lemma_built_entry(s, m, trampoline, infos, data, k, 0x7ff_fffe);
    lemma_entry_rights(
        page_table::pte_ppn(s.pages(m)[0x7ff_fffe]),
        page_table::with_valid(infos[k].perm),
        true,
        true,
        false,
        false,
    );
}

/// The highest page of every address space leads to the frame of the trampoline.
/// The kernel may read and execute it; programs may not access it.
pub proof fn law_trampoline_access(
    s: MemorySet,
    m: MemData,
    trampoline: int,
    infos: Seq<AreaInfo>,
    data: Seq<Seq<u8>>,
)
    requires
        kernel_space::built(&s, m, trampoline, infos, data),
        0 <= trampoline < PPN_SPACE,
    ensures
        page_table::lookup(m, s.page_table.root(), 0x7ff_ffff) matches Some(e) && {
            &&& e >> 10 == trampoline
            &&& e & 1 != 0
            &&& e & 2 != 0
            &&& e & 4 == 0
            &&& e & 8 != 0
            &&& e & 16 == 0
            &&& e & 0xe0 == 0
        },
{
    let v = TRAMPOLINE_VPN as int;
    assert(s.pages(m).contains_key(v));
    laws::law_translate(s, m, v);
    lemma_entry_rights(trampoline, 0x0b, true, false, true, false);
}

/// The rights of the kernel on one of its areas, whose pages lead to the frames with
/// the same numbers.
proof fn lemma_kernel_access(
    s: MemorySet,
    m: MemData,
    trampoline: int,
    l: KernelLayout,
    data: Seq<Seq<u8>>,
    k: int,
    start: u64,
    end: u64,
    w: bool,
    x: bool,
    a: int,
)
    requires
        kernel_space::built(&s, m, trampoline, kernel_space::kernel_infos(l), data),
        0 <= k < 5,
        kernel_space::kernel_infos(l)[k] == kernel_space::kernel_info(
            start,
            end,
            (2 + (if w {
                4int
            } else {
                0
            }) + (if x {
                8int
            } else {
                0
            })) as u8,
        ),
        start <= a < end < VA_SPACE,
    ensures
        page_table::lookup(m, s.page_table.root(), a / 4096) matches Some(e) && {
            &&& e >> 10 == a / 4096
            &&& e & 1 != 0
            &&& e & 2 != 0
            &&& (e & 4 != 0) == w
            &&& (e & 8 != 0) == x
            &&& e & 16 == 0
            &&& e & 0xe0 == 0
        },
{
    let infos = kernel_space::kernel_infos(l);
    let v = a / 4096;
    assert(infos[k].start <= v < infos[k].end);
    lemma_built_entry(s, m, trampoline, infos, data, k, v);
    lemma_entry_rights(v, page_table::with_valid(infos[k].perm), true, w, x, false);
}

/// The kernel finds each byte of its code, constants, data and free memory where it
/// was before paging. It may execute its code alone, and write neither code nor
/// constants; programs may access nothing of it.
pub proof fn law_kernel_access(
    s: MemorySet,
    m: MemData,
    trampoline: int,
    l: KernelLayout,
    data: Seq<Seq<u8>>,
    a: int,
)
    requires
        kernel_space::built(&s, m, trampoline, kernel_space::kernel_infos(l), data),
        l.etext < VA_SPACE,
        l.erodata < VA_SPACE,
        l.edata < VA_SPACE,
        l.ebss < VA_SPACE,
        l.stext <= a < l.etext || l.srodata <= a < l.erodata || l.sdata <= a < l.edata
            || l.sbss_with_stack <= a < l.ebss || l.ekernel <= a < MEMORY_END,
    ensures
        page_table::lookup(m, s.page_table.root(), a / 4096) matches Some(e) && {
            &&& e >> 10 == a / 4096
            &&& e & 1 != 0
            &&& e & 2 != 0
            &&& e & 16 == 0
            &&& e & 0xe0 == 0
            &&& l.stext <= a < l.etext ==> e & 4 == 0 && e & 8 != 0
            &&& l.srodata <= a < l.erodata ==> e & 4 == 0 && e & 8 == 0
            &&& l.sdata <= a < l.edata ==> e & 4 != 0 && e & 8 == 0
            &&& l.sbss_with_stack <= a < l.ebss ==> e & 4 != 0 && e & 8 == 0
            &&& l.ekernel <= a < MEMORY_END ==> e & 4 != 0 && e & 8 == 0
        },
{
    if l.stext <= a < l.etext {
        lemma_kernel_access(s, m, trampoline, l, data, 0, l.stext, l.etext, false, true, a);
    }
    if l.srodata <= a < l.erodata {
        lemma_kernel_access(s, m, trampoline, l, data, 1, l.srodata, l.erodata, false, false, a);
    }
    if l.sdata <= a < l.edata {
        lemma_kernel_access(s, m, trampoline, l, data, 2, l.sdata, l.edata, true, false, a);
    }
    if l.sbss_with_stack <= a < l.ebss {
        lemma_kernel_access(
            s,
            m,
            trampoline,
            l,
            data,
            3,
            l.sbss_with_stack,
            l.ebss,
            true,
            false,
            a,
        );
    }
    if l.ekernel <= a < MEMORY_END {
        lemma_kernel_access(s, m, trampoline, l, data, 4, l.ekernel, MEMORY_END, true, false, a);
    }
}

/// An area that was added can be accessed as its permissions say, and no page that
/// was mapped before changes.
pub proof fn law_pushed_access(
    s0: MemorySet,
    m0: MemData,
    s1: MemorySet,
    m1: MemData,
    info: AreaInfo,
    data: Seq<u8>,
    r: bool,
    w: bool,
    x: bool,
    u: bool,
    v: int,
)
    requires
        memory_set::pushed(&s0, m0, &s1, m1, info, data),
        info.framed,
        info.perm == (if r {
            2int
        } else {
            0
        }) + (if w {
            4int
        } else {
            0
        }) + (if x {
            8int
        } else {
            0
        }) + (if u {
            16int
        } else {
            0
        }),
        info.start <= v < info.end,
    ensures
        page_table::lookup(m1, s1.page_table.root(), v) matches Some(e) && {
            &&& e & 1 != 0
            &&& (e & 2 != 0) == r
            &&& (e & 4 != 0) == w
            &&& (e & 8 != 0) == x
            &&& (e & 16 != 0) == u
            &&& e & 0xe0 == 0
        },
{
    assert(s1.pages(m1).contains_key(v));
    assert(s1.page_table.pages(m1).contains_key(v));
    s1.page_table.lemma_wf(m1);
    assert(page_table::lookup(m1, s1.page_table.root(), v) == Some(s1.page_table.pages(m1)[v]));
    let e = s1.pages(m1)[v];
    lemma_entry_rights(page_table::pte_ppn(e), page_table::with_valid(info.perm), r, w, x, u);
}

/// The rights on a page of an area are those of the area.
pub proof fn law_area_access(
    s: MemorySet,
    m: MemData,
    k: int,
    r: bool,
    w: bool,
    x: bool,
    u: bool,
    v: int,
)
    requires
        s.wf(m),
        0 <= k < s.infos().len(),
        s.infos()[k].start <= v < s.infos()[k].end,
        s.infos()[k].perm == (if r {
            2int
        } else {
            0
        }) + (if w {
            4int
        } else {
            0
        }) + (if x {
            8int
        } else {
            0
        }) + (if u {
            16int
        } else {
            0
        }),
    ensures
        page_table::lookup(m, s.page_table.root(), v) matches Some(e) && {
            &&& e & 1 != 0
            &&& (e & 2 != 0) == r
            &&& (e & 4 != 0) == w
            &&& (e & 8 != 0) == x
            &&& (e & 16 != 0) == u
            &&& e & 0xe0 == 0
        },
{
    let a = s.areas@[k];
    s.page_table.lemma_wf(m);
    assert(a.info() == s.infos()[k]);
    assert(a.settled(s.page_table.pages(m), m.used, s.page_table.owned()));
    assert(s.page_table.pages(m).contains_key(v));
    let f = page_table::with_valid(a.info().perm);
    if a.info().framed {
        assert(a.frames().contains_key(v));
        lemma_entry_rights(a.frames()[v], f, r, w, x, u);
    } else {
        lemma_entry_rights(v, f, r, w, x, u);
    }
}

/// Two address spaces with the same areas grant the same rights on their pages.
pub proof fn law_same_access(
    s0: MemorySet,
    m0: MemData,
    s1: MemorySet,
    m1: MemData,
    k: int,
    v: int,
    bit: u8,
)
    requires
        s0.wf(m0),
        s1.wf(m1),
        s0.infos() == s1.infos(),
        0 <= k < s0.infos().len(),
        s0.infos()[k].start <= v < s0.infos()[k].end,
    ensures
        page_table::lookup(m0, s0.page_table.root(), v) is Some,
        page_table::lookup(m1, s1.page_table.root(), v) is Some,
        (page_table::lookup(m0, s0.page_table.root(), v)->0 & (bit as u64) != 0) == (
        page_table::lookup(m1, s1.page_table.root(), v)->0 & (bit as u64) != 0),
{
    let a = s0.areas@[k];
    let b = s1.areas@[k];
    s0.page_table.lemma_wf(m0);
    s1.page_table.lemma_wf(m1);
    assert(a.info() == s0.infos()[k]);
    assert(b.info() == s1.infos()[k]);
    assert(a.settled(s0.page_table.pages(m0), m0.used, s0.page_table.owned()));
    assert(b.settled(s1.page_table.pages(m1), m1.used, s1.page_table.owned()));
    assert(s0.page_table.pages(m0).contains_key(v));
    assert(s1.page_table.pages(m1).contains_key(v));
    let f = page_table::with_valid(a.info().perm);
    if a.info().framed {
        assert(a.frames().contains_key(v));
        assert(b.frames().contains_key(v));
        law_entry_bits(a.frames()[v], f, bit);
        law_entry_bits(b.frames()[v], f, bit);
    } else {
        law_entry_bits(v, f, bit);
    }
}

/// The page number of an entry stands above its ten lowest bits, in 44 bits.
pub proof fn law_entry_page(e: u64)
    ensures
        page_table::pte_ppn(e) == (e >> 10) & 0xfff_ffff_ffff,
        page_table::pte_valid(e) == (e & 1 != 0),
        page_table::pte_flags(e) == e & 0xff,
{
    assert((e >> 10) & 0xfff_ffff_ffff == (e / 1024) % 0x1000_0000_0000 && (e & 1 != 0) == (e % 2
        == 1) && e & 0xff == e % 256) by (bit_vector);
}

/// A page is looked up in three tables: nine bits of its number each, the highest
/// first, tell the entry, and the entry the next table.
pub proof fn law_walk(m: MemData, root: int, v: u64)
    requires
        v < 0x800_0000,
    ensures
        ({
            let e1 = m.word(root, (v >> 18) as int);
            let e2 = m.word(((e1 >> 10) & 0xfff_ffff_ffff) as int, ((v >> 9) & 0x1ff) as int);
            let e3 = m.word(((e2 >> 10) & 0xfff_ffff_ffff) as int, (v & 0x1ff) as int);
            page_table::lookup(m, root, v as int) == if e1 & 1 != 0 && e2 & 1 != 0 {
                Some(e3)
            } else {
                None
            }
        }),
{
    assert(v >> 18 == v / 0x4_0000 % 512 && (v >> 9) & 0x1ff == v / 512 % 512 && v & 0x1ff == v
        % 512) by (bit_vector)
        requires
            v < 0x800_0000,
    ;
    let e1 = m.word(root, (v >> 18) as int);
    law_entry_page(e1);
    let e2 = m.word(((e1 >> 10) & 0xfff_ffff_ffff) as int, ((v >> 9) & 0x1ff) as int);
    law_entry_page(e2);
}

/// A token holds the number of the root in its lowest bits, and the mode of three
/// tables in its highest.
pub proof fn law_token(root: int)
    requires
        0 <= root < PPN_SPACE,
    ensures
        page_table::token_of(root) >> 60 == 8,
        page_table::token_of(root) & 0xfff_ffff_ffff == root,
        user_memory::token_root(page_table::token_of(root)) == root,
{
    let r = root as u64;
    assert((0x8000_0000_0000_0000u64 | r) >> 60 == 8 && (0x8000_0000_0000_0000u64 | r)
        & 0xfff_ffff_ffff == r && (0x8000_0000_0000_0000u64 | r) % 0x1000_0000_0000 == r)
        by (bit_vector)
        requires
            r < 0x1000_0000_0000u64,
    ;
}

/// The kernel does not count as protected where the middle of its code or of its
/// constants can be written, or the middle of its data be executed.
pub proof fn law_unprotected(m: MemData, root: int, l: KernelLayout, e: u64)
    requires
        ({
            let text = (l.stext + l.etext) / 2 % (VA_SPACE as int) / 4096;
            let rodata = (l.srodata + l.erodata) / 2 % (VA_SPACE as int) / 4096;
            let data = (l.sdata + l.edata) / 2 % (VA_SPACE as int) / 4096;
            ||| page_table::lookup(m, root, text) == Some(e) && e & 4 != 0
            ||| page_table::lookup(m, root, rodata) == Some(e) && e & 4 != 0
            ||| page_table::lookup(m, root, data) == Some(e) && e & 8 != 0
        }),
    ensures
        !kernel_space::protected(m, root, l),
{
    let f = (e % 256) as u8;
    assert((e & 4 != 0) == (f & 4 != 0) && (e & 8 != 0) == (f & 8 != 0)) by (bit_vector)
        requires
            f == e % 256,
    ;
}

} // verus!
