//! What holds of address spaces and the memory that they share.
use super::address;
use super::address::VA_SPACE;
use super::elf::ProgramHeader;
use super::frame_allocator::MemData;
use super::kernel_space;
use super::kernel_space::{KernelLayout, TRAMPOLINE_VPN};
use super::memory_set;
use super::memory_set::{AreaInfo, MemorySet};
use super::mmap;
use super::page_table;
use super::user_memory;
use super::user_space;
use vstd::prelude::*;

verus! {

/// The two states of memory hold the same address space: the same pages are
/// mapped in the same way, and those with frames of their own hold the same
/// bytes.
pub open spec fn unchanged(s: &MemorySet, m0: MemData, m1: MemData) -> bool {
    &&& s.wf(m1)
    &&& s.pages(m1) == s.pages(m0)
    &&& s.page_table.tables(m1) == s.page_table.tables(m0)
    &&& forall|k: int, v: int|
        #![trigger s.infos()[k], s.page_bytes(m1, v)]
        0 <= k < s.infos().len() && s.infos()[k].framed && s.infos()[k].start <= v
            < s.infos()[k].end ==> s.page_bytes(m1, v) == s.page_bytes(m0, v)
}

/// An address space depends on its own frames alone.
pub proof fn law_own_frames(s: MemorySet, m0: MemData, m1: MemData)
    requires
        s.wf(m0),
        m1.wf(),
        forall|p: int| #[trigger] s.owns(p) ==> m1.used.contains(p) && m1.pages[p] == m0.pages[p],
    ensures
        unchanged(&s, m0, m1),
{
    let own = s.page_table.owned();
    s.page_table.lemma_wf(m0);
    assert forall|p: int| #[trigger] own.contains(p) implies m1.used.contains(p) && m1.pages[p]
        == m0.pages[p] by {
        assert(s.owns(p));
    }
    s.page_table.lemma_frame(m0, m1);
    assert forall|k: int| 0 <= k < s.areas@.len() implies (#[trigger] s.areas@[k]).settled(
        s.page_table.pages(m1),
        m1.used,
        own,
    ) by {
        let a = s.areas@[k];
        assert(a.settled(s.page_table.pages(m0), m0.used, own));
        assert forall|v: int| #[trigger] a.frames().contains_key(v) implies m1.used.contains(
            a.frames()[v],
        ) by {
            assert(memory_set::held_in(s.areas@[k].frames(), a.frames()[v]));
            assert(s.owns(a.frames()[v]));
        }
    }
    assert forall|k: int, v: int|
        #![trigger s.infos()[k], s.page_bytes(m1, v)]
        0 <= k < s.infos().len() && s.infos()[k].framed && s.infos()[k].start <= v
            < s.infos()[k].end implies s.page_bytes(m1, v) == s.page_bytes(m0, v) by {
        let a = s.areas@[k];
        assert(a.info() == s.infos()[k]);
        assert(a.settled(s.page_table.pages(m0), m0.used, own));
        assert(s.page_table.pages(m0).contains_key(v));
        assert(a.frames().contains_key(v));
        page_table::lemma_pte(a.frames()[v], page_table::with_valid(a.info().perm));
        assert(memory_set::held_in(s.areas@[k].frames(), a.frames()[v]));
        assert(s.owns(a.frames()[v]));
    }
}

/// An address space that was built in free frames has the first ones that were free:
/// with each of them all that were free before it.
pub proof fn law_fresh_lowest(s: &MemorySet, m0: MemData, m1: MemData, p: int, q: int)
    requires
        kernel_space::fresh(s, m0, m1),
        s.owns(p),
        m0.free().contains(q),
        q < p,
    ensures
        s.owns(q),
{
    reveal(MemData::takes_lowest);
    assert(m0.free().contains(p));
    assert(m1.used.contains(p));
    assert(m1.used.contains(q));
}

/// An address space that was built in free frames has as many frames as are free
/// no more.
pub proof fn law_fresh_frames(s: &MemorySet, m0: MemData, m1: MemData)
    requires
        m0.wf(),
        kernel_space::fresh(s, m0, m1),
    ensures
        s.frames().finite(),
        s.frames().len() == m0.free().len() - m1.free().len(),
{
    m0.lemma_with_frames(m1, s.frames());
}

/// The frames of an address space are in use.
pub proof fn lemma_owned_used(s: MemorySet, m: MemData, p: int)
    requires
        s.wf(m),
        s.owns(p),
    ensures
        m.used.contains(p),
{
    s.page_table.lemma_wf(m);
    if !s.page_table.owned().contains(p) {
        let k = choose|k: int|
            0 <= k < s.areas@.len() && memory_set::held_in((#[trigger] s.areas@[k]).frames(), p);
        memory_set::lemma_held_once(s, m, k, p);
    }
}

/// No frame belongs to both address spaces.
pub open spec fn separate(s: &MemorySet, t: &MemorySet) -> bool {
    forall|p: int| #[trigger] s.owns(p) ==> !t.owns(p)
}

/// Building an address space leaves another one alone, and has no frame in common
/// with it.
pub proof fn law_build_isolated(other: MemorySet, s: MemorySet, m0: MemData, m1: MemData)
    requires
        other.wf(m0),
        m1.wf(),
        kernel_space::fresh(&s, m0, m1),
    ensures
        unchanged(&other, m0, m1),
        separate(&other, &s),
{
    assert forall|p: int| #[trigger] other.owns(p) implies m1.used.contains(p) && m1.pages[p]
        == m0.pages[p] && !s.owns(p) by {
        lemma_owned_used(other, m0, p);
        if s.owns(p) {
            assert(m0.free().contains(p));
        }
    }
    law_own_frames(other, m0, m1);
}

/// Adding pages to an address space leaves another one alone, and has no frame in
/// common with it.
pub proof fn law_grow_isolated(
    other: MemorySet,
    s0: MemorySet,
    m0: MemData,
    s1: MemorySet,
    m1: MemData,
)
    requires
        other.wf(m0),
        m1.wf(),
        separate(&other, &s0),
        memory_set::kept(&s0, m0, &s1, m1),
    ensures
        unchanged(&other, m0, m1),
        separate(&other, &s1),
{
    assert forall|p: int| #[trigger] other.owns(p) implies m1.used.contains(p) && m1.pages[p]
        == m0.pages[p] && !s1.owns(p) by {
        lemma_owned_used(other, m0, p);
        assert(!s0.owns(p));
        if s1.owns(p) {
            assert(m0.free().contains(p));
        }
    }
    law_own_frames(other, m0, m1);
}

/// Taking pages from an address space leaves another one alone.
pub proof fn law_shrink_isolated(
    other: MemorySet,
    s0: MemorySet,
    m0: MemData,
    s1: MemorySet,
    m1: MemData,
)
    requires
        other.wf(m0),
        m1.wf(),
        separate(&other, &s0),
        memory_set::shrunk(&s0, m0, &s1, m1),
    ensures
        unchanged(&other, m0, m1),
        separate(&other, &s1),
{
    assert forall|p: int| #[trigger] other.owns(p) implies m1.used.contains(p) && m1.pages[p]
        == m0.pages[p] && !s1.owns(p) by {
        lemma_owned_used(other, m0, p);
        assert(!s0.owns(p));
        assert(m0.wf()) by {
            other.page_table.lemma_wf(m0);
        }
        assert(m0.pages.contains_key(p));
        if s1.owns(p) {
            assert(s0.owns(p));
        }
    }
    law_own_frames(other, m0, m1);
}

/// No area stands without pages at an end of the range.
pub open spec fn no_empty_at(infos: Seq<AreaInfo>, s: int, e: int) -> bool {
    forall|k: int|
        0 <= k < infos.len() && (#[trigger] infos[k]).start == infos[k].end ==> infos[k].start != s
            && infos[k].start != e
}

/// Where nothing lies in a range, nothing is taken out with it.
proof fn lemma_others_all(infos: Seq<AreaInfo>, s: int, e: int)
    requires
        forall|k: int| 0 <= k < infos.len() ==> !mmap::inside(#[trigger] infos[k], s, e),
    ensures
        mmap::others(infos, s, e) == infos,
    decreases infos.len(),
{
    if infos.len() > 0 {
        let most = infos.drop_last();
        assert forall|k: int| 0 <= k < most.len() implies !mmap::inside(
            #[trigger] most[k],
            s,
            e,
        ) by {
            assert(most[k] == infos[k]);
        }
        lemma_others_all(most, s, e);
        assert(!mmap::inside(infos[infos.len() - 1], s, e));
        assert(most.push(infos.last()) =~= infos);
    } else {
        assert(mmap::others(infos, s, e) =~= infos);
    }
}

/// A range that was just mapped can be unmapped, and that takes out the area that
/// mapping added, and no other; there must be no area without pages at its ends,
/// for that would go with it.
pub proof fn law_mmap_munmap(infos: Seq<AreaInfo>, info: AreaInfo)
    requires
        forall|k: int| 0 <= k < infos.len() ==> (#[trigger] infos[k]).start <= infos[k].end,
        info.start < info.end,
        !mmap::conflicts(infos, info.start, info.end),
        no_empty_at(infos, info.start, info.end),
    ensures
        mmap::whole(infos.push(info), info.start, info.end),
        mmap::others(infos.push(info), info.start, info.end) == infos,
{
    let s = info.start;
    let e = info.end;
    let all = infos.push(info);
    let n = infos.len() as int;
    assert(all[n] == info);
    assert forall|v: int| s <= v < e implies #[trigger] mmap::within(
        all,
        s,
        e,
        all.len() as int,
        v,
    ) by {
        assert(mmap::inside(all[n], s, e));
    }
    assert forall|k: int| 0 <= k < n implies !mmap::inside(#[trigger] infos[k], s, e) by {
        assert(!(infos[k].start < e && s < infos[k].end));
    }
    assert forall|k: int, l: int|
        0 <= k < all.len() && 0 <= l < all.len() implies !#[trigger] mmap::splits(
        all,
        s,
        e,
        k,
        l,
    ) by {
        if k < n {
            assert(all[k] == infos[k]);
            assert(!mmap::inside(infos[k], s, e));
        }
    }
    lemma_others_all(infos, s, e);
    assert(all.drop_last() =~= infos);
}

/// What mapping a range changed of the pages, unmapping it undoes.
pub proof fn law_map_unmap_pages(
    s0: MemorySet,
    m0: MemData,
    s1: MemorySet,
    m1: MemData,
    info: AreaInfo,
    data: Seq<u8>,
)
    requires
        memory_set::pushed(&s0, m0, &s1, m1, info, data),
        forall|v: int| info.start <= v < info.end ==> !#[trigger] s0.pages(m0).contains_key(v),
    ensures
        memory_set::pages_without(s1.pages(m1), info.start, info.end) == s0.pages(m0),
{
    assert(memory_set::pages_without(s1.pages(m1), info.start, info.end) =~= s0.pages(m0));
}

/// A page that was mapped is translated to the frame and the flags that it was
/// mapped with; one that was not has no valid entry.
pub proof fn law_translate(s: MemorySet, m: MemData, v: int)
    requires
        s.wf(m),
        0 <= v < super::address::VPN_SPACE,
    ensures
        s.pages(m).contains_key(v) == (page_table::lookup(m, s.page_table.root(), v) matches Some(
            bits,
        ) && page_table::pte_valid(bits)),
        s.pages(m).contains_key(v) ==> page_table::lookup(m, s.page_table.root(), v) == Some(
            s.pages(m)[v],
        ),
        forall|k: int|
            0 <= k < s.areas@.len() && (#[trigger] s.areas@[k]).has_page(v) ==> {
                &&& s.pages(m).contains_key(v)
                &&& s.pages(m)[v] == s.areas@[k].entry(v)
                &&& page_table::pte_flags(s.pages(m)[v]) == page_table::with_valid(
                    s.areas@[k].info().perm,
                )
            },
{
    assert forall|k: int| 0 <= k < s.areas@.len() && (#[trigger] s.areas@[k]).has_page(v) implies {
        &&& s.pages(m).contains_key(v)
        &&& s.pages(m)[v] == s.areas@[k].entry(v)
        &&& page_table::pte_flags(s.pages(m)[v]) == page_table::with_valid(s.areas@[k].info().perm)
    } by {
        let a = s.areas@[k];
        assert(a.settled(s.page_table.pages(m), m.used, s.page_table.owned()));
        assert(s.page_table.pages(m).contains_key(v));
        if a.info().framed {
            assert(a.frames().contains_key(v));
            page_table::lemma_pte(a.frames()[v], page_table::with_valid(a.info().perm));
        } else {
            page_table::lemma_pte(v, page_table::with_valid(a.info().perm));
        }
    }
    s.page_table.lemma_wf(m);
}

/// All address spaces map the trampoline at the same page to the same frame.
pub proof fn law_same_trampoline(
    s: MemorySet,
    m: MemData,
    infos: Seq<AreaInfo>,
    data: Seq<Seq<u8>>,
    t: MemorySet,
    n: MemData,
    infos2: Seq<AreaInfo>,
    data2: Seq<Seq<u8>>,
    trampoline: int,
)
    requires
        kernel_space::built(&s, m, trampoline, infos, data),
        kernel_space::built(&t, n, trampoline, infos2, data2),
    ensures
        page_table::lookup(m, s.page_table.root(), TRAMPOLINE_VPN as int) is Some,
        page_table::lookup(m, s.page_table.root(), TRAMPOLINE_VPN as int) == page_table::lookup(
            n,
            t.page_table.root(),
            TRAMPOLINE_VPN as int,
        ),
{
    assert(s.pages(m).contains_key(TRAMPOLINE_VPN as int));
    assert(t.pages(n).contains_key(TRAMPOLINE_VPN as int));
    law_translate(s, m, TRAMPOLINE_VPN as int);
    law_translate(t, n, TRAMPOLINE_VPN as int);
}

/// The kernel's areas are mapped to the frames with the same numbers, so that
/// nothing moves when its page table comes into force.
pub proof fn law_kernel_identity(
    s: MemorySet,
    m: MemData,
    trampoline: int,
    l: KernelLayout,
    data: Seq<Seq<u8>>,
    k: int,
    v: int,
)
    requires
        kernel_space::built(&s, m, trampoline, kernel_space::kernel_infos(l), data),
        0 <= k < 5,
        kernel_space::kernel_infos(l)[k].start <= v < kernel_space::kernel_infos(l)[k].end,
    ensures
        page_table::lookup(m, s.page_table.root(), v) matches Some(bits) && page_table::pte_ppn(
            bits,
        ) == v && page_table::pte_valid(bits),
{
    let a = s.areas@[k];
    assert(s.infos()[k] == a.info());
    assert(a.settled(s.page_table.pages(m), m.used, s.page_table.owned()));
    assert(a.has_page(v));
    law_translate(s, m, v);
    page_table::lemma_pte(v, page_table::with_valid(a.info().perm));
}

/// The address of page `g`, in the upper half too.
proof fn lemma_page_address(g: int)
    requires
        0 <= g <= 0x800_0000,
    ensures
        address::extended((g * 4096) as u64) == if g < 0x400_0000 {
            g * 4096
        } else if g < 0x800_0000 {
            g * 4096 + 0xffff_ff80_0000_0000
        } else {
            0xffff_ff80_0000_0000
        },
{
    let a = (g * 4096) as u64;
    if 0x40_0000_0000 <= a < 0x80_0000_0000 {
        assert(a | 0xffff_ff80_0000_0000u64 == a + 0xffff_ff80_0000_0000u64) by (bit_vector)
            requires
                0x40_0000_0000 <= a < 0x80_0000_0000,
        ;
    } else if a == 0x80_0000_0000 {
        assert(0x80_0000_0000u64 | 0xffff_ff80_0000_0000u64 == 0xffff_ff80_0000_0000u64)
            by (bit_vector);
    }
}

/// The address of the stack pointer of a program.
pub(crate) proof fn lemma_stack_place(segments: Seq<ProgramHeader>)
    requires
        user_space::stack_top(segments) <= u64::MAX,
    ensures
        ({
            let g = user_space::load_end(segments);
            let sp = user_space::stack_top(segments);
            &&& sp % 4096 == 0
            &&& g < 0x400_0000 ==> sp == (g + 3) * 4096
            &&& 0x400_0000 <= g < 0x800_0000 ==> sp == (g + 3) * 4096 + 0xffff_ff80_0000_0000
            &&& g == 0x800_0000 ==> sp == 0xffff_ff80_0000_3000
        }),
{
    user_space::lemma_load_end(segments);
    lemma_page_address(user_space::load_end(segments));
}

/// Where the stack, the heap and the trap context of a program lie.
pub(crate) proof fn lemma_stack_pages(segments: Seq<ProgramHeader>)
    requires
        user_space::stack_top(segments) <= u64::MAX,
    ensures
        ({
            let infos = user_space::image_infos(segments);
            let n = segments.len() as int;
            let g = user_space::load_end(segments);
            &&& 0 <= g <= 0x800_0000
            &&& infos[n].start == (g + 1) % 0x800_0000
            &&& infos[n].end == (g + 3) % 0x800_0000
            &&& infos[n + 1].start == infos[n + 1].end
            &&& infos[n + 2].start == 0x7ff_fffe
            &&& infos[n + 2].end == 0x7ff_ffff
            &&& g == 0x800_0000 || g + 3 < 0x800_0000
        }),
{
    let infos = user_space::image_infos(segments);
    let n = segments.len() as int;
    let g = user_space::load_end(segments);
    let b = user_space::stack_bottom(segments);
    let t = user_space::stack_top(segments);
    user_space::lemma_load_end(segments);
    lemma_stack_place(segments);
    assert(infos[n] == user_space::user_info(b, t, 0x16));
    assert(infos[n + 1] == user_space::user_info(t, t, 0x16));
    assert(b == t - 8192);
    assert(g == 0x800_0000 || g + 3 < 0x800_0000);
    lemma_stack_numbers(g, t);
}

/// The pages of the stack, from the page `g` behind the segments and its end.
proof fn lemma_stack_numbers(g: int, t: int)
    requires
        0 <= g <= 0x800_0000,
        g == 0x800_0000 || g + 3 < 0x800_0000,
        t == if g < 0x400_0000 {
            (g + 3) * 4096
        } else if g < 0x800_0000 {
            (g + 3) * 4096 + 0xffff_ff80_0000_0000
        } else {
            0xffff_ff80_0000_3000
        },
    ensures
        address::floor_of((t - 8192) % 0x80_0000_0000) == (g + 1) % 0x800_0000,
        address::ceil_of(t % 0x80_0000_0000) == (g + 3) % 0x800_0000,
        address::floor_of(t % 0x80_0000_0000) == (g + 3) % 0x800_0000,
{
    if g == 0x800_0000 {
        assert(t % 0x80_0000_0000 == 0x3000);
        assert((t - 8192) % 0x80_0000_0000 == 0x1000);
    } else {
        assert(t % 0x80_0000_0000 == (g + 3) * 4096);
        assert((t - 8192) % 0x80_0000_0000 == (g + 1) * 4096);
    }
}

/// The page between the segments of a program and its stack is not mapped.
pub proof fn law_guard_page(
    s: MemorySet,
    m: MemData,
    trampoline: int,
    segments: Seq<ProgramHeader>,
    data: Seq<Seq<u8>>,
)
    requires
        kernel_space::built(&s, m, trampoline, user_space::image_infos(segments), data),
        user_space::stack_top(segments) <= u64::MAX,
    ensures
        !s.pages(m).contains_key(user_space::load_end(segments)),
{
    let infos = user_space::image_infos(segments);
    let n = segments.len() as int;
    let g = user_space::load_end(segments);
    user_space::lemma_load_end(segments);
    lemma_stack_pages(segments);
    if kernel_space::in_areas(infos, g) {
        let k = choose|k: int|
            0 <= k < infos.len() && (#[trigger] infos[k]).start <= g < infos[k].end;
        if k < n {
            assert(infos[k] == user_space::segment_info(segments[k]));
        }
    }
}

/// Shrinking an area to where it ended undoes extending it, in the areas and in
/// the pages that are mapped.
pub proof fn law_append_shrink(
    s0: MemorySet,
    m0: MemData,
    s1: MemorySet,
    m1: MemData,
    s2: MemorySet,
    m2: MemData,
    start: int,
    far: int,
    near: int,
)
    requires
        memory_set::area_at(s0.infos(), address::floor_of(start), 0) matches Some(k) && 0 <= k
            < s0.infos().len() && s0.infos()[k].end == address::ceil_of(near),
        memory_set::can_append_to(&s0, m0, start, far),
        memory_set::appended_to(&s0, m0, &s1, m1, start, far),
        memory_set::shrunk_to(&s1, m1, &s2, m2, start, near),
    ensures
        s2.infos() == s0.infos(),
        s2.pages(m2) == s0.pages(m0),
{
    let v = address::floor_of(start);
    let k = memory_set::area_at(s0.infos(), v, 0)->0;
    lemma_area_at_update(s0.infos(), v, 0, k, s1.infos()[k]);
    assert(s1.infos()[k].start == s0.infos()[k].start) by {
        assert(s1.infos() == s0.infos().update(
            k,
            (AreaInfo { end: address::ceil_of(far), ..s0.infos()[k] }),
        ));
    }
    assert(s2.infos() =~= s0.infos());
    let info = AreaInfo {
        start: s0.infos()[k].end,
        end: address::ceil_of(far),
        ..s0.infos()[k]
    };
    assert forall|w: int| info.start <= w < info.end implies !s0.pages(m0).contains_key(w) by {}
    assert(s2.pages(m2) =~= s0.pages(m0)) by {
        assert forall|w: int| #[trigger] s2.pages(m2).contains_key(w) == s0.pages(m0).contains_key(
            w,
        ) by {
            assert(s1.pages(m1).contains_key(w) == (s0.pages(m0).contains_key(w) || info.start <= w
                < info.end));
        }
    }
}

proof fn lemma_area_at_update(infos: Seq<AreaInfo>, v: int, i: int, k: int, info: AreaInfo)
    requires
        0 <= i <= infos.len(),
        0 <= k < infos.len(),
        info.start == infos[k].start,
    ensures
        memory_set::area_at(infos.update(k, info), v, i) == memory_set::area_at(infos, v, i),
    decreases infos.len() - i,
{
    if i < infos.len() {
        lemma_area_at_update(infos, v, i + 1, k, info);
    }
}

/// The page of a user program's address has a frame of its own.
pub open spec fn own_page(s: &MemorySet, v: int) -> bool {
    exists|k: int|
        0 <= k < s.infos().len() && (#[trigger] s.infos()[k]).framed && s.infos()[k].start <= v
            < s.infos()[k].end
}

/// The frame of such a page.
proof fn lemma_own_page(s: MemorySet, m: MemData, v: int)
    requires
        s.wf(m),
        own_page(&s, v),
    ensures
        ({
            let p = page_table::pte_ppn(s.pages(m)[v]);
            &&& s.pages(m).contains_key(v)
            &&& page_table::lookup(m, s.page_table.root(), v) == Some(s.pages(m)[v])
            &&& s.owns(p)
            &&& m.pages.contains_key(p)
            &&& !s.page_table.owned().contains(p)
            &&& 0 <= p < address::PPN_SPACE
            &&& forall|w: int|
                w != v && own_page(&s, w) ==> page_table::pte_ppn(#[trigger] s.pages(m)[w]) != p
        }),
{
    let k = choose|k: int|
        0 <= k < s.infos().len() && (#[trigger] s.infos()[k]).framed && s.infos()[k].start <= v
            < s.infos()[k].end;
    let a = s.areas@[k];
    s.page_table.lemma_wf(m);
    assert(a.info() == s.infos()[k]);
    assert(a.settled(s.page_table.pages(m), m.used, s.page_table.owned()));
    assert(s.page_table.pages(m).contains_key(v));
    assert(a.frames().contains_key(v));
    page_table::lemma_pte(a.frames()[v], page_table::with_valid(a.info().perm));
    assert(memory_set::held_in(s.areas@[k].frames(), a.frames()[v]));
    assert forall|w: int| w != v && own_page(&s, w) implies page_table::pte_ppn(
        #[trigger] s.pages(m)[w],
    ) != a.frames()[v] by {
        let l = choose|l: int|
            0 <= l < s.infos().len() && (#[trigger] s.infos()[l]).framed && s.infos()[l].start <= w
                < s.infos()[l].end;
        let b = s.areas@[l];
        assert(b.info() == s.infos()[l]);
        assert(b.settled(s.page_table.pages(m), m.used, s.page_table.owned()));
        assert(s.page_table.pages(m).contains_key(w));
        assert(b.frames().contains_key(w));
        page_table::lemma_pte(b.frames()[w], page_table::with_valid(b.info().perm));
        assert(s.areas@[k].frames().contains_key(v) && s.areas@[l].frames().contains_key(w));
    }
}

/// What the kernel writes at an address of a user program, it reads there
/// afterwards, and the address space stays as it is but for the frames of those
/// pages.
pub proof fn law_user_write_read(s: MemorySet, m: MemData, token: u64, ptr: u64, src: Seq<u8>)
    requires
        s.wf(m),
        user_memory::token_root(token) == s.page_table.root(),
        page_table::canonical(ptr as int, src.len() as int),
        ({
            let a = ptr as int % (VA_SPACE as int);
            forall|k: int|
                0 <= k < page_table::piece_count(a, src.len() as int) ==> own_page(
                    &s,
                    #[trigger] (address::floor_of(a) + k),
                )
        }),
    ensures
        user_memory::accessible(m, token, ptr, src.len() as int),
        ({
            let m1 = user_memory::user_written(m, token, ptr, src);
            &&& user_memory::user_bytes(m1, token, ptr, src.len() as int) == src
            &&& s.wf(m1)
            &&& s.pages(m1) == s.pages(m)
            &&& m1.used == m.used
            &&& forall|v: int|
                own_page(&s, v) && !(address::floor_of(ptr as int % (VA_SPACE as int)) <= v
                    < address::floor_of(ptr as int % (VA_SPACE as int)) + page_table::piece_count(
                    ptr as int % (VA_SPACE as int),
                    src.len() as int,
                )) ==> #[trigger] s.page_bytes(m1, v) == s.page_bytes(m, v)
        }),
{
    let len = src.len() as int;
    let a = ptr as int % (VA_SPACE as int);
    let f = address::floor_of(a);
    let root = s.page_table.root();
    let pieces = user_memory::user_pieces(m, token, ptr, len);
    let n = pieces.len() as int;
    let m1 = user_memory::user_written(m, token, ptr, src);
    s.page_table.lemma_wf(m);
    assert forall|k: int| 0 <= k < page_table::piece_count(a, len) implies #[trigger] user_memory::user_page(
        m,
        token,
        f + k,
    ) by {
        assert(own_page(&s, f + k));
        lemma_own_page(s, m, f + k);
    }
    user_memory::lemma_pieces_ok(m, token, ptr, len);
    user_memory::lemma_user_pieces(m, token, ptr, len);
    user_memory::lemma_scattered(m, pieces, src, n);
    assert forall|k: int| 0 <= k < n implies (#[trigger] pieces[k]).ppn.0 == page_table::pte_ppn(
        s.pages(m)[f + k],
    ) by {
        assert(own_page(&s, f + k));
        lemma_own_page(s, m, f + k);
        assert(pieces[k] == page_table::piece(m, root, a, len, k));
    }
    assert forall|i: int, j: int| 0 <= i < j < n implies (#[trigger] pieces[i]).ppn != (
    #[trigger] pieces[j]).ppn by {
        assert(own_page(&s, f + i));
        assert(own_page(&s, f + j));
        lemma_own_page(s, m, f + i);
        assert(page_table::pte_ppn(s.pages(m)[f + j]) != page_table::pte_ppn(s.pages(m)[f + i]));
    }
    user_memory::law_written_read(m, pieces, src);
    assert forall|p: int| #[trigger] s.page_table.owned().contains(p) implies m1.pages[p]
        == m.pages[p] by {
        assert forall|j: int| 0 <= j < n implies (#[trigger] pieces[j]).ppn.0 != p by {
            assert(own_page(&s, f + j));
            lemma_own_page(s, m, f + j);
        }
    }
    s.page_table.lemma_frame(m, m1);
    assert forall|k: int| 0 <= k < s.areas@.len() implies (#[trigger] s.areas@[k]).settled(
        s.page_table.pages(m1),
        m1.used,
        s.page_table.owned(),
    ) by {
        assert(s.areas@[k].settled(s.page_table.pages(m), m.used, s.page_table.owned()));
    }
    s.page_table.lemma_wf(m1);
    assert forall|k: int| 0 <= k < n implies user_memory::user_pieces(m1, token, ptr, len)[k]
        == #[trigger] pieces[k] by {
        assert(own_page(&s, f + k));
        lemma_own_page(s, m, f + k);
        lemma_own_page(s, m1, f + k);
        assert(page_table::lookup(m1, root, f + k) == page_table::lookup(m, root, f + k));
    }
    assert(user_memory::user_pieces(m1, token, ptr, len) =~= pieces);
    assert forall|k: int| 0 <= k < n implies m1.pages.contains_key(
        (#[trigger] pieces[k]).ppn.0 as int,
    ) by {
        assert(m.pages.dom().contains(pieces[k].ppn.0 as int));
    }
    user_memory::lemma_user_pieces(m1, token, ptr, len);
    assert forall|v: int|
        own_page(&s, v) && !(f <= v < f + page_table::piece_count(a, len)) implies #[trigger] s.page_bytes(
        m1,
        v,
    ) == s.page_bytes(m, v) by {
        lemma_own_page(s, m, v);
        let p = page_table::pte_ppn(s.pages(m)[v]);
        assert forall|j: int| 0 <= j < n implies (#[trigger] pieces[j]).ppn.0 != p by {
            assert(own_page(&s, f + j));
            assert(page_table::pte_ppn(s.pages(m)[f + j]) != p);
        }
    }
}

} // verus!
