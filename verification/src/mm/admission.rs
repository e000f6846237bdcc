//! Whether an address space can be built, of a program or of the kernel: the tests
//! to make before it is.
use super::address::{VirtAddr, VirtPageNum, PPN_SPACE, VPN_SPACE};
use super::elf::{ElfImage, ProgramHeader};
use super::frame_allocator::PhysMemory;
use super::kernel_space;
use super::kernel_space::{KernelLayout, TRAMPOLINE_VPN};
use super::memory_set;
use super::memory_set::AreaInfo;
use super::page_table::Tables;
use super::user_space;
use crate::config::{MEMORY_END, PAGE_SIZE, TRAMPOLINE, TRAP_CONTEXT_BASE, USER_STACK_SIZE};
use vstd::prelude::*;

verus! {

/// A range of pages, and whether they have frames of their own.
#[derive(Clone, Copy)]
struct Span {
    start: u64,
    end: u64,
    framed: bool,
}

/// The spans are those of the areas.
spec fn spans_of(spans: Seq<Span>, infos: Seq<AreaInfo>) -> bool {
    &&& spans.len() == infos.len()
    &&& forall|k: int|
        0 <= k < infos.len() ==> (#[trigger] infos[k]).start == spans[k].start && infos[k].end
            == spans[k].end && infos[k].framed == spans[k].framed
}

/// The pages between two addresses.
fn span(start: u64, end: u64, framed: bool) -> (r: Span)
    ensures
        forall|perm: u8|
            (#[trigger] user_space::user_info(start as int, end as int, perm)).start == r.start
                && user_space::user_info(start as int, end as int, perm).end == r.end,
        r.framed == framed,
        r.start <= VPN_SPACE,
        r.end <= VPN_SPACE,
{
    Span { start: VirtAddr::new(start).floor().0, end: VirtAddr::new(end).ceil().0, framed }
}

/// Whether every segment has a place, and its bytes lie in the file and fit.
fn segments_ok(image: &ElfImage, elf_data: &[u8]) -> (r: bool)
    ensures
        r == forall|k: int|
            0 <= k < image.segments@.len() ==> user_space::segment_ok(
                #[trigger] image.segments@[k],
                elf_data@,
            ),
{
    let mut i: usize = 0;
    while i < image.segments.len()
        invariant
            i <= image.segments@.len(),
            forall|k: int|
                0 <= k < i ==> user_space::segment_ok(#[trigger] image.segments@[k], elf_data@),
        decreases image.segments@.len() - i,
    {
        let p: ProgramHeader = image.segments[i];
        if p.virtual_addr > u64::MAX - p.mem_size {
            assert(!user_space::segment_ok(image.segments@[i as int], elf_data@));
            return false;
        }
        let s: Span = span(p.virtual_addr, p.virtual_addr + p.mem_size, true);
        assert(user_space::segment_info(p).start == s.start);
        assert(user_space::segment_info(p).end == s.end);
        if p.offset as u128 + p.file_size as u128 > elf_data.len() as u128 || s.end < s.start
            || p.file_size > (s.end - s.start) * PAGE_SIZE {
            assert(!user_space::segment_ok(image.segments@[i as int], elf_data@));
            return false;
        }
        i += 1;
    }
    true
}

/// The pages of the areas of a program; `None` if its stack has no place.
fn image_spans(image: &ElfImage) -> (r: Option<Vec<Span>>)
    requires
        forall|k: int|
            0 <= k < image.segments@.len() ==> (#[trigger] image.segments@[k]).virtual_addr
                + image.segments@[k].mem_size <= u64::MAX,
    ensures
        match r {
            Some(spans) => {
                &&& user_space::stack_top(image.segments@) <= u64::MAX
                &&& spans_of(spans@, user_space::image_infos(image.segments@))
            },
            None => user_space::stack_top(image.segments@) > u64::MAX,
        },
{
    let ghost segs = image.segments@;
    let ghost n = segs.len() as int;
    let ghost infos = user_space::image_infos(segs);
    let mut spans: Vec<Span> = Vec::new();
    let mut max_end: u64 = 0;
    let mut i: usize = 0;
    while i < image.segments.len()
        invariant
            i <= segs.len(),
            segs == image.segments@,
            n == segs.len(),
            infos == user_space::image_infos(segs),
            spans@.len() == i,
            max_end == user_space::load_end(segs.take(i as int)),
            forall|k: int|
                0 <= k < n ==> (#[trigger] segs[k]).virtual_addr + segs[k].mem_size <= u64::MAX,
            forall|k: int|
                0 <= k < i ==> (#[trigger] infos[k]).start == spans@[k].start && infos[k].end
                    == spans@[k].end && infos[k].framed == spans@[k].framed,
        decreases segs.len() - i,
    {
        let p: ProgramHeader = image.segments[i];
        assert(segs[i as int] == p);
        let s: Span = span(p.virtual_addr, p.virtual_addr + p.mem_size, true);
        proof {
            assert(infos[i as int] == user_space::segment_info(p));
            assert(segs.take(i + 1).last() == p);
            assert(segs.take(i + 1).drop_last() =~= segs.take(i as int));
        }
        if s.end > max_end {
            max_end = s.end;
        }
        spans.push(s);
        i += 1;
    }
    proof {
        assert(segs.take(n) =~= segs);
        user_space::lemma_load_end(segs);
    }
    let end: u64 = VirtPageNum(max_end).addr().to_word();
    if end > u64::MAX - (PAGE_SIZE + USER_STACK_SIZE) {
        return None;
    }
    let bottom: u64 = end + PAGE_SIZE;
    let top: u64 = bottom + USER_STACK_SIZE;
    spans.push(span(bottom, top, true));
    spans.push(span(top, top, true));
    spans.push(span(TRAP_CONTEXT_BASE, TRAMPOLINE, true));
    assert(spans_of(spans@, infos)) by {
        assert(infos[n] == user_space::user_info(bottom as int, top as int, 0x16));
        assert(infos[n + 1] == user_space::user_info(top as int, top as int, 0x16));
        assert(infos[n + 2] == user_space::user_info(
            TRAP_CONTEXT_BASE as int,
            TRAMPOLINE as int,
            0x06,
        ));
    }
    Some(spans)
}

/// Whether two ranges of pages have one in common.
spec fn meet(a: Span, b: Span) -> bool {
    a.start < b.end && b.start < a.end && a.start < a.end && b.start < b.end
}

/// Whether the areas are ranges of pages with nothing in common, below the
/// trampoline.
fn spans_apart(spans: &Vec<Span>, Ghost(infos): Ghost<Seq<AreaInfo>>) -> (r: bool)
    requires
        spans_of(spans@, infos),
    ensures
        r == kernel_space::layout_ok(infos),
{
    let n: usize = spans.len();
    let mut i: usize = 0;
    while i < n
        invariant
            i <= n,
            n == spans@.len(),
            spans_of(spans@, infos),
            forall|k: int|
                0 <= k < i ==> (#[trigger] spans@[k]).start <= spans@[k].end <= VPN_SPACE && !(
                spans@[k].start <= TRAMPOLINE_VPN < spans@[k].end),
            forall|k: int, l: int|
                0 <= k < i && k < l < n ==> !meet(#[trigger] spans@[k], #[trigger] spans@[l]),
        decreases n - i,
    {
        let a: Span = spans[i];
        assert(infos[i as int].start == a.start);
        if a.start > a.end || a.end > VPN_SPACE || (a.start <= TRAMPOLINE_VPN && TRAMPOLINE_VPN
            < a.end) {
            return false;
        }
        let mut j: usize = i + 1;
        while j < n
            invariant
                i < j <= n,
                n == spans@.len(),
                a == spans@[i as int],
                spans_of(spans@, infos),
                forall|l: int| i < l < j ==> !#[trigger] meet(a, spans@[l]),
            decreases n - j,
        {
            let b: Span = spans[j];
            if a.start < b.end && b.start < a.end && a.start < a.end && b.start < b.end {
                proof {
                    let v: int = if a.start < b.start {
                        b.start as int
                    } else {
                        a.start as int
                    };
                    assert(infos[i as int].start <= v < infos[i as int].end);
                    assert(infos[j as int].start <= v < infos[j as int].end);
                    assert(kernel_space::in_areas(infos, v));
                }
                return false;
            }
            j += 1;
        }
        i += 1;
    }
    true
}

/// The numbers in a list.
spec fn set_of(s: Seq<u64>) -> Set<int> {
    Set::new(|x: int| exists|k: int| 0 <= k < s.len() && #[trigger] s[k] == x)
}

proof fn lemma_set_of(s: Seq<u64>, x: u64)
    ensures
        set_of(s.push(x)) == set_of(s).insert(x as int),
{
    let t = s.push(x);
    assert forall|y: int| set_of(t).contains(y) == set_of(s).insert(x as int).contains(y) by {
        if set_of(s).contains(y) {
            let k = choose|k: int| 0 <= k < s.len() && #[trigger] s[k] == y;
            assert(t[k] == y);
        }
        assert(t[s.len() as int] == x);
        if set_of(t).contains(y) {
            let k = choose|k: int| 0 <= k < t.len() && #[trigger] t[k] == y;
            if k < s.len() {
                assert(s[k] == y);
            }
        }
    }
    assert(set_of(t) =~= set_of(s).insert(x as int));
}

/// Adds a number to the list; gives 1 if it is new.
fn note(list: &mut Vec<u64>, x: u64) -> (r: u64)
    ensures
        set_of(final(list)@) == set_of(old(list)@).insert(x as int),
        r == if set_of(old(list)@).contains(x as int) {
            0int
        } else {
            1
        },
{
    let mut i: usize = 0;
    while i < list.len()
        invariant
            i <= list@.len(),
            *list == *old(list),
            forall|k: int| 0 <= k < i ==> #[trigger] list@[k] != x,
        decreases list@.len() - i,
    {
        if list[i] == x {
            assert(set_of(list@).contains(x as int));
            assert(set_of(list@).insert(x as int) =~= set_of(list@));
            return 0;
        }
        i += 1;
    }
    proof {
        lemma_set_of(list@, x);
    }
    list.push(x);
    1
}

/// Whether `limit` frames are enough for an address space with the areas.
fn frames_enough(spans: &Vec<Span>, limit: u64, Ghost(infos): Ghost<Seq<AreaInfo>>) -> (r: bool)
    requires
        spans_of(spans@, infos),
        kernel_space::layout_ok(infos),
        limit <= PPN_SPACE,
    ensures
        r == (kernel_space::space_cost(infos) <= limit),
{
    let ghost first = kernel_space::first_tables();
    let mut l1: Vec<u64> = Vec::new();
    let mut l2: Vec<u64> = Vec::new();
    proof {
        assert(set_of(l1@) =~= Set::<int>::empty());
        assert(set_of(l2@) =~= Set::<int>::empty());
    }
    note(&mut l1, TRAMPOLINE_VPN / 0x4_0000);
    note(&mut l2, TRAMPOLINE_VPN / 512);
    let mut cost: u64 = 3;
    let n: usize = spans.len();
    let mut i: usize = 0;
    proof {
        assert(infos.take(0) =~= Seq::<AreaInfo>::empty());
        kernel_space::lemma_cost_all(first, infos, 0);
    }
    if cost > limit {
        return false;
    }
    while i < n
        invariant
            i <= n,
            n == spans@.len(),
            spans_of(spans@, infos),
            kernel_space::layout_ok(infos),
            limit <= PPN_SPACE,
            cost <= limit,
            first == kernel_space::first_tables(),
            cost == 3 + kernel_space::cost_all(first, infos.take(i as int)),
            (Tables { l1: set_of(l1@), l2: set_of(l2@) }) == kernel_space::tables_all(
                first,
                infos.take(i as int),
            ),
        decreases n - i,
    {
        let ghost t = kernel_space::tables_all(first, infos.take(i as int));
        let s: Span = spans[i];
        let mut v: u64 = s.start;
        proof {
            assert(infos[i as int].start == s.start && infos[i as int].end == s.end);
            assert(infos.take(i + 1).last() == infos[i as int]);
            assert(infos.take(i + 1).drop_last() =~= infos.take(i as int));
            kernel_space::lemma_cost_all(first, infos, i + 1);
        }
        let ghost before = cost as int;
        while v < s.end
            invariant
                s.start <= v <= s.end,
                s.end <= VPN_SPACE,
                limit <= PPN_SPACE,
                cost <= limit,
                0 <= before,
                cost == before + memory_set::cost_upto(t, s.start as int, v as int, s.framed),
                before + memory_set::cost_upto(t, s.start as int, s.end as int, s.framed)
                    <= kernel_space::space_cost(infos),
                (Tables { l1: set_of(l1@), l2: set_of(l2@) }) == memory_set::tables_upto(
                    t,
                    s.start as int,
                    v as int,
                ),
            decreases s.end - v,
        {
            let new1: u64 = note(&mut l1, v / 0x4_0000);
            let new2: u64 = note(&mut l2, v / 512);
            let own: u64 = if s.framed {
                1
            } else {
                0
            };
            cost = cost + own + new1 + new2;
            v += 1;
            proof {
                assert((Tables { l1: set_of(l1@), l2: set_of(l2@) }) =~= memory_set::tables_upto(
                    t,
                    s.start as int,
                    v as int,
                ));
                memory_set::lemma_cost_monotonic(
                    t,
                    s.start as int,
                    v as int,
                    s.end as int,
                    s.framed,
                );
            }
            if cost > limit {
                return false;
            }
        }
        i += 1;
    }
    assert(infos.take(n as int) =~= infos);
    true
}

/// Whether the program can be loaded: its areas have places, and there are frames
/// for them.
pub fn image_has_room(image: &ElfImage, elf_data: &[u8], mem: &PhysMemory) -> (r: bool)
    requires
        mem.wf(),
    ensures
        r == user_space::image_fits(image.segments@, elf_data@, mem@),
{
    if !segments_ok(image, elf_data) {
        return false;
    }
    assert forall|k: int| 0 <= k < image.segments@.len() implies (#[trigger] image.segments@[k]).virtual_addr
        + image.segments@[k].mem_size <= u64::MAX by {
        assert(user_space::segment_ok(image.segments@[k], elf_data@));
    }
    let ghost infos = user_space::image_infos(image.segments@);
    match image_spans(image) {
        Some(spans) => spans_apart(&spans, Ghost(infos)) && frames_enough(
            &spans,
            mem.free_frames(),
            Ghost(infos),
        ),
        None => false,
    }
}

/// Whether the address space of the kernel can be built.
pub fn kernel_has_room(l: &KernelLayout, mem: &PhysMemory) -> (r: bool)
    requires
        mem.wf(),
    ensures
        r == (kernel_space::layout_ok(kernel_space::kernel_infos(*l)) && kernel_space::space_cost(
            kernel_space::kernel_infos(*l),
        ) <= mem@.free().len()),
{
    let ghost infos = kernel_space::kernel_infos(*l);
    let mut spans: Vec<Span> = Vec::new();
    spans.push(span(l.stext, l.etext, false));
    spans.push(span(l.srodata, l.erodata, false));
    spans.push(span(l.sdata, l.edata, false));
    spans.push(span(l.sbss_with_stack, l.ebss, false));
    spans.push(span(l.ekernel, MEMORY_END, false));
    assert(spans_of(spans@, infos)) by {
        assert forall|a: u64, b: u64, perm: u8|
            (#[trigger] kernel_space::kernel_info(a, b, perm)).start == user_space::user_info(
                a as int,
                b as int,
                perm,
            ).start && kernel_space::kernel_info(a, b, perm).end == user_space::user_info(
                a as int,
                b as int,
                perm,
            ).end && !kernel_space::kernel_info(a, b, perm).framed by {}
    }
    spans_apart(&spans, Ghost(infos)) && frames_enough(&spans, mem.free_frames(), Ghost(infos))
}

} // verus!
