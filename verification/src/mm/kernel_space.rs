//! Building address spaces: the trampoline, and the areas of the kernel.
use super::address;
use super::address::{PhysAddr, PhysPageNum, VirtAddr, VirtPageNum, PA_SPACE, VA_SPACE, VPN_SPACE};
use super::frame_allocator::{MemData, PhysMemory};
use super::memory_set;
use super::memory_set::{
    AreaInfo, MapArea, MapPermission, MapType, MemorySet, MAP_R, MAP_W, MAP_X,
};
use super::page_table;
use super::page_table::{PTEFlags, PageTableEntry, Tables};
use crate::config::{KERNEL_STACK_SIZE, MEMORY_END, PAGE_SIZE, TRAMPOLINE};
use crate::easy_fs::bytes;
use vstd::prelude::*;

verus! {

/// The page of the trampoline, the highest one.
pub const TRAMPOLINE_VPN: u64 = 0x7ff_ffff;

/// The entry of the trampoline, for the frame of its code.
pub open spec fn trampoline_entry(ppn: int) -> u64 {
    page_table::pte(ppn, page_table::with_valid(0x0a))
}

/// The tables after the pages of the areas were mapped.
pub open spec fn tables_all(t: Tables, infos: Seq<AreaInfo>) -> Tables
    decreases infos.len(),
{
    if infos.len() == 0 {
        t
    } else {
        memory_set::tables_upto(
            tables_all(t, infos.drop_last()),
            infos.last().start,
            infos.last().end,
        )
    }
}

/// The frames that mapping the pages of the areas takes.
pub open spec fn cost_all(t: Tables, infos: Seq<AreaInfo>) -> int
    decreases infos.len(),
{
    if infos.len() == 0 {
        0
    } else {
        cost_all(t, infos.drop_last()) + memory_set::cost_upto(
            tables_all(t, infos.drop_last()),
            infos.last().start,
            infos.last().end,
            infos.last().framed,
        )
    }
}

/// The tables that the trampoline needs.
pub open spec fn first_tables() -> Tables {
    (Tables { l1: Set::empty(), l2: Set::empty() }).with_page(TRAMPOLINE_VPN as int)
}

/// The frames of an address space with the trampoline and the areas: the root,
/// two more tables for the trampoline, and those of the areas.
pub open spec fn space_cost(infos: Seq<AreaInfo>) -> int {
    3 + cost_all(first_tables(), infos)
}

/// Page `v` belongs to one of the areas.
pub open spec fn in_areas(infos: Seq<AreaInfo>, v: int) -> bool {
    exists|k: int| 0 <= k < infos.len() && (#[trigger] infos[k]).start <= v < infos[k].end
}

/// The areas are ranges of pages with nothing in common, below the trampoline.
pub open spec fn layout_ok(infos: Seq<AreaInfo>) -> bool {
    &&& forall|k: int|
        0 <= k < infos.len() ==> 0 <= (#[trigger] infos[k]).start <= infos[k].end <= VPN_SPACE
            && !(infos[k].start <= TRAMPOLINE_VPN < infos[k].end)
    &&& forall|k: int, l: int, v: int|
        #![trigger infos[k], infos[l], in_areas(infos, v)]
        0 <= k < l < infos.len() && infos[k].start <= v < infos[k].end ==> !(infos[l].start <= v
            < infos[l].end)
}

/// The area is mapped, each page to the frame with its number or to one of its
/// own, and those hold the bytes, followed by zeros.
pub open spec fn area_in(s: &MemorySet, m: MemData, info: AreaInfo, data: Seq<u8>) -> bool {
    &&& forall|v: int|
        info.start <= v < info.end ==> (#[trigger] s.pages(m)[v]) == page_table::pte(
            if info.framed {
                page_table::pte_ppn(s.pages(m)[v])
            } else {
                v
            },
            page_table::with_valid(info.perm),
        )
    &&& info.framed ==> forall|v: int|
        info.start <= v < info.end ==> (#[trigger] s.page_bytes(m, v)) == bytes::splice(
            bytes::zeros(4096),
            0,
            memory_set::chunk(data, v - info.start),
        )
}

/// The address space holds the trampoline and these areas with these bytes, and
/// nothing else.
pub open spec fn built(
    s: &MemorySet,
    m: MemData,
    trampoline: int,
    infos: Seq<AreaInfo>,
    data: Seq<Seq<u8>>,
) -> bool {
    &&& s.wf(m)
    &&& s.infos() == infos
    &&& s.page_table.tables(m) == tables_all(first_tables(), infos)
    &&& forall|v: int| #[trigger]
        s.pages(m).contains_key(v) == (v == TRAMPOLINE_VPN || in_areas(infos, v))
    &&& s.pages(m)[TRAMPOLINE_VPN as int] == trampoline_entry(trampoline)
    &&& forall|k: int| 0 <= k < infos.len() ==> area_in(s, m, #[trigger] infos[k], data[k])
}

/// The address space lies in the first frames that were free; those that were in
/// use are as before.
pub open spec fn fresh(s: &MemorySet, m0: MemData, m1: MemData) -> bool {
    &&& m1.pages.dom() == m0.pages.dom()
    &&& forall|p: int| #[trigger] m0.used.contains(p) ==> m1.pages[p] == m0.pages[p]
    &&& forall|p: int| #[trigger] s.owns(p) ==> m0.free().contains(p)
    &&& forall|p: int| #[trigger] m1.used.contains(p) == (m0.used.contains(p) || s.owns(p))
    &&& m0.takes_lowest(m1)
}

proof fn lemma_fresh_kept(s0: MemorySet, s1: MemorySet, m0: MemData, m1: MemData, m2: MemData)
    requires
        fresh(&s0, m0, m1),
        memory_set::kept(&s0, m1, &s1, m2),
    ensures
        fresh(&s1, m0, m2),
{
    m0.lemma_takes_trans(m1, m2);
    assert forall|p: int| #[trigger] m0.used.contains(p) implies m2.pages[p] == m0.pages[p] by {
        assert(m1.used.contains(p));
        if s0.page_table.owned().contains(p) {
            assert(s0.owns(p));
        }
    }
    assert forall|p: int| #[trigger] s1.owns(p) implies m0.free().contains(p) by {
        if !s0.owns(p) {
            assert(m1.free().contains(p));
            assert(m1.pages.dom().contains(p));
            assert(!m0.used.contains(p));
        }
    }
    assert forall|p: int| #[trigger] m2.used.contains(p) == (m0.used.contains(p) || s1.owns(p)) by {
        if s0.owns(p) {
            assert(s1.owns(p));
        }
    }
}

/// The bytes of a page with a frame of its own stay where an area is added.
proof fn lemma_bytes_kept(s0: MemorySet, m0: MemData, s1: MemorySet, m1: MemData, k: int, v: int)
    requires
        s0.wf(m0),
        memory_set::kept(&s0, m0, &s1, m1),
        0 <= k < s0.areas@.len(),
        s0.areas@[k].info().framed,
        s0.areas@[k].has_page(v),
        s1.pages(m1)[v] == s0.pages(m0)[v],
    ensures
        s1.page_bytes(m1, v) == s0.page_bytes(m0, v),
{
    let a = s0.areas@[k];
    assert(a.settled(s0.page_table.pages(m0), m0.used, s0.page_table.owned()));
    assert(s0.page_table.pages(m0).contains_key(v));
    assert(a.frames().contains_key(v));
    page_table::lemma_pte(a.frames()[v], page_table::with_valid(a.info().perm));
}

/// Adding an area to what was built so far.
proof fn lemma_built_push(
    s0: MemorySet,
    m0: MemData,
    s1: MemorySet,
    m1: MemData,
    trampoline: int,
    infos: Seq<AreaInfo>,
    data: Seq<Seq<u8>>,
    info: AreaInfo,
    d: Seq<u8>,
)
    requires
        built(&s0, m0, trampoline, infos, data),
        data.len() == infos.len(),
        memory_set::pushed(&s0, m0, &s1, m1, info, d),
    ensures
        built(&s1, m1, trampoline, infos.push(info), data.push(d)),
{
    let all = infos.push(info);
    assert(all.drop_last() =~= infos);
    assert forall|v: int| #[trigger] s1.pages(m1).contains_key(v) == (v == TRAMPOLINE_VPN
        || in_areas(all, v)) by {
        assert(s0.pages(m0).contains_key(v) == (v == TRAMPOLINE_VPN || in_areas(infos, v)));
        if in_areas(infos, v) {
            let k = choose|k: int|
                0 <= k < infos.len() && (#[trigger] infos[k]).start <= v < infos[k].end;
            assert(all[k] == infos[k]);
        }
        if info.start <= v < info.end {
            assert(all[infos.len() as int] == info);
        }
        if in_areas(all, v) {
            let k = choose|k: int|
                0 <= k < all.len() && (#[trigger] all[k]).start <= v < all[k].end;
            if k < infos.len() {
                assert(infos[k] == all[k]);
            }
        }
    }
    assert(s0.pages(m0).contains_key(TRAMPOLINE_VPN as int));
    assert forall|k: int| 0 <= k < all.len() implies area_in(
        &s1,
        m1,
        #[trigger] all[k],
        data.push(d)[k],
    ) by {
        if k < infos.len() {
            let i = infos[k];
            assert(all[k] == i);
            assert(area_in(&s0, m0, infos[k], data[k]));
            assert(s0.areas@[k].info() == s0.infos()[k]);
            assert forall|v: int| i.start <= v < i.end implies (#[trigger] s1.pages(m1)[v])
                == s0.pages(m0)[v] by {
                assert(in_areas(infos, v));
                assert(s0.pages(m0).contains_key(v));
            }
            if i.framed {
                assert forall|v: int| i.start <= v < i.end implies (#[trigger] s1.page_bytes(m1, v))
                    == bytes::splice(
                    bytes::zeros(4096),
                    0,
                    memory_set::chunk(data[k], v - i.start),
                ) by {
                    assert(s1.pages(m1)[v] == s0.pages(m0)[v]);
                    lemma_bytes_kept(s0, m0, s1, m1, k, v);
                    assert(s0.page_bytes(m0, v) == bytes::splice(
                        bytes::zeros(4096),
                        0,
                        memory_set::chunk(data[k], v - i.start),
                    ));
                }
            }
        }
    }
}

pub proof fn lemma_cost_all(t: Tables, infos: Seq<AreaInfo>, n: int)
    requires
        0 <= n <= infos.len(),
    ensures
        cost_all(t, infos.take(n)) <= cost_all(t, infos),
    decreases infos.len(),
{
    if n < infos.len() {
        let last = infos.last();
        let most = infos.drop_last();
        assert(most.take(n) =~= infos.take(n));
        lemma_cost_all(t, most, n);
        memory_set::lemma_cost_monotonic(
            tables_all(t, most),
            last.start,
            last.start,
            if last.start <= last.end {
                last.end
            } else {
                last.start
            },
            last.framed,
        );
    } else {
        assert(infos.take(n) =~= infos);
    }
}

impl MemorySet {
    /// Maps the trampoline, which belongs to no area, to the frame of its code.
    pub fn map_trampoline(&mut self, strampoline: u64, mem: &mut PhysMemory)
        requires
            old(mem).wf(),
            old(self).wf(old(mem)@),
            strampoline % PAGE_SIZE == 0,
            !old(self).pages(old(mem)@).contains_key(TRAMPOLINE_VPN as int),
            old(self).page_table.tables(old(mem)@).missing(TRAMPOLINE_VPN as int) <= old(
                mem,
            )@.free().len(),
        ensures
            final(mem).wf(),
            final(mem).first() == old(mem).first(),
            final(self).wf(final(mem)@),
            final(self).page_table.root() == old(self).page_table.root(),
            final(self).infos() == old(self).infos(),
            final(self).page_table.tables(final(mem)@) == old(self).page_table.tables(
                old(mem)@,
            ).with_page(TRAMPOLINE_VPN as int),
            final(self).pages(final(mem)@) == old(self).pages(old(mem)@).insert(
                TRAMPOLINE_VPN as int,
                trampoline_entry(strampoline as int % PA_SPACE as int / 4096),
            ),
            memory_set::kept(old(self), old(mem)@, final(self), final(mem)@),
            final(mem)@.free().len() == old(mem)@.free().len() - old(self).page_table.tables(
                old(mem)@,
            ).missing(TRAMPOLINE_VPN as int),
    {
        let ghost s0 = *self;
        let ghost m0 = mem@;
        let vpn: VirtPageNum = VirtAddr::new(TRAMPOLINE).floor();
        let ppn: PhysPageNum = PhysAddr::new(strampoline).floor();
        assert(vpn.0 == TRAMPOLINE_VPN);
        let flags = PTEFlags { bits: MAP_R }.union(PTEFlags { bits: MAP_X });
        assert(0x02u8 | 0x08u8 == 0x0au8) by (bit_vector);
        self.page_table.map(mem, vpn, ppn, flags);
        proof {
            lemma_table_grew(s0, m0, *self, mem@, TRAMPOLINE_VPN as int);
            assert(self.infos() =~= s0.infos());
        }
    }

    /// An address space with the trampoline alone.
    pub(crate) fn with_trampoline(strampoline: u64, mem: &mut PhysMemory) -> (r: Self)
        requires
            old(mem).wf(),
            strampoline % PAGE_SIZE == 0,
            3 <= old(mem)@.free().len(),
        ensures
            final(mem).wf(),
            final(mem).first() == old(mem).first(),
            built(
                &r,
                final(mem)@,
                strampoline as int % PA_SPACE as int / 4096,
                Seq::<AreaInfo>::empty(),
                Seq::<Seq<u8>>::empty(),
            ),
            fresh(&r, old(mem)@, final(mem)@),
            final(mem)@.free().len() == old(mem)@.free().len() - 3,
    {
        let ghost m0 = mem@;
        let mut r = MemorySet::new_bare(mem);
        let ghost s1 = r;
        let ghost m1 = mem@;
        proof {
            assert forall|p: int| #[trigger] s1.owns(p) == (p == s1.page_table.root()) by {
                assert(s1.infos().len() == s1.areas@.len());
            }
            assert(m1.pages.dom() =~= m0.pages.dom());
            assert(fresh(&s1, m0, m1));
        }
        r.map_trampoline(strampoline, mem);
        proof {
            lemma_fresh_kept(s1, r, m0, m1, mem@);
        }
        r
    }

    /// Adds the next of a list of areas.
    pub(crate) fn push_next(
        &mut self,
        area: MapArea,
        d: Option<&[u8]>,
        mem: &mut PhysMemory,
        Ghost(m0): Ghost<MemData>,
        Ghost(trampoline): Ghost<int>,
        Ghost(infos): Ghost<Seq<AreaInfo>>,
        Ghost(data): Ghost<Seq<Seq<u8>>>,
        Ghost(n): Ghost<int>,
    )
        requires
            old(mem).wf(),
            layout_ok(infos),
            data.len() == infos.len(),
            space_cost(infos) <= m0.free().len(),
            0 <= n < infos.len(),
            built(old(self), old(mem)@, trampoline, infos.take(n), data.take(n)),
            fresh(old(self), m0, old(mem)@),
            old(mem)@.free().len() == m0.free().len() - space_cost(infos.take(n)),
            area.info() == infos[n],
            area.frames() == Map::<int, int>::empty(),
            memory_set::data_bytes(d) == data[n],
            d matches Some(b) ==> infos[n].framed && b@.len() <= (infos[n].end - infos[n].start)
                * PAGE_SIZE,
        ensures
            final(mem).wf(),
            final(mem).first() == old(mem).first(),
            built(final(self), final(mem)@, trampoline, infos.take(n + 1), data.take(n + 1)),
            fresh(final(self), m0, final(mem)@),
            final(mem)@.free().len() == m0.free().len() - space_cost(infos.take(n + 1)),
    {
        let ghost s1 = *self;
        let ghost m1 = mem@;
        proof {
            let done = infos.take(n);
            assert(infos.take(n + 1) =~= done.push(infos[n]));
            assert(data.take(n + 1) =~= data.take(n).push(data[n]));
            assert(infos.take(n + 1).drop_last() =~= done);
            lemma_cost_all(first_tables(), infos, n + 1);
            assert forall|v: int| infos[n].start <= v < infos[n].end implies !#[trigger] s1.pages(
                m1,
            ).contains_key(v) by {
                if in_areas(done, v) {
                    let k = choose|k: int|
                        0 <= k < done.len() && (#[trigger] done[k]).start <= v < done[k].end;
                    assert(infos[k] == done[k]);
                    assert(in_areas(infos, v));
                }
            }
        }
        self.push(area, d, mem);
        proof {
            lemma_built_push(
                s1,
                m1,
                *self,
                mem@,
                trampoline,
                infos.take(n),
                data.take(n),
                infos[n],
                data[n],
            );
            lemma_fresh_kept(s1, *self, m0, m1, mem@);
        }
    }
}

/// A page that belongs to no area was mapped.
proof fn lemma_table_grew(s0: MemorySet, m0: MemData, s1: MemorySet, m1: MemData, v0: int)
    requires
        s0.wf(m0),
        s1.areas@ == s0.areas@,
        s1.page_table.wf(m1),
        !s0.pages(m0).contains_key(v0),
        s1.pages(m1) == s0.pages(m0).insert(v0, s1.pages(m1)[v0]),
        page_table::grown(m0, s0.page_table.owned(), m1, s1.page_table.owned()),
    ensures
        s1.wf(m1),
        memory_set::kept(&s0, m0, &s1, m1),
{
    let own0 = s0.page_table.owned();
    let own1 = s1.page_table.owned();
    s0.page_table.lemma_wf(m0);
    assert forall|p: int| #[trigger] own1.contains(p) implies own0.contains(p)
        || m0.free().contains(p) by {
        if !own0.contains(p) {
            assert(own1.difference(own0).contains(p));
        }
    }
    assert forall|k: int| 0 <= k < s1.areas@.len() implies (#[trigger] s1.areas@[k]).settled(
        s1.page_table.pages(m1),
        m1.used,
        own1,
    ) by {
        let a = s0.areas@[k];
        assert(a.settled(s0.page_table.pages(m0), m0.used, own0));
        assert forall|v: int| a.info().start <= v < a.info().end implies #[trigger] s1.page_table.pages(
            m1,
        ).contains_key(v) && s1.page_table.pages(m1)[v] == a.entry(v) by {
            assert(s0.page_table.pages(m0).contains_key(v));
            assert(s1.pages(m1).contains_key(v));
        }
    }
    assert forall|p: int| #[trigger] s0.owns(p) implies s1.owns(p) by {
        if !own0.contains(p) {
            let k = choose|k: int|
                0 <= k < s0.areas@.len() && memory_set::held_in(
                    (#[trigger] s0.areas@[k]).frames(),
                    p,
                );
            assert(memory_set::held_in(s1.areas@[k].frames(), p));
        }
    }
    assert forall|p: int| #[trigger] s1.owns(p) implies s0.owns(p) || m0.free().contains(p) by {
        if !own1.contains(p) {
            let k = choose|k: int|
                0 <= k < s1.areas@.len() && memory_set::held_in(
                    (#[trigger] s1.areas@[k]).frames(),
                    p,
                );
            assert(memory_set::held_in(s0.areas@[k].frames(), p));
        }
    }
    assert forall|p: int| #[trigger] m1.used.contains(p) == (m0.used.contains(p) || s1.owns(
        p,
    )) by {
        if s1.owns(p) && !own1.contains(p) {
            let k = choose|k: int|
                0 <= k < s1.areas@.len() && memory_set::held_in(
                    (#[trigger] s1.areas@[k]).frames(),
                    p,
                );
            memory_set::lemma_held_once(s0, m0, k, p);
        }
    }
}

/// Where the parts of the kernel lie, as the linker placed them.
#[derive(Clone, Copy, Debug)]
pub struct KernelLayout {
    pub stext: u64,
    pub etext: u64,
    pub srodata: u64,
    pub erodata: u64,
    pub sdata: u64,
    pub edata: u64,
    pub sbss_with_stack: u64,
    pub ebss: u64,
    pub ekernel: u64,
    pub strampoline: u64,
}

/// An area of the kernel, mapped to the frames with the same numbers.
pub open spec fn kernel_info(start: u64, end: u64, perm: u8) -> AreaInfo {
    AreaInfo {
        start: address::floor_of(start as int % VA_SPACE as int),
        end: address::ceil_of(end as int % VA_SPACE as int),
        framed: false,
        perm,
    }
}

/// The areas of the kernel: code, constants, data, zeros with the boot stack, and
/// the rest of memory.
pub open spec fn kernel_infos(l: KernelLayout) -> Seq<AreaInfo> {
    seq![
        kernel_info(l.stext, l.etext, 0x0a),
        kernel_info(l.srodata, l.erodata, 0x02),
        kernel_info(l.sdata, l.edata, 0x06),
        kernel_info(l.sbss_with_stack, l.ebss, 0x06),
        kernel_info(l.ekernel, MEMORY_END, 0x06),
    ]
}

/// No bytes for any of `n` areas.
pub open spec fn no_data(n: nat) -> Seq<Seq<u8>> {
    Seq::new(n, |k: int| Seq::<u8>::empty())
}

impl MemorySet {
    /// Adds one of the kernel's areas.
    fn push_kernel(
        &mut self,
        start: u64,
        end: u64,
        perm: u8,
        mem: &mut PhysMemory,
        Ghost(m0): Ghost<MemData>,
        Ghost(l): Ghost<KernelLayout>,
        Ghost(n): Ghost<int>,
    )
        requires
            old(mem).wf(),
            layout_ok(kernel_infos(l)),
            space_cost(kernel_infos(l)) <= m0.free().len(),
            0 <= n < 5,
            built(
                old(self),
                old(mem)@,
                l.strampoline as int % PA_SPACE as int / 4096,
                kernel_infos(l).take(n),
                no_data(5).take(n),
            ),
            fresh(old(self), m0, old(mem)@),
            old(mem)@.free().len() == m0.free().len() - space_cost(kernel_infos(l).take(n)),
            kernel_info(start, end, perm) == kernel_infos(l)[n],
        ensures
            final(mem).wf(),
            final(mem).first() == old(mem).first(),
            built(
                final(self),
                final(mem)@,
                l.strampoline as int % PA_SPACE as int / 4096,
                kernel_infos(l).take(n + 1),
                no_data(5).take(n + 1),
            ),
            fresh(final(self), m0, final(mem)@),
            final(mem)@.free().len() == m0.free().len() - space_cost(kernel_infos(l).take(n + 1)),
    {
        assert(kernel_infos(l)[n].start <= kernel_infos(l)[n].end);
        let area = MapArea::new(
            VirtAddr::new(start),
            VirtAddr::new(end),
            MapType::Identical,
            MapPermission { bits: perm },
        );
        self.push_next(
            area,
            None,
            mem,
            Ghost(m0),
            Ghost(l.strampoline as int % PA_SPACE as int / 4096),
            Ghost(kernel_infos(l)),
            Ghost(no_data(5)),
            Ghost(n),
        );
    }

    /// The address space of the kernel, without kernel stacks.
    pub fn new_kernel(l: &KernelLayout, mem: &mut PhysMemory) -> (r: Self)
        requires
            old(mem).wf(),
            l.strampoline % PAGE_SIZE == 0,
            layout_ok(kernel_infos(*l)),
            space_cost(kernel_infos(*l)) <= old(mem)@.free().len(),
        ensures
            final(mem).wf(),
            final(mem).first() == old(mem).first(),
            built(
                &r,
                final(mem)@,
                l.strampoline as int % PA_SPACE as int / 4096,
                kernel_infos(*l),
                no_data(5),
            ),
            fresh(&r, old(mem)@, final(mem)@),
            final(mem)@.free().len() == old(mem)@.free().len() - space_cost(kernel_infos(*l)),
    {
        let ghost m0 = mem@;
        let ghost g = *l;
        let ghost infos = kernel_infos(g);
        proof {
            lemma_cost_all(first_tables(), infos, 0);
            assert(infos.take(0) =~= Seq::<AreaInfo>::empty());
            assert(no_data(5).take(0) =~= Seq::<Seq<u8>>::empty());
            assert(infos.take(5) =~= infos);
            assert(no_data(5).take(5) =~= no_data(5));
            assert(0x02u8 | 0x08u8 == 0x0au8) by (bit_vector);
            assert(0x02u8 | 0x04u8 == 0x06u8) by (bit_vector);
        }
        let mut r = MemorySet::with_trampoline(l.strampoline, mem);
        r.push_kernel(l.stext, l.etext, MAP_R | MAP_X, mem, Ghost(m0), Ghost(g), Ghost(0));
        r.push_kernel(l.srodata, l.erodata, MAP_R, mem, Ghost(m0), Ghost(g), Ghost(1));
        r.push_kernel(l.sdata, l.edata, MAP_R | MAP_W, mem, Ghost(m0), Ghost(g), Ghost(2));
        r.push_kernel(
            l.sbss_with_stack,
            l.ebss,
            MAP_R | MAP_W,
            mem,
            Ghost(m0),
            Ghost(g),
            Ghost(3),
        );
        r.push_kernel(l.ekernel, MEMORY_END, MAP_R | MAP_W, mem, Ghost(m0), Ghost(g), Ghost(4));
        r
    }
}

/// The bottom and the top of the kernel stack of a program: below the trampoline
/// and the stacks of the programs before it, with a guard page above each.
pub fn kernel_stack_position(app_id: u64) -> (r: (u64, u64))
    requires
        app_id * (KERNEL_STACK_SIZE + PAGE_SIZE) + KERNEL_STACK_SIZE <= TRAMPOLINE,
    ensures
        r.1 == TRAMPOLINE - app_id * (KERNEL_STACK_SIZE + PAGE_SIZE),
        r.0 == r.1 - KERNEL_STACK_SIZE,
{
    let top: u64 = TRAMPOLINE - app_id * (KERNEL_STACK_SIZE + PAGE_SIZE);
    let bottom: u64 = top - KERNEL_STACK_SIZE;
    (bottom, top)
}

/// Kernel stacks of two programs have a guard page between them.
pub proof fn law_stacks_apart(a: int, b: int)
    requires
        0 <= a < b,
    ensures
        TRAMPOLINE - b * (KERNEL_STACK_SIZE + PAGE_SIZE) + PAGE_SIZE <= TRAMPOLINE - a * (
        KERNEL_STACK_SIZE + PAGE_SIZE) - KERNEL_STACK_SIZE,
{
    let step = KERNEL_STACK_SIZE + PAGE_SIZE;
    assert(b * step >= a * step + step) by (nonlinear_arith)
        requires
            a < b,
            step > 0,
    ;
}

/// The page in the middle of two addresses.
pub open spec fn middle_page(start: u64, end: u64) -> int {
    address::floor_of((start + end) / 2 % VA_SPACE as int)
}

/// There is an entry for the page without the flag.
pub open spec fn lacks(m: MemData, root: int, v: int, flag: u8) -> bool {
    page_table::lookup(m, root, v) matches Some(bits) && page_table::pte_flags(bits) & flag == 0
}

/// The middle of the code and of the constants is not writable, and the middle of
/// the data is not executable.
pub open spec fn protected(m: MemData, root: int, l: KernelLayout) -> bool {
    &&& lacks(m, root, middle_page(l.stext, l.etext), 0x04)
    &&& lacks(m, root, middle_page(l.srodata, l.erodata), 0x04)
    &&& lacks(m, root, middle_page(l.sdata, l.edata), 0x08)
}

/// The entry of the page in the middle of two addresses.
fn middle_entry(space: &MemorySet, start: u64, end: u64, mem: &PhysMemory) -> (r: Option<
    PageTableEntry,
>)
    requires
        mem.wf(),
        space.wf(mem@),
        start + end <= u64::MAX,
    ensures
        match page_table::lookup(mem@, space.page_table.root(), middle_page(start, end)) {
            Some(bits) => r == Some(PageTableEntry { bits }),
            None => r is None,
        },
{
    proof {
        space.page_table.lemma_wf(mem@);
    }
    space.translate(mem, VirtAddr::new((start + end) / 2).floor())
}

/// Whether the kernel's address space protects code, constants and data.
pub fn remap_test(kernel_space: &MemorySet, l: &KernelLayout, mem: &PhysMemory) -> (r: bool)
    requires
        mem.wf(),
        kernel_space.wf(mem@),
        l.stext + l.etext <= u64::MAX,
        l.srodata + l.erodata <= u64::MAX,
        l.sdata + l.edata <= u64::MAX,
    ensures
        r == protected(mem@, kernel_space.page_table.root(), *l),
{
    match middle_entry(kernel_space, l.stext, l.etext, mem) {
        Some(e) => {
            if e.writable() {
                return false;
            }
        },
        None => {
            return false;
        },
    }
    match middle_entry(kernel_space, l.srodata, l.erodata, mem) {
        Some(e) => {
            if e.writable() {
                return false;
            }
        },
        None => {
            return false;
        },
    }
    match middle_entry(kernel_space, l.sdata, l.edata, mem) {
        Some(e) => !e.executable(),
        None => false,
    }
}

/// An entry of the kernel's area `k`.
proof fn lemma_kernel_entry(
    s: MemorySet,
    m: MemData,
    trampoline: int,
    infos: Seq<AreaInfo>,
    data: Seq<Seq<u8>>,
    k: int,
    v: int,
)
    requires
        built(&s, m, trampoline, infos, data),
        0 <= k < infos.len(),
        !infos[k].framed,
        infos[k].start <= v < infos[k].end,
    ensures
        page_table::lookup(m, s.page_table.root(), v) == Some(
            page_table::pte(v, page_table::with_valid(infos[k].perm)),
        ),
        page_table::pte_flags(page_table::pte(v, page_table::with_valid(infos[k].perm)))
            == page_table::with_valid(infos[k].perm),
{
    assert(in_areas(infos, v));
    assert(s.pages(m).contains_key(v));
    assert(s.page_table.pages(m).contains_key(v));
    assert(area_in(&s, m, infos[k], data[k]));
    s.page_table.lemma_wf(m);
    assert(s.areas@[k].info() == s.infos()[k]);
    assert(s.areas@[k].settled(s.page_table.pages(m), m.used, s.page_table.owned()));
    assert(page_table::lookup(m, s.page_table.root(), v) == Some(s.page_table.pages(m)[v]));
    assert(s.pages(m)[v] == page_table::pte(v, page_table::with_valid(infos[k].perm)));
    page_table::lemma_pte(v, page_table::with_valid(infos[k].perm));
}

/// The page in the middle lies between the pages of the addresses.
proof fn lemma_middle(start: u64, end: u64)
    requires
        start < end < VA_SPACE,
    ensures
        kernel_info(start, end, 0).start <= middle_page(start, end) < kernel_info(start, end, 0).end,
{
    let mid = (start + end) / 2;
    assert(start <= mid < end);
    assert(start as int % VA_SPACE as int == start);
    assert(end as int % VA_SPACE as int == end);
    assert(mid % VA_SPACE as int == mid);
}

/// The address space of the kernel protects code, constants and data, where each
/// of them has a byte.
pub proof fn law_kernel_protected(
    s: MemorySet,
    m: MemData,
    trampoline: int,
    l: KernelLayout,
    data: Seq<Seq<u8>>,
)
    requires
        built(&s, m, trampoline, kernel_infos(l), data),
        l.stext < l.etext < VA_SPACE,
        l.srodata < l.erodata < VA_SPACE,
        l.sdata < l.edata < VA_SPACE,
    ensures
        protected(m, s.page_table.root(), l),
{
    let infos = kernel_infos(l);
    let root = s.page_table.root();
    assert(0x0bu8 & 0x04u8 == 0 && 0x03u8 & 0x04u8 == 0 && 0x07u8 & 0x08u8 == 0) by (bit_vector);
    assert(lacks(m, root, middle_page(l.stext, l.etext), 0x04)) by {
        lemma_middle(l.stext, l.etext);
        assert(infos[0] == kernel_info(l.stext, l.etext, 0x0a));
        lemma_kernel_entry(s, m, trampoline, infos, data, 0, middle_page(l.stext, l.etext));
    }
    assert(lacks(m, root, middle_page(l.srodata, l.erodata), 0x04)) by {
        lemma_middle(l.srodata, l.erodata);
        assert(infos[1] == kernel_info(l.srodata, l.erodata, 0x02));
        lemma_kernel_entry(s, m, trampoline, infos, data, 1, middle_page(l.srodata, l.erodata));
    }
    assert(lacks(m, root, middle_page(l.sdata, l.edata), 0x08)) by {
        lemma_middle(l.sdata, l.edata);
        assert(infos[2] == kernel_info(l.sdata, l.edata, 0x06));
        lemma_kernel_entry(s, m, trampoline, infos, data, 2, middle_page(l.sdata, l.edata));
    }
}

} // verus!
