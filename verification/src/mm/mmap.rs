//! Mapping and unmapping ranges of an address space.
use super::address;
use super::address::{VPNRange, VirtAddr, VirtPageNum, VA_SPACE};
use super::frame_allocator::{MemData, PhysMemory};
use super::laws;
use super::memory_set;
use super::memory_set::{AreaInfo, MapArea, MapPermission, MemorySet};
use super::page_table::PageTable;
use crate::config::PAGE_SIZE;
use vstd::prelude::*;

verus! {

/// Whether an area has a page in common with the pages from `s` to before `e`.
pub open spec fn conflicts(infos: Seq<AreaInfo>, s: int, e: int) -> bool {
    exists|k: int|
        0 <= k < infos.len() && (#[trigger] infos[k]).start < e && s < infos[k].end
}

/// Whether an area lies in the pages from `s` to before `e`.
pub open spec fn inside(info: AreaInfo, s: int, e: int) -> bool {
    s <= info.start && info.end <= e
}

/// Page `v` belongs to one of the first `n` areas that lie in the range.
pub open spec fn within(infos: Seq<AreaInfo>, s: int, e: int, n: int, v: int) -> bool {
    exists|k: int|
        0 <= k < n && inside(#[trigger] infos[k], s, e) && infos[k].start <= v < infos[k].end
}

/// Page `v` belongs to an area that lies in the range and ends by `cur`.
spec fn reached(infos: Seq<AreaInfo>, s: int, e: int, cur: int, v: int) -> bool {
    exists|k: int|
        0 <= k < infos.len() && inside(#[trigger] infos[k], s, e) && infos[k].start <= v
            < infos[k].end <= cur
}

/// Every page of the range belongs to an area that lies in it.
pub open spec fn covered(infos: Seq<AreaInfo>, s: int, e: int) -> bool {
    forall|v: int| s <= v < e ==> #[trigger] within(infos, s, e, infos.len() as int, v)
}

/// Area `k` lies in the range, has no page, and stands between two pages of
/// area `l`, which lies in the range too.
pub open spec fn splits(infos: Seq<AreaInfo>, s: int, e: int, k: int, l: int) -> bool {
    &&& inside(infos[k], s, e)
    &&& inside(infos[l], s, e)
    &&& infos[k].start == infos[k].end
    &&& infos[l].start < infos[k].start < infos[l].end
}

/// The range is made up of whole areas: they cover it one after the other.
pub open spec fn whole(infos: Seq<AreaInfo>, s: int, e: int) -> bool {
    &&& s <= e
    &&& covered(infos, s, e)
    &&& forall|k: int, l: int|
        0 <= k < infos.len() && 0 <= l < infos.len() ==> !#[trigger] splits(infos, s, e, k, l)
}

/// The areas that do not lie in the range.
pub open spec fn others(infos: Seq<AreaInfo>, s: int, e: int) -> Seq<AreaInfo>
    decreases infos.len(),
{
    if infos.len() == 0 {
        Seq::empty()
    } else if inside(infos.last(), s, e) {
        others(infos.drop_last(), s, e)
    } else {
        others(infos.drop_last(), s, e).push(infos.last())
    }
}

/// The pages with frames of their own in the areas that lie in the range.
pub open spec fn framed_pages(infos: Seq<AreaInfo>, s: int, e: int) -> int
    decreases infos.len(),
{
    if infos.len() == 0 {
        0
    } else {
        framed_pages(infos.drop_last(), s, e) + (if inside(infos.last(), s, e)
            && infos.last().framed {
            infos.last().end - infos.last().start
        } else {
            0
        })
    }
}

/// An area was unmapped and removed.
proof fn lemma_removed(
    s0: MemorySet,
    m0: MemData,
    s1: MemorySet,
    m1: MemData,
    a1: MapArea,
    k: int,
)
    requires
        s0.wf(m0),
        0 <= k < s0.areas@.len(),
        s1.areas@ == s0.areas@.remove(k),
        memory_set::unmapped_range(
            s0.areas@[k],
            s0.page_table,
            m0,
            a1,
            s1.page_table,
            m1,
            s0.areas@[k].info().start,
            s0.areas@[k].info().end,
        ),
    ensures
        s1.wf(m1),
        memory_set::shrunk(&s0, m0, &s1, m1),
        s1.infos() == s0.infos().remove(k),
{
    let a0 = s0.areas@[k];
    let own = s0.page_table.owned();
    assert(a0.settled(s0.page_table.pages(m0), m0.used, own));
    s0.page_table.lemma_wf(m0);
    assert forall|p: int| memory_set::held_between(
        a0.frames(),
        a0.info().start,
        a0.info().end,
        p,
    ) == #[trigger] memory_set::held_in(a0.frames(), p) by {
        if memory_set::held_in(a0.frames(), p) {
            let v = choose|v: int| #[trigger] a0.frames().contains_key(v) && a0.frames()[v] == p;
            assert(a0.frames().contains_key(v) && a0.info().start <= v < a0.info().end);
        }
    }
    assert forall|l: int| 0 <= l < s1.areas@.len() implies (#[trigger] s1.areas@[l]).settled(
        s1.page_table.pages(m1),
        m1.used,
        s1.page_table.owned(),
    ) by {
        let o = if l < k {
            l
        } else {
            l + 1
        };
        let a = s0.areas@[o];
        assert(s1.areas@[l] == a);
        assert(a.settled(s0.page_table.pages(m0), m0.used, own));
        assert forall|v: int|
            a.info().start <= v < a.info().end implies #[trigger] s1.page_table.pages(
            m1,
        ).contains_key(v) && s1.page_table.pages(m1)[v] == a.entry(v) by {
            assert(s0.page_table.pages(m0).contains_key(v));
            assert(s0.areas@[o].info() == a.info() && s0.areas@[k].info() == a0.info());
            assert(s0.areas@[o].has_page(v));
            assert(!s0.areas@[k].has_page(v));
        }
        assert forall|v: int| #[trigger] a.frames().contains_key(v) implies m1.used.contains(
            a.frames()[v],
        ) by {
            let p = a.frames()[v];
            if memory_set::held_in(a0.frames(), p) {
                memory_set::lemma_held_once(s0, m0, k, p);
                assert(memory_set::held_in(s0.areas@[o].frames(), p));
            }
        }
    }
    assert forall|x: int, y: int, v: int|
        #![trigger s1.areas@[x].info(), s1.areas@[y].info(), s1.areas@[x].has_page(v)]
        0 <= x < s1.areas@.len() && 0 <= y < s1.areas@.len() && x != y && s1.areas@[x].has_page(
            v,
        ) implies !s1.areas@[y].has_page(v) by {
        let ox = if x < k {
            x
        } else {
            x + 1
        };
        let oy = if y < k {
            y
        } else {
            y + 1
        };
        assert(s0.areas@[ox].info() == s1.areas@[x].info());
        assert(s0.areas@[oy].info() == s1.areas@[y].info());
        assert(s0.areas@[ox].has_page(v));
    }
    assert forall|x: int, y: int, v: int, w: int|
        0 <= x < s1.areas@.len() && 0 <= y < s1.areas@.len() && x != y
            && #[trigger] s1.areas@[x].frames().contains_key(v)
            && #[trigger] s1.areas@[y].frames().contains_key(w) implies s1.areas@[x].frames()[v]
        != s1.areas@[y].frames()[w] by {
        let ox = if x < k {
            x
        } else {
            x + 1
        };
        let oy = if y < k {
            y
        } else {
            y + 1
        };
        assert(s0.areas@[ox].frames().contains_key(v));
        assert(s0.areas@[oy].frames().contains_key(w));
    }
    assert(s1.infos() =~= s0.infos().remove(k));
    assert forall|p: int| #[trigger] s1.owns(p) == (s0.owns(p) && !memory_set::held_in(
        a0.frames(),
        p,
    )) by {
        if s1.owns(p) {
            if s1.page_table.owned().contains(p) {
                if memory_set::held_in(a0.frames(), p) {
                    memory_set::lemma_held_once(s0, m0, k, p);
                }
            } else {
                let l = choose|l: int|
                    0 <= l < s1.areas@.len() && memory_set::held_in(
                        (#[trigger] s1.areas@[l]).frames(),
                        p,
                    );
                let o = if l < k {
                    l
                } else {
                    l + 1
                };
                assert(memory_set::held_in(s0.areas@[o].frames(), p));
                if memory_set::held_in(a0.frames(), p) {
                    memory_set::lemma_held_once(s0, m0, k, p);
                }
            }
        }
        if s0.owns(p) && !memory_set::held_in(a0.frames(), p) && !own.contains(p) {
            let o = choose|o: int|
                0 <= o < s0.areas@.len() && memory_set::held_in(
                    (#[trigger] s0.areas@[o]).frames(),
                    p,
                );
            let l = if o < k {
                o
            } else {
                o - 1
            };
            assert(o != k);
            assert(memory_set::held_in(s1.areas@[l].frames(), p));
        }
    }
    assert forall|p: int| #[trigger] m1.used.contains(p) == (m0.used.contains(p) && (s0.owns(p)
        ==> s1.owns(p))) by {
        assert(s1.owns(p) == (s0.owns(p) && !memory_set::held_in(a0.frames(), p)));
        if memory_set::held_in(a0.frames(), p) {
            assert(memory_set::held_in(s0.areas@[k].frames(), p));
            assert(s0.owns(p));
        }
    }
}

/// Two steps of giving pages up make one.
proof fn lemma_shrunk_trans(
    s0: MemorySet,
    m0: MemData,
    s1: MemorySet,
    m1: MemData,
    s2: MemorySet,
    m2: MemData,
)
    requires
        memory_set::shrunk(&s0, m0, &s1, m1),
        memory_set::shrunk(&s1, m1, &s2, m2),
    ensures
        memory_set::shrunk(&s0, m0, &s2, m2),
{
    assert forall|p: int| #[trigger]
        m0.pages.contains_key(p) && !s0.page_table.owned().contains(p) implies m2.pages[p]
        == m0.pages[p] by {
        assert(m1.pages.dom().contains(p));
        assert(m1.pages.contains_key(p));
    }
    assert forall|p: int| #[trigger] s2.owns(p) implies s0.owns(p) by {
        assert(s1.owns(p));
    }
    assert forall|p: int| #[trigger] m2.used.contains(p) == (m0.used.contains(p) && (s0.owns(p)
        ==> s2.owns(p))) by {
        assert(m1.used.contains(p) == (m0.used.contains(p) && (s0.owns(p) ==> s1.owns(p))));
        if s2.owns(p) {
            assert(s1.owns(p));
        }
        if s1.owns(p) {
            assert(s0.owns(p));
        }
    }
}

impl MemorySet {
    /// Unmaps an area and removes it.
    fn remove_area(&mut self, k: usize, mem: &mut PhysMemory)
        requires
            old(mem).wf(),
            old(self).wf(old(mem)@),
            k < old(self).areas@.len(),
        ensures
            final(mem).wf(),
            final(mem).first() == old(mem).first(),
            final(self).wf(final(mem)@),
            final(self).page_table.root() == old(self).page_table.root(),
            final(self).infos() == old(self).infos().remove(k as int),
            final(self).areas@ == old(self).areas@.remove(k as int),
            memory_set::shrunk(old(self), old(mem)@, final(self), final(mem)@),
            final(self).pages(final(mem)@) == memory_set::pages_without(
                old(self).pages(old(mem)@),
                old(self).infos()[k as int].start,
                old(self).infos()[k as int].end,
            ),
            final(mem)@.free().len() == old(mem)@.free().len() + (if old(
                self,
            ).infos()[k as int].framed {
                old(self).infos()[k as int].end - old(self).infos()[k as int].start
            } else {
                0
            }),
    {
        let ghost s0 = *self;
        let ghost m0 = mem@;
        proof {
            assert(self.areas@[k as int].settled(
                self.page_table.pages(m0),
                m0.used,
                self.page_table.owned(),
            ));
        }
        let mut area = self.areas.remove(k);
        area.unmap(&mut self.page_table, mem);
        proof {
            lemma_removed(s0, m0, *self, mem@, area, k as int);
        }
    }

    /// Whether an area has a page in common with the range.
    fn has_conflict(&self, range: &VPNRange) -> (r: bool)
        ensures
            r == conflicts(self.infos(), range.start.0 as int, range.end.0 as int),
    {
        let mut k: usize = 0;
        while k < self.areas.len()
            invariant
                k <= self.areas@.len(),
                forall|l: int|
                    0 <= l < k ==> !((#[trigger] self.infos()[l]).start < range.end.0
                        && range.start.0 < self.infos()[l].end),
            decreases self.areas@.len() - k,
        {
            if self.areas[k].overlaps(range) {
                assert(self.infos()[k as int] == self.areas@[k as int].info());
                return true;
            }
            k += 1;
        }
        false
    }

    /// Maps the pages between two addresses to frames of their own. Fails if the
    /// addresses are in the wrong order, or an area has one of the pages.
    pub fn mmap(
        &mut self,
        start: VirtAddr,
        end: VirtAddr,
        perm: MapPermission,
        mem: &mut PhysMemory,
    ) -> (r: Result<(), ()>)
        requires
            old(mem).wf(),
            old(self).wf(old(mem)@),
            start.0 < VA_SPACE,
            end.0 < VA_SPACE,
            ({
                let info = memory_set::framed_info(start, end, perm);
                info.start <= info.end && !conflicts(old(self).infos(), info.start, info.end)
                    ==> memory_set::can_push(old(self), old(mem)@, info)
            }),
        ensures
            final(mem).wf(),
            final(mem).first() == old(mem).first(),
            ({
                let info = memory_set::framed_info(start, end, perm);
                if info.start <= info.end && !conflicts(old(self).infos(), info.start, info.end) {
                    &&& r is Ok
                    &&& memory_set::pushed(
                        old(self),
                        old(mem)@,
                        final(self),
                        final(mem)@,
                        info,
                        Seq::<u8>::empty(),
                    )
                } else {
                    &&& r is Err
                    &&& *final(self) == *old(self)
                    &&& final(mem)@ == old(mem)@
                }
            }),
    {
        let start_vpn: VirtPageNum = start.floor();
        let end_vpn: VirtPageNum = end.ceil();
        if start_vpn.0 > end_vpn.0 {
            return Err(());
        }
        if self.has_conflict(&VPNRange::new(start_vpn, end_vpn)) {
            return Err(());
        }
        self.insert_framed_area(start, end, perm, mem);
        Ok(())
    }

    /// The end of the area in the range that starts at `cur` and has a page.
    fn next_end(&self, range: &VPNRange, cur: u64) -> (r: Option<u64>)
        ensures
            match r {
                Some(e) => exists|k: int|
                    0 <= k < self.infos().len() && inside(
                        #[trigger] self.infos()[k],
                        range.start.0 as int,
                        range.end.0 as int,
                    ) && self.infos()[k].start == cur < self.infos()[k].end == e,
                None => forall|k: int|
                    0 <= k < self.infos().len() && inside(
                        #[trigger] self.infos()[k],
                        range.start.0 as int,
                        range.end.0 as int,
                    ) && self.infos()[k].start == cur ==> self.infos()[k].end <= cur,
            },
    {
        let mut k: usize = 0;
        while k < self.areas.len()
            invariant
                k <= self.areas@.len(),
                forall|l: int|
                    0 <= l < k && inside(
                        #[trigger] self.infos()[l],
                        range.start.0 as int,
                        range.end.0 as int,
                    ) && self.infos()[l].start == cur ==> self.infos()[l].end <= cur,
            decreases self.areas@.len() - k,
        {
            let area = &self.areas[k];
            assert(self.infos()[k as int] == area.info());
            if area.belongs_to(range) && area.range().get_start().0 == cur
                && area.range().get_end().0 > cur {
                return Some(area.range().get_end().0);
            }
            k += 1;
        }
        None
    }

    /// Whether every page of the range belongs to an area that lies in it.
    fn is_covered(&self, range: &VPNRange, Ghost(m): Ghost<MemData>) -> (r: bool)
        requires
            self.wf(m),
            range.start.0 <= range.end.0,
        ensures
            r == covered(self.infos(), range.start.0 as int, range.end.0 as int),
    {
        let ghost infos = self.infos();
        let ghost n = infos.len() as int;
        let ghost s = range.start.0 as int;
        let ghost e = range.end.0 as int;
        let mut cur: u64 = range.get_start().0;
        while cur < range.get_end().0
            invariant
                s == range.start.0 <= cur <= range.end.0 == e,
                infos == self.infos(),
                n == infos.len(),
                self.wf(m),
                forall|v: int| s <= v < cur ==> #[trigger] reached(infos, s, e, cur as int, v),
            decreases range.end.0 - cur,
        {
            match self.next_end(range, cur) {
                Some(end) => {
                    proof {
                        let k0 = choose|k: int|
                            0 <= k < self.infos().len() && inside(
                                #[trigger] self.infos()[k],
                                range.start.0 as int,
                                range.end.0 as int,
                            ) && self.infos()[k].start == cur < self.infos()[k].end == end;
                        assert forall|v: int| s <= v < end implies #[trigger] reached(
                            infos,
                            s,
                            e,
                            end as int,
                            v,
                        ) by {
                            if v < cur {
                                assert(reached(infos, s, e, cur as int, v));
                                let k = choose|k: int|
                                    0 <= k < n && inside(#[trigger] infos[k], s, e)
                                        && infos[k].start <= v < infos[k].end <= cur;
                                assert(inside(infos[k], s, e));
                            } else {
                                assert(inside(infos[k0], s, e));
                            }
                        }
                    }
                    cur = end;
                },
                None => {
                    proof {
                        let c = cur as int;
                        if within(infos, s, e, n, c) {
                            let l = choose|l: int|
                                0 <= l < n && inside(#[trigger] infos[l], s, e) && infos[l].start
                                    <= c < infos[l].end;
                            assert(infos[l].start < c);
                            assert(reached(infos, s, e, c, c - 1));
                            let k = choose|k: int|
                                0 <= k < n && inside(#[trigger] infos[k], s, e) && infos[k].start
                                    <= c - 1 < infos[k].end <= cur;
                            assert(self.areas@[l].info() == infos[l]);
                            assert(self.areas@[k].info() == infos[k]);
                            assert(self.areas@[k].has_page(c - 1));
                            assert(self.areas@[l].has_page(c - 1));
                            assert(memory_set::disjoint(self.areas@));
                        }
                        assert(!within(infos, s, e, n, c));
                    }
                    return false;
                },
            }
        }
        assert forall|v: int| s <= v < e implies #[trigger] within(infos, s, e, n, v) by {
            assert(reached(infos, s, e, cur as int, v));
            let k = choose|k: int|
                0 <= k < n && inside(#[trigger] infos[k], s, e) && infos[k].start <= v
                    < infos[k].end <= cur;
            assert(inside(infos[k], s, e));
        }
        true
    }

    /// Whether an area without pages in the range stands between two pages of
    /// another area in it.
    fn has_split(&self, range: &VPNRange) -> (r: bool)
        ensures
            r == exists|k: int, l: int|
                0 <= k < self.infos().len() && 0 <= l < self.infos().len() && #[trigger] splits(
                    self.infos(),
                    range.start.0 as int,
                    range.end.0 as int,
                    k,
                    l,
                ),
    {
        let ghost infos = self.infos();
        let ghost s = range.start.0 as int;
        let ghost e = range.end.0 as int;
        let mut k: usize = 0;
        while k < self.areas.len()
            invariant
                k <= self.areas@.len(),
                infos == self.infos(),
                s == range.start.0,
                e == range.end.0,
                forall|x: int, y: int|
                    0 <= x < k && 0 <= y < infos.len() ==> !#[trigger] splits(infos, s, e, x, y),
            decreases self.areas@.len() - k,
        {
            let a = &self.areas[k];
            let start: u64 = a.range().get_start().0;
            assert(infos[k as int] == a.info());
            if a.belongs_to(range) && start == a.range().get_end().0 {
                let mut l: usize = 0;
                while l < self.areas.len()
                    invariant
                        k < self.areas@.len(),
                        l <= self.areas@.len(),
                        infos == self.infos(),
                        s == range.start.0,
                        e == range.end.0,
                        start == infos[k as int].start == infos[k as int].end,
                        inside(infos[k as int], s, e),
                        forall|y: int|
                            0 <= y < l ==> !#[trigger] splits(infos, s, e, k as int, y),
                    decreases self.areas@.len() - l,
                {
                    let b = &self.areas[l];
                    assert(infos[l as int] == b.info());
                    if b.belongs_to(range) && b.range().get_start().0 < start && start
                        < b.range().get_end().0 {
                        assert(splits(infos, s, e, k as int, l as int));
                        return true;
                    }
                    l += 1;
                }
            }
            k += 1;
        }
        false
    }

    /// Unmaps the pages between two addresses. Fails if they are not made up of
    /// whole areas.
    pub fn munmap(&mut self, start: VirtAddr, end: VirtAddr, mem: &mut PhysMemory) -> (r: Result<
        (),
        (),
    >)
        requires
            old(mem).wf(),
            old(self).wf(old(mem)@),
            end.0 <= u64::MAX - PAGE_SIZE,
        ensures
            final(mem).wf(),
            final(mem).first() == old(mem).first(),
            ({
                let s = address::floor_of(start.0 as int);
                let e = address::ceil_of(end.0 as int);
                let infos = old(self).infos();
                if whole(infos, s, e) {
                    &&& r is Ok
                    &&& final(self).wf(final(mem)@)
                    &&& final(self).page_table.root() == old(self).page_table.root()
                    &&& final(self).infos() == others(infos, s, e)
                    &&& final(self).pages(final(mem)@) == memory_set::pages_without(
                        old(self).pages(old(mem)@),
                        s,
                        e,
                    )
                    &&& memory_set::shrunk(old(self), old(mem)@, final(self), final(mem)@)
                    &&& final(mem)@.free().len() == old(mem)@.free().len() + framed_pages(
                        infos,
                        s,
                        e,
                    )
                } else {
                    &&& r is Err
                    &&& *final(self) == *old(self)
                    &&& final(mem)@ == old(mem)@
                }
            }),
    {
        let start_vpn: VirtPageNum = start.floor();
        let end_vpn: VirtPageNum = end.ceil();
        if start_vpn.0 > end_vpn.0 {
            return Err(());
        }
        let range = VPNRange::new(start_vpn, end_vpn);
        if !self.is_covered(&range, Ghost(mem@)) || self.has_split(&range) {
            return Err(());
        }
        self.remove_inside(&range, mem);
        proof {
            let s = start_vpn.0 as int;
            let e = end_vpn.0 as int;
            let infos = old(self).infos();
            let p0 = old(self).pages(old(mem)@);
            assert forall|v: int| s <= v < e implies within(
                infos,
                s,
                e,
                infos.len() as int,
                v,
            ) by {}
            assert(self.pages(mem@) =~= memory_set::pages_without(p0, s, e));
        }
        Ok(())
    }

    /// Unmaps and removes the areas that lie in the range.
    fn remove_inside(&mut self, range: &VPNRange, mem: &mut PhysMemory)
        requires
            old(mem).wf(),
            old(self).wf(old(mem)@),
        ensures
            final(mem).wf(),
            final(mem).first() == old(mem).first(),
            final(self).wf(final(mem)@),
            final(self).page_table.root() == old(self).page_table.root(),
            final(self).infos() == others(
                old(self).infos(),
                range.start.0 as int,
                range.end.0 as int,
            ),
            forall|v: int| #[trigger]
                final(self).pages(final(mem)@).contains_key(v) == (old(self).pages(
                    old(mem)@,
                ).contains_key(v) && !within(
                    old(self).infos(),
                    range.start.0 as int,
                    range.end.0 as int,
                    old(self).infos().len() as int,
                    v,
                )),
            forall|v: int| #[trigger]
                final(self).pages(final(mem)@).contains_key(v) ==> final(self).pages(
                    final(mem)@,
                )[v] == old(self).pages(old(mem)@)[v],
            memory_set::shrunk(old(self), old(mem)@, final(self), final(mem)@),
            final(mem)@.free().len() == old(mem)@.free().len() + framed_pages(
                old(self).infos(),
                range.start.0 as int,
                range.end.0 as int,
            ),
    {
        let ghost s0 = *self;
        let ghost m0 = mem@;
        let ghost infos = self.infos();
        let ghost s = range.start.0 as int;
        let ghost e = range.end.0 as int;
        let ghost mut n: int = 0;
        let mut k: usize = 0;
        proof {
            assert(infos.take(0) =~= Seq::<AreaInfo>::empty());
            assert(others(infos.take(0), s, e) =~= Seq::<AreaInfo>::empty());
            assert(infos =~= others(infos.take(0), s, e) + infos.skip(0));
        }
        while k < self.areas.len()
            invariant
                mem.wf(),
                mem.first() == old(mem).first(),
                self.wf(mem@),
                self.page_table.root() == s0.page_table.root(),
                infos == s0.infos(),
                s == range.start.0,
                e == range.end.0,
                0 <= n <= infos.len(),
                k == others(infos.take(n), s, e).len(),
                self.infos() == others(infos.take(n), s, e) + infos.skip(n),
                forall|v: int| #[trigger]
                    self.pages(mem@).contains_key(v) == (s0.pages(m0).contains_key(v) && !within(
                        infos,
                        s,
                        e,
                        n,
                        v,
                    )),
                forall|v: int| #[trigger]
                    self.pages(mem@).contains_key(v) ==> self.pages(mem@)[v] == s0.pages(m0)[v],
                memory_set::shrunk(&s0, m0, self, mem@),
                mem@.free().len() == m0.free().len() + framed_pages(infos.take(n), s, e),
            decreases infos.len() - n,
        {
            let ghost s1 = *self;
            let ghost m1 = mem@;
            proof {
                assert(self.infos().len() == self.areas@.len());
                assert(n < infos.len());
                assert(self.infos()[k as int] == infos[n]);
                assert(infos.take(n + 1).drop_last() =~= infos.take(n));
                assert(infos.take(n + 1).last() == infos[n]);
                assert(self.areas@[k as int].info() == infos[n]);
                assert forall|v: int| #[trigger] within(infos, s, e, n + 1, v) == (within(
                    infos,
                    s,
                    e,
                    n,
                    v,
                ) || (inside(infos[n], s, e) && infos[n].start <= v < infos[n].end)) by {
                    if within(infos, s, e, n, v) {
                        let x = choose|x: int|
                            0 <= x < n && inside(#[trigger] infos[x], s, e) && infos[x].start <= v
                                < infos[x].end;
                        assert(inside(infos[x], s, e));
                    }
                }
            }
            if self.areas[k].belongs_to(range) {
                self.remove_area(k, mem);
                proof {
                    lemma_shrunk_trans(s0, m0, s1, m1, *self, mem@);
                    assert(self.infos() =~= others(infos.take(n + 1), s, e) + infos.skip(n + 1));
                    assert forall|v: int| #[trigger] self.pages(mem@).contains_key(v) == (s0.pages(
                        m0,
                    ).contains_key(v) && !within(infos, s, e, n + 1, v)) by {
                        assert(s1.pages(m1).contains_key(v) == (s0.pages(m0).contains_key(v)
                            && !within(infos, s, e, n, v)));
                    }
                    assert forall|v: int| #[trigger] self.pages(mem@).contains_key(
                        v,
                    ) implies self.pages(mem@)[v] == s0.pages(m0)[v] by {
                        assert(s1.pages(m1).contains_key(v));
                    }
                }
            } else {
                proof {
                    assert(self.infos() =~= others(infos.take(n + 1), s, e) + infos.skip(n + 1));
                }
                k += 1;
            }
            proof {
                n = n + 1;
            }
        }
        proof {
            assert(self.infos().len() == self.areas@.len());
            assert(n == infos.len());
            assert(infos.take(n) =~= infos);
            assert(self.infos() =~= others(infos, s, e));
        }
    }

    /// Gives every frame of the address space back.
    pub fn recycle(self, mem: &mut PhysMemory)
        requires
            old(mem).wf(),
            self.wf(old(mem)@),
        ensures
            final(mem).wf(),
            final(mem).first() == old(mem).first(),
            final(mem)@.pages.dom() == old(mem)@.pages.dom(),
            forall|p: int| #[trigger]
                final(mem)@.used.contains(p) == (old(mem)@.used.contains(p) && !self.owns(p)),
            forall|p: int| #[trigger]
                old(mem)@.pages.contains_key(p) && !self.owns(p) ==> final(mem)@.pages[p] == old(
                    mem,
                )@.pages[p],
            final(mem)@.free().len() == old(mem)@.free().len() + self.frames().len(),
    {
        let ghost s0 = self;
        let ghost m0 = mem@;
        proof {
            mem.lemma_wf();
        }
        let mut space = self;
        while space.areas.len() > 0
            invariant
                mem.wf(),
                mem.first() == old(mem).first(),
                space.wf(mem@),
                memory_set::shrunk(&s0, m0, &space, mem@),
            decreases space.areas@.len(),
        {
            let ghost s1 = space;
            let ghost m1 = mem@;
            let k: usize = space.areas.len() - 1;
            space.remove_area(k, mem);
            proof {
                lemma_shrunk_trans(s0, m0, s1, m1, space, mem@);
            }
        }
        let ghost s1 = space;
        let ghost m1 = mem@;
        let table: PageTable = space.page_table;
        table.recycle(mem);
        proof {
            assert forall|p: int| #[trigger] mem@.used.contains(p) == (m0.used.contains(p)
                && !s0.owns(p)) by {
                assert(m1.used.contains(p) == (m0.used.contains(p) && (s0.owns(p)
                    ==> s1.owns(p))));
                assert(s1.owns(p) == s1.page_table.owned().contains(p));
                if s1.owns(p) {
                    assert(s0.owns(p));
                }
            }
            assert forall|p: int| #[trigger] s0.frames().contains(p) implies m0.used.contains(p) by {
                laws::lemma_owned_used(s0, m0, p);
            }
            m0.lemma_without_frames(mem@, s0.frames());
        }
    }
}

} // verus!
