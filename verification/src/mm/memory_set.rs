//! Address spaces: areas of virtual pages, and the page table that maps them.
use super::address;
use super::address::{PhysPageNum, VPNRange, VirtAddr, VirtPageNum, PPN_SPACE, VA_SPACE, VPN_SPACE};
use super::frame_allocator::{MemData, PhysMemory};
use super::page_table;
use super::page_table::{PTEFlags, PageTable, PageTableEntry, Tables};
use crate::config::PAGE_SIZE;
use crate::easy_fs::bytes;
use std::collections::BTreeMap;
use vstd::prelude::*;
use vstd::slice::slice_subrange;

verus! {

/// Readable.
pub const MAP_R: u8 = 0x02;

/// Writable.
pub const MAP_W: u8 = 0x04;

/// Executable.
pub const MAP_X: u8 = 0x08;

/// Accessible in user mode.
pub const MAP_U: u8 = 0x10;

/// Map permission: the flags `R W X U` of page table entries.
#[derive(Clone, Copy, PartialEq, Eq, Structural, Debug)]
pub struct MapPermission {
    pub bits: u8,
}

/// How the pages of an area are mapped.
#[derive(Clone, Copy, PartialEq, Eq, Structural, Debug)]
pub enum MapType {
    /// To the frame with the same number.
    Identical,
    /// To a frame of its own.
    Framed,
}

/// A contiguous piece of virtual memory, mapped in one way with one permission.
pub struct MapArea {
    vpn_range: VPNRange,
    data_frames: BTreeMap<u64, u64>,
    map_type: MapType,
    map_perm: MapPermission,
}

/// Where an area lies, and how it is mapped.
pub struct AreaInfo {
    pub start: int,
    pub end: int,
    pub framed: bool,
    pub perm: u8,
}

/// The tables after the pages from `start` to before `end` were mapped.
pub open spec fn tables_upto(t: Tables, start: int, end: int) -> Tables
    decreases end - start,
{
    if end <= start {
        t
    } else {
        tables_upto(t, start, end - 1).with_page(end - 1)
    }
}

/// The frames that mapping the pages from `start` to before `end` takes: those
/// of missing tables, and one for each page where `framed`.
pub open spec fn cost_upto(t: Tables, start: int, end: int, framed: bool) -> int
    decreases end - start,
{
    if end <= start {
        0
    } else {
        cost_upto(t, start, end - 1, framed) + (if framed {
            1int
        } else {
            0
        }) + tables_upto(t, start, end - 1).missing(end - 1)
    }
}

/// The pages with those from `start` to before `end` mapped.
pub open spec fn pages_with(
    pages: Map<int, u64>,
    start: int,
    end: int,
    area: MapArea,
) -> Map<int, u64> {
    Map::new(
        |v: int| pages.contains_key(v) || start <= v < end,
        |v: int|
            if start <= v < end {
                area.entry(v)
            } else {
                pages[v]
            },
    )
}

/// The pages without those from `start` to before `end`.
pub open spec fn pages_without(pages: Map<int, u64>, start: int, end: int) -> Map<int, u64> {
    Map::new(|v: int| pages.contains_key(v) && !(start <= v < end), |v: int| pages[v])
}

/// The frames of some pages are in use, apart from each other and from those in
/// `own`.
pub open spec fn apart(frames: Map<int, int>, used: Set<int>, own: Set<int>) -> bool {
    &&& forall|v: int| #[trigger]
        frames.contains_key(v) ==> used.contains(frames[v]) && !own.contains(frames[v])
    &&& forall|v: int, w: int| #[trigger]
        frames.contains_key(v) && #[trigger] frames.contains_key(w) && v != w ==> frames[v]
            != frames[w]
}

pub proof fn lemma_cost_monotonic(t: Tables, start: int, mid: int, end: int, framed: bool)
    requires
        mid <= end,
    ensures
        cost_upto(t, start, mid, framed) <= cost_upto(t, start, end, framed),
        0 <= cost_upto(t, start, mid, framed),
    decreases end - start,
{
    if mid < end && start < end {
        lemma_cost_monotonic(t, start, mid, end - 1, framed);
    } else if start < mid {
        lemma_cost_monotonic(t, start, mid - 1, mid - 1, framed);
    }
}

impl MapArea {
    /// The frames of the pages.
    pub closed spec fn frames(&self) -> Map<int, int> {
        Map::new(
            |v: int| 0 <= v <= u64::MAX && self.data_frames@.contains_key(v as u64),
            |v: int| self.data_frames@[v as u64] as int,
        )
    }

    /// Where the area lies, and how it is mapped.
    pub closed spec fn info(&self) -> AreaInfo {
        AreaInfo {
            start: self.vpn_range.start.0 as int,
            end: self.vpn_range.end.0 as int,
            framed: self.map_type == MapType::Framed,
            perm: self.map_perm.bits,
        }
    }

    /// The page table entry of page `v`.
    pub open spec fn entry(&self, v: int) -> u64 {
        page_table::pte(
            if self.info().framed {
                self.frames()[v]
            } else {
                v
            },
            page_table::with_valid(self.info().perm),
        )
    }

    /// The area is a range of pages; each has a frame if the area is framed, and
    /// none has otherwise.
    pub open spec fn wf(&self) -> bool {
        let i = self.info();
        &&& 0 <= i.start <= i.end <= VPN_SPACE
        &&& forall|v: int| #[trigger]
            self.frames().contains_key(v) <==> i.framed && i.start <= v < i.end
        &&& forall|v: int| #[trigger]
            self.frames().contains_key(v) ==> 0 <= self.frames()[v] < PPN_SPACE
    }

    /// The page table maps the pages of the area.
    pub open spec fn mapped(&self, pages: Map<int, u64>) -> bool {
        forall|v: int|
            self.info().start <= v < self.info().end ==> #[trigger] pages.contains_key(v)
                && pages[v] == self.entry(v)
    }

    /// An area from its addresses; no page is mapped yet.
    pub fn new(
        start_va: VirtAddr,
        end_va: VirtAddr,
        map_type: MapType,
        map_perm: MapPermission,
    ) -> (r: Self)
        requires
            start_va.0 <= u64::MAX - PAGE_SIZE,
            end_va.0 <= u64::MAX - PAGE_SIZE,
            address::floor_of(start_va.0 as int) <= address::ceil_of(end_va.0 as int),
        ensures
            r.info() == (AreaInfo {
                start: address::floor_of(start_va.0 as int),
                end: address::ceil_of(end_va.0 as int),
                framed: map_type == MapType::Framed,
                perm: map_perm.bits,
            }),
            r.frames() == Map::<int, int>::empty(),
    {
        let start_vpn: VirtPageNum = start_va.floor();
        let end_vpn: VirtPageNum = end_va.ceil();
        let r = MapArea {
            vpn_range: VPNRange::new(start_vpn, end_vpn),
            data_frames: BTreeMap::new(),
            map_type,
            map_perm,
        };
        assert(r.frames() =~= Map::<int, int>::empty());
        r
    }

    /// An area with the place and the permissions of another one; no page is
    /// mapped yet.
    pub fn from_another(another: &MapArea) -> (r: Self)
        ensures
            r.info() == another.info(),
            r.frames() == Map::<int, int>::empty(),
    {
        let r = MapArea {
            vpn_range: another.vpn_range,
            data_frames: BTreeMap::new(),
            map_type: another.map_type,
            map_perm: another.map_perm,
        };
        assert(r.frames() =~= Map::<int, int>::empty());
        r
    }

    /// Maps a page, to a new frame of zeros where the area is framed.
    pub fn map_one(&mut self, page_table: &mut PageTable, mem: &mut PhysMemory, vpn: VirtPageNum)
        requires
            old(mem).wf(),
            old(page_table).wf(old(mem)@),
            vpn.0 < VPN_SPACE,
            !old(page_table).pages(old(mem)@).contains_key(vpn.0 as int),
            !old(self).frames().contains_key(vpn.0 as int),
            apart(old(self).frames(), old(mem)@.used, old(page_table).owned()),
            (if old(self).info().framed {
                1int
            } else {
                0
            }) + old(page_table).tables(old(mem)@).missing(vpn.0 as int) <= old(
                mem,
            )@.free().len(),
        ensures
            final(mem).wf(),
            final(mem).first() == old(mem).first(),
            final(page_table).wf(final(mem)@),
            final(page_table).root() == old(page_table).root(),
            final(page_table).tables(final(mem)@) == old(page_table).tables(old(mem)@).with_page(
                vpn.0 as int,
            ),
            final(self).info() == old(self).info(),
            old(self).info().framed ==> {
                &&& final(self).frames() == old(self).frames().insert(
                    vpn.0 as int,
                    final(self).frames()[vpn.0 as int],
                )
                &&& old(mem)@.free().contains(final(self).frames()[vpn.0 as int])
                &&& final(mem)@.pages[final(self).frames()[vpn.0 as int]] == bytes::zeros(4096)
            },
            !old(self).info().framed ==> final(self).frames() == old(self).frames(),
            apart(final(self).frames(), final(mem)@.used, final(page_table).owned()),
            final(page_table).pages(final(mem)@) == old(page_table).pages(old(mem)@).insert(
                vpn.0 as int,
                final(self).entry(vpn.0 as int),
            ),
            extended(
                old(mem)@,
                old(page_table).owned(),
                old(self).frames(),
                final(mem)@,
                final(page_table).owned(),
                final(self).frames(),
            ),
            final(mem)@.free().len() == old(mem)@.free().len() - (if old(self).info().framed {
                1int
            } else {
                0
            }) - old(page_table).tables(old(mem)@).missing(vpn.0 as int),
    {
        let ghost m0 = mem@;
        let ghost own0 = page_table.owned();
        let ghost fr0 = self.frames();
        proof {
            mem.lemma_wf();
            page_table.lemma_wf(m0);
        }
        let mut ppn: PhysPageNum = PhysPageNum(vpn.0);
        match self.map_type {
            MapType::Identical => {
                proof {
                    m0.lemma_takes_none(m0);
                }
            },
            MapType::Framed => {
                proof {
                    if m0.free().len() == 0 {
                        assert(false);
                    }
                }
                let frame: PhysPageNum = mem.frame_alloc().unwrap();
                assert(m0.pages.contains_key(frame.0 as int));
                ppn = frame;
                self.data_frames.insert(vpn.0, frame.0);
                proof {
                    m0.lemma_with_frame(frame.0 as int);
                    page_table.lemma_frame(m0, mem@);
                    m0.lemma_takes_first(frame.0 as int);
                    assert(self.frames() =~= fr0.insert(vpn.0 as int, frame.0 as int));
                }
            },
        }
        let ghost m1 = mem@;
        let flags = PTEFlags { bits: self.map_perm.bits };
        page_table.map(mem, vpn, ppn, flags);
        proof {
            let m2 = mem@;
            let own2 = page_table.owned();
            let fr = self.frames();
            assert forall|p: int| #[trigger] own2.contains(p) implies own0.contains(p)
                || m1.free().contains(p) by {
                if !own0.contains(p) {
                    assert(own2.difference(own0).contains(p));
                }
            }
            assert forall|v: int| #[trigger] fr.contains_key(v) implies m2.used.contains(fr[v])
                && !own2.contains(fr[v]) by {
                if v != vpn.0 {
                    assert(fr0.contains_key(v));
                }
            }
            assert forall|p: int| #[trigger] m0.pages.contains_key(p) && !own2.contains(p)
                && !held_in(fr, p) implies m2.pages[p] == m0.pages[p] by {
                if self.info().framed {
                    assert(fr.contains_key(vpn.0 as int));
                }
                assert(m1.pages.dom().contains(p));
                assert(m1.pages.contains_key(p));
            }
            assert forall|v: int| #[trigger] fr0.contains_key(v) implies fr.contains_key(v) && fr[v]
                == fr0[v] && m2.pages[fr[v]] == m0.pages[fr[v]] by {
                assert(fr.contains_key(v));
                assert(m0.used.contains(fr0[v]));
                assert(m1.pages.contains_key(fr0[v]));
            }
            assert forall|p: int| #[trigger] m2.used.contains(p) == (m0.used.contains(p)
                || own2.contains(p) || held_in(fr, p)) by {
                if held_in(fr, p) {
                    let v = choose|v: int| #[trigger] fr.contains_key(v) && fr[v] == p;
                    assert(m2.used.contains(fr[v]));
                }
                if self.info().framed {
                    assert(fr.contains_key(vpn.0 as int));
                }
            }
            assert(m2.pages.dom() =~= m0.pages.dom());
            m0.lemma_takes_trans(m1, m2);
        }
    }

    /// Maps the pages from `from` to before `to`.
    fn map_range(
        &mut self,
        page_table: &mut PageTable,
        mem: &mut PhysMemory,
        from: u64,
        to: u64,
    )
        requires
            old(mem).wf(),
            old(page_table).wf(old(mem)@),
            from <= to <= VPN_SPACE,
            forall|v: int|
                from <= v < to ==> !#[trigger] old(page_table).pages(old(mem)@).contains_key(v),
            forall|v: int| from <= v < to ==> !#[trigger] old(self).frames().contains_key(v),
            apart(old(self).frames(), old(mem)@.used, old(page_table).owned()),
            cost_upto(
                old(page_table).tables(old(mem)@),
                from as int,
                to as int,
                old(self).info().framed,
            ) <= old(mem)@.free().len(),
        ensures
            mapped_range(
                *old(self),
                *old(page_table),
                old(mem)@,
                *final(self),
                *final(page_table),
                final(mem)@,
                from as int,
                to as int,
            ),
            final(mem).wf(),
            final(mem).first() == old(mem).first(),
            final(self).info() == old(self).info(),
    {
        let ghost a0 = *self;
        let ghost t0 = *page_table;
        let ghost m0 = mem@;
        let ghost framed = self.info().framed;
        let mut cur: u64 = from;
        proof {
            mem.lemma_wf();
            assert(page_table.pages(m0) =~= pages_with(
                t0.pages(m0),
                from as int,
                from as int,
                a0,
            ));
            page_table.lemma_wf(m0);
            m0.lemma_takes_none(m0);
        }
        while cur < to
            invariant
                from <= cur <= to,
                to <= VPN_SPACE,
                mem.wf(),
                mem.first() == old(mem).first(),
                m0 == old(mem)@,
                m0.wf(),
                self.info() == a0.info(),
                framed == a0.info().framed,
                forall|v: int| from <= v < to ==> !#[trigger] t0.pages(m0).contains_key(v),
                forall|v: int| from <= v < to ==> !#[trigger] a0.frames().contains_key(v),
                cost_upto(t0.tables(m0), from as int, to as int, framed) <= m0.free().len(),
                mapped_range(
                    a0,
                    t0,
                    m0,
                    *self,
                    *page_table,
                    mem@,
                    from as int,
                    cur as int,
                ),
            decreases to - cur,
        {
            let ghost a1 = *self;
            let ghost t1 = *page_table;
            let ghost m1 = mem@;
            proof {
                lemma_cost_monotonic(t0.tables(m0), from as int, cur + 1, to as int, framed);
                assert(!t0.pages(m0).contains_key(cur as int));
                assert(!a0.frames().contains_key(cur as int));
            }
            self.map_one(page_table, mem, VirtPageNum(cur));
            proof {
                lemma_extended_trans(
                    m0,
                    t0.owned(),
                    a0.frames(),
                    m1,
                    t1.owned(),
                    a1.frames(),
                    mem@,
                    page_table.owned(),
                    self.frames(),
                );
                assert forall|v: int| from <= v < cur implies #[trigger] self.entry(v) == a1.entry(
                    v,
                ) by {
                    if framed {
                        assert(a1.frames().contains_key(v));
                    }
                }
                assert(page_table.pages(mem@) =~= pages_with(
                    t0.pages(m0),
                    from as int,
                    cur + 1,
                    *self,
                ));
                assert forall|v: int| from <= v < cur + 1 && framed implies mem@.pages[(
                #[trigger] self.frames()[v])] == bytes::zeros(4096) by {
                    if v < cur {
                        assert(a1.frames().contains_key(v));
                    }
                }
            }
            cur += 1;
        }
    }

    /// Maps every page of the area.
    pub fn map(&mut self, page_table: &mut PageTable, mem: &mut PhysMemory)
        requires
            old(mem).wf(),
            old(page_table).wf(old(mem)@),
            0 <= old(self).info().start <= old(self).info().end <= VPN_SPACE,
            old(self).frames() == Map::<int, int>::empty(),
            forall|v: int|
                old(self).info().start <= v < old(self).info().end ==> !#[trigger] old(
                    page_table,
                ).pages(old(mem)@).contains_key(v),
            cost_upto(
                old(page_table).tables(old(mem)@),
                old(self).info().start,
                old(self).info().end,
                old(self).info().framed,
            ) <= old(mem)@.free().len(),
        ensures
            mapped_range(
                *old(self),
                *old(page_table),
                old(mem)@,
                *final(self),
                *final(page_table),
                final(mem)@,
                old(self).info().start,
                old(self).info().end,
            ),
            final(mem).wf(),
            final(mem).first() == old(mem).first(),
            final(self).info() == old(self).info(),
            final(self).wf(),
            final(self).mapped(final(page_table).pages(final(mem)@)),
    {
        let range: VPNRange = self.vpn_range;
        proof {
            mem.lemma_wf();
        }
        self.map_range(page_table, mem, range.get_start().0, range.get_end().0);
        proof {
            assert forall|v: int| #[trigger] self.frames().contains_key(v) implies 0
                <= self.frames()[v] < PPN_SPACE by {
                assert(!old(self).frames().contains_key(v));
                assert(old(mem)@.pages.contains_key(self.frames()[v]));
            }
        }
    }

    /// Removes the mapping of a page, and gives its frame back where it has one.
    pub fn unmap_one(&mut self, page_table: &mut PageTable, mem: &mut PhysMemory, vpn: VirtPageNum)
        requires
            old(mem).wf(),
            old(page_table).wf(old(mem)@),
            vpn.0 < VPN_SPACE,
            old(page_table).pages(old(mem)@).contains_key(vpn.0 as int),
            old(self).info().framed == old(self).frames().contains_key(vpn.0 as int),
            apart(old(self).frames(), old(mem)@.used, old(page_table).owned()),
        ensures
            unmapped_range(
                *old(self),
                *old(page_table),
                old(mem)@,
                *final(self),
                *final(page_table),
                final(mem)@,
                vpn.0 as int,
                vpn.0 + 1,
            ),
            final(mem).wf(),
            final(mem).first() == old(mem).first(),
            final(self).info() == old(self).info(),
    {
        let ghost m0 = mem@;
        let ghost fr0 = self.frames();
        let ghost own = page_table.owned();
        let ghost v0 = vpn.0 as int;
        proof {
            mem.lemma_wf();
            page_table.lemma_wf(m0);
        }
        if self.map_type == MapType::Framed {
            let frame: Option<u64> = self.data_frames.remove(&vpn.0);
            proof {
                assert(self.frames() =~= fr0.remove(v0));
            }
            match frame {
                Some(f) => {
                    assert(f == fr0[v0]);
                    mem.frame_dealloc(PhysPageNum(f));
                    proof {
                        m0.lemma_without_frame(f as int);
                        page_table.lemma_frame(m0, mem@);
                    }
                },
                None => {},
            }
        }
        let ghost m1 = mem@;
        page_table.unmap(mem, vpn);
        proof {
            let m2 = mem@;
            let fr = self.frames();
            assert(page_table.pages(m2) =~= pages_without(
                old(page_table).pages(m0),
                v0,
                v0 + 1,
            ));
            assert forall|v: int| #[trigger] fr.contains_key(v) implies m2.used.contains(fr[v])
                && !own.contains(fr[v]) by {
                assert(fr0.contains_key(v));
                if fr0.contains_key(v0) {
                    assert(fr0[v] != fr0[v0]);
                }
            }
            assert forall|p: int| #[trigger] m2.used.contains(p) == (m0.used.contains(p)
                && !held_between(fr0, v0, v0 + 1, p)) by {
                if held_between(fr0, v0, v0 + 1, p) {
                    let v = choose|v: int|
                        #[trigger] fr0.contains_key(v) && v0 <= v < v0 + 1 && fr0[v] == p;
                    assert(v == v0);
                } else if fr0.contains_key(v0) {
                    assert(fr0[v0] != p);
                }
            }
            assert(m2.pages.dom() =~= m0.pages.dom());
            assert forall|p: int| #[trigger] m0.pages.contains_key(p) && !own.contains(p) implies m2.pages[p]
                == m0.pages[p] by {
                assert(m1.pages.contains_key(p));
            }
        }
    }

    /// Removes the mapping of the pages from `from` to before `to`.
    fn unmap_range(
        &mut self,
        page_table: &mut PageTable,
        mem: &mut PhysMemory,
        from: u64,
        to: u64,
    )
        requires
            old(mem).wf(),
            old(page_table).wf(old(mem)@),
            from <= to <= VPN_SPACE,
            forall|v: int|
                from <= v < to ==> #[trigger] old(page_table).pages(old(mem)@).contains_key(v),
            forall|v: int|
                from <= v < to ==> old(self).info().framed == #[trigger] old(
                    self,
                ).frames().contains_key(v),
            apart(old(self).frames(), old(mem)@.used, old(page_table).owned()),
        ensures
            unmapped_range(
                *old(self),
                *old(page_table),
                old(mem)@,
                *final(self),
                *final(page_table),
                final(mem)@,
                from as int,
                to as int,
            ),
            final(mem).wf(),
            final(mem).first() == old(mem).first(),
            final(self).info() == old(self).info(),
    {
        let ghost a0 = *self;
        let ghost t0 = *page_table;
        let ghost m0 = mem@;
        let mut cur: u64 = from;
        proof {
            assert(t0.pages(m0) =~= pages_without(t0.pages(m0), from as int, from as int));
        }
        while cur < to
            invariant
                from <= cur <= to,
                to <= VPN_SPACE,
                mem.wf(),
                mem.first() == old(mem).first(),
                m0 == old(mem)@,
                self.info() == a0.info(),
                forall|v: int| from <= v < to ==> #[trigger] t0.pages(m0).contains_key(v),
                forall|v: int|
                    from <= v < to ==> a0.info().framed == #[trigger] a0.frames().contains_key(v),
                apart(a0.frames(), m0.used, t0.owned()),
                unmapped_range(
                    a0,
                    t0,
                    m0,
                    *self,
                    *page_table,
                    mem@,
                    from as int,
                    cur as int,
                ),
            decreases to - cur,
        {
            let ghost a1 = *self;
            let ghost t1 = *page_table;
            let ghost m1 = mem@;
            proof {
                assert(t0.pages(m0).contains_key(cur as int));
                assert(a0.info().framed == a0.frames().contains_key(cur as int));
                assert(a1.frames().contains_key(cur as int) == a0.frames().contains_key(
                    cur as int,
                ));
            }
            self.unmap_one(page_table, mem, VirtPageNum(cur));
            proof {
                assert(page_table.pages(mem@) =~= pages_without(
                    t0.pages(m0),
                    from as int,
                    cur + 1,
                ));
                let fr0 = a0.frames();
                let fr1 = a1.frames();
                assert forall|p: int| #[trigger] mem@.used.contains(p) == (m0.used.contains(p)
                    && !held_between(fr0, from as int, cur + 1, p)) by {
                    assert(m1.used.contains(p) == (m0.used.contains(p) && !held_between(
                        fr0,
                        from as int,
                        cur as int,
                        p,
                    )));
                    lemma_held_split(fr0, fr1, from as int, cur as int, p);
                }
                assert forall|v: int| #[trigger] self.frames().contains_key(v) == (
                fr0.contains_key(v) && !(from <= v < cur + 1)) by {
                    assert(fr1.contains_key(v) == (fr0.contains_key(v) && !(from <= v < cur)));
                }
                assert forall|v: int| #[trigger] self.frames().contains_key(v) implies self.frames()[v]
                    == fr0[v] by {
                    assert(fr1.contains_key(v));
                }
                assert forall|p: int| #[trigger] m0.pages.contains_key(p) && !t0.owned().contains(
                    p,
                ) implies mem@.pages[p] == m0.pages[p] by {
                    assert(m1.pages.dom().contains(p));
                    assert(m1.pages.contains_key(p));
                }
            }
            cur += 1;
        }
    }

    /// Removes the mapping of every page of the area.
    pub fn unmap(&mut self, page_table: &mut PageTable, mem: &mut PhysMemory)
        requires
            old(mem).wf(),
            old(page_table).wf(old(mem)@),
            old(self).wf(),
            old(self).mapped(old(page_table).pages(old(mem)@)),
            apart(old(self).frames(), old(mem)@.used, old(page_table).owned()),
        ensures
            unmapped_range(
                *old(self),
                *old(page_table),
                old(mem)@,
                *final(self),
                *final(page_table),
                final(mem)@,
                old(self).info().start,
                old(self).info().end,
            ),
            final(mem).wf(),
            final(mem).first() == old(mem).first(),
            final(self).info() == old(self).info(),
    {
        let range: VPNRange = self.vpn_range;
        self.unmap_range(page_table, mem, range.get_start().0, range.get_end().0);
    }

    /// Gives up the pages from `new_end` on.
    pub fn shrink_to(
        &mut self,
        page_table: &mut PageTable,
        mem: &mut PhysMemory,
        new_end: VirtPageNum,
    )
        requires
            old(mem).wf(),
            old(page_table).wf(old(mem)@),
            old(self).wf(),
            old(self).mapped(old(page_table).pages(old(mem)@)),
            apart(old(self).frames(), old(mem)@.used, old(page_table).owned()),
            old(self).info().start <= new_end.0 <= old(self).info().end,
        ensures
            unmapped_range(
                *old(self),
                *old(page_table),
                old(mem)@,
                *final(self),
                *final(page_table),
                final(mem)@,
                new_end.0 as int,
                old(self).info().end,
            ),
            final(mem).wf(),
            final(mem).first() == old(mem).first(),
            final(self).info() == (AreaInfo { end: new_end.0 as int, ..old(self).info() }),
            final(self).wf(),
            final(self).mapped(final(page_table).pages(final(mem)@)),
    {
        let range: VPNRange = VPNRange::new(new_end, self.vpn_range.get_end());
        self.unmap_range(page_table, mem, range.get_start().0, range.get_end().0);
        let ghost mid = *self;
        self.vpn_range = VPNRange::new(self.vpn_range.get_start(), new_end);
        proof {
            assert(self.frames() =~= mid.frames());
            assert forall|v: int| self.info().start <= v < self.info().end implies self.entry(v)
                == old(self).entry(v) by {
                if self.info().framed {
                    assert(old(self).frames().contains_key(v));
                    assert(mid.frames().contains_key(v));
                }
            }
            assert forall|v: int|
                self.info().start <= v < self.info().end implies #[trigger] page_table.pages(
                mem@,
            ).contains_key(v) && page_table.pages(mem@)[v] == self.entry(v) by {
                assert(old(page_table).pages(old(mem)@).contains_key(v));
            }
        }
    }

    /// Takes the pages up to `new_end` in.
    pub fn append_to(
        &mut self,
        page_table: &mut PageTable,
        mem: &mut PhysMemory,
        new_end: VirtPageNum,
    )
        requires
            old(mem).wf(),
            old(page_table).wf(old(mem)@),
            old(self).wf(),
            old(self).mapped(old(page_table).pages(old(mem)@)),
            apart(old(self).frames(), old(mem)@.used, old(page_table).owned()),
            old(self).info().end <= new_end.0 <= VPN_SPACE,
            forall|v: int|
                old(self).info().end <= v < new_end.0 ==> !#[trigger] old(page_table).pages(
                    old(mem)@,
                ).contains_key(v),
            cost_upto(
                old(page_table).tables(old(mem)@),
                old(self).info().end,
                new_end.0 as int,
                old(self).info().framed,
            ) <= old(mem)@.free().len(),
        ensures
            mapped_range(
                *old(self),
                *old(page_table),
                old(mem)@,
                *final(self),
                *final(page_table),
                final(mem)@,
                old(self).info().end,
                new_end.0 as int,
            ),
            final(mem).wf(),
            final(mem).first() == old(mem).first(),
            final(self).info() == (AreaInfo { end: new_end.0 as int, ..old(self).info() }),
            final(self).wf(),
            final(self).mapped(final(page_table).pages(final(mem)@)),
    {
        proof {
            mem.lemma_wf();
        }
        let range: VPNRange = VPNRange::new(self.vpn_range.get_end(), new_end);
        self.map_range(page_table, mem, range.get_start().0, range.get_end().0);
        let ghost mid = *self;
        self.vpn_range = VPNRange::new(self.vpn_range.get_start(), new_end);
        proof {
            let fr = self.frames();
            assert(fr =~= mid.frames());
            assert forall|v: int| #[trigger] self.entry(v) == mid.entry(v) by {}
            assert(page_table.pages(mem@) =~= pages_with(
                old(page_table).pages(old(mem)@),
                old(self).info().end,
                new_end.0 as int,
                *self,
            ));
            assert forall|v: int| #[trigger] fr.contains_key(v) implies 0 <= fr[v] < PPN_SPACE by {
                if old(self).frames().contains_key(v) {
                    assert(fr[v] == old(self).frames()[v]);
                } else {
                    assert(old(mem)@.pages.contains_key(fr[v]));
                }
            }
            assert forall|v: int|
                self.info().start <= v < self.info().end implies #[trigger] page_table.pages(
                mem@,
            ).contains_key(v) && page_table.pages(mem@)[v] == self.entry(v) by {
                if v < old(self).info().end {
                    assert(old(page_table).pages(old(mem)@).contains_key(v));
                    if self.info().framed {
                        assert(old(self).frames().contains_key(v));
                    }
                    assert(self.entry(v) == old(self).entry(v));
                }
            }
            assert(self.mapped(page_table.pages(mem@)));
        }
    }

    /// Copies `data` into the pages of the area, from its first page on.
    pub fn copy_data(&self, page_table: &PageTable, mem: &mut PhysMemory, data: &[u8])
        requires
            old(mem).wf(),
            page_table.wf(old(mem)@),
            self.wf(),
            self.mapped(page_table.pages(old(mem)@)),
            apart(self.frames(), old(mem)@.used, page_table.owned()),
            self.info().framed,
            data@.len() <= (self.info().end - self.info().start) * PAGE_SIZE,
        ensures
            final(mem).wf(),
            final(mem).first() == old(mem).first(),
            page_table.wf(final(mem)@),
            page_table.tables(final(mem)@) == page_table.tables(old(mem)@),
            page_table.pages(final(mem)@) == page_table.pages(old(mem)@),
            final(mem)@.used == old(mem)@.used,
            final(mem)@.pages.dom() == old(mem)@.pages.dom(),
            forall|v: int|
                self.info().start <= v < self.info().end
                    ==> final(mem)@.pages[#[trigger] self.frames()[v]] == bytes::splice(
                    old(mem)@.pages[self.frames()[v]],
                    0,
                    chunk(data@, v - self.info().start),
                ),
            forall|p: int| #[trigger]
                old(mem)@.pages.contains_key(p) && !held_in(self.frames(), p)
                    ==> final(mem)@.pages[p] == old(mem)@.pages[p],
    {
        let ghost m0 = mem@;
        let ghost fr = self.frames();
        let ghost first = self.info().start;
        let ghost last = self.info().end;
        let len: usize = data.len();
        let mut start: usize = 0;
        let mut current_vpn: u64 = self.vpn_range.get_start().0;
        proof {
            mem.lemma_wf();
            page_table.lemma_wf(m0);
            assert forall|v: int| first <= v < last implies m0.pages[#[trigger] fr[v]]
                == bytes::splice(m0.pages[fr[v]], 0, chunk_from(data@, 0, v - first)) by {
                assert(fr.contains_key(v));
                assert(m0.pages[fr[v]] =~= bytes::splice(
                    m0.pages[fr[v]],
                    0,
                    chunk_from(data@, 0, v - first),
                ));
            }
        }
        while start < len
            invariant
                fr == self.frames(),
                first == self.info().start,
                last == self.info().end,
                self.wf(),
                self.info().framed,
                len == data@.len(),
                len <= (last - first) * 4096,
                first <= current_vpn,
                start == 4096 * (current_vpn - first) || (start == len && start <= 4096 * (
                current_vpn - first)),
                start <= len,
                mem.wf(),
                mem.first() == old(mem).first(),
                m0 == old(mem)@,
                m0.wf(),
                apart(fr, m0.used, page_table.owned()),
                self.mapped(page_table.pages(m0)),
                page_table.wf(m0),
                page_table.wf(mem@),
                page_table.tables(mem@) == page_table.tables(m0),
                page_table.pages(mem@) == page_table.pages(m0),
                mem@.used == m0.used,
                mem@.pages.dom() == m0.pages.dom(),
                forall|v: int|
                    first <= v < last ==> mem@.pages[#[trigger] fr[v]] == bytes::splice(
                        m0.pages[fr[v]],
                        0,
                        chunk_from(data@, current_vpn - first, v - first),
                    ),
                forall|p: int| #[trigger]
                    m0.pages.contains_key(p) && !held_in(fr, p) ==> mem@.pages[p] == m0.pages[p],
            decreases len - start,
        {
            let ghost m1 = mem@;
            let ghost v0 = current_vpn as int;
            proof {
                page_table.lemma_wf(m1);
                assert(v0 < last);
                assert(fr.contains_key(v0));
                assert(page_table.pages(m0).contains_key(v0));
                page_table::lemma_pte(fr[v0], page_table::with_valid(self.info().perm));
                assert(page_table::lookup(m1, page_table.root(), v0) == Some(self.entry(v0)));
                assert(m1.used.contains(fr[v0]));
                assert(m1.pages.dom().contains(fr[v0]));
                assert(m0.pages.contains_key(fr[v0]));
            }
            let to: usize = if len - start <= 4096 {
                len
            } else {
                start + 4096
            };
            let src: &[u8] = slice_subrange(data, start, to);
            let ppn: PhysPageNum = page_table.translate(mem, VirtPageNum(current_vpn)).unwrap().ppn();
            mem.write_bytes(ppn, 0, src);
            proof {
                let m2 = mem@;
                mem.lemma_wf();
                assert(m2.pages.dom() =~= m0.pages.dom());
                page_table.lemma_frame(m1, m2);
                assert(src@ =~= chunk(data@, v0 - first));
                assert forall|v: int| first <= v < last implies m2.pages[#[trigger] fr[v]]
                    == bytes::splice(
                    m0.pages[fr[v]],
                    0,
                    chunk_from(data@, v0 + 1 - first, v - first),
                ) by {
                    assert(fr.contains_key(v));
                    if v == v0 {
                        assert(m2.pages[fr[v]] =~= bytes::splice(
                            m0.pages[fr[v]],
                            0,
                            chunk(data@, v - first),
                        ));
                    } else {
                        assert(fr[v] != fr[v0]);
                    }
                }
                assert forall|p: int| #[trigger] m0.pages.contains_key(p) && !held_in(
                    fr,
                    p,
                ) implies m2.pages[p] == m0.pages[p] by {
                    assert(p != fr[v0]);
                }
            }
            start = to;
            current_vpn += 1;
        }
        proof {
            assert forall|v: int| first <= v < last implies mem@.pages[#[trigger] fr[v]]
                == bytes::splice(m0.pages[fr[v]], 0, chunk(data@, v - first)) by {
                assert(fr.contains_key(v));
                if v >= current_vpn {
                    assert(chunk(data@, v - first) =~= Seq::<u8>::empty());
                }
            }
        }
    }

    /// The pages of the area.
    pub fn range(&self) -> (r: VPNRange)
        ensures
            r.start.0 == self.info().start,
            r.end.0 == self.info().end,
    {
        self.vpn_range
    }

    /// Whether the area and the range have a page in common.
    pub fn overlaps(&self, vpnrange: &VPNRange) -> (r: bool)
        ensures
            r == (self.info().start < vpnrange.end.0 && vpnrange.start.0 < self.info().end),
    {
        self.vpn_range.get_start().0 < vpnrange.get_end().0 && vpnrange.get_start().0
            < self.vpn_range.get_end().0
    }

    /// Whether the area lies in the range.
    pub fn belongs_to(&self, other: &VPNRange) -> (r: bool)
        ensures
            r == (self.info().start >= other.start.0 && self.info().end <= other.end.0),
    {
        self.vpn_range.get_start().0 >= other.get_start().0 && self.vpn_range.get_end().0
            <= other.get_end().0
    }
}

/// The bytes of `data` for page `k`.
pub open spec fn chunk(data: Seq<u8>, k: int) -> Seq<u8> {
    let n = data.len() as int;
    data.subrange(
        if 4096 * k < n {
            4096 * k
        } else {
            n
        },
        if 4096 * (k + 1) < n {
            4096 * (k + 1)
        } else {
            n
        },
    )
}

/// The bytes of `data` for page `k`, if it comes before page `done`.
spec fn chunk_from(data: Seq<u8>, done: int, k: int) -> Seq<u8> {
    if k < done {
        chunk(data, k)
    } else {
        Seq::empty()
    }
}

/// Whether a frame is among those of the pages from `from` to before `to`.
pub open spec fn held_between(frames: Map<int, int>, from: int, to: int, p: int) -> bool {
    exists|v: int| #[trigger] frames.contains_key(v) && from <= v < to && frames[v] == p
}

proof fn lemma_held_split(
    fr0: Map<int, int>,
    fr1: Map<int, int>,
    from: int,
    cur: int,
    p: int,
)
    requires
        from <= cur,
        forall|v: int| #[trigger]
            fr1.contains_key(v) == (fr0.contains_key(v) && !(from <= v < cur)),
        forall|v: int| #[trigger] fr1.contains_key(v) ==> fr1[v] == fr0[v],
    ensures
        held_between(fr0, from, cur + 1, p) == (held_between(fr0, from, cur, p) || held_between(
            fr1,
            cur,
            cur + 1,
            p,
        )),
{
    if held_between(fr0, from, cur + 1, p) {
        let v = choose|v: int|
            #[trigger] fr0.contains_key(v) && from <= v < cur + 1 && fr0[v] == p;
        if v == cur {
            assert(fr1.contains_key(v));
        }
    }
    if held_between(fr1, cur, cur + 1, p) {
        let v = choose|v: int| #[trigger] fr1.contains_key(v) && cur <= v < cur + 1 && fr1[v] == p;
        assert(fr0.contains_key(v));
    }
}

/// What removing the mapping of the pages from `from` to before `to` does.
pub open spec fn unmapped_range(
    a0: MapArea,
    t0: PageTable,
    m0: MemData,
    a1: MapArea,
    t1: PageTable,
    m1: MemData,
    from: int,
    to: int,
) -> bool {
    &&& t1.wf(m1)
    &&& t1.root() == t0.root()
    &&& t1.owned() == t0.owned()
    &&& t1.tables(m1) == t0.tables(m0)
    &&& t1.pages(m1) == pages_without(t0.pages(m0), from, to)
    &&& forall|v: int| #[trigger]
        a1.frames().contains_key(v) == (a0.frames().contains_key(v) && !(from <= v < to))
    &&& forall|v: int| #[trigger] a1.frames().contains_key(v) ==> a1.frames()[v] == a0.frames()[v]
    &&& apart(a1.frames(), m1.used, t1.owned())
    &&& m1.pages.dom() == m0.pages.dom()
    &&& forall|p: int| #[trigger]
        m1.used.contains(p) == (m0.used.contains(p) && !held_between(a0.frames(), from, to, p))
    &&& forall|p: int| #[trigger]
        m0.pages.contains_key(p) && !t0.owned().contains(p) ==> m1.pages[p] == m0.pages[p]
    &&& m1.free().len() == m0.free().len() + (if a0.info().framed {
        to - from
    } else {
        0
    })
}

/// What mapping the pages from `from` to before `to` does.
pub open spec fn mapped_range(
    a0: MapArea,
    t0: PageTable,
    m0: MemData,
    a1: MapArea,
    t1: PageTable,
    m1: MemData,
    from: int,
    to: int,
) -> bool {
    let framed = a0.info().framed;
    &&& t1.wf(m1)
    &&& t1.root() == t0.root()
    &&& t1.tables(m1) == tables_upto(t0.tables(m0), from, to)
    &&& t1.pages(m1) == pages_with(t0.pages(m0), from, to, a1)
    &&& forall|v: int| #[trigger]
        a1.frames().contains_key(v) == (a0.frames().contains_key(v) || (framed && from <= v < to))
    &&& apart(a1.frames(), m1.used, t1.owned())
    &&& extended(m0, t0.owned(), a0.frames(), m1, t1.owned(), a1.frames())
    &&& forall|v: int|
        from <= v < to && framed ==> m1.pages[(#[trigger] a1.frames()[v])] == bytes::zeros(4096)
    &&& m1.free().len() == m0.free().len() - cost_upto(t0.tables(m0), from, to, framed)
}

/// Two steps of mapping make one.
proof fn lemma_extended_trans(
    m0: MemData,
    own0: Set<int>,
    fr0: Map<int, int>,
    m1: MemData,
    own1: Set<int>,
    fr1: Map<int, int>,
    m2: MemData,
    own2: Set<int>,
    fr2: Map<int, int>,
)
    requires
        extended(m0, own0, fr0, m1, own1, fr1),
        extended(m1, own1, fr1, m2, own2, fr2),
    ensures
        extended(m0, own0, fr0, m2, own2, fr2),
{
    m0.lemma_takes_trans(m1, m2);
    assert forall|p: int| m1.free().contains(p) implies #[trigger] m0.free().contains(p) by {
        assert(m1.pages.dom().contains(p));
        assert(m1.used.contains(p) == (m0.used.contains(p) || own1.contains(p) || held_in(fr1, p)));
    }
    assert forall|v: int| #[trigger] fr0.contains_key(v) implies fr2.contains_key(v) && fr2[v]
        == fr0[v] && m2.pages[fr2[v]] == m0.pages[fr2[v]] by {
        assert(fr1.contains_key(v));
    }
    assert forall|v: int| #[trigger] fr2.contains_key(v) implies fr0.contains_key(v)
        || m0.free().contains(fr2[v]) by {
        if fr1.contains_key(v) {
            assert(fr2[v] == fr1[v]);
        } else {
            assert(m1.free().contains(fr2[v]));
        }
    }
    assert forall|p: int| held_in(fr1, p) implies held_in(fr2, p) by {
        let v = choose|v: int| #[trigger] fr1.contains_key(v) && fr1[v] == p;
        assert(fr2.contains_key(v) && fr2[v] == p);
    }
    assert forall|p: int| #[trigger] m2.used.contains(p) == (m0.used.contains(p) || own2.contains(p)
        || held_in(fr2, p)) by {
        assert(m1.used.contains(p) == (m0.used.contains(p) || own1.contains(p) || held_in(fr1, p)));
    }
    assert forall|p: int| #[trigger] m0.pages.contains_key(p) && !own2.contains(p) && !held_in(
        fr2,
        p,
    ) implies m2.pages[p] == m0.pages[p] by {
        assert(m1.pages.dom().contains(p));
        assert(m1.pages.contains_key(p));
    }
}

/// Whether a frame is among those of the pages.
pub open spec fn held_in(frames: Map<int, int>, p: int) -> bool {
    exists|v: int| #[trigger] frames.contains_key(v) && frames[v] == p
}

/// What mapping does to memory: tables, and frames of the area, are new or
/// written; frames that the area had keep their bytes, and so do all others. New
/// ones are the first that are free.
pub open spec fn extended(
    m0: MemData,
    own0: Set<int>,
    fr0: Map<int, int>,
    m1: MemData,
    own1: Set<int>,
    fr1: Map<int, int>,
) -> bool {
    &&& own0.subset_of(own1)
    &&& forall|p: int| #[trigger] own1.contains(p) ==> own0.contains(p) || m0.free().contains(p)
    &&& forall|v: int| #[trigger]
        fr0.contains_key(v) ==> fr1.contains_key(v) && fr1[v] == fr0[v] && m1.pages[fr1[v]]
            == m0.pages[fr1[v]]
    &&& forall|v: int| #[trigger]
        fr1.contains_key(v) ==> fr0.contains_key(v) || m0.free().contains(fr1[v])
    &&& m1.pages.dom() == m0.pages.dom()
    &&& forall|p: int| #[trigger]
        m1.used.contains(p) == (m0.used.contains(p) || own1.contains(p) || held_in(fr1, p))
    &&& forall|p: int| #[trigger]
        m0.pages.contains_key(p) && !own1.contains(p) && !held_in(fr1, p) ==> m1.pages[p]
            == m0.pages[p]
    &&& m0.takes_lowest(m1)
}

/// An address space: areas, and the page table that maps them.
pub struct MemorySet {
    /// The page table.
    pub page_table: PageTable,
    /// The areas.
    pub areas: Vec<MapArea>,
}

/// No page and no frame belongs to two areas.
pub open spec fn disjoint(areas: Seq<MapArea>) -> bool {
    &&& forall|k: int, l: int, v: int|
        #![trigger areas[k].info(), areas[l].info(), areas[k].has_page(v)]
        0 <= k < areas.len() && 0 <= l < areas.len() && k != l && areas[k].has_page(v)
            ==> !areas[l].has_page(v)
    &&& forall|k: int, l: int, v: int, w: int|
        0 <= k < areas.len() && 0 <= l < areas.len() && k != l
            && #[trigger] areas[k].frames().contains_key(v)
            && #[trigger] areas[l].frames().contains_key(w) ==> areas[k].frames()[v]
            != areas[l].frames()[w]
}

impl MapArea {
    /// Whether page `v` belongs to the area.
    pub open spec fn has_page(&self, v: int) -> bool {
        self.info().start <= v < self.info().end
    }

    /// The area is in order, mapped, and its frames are its own.
    pub open spec fn settled(&self, pages: Map<int, u64>, used: Set<int>, own: Set<int>) -> bool {
        &&& self.wf()
        &&& self.mapped(pages)
        &&& apart(self.frames(), used, own)
    }
}

impl MemorySet {
    /// The areas are mapped by the page table, and nothing belongs to two of
    /// them.
    pub open spec fn wf(&self, m: MemData) -> bool {
        &&& self.page_table.wf(m)
        &&& forall|k: int|
            0 <= k < self.areas@.len() ==> (#[trigger] self.areas@[k]).settled(
                self.page_table.pages(m),
                m.used,
                self.page_table.owned(),
            )
        &&& disjoint(self.areas@)
    }

    /// The pages that are mapped, with their entries.
    pub open spec fn pages(&self, m: MemData) -> Map<int, u64> {
        self.page_table.pages(m)
    }

    /// Where the areas lie, and how they are mapped.
    pub open spec fn infos(&self) -> Seq<AreaInfo> {
        Seq::new(self.areas@.len(), |k: int| self.areas@[k].info())
    }

    /// The bytes of page `v`.
    pub open spec fn page_bytes(&self, m: MemData, v: int) -> Seq<u8> {
        m.pages[page_table::pte_ppn(self.pages(m)[v])]
    }

    /// Whether frame `p` belongs to the address space.
    pub open spec fn owns(&self, p: int) -> bool {
        self.page_table.owned().contains(p) || exists|k: int|
            0 <= k < self.areas@.len() && held_in((#[trigger] self.areas@[k]).frames(), p)
    }

    /// The frames of the address space.
    pub open spec fn frames(&self) -> Set<int> {
        Set::new(|p: int| self.owns(p))
    }

    /// An address space with nothing in it.
    pub fn new_bare(mem: &mut PhysMemory) -> (r: Self)
        requires
            old(mem).wf(),
            old(mem)@.free().len() > 0,
        ensures
            final(mem).wf(),
            final(mem).first() == old(mem).first(),
            r.wf(final(mem)@),
            r.infos() == Seq::<AreaInfo>::empty(),
            r.pages(final(mem)@) == Map::<int, u64>::empty(),
            r.page_table.tables(final(mem)@) == (Tables { l1: Set::empty(), l2: Set::empty() }),
            old(mem)@.free().contains(r.page_table.root()),
            r.page_table.owned() == Set::<int>::empty().insert(r.page_table.root()),
            final(mem)@ == old(mem)@.with_frame(r.page_table.root()),
            old(mem)@.takes_lowest(final(mem)@),
            final(mem)@.free().len() == old(mem)@.free().len() - 1,
    {
        let r = MemorySet { page_table: PageTable::new(mem), areas: Vec::new() };
        assert(r.infos() =~= Seq::<AreaInfo>::empty());
        r
    }

    /// The token of the page table.
    pub fn token(&self) -> (r: u64)
        ensures
            r == page_table::token_of(self.page_table.root()),
            self.page_table.root() < PPN_SPACE ==> r == 0x8000_0000_0000_0000u64
                + self.page_table.root(),
            self.page_table.root() < PPN_SPACE ==> r % PPN_SPACE == self.page_table.root(),
    {
        self.page_table.token()
    }

    /// Adds an area, whose pages must not be mapped yet, and copies `data` to
    /// its start.
    pub fn push(&mut self, map_area: MapArea, data: Option<&[u8]>, mem: &mut PhysMemory)
        requires
            old(mem).wf(),
            old(self).wf(old(mem)@),
            0 <= map_area.info().start <= map_area.info().end <= VPN_SPACE,
            map_area.frames() == Map::<int, int>::empty(),
            can_push(old(self), old(mem)@, map_area.info()),
            data matches Some(d) ==> map_area.info().framed && d@.len() <= (map_area.info().end
                - map_area.info().start) * PAGE_SIZE,
        ensures
            final(mem).wf(),
            final(mem).first() == old(mem).first(),
            pushed(
                old(self),
                old(mem)@,
                final(self),
                final(mem)@,
                map_area.info(),
                data_bytes(data),
            ),
    {
        let ghost s0 = *self;
        let ghost m0 = mem@;
        let ghost own0 = self.page_table.owned();
        let ghost info = map_area.info();
        let mut area = map_area;
        proof {
            mem.lemma_wf();
            assert forall|v: int| info.start <= v < info.end implies !#[trigger] s0.page_table.pages(
                m0,
            ).contains_key(v) by {
                assert(!s0.pages(m0).contains_key(v));
            }
        }
        area.map(&mut self.page_table, mem);
        let ghost m1 = mem@;
        let ghost own1 = self.page_table.owned();
        let ghost fr = area.frames();
        match data {
            Some(d) => {
                area.copy_data(&self.page_table, mem, d);
            },
            None => {
                proof {
                    let none = Seq::<u8>::empty();
                    assert forall|v: int| info.start <= v < info.end implies m1.pages[(
                    #[trigger] fr[v])] == bytes::splice(
                        m1.pages[fr[v]],
                        0,
                        chunk(none, v - info.start),
                    ) by {
                        assert(m1.pages[fr[v]] =~= bytes::splice(
                            m1.pages[fr[v]],
                            0,
                            chunk(none, v - info.start),
                        ));
                    }
                }
            },
        }
        let ghost last = area;
        self.areas.push(area);
        proof {
            lemma_pushed(s0, m0, self.page_table, m1, *self, mem@, last, data_bytes(data));
        }
    }

    /// Adds an area with frames of its own, whose pages must not be mapped yet.
    pub fn insert_framed_area(
        &mut self,
        start_va: VirtAddr,
        end_va: VirtAddr,
        permission: MapPermission,
        mem: &mut PhysMemory,
    )
        requires
            old(mem).wf(),
            old(self).wf(old(mem)@),
            start_va.0 < VA_SPACE,
            end_va.0 < VA_SPACE,
            address::floor_of(start_va.0 as int) <= address::ceil_of(end_va.0 as int),
            can_push(old(self), old(mem)@, framed_info(start_va, end_va, permission)),
        ensures
            final(mem).wf(),
            final(mem).first() == old(mem).first(),
            pushed(
                old(self),
                old(mem)@,
                final(self),
                final(mem)@,
                framed_info(start_va, end_va, permission),
                Seq::<u8>::empty(),
            ),
    {
        let area = MapArea::new(start_va, end_va, MapType::Framed, permission);
        self.push(area, None, mem);
    }
}

/// The bytes that an area starts with.
pub open spec fn data_bytes(data: Option<&[u8]>) -> Seq<u8> {
    match data {
        Some(d) => d@,
        None => Seq::empty(),
    }
}

/// A framed area between two addresses.
pub open spec fn framed_info(
    start_va: VirtAddr,
    end_va: VirtAddr,
    permission: MapPermission,
) -> AreaInfo {
    AreaInfo {
        start: address::floor_of(start_va.0 as int),
        end: address::ceil_of(end_va.0 as int),
        framed: true,
        perm: permission.bits,
    }
}

/// The pages of the area are not mapped, and there are frames enough for them.
pub open spec fn can_push(s: &MemorySet, m: MemData, info: AreaInfo) -> bool {
    &&& forall|v: int| info.start <= v < info.end ==> !#[trigger] s.pages(m).contains_key(v)
    &&& cost_upto(s.page_table.tables(m), info.start, info.end, info.framed) <= m.free().len()
}

/// What adding an area with these bytes at its start does.
pub open spec fn pushed(
    s0: &MemorySet,
    m0: MemData,
    s1: &MemorySet,
    m1: MemData,
    info: AreaInfo,
    data: Seq<u8>,
) -> bool {
    &&& s1.wf(m1)
    &&& s1.page_table.root() == s0.page_table.root()
    &&& s1.infos() == s0.infos().push(info)
    &&& s1.page_table.tables(m1) == tables_upto(s0.page_table.tables(m0), info.start, info.end)
    &&& m1.free().len() == m0.free().len() - cost_upto(
        s0.page_table.tables(m0),
        info.start,
        info.end,
        info.framed,
    )
    &&& forall|v: int| #[trigger]
        s1.pages(m1).contains_key(v) == (s0.pages(m0).contains_key(v) || info.start <= v < info.end)
    &&& forall|v: int| #[trigger] s0.pages(m0).contains_key(v) ==> s1.pages(m1)[v] == s0.pages(m0)[v]
    &&& forall|v: int|
        info.start <= v < info.end ==> (#[trigger] s1.pages(m1)[v]) == page_table::pte(
            if info.framed {
                page_table::pte_ppn(s1.pages(m1)[v])
            } else {
                v
            },
            page_table::with_valid(info.perm),
        )
    &&& info.framed ==> forall|v: int|
        info.start <= v < info.end ==> (#[trigger] s1.page_bytes(m1, v)) == bytes::splice(
            bytes::zeros(4096),
            0,
            chunk(data, v - info.start),
        )
    &&& kept(s0, m0, s1, m1)
}

/// Frames that were in use, and were no tables of the address space, keep their
/// bytes; the address space owns what it owned, and what is newly in use: the first
/// frames that were free.
pub open spec fn kept(s0: &MemorySet, m0: MemData, s1: &MemorySet, m1: MemData) -> bool {
    &&& m1.pages.dom() == m0.pages.dom()
    &&& forall|p: int| #[trigger]
        m0.used.contains(p) && !s0.page_table.owned().contains(p) ==> m1.pages[p] == m0.pages[p]
    &&& forall|p: int| #[trigger] s0.owns(p) ==> s1.owns(p)
    &&& forall|p: int| #[trigger] s1.owns(p) ==> s0.owns(p) || m0.free().contains(p)
    &&& forall|p: int| #[trigger] m1.used.contains(p) == (m0.used.contains(p) || s1.owns(p))
    &&& m0.takes_lowest(m1)
}

/// The new area, between mapping and the end of copying.
proof fn lemma_pushed(
    s0: MemorySet,
    m0: MemData,
    t1: PageTable,
    m1: MemData,
    s2: MemorySet,
    m2: MemData,
    area: MapArea,
    data: Seq<u8>,
)
    requires
        m0.wf(),
        s0.wf(m0),
        s2.page_table == t1,
        s2.areas@ == s0.areas@.push(area),
        area.wf(),
        area.mapped(t1.pages(m1)),
        forall|v: int|
            area.info().start <= v < area.info().end ==> !#[trigger] s0.pages(m0).contains_key(v),
        t1.wf(m1),
        t1.root() == s0.page_table.root(),
        t1.tables(m1) == tables_upto(
            s0.page_table.tables(m0),
            area.info().start,
            area.info().end,
        ),
        t1.pages(m1) == pages_with(
            s0.pages(m0),
            area.info().start,
            area.info().end,
            area,
        ),
        apart(area.frames(), m1.used, t1.owned()),
        extended(
            m0,
            s0.page_table.owned(),
            Map::<int, int>::empty(),
            m1,
            t1.owned(),
            area.frames(),
        ),
        forall|v: int|
            area.info().start <= v < area.info().end && area.info().framed
                ==> m1.pages[(#[trigger] area.frames()[v])] == bytes::zeros(4096),
        m1.free().len() == m0.free().len() - cost_upto(
            s0.page_table.tables(m0),
            area.info().start,
            area.info().end,
            area.info().framed,
        ),
        t1.wf(m2),
        t1.tables(m2) == t1.tables(m1),
        t1.pages(m2) == t1.pages(m1),
        m2.used == m1.used,
        m2.pages.dom() == m1.pages.dom(),
        area.info().framed || data.len() == 0,
        data.len() == 0 ==> m2 == m1 || area.info().framed,
        area.info().framed ==> forall|v: int|
            area.info().start <= v < area.info().end ==> m2.pages[#[trigger] area.frames()[v]]
                == bytes::splice(
                m1.pages[area.frames()[v]],
                0,
                chunk(data, v - area.info().start),
            ),
        forall|p: int| #[trigger]
            m1.pages.contains_key(p) && !held_in(area.frames(), p) ==> m2.pages[p] == m1.pages[p],
    ensures
        pushed(&s0, m0, &s2, m2, area.info(), data),
{
    m1.lemma_takes_none(m2);
    m0.lemma_takes_trans(m1, m2);
    let info = area.info();
    let fr = area.frames();
    let own0 = s0.page_table.owned();
    let n = s0.areas@.len() as int;
    s0.page_table.lemma_wf(m0);
    assert(s2.infos() =~= s0.infos().push(info));
    assert forall|p: int| m0.used.contains(p) implies !#[trigger] held_in(fr, p) by {
        if held_in(fr, p) {
            let v = choose|v: int| #[trigger] fr.contains_key(v) && fr[v] == p;
            assert(m0.free().contains(fr[v]));
        }
    }
    assert forall|p: int| #[trigger] m0.used.contains(p) && !own0.contains(p) implies !t1.owned().contains(
        p,
    ) && m2.pages[p] == m0.pages[p] by {
        assert(!m0.free().contains(p));
        assert(m0.pages.contains_key(p));
        assert(!held_in(fr, p));
        assert(m1.pages.dom().contains(p));
        assert(m1.pages.contains_key(p));
    }
    assert forall|k: int| 0 <= k < s2.areas@.len() implies (#[trigger] s2.areas@[k]).settled(
        t1.pages(m2),
        m2.used,
        t1.owned(),
    ) by {
        if k < n {
            let a = s0.areas@[k];
            assert(a.settled(s0.pages(m0), m0.used, own0));
            assert forall|v: int| #[trigger] a.frames().contains_key(v) implies m2.used.contains(
                a.frames()[v],
            ) && !t1.owned().contains(a.frames()[v]) by {
                assert(m0.used.contains(a.frames()[v]));
            }
            assert forall|v: int| a.info().start <= v < a.info().end implies #[trigger] t1.pages(
                m2,
            ).contains_key(v) && t1.pages(m2)[v] == a.entry(v) by {
                assert(s0.pages(m0).contains_key(v));
            }
        }
    }
    assert(disjoint(s2.areas@)) by {
        assert forall|k: int, l: int, v: int|
            #![trigger s2.areas@[k].info(), s2.areas@[l].info(), s2.areas@[k].has_page(v)]
            0 <= k < s2.areas@.len() && 0 <= l < s2.areas@.len() && k != l
                && s2.areas@[k].has_page(v) implies !s2.areas@[l].has_page(v) by {
            if k < n && l < n {
                assert(s0.areas@[k].info() == s2.areas@[k].info());
                assert(s0.areas@[l].info() == s2.areas@[l].info());
                assert(s0.areas@[k].has_page(v));
            } else if k < n {
                assert(s0.areas@[k].settled(s0.pages(m0), m0.used, own0));
                assert(s0.pages(m0).contains_key(v));
            } else {
                if s2.areas@[l].has_page(v) {
                    assert(s0.areas@[l].settled(s0.pages(m0), m0.used, own0));
                    assert(s0.pages(m0).contains_key(v));
                }
            }
        }
        assert forall|k: int, l: int, v: int, w: int|
            0 <= k < s2.areas@.len() && 0 <= l < s2.areas@.len() && k != l
                && #[trigger] s2.areas@[k].frames().contains_key(v)
                && #[trigger] s2.areas@[l].frames().contains_key(
                w,
            ) implies s2.areas@[k].frames()[v] != s2.areas@[l].frames()[w] by {
            if k < n && l < n {
                assert(s0.areas@[k].frames().contains_key(v));
                assert(s0.areas@[l].frames().contains_key(w));
            } else if k < n {
                assert(s0.areas@[k].settled(s0.pages(m0), m0.used, own0));
                assert(m0.used.contains(s0.areas@[k].frames()[v]));
                assert(!held_in(fr, s0.areas@[k].frames()[v]));
            } else {
                assert(s0.areas@[l].settled(s0.pages(m0), m0.used, own0));
                assert(m0.used.contains(s0.areas@[l].frames()[w]));
                assert(!held_in(fr, s0.areas@[l].frames()[w]));
            }
        }
    }
    assert forall|v: int| info.start <= v < info.end implies (#[trigger] s2.pages(m2)[v])
        == page_table::pte(
        if info.framed {
            page_table::pte_ppn(s2.pages(m2)[v])
        } else {
            v
        },
        page_table::with_valid(info.perm),
    ) by {
        if info.framed {
            assert(fr.contains_key(v));
            page_table::lemma_pte(fr[v], page_table::with_valid(info.perm));
        }
    }
    if info.framed {
        assert forall|v: int| info.start <= v < info.end implies (#[trigger] s2.page_bytes(m2, v))
            == bytes::splice(bytes::zeros(4096), 0, chunk(data, v - info.start)) by {
            assert(fr.contains_key(v));
            page_table::lemma_pte(fr[v], page_table::with_valid(info.perm));
            assert(m2.pages[fr[v]] == bytes::splice(
                m1.pages[fr[v]],
                0,
                chunk(data, v - info.start),
            ));
        }
    }
    assert forall|p: int| #[trigger] s2.owns(p) == (t1.owned().contains(p) || held_in(fr, p) || (
    s0.owns(p) && !own0.contains(p)) || s0.owns(p)) by {
        if held_in(fr, p) {
            assert(held_in(s2.areas@[n].frames(), p));
        }
        if s0.owns(p) && !own0.contains(p) {
            let k = choose|k: int|
                0 <= k < s0.areas@.len() && held_in((#[trigger] s0.areas@[k]).frames(), p);
            assert(held_in(s2.areas@[k].frames(), p));
        }
        if s2.owns(p) && !t1.owned().contains(p) {
            let k = choose|k: int|
                0 <= k < s2.areas@.len() && held_in((#[trigger] s2.areas@[k]).frames(), p);
            if k < n {
                assert(held_in(s0.areas@[k].frames(), p));
            }
        }
    }
    assert forall|p: int| #[trigger] s2.owns(p) implies s0.owns(p) || m0.free().contains(p) by {
        if held_in(fr, p) {
            let v = choose|v: int| #[trigger] fr.contains_key(v) && fr[v] == p;
            assert(m0.free().contains(fr[v]));
        }
    }
    assert forall|p: int| s0.owns(p) implies #[trigger] m0.used.contains(p) by {
        if !own0.contains(p) {
            let k = choose|k: int|
                0 <= k < s0.areas@.len() && held_in((#[trigger] s0.areas@[k]).frames(), p);
            let a = s0.areas@[k];
            assert(a.settled(s0.pages(m0), m0.used, own0));
            let v = choose|v: int| #[trigger] a.frames().contains_key(v) && a.frames()[v] == p;
            assert(m0.used.contains(a.frames()[v]));
        }
    }
    assert forall|p: int| #[trigger] m2.used.contains(p) == (m0.used.contains(p) || s2.owns(
        p,
    )) by {
        assert(m1.used.contains(p) == (m0.used.contains(p) || t1.owned().contains(p) || held_in(
            fr,
            p,
        )));
    }
}

/// The first area that starts at page `v`.
pub open spec fn area_at(infos: Seq<AreaInfo>, v: int, k: int) -> Option<int>
    decreases infos.len() - k,
{
    if k >= infos.len() {
        None
    } else if infos[k].start == v {
        Some(k)
    } else {
        area_at(infos, v, k + 1)
    }
}

/// The area that starts at the page of address `start`, if there is one, can be
/// shrunk to end at address `new_end`.
pub open spec fn can_shrink(s: &MemorySet, start: int, new_end: int) -> bool {
    &&& new_end <= u64::MAX - PAGE_SIZE
    &&& area_at(s.infos(), address::floor_of(start), 0) matches Some(k) ==> s.infos()[k].start
        <= address::ceil_of(new_end) <= s.infos()[k].end
}

/// That area was shrunk: the pages behind its new end are not mapped any more,
/// and their frames are free.
pub open spec fn shrunk_to(
    s0: &MemorySet,
    m0: MemData,
    s1: &MemorySet,
    m1: MemData,
    start: int,
    new_end: int,
) -> bool {
    let k = area_at(s0.infos(), address::floor_of(start), 0)->0;
    let info = s0.infos()[k];
    let end = address::ceil_of(new_end);
    &&& s1.wf(m1)
    &&& s1.infos() == s0.infos().update(k, (AreaInfo { end, ..info }))
    &&& s1.pages(m1) == pages_without(s0.pages(m0), end, info.end)
    &&& s1.page_table.root() == s0.page_table.root()
    &&& shrunk(s0, m0, s1, m1)
    &&& m1.free().len() == m0.free().len() + (if info.framed {
        info.end - end
    } else {
        0
    })
}

/// The area that starts at the page of address `start`, if there is one, can be
/// extended to end at address `new_end`.
pub open spec fn can_append_to(s: &MemorySet, m: MemData, start: int, new_end: int) -> bool {
    &&& new_end <= u64::MAX - PAGE_SIZE
    &&& area_at(s.infos(), address::floor_of(start), 0) matches Some(k) ==> {
        let info = s.infos()[k];
        let end = address::ceil_of(new_end);
        &&& info.end <= end <= VPN_SPACE
        &&& can_push(s, m, (AreaInfo { start: info.end, end, ..info }))
    }
}

/// That area was extended: the pages up to its new end are mapped too.
pub open spec fn appended_to(
    s0: &MemorySet,
    m0: MemData,
    s1: &MemorySet,
    m1: MemData,
    start: int,
    new_end: int,
) -> bool {
    let k = area_at(s0.infos(), address::floor_of(start), 0)->0;
    let info = s0.infos()[k];
    let end = address::ceil_of(new_end);
    &&& s1.wf(m1)
    &&& s1.infos() == s0.infos().update(k, (AreaInfo { end, ..info }))
    &&& s1.page_table.root() == s0.page_table.root()
    &&& appended(s0, m0, s1, m1, (AreaInfo { start: info.end, end, ..info }))
}

/// Area `k` was changed between the two states, and no other.
pub open spec fn one_changed(s0: MemorySet, m0: MemData, s1: MemorySet, m1: MemData, k: int) -> bool {
    &&& 0 <= k < s0.areas@.len()
    &&& s1.areas@.len() == s0.areas@.len()
    &&& forall|l: int|
        0 <= l < s0.areas@.len() && l != k ==> #[trigger] s1.areas@[l] == s0.areas@[l]
    &&& s1.page_table.wf(m1)
    &&& s1.areas@[k].settled(s1.pages(m1), m1.used, s1.page_table.owned())
    &&& forall|v: int|
        !s0.areas@[k].has_page(v) && !s1.areas@[k].has_page(v) ==> #[trigger] s1.pages(
            m1,
        ).contains_key(v) == s0.pages(m0).contains_key(v) && (s0.pages(m0).contains_key(v)
            ==> s1.pages(m1)[v] == s0.pages(m0)[v])
    &&& forall|v: int|
        s1.areas@[k].has_page(v) && !s0.areas@[k].has_page(v) ==> !#[trigger] s0.pages(
            m0,
        ).contains_key(v)
    &&& forall|p: int|
        m0.used.contains(p) && !held_in(s0.areas@[k].frames(), p) ==> #[trigger] m1.used.contains(p)
    &&& forall|p: int| #[trigger]
        s1.page_table.owned().contains(p) ==> s0.page_table.owned().contains(p)
            || m0.free().contains(p)
    &&& forall|v: int| #[trigger]
        s1.areas@[k].frames().contains_key(v) ==> (s0.areas@[k].frames().contains_key(v)
            && s0.areas@[k].frames()[v] == s1.areas@[k].frames()[v]) || m0.free().contains(
            s1.areas@[k].frames()[v],
        )
}

/// A change of one area keeps the address space in order.
proof fn lemma_one_changed(s0: MemorySet, m0: MemData, s1: MemorySet, m1: MemData, k: int)
    requires
        s0.wf(m0),
        one_changed(s0, m0, s1, m1, k),
    ensures
        s1.wf(m1),
{
    let own0 = s0.page_table.owned();
    let own1 = s1.page_table.owned();
    let b0 = s0.areas@[k];
    let b1 = s1.areas@[k];
    assert(b0.settled(s0.pages(m0), m0.used, own0));
    assert forall|l: int| 0 <= l < s1.areas@.len() implies (#[trigger] s1.areas@[l]).settled(
        s1.page_table.pages(m1),
        m1.used,
        own1,
    ) by {
        if l != k {
            let a = s0.areas@[l];
            assert(s1.areas@[l] == a);
            assert(a.settled(s0.page_table.pages(m0), m0.used, own0));
            assert forall|v: int| a.info().start <= v < a.info().end implies #[trigger] s1.page_table.pages(
                m1,
            ).contains_key(v) && s1.page_table.pages(m1)[v] == a.entry(v) by {
                assert(s0.page_table.pages(m0).contains_key(v));
                assert(s0.areas@[l].has_page(v));
                assert(s0.areas@[k].info() == s0.areas@[k].info());
                assert(!b0.has_page(v));
                assert(s0.pages(m0).contains_key(v));
                assert(!b1.has_page(v));
                assert(s1.pages(m1).contains_key(v) == s0.pages(m0).contains_key(v));
            }
            assert forall|v: int| #[trigger] a.frames().contains_key(v) implies m1.used.contains(
                a.frames()[v],
            ) && !own1.contains(a.frames()[v]) by {
                let p = a.frames()[v];
                assert(m0.used.contains(p));
                if held_in(b0.frames(), p) {
                    let w = choose|w: int| #[trigger] b0.frames().contains_key(w) && b0.frames()[w]
                        == p;
                    assert(s0.areas@[k].frames().contains_key(w));
                }
                assert(m1.used.contains(p));
            }
        }
    }
    assert forall|x: int, y: int, v: int|
        #![trigger s1.areas@[x].info(), s1.areas@[y].info(), s1.areas@[x].has_page(v)]
        0 <= x < s1.areas@.len() && 0 <= y < s1.areas@.len() && x != y && s1.areas@[x].has_page(
            v,
        ) implies !s1.areas@[y].has_page(v) by {
        if s1.areas@[y].has_page(v) {
            let o = if x == k {
                y
            } else {
                x
            };
            let a = s0.areas@[o];
            if x != k && y != k {
                assert(s0.areas@[x].info() == s1.areas@[x].info());
                assert(s0.areas@[y].info() == s1.areas@[y].info());
                assert(s0.areas@[x].has_page(v));
            } else {
                assert(s1.areas@[o] == a);
                assert(a.has_page(v));
                assert(a.settled(s0.pages(m0), m0.used, own0));
                assert(s0.pages(m0).contains_key(v));
                assert(b0.has_page(v));
                assert(s0.areas@[o].info() == a.info() && s0.areas@[k].info() == b0.info());
                assert(s0.areas@[o].has_page(v));
            }
        }
    }
    assert forall|x: int, y: int, v: int, w: int|
        0 <= x < s1.areas@.len() && 0 <= y < s1.areas@.len() && x != y
            && #[trigger] s1.areas@[x].frames().contains_key(v)
            && #[trigger] s1.areas@[y].frames().contains_key(w) implies s1.areas@[x].frames()[v]
        != s1.areas@[y].frames()[w] by {
        if x != k && y != k {
            assert(s0.areas@[x].frames().contains_key(v));
            assert(s0.areas@[y].frames().contains_key(w));
        } else {
            let (o, vo, vk) = if x == k {
                (y, w, v)
            } else {
                (x, v, w)
            };
            let a = s0.areas@[o];
            assert(s1.areas@[o] == a);
            assert(a.frames().contains_key(vo));
            assert(a.settled(s0.pages(m0), m0.used, own0));
            assert(m0.used.contains(a.frames()[vo]));
            assert(b1.frames().contains_key(vk));
            if b0.frames().contains_key(vk) && b0.frames()[vk] == b1.frames()[vk] {
                assert(s0.areas@[o].frames()[vo] != s0.areas@[k].frames()[vk]);
            }
        }
    }
}

impl MemorySet {
    /// The place of the first area that starts at the page.
    fn find_area(&self, vpn: VirtPageNum) -> (r: Option<usize>)
        ensures
            match r {
                Some(k) => {
                    &&& k < self.areas@.len()
                    &&& area_at(self.infos(), vpn.0 as int, 0) == Some(k as int)
                    &&& self.areas@[k as int].info().start == vpn.0
                },
                None => area_at(self.infos(), vpn.0 as int, 0) is None,
            },
    {
        let mut k: usize = 0;
        while k < self.areas.len()
            invariant
                k <= self.areas@.len(),
                area_at(self.infos(), vpn.0 as int, 0) == area_at(
                    self.infos(),
                    vpn.0 as int,
                    k as int,
                ),
            decreases self.areas@.len() - k,
        {
            if self.areas[k].vpn_range.get_start().0 == vpn.0 {
                return Some(k);
            }
            k += 1;
        }
        None
    }

    /// The entry for a page, if there is a table for it.
    pub fn translate(&self, mem: &PhysMemory, vpn: VirtPageNum) -> (r: Option<PageTableEntry>)
        requires
            mem.wf(),
            page_table::walkable(mem@, self.page_table.root()),
        ensures
            match page_table::lookup(mem@, self.page_table.root(), vpn.0 as int) {
                Some(bits) => r == Some(PageTableEntry { bits }),
                None => r is None,
            },
    {
        self.page_table.translate(mem, vpn)
    }

    /// Shrinks the area that starts at `start` to end at `new_end`; false if
    /// there is none.
    pub fn shrink_to(&mut self, start: VirtAddr, new_end: VirtAddr, mem: &mut PhysMemory) -> (r:
        bool)
        requires
            old(mem).wf(),
            old(self).wf(old(mem)@),
            can_shrink(old(self), start.0 as int, new_end.0 as int),
        ensures
            final(mem).wf(),
            final(mem).first() == old(mem).first(),
            r == (area_at(old(self).infos(), address::floor_of(start.0 as int), 0) is Some),
            r ==> shrunk_to(
                old(self),
                old(mem)@,
                final(self),
                final(mem)@,
                start.0 as int,
                new_end.0 as int,
            ),
            !r ==> final(mem)@ == old(mem)@ && *final(self) == *old(self),
    {
        let ghost s0 = *self;
        let ghost m0 = mem@;
        match self.find_area(start.floor()) {
            Some(k) => {
                let ghost a0 = self.areas@[k as int];
                proof {
                    assert(a0.settled(self.page_table.pages(m0), m0.used, self.page_table.owned()));
                    assert(self.infos()[k as int] == a0.info());
                }
                let end: VirtPageNum = new_end.ceil();
                self.areas[k].shrink_to(&mut self.page_table, mem, end);
                proof {
                    let m1 = mem@;
                    let a1 = self.areas@[k as int];
                    s0.page_table.lemma_wf(m0);
                    assert forall|v: int|
                        !a0.has_page(v) && !a1.has_page(v) implies #[trigger] self.pages(
                        m1,
                    ).contains_key(v) == s0.pages(m0).contains_key(v) && (s0.pages(
                        m0,
                    ).contains_key(v) ==> self.pages(m1)[v] == s0.pages(m0)[v]) by {}
                    assert forall|p: int|
                        m0.used.contains(p) && !held_in(
                            a0.frames(),
                            p,
                        ) implies #[trigger] m1.used.contains(p) by {
                        if held_between(a0.frames(), end.0 as int, a0.info().end, p) {
                            let v = choose|v: int|
                                #[trigger] a0.frames().contains_key(v) && end.0 <= v
                                    < a0.info().end && a0.frames()[v] == p;
                            assert(held_in(a0.frames(), p));
                        }
                    }
                    lemma_one_changed(s0, m0, *self, m1, k as int);
                    assert(self.infos() =~= s0.infos().update(
                        k as int,
                        (AreaInfo { end: end.0 as int, ..a0.info() }),
                    ));
                    lemma_shrunk(s0, m0, *self, m1, k as int);
                }
                true
            },
            None => false,
        }
    }

    /// Extends the area that starts at `start` to end at `new_end`; false if
    /// there is none.
    pub fn append_to(&mut self, start: VirtAddr, new_end: VirtAddr, mem: &mut PhysMemory) -> (r:
        bool)
        requires
            old(mem).wf(),
            old(self).wf(old(mem)@),
            can_append_to(old(self), old(mem)@, start.0 as int, new_end.0 as int),
        ensures
            final(mem).wf(),
            final(mem).first() == old(mem).first(),
            r == (area_at(old(self).infos(), address::floor_of(start.0 as int), 0) is Some),
            r ==> appended_to(
                old(self),
                old(mem)@,
                final(self),
                final(mem)@,
                start.0 as int,
                new_end.0 as int,
            ),
            !r ==> final(mem)@ == old(mem)@ && *final(self) == *old(self),
    {
        let ghost s0 = *self;
        let ghost m0 = mem@;
        proof {
            mem.lemma_wf();
        }
        match self.find_area(start.floor()) {
            Some(k) => {
                let ghost a0 = self.areas@[k as int];
                let end: VirtPageNum = new_end.ceil();
                proof {
                    assert(a0.settled(self.page_table.pages(m0), m0.used, self.page_table.owned()));
                    assert(self.infos()[k as int] == a0.info());
                    assert forall|v: int| a0.info().end <= v < end.0 implies !#[trigger] s0.page_table.pages(
                        m0,
                    ).contains_key(v) by {
                        assert(!s0.pages(m0).contains_key(v));
                    }
                }
                self.areas[k].append_to(&mut self.page_table, mem, end);
                proof {
                    let m1 = mem@;
                    let a1 = self.areas@[k as int];
                    s0.page_table.lemma_wf(m0);
                    assert forall|v: int|
                        !a0.has_page(v) && !a1.has_page(v) implies #[trigger] self.pages(
                        m1,
                    ).contains_key(v) == s0.pages(m0).contains_key(v) && (s0.pages(
                        m0,
                    ).contains_key(v) ==> self.pages(m1)[v] == s0.pages(m0)[v]) by {}
                    lemma_one_changed(s0, m0, *self, m1, k as int);
                    assert(self.infos() =~= s0.infos().update(
                        k as int,
                        (AreaInfo { end: end.0 as int, ..a0.info() }),
                    ));
                    lemma_appended(s0, m0, *self, m1, k as int);
                }
                true
            },
            None => false,
        }
    }
}

/// What giving pages up does to memory: no frame but tables of the address
/// space is written, and what is not in use any more belonged to it.
pub open spec fn shrunk(s0: &MemorySet, m0: MemData, s1: &MemorySet, m1: MemData) -> bool {
    &&& m1.pages.dom() == m0.pages.dom()
    &&& s1.page_table.owned() == s0.page_table.owned()
    &&& s1.page_table.tables(m1) == s0.page_table.tables(m0)
    &&& forall|p: int| #[trigger]
        m0.pages.contains_key(p) && !s0.page_table.owned().contains(p) ==> m1.pages[p]
            == m0.pages[p]
    &&& forall|p: int| #[trigger] s1.owns(p) ==> s0.owns(p)
    &&& forall|p: int| #[trigger]
        m1.used.contains(p) == (m0.used.contains(p) && (s0.owns(p) ==> s1.owns(p)))
}

/// What mapping more pages of an area does; they hold zeros.
pub open spec fn appended(
    s0: &MemorySet,
    m0: MemData,
    s1: &MemorySet,
    m1: MemData,
    info: AreaInfo,
) -> bool {
    &&& s1.page_table.tables(m1) == tables_upto(s0.page_table.tables(m0), info.start, info.end)
    &&& m1.free().len() == m0.free().len() - cost_upto(
        s0.page_table.tables(m0),
        info.start,
        info.end,
        info.framed,
    )
    &&& forall|v: int| #[trigger]
        s1.pages(m1).contains_key(v) == (s0.pages(m0).contains_key(v) || info.start <= v < info.end)
    &&& forall|v: int| #[trigger] s0.pages(m0).contains_key(v) ==> s1.pages(m1)[v] == s0.pages(m0)[v]
    &&& forall|v: int|
        info.start <= v < info.end ==> (#[trigger] s1.pages(m1)[v]) == page_table::pte(
            if info.framed {
                page_table::pte_ppn(s1.pages(m1)[v])
            } else {
                v
            },
            page_table::with_valid(info.perm),
        )
    &&& info.framed ==> forall|v: int|
        info.start <= v < info.end ==> (#[trigger] s1.page_bytes(m1, v)) == bytes::zeros(4096)
    &&& kept(s0, m0, s1, m1)
}

/// Whether the address space owns a frame, where one area was changed.
proof fn lemma_owns_changed(s0: MemorySet, s1: MemorySet, k: int, p: int)
    requires
        0 <= k < s0.areas@.len(),
        s1.areas@.len() == s0.areas@.len(),
        forall|l: int|
            0 <= l < s0.areas@.len() && l != k ==> #[trigger] s1.areas@[l] == s0.areas@[l],
    ensures
        s1.owns(p) ==> s0.owns(p) || s1.page_table.owned().contains(p) || held_in(
            s1.areas@[k].frames(),
            p,
        ),
        s0.owns(p) ==> s1.owns(p) || s0.page_table.owned().contains(p) || held_in(
            s0.areas@[k].frames(),
            p,
        ),
        held_in(s1.areas@[k].frames(), p) ==> s1.owns(p),
        held_in(s0.areas@[k].frames(), p) ==> s0.owns(p),
{
    if s1.owns(p) && !s1.page_table.owned().contains(p) {
        let l = choose|l: int|
            0 <= l < s1.areas@.len() && held_in((#[trigger] s1.areas@[l]).frames(), p);
        if l != k {
            assert(held_in(s0.areas@[l].frames(), p));
        }
    }
    if s0.owns(p) && !s0.page_table.owned().contains(p) {
        let l = choose|l: int|
            0 <= l < s0.areas@.len() && held_in((#[trigger] s0.areas@[l]).frames(), p);
        if l != k {
            assert(held_in(s1.areas@[l].frames(), p));
        }
    }
}

/// A frame of an area is no frame of another one, and no table.
pub proof fn lemma_held_once(s: MemorySet, m: MemData, k: int, p: int)
    requires
        s.wf(m),
        0 <= k < s.areas@.len(),
        held_in(s.areas@[k].frames(), p),
    ensures
        m.used.contains(p),
        !s.page_table.owned().contains(p),
        forall|l: int|
            0 <= l < s.areas@.len() && l != k ==> !held_in((#[trigger] s.areas@[l]).frames(), p),
{
    let a = s.areas@[k];
    assert(a.settled(s.page_table.pages(m), m.used, s.page_table.owned()));
    let v = choose|v: int| #[trigger] a.frames().contains_key(v) && a.frames()[v] == p;
    assert(m.used.contains(a.frames()[v]));
    assert forall|l: int| 0 <= l < s.areas@.len() && l != k implies !held_in(
        (#[trigger] s.areas@[l]).frames(),
        p,
    ) by {
        if held_in(s.areas@[l].frames(), p) {
            let w = choose|w: int| #[trigger]
                s.areas@[l].frames().contains_key(w) && s.areas@[l].frames()[w] == p;
            assert(s.areas@[k].frames().contains_key(v));
        }
    }
}

proof fn lemma_shrunk(s0: MemorySet, m0: MemData, s1: MemorySet, m1: MemData, k: int)
    requires
        s0.wf(m0),
        s1.wf(m1),
        one_changed(s0, m0, s1, m1, k),
        unmapped_range(
            s0.areas@[k],
            s0.page_table,
            m0,
            s1.areas@[k],
            s1.page_table,
            m1,
            s1.areas@[k].info().end,
            s0.areas@[k].info().end,
        ),
    ensures
        shrunk(&s0, m0, &s1, m1),
{
    let fr0 = s0.areas@[k].frames();
    let fr1 = s1.areas@[k].frames();
    let end = s1.areas@[k].info().end;
    let last = s0.areas@[k].info().end;
    assert forall|p: int| held_in(fr1, p) implies held_in(fr0, p) by {
        let v = choose|v: int| #[trigger] fr1.contains_key(v) && fr1[v] == p;
        assert(fr0.contains_key(v));
    }
    assert forall|p: int| #[trigger] s1.owns(p) implies s0.owns(p) by {
        lemma_owns_changed(s0, s1, k, p);
    }
    s0.page_table.lemma_wf(m0);
    assert forall|p: int| #[trigger] m1.used.contains(p) == (m0.used.contains(p) && (s0.owns(p)
        ==> s1.owns(p))) by {
        lemma_owns_changed(s0, s1, k, p);
        if held_between(fr0, end, last, p) {
            let v = choose|v: int| #[trigger]
                fr0.contains_key(v) && end <= v < last && fr0[v] == p;
            assert(held_in(fr0, p));
            lemma_held_once(s0, m0, k, p);
            if s1.owns(p) {
                if held_in(fr1, p) {
                    let w = choose|w: int| #[trigger] fr1.contains_key(w) && fr1[w] == p;
                    assert(fr0.contains_key(w));
                    assert(s0.areas@[k].settled(
                        s0.page_table.pages(m0),
                        m0.used,
                        s0.page_table.owned(),
                    ));
                    assert(fr0[v] != fr0[w]);
                } else {
                    let l = choose|l: int|
                        0 <= l < s1.areas@.len() && held_in((#[trigger] s1.areas@[l]).frames(), p);
                    assert(l != k);
                    assert(s1.areas@[l] == s0.areas@[l]);
                    assert(held_in(s0.areas@[l].frames(), p));
                }
            }
        } else if m0.used.contains(p) && s0.owns(p) {
            if held_in(fr0, p) {
                let v = choose|v: int| #[trigger] fr0.contains_key(v) && fr0[v] == p;
                assert(fr1.contains_key(v));
                assert(held_in(fr1, p));
            }
        }
    }
}

proof fn lemma_appended(s0: MemorySet, m0: MemData, s1: MemorySet, m1: MemData, k: int)
    requires
        m0.wf(),
        s0.wf(m0),
        s1.wf(m1),
        one_changed(s0, m0, s1, m1, k),
        s1.areas@[k].info() == (AreaInfo {
            end: s1.areas@[k].info().end,
            ..s0.areas@[k].info()
        }),
        s0.areas@[k].info().end <= s1.areas@[k].info().end,
        mapped_range(
            s0.areas@[k],
            s0.page_table,
            m0,
            s1.areas@[k],
            s1.page_table,
            m1,
            s0.areas@[k].info().end,
            s1.areas@[k].info().end,
        ),
    ensures
        appended(
            &s0,
            m0,
            &s1,
            m1,
            (AreaInfo { start: s0.areas@[k].info().end, ..s1.areas@[k].info() }),
        ),
{
    let a0 = s0.areas@[k];
    let a1 = s1.areas@[k];
    let fr0 = a0.frames();
    let fr1 = a1.frames();
    let own0 = s0.page_table.owned();
    let own1 = s1.page_table.owned();
    let info = AreaInfo { start: a0.info().end, ..a1.info() };
    s0.page_table.lemma_wf(m0);
    assert(a0.settled(s0.page_table.pages(m0), m0.used, own0));
    assert(a1.settled(s1.page_table.pages(m1), m1.used, own1));
    assert forall|v: int| info.start <= v < info.end implies (#[trigger] s1.pages(m1)[v])
        == page_table::pte(
        if info.framed {
            page_table::pte_ppn(s1.pages(m1)[v])
        } else {
            v
        },
        page_table::with_valid(info.perm),
    ) by {
        if info.framed {
            assert(fr1.contains_key(v));
            page_table::lemma_pte(fr1[v], page_table::with_valid(info.perm));
        }
    }
    if info.framed {
        assert forall|v: int| info.start <= v < info.end implies (#[trigger] s1.page_bytes(m1, v))
            == bytes::zeros(4096) by {
            assert(fr1.contains_key(v));
            page_table::lemma_pte(fr1[v], page_table::with_valid(info.perm));
            assert(m1.pages[fr1[v]] == bytes::zeros(4096));
        }
    }
    assert forall|p: int| held_in(fr0, p) implies held_in(fr1, p) by {
        let v = choose|v: int| #[trigger] fr0.contains_key(v) && fr0[v] == p;
        assert(fr1.contains_key(v));
    }
    assert forall|p: int| held_in(fr1, p) implies held_in(fr0, p) || m0.free().contains(p) by {
        let v = choose|v: int| #[trigger] fr1.contains_key(v) && fr1[v] == p;
        if fr0.contains_key(v) {
            assert(fr1[v] == fr0[v]);
        }
    }
    assert forall|p: int| #[trigger] s0.owns(p) implies s1.owns(p) by {
        lemma_owns_changed(s0, s1, k, p);
    }
    assert forall|p: int| #[trigger] s1.owns(p) implies s0.owns(p) || m0.free().contains(p) by {
        lemma_owns_changed(s0, s1, k, p);
    }
    assert forall|p: int| #[trigger] m0.used.contains(p) && !own0.contains(p) implies m1.pages[p]
        == m0.pages[p] by {
        assert(m0.pages.contains_key(p));
        assert(!m0.free().contains(p));
        if held_in(fr1, p) {
            let v = choose|v: int| #[trigger] fr1.contains_key(v) && fr1[v] == p;
            if fr0.contains_key(v) {
                assert(fr1[v] == fr0[v]);
            } else {
                assert(m0.free().contains(fr1[v]));
            }
        }
    }
    assert forall|p: int| #[trigger] m1.used.contains(p) == (m0.used.contains(p) || s1.owns(
        p,
    )) by {
        lemma_owns_changed(s0, s1, k, p);
        if s1.owns(p) && !own1.contains(p) && !held_in(fr1, p) {
            let l = choose|l: int|
                0 <= l < s1.areas@.len() && held_in((#[trigger] s1.areas@[l]).frames(), p);
            lemma_held_once(s1, m1, l, p);
        }
    }
}

} // verus!
