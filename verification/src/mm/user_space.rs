//! Address spaces of user programs.
use super::address;
use super::address::{PhysPageNum, VirtAddr, VirtPageNum, PA_SPACE, VA_SPACE, VPN_SPACE};
use super::elf;
use super::elf::{parse_elf, ElfImage, ProgramHeader};
use super::frame_allocator::{MemData, PhysMemory};
use super::kernel_space;
use super::memory_set;
use super::memory_set::{
    AreaInfo, MapArea, MapPermission, MapType, MemorySet, MAP_R, MAP_U, MAP_W, MAP_X,
};
use super::page_table;
use crate::config::{PAGE_SIZE, TRAMPOLINE, TRAP_CONTEXT_BASE, USER_STACK_SIZE};
use crate::easy_fs::bytes;
use vstd::prelude::*;
use vstd::slice::slice_subrange;

verus! {

/// The page of the trap context, just below the trampoline.
pub const TRAP_CONTEXT_VPN: u64 = 0x7ff_fffe;

/// The permissions of a segment: users may access it as its flags say.
pub open spec fn segment_perm(p: ProgramHeader) -> u8 {
    (MAP_U + (if p.readable {
        MAP_R
    } else {
        0
    }) + (if p.writable {
        MAP_W
    } else {
        0
    }) + (if p.executable {
        MAP_X
    } else {
        0
    })) as u8
}

/// A framed area between two addresses.
pub open spec fn user_info(start: int, end: int, perm: u8) -> AreaInfo {
    AreaInfo {
        start: address::floor_of(start % VA_SPACE as int),
        end: address::ceil_of(end % VA_SPACE as int),
        framed: true,
        perm,
    }
}

/// The area of a segment.
pub open spec fn segment_info(p: ProgramHeader) -> AreaInfo {
    user_info(p.virtual_addr as int, p.virtual_addr + p.mem_size, segment_perm(p))
}

/// The bytes of a segment in the file.
pub open spec fn segment_data(p: ProgramHeader, d: Seq<u8>) -> Seq<u8> {
    d.subrange(p.offset as int, p.offset + p.file_size)
}

/// The segment has a place, and its bytes lie in the file and fit.
pub open spec fn segment_ok(p: ProgramHeader, d: Seq<u8>) -> bool {
    &&& p.virtual_addr + p.mem_size <= u64::MAX
    &&& p.offset + p.file_size <= d.len()
    &&& p.file_size <= (segment_info(p).end - segment_info(p).start) * PAGE_SIZE
}

/// The page behind all segments: the largest of their ends, or 0 if there is no
/// segment.
pub open spec fn load_end(segments: Seq<ProgramHeader>) -> int
    decreases segments.len(),
{
    if segments.len() == 0 {
        0
    } else {
        let before = load_end(segments.drop_last());
        let end = segment_info(segments.last()).end;
        if end > before {
            end
        } else {
            before
        }
    }
}

/// No segment ends behind that page, and one ends there, if there is any.
pub proof fn lemma_load_end(segments: Seq<ProgramHeader>)
    ensures
        0 <= load_end(segments) <= VPN_SPACE,
        forall|k: int|
            0 <= k < segments.len() ==> segment_info(#[trigger] segments[k]).end <= load_end(
                segments,
            ),
        load_end(segments) == 0 || exists|k: int|
            0 <= k < segments.len() && segment_info(#[trigger] segments[k]).end == load_end(
                segments,
            ),
    decreases segments.len(),
{
    if segments.len() > 0 {
        let rest = segments.drop_last();
        lemma_load_end(rest);
        assert forall|k: int| 0 <= k < segments.len() implies segment_info(
            #[trigger] segments[k],
        ).end <= load_end(segments) by {
            if k < rest.len() {
                assert(rest[k] == segments[k]);
            }
        }
        if load_end(segments) > 0 {
            if load_end(segments) == load_end(rest) {
                let k = choose|k: int|
                    0 <= k < rest.len() && segment_info(#[trigger] rest[k]).end == load_end(rest);
                assert(segments[k] == rest[k]);
            } else {
                assert(segments[segments.len() - 1] == segments.last());
            }
        }
    }
}

/// Where the user stack starts: above all segments and a guard page.
pub open spec fn stack_bottom(segments: Seq<ProgramHeader>) -> int {
    address::extended((load_end(segments) * 4096) as u64) + PAGE_SIZE
}

/// Where the user stack ends, and the heap starts.
pub open spec fn stack_top(segments: Seq<ProgramHeader>) -> int {
    stack_bottom(segments) + USER_STACK_SIZE
}

/// The areas of a program: its segments, its stack, its heap, which is empty, and
/// its trap context.
pub open spec fn image_infos(segments: Seq<ProgramHeader>) -> Seq<AreaInfo> {
    let n = segments.len();
    Seq::new(
        n + 3,
        |k: int|
            if k < n {
                segment_info(segments[k])
            } else if k == n {
                user_info(stack_bottom(segments), stack_top(segments), 0x16)
            } else if k == n + 1 {
                user_info(stack_top(segments), stack_top(segments), 0x16)
            } else {
                user_info(TRAP_CONTEXT_BASE as int, TRAMPOLINE as int, 0x06)
            },
    )
}

/// The bytes of those areas.
pub open spec fn image_data(segments: Seq<ProgramHeader>, d: Seq<u8>) -> Seq<Seq<u8>> {
    let n = segments.len();
    Seq::new(
        n + 3,
        |k: int|
            if k < n {
                segment_data(segments[k], d)
            } else {
                Seq::empty()
            },
    )
}

/// The program can be loaded: its areas have places, and there are frames for
/// them.
pub open spec fn image_fits(segments: Seq<ProgramHeader>, d: Seq<u8>, m: MemData) -> bool {
    &&& forall|k: int| 0 <= k < segments.len() ==> segment_ok(#[trigger] segments[k], d)
    &&& stack_top(segments) <= u64::MAX
    &&& kernel_space::layout_ok(image_infos(segments))
    &&& kernel_space::space_cost(image_infos(segments)) <= m.free().len()
}

/// The permissions of a segment.
fn perm_of(p: &ProgramHeader) -> (r: u8)
    ensures
        r == segment_perm(*p),
{
    let r: u8 = if p.readable {
        MAP_R
    } else {
        0
    };
    let w: u8 = if p.writable {
        MAP_W
    } else {
        0
    };
    let x: u8 = if p.executable {
        MAP_X
    } else {
        0
    };
    MAP_U + r + w + x
}

/// The bytes at a place in the file.
fn file_part(d: &[u8], offset: u64, size: u64) -> (r: &[u8])
    requires
        offset + size <= d@.len(),
    ensures
        r@ == d@.subrange(offset as int, offset + size),
{
    let n: usize = d.len();
    slice_subrange(d, offset as usize, (offset + size) as usize)
}

impl MemorySet {
    /// An address space for the segments of a program, with the trampoline, its
    /// trap context and its stack. Also gives the top of the stack, and where
    /// execution starts.
    pub fn from_image(image: &ElfImage, elf_data: &[u8], strampoline: u64, mem: &mut PhysMemory) -> (r:
        (Self, u64, u64))
        requires
            old(mem).wf(),
            strampoline % PAGE_SIZE == 0,
            image_fits(image.segments@, elf_data@, old(mem)@),
        ensures
            final(mem).wf(),
            final(mem).first() == old(mem).first(),
            kernel_space::built(
                &r.0,
                final(mem)@,
                strampoline as int % PA_SPACE as int / 4096,
                image_infos(image.segments@),
                image_data(image.segments@, elf_data@),
            ),
            kernel_space::fresh(&r.0, old(mem)@, final(mem)@),
            final(mem)@.free().len() == old(mem)@.free().len() - kernel_space::space_cost(
                image_infos(image.segments@),
            ),
            r.1 == stack_top(image.segments@),
            r.2 == image.entry_point,
    {
        let ghost m0 = mem@;
        let ghost segs = image.segments@;
        let ghost n = segs.len() as int;
        let ghost infos = image_infos(segs);
        let ghost data = image_data(segs, elf_data@);
        let ghost trampoline = strampoline as int % PA_SPACE as int / 4096;
        proof {
            kernel_space::lemma_cost_all(kernel_space::first_tables(), infos, 0);
            assert(infos.take(0) =~= Seq::<AreaInfo>::empty());
            assert(data.take(0) =~= Seq::<Seq<u8>>::empty());
            assert(infos.take(n + 3) =~= infos);
            assert(data.take(n + 3) =~= data);
        }
        let mut r = MemorySet::with_trampoline(strampoline, mem);
        let mut max_end_vpn: VirtPageNum = VirtPageNum(0);
        let mut i: usize = 0;
        while i < image.segments.len()
            invariant
                i <= segs.len(),
                segs == image.segments@,
                n == segs.len(),
                infos == image_infos(segs),
                data == image_data(segs, elf_data@),
                image_fits(segs, elf_data@, m0),
                mem.wf(),
                mem.first() == old(mem).first(),
                kernel_space::built(&r, mem@, trampoline, infos.take(i as int), data.take(i as int)),
                kernel_space::fresh(&r, m0, mem@),
                mem@.free().len() == m0.free().len() - kernel_space::space_cost(
                    infos.take(i as int),
                ),
                max_end_vpn.0 == load_end(segs.take(i as int)),
                max_end_vpn.0 <= VPN_SPACE,
            decreases segs.len() - i,
        {
            let ph: ProgramHeader = image.segments[i];
            proof {
                assert(segment_ok(segs[i as int], elf_data@));
                assert(infos[i as int] == segment_info(ph));
                assert(infos[i as int].start <= infos[i as int].end <= VPN_SPACE);
                assert(segs.take(i + 1).last() == ph);
                assert(segs.take(i + 1).drop_last() =~= segs.take(i as int));
            }
            let area = MapArea::new(
                VirtAddr::new(ph.virtual_addr),
                VirtAddr::new(ph.virtual_addr + ph.mem_size),
                MapType::Framed,
                MapPermission { bits: perm_of(&ph) },
            );
            let end_vpn: VirtPageNum = area.range().get_end();
            if end_vpn.0 > max_end_vpn.0 {
                max_end_vpn = end_vpn;
            }
            let part = file_part(elf_data, ph.offset, ph.file_size);
            r.push_next(
                area,
                Some(part),
                mem,
                Ghost(m0),
                Ghost(trampoline),
                Ghost(infos),
                Ghost(data),
                Ghost(i as int),
            );
            i += 1;
        }
        assert(segs.take(n) =~= segs);
        let bottom: u64 = max_end_vpn.addr().to_word() + PAGE_SIZE;
        let top: u64 = bottom + USER_STACK_SIZE;
        proof {
            assert(0x02u8 | 0x04u8 | 0x10u8 == 0x16u8) by (bit_vector);
            assert(0x02u8 | 0x04u8 == 0x06u8) by (bit_vector);
            assert(infos[n].start <= infos[n].end);
            assert(infos[n + 1].start <= infos[n + 1].end);
            assert(infos[n + 2].start <= infos[n + 2].end);
        }
        let stack = MapArea::new(
            VirtAddr::new(bottom),
            VirtAddr::new(top),
            MapType::Framed,
            MapPermission { bits: MAP_R | MAP_W | MAP_U },
        );
        r.push_next(
            stack,
            None,
            mem,
            Ghost(m0),
            Ghost(trampoline),
            Ghost(infos),
            Ghost(data),
            Ghost(n),
        );
        let heap = MapArea::new(
            VirtAddr::new(top),
            VirtAddr::new(top),
            MapType::Framed,
            MapPermission { bits: MAP_R | MAP_W | MAP_U },
        );
        r.push_next(
            heap,
            None,
            mem,
            Ghost(m0),
            Ghost(trampoline),
            Ghost(infos),
            Ghost(data),
            Ghost(n + 1),
        );
        let trap = MapArea::new(
            VirtAddr::new(TRAP_CONTEXT_BASE),
            VirtAddr::new(TRAMPOLINE),
            MapType::Framed,
            MapPermission { bits: MAP_R | MAP_W },
        );
        r.push_next(
            trap,
            None,
            mem,
            Ghost(m0),
            Ghost(trampoline),
            Ghost(infos),
            Ghost(data),
            Ghost(n + 2),
        );
        (r, top, image.entry_point)
    }

    /// An address space for a program, from its ELF file.
    pub fn from_elf(elf_data: &[u8], strampoline: u64, mem: &mut PhysMemory) -> (r: (
        Self,
        u64,
        u64,
    ))
        requires
            old(mem).wf(),
            strampoline % PAGE_SIZE == 0,
            elf::loadable(elf_data@),
            image_fits(elf::segments_of(elf_data@), elf_data@, old(mem)@),
        ensures
            final(mem).wf(),
            final(mem).first() == old(mem).first(),
            kernel_space::built(
                &r.0,
                final(mem)@,
                strampoline as int % PA_SPACE as int / 4096,
                image_infos(elf::segments_of(elf_data@)),
                image_data(elf::segments_of(elf_data@), elf_data@),
            ),
            kernel_space::fresh(&r.0, old(mem)@, final(mem)@),
            final(mem)@.free().len() == old(mem)@.free().len() - kernel_space::space_cost(
                image_infos(elf::segments_of(elf_data@)),
            ),
            r.1 == stack_top(elf::segments_of(elf_data@)),
            r.2 == elf::header_of(elf_data@).entry_point,
    {
        let image: ElfImage = parse_elf(elf_data);
        MemorySet::from_image(&image, elf_data, strampoline, mem)
    }
}

/// The bytes of an area, page after page.
pub open spec fn area_bytes(s: &MemorySet, m: MemData, info: AreaInfo) -> Seq<u8> {
    Seq::new(
        ((info.end - info.start) * 4096) as nat,
        |i: int| s.page_bytes(m, info.start + i / 4096)[i % 4096],
    )
}

/// The bytes of all areas.
pub open spec fn areas_bytes(s: &MemorySet, m: MemData) -> Seq<Seq<u8>> {
    Seq::new(s.infos().len(), |k: int| area_bytes(s, m, s.infos()[k]))
}

/// Writing to the frame of a page changes the bytes of that page and nothing
/// else in the address space.
pub proof fn lemma_page_written(s: MemorySet, m0: MemData, m1: MemData, k: int, v: int)
    requires
        s.wf(m0),
        m1.wf(),
        0 <= k < s.areas@.len(),
        s.infos()[k].framed,
        s.infos()[k].start <= v < s.infos()[k].end,
        m1.used == m0.used,
        m1.pages.dom() == m0.pages.dom(),
        forall|p: int|
            p != page_table::pte_ppn(s.pages(m0)[v]) ==> #[trigger] m1.pages[p] == m0.pages[p],
    ensures
        s.wf(m1),
        s.pages(m1) == s.pages(m0),
        s.page_table.tables(m1) == s.page_table.tables(m0),
        s.pages(m0).contains_key(v),
        m0.used.contains(page_table::pte_ppn(s.pages(m0)[v])),
        !s.page_table.owned().contains(page_table::pte_ppn(s.pages(m0)[v])),
        s.owns(page_table::pte_ppn(s.pages(m0)[v])),
        forall|l: int, w: int|
            #![trigger s.infos()[l], s.page_bytes(m1, w)]
            0 <= l < s.infos().len() && s.infos()[l].framed && s.infos()[l].start <= w
                < s.infos()[l].end && w != v ==> s.page_bytes(m1, w) == s.page_bytes(m0, w),
{
    let a = s.areas@[k];
    let own = s.page_table.owned();
    let p = page_table::pte_ppn(s.pages(m0)[v]);
    assert(a.info() == s.infos()[k]);
    assert(a.settled(s.page_table.pages(m0), m0.used, own));
    assert(s.page_table.pages(m0).contains_key(v));
    assert(a.frames().contains_key(v));
    page_table::lemma_pte(a.frames()[v], page_table::with_valid(a.info().perm));
    assert(p == a.frames()[v]);
    assert(memory_set::held_in(a.frames(), p));
    s.page_table.lemma_wf(m0);
    s.page_table.lemma_frame(m0, m1);
    assert forall|l: int| 0 <= l < s.areas@.len() implies (#[trigger] s.areas@[l]).settled(
        s.page_table.pages(m1),
        m1.used,
        own,
    ) by {
        assert(s.areas@[l].settled(s.page_table.pages(m0), m0.used, own));
    }
    assert forall|l: int, w: int|
        #![trigger s.infos()[l], s.page_bytes(m1, w)]
        0 <= l < s.infos().len() && s.infos()[l].framed && s.infos()[l].start <= w
            < s.infos()[l].end && w != v implies s.page_bytes(m1, w) == s.page_bytes(m0, w) by {
        let b = s.areas@[l];
        assert(b.info() == s.infos()[l]);
        assert(b.settled(s.page_table.pages(m0), m0.used, own));
        assert(s.page_table.pages(m0).contains_key(w));
        assert(b.frames().contains_key(w));
        page_table::lemma_pte(b.frames()[w], page_table::with_valid(b.info().perm));
        assert(s.areas@[k].frames().contains_key(v) && s.areas@[l].frames().contains_key(w));
        assert(b.frames()[w] != p);
    }
}

/// The frame of page `v` was in use, and has the bytes that it had.
spec fn page_same(s: MemorySet, m0: MemData, m1: MemData, v: int) -> bool {
    &&& s.pages(m1).contains_key(v)
    &&& m1.pages.contains_key(page_table::pte_ppn(s.pages(m1)[v]))
    &&& m0.used.contains(page_table::pte_ppn(s.pages(m1)[v]))
    &&& s.page_bytes(m1, v) == s.page_bytes(m0, v)
    &&& s.page_bytes(m1, v).len() == 4096
}

/// The frames of another address space stay as they were.
proof fn lemma_user_kept(user: MemorySet, r: MemorySet, m0: MemData, m1: MemData)
    requires
        user.wf(m0),
        m1.wf(),
        kernel_space::fresh(&r, m0, m1),
    ensures
        user.page_table.wf(m1),
        user.pages(m1) == user.pages(m0),
        forall|k: int, v: int|
            #![trigger user.infos()[k], page_same(user, m0, m1, v)]
            0 <= k < user.infos().len() && user.infos()[k].framed && user.infos()[k].start <= v
                < user.infos()[k].end ==> page_same(user, m0, m1, v),
{
    let own = user.page_table.owned();
    user.page_table.lemma_wf(m0);
    assert forall|p: int| #[trigger] own.contains(p) implies m1.used.contains(p) && m1.pages[p]
        == m0.pages[p] by {
        assert(m0.used.contains(p));
    }
    user.page_table.lemma_frame(m0, m1);
    assert forall|k: int, v: int|
        #![trigger user.infos()[k], page_same(user, m0, m1, v)]
        0 <= k < user.infos().len() && user.infos()[k].framed && user.infos()[k].start <= v
            < user.infos()[k].end implies page_same(user, m0, m1, v) by {
        let a = user.areas@[k];
        assert(a.info() == user.infos()[k]);
        assert(a.settled(user.page_table.pages(m0), m0.used, own));
        assert(user.page_table.pages(m0).contains_key(v));
        assert(a.frames().contains_key(v));
        page_table::lemma_pte(a.frames()[v], page_table::with_valid(a.info().perm));
        assert(m0.used.contains(a.frames()[v]));
        assert(m0.pages.contains_key(a.frames()[v]));
    }
}

/// A page that holds the bytes of another one.
pub proof fn lemma_copied_page(b: Seq<u8>, data: Seq<u8>, k: int)
    requires
        b.len() == 4096,
        0 <= k,
        (k + 1) * 4096 <= data.len(),
        forall|i: int| 0 <= i < 4096 ==> #[trigger] data[k * 4096 + i] == b[i],
    ensures
        b == bytes::splice(bytes::zeros(4096), 0, memory_set::chunk(data, k)),
{
    let c = memory_set::chunk(data, k);
    assert(c.len() == 4096);
    assert forall|i: int| 0 <= i < 4096 implies c[i] == b[i] by {
        assert(c[i] == data[k * 4096 + i]);
    }
    assert(b =~= bytes::splice(bytes::zeros(4096), 0, c));
}

impl MemorySet {
    /// Copies the bytes of an area from another address space, which has the
    /// same area.
    fn copy_area(
        &self,
        user: &MemorySet,
        k: usize,
        mem: &mut PhysMemory,
        Ghost(m0): Ghost<MemData>,
        Ghost(trampoline): Ghost<int>,
        Ghost(data): Ghost<Seq<Seq<u8>>>,
    )
        requires
            old(mem).wf(),
            user.wf(m0),
            kernel_space::built(
                self,
                old(mem)@,
                trampoline,
                user.infos().take(k + 1),
                data.take(k as int).push(Seq::empty()),
            ),
            data == areas_bytes(user, m0),
            kernel_space::fresh(self, m0, old(mem)@),
            k < user.areas@.len(),
            user.infos()[k as int].framed,
        ensures
            final(mem).wf(),
            final(mem).first() == old(mem).first(),
            kernel_space::built(
                self,
                final(mem)@,
                trampoline,
                user.infos().take(k + 1),
                data.take(k + 1),
            ),
            kernel_space::fresh(self, m0, final(mem)@),
            final(mem)@.free() == old(mem)@.free(),
    {
        let ghost m1 = mem@;
        let ghost infos = user.infos().take(k + 1);
        let ghost info = user.infos()[k as int];
        let ghost zero = bytes::splice(
            bytes::zeros(4096),
            0,
            memory_set::chunk(Seq::<u8>::empty(), 0),
        );
        assert(user.areas@[k as int].info() == info);
        assert(infos[k as int] == info);
        let mut v: u64 = user.areas[k].range().get_start().0;
        let end: u64 = user.areas[k].range().get_end().0;
        assert(user.areas@[k as int].settled(
            user.page_table.pages(m0),
            m0.used,
            user.page_table.owned(),
        ));
        while v < end
            invariant
                info.start <= v <= end == info.end <= VPN_SPACE,
                k < user.areas@.len(),
                infos == user.infos().take(k + 1),
                info == user.infos()[k as int],
                info.framed,
                user.wf(m0),
                mem.wf(),
                mem.first() == old(mem).first(),
                m1 == old(mem)@,
                self.wf(mem@),
                self.infos() == infos,
                self.pages(mem@) == self.pages(m1),
                self.page_table.tables(mem@) == self.page_table.tables(m1),
                mem@.used == m1.used,
                mem@.free() == m1.free(),
                mem@.pages.dom() == m1.pages.dom(),
                kernel_space::fresh(self, m0, mem@),
                forall|w: int|
                    info.start <= w < v ==> (#[trigger] self.page_bytes(mem@, w))
                        == user.page_bytes(m0, w),
                forall|l: int, w: int|
                    #![trigger infos[l], self.page_bytes(mem@, w)]
                    0 <= l < k && infos[l].framed && infos[l].start <= w < infos[l].end
                        ==> self.page_bytes(mem@, w) == self.page_bytes(m1, w),
            decreases end - v,
        {
            let ghost m2 = mem@;
            let ghost w0 = v as int;
            proof {
                mem.lemma_wf();
                lemma_user_kept(*user, *self, m0, m2);
                assert(page_same(*user, m0, m2, w0));
                assert(self.infos().len() == self.areas@.len());
                user.page_table.lemma_wf(m2);
                self.page_table.lemma_wf(m2);
                lemma_page_written(*self, m2, m2, k as int, w0);
                assert(self.page_table.pages(m2).contains_key(w0));
                assert(user.page_table.pages(m2).contains_key(w0));
                assert(page_table::lookup(m2, user.page_table.root(), w0) == Some(
                    user.page_table.pages(m2)[w0],
                ));
                assert(page_table::lookup(m2, self.page_table.root(), w0) == Some(
                    self.page_table.pages(m2)[w0],
                ));
            }
            let src: PhysPageNum = user.translate(mem, VirtPageNum(v)).unwrap().ppn();
            let dst: PhysPageNum = self.translate(mem, VirtPageNum(v)).unwrap().ppn();
            let page: Vec<u8> = mem.read_bytes(src, 0, 4096);
            mem.write_bytes(dst, 0, page.as_slice());
            proof {
                let m3 = mem@;
                mem.lemma_wf();
                assert(page@ =~= user.page_bytes(m0, w0));
                assert(m3.pages.dom() =~= m2.pages.dom());
                assert(m3.free() =~= m2.free());
                m2.lemma_takes_none(m3);
                m0.lemma_takes_trans(m2, m3);
                lemma_page_written(*self, m2, m3, k as int, w0);
                assert(m3.pages[dst.0 as int] =~= page@);
                assert forall|w: int| info.start <= w < v + 1 implies (#[trigger] self.page_bytes(
                    m3,
                    w,
                )) == user.page_bytes(m0, w) by {
                    if w < w0 {
                        assert(self.infos()[k as int] == info);
                        assert(self.page_bytes(m2, w) == user.page_bytes(m0, w));
                    }
                }
                assert forall|l: int, w: int|
                    #![trigger infos[l], self.page_bytes(m3, w)]
                    0 <= l < k && infos[l].framed && infos[l].start <= w
                        < infos[l].end implies self.page_bytes(m3, w) == self.page_bytes(m1, w) by {
                    assert(self.infos()[l] == infos[l]);
                    assert(self.areas@[l].info() == infos[l]);
                    assert(self.areas@[k as int].info() == infos[k as int]);
                    if w == w0 {
                        assert(self.areas@[l].has_page(w));
                        assert(self.areas@[k as int].has_page(w));
                    }
                    assert(self.page_bytes(m2, w) == self.page_bytes(m1, w));
                }
                assert forall|p: int| #[trigger] m0.used.contains(p) implies m3.pages[p]
                    == m0.pages[p] by {
                    assert(self.owns(dst.0 as int));
                    assert(m0.free().contains(dst.0 as int));
                }
            }
            v += 1;
        }
        proof {
            let m3 = mem@;
            let done = data.take(k + 1);
            mem.lemma_wf();
            lemma_user_kept(*user, *self, m0, m3);
            assert forall|l: int| 0 <= l < infos.len() implies kernel_space::area_in(
                self,
                m3,
                #[trigger] infos[l],
                done[l],
            ) by {
                let i = infos[l];
                assert(kernel_space::area_in(
                    self,
                    m1,
                    infos[l],
                    data.take(k as int).push(Seq::empty())[l],
                ));
                assert forall|w: int| i.start <= w < i.end implies (#[trigger] self.pages(m3)[w])
                    == page_table::pte(
                    if i.framed {
                        page_table::pte_ppn(self.pages(m3)[w])
                    } else {
                        w
                    },
                    page_table::with_valid(i.perm),
                ) by {
                    assert(self.pages(m3)[w] == self.pages(m1)[w]);
                }
                if i.framed {
                    assert forall|w: int| i.start <= w < i.end implies (#[trigger] self.page_bytes(
                        m3,
                        w,
                    )) == bytes::splice(
                        bytes::zeros(4096),
                        0,
                        memory_set::chunk(done[l], w - i.start),
                    ) by {
                        if l < k {
                            assert(self.page_bytes(m3, w) == self.page_bytes(m1, w));
                        } else {
                            let b = user.page_bytes(m0, w);
                            assert(user.infos()[k as int] == i);
                            assert(page_same(*user, m0, m3, w));
                            let x = w - i.start;
                            assert(done[l] == area_bytes(user, m0, i));
                            assert((x + 1) * 4096 <= (i.end - i.start) * 4096)
                                by (nonlinear_arith)
                                requires
                                    x + 1 <= i.end - i.start,
                            ;
                            assert forall|y: int| 0 <= y < 4096 implies #[trigger] done[l][x * 4096
                                + y] == b[y] by {
                                assert((x * 4096 + y) / 4096 == x);
                                assert((x * 4096 + y) % 4096 == y);
                            }
                            lemma_copied_page(b, done[l], x);
                        }
                    }
                }
            }
        }
    }

    /// A copy of the address space of a user program: the same areas, with the
    /// same bytes in frames of their own.
    pub fn from_existed_user(user: &MemorySet, strampoline: u64, mem: &mut PhysMemory) -> (r: Self)
        requires
            old(mem).wf(),
            user.wf(old(mem)@),
            strampoline % PAGE_SIZE == 0,
            forall|k: int| 0 <= k < user.infos().len() ==> (#[trigger] user.infos()[k]).framed,
            kernel_space::layout_ok(user.infos()),
            kernel_space::space_cost(user.infos()) <= old(mem)@.free().len(),
        ensures
            final(mem).wf(),
            final(mem).first() == old(mem).first(),
            kernel_space::built(
                &r,
                final(mem)@,
                strampoline as int % PA_SPACE as int / 4096,
                user.infos(),
                areas_bytes(user, old(mem)@),
            ),
            kernel_space::fresh(&r, old(mem)@, final(mem)@),
            final(mem)@.free().len() == old(mem)@.free().len() - kernel_space::space_cost(
                user.infos(),
            ),
    {
        let ghost m0 = mem@;
        let ghost infos = user.infos();
        let ghost data = areas_bytes(user, m0);
        let ghost trampoline = strampoline as int % PA_SPACE as int / 4096;
        proof {
            kernel_space::lemma_cost_all(kernel_space::first_tables(), infos, 0);
            assert(infos.take(0) =~= Seq::<AreaInfo>::empty());
            assert(data.take(0) =~= Seq::<Seq<u8>>::empty());
        }
        let mut r = MemorySet::with_trampoline(strampoline, mem);
        let mut k: usize = 0;
        while k < user.areas.len()
            invariant
                k <= user.areas@.len(),
                infos == user.infos(),
                data == areas_bytes(user, m0),
                user.wf(m0),
                forall|l: int| 0 <= l < infos.len() ==> (#[trigger] infos[l]).framed,
                kernel_space::layout_ok(infos),
                kernel_space::space_cost(infos) <= m0.free().len(),
                mem.wf(),
                mem.first() == old(mem).first(),
                kernel_space::built(&r, mem@, trampoline, infos.take(k as int), data.take(k as int)),
                kernel_space::fresh(&r, m0, mem@),
                mem@.free().len() == m0.free().len() - kernel_space::space_cost(
                    infos.take(k as int),
                ),
            decreases user.areas@.len() - k,
        {
            let ghost empty = data.update(k as int, Seq::<u8>::empty());
            proof {
                assert(infos[k as int] == user.areas@[k as int].info());
                assert(empty.take(k as int) =~= data.take(k as int));
                assert(empty.take(k + 1) =~= data.take(k as int).push(Seq::<u8>::empty()));
            }
            let area = MapArea::from_another(&user.areas[k]);
            r.push_next(
                area,
                None,
                mem,
                Ghost(m0),
                Ghost(trampoline),
                Ghost(infos),
                Ghost(empty),
                Ghost(k as int),
            );
            r.copy_area(user, k, mem, Ghost(m0), Ghost(trampoline), Ghost(data));
            k += 1;
        }
        proof {
            assert(infos.take(k as int) =~= infos);
            assert(data.take(k as int) =~= data);
        }
        r
    }
}

/// The pages of a copy hold the bytes of the pages that they were copied from.
pub proof fn lemma_copy_pages(
    s: MemorySet,
    m1: MemData,
    user: MemorySet,
    m0: MemData,
    trampoline: int,
    k: int,
    v: int,
)
    requires
        user.wf(m0),
        kernel_space::built(&s, m1, trampoline, user.infos(), areas_bytes(&user, m0)),
        0 <= k < user.infos().len(),
        user.infos()[k].framed,
        user.infos()[k].start <= v < user.infos()[k].end,
    ensures
        s.page_bytes(m1, v) == user.page_bytes(m0, v),
{
    let i = user.infos()[k];
    let data = areas_bytes(&user, m0);
    let b = user.page_bytes(m0, v);
    let x = v - i.start;
    assert(kernel_space::area_in(&s, m1, user.infos()[k], data[k]));
    assert(data[k] == area_bytes(&user, m0, i));
    assert((x + 1) * 4096 <= (i.end - i.start) * 4096) by (nonlinear_arith)
        requires
            x + 1 <= i.end - i.start,
    ;
    assert forall|y: int| 0 <= y < 4096 implies #[trigger] data[k][x * 4096 + y] == b[y] by {
        assert((x * 4096 + y) / 4096 == x);
        assert((x * 4096 + y) % 4096 == y);
    }
    assert(b.len() == 4096) by {
        let a = user.areas@[k];
        assert(a.info() == user.infos()[k]);
        assert(a.settled(user.page_table.pages(m0), m0.used, user.page_table.owned()));
        assert(user.page_table.pages(m0).contains_key(v));
        assert(a.frames().contains_key(v));
        page_table::lemma_pte(a.frames()[v], page_table::with_valid(a.info().perm));
        user.page_table.lemma_wf(m0);
        assert(m0.pages.contains_key(a.frames()[v]));
    }
    lemma_copied_page(b, data[k], x);
    assert(s.page_bytes(m1, v) == bytes::splice(
        bytes::zeros(4096),
        0,
        memory_set::chunk(data[k], v - i.start),
    ));
}

} // verus!
