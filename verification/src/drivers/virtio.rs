//! Memory for the queues of VirtIO devices, which lie in consecutive frames.
use crate::mm::address::{PhysAddr, PhysPageNum, VirtAddr, PPN_SPACE, VA_SPACE};
use crate::mm::frame_allocator::{MemData, PhysMemory};
use crate::mm::page_table;
use crate::mm::page_table::PageTable;
use vstd::prelude::*;

verus! {

/// The first free frames are `count` frames from `base` on.
pub open spec fn first_free_run(m: MemData, base: int, count: int) -> bool {
    &&& forall|p: int| base <= p < base + count ==> #[trigger] m.free().contains(p)
    &&& forall|p: int| #[trigger] m.free().contains(p) ==> base <= p
}

/// Memory after `count` frames from `base` on were allocated.
pub open spec fn with_frames(m: MemData, base: int, count: int) -> MemData
    decreases count,
{
    if count <= 0 {
        m
    } else {
        with_frames(m, base, count - 1).with_frame(base + count - 1)
    }
}

/// Memory after `count` frames from `base` on were given back.
pub open spec fn without_frames(m: MemData, base: int, count: int) -> MemData
    decreases count,
{
    if count <= 0 {
        m
    } else {
        without_frames(m, base, count - 1).without_frame(base + count - 1)
    }
}

/// What allocating a run changes.
proof fn lemma_with_frames(m: MemData, base: int, count: int)
    requires
        first_free_run(m, base, count),
        0 <= count,
    ensures
        with_frames(m, base, count).pages.dom() == m.pages.dom(),
        forall|p: int| #[trigger]
            with_frames(m, base, count).used.contains(p) == (m.used.contains(p) || base <= p < base
                + count),
    decreases count,
{
    if count > 0 {
        assert(first_free_run(m, base, count - 1));
        lemma_with_frames(m, base, count - 1);
        assert(m.free().contains(base + count - 1));
        assert(with_frames(m, base, count).pages.dom() =~= m.pages.dom());
    }
}

/// Whether the first free frames are `pages` consecutive ones.
pub fn has_free_run(pages: usize, mem: &PhysMemory) -> (r: bool)
    requires
        mem.wf(),
    ensures
        r == (pages > 0 ==> exists|base: int| #[trigger]
            first_free_run(mem@, base, pages as int)),
{
    if pages == 0 {
        return true;
    }
    let base: PhysPageNum = match mem.first_free() {
        Some(p) => p,
        None => {
            assert forall|b: int| !#[trigger] first_free_run(mem@, b, pages as int) by {
                assert(!mem@.free().contains(b));
            }
            return false;
        },
    };
    proof {
        mem.lemma_wf();
        assert(mem@.pages.contains_key(base.0 as int));
    }
    let mut i: usize = 0;
    while i < pages
        invariant
            i <= pages,
            mem.wf(),
            base.0 < PPN_SPACE,
            base.0 + i <= PPN_SPACE,
            mem@.free().contains(base.0 as int),
            forall|q: int| #[trigger] mem@.free().contains(q) ==> base.0 <= q,
            forall|p: int| base.0 <= p < base.0 + i ==> #[trigger] mem@.free().contains(p),
        decreases pages - i,
    {
        if !mem.is_free(PhysPageNum(base.0 + i as u64)) {
            assert forall|b: int| !#[trigger] first_free_run(mem@, b, pages as int) by {
                if first_free_run(mem@, b, pages as int) {
                    assert(mem@.free().contains(b));
                    assert(b == base.0);
                    assert(mem@.free().contains(base.0 + i));
                }
            }
            return false;
        }
        proof {
            mem.lemma_wf();
            assert(mem@.pages.contains_key(base.0 + i));
        }
        i += 1;
    }
    assert(first_free_run(mem@, base.0 as int, pages as int));
    true
}

/// Whether `pages` frames from address `pa` on are in use.
pub fn has_used_run(pa: u64, pages: usize, mem: &PhysMemory) -> (r: bool)
    requires
        mem.wf(),
    ensures
        r == forall|p: int|
            pa as int % 0x100_0000_0000_0000 / 4096 <= p < pa as int % 0x100_0000_0000_0000 / 4096
                + pages ==> #[trigger] mem@.used.contains(p),
{
    let base: PhysPageNum = PhysAddr::new(pa).floor();
    let mut i: usize = 0;
    while i < pages
        invariant
            i <= pages,
            mem.wf(),
            base.0 == pa as int % 0x100_0000_0000_0000 / 4096,
            base.0 + i <= PPN_SPACE,
            forall|p: int| base.0 <= p < base.0 + i ==> #[trigger] mem@.used.contains(p),
        decreases pages - i,
    {
        if !mem.is_used(PhysPageNum(base.0 + i as u64)) {
            assert(!mem@.used.contains(base.0 + i));
            return false;
        }
        proof {
            mem.lemma_wf();
            assert(mem@.pages.contains_key(base.0 + i));
        }
        i += 1;
    }
    true
}

/// Allocates consecutive frames of zeros; gives the address of the first one, or
/// 0 if there is none to allocate.
pub fn dma_alloc(pages: usize, queue_frames: &mut Vec<u64>, mem: &mut PhysMemory) -> (r: u64)
    requires
        old(mem).wf(),
        pages > 0 ==> exists|base: int| #[trigger] first_free_run(old(mem)@, base, pages as int),
    ensures
        final(mem).wf(),
        final(mem).first() == old(mem).first(),
        pages == 0 ==> r == 0 && final(mem)@ == old(mem)@ && final(queue_frames)@ == old(
            queue_frames,
        )@,
        pages > 0 ==> {
            &&& r % 4096 == 0
            &&& first_free_run(old(mem)@, r as int / 4096, pages as int)
            &&& final(mem)@ == with_frames(old(mem)@, r as int / 4096, pages as int)
            &&& final(queue_frames)@ == old(queue_frames)@ + Seq::new(
                pages as nat,
                |i: int| (r as int / 4096 + i) as u64,
            )
        },
{
    let ghost m0 = mem@;
    let ghost q0 = queue_frames@;
    let ghost base = choose|base: int| #[trigger] first_free_run(m0, base, pages as int);
    let mut ppn_base: PhysPageNum = PhysPageNum(0);
    let mut i: usize = 0;
    proof {
        mem.lemma_wf();
        assert(queue_frames@ =~= q0 + Seq::new(0, |k: int| (base + k) as u64));
    }
    while i < pages
        invariant
            i <= pages,
            mem.wf(),
            mem.first() == old(mem).first(),
            m0.wf(),
            pages > 0 ==> first_free_run(m0, base, pages as int),
            mem@ == with_frames(m0, base, i as int),
            i > 0 ==> ppn_base.0 == base,
            i == 0 ==> ppn_base.0 == 0,
            queue_frames@ == q0 + Seq::new(i as nat, |k: int| (base + k) as u64),
        decreases pages - i,
    {
        proof {
            assert(first_free_run(m0, base, i as int));
            lemma_with_frames(m0, base, i as int);
            assert(m0.free().contains(base + i));
            assert(mem@.free().contains(base + i));
        }
        let frame: PhysPageNum = mem.frame_alloc().unwrap();
        proof {
            assert(m0.free().contains(frame.0 as int));
            assert(frame.0 == base + i);
        }
        if i == 0 {
            ppn_base = frame;
        }
        queue_frames.push(frame.0);
        i += 1;
        proof {
            assert(queue_frames@ =~= q0 + Seq::new(i as nat, |k: int| (base + k) as u64));
        }
    }
    proof {
        if pages > 0 {
            assert(m0.free().contains(base));
            assert(m0.pages.contains_key(base));
        } else {
            assert(queue_frames@ =~= q0);
        }
    }
    ppn_base.0 * 4096
}

/// Gives consecutive frames back.
pub fn dma_dealloc(pa: u64, pages: usize, mem: &mut PhysMemory) -> (r: i32)
    requires
        old(mem).wf(),
        pa % 4096 == 0,
        forall|p: int|
            pa as int % 0x100_0000_0000_0000 / 4096 <= p < pa as int % 0x100_0000_0000_0000 / 4096
                + pages ==> #[trigger] old(mem)@.used.contains(p),
    ensures
        r == 0,
        final(mem).wf(),
        final(mem).first() == old(mem).first(),
        final(mem)@ == without_frames(
            old(mem)@,
            pa as int % 0x100_0000_0000_0000 / 4096,
            pages as int,
        ),
{
    let ppn_base: PhysPageNum = PhysAddr::new(pa).floor();
    let ghost m0 = mem@;
    let ghost base = ppn_base.0 as int;
    let mut i: usize = 0;
    proof {
        mem.lemma_wf();
    }
    while i < pages
        invariant
            i <= pages,
            mem.wf(),
            mem.first() == old(mem).first(),
            m0.wf(),
            base == ppn_base.0,
            mem@ == without_frames(m0, base, i as int),
            forall|p: int| base <= p < base + pages ==> #[trigger] m0.used.contains(p),
            forall|p: int| base + i <= p < base + pages ==> #[trigger] mem@.used.contains(p),
        decreases pages - i,
    {
        assert(m0.used.contains(base + i));
        assert(m0.pages.contains_key(base + i));
        mem.frame_dealloc(PhysPageNum(ppn_base.0 + i as u64));
        i += 1;
    }
    0
}

/// Devices are mapped to the frames with the same numbers.
pub fn phys_to_virt(addr: u64) -> (r: u64)
    ensures
        r == addr,
{
    addr
}

/// The physical address of a virtual one, through the page table of the token.
pub fn virt_to_phys(vaddr: u64, kernel_token: u64, mem: &PhysMemory) -> (r: u64)
    requires
        mem.wf(),
        page_table::walkable(mem@, kernel_token as int % (PPN_SPACE as int)),
        page_table::lookup(
            mem@,
            kernel_token as int % (PPN_SPACE as int),
            vaddr as int % (VA_SPACE as int) / 4096,
        ) is Some,
    ensures
        r == page_table::pte_ppn(
            page_table::lookup(
                mem@,
                kernel_token as int % (PPN_SPACE as int),
                vaddr as int % (VA_SPACE as int) / 4096,
            )->0,
        ) * 4096 + vaddr % 4096,
{
    let va = VirtAddr::new(vaddr);
    let table = PageTable::from_token(kernel_token);
    let ppn: PhysPageNum = table.translate(mem, va.floor()).unwrap().ppn();
    ppn.0 * 4096 + va.page_offset()
}

/// What giving a run back changes.
proof fn lemma_without_frames(m: MemData, base: int, count: int)
    requires
        0 <= count,
    ensures
        without_frames(m, base, count).pages == m.pages,
        forall|p: int| #[trigger]
            without_frames(m, base, count).used.contains(p) == (m.used.contains(p) && !(base <= p
                < base + count)),
    decreases count,
{
    if count > 0 {
        lemma_without_frames(m, base, count - 1);
    }
}

/// Giving back what was allocated leaves the same frames in use as before.
pub proof fn law_dma_alloc_dealloc(m: MemData, base: int, count: int)
    requires
        first_free_run(m, base, count),
        0 <= count,
    ensures
        without_frames(with_frames(m, base, count), base, count).used == m.used,
{
    let n = with_frames(m, base, count);
    lemma_with_frames(m, base, count);
    lemma_without_frames(n, base, count);
    let r = without_frames(n, base, count);
    assert forall|p: int| r.used.contains(p) == m.used.contains(p) by {
        if base <= p < base + count {
            assert(m.free().contains(p));
        }
    }
    assert(r.used =~= m.used);
}

/// The frames of a run that is taken are in use and all zero; the others stay as they
/// are.
pub proof fn law_run_taken(m: MemData, base: int, count: int, p: int, i: int)
    requires
        0 <= count,
        0 <= i < 4096,
    ensures
        base <= p < base + count ==> with_frames(m, base, count).used.contains(p) && with_frames(
            m,
            base,
            count,
        ).pages[p][i] == 0,
        !(base <= p < base + count) ==> with_frames(m, base, count).used.contains(p)
            == m.used.contains(p) && with_frames(m, base, count).pages[p] == m.pages[p],
    decreases count,
{
    if count > 0 {
        law_run_taken(m, base, count - 1, p, i);
    }
}

/// The frames of a run that is given back are free; the others stay as they are, and all
/// keep their bytes.
pub proof fn law_run_given_back(m: MemData, base: int, count: int, p: int)
    requires
        0 <= count,
    ensures
        without_frames(m, base, count).used.contains(p) == (m.used.contains(p) && !(base <= p < base
            + count)),
        without_frames(m, base, count).pages == m.pages,
    decreases count,
{
    if count > 0 {
        law_run_given_back(m, base, count - 1, p);
    }
}

/// Giving back a run that was taken leaves in use what was in use before.
pub proof fn law_take_give_back(m: MemData, base: int, count: int)
    requires
        0 <= count,
        first_free_run(m, base, count),
    ensures
        without_frames(with_frames(m, base, count), base, count).used == m.used,
{
    let after = without_frames(with_frames(m, base, count), base, count);
    assert forall|p: int| #[trigger] after.used.contains(p) == m.used.contains(p) by {
        law_run_given_back(with_frames(m, base, count), base, count, p);
        law_run_taken(m, base, count, p, 0);
        if base <= p < base + count {
            assert(m.free().contains(p));
        }
    }
    assert(after.used =~= m.used);
}

} // verus!
