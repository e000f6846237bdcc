//! What calls on physical memory and on entries of page tables say of each other.
use super::access;
use super::address::PhysPageNum;
use super::frame_allocator::PhysMemory;
use super::page_table;
use super::page_table::{PTEFlags, PageTableEntry};
use vstd::prelude::*;

verus! {

/// The frame that is taken is the free one with the lowest number; it is in use then,
/// all zero, and the others are as before. None is given only where none is free.
pub proof fn law_frame_alloc(mem: &mut PhysMemory, r: Option<PhysPageNum>, q: int, i: int)
    requires
        call_ensures(PhysMemory::frame_alloc, (mem,), r),
        0 <= i < 4096,
    ensures
        r matches Some(p) ==> {
            &&& !old(mem)@.used.contains(p.0 as int)
            &&& old(mem)@.pages.contains_key(p.0 as int)
            &&& final(mem)@.used.contains(p.0 as int)
            &&& final(mem)@.pages[p.0 as int][i] == 0
            &&& old(mem)@.pages.contains_key(q) && q < p.0 ==> old(mem)@.used.contains(q)
            &&& q != p.0 ==> final(mem)@.used.contains(q) == old(mem)@.used.contains(q)
                && final(mem)@.pages[q] == old(mem)@.pages[q]
        },
        r is None ==> final(mem)@ == old(mem)@ && (old(mem)@.pages.contains_key(q) ==> old(mem)@.used.contains(q)),
{
    if old(mem)@.pages.contains_key(q) && !old(mem)@.used.contains(q) {
        assert(old(mem)@.free().contains(q));
    }
}

/// Two frames that are taken one after the other are not the same.
pub proof fn law_two_frames(
    mem1: &mut PhysMemory,
    r1: Option<PhysPageNum>,
    mem2: &mut PhysMemory,
    r2: Option<PhysPageNum>,
)
    requires
        call_ensures(PhysMemory::frame_alloc, (mem1,), r1),
        call_ensures(PhysMemory::frame_alloc, (mem2,), r2),
        *old(mem2) == *final(mem1),
        r1 is Some,
        r2 is Some,
    ensures
        r1.unwrap().0 < r2.unwrap().0,
{
    let p = r2.unwrap().0 as int;
    assert(old(mem1)@.free().contains(p));
}

/// A frame that was given back at once is the next that is taken.
pub proof fn law_frame_again(
    mem1: &mut PhysMemory,
    r1: Option<PhysPageNum>,
    mem2: &mut PhysMemory,
    mem3: &mut PhysMemory,
    r3: Option<PhysPageNum>,
)
    requires
        call_ensures(PhysMemory::frame_alloc, (mem1,), r1),
        r1 is Some,
        call_ensures(PhysMemory::frame_dealloc, (mem2, r1->0), ()),
        *old(mem2) == *final(mem1),
        call_ensures(PhysMemory::frame_alloc, (mem3,), r3),
        *old(mem3) == *final(mem2),
    ensures
        r3 == r1,
        final(mem2)@.used == old(mem1)@.used,
{
    let p = r1.unwrap().0 as int;
    assert(final(mem2)@.used =~= old(mem1)@.used);
    assert(old(mem3)@.free() =~= old(mem1)@.free());
    assert(old(mem3)@.free().contains(p));
    if r3 is Some {
        assert(old(mem1)@.free().contains(r3.unwrap().0 as int));
    }
}

/// An entry tells by its lowest bits whether it is valid, and whether the page can be
/// read, written, executed, and accessed by users; the page number stands above them.
pub proof fn law_entry_tells(
    e: &PageTableEntry,
    valid: bool,
    r: bool,
    w: bool,
    x: bool,
    u: bool,
    p: PhysPageNum,
)
    requires
        call_ensures(PageTableEntry::is_valid, (e,), valid),
        call_ensures(PageTableEntry::readable, (e,), r),
        call_ensures(PageTableEntry::writable, (e,), w),
        call_ensures(PageTableEntry::executable, (e,), x),
        call_ensures(PageTableEntry::user_accessible, (e,), u),
        call_ensures(PageTableEntry::ppn, (e,), p),
    ensures
        valid == (e.bits & 1 != 0),
        r == (e.bits & 2 != 0),
        w == (e.bits & 4 != 0),
        x == (e.bits & 8 != 0),
        u == (e.bits & 16 != 0),
        p.0 == (e.bits >> 10) & 0xfff_ffff_ffff,
{
    access::law_entry_page(e.bits);
    let b = e.bits;
    let f = (b % 256) as u8;
    assert((f & 2 != 0) == (b & 2 != 0) && (f & 4 != 0) == (b & 4 != 0) && (f & 8 != 0) == (b & 8
        != 0) && (f & 16 != 0) == (b & 16 != 0)) by (bit_vector)
        requires
            f == b % 256,
    ;
}

/// An entry that was made for a page and its flags tells them again.
pub proof fn law_entry_made(p: PhysPageNum, flags: PTEFlags, e: PageTableEntry, q: PhysPageNum)
    requires
        call_ensures(PageTableEntry::new, (p, flags), e),
        call_ensures(PageTableEntry::ppn, (&e,), q),
        p.0 < 0x1000_0000_0000,
    ensures
        q == p,
        e.bits & 0xff == flags.bits,
{
    page_table::lemma_pte(p.0 as int, flags.bits);
    access::law_entry_page(e.bits);
}

} // verus!
