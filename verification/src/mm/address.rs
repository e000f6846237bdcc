//! Addresses and page numbers of the SV39 scheme: 39 bits of virtual address, 56
//! of physical address, pages of 12 bits.
use crate::config::PAGE_SIZE;
use vstd::prelude::*;

verus! {

/// Number of virtual addresses.
pub const VA_SPACE: u64 = 0x80_0000_0000;

/// Number of virtual pages.
pub const VPN_SPACE: u64 = 0x800_0000;

/// Number of physical addresses.
pub const PA_SPACE: u64 = 0x100_0000_0000_0000;

/// Number of physical pages.
pub const PPN_SPACE: u64 = 0x1000_0000_0000;

/// Virtual address.
#[derive(Clone, Copy, PartialEq, Eq, Structural, Debug)]
pub struct VirtAddr(pub u64);

/// Physical address.
#[derive(Clone, Copy, PartialEq, Eq, Structural, Debug)]
pub struct PhysAddr(pub u64);

/// Virtual page number.
#[derive(Clone, Copy, PartialEq, Eq, Structural, Debug)]
pub struct VirtPageNum(pub u64);

/// Physical page number.
#[derive(Clone, Copy, PartialEq, Eq, Structural, Debug)]
pub struct PhysPageNum(pub u64);

/// The page that starts at the address or holds it.
pub open spec fn floor_of(addr: int) -> int {
    addr / (PAGE_SIZE as int)
}

/// The first page that starts at the address or behind it.
pub open spec fn ceil_of(addr: int) -> int {
    (addr + PAGE_SIZE - 1) / (PAGE_SIZE as int)
}

/// The word for a virtual address: its highest bit is extended.
pub open spec fn extended(a: u64) -> u64 {
    if a >= VA_SPACE / 2 {
        a | 0xffff_ff80_0000_0000u64
    } else {
        a
    }
}

impl VirtAddr {
    /// The virtual address in the low bits of a word.
    pub fn new(v: u64) -> (r: Self)
        ensures
            r.0 == v % VA_SPACE,
    {
        assert(v & 0x7f_ffff_ffffu64 == v % 0x80_0000_0000u64) by (bit_vector);
        VirtAddr(v & 0x7f_ffff_ffff)
    }

    /// The address as a word: the highest bit is extended.
    pub fn to_word(&self) -> (r: u64)
        ensures
            r == extended(self.0),
            self.0 < VA_SPACE ==> r % VA_SPACE == self.0,
    {
        let a: u64 = self.0;
        assert(a < 0x80_0000_0000u64 ==> (a | 0xffff_ff80_0000_0000u64) % 0x80_0000_0000u64 == a)
            by (bit_vector);
        if self.0 >= VA_SPACE / 2 {
            self.0 | 0xffff_ff80_0000_0000
        } else {
            self.0
        }
    }

    /// The page that holds the address.
    pub fn floor(&self) -> (r: VirtPageNum)
        ensures
            r.0 == floor_of(self.0 as int),
    {
        VirtPageNum(self.0 / PAGE_SIZE)
    }

    /// The first page that does not start before the address.
    pub fn ceil(&self) -> (r: VirtPageNum)
        requires
            self.0 + PAGE_SIZE - 1 <= u64::MAX,
        ensures
            r.0 == ceil_of(self.0 as int),
    {
        VirtPageNum((self.0 + (PAGE_SIZE - 1)) / PAGE_SIZE)
    }

    /// The offset in the page.
    pub fn page_offset(&self) -> (r: u64)
        ensures
            r == self.0 % PAGE_SIZE,
    {
        self.0 % PAGE_SIZE
    }

    /// Whether a page starts at the address.
    pub fn aligned(&self) -> (r: bool)
        ensures
            r == (self.0 % PAGE_SIZE == 0),
    {
        self.page_offset() == 0
    }
}

impl PhysAddr {
    /// The physical address in the low bits of a word.
    pub fn new(v: u64) -> (r: Self)
        ensures
            r.0 == v % PA_SPACE,
    {
        assert(v & 0xff_ffff_ffff_ffffu64 == v % 0x100_0000_0000_0000u64) by (bit_vector);
        PhysAddr(v & 0xff_ffff_ffff_ffff)
    }

    /// The page that holds the address.
    pub fn floor(&self) -> (r: PhysPageNum)
        ensures
            r.0 == floor_of(self.0 as int),
    {
        PhysPageNum(self.0 / PAGE_SIZE)
    }

    /// The first page that does not start before the address.
    pub fn ceil(&self) -> (r: PhysPageNum)
        requires
            self.0 + PAGE_SIZE - 1 <= u64::MAX,
        ensures
            r.0 == ceil_of(self.0 as int),
    {
        PhysPageNum((self.0 + (PAGE_SIZE - 1)) / PAGE_SIZE)
    }
}

impl VirtPageNum {
    /// The address at which the page starts.
    pub fn addr(&self) -> (r: VirtAddr)
        requires
            self.0 * PAGE_SIZE <= u64::MAX,
        ensures
            r.0 == self.0 * PAGE_SIZE,
    {
        VirtAddr(self.0 * PAGE_SIZE)
    }

    /// The indexes into the three levels of page tables.
    pub fn indexes(&self) -> (r: [usize; 3])
        ensures
            r@[0] == self.0 / 0x4_0000 % 512,
            r@[1] == self.0 / 512 % 512,
            r@[2] == self.0 % 512,
    {
        let vpn: u64 = self.0;
        [(vpn / 0x4_0000 % 512) as usize, (vpn / 512 % 512) as usize, (vpn % 512) as usize]
    }
}

/// A range of virtual pages.
#[derive(Clone, Copy, PartialEq, Eq, Structural, Debug)]
pub struct VPNRange {
    /// The first page.
    pub start: VirtPageNum,
    /// The page behind the last.
    pub end: VirtPageNum,
}

impl VPNRange {
    /// The pages from `start` to before `end`.
    pub fn new(start: VirtPageNum, end: VirtPageNum) -> (r: Self)
        requires
            start.0 <= end.0,
        ensures
            r.start == start,
            r.end == end,
    {
        VPNRange { start, end }
    }

    /// The first page.
    pub fn get_start(&self) -> (r: VirtPageNum)
        ensures
            r == self.start,
    {
        self.start
    }

    /// The page behind the last.
    pub fn get_end(&self) -> (r: VirtPageNum)
        ensures
            r == self.end,
    {
        self.end
    }
}

} // verus!
