//! Page tables: three levels of tables with 512 entries each.
use super::address;
use super::address::{PhysPageNum, VirtAddr, VirtPageNum, PPN_SPACE, VA_SPACE, VPN_SPACE};
use super::frame_allocator::{MemData, PhysMemory};
use crate::easy_fs::bytes;
use vstd::prelude::*;

verus! {

/// Valid.
pub const PTE_V: u8 = 0x01;

/// Readable.
pub const PTE_R: u8 = 0x02;

/// Writable.
pub const PTE_W: u8 = 0x04;

/// Executable.
pub const PTE_X: u8 = 0x08;

/// Accessible to users.
pub const PTE_U: u8 = 0x10;

/// Global.
pub const PTE_G: u8 = 0x20;

/// Accessed.
pub const PTE_A: u8 = 0x40;

/// Dirty.
pub const PTE_D: u8 = 0x80;

/// Page table entry flags.
#[derive(Clone, Copy, PartialEq, Eq, Structural, Debug)]
pub struct PTEFlags {
    pub bits: u8,
}

impl PTEFlags {
    /// No flag.
    pub fn empty() -> (r: Self)
        ensures
            r.bits == 0,
    {
        PTEFlags { bits: 0 }
    }

    /// The flags in a byte; every bit is a flag.
    pub fn from_bits(bits: u8) -> (r: Option<Self>)
        ensures
            r == Some(PTEFlags { bits }),
    {
        Some(PTEFlags { bits })
    }

    /// Whether all flags of `other` are set.
    pub fn contains(&self, other: PTEFlags) -> (r: bool)
        ensures
            r == (self.bits & other.bits == other.bits),
    {
        self.bits & other.bits == other.bits
    }

    /// The flags of both.
    pub fn union(&self, other: PTEFlags) -> (r: Self)
        ensures
            r.bits == self.bits | other.bits,
    {
        PTEFlags { bits: self.bits | other.bits }
    }
}

/// The entry for a page with flags.
pub open spec fn pte(ppn: int, flags: u8) -> u64 {
    (ppn * 1024 + flags) as u64
}

/// The page number in an entry.
pub open spec fn pte_ppn(bits: u64) -> int {
    (bits / 1024) as int % (PPN_SPACE as int)
}

/// The flags in an entry.
pub open spec fn pte_flags(bits: u64) -> u8 {
    (bits % 256) as u8
}

/// Whether an entry is valid.
pub open spec fn pte_valid(bits: u64) -> bool {
    bits % 2 == 1
}

/// The flags with the valid flag.
pub open spec fn with_valid(flags: u8) -> u8 {
    if flags % 2 == 1 {
        flags
    } else {
        (flags + 1) as u8
    }
}

/// Page table entry structure.
#[derive(Clone, Copy, PartialEq, Eq, Structural, Debug)]
pub struct PageTableEntry {
    /// Bits of page table entry.
    pub bits: u64,
}

impl PageTableEntry {
    /// The entry for a page with flags.
    pub fn new(ppn: PhysPageNum, flags: PTEFlags) -> (r: Self)
        ensures
            r.bits == (ppn.0 << 10) | (flags.bits as u64),
            ppn.0 < PPN_SPACE ==> r.bits == pte(ppn.0 as int, flags.bits),
    {
        let p: u64 = ppn.0;
        let f: u64 = flags.bits as u64;
        assert(p < 0x1000_0000_0000u64 && f < 256 ==> (p << 10) | f == p * 1024 + f)
            by (bit_vector);
        PageTableEntry { bits: (ppn.0 << 10) | flags.bits as u64 }
    }

    /// An entry for nothing.
    pub fn empty() -> (r: Self)
        ensures
            r.bits == 0,
    {
        PageTableEntry { bits: 0 }
    }

    /// The page number.
    pub fn ppn(&self) -> (r: PhysPageNum)
        ensures
            r.0 == pte_ppn(self.bits),
            r.0 < PPN_SPACE,
    {
        let b: u64 = self.bits;
        assert((b >> 10) & 0xfff_ffff_ffffu64 == (b / 1024) % 0x1000_0000_0000u64) by (bit_vector);
        PhysPageNum((self.bits >> 10) & 0xfff_ffff_ffff)
    }

    /// The flags.
    pub fn flags(&self) -> (r: PTEFlags)
        ensures
            r.bits == pte_flags(self.bits),
    {
        PTEFlags { bits: (self.bits % 256) as u8 }
    }

    /// Whether the entry is valid.
    pub fn is_valid(&self) -> (r: bool)
        ensures
            r == pte_valid(self.bits),
    {
        let f: u8 = self.flags().bits;
        assert((f & 1u8 != 0) == (f % 2 == 1)) by (bit_vector);
        f & PTE_V != 0
    }

    /// Whether the page is readable.
    pub fn readable(&self) -> (r: bool)
        ensures
            r == (pte_flags(self.bits) & PTE_R != 0),
    {
        self.flags().bits & PTE_R != 0
    }

    /// Whether the page is writable.
    pub fn writable(&self) -> (r: bool)
        ensures
            r == (pte_flags(self.bits) & PTE_W != 0),
    {
        self.flags().bits & PTE_W != 0
    }

    /// Whether the page is executable.
    pub fn executable(&self) -> (r: bool)
        ensures
            r == (pte_flags(self.bits) & PTE_X != 0),
    {
        self.flags().bits & PTE_X != 0
    }

    /// Whether users can access the page.
    pub fn user_accessible(&self) -> (r: bool)
        ensures
            r == (pte_flags(self.bits) & PTE_U != 0),
    {
        self.flags().bits & PTE_U != 0
    }
}

/// What went into an entry comes out of it.
pub proof fn lemma_pte(ppn: int, flags: u8)
    requires
        0 <= ppn < PPN_SPACE,
    ensures
        pte_ppn(pte(ppn, flags)) == ppn,
        pte_flags(pte(ppn, flags)) == flags,
        pte_valid(pte(ppn, flags)) == (flags % 2 == 1),
{
    let b = ppn * 1024 + flags;
    assert(b / 1024 == ppn);
    assert(b % 256 == flags as int);
    assert(b % 2 == flags as int % 2);
}

/// The tables below a root: those of the second level by their index, and those
/// of the third by the pages that they cover.
#[verifier::ext_equal]
pub struct Tables {
    pub l1: Set<int>,
    pub l2: Set<int>,
}

impl Tables {
    /// With the tables that page `v` needs.
    pub open spec fn with_page(self, v: int) -> Tables {
        Tables { l1: self.l1.insert(v / 0x4_0000), l2: self.l2.insert(v / 512) }
    }

    /// How many tables page `v` still needs.
    pub open spec fn missing(self, v: int) -> int {
        (if self.l1.contains(v / 0x4_0000) {
            0int
        } else {
            1
        }) + (if self.l2.contains(v / 512) {
            0int
        } else {
            1
        })
    }
}

/// Entry `i` of the root leads to a table.
pub open spec fn has1(m: MemData, root: int, i: int) -> bool {
    0 <= i < 512 && pte_valid(m.word(root, i))
}

/// That table.
pub open spec fn table1(m: MemData, root: int, i: int) -> int {
    pte_ppn(m.word(root, i))
}

/// Entry `j` of that table leads to a table.
pub open spec fn has2(m: MemData, root: int, i: int, j: int) -> bool {
    has1(m, root, i) && 0 <= j < 512 && pte_valid(m.word(table1(m, root, i), j))
}

/// That table.
pub open spec fn table2(m: MemData, root: int, i: int, j: int) -> int {
    pte_ppn(m.word(table1(m, root, i), j))
}

/// The entry for page `v`, if there is a table for it.
pub open spec fn lookup(m: MemData, root: int, v: int) -> Option<u64> {
    let i = v / 0x4_0000 % 512;
    let j = v / 512 % 512;
    if has2(m, root, i, j) {
        Some(m.word(table2(m, root, i, j), v % 512))
    } else {
        None
    }
}

/// The tables below a root.
pub open spec fn tables(m: MemData, root: int) -> Tables {
    Tables {
        l1: Set::new(|i: int| has1(m, root, i)),
        l2: Set::new(|x: int| 0 <= x && has2(m, root, x / 512, x % 512)),
    }
}

/// The valid entries, by page.
pub open spec fn pages(m: MemData, root: int) -> Map<int, u64> {
    Map::new(
        |v: int|
            0 <= v < VPN_SPACE && (lookup(m, root, v) matches Some(bits) && pte_valid(bits)),
        |v: int| lookup(m, root, v).unwrap(),
    )
}

/// Every table on the way to an entry lies in memory.
pub open spec fn walkable(m: MemData, root: int) -> bool {
    &&& m.pages.contains_key(root)
    &&& forall|i: int| #[trigger] has1(m, root, i) ==> m.pages.contains_key(table1(m, root, i))
    &&& forall|i: int, j: int| #[trigger]
        has2(m, root, i, j) ==> m.pages.contains_key(table2(m, root, i, j))
}

/// The tables below a root form a tree of frames in use, all in `frames`; an
/// entry for a page is valid or empty.
pub open spec fn tree(m: MemData, root: int, frames: Set<int>) -> bool {
    &&& frames.contains(root)
    &&& frames.subset_of(m.used)
    &&& forall|i: int| #[trigger]
        has1(m, root, i) ==> frames.contains(table1(m, root, i)) && table1(m, root, i) != root
    &&& forall|i: int, k: int| #[trigger]
        has1(m, root, i) && #[trigger] has1(m, root, k) && i != k ==> table1(m, root, i) != table1(
            m,
            root,
            k,
        )
    &&& forall|i: int, j: int| #[trigger]
        has2(m, root, i, j) ==> frames.contains(table2(m, root, i, j)) && table2(m, root, i, j)
            != root
    &&& forall|i: int, j: int, k: int| #[trigger]
        has2(m, root, i, j) && #[trigger] has1(m, root, k) ==> table2(m, root, i, j) != table1(
            m,
            root,
            k,
        )
    &&& forall|i: int, j: int, k: int, l: int| #[trigger]
        has2(m, root, i, j) && #[trigger] has2(m, root, k, l) && (i != k || j != l) ==> table2(
            m,
            root,
            i,
            j,
        ) != table2(m, root, k, l)
    &&& forall|i: int, j: int, k: int|
        has2(m, root, i, j) && 0 <= k < 512 && !pte_valid(
            #[trigger] m.word(table2(m, root, i, j), k),
        ) ==> m.word(table2(m, root, i, j), k) == 0
}

/// A tree can be walked.
pub proof fn lemma_walkable(m: MemData, root: int, frames: Set<int>)
    requires
        m.wf(),
        tree(m, root, frames),
    ensures
        walkable(m, root),
{
}

/// What looking up gives, in terms of tables and pages.
pub proof fn lemma_lookup(m: MemData, root: int, frames: Set<int>, v: int)
    requires
        tree(m, root, frames),
        0 <= v < VPN_SPACE,
    ensures
        lookup(m, root, v) == if !tables(m, root).l2.contains(v / 512) {
            None::<u64>
        } else if pages(m, root).contains_key(v) {
            Some(pages(m, root)[v])
        } else {
            Some(0u64)
        },
        tables(m, root).l1.contains(v / 0x4_0000) == has1(m, root, v / 0x4_0000 % 512),
        tables(m, root).l2.contains(v / 512) ==> tables(m, root).l1.contains(v / 0x4_0000),
{
    let i = v / 0x4_0000 % 512;
    let j = v / 512 % 512;
    assert(v / 0x4_0000 == i);
    assert(v / 512 / 512 == i);
    if has2(m, root, i, j) {
        let bits = m.word(table2(m, root, i, j), v % 512);
        if !pte_valid(bits) {
            assert(bits == 0);
        }
    }
}

/// Writing an entry for a page changes that entry alone.
proof fn lemma_write_leaf(m: MemData, root: int, frames: Set<int>, v: int, bits: u64)
    requires
        m.wf(),
        tree(m, root, frames),
        0 <= v < VPN_SPACE,
        lookup(m, root, v) is Some,
        pte_valid(bits) || bits == 0,
    ensures
        ({
            let m2 = m.with_word(
                table2(m, root, v / 0x4_0000 % 512, v / 512 % 512),
                v % 512,
                bits,
            );
            &&& m2.wf()
            &&& tree(m2, root, frames)
            &&& tables(m2, root) == tables(m, root)
            &&& pages(m2, root) == if pte_valid(bits) {
                pages(m, root).insert(v, bits)
            } else {
                pages(m, root).remove(v)
            }
            &&& m2.free() == m.free()
        }),
{
    let i0 = v / 0x4_0000 % 512;
    let j0 = v / 512 % 512;
    let t = table2(m, root, i0, j0);
    let m2 = m.with_word(t, v % 512, bits);
    assert(has2(m, root, i0, j0));
    m.lemma_with_word(t, v % 512, bits);
    assert forall|i: int| #[trigger] has1(m2, root, i) == has1(m, root, i) by {}
    assert forall|i: int| has1(m, root, i) implies #[trigger] table1(m2, root, i) == table1(
        m,
        root,
        i,
    ) by {}
    assert forall|i: int, j: int| #[trigger] has2(m2, root, i, j) == has2(m, root, i, j) by {
        if has1(m, root, i) {
            assert(table1(m2, root, i) == table1(m, root, i));
            assert(t != table1(m, root, i));
        }
    }
    assert forall|i: int, j: int| has2(m, root, i, j) implies #[trigger] table2(m2, root, i, j)
        == table2(m, root, i, j) by {
        assert(has1(m, root, i));
        assert(table1(m2, root, i) == table1(m, root, i));
        assert(t != table1(m, root, i));
    }
    assert(tables(m2, root) =~= tables(m, root));
    assert forall|w: int| 0 <= w < VPN_SPACE implies #[trigger] lookup(m2, root, w) == if w == v {
        Some(bits)
    } else {
        lookup(m, root, w)
    } by {
        let i = w / 0x4_0000 % 512;
        let j = w / 512 % 512;
        if has2(m, root, i, j) {
            assert(table2(m2, root, i, j) == table2(m, root, i, j));
            if i != i0 || j != j0 {
                assert(table2(m, root, i, j) != t);
            } else if w % 512 == v % 512 {
                assert(w / 512 == v / 512);
            }
        }
    }
    assert forall|i: int, j: int, k: int|
        has2(m2, root, i, j) && 0 <= k < 512 && !pte_valid(
            #[trigger] m2.word(table2(m2, root, i, j), k),
        ) implies m2.word(table2(m2, root, i, j), k) == 0 by {
        assert(has2(m, root, i, j));
        assert(table2(m2, root, i, j) == table2(m, root, i, j));
    }
    let p2 = if pte_valid(bits) {
        pages(m, root).insert(v, bits)
    } else {
        pages(m, root).remove(v)
    };
    assert(pages(m2, root) =~= p2) by {
        assert forall|w: int| #[trigger] pages(m2, root).contains_key(w) == p2.contains_key(w) by {
            if 0 <= w < VPN_SPACE {
                assert(lookup(m2, root, w) == if w == v {
                    Some(bits)
                } else {
                    lookup(m, root, w)
                });
            }
        }
        assert forall|w: int| #[trigger] pages(m2, root).contains_key(w) implies pages(m2, root)[w]
            == p2[w] by {
            assert(lookup(m2, root, w) == if w == v {
                Some(bits)
            } else {
                lookup(m, root, w)
            });
        }
    }
}

/// A new table of the second level, under entry `i` of the root.
proof fn lemma_add_l1(m: MemData, root: int, frames: Set<int>, i0: int, f: int)
    requires
        m.wf(),
        tree(m, root, frames),
        0 <= i0 < 512,
        !has1(m, root, i0),
        m.free().contains(f),
    ensures
        ({
            let m2 = m.with_frame(f).with_word(root, i0, pte(f, PTE_V));
            &&& m2.wf()
            &&& tree(m2, root, frames.insert(f))
            &&& tables(m2, root) == (Tables {
                l1: tables(m, root).l1.insert(i0),
                l2: tables(m, root).l2,
            })
            &&& pages(m2, root) == pages(m, root)
            &&& m2.free() == m.free().remove(f)
            &&& m2.free().len() == m.free().len() - 1
            &&& has1(m2, root, i0)
            &&& table1(m2, root, i0) == f
        }),
{
    let m1 = m.with_frame(f);
    let bits = pte(f, PTE_V);
    let m2 = m1.with_word(root, i0, bits);
    m.lemma_with_frame(f);
    m1.lemma_with_word(root, i0, bits);
    lemma_pte(f, PTE_V);
    assert(!frames.contains(f));
    assert forall|q: int, j: int| q != f && 0 <= j < 512 implies #[trigger] m1.word(q, j) == m.word(
        q,
        j,
    ) by {}
    assert forall|i: int| #[trigger] has1(m2, root, i) == (has1(m, root, i) || i == i0) by {}
    assert forall|i: int| has1(m, root, i) implies #[trigger] table1(m2, root, i) == table1(
        m,
        root,
        i,
    ) && table1(m, root, i) != f by {}
    assert(table1(m2, root, i0) == f);
    assert forall|j: int| 0 <= j < 512 implies #[trigger] m2.word(f, j) == 0 by {}
    assert forall|i: int, j: int| #[trigger] has2(m2, root, i, j) == has2(m, root, i, j) by {
        if i == i0 {
            if 0 <= j < 512 {
                assert(m2.word(f, j) == 0);
            }
        } else if has1(m, root, i) {
            assert(table1(m2, root, i) == table1(m, root, i));
        }
    }
    assert forall|i: int, j: int| has2(m, root, i, j) implies #[trigger] table2(m2, root, i, j)
        == table2(m, root, i, j) && table2(m, root, i, j) != f by {
        assert(has1(m, root, i));
        assert(table1(m2, root, i) == table1(m, root, i));
    }
    assert(tables(m2, root).l1 =~= tables(m, root).l1.insert(i0));
    assert(tables(m2, root).l2 =~= tables(m, root).l2);
    assert forall|w: int| 0 <= w < VPN_SPACE implies #[trigger] lookup(m2, root, w) == lookup(
        m,
        root,
        w,
    ) by {
        let i = w / 0x4_0000 % 512;
        let j = w / 512 % 512;
        if has2(m, root, i, j) {
            assert(table2(m2, root, i, j) == table2(m, root, i, j));
        }
    }
    assert forall|i: int, j: int, k: int|
        has2(m2, root, i, j) && 0 <= k < 512 && !pte_valid(
            #[trigger] m2.word(table2(m2, root, i, j), k),
        ) implies m2.word(table2(m2, root, i, j), k) == 0 by {
        assert(has2(m, root, i, j));
        assert(table2(m2, root, i, j) == table2(m, root, i, j));
        assert(m.word(table2(m, root, i, j), k) == m2.word(table2(m2, root, i, j), k));
    }
    assert(pages(m2, root) =~= pages(m, root)) by {
        assert forall|w: int| #[trigger] pages(m2, root).contains_key(w) == pages(
            m,
            root,
        ).contains_key(w) by {
            if 0 <= w < VPN_SPACE {
                assert(lookup(m2, root, w) == lookup(m, root, w));
            }
        }
        assert forall|w: int| #[trigger] pages(m2, root).contains_key(w) implies pages(m2, root)[w]
            == pages(m, root)[w] by {
            assert(lookup(m2, root, w) == lookup(m, root, w));
        }
    }
}

/// A new table of the third level, under entry `j0` of the table under entry
/// `i0` of the root.
proof fn lemma_add_l2(m: MemData, root: int, frames: Set<int>, i0: int, j0: int, f: int)
    requires
        m.wf(),
        tree(m, root, frames),
        has1(m, root, i0),
        0 <= j0 < 512,
        !has2(m, root, i0, j0),
        m.free().contains(f),
    ensures
        ({
            let m2 = m.with_frame(f).with_word(table1(m, root, i0), j0, pte(f, PTE_V));
            &&& m2.wf()
            &&& tree(m2, root, frames.insert(f))
            &&& tables(m2, root) == (Tables {
                l1: tables(m, root).l1,
                l2: tables(m, root).l2.insert(512 * i0 + j0),
            })
            &&& pages(m2, root) == pages(m, root)
            &&& m2.free() == m.free().remove(f)
            &&& m2.free().len() == m.free().len() - 1
            &&& has2(m2, root, i0, j0)
            &&& table1(m2, root, i0) == table1(m, root, i0)
            &&& table2(m2, root, i0, j0) == f
        }),
{
    let t = table1(m, root, i0);
    let m1 = m.with_frame(f);
    let bits = pte(f, PTE_V);
    let m2 = m1.with_word(t, j0, bits);
    m.lemma_with_frame(f);
    m1.lemma_with_word(t, j0, bits);
    lemma_pte(f, PTE_V);
    assert(!frames.contains(f));
    assert forall|q: int, j: int| q != f && 0 <= j < 512 implies #[trigger] m1.word(q, j) == m.word(
        q,
        j,
    ) by {}
    assert forall|i: int| #[trigger] has1(m2, root, i) == has1(m, root, i) by {}
    assert forall|i: int| has1(m, root, i) implies #[trigger] table1(m2, root, i) == table1(
        m,
        root,
        i,
    ) && table1(m, root, i) != f by {}
    assert forall|i: int, j: int| #[trigger] has2(m2, root, i, j) == (has2(m, root, i, j) || (i
        == i0 && j == j0)) by {
        if has1(m, root, i) {
            assert(table1(m2, root, i) == table1(m, root, i));
            if i != i0 {
                assert(table1(m, root, i) != t);
            }
        }
    }
    assert forall|i: int, j: int| has2(m, root, i, j) implies #[trigger] table2(m2, root, i, j)
        == table2(m, root, i, j) && table2(m, root, i, j) != f && table2(m, root, i, j) != t by {
        assert(has1(m, root, i));
        assert(table1(m2, root, i) == table1(m, root, i));
        if i != i0 {
            assert(table1(m, root, i) != t);
        }
    }
    assert(table1(m2, root, i0) == t);
    assert(table2(m2, root, i0, j0) == f);
    assert(tables(m2, root).l1 =~= tables(m, root).l1);
    assert(tables(m2, root).l2 =~= tables(m, root).l2.insert(512 * i0 + j0)) by {
        assert forall|x: int| #[trigger] tables(m2, root).l2.contains(x) == tables(
            m,
            root,
        ).l2.insert(512 * i0 + j0).contains(x) by {
            assert(has2(m2, root, x / 512, x % 512) == (has2(m, root, x / 512, x % 512) || (x / 512
                == i0 && x % 512 == j0)));
        }
    }
    assert forall|w: int| 0 <= w < VPN_SPACE implies #[trigger] lookup(m2, root, w) == if w / 0x4_0000
        % 512 == i0 && w / 512 % 512 == j0 {
        Some(0u64)
    } else {
        lookup(m, root, w)
    } by {
        let i = w / 0x4_0000 % 512;
        let j = w / 512 % 512;
        if has2(m, root, i, j) {
            assert(table2(m2, root, i, j) == table2(m, root, i, j));
        }
    }
    assert forall|i: int, j: int, k: int|
        has2(m2, root, i, j) && 0 <= k < 512 && !pte_valid(
            #[trigger] m2.word(table2(m2, root, i, j), k),
        ) implies m2.word(table2(m2, root, i, j), k) == 0 by {
        if i != i0 || j != j0 {
            assert(has2(m, root, i, j));
            assert(table2(m2, root, i, j) == table2(m, root, i, j));
            assert(m.word(table2(m, root, i, j), k) == m2.word(table2(m2, root, i, j), k));
        }
    }
    assert(pages(m2, root) =~= pages(m, root)) by {
        assert forall|w: int| #[trigger] pages(m2, root).contains_key(w) == pages(
            m,
            root,
        ).contains_key(w) by {
            if 0 <= w < VPN_SPACE {
                assert(lookup(m2, root, w) == if w / 0x4_0000 % 512 == i0 && w / 512 % 512 == j0 {
                    Some(0u64)
                } else {
                    lookup(m, root, w)
                });
            }
        }
        assert forall|w: int| #[trigger] pages(m2, root).contains_key(w) implies pages(m2, root)[w]
            == pages(m, root)[w] by {
            assert(lookup(m2, root, w) == if w / 0x4_0000 % 512 == i0 && w / 512 % 512 == j0 {
                Some(0u64)
            } else {
                lookup(m, root, w)
            });
        }
    }
}

/// A page table: its root, and the frames that its tables lie in.
pub struct PageTable {
    root_ppn: PhysPageNum,
    frames: Vec<u64>,
}

/// What changing a page table does to memory: frames of its own, some of them
/// new, are written; no other frame is. New ones are the first that are free.
pub open spec fn grown(m0: MemData, own0: Set<int>, m1: MemData, own1: Set<int>) -> bool {
    &&& own0.subset_of(own1)
    &&& own1.difference(own0).subset_of(m0.free())
    &&& m1.used == m0.used.union(own1)
    &&& m1.pages.dom() == m0.pages.dom()
    &&& forall|p: int| #[trigger]
        m0.pages.contains_key(p) && !own1.contains(p) ==> m1.pages[p] == m0.pages[p]
    &&& m0.takes_lowest(m1)
}

/// Pointwise form.
proof fn lemma_grown(m0: MemData, own0: Set<int>, m1: MemData, own1: Set<int>)
    requires
        forall|p: int| #[trigger] own0.contains(p) ==> own1.contains(p),
        forall|p: int| #[trigger] own1.contains(p) ==> own0.contains(p) || m0.free().contains(p),
        forall|p: int| #[trigger]
            m1.used.contains(p) == (m0.used.contains(p) || own1.contains(p)),
        forall|p: int| #[trigger] m1.pages.contains_key(p) == m0.pages.contains_key(p),
        forall|p: int| #[trigger]
            m0.pages.contains_key(p) && !own1.contains(p) ==> m1.pages[p] == m0.pages[p],
        m0.takes_lowest(m1),
    ensures
        grown(m0, own0, m1, own1),
{
    assert(m1.used =~= m0.used.union(own1));
    assert(m1.pages.dom() =~= m0.pages.dom());
}

/// A table was made in the first free frame, and an entry written that leads to it.
proof fn lemma_took_table(m0: MemData, m1: MemData, m2: MemData, f: int)
    requires
        m0.free().contains(f),
        forall|q: int| #[trigger] m0.free().contains(q) ==> f <= q,
        m1 == m0.with_frame(f),
        m2.used == m1.used,
        forall|p: int| #[trigger] m2.pages.contains_key(p) == m1.pages.contains_key(p),
    ensures
        m0.takes_lowest(m2),
{
    m0.lemma_takes_first(f);
    assert(m2.pages.dom() =~= m1.pages.dom());
    m1.lemma_takes_none(m2);
    m0.lemma_takes_trans(m1, m2);
}

/// Two changes make one.
pub proof fn lemma_grown_trans(
    m0: MemData,
    own0: Set<int>,
    m1: MemData,
    own1: Set<int>,
    m2: MemData,
    own2: Set<int>,
)
    requires
        grown(m0, own0, m1, own1),
        grown(m1, own1, m2, own2),
    ensures
        grown(m0, own0, m2, own2),
{
    assert forall|p: int| #[trigger] own2.contains(p) implies own0.contains(p)
        || m0.free().contains(p) by {
        if !own1.contains(p) {
            assert(own2.difference(own1).contains(p));
            assert(m1.free().contains(p));
        } else if !own0.contains(p) {
            assert(own1.difference(own0).contains(p));
        }
    }
    assert forall|p: int| #[trigger] m2.pages.contains_key(p) == m0.pages.contains_key(p) by {
        assert(m2.pages.dom().contains(p) == m0.pages.dom().contains(p));
    }
    assert forall|p: int| #[trigger] m0.pages.contains_key(p) && !own2.contains(p) implies m2.pages[p]
        == m0.pages[p] by {
        assert(m1.pages.dom().contains(p));
        assert(m1.pages.contains_key(p));
    }
    m0.lemma_takes_trans(m1, m2);
    lemma_grown(m0, own0, m2, own2);
}

/// The token of the page table with this root: the SV39 mode, and the root.
pub open spec fn token_of(root: int) -> u64 {
    0x8000_0000_0000_0000u64 | (root as u64)
}

/// There must be frames enough where a table is made or a page is mapped.
impl PageTable {
    /// The number of the root.
    pub closed spec fn root(&self) -> int {
        self.root_ppn.0 as int
    }

    /// The frames that the tables lie in.
    pub closed spec fn owned(&self) -> Set<int> {
        Set::new(|p: int| exists|k: int| 0 <= k < self.frames@.len() && #[trigger] self.frames@[k] == p)
    }

    /// The frames are a tree of tables.
    pub closed spec fn wf(&self, m: MemData) -> bool {
        &&& m.wf()
        &&& tree(m, self.root(), self.owned())
        &&& self.frames@.no_duplicates()
    }

    /// The tables of the page table.
    pub open spec fn tables(&self, m: MemData) -> Tables {
        tables(m, self.root())
    }

    /// The pages that are mapped, with their entries.
    pub open spec fn pages(&self, m: MemData) -> Map<int, u64> {
        pages(m, self.root())
    }

    /// What well-formedness gives to others.
    pub proof fn lemma_wf(&self, m: MemData)
        requires
            self.wf(m),
        ensures
            m.wf(),
            self.owned().subset_of(m.used),
            self.owned().contains(self.root()),
            0 <= self.root() < PPN_SPACE,
            walkable(m, self.root()),
            forall|v: int|
                0 <= v < VPN_SPACE ==> #[trigger] lookup(m, self.root(), v) == if !self.tables(
                    m,
                ).l2.contains(v / 512) {
                    None::<u64>
                } else if self.pages(m).contains_key(v) {
                    Some(self.pages(m)[v])
                } else {
                    Some(0u64)
                },
    {
        assert(m.pages.contains_key(self.root()));
        assert forall|v: int| 0 <= v < VPN_SPACE implies #[trigger] lookup(m, self.root(), v)
            == if !self.tables(m).l2.contains(v / 512) {
            None::<u64>
        } else if self.pages(m).contains_key(v) {
            Some(self.pages(m)[v])
        } else {
            Some(0u64)
        } by {
            lemma_lookup(m, self.root(), self.owned(), v);
        }
    }

    /// A page table depends on its own frames alone.
    pub proof fn lemma_frame(&self, m0: MemData, m1: MemData)
        requires
            self.wf(m0),
            m1.wf(),
            self.owned().subset_of(m1.used),
            forall|p: int| #[trigger] self.owned().contains(p) ==> m1.pages[p] == m0.pages[p],
        ensures
            self.wf(m1),
            self.tables(m1) == self.tables(m0),
            self.pages(m1) == self.pages(m0),
    {
        let root = self.root();
        let own = self.owned();
        assert forall|i: int| #[trigger] has1(m1, root, i) == has1(m0, root, i) by {}
        assert forall|i: int| has1(m0, root, i) implies #[trigger] table1(m1, root, i) == table1(
            m0,
            root,
            i,
        ) by {}
        assert forall|i: int, j: int| #[trigger] has2(m1, root, i, j) == has2(m0, root, i, j) by {
            if has1(m0, root, i) {
                assert(own.contains(table1(m0, root, i)));
            }
        }
        assert forall|i: int, j: int| has2(m0, root, i, j) implies #[trigger] table2(m1, root, i, j)
            == table2(m0, root, i, j) && m1.pages[table2(m0, root, i, j)] == m0.pages[table2(
            m0,
            root,
            i,
            j,
        )] by {
            assert(own.contains(table1(m0, root, i)));
            assert(own.contains(table2(m0, root, i, j)));
        }
        assert forall|v: int| #[trigger] lookup(m1, root, v) == lookup(m0, root, v) by {
            let i = v / 0x4_0000 % 512;
            let j = v / 512 % 512;
            if has2(m0, root, i, j) {
                assert(table2(m1, root, i, j) == table2(m0, root, i, j));
            }
        }
        assert forall|i: int, j: int, k: int|
            has2(m1, root, i, j) && 0 <= k < 512 && !pte_valid(
                #[trigger] m1.word(table2(m1, root, i, j), k),
            ) implies m1.word(table2(m1, root, i, j), k) == 0 by {
            assert(has2(m0, root, i, j));
            assert(table2(m1, root, i, j) == table2(m0, root, i, j));
            assert(m0.word(table2(m0, root, i, j), k) == m1.word(table2(m1, root, i, j), k));
        }
        assert(tables(m1, root) =~= tables(m0, root));
        assert(pages(m1, root) =~= pages(m0, root)) by {
            assert forall|w: int| #[trigger] pages(m1, root).contains_key(w) == pages(
                m0,
                root,
            ).contains_key(w) by {
                assert(lookup(m1, root, w) == lookup(m0, root, w));
            }
            assert forall|w: int| #[trigger] pages(m1, root).contains_key(w) implies pages(
                m1,
                root,
            )[w] == pages(m0, root)[w] by {
                assert(lookup(m1, root, w) == lookup(m0, root, w));
            }
        }
    }

    /// A page table with no page.
    pub fn new(mem: &mut PhysMemory) -> (r: Self)
        requires
            old(mem).wf(),
            old(mem)@.free().len() > 0,
        ensures
            final(mem).wf(),
            r.wf(final(mem)@),
            old(mem)@.free().contains(r.root()),
            final(mem)@ == old(mem)@.with_frame(r.root()),
            old(mem)@.takes_lowest(final(mem)@),
            final(mem)@.free().len() == old(mem)@.free().len() - 1,
            r.owned() == Set::<int>::empty().insert(r.root()),
            r.tables(final(mem)@) == (Tables { l1: Set::empty(), l2: Set::empty() }),
            r.pages(final(mem)@) == Map::<int, u64>::empty(),
            final(mem).first() == old(mem).first(),
    {
        let ghost m0 = mem@;
        proof {
            mem.lemma_wf();
        }
        let frame: PhysPageNum = mem.frame_alloc().unwrap();
        let mut frames: Vec<u64> = Vec::new();
        frames.push(frame.0);
        let r = PageTable { root_ppn: frame, frames };
        proof {
            m0.lemma_with_frame(frame.0 as int);
            m0.lemma_takes_first(frame.0 as int);
            let m = mem@;
            let root = frame.0 as int;
            assert(r.frames@[0] == root);
            assert(r.owned() =~= Set::<int>::empty().insert(root));
            assert forall|i: int| !#[trigger] has1(m, root, i) by {
                if 0 <= i < 512 {
                    assert(m.word(root, i) == 0);
                }
            }
            assert(r.tables(m) =~= (Tables { l1: Set::empty(), l2: Set::empty() }));
            assert(r.pages(m) =~= Map::<int, u64>::empty());
        }
        r
    }

    /// The page table of a token, to look entries up. It holds no frames.
    pub fn from_token(satp: u64) -> (r: Self)
        ensures
            r.root() == satp % PPN_SPACE,
            r.owned() == Set::<int>::empty(),
    {
        assert(satp & 0xfff_ffff_ffffu64 == satp % 0x1000_0000_0000u64) by (bit_vector);
        let r = PageTable {
            root_ppn: PhysPageNum(satp & 0xfff_ffff_ffff),
            frames: Vec::new(),
        };
        assert(r.owned() =~= Set::<int>::empty());
        r
    }

    /// The place of the entry for a page: the table, and the index in it.
    fn find_pte(&self, mem: &PhysMemory, vpn: VirtPageNum) -> (r: Option<(PhysPageNum, usize)>)
        requires
            mem.wf(),
            walkable(mem@, self.root()),
        ensures
            match r {
                Some((ppn, idx)) => {
                    let i = vpn.0 as int / 0x4_0000 % 512;
                    let j = vpn.0 as int / 512 % 512;
                    &&& has2(mem@, self.root(), i, j)
                    &&& ppn.0 == table2(mem@, self.root(), i, j)
                    &&& idx == vpn.0 % 512
                    &&& mem@.pages.contains_key(ppn.0 as int)
                },
                None => lookup(mem@, self.root(), vpn.0 as int) is None,
            },
    {
        let idxs: [usize; 3] = vpn.indexes();
        let root_entry = PageTableEntry { bits: mem.read_word(self.root_ppn, idxs[0]) };
        if !root_entry.is_valid() {
            return None;
        }
        assert(has1(mem@, self.root(), vpn.0 as int / 0x4_0000 % 512));
        let entry = PageTableEntry { bits: mem.read_word(root_entry.ppn(), idxs[1]) };
        if !entry.is_valid() {
            return None;
        }
        assert(has2(
            mem@,
            self.root(),
            vpn.0 as int / 0x4_0000 % 512,
            vpn.0 as int / 512 % 512,
        ));
        Some((entry.ppn(), idxs[2]))
    }

    /// The place of the entry for a page; tables that are missing on the way are
    /// made.
    fn find_pte_create(&mut self, mem: &mut PhysMemory, vpn: VirtPageNum) -> (r: (
        PhysPageNum,
        usize,
    ))
        requires
            old(mem).wf(),
            old(self).wf(old(mem)@),
            vpn.0 < VPN_SPACE,
            old(self).tables(old(mem)@).missing(vpn.0 as int) <= old(mem)@.free().len(),
        ensures
            final(mem).wf(),
            final(self).wf(final(mem)@),
            final(self).root() == old(self).root(),
            final(self).tables(final(mem)@) == old(self).tables(old(mem)@).with_page(vpn.0 as int),
            final(self).pages(final(mem)@) == old(self).pages(old(mem)@),
            grown(old(mem)@, old(self).owned(), final(mem)@, final(self).owned()),
            final(mem)@.free().len() == old(mem)@.free().len() - old(self).tables(
                old(mem)@,
            ).missing(vpn.0 as int),
            final(mem).first() == old(mem).first(),
            ({
                let i = vpn.0 as int / 0x4_0000 % 512;
                let j = vpn.0 as int / 512 % 512;
                &&& has2(final(mem)@, final(self).root(), i, j)
                &&& r.0.0 == table2(final(mem)@, final(self).root(), i, j)
                &&& r.1 == vpn.0 % 512
                &&& final(mem)@.pages.contains_key(r.0.0 as int)
                &&& final(self).owned().contains(r.0.0 as int)
            }),
    {
        let ghost m0 = mem@;
        let ghost own0 = self.owned();
        let ghost root = self.root();
        let ghost v = vpn.0 as int;
        let ghost i0 = v / 0x4_0000;
        let ghost j0 = v / 512 % 512;
        let idxs: [usize; 3] = vpn.indexes();
        proof {
            assert(i0 % 512 == i0);
            assert(v / 512 / 512 == i0);
            lemma_lookup(m0, root, own0, v);
            lemma_walkable(m0, root, own0);
        }
        let mut root_entry = PageTableEntry { bits: mem.read_word(self.root_ppn, idxs[0]) };
        if !root_entry.is_valid() {
            proof {
                if m0.free().len() == 0 {
                    assert(false);
                }
            }
            let frame: PhysPageNum = mem.frame_alloc().unwrap();
            assert(m0.pages.contains_key(frame.0 as int));
            root_entry = PageTableEntry::new(frame, PTEFlags { bits: PTE_V });
            let ghost taken = mem@;
            mem.write_word(self.root_ppn, idxs[0], root_entry.bits);
            proof {
                lemma_took_table(m0, taken, mem@, frame.0 as int);
                lemma_add_l1(m0, root, own0, i0, frame.0 as int);
                lemma_pte(frame.0 as int, PTE_V);
            }
            let ghost before = *self;
            self.frames.push(frame.0);
            proof {
                before.lemma_push(*self, frame.0);
            }
        }
        proof {
            if mem@ == m0 {
                m0.lemma_takes_none(m0);
            }
            lemma_grown(m0, own0, mem@, self.owned());
        }
        let ghost m1 = mem@;
        let ghost own1 = self.owned();
        assert(has1(m1, root, i0));
        assert(tables(m1, root).l2 == tables(m0, root).l2);
        assert(tables(m1, root).l2.contains(v / 512) == has2(m1, root, i0, j0));
        let mut entry = PageTableEntry { bits: mem.read_word(root_entry.ppn(), idxs[1]) };
        if !entry.is_valid() {
            proof {
                if m1.free().len() == 0 {
                    assert(false);
                }
            }
            let frame: PhysPageNum = mem.frame_alloc().unwrap();
            assert(m1.pages.contains_key(frame.0 as int));
            entry = PageTableEntry::new(frame, PTEFlags { bits: PTE_V });
            let ghost taken = mem@;
            mem.write_word(root_entry.ppn(), idxs[1], entry.bits);
            proof {
                lemma_took_table(m1, taken, mem@, frame.0 as int);
                lemma_add_l2(m1, root, own1, i0, j0, frame.0 as int);
                lemma_pte(frame.0 as int, PTE_V);
            }
            let ghost before = *self;
            self.frames.push(frame.0);
            proof {
                before.lemma_push(*self, frame.0);
            }
        }
        proof {
            assert(512 * i0 + j0 == v / 512);
            assert(self.tables(mem@) =~= tables(m0, root).with_page(v));
            if mem@ == m1 {
                m1.lemma_takes_none(m1);
            }
            lemma_grown(m1, own1, mem@, self.owned());
            lemma_grown_trans(m0, own0, m1, own1, mem@, self.owned());
            assert(has2(mem@, root, i0, j0));
        }
        (entry.ppn(), idxs[2])
    }

    /// One more frame.
    proof fn lemma_push(self, after: Self, f: u64)
        requires
            after.root_ppn == self.root_ppn,
            after.frames@ == self.frames@.push(f),
            self.frames@.no_duplicates(),
            !self.owned().contains(f as int),
        ensures
            after.owned() == self.owned().insert(f as int),
            after.frames@.no_duplicates(),
    {
        assert forall|p: int| after.owned().contains(p) == self.owned().insert(
            f as int,
        ).contains(p) by {
            if self.owned().contains(p) {
                let k = choose|k: int| 0 <= k < self.frames@.len() && #[trigger] self.frames@[k] == p;
                assert(after.frames@[k] == p);
            }
            if p == f {
                assert(after.frames@[self.frames@.len() as int] == p);
            }
            if after.owned().contains(p) {
                let k = choose|k: int|
                    0 <= k < after.frames@.len() && #[trigger] after.frames@[k] == p;
                if k < self.frames@.len() {
                    assert(self.frames@[k] == p);
                }
            }
        }
        assert(after.owned() =~= self.owned().insert(f as int));
        assert forall|a: int, b: int| 0 <= a < b < after.frames@.len() implies after.frames@[a]
            != after.frames@[b] by {
            if b == self.frames@.len() {
                assert(self.frames@[a] == after.frames@[a]);
            }
        }
    }

    /// Maps a page that is not mapped to a frame.
    pub fn map(
        &mut self,
        mem: &mut PhysMemory,
        vpn: VirtPageNum,
        ppn: PhysPageNum,
        flags: PTEFlags,
    )
        requires
            old(mem).wf(),
            old(self).wf(old(mem)@),
            vpn.0 < VPN_SPACE,
            ppn.0 < PPN_SPACE,
            !old(self).pages(old(mem)@).contains_key(vpn.0 as int),
            old(self).tables(old(mem)@).missing(vpn.0 as int) <= old(mem)@.free().len(),
        ensures
            final(mem).wf(),
            final(self).wf(final(mem)@),
            final(self).root() == old(self).root(),
            final(self).tables(final(mem)@) == old(self).tables(old(mem)@).with_page(vpn.0 as int),
            final(self).pages(final(mem)@) == old(self).pages(old(mem)@).insert(
                vpn.0 as int,
                pte(ppn.0 as int, with_valid(flags.bits)),
            ),
            grown(old(mem)@, old(self).owned(), final(mem)@, final(self).owned()),
            final(mem)@.free().len() == old(mem)@.free().len() - old(self).tables(
                old(mem)@,
            ).missing(vpn.0 as int),
            final(mem).first() == old(mem).first(),
    {
        let (table, idx): (PhysPageNum, usize) = self.find_pte_create(mem, vpn);
        let ghost m1 = mem@;
        let f: u8 = flags.bits;
        assert(f | 1u8 == if f % 2 == 1 {
            f
        } else {
            (f + 1) as u8
        }) by (bit_vector);
        let entry = PageTableEntry::new(ppn, flags.union(PTEFlags { bits: PTE_V }));
        mem.write_word(table, idx, entry.bits);
        proof {
            lemma_pte(ppn.0 as int, with_valid(f));
            lemma_write_leaf(m1, self.root(), self.owned(), vpn.0 as int, entry.bits);
            assert(mem@.pages.dom() =~= m1.pages.dom());
            m1.lemma_takes_none(mem@);
            lemma_grown(m1, self.owned(), mem@, self.owned());
            lemma_grown_trans(
                old(mem)@,
                old(self).owned(),
                m1,
                self.owned(),
                mem@,
                self.owned(),
            );
        }
    }

    /// Removes the mapping of a page that is mapped.
    pub fn unmap(&mut self, mem: &mut PhysMemory, vpn: VirtPageNum)
        requires
            old(mem).wf(),
            old(self).wf(old(mem)@),
            vpn.0 < VPN_SPACE,
            old(self).pages(old(mem)@).contains_key(vpn.0 as int),
        ensures
            final(mem).wf(),
            final(self).wf(final(mem)@),
            final(self).root() == old(self).root(),
            final(self).owned() == old(self).owned(),
            final(self).tables(final(mem)@) == old(self).tables(old(mem)@),
            final(self).pages(final(mem)@) == old(self).pages(old(mem)@).remove(vpn.0 as int),
            grown(old(mem)@, old(self).owned(), final(mem)@, final(self).owned()),
            final(mem)@.free() == old(mem)@.free(),
            final(mem).first() == old(mem).first(),
    {
        let ghost m0 = mem@;
        proof {
            lemma_walkable(m0, self.root(), self.owned());
        }
        let (table, idx): (PhysPageNum, usize) = self.find_pte(mem, vpn).unwrap();
        mem.write_word(table, idx, PageTableEntry::empty().bits);
        proof {
            lemma_write_leaf(m0, self.root(), self.owned(), vpn.0 as int, 0);
            assert(mem@.used =~= m0.used.union(self.owned()));
            assert(mem@.pages.dom() =~= m0.pages.dom());
            m0.lemma_takes_none(mem@);
        }
    }

    /// The entry for a page, if there is a table for it.
    pub fn translate(&self, mem: &PhysMemory, vpn: VirtPageNum) -> (r: Option<PageTableEntry>)
        requires
            mem.wf(),
            walkable(mem@, self.root()),
        ensures
            match lookup(mem@, self.root(), vpn.0 as int) {
                Some(bits) => r == Some(PageTableEntry { bits }),
                None => r is None,
            },
    {
        match self.find_pte(mem, vpn) {
            Some((table, idx)) => Some(PageTableEntry { bits: mem.read_word(table, idx) }),
            None => None,
        }
    }

    /// The token: the SV39 mode, and the root.
    pub fn token(&self) -> (r: u64)
        ensures
            r == token_of(self.root()),
            self.root() < PPN_SPACE ==> r == 0x8000_0000_0000_0000u64 + self.root(),
            self.root() < PPN_SPACE ==> r % PPN_SPACE == self.root(),
    {
        let p: u64 = self.root_ppn.0;
        assert((8u64 << 60) | p == 0x8000_0000_0000_0000u64 | p) by (bit_vector);
        assert(p < 0x1000_0000_0000u64 ==> 0x8000_0000_0000_0000u64 | p
            == 0x8000_0000_0000_0000u64 + p) by (bit_vector);
        (8u64 << 60) | self.root_ppn.0
    }

    /// Gives the frames of all tables back.
    pub fn recycle(self, mem: &mut PhysMemory)
        requires
            old(mem).wf(),
            self.wf(old(mem)@),
        ensures
            final(mem).wf(),
            final(mem)@.pages == old(mem)@.pages,
            final(mem)@.used == old(mem)@.used.difference(self.owned()),
            final(mem).first() == old(mem).first(),
    {
        let ghost m0 = mem@;
        let mut k: usize = 0;
        while k < self.frames.len()
            invariant
                k <= self.frames@.len(),
                mem.wf(),
                mem.first() == old(mem).first(),
                mem@.pages == m0.pages,
                self.frames@.no_duplicates(),
                self.owned().subset_of(m0.used),
                forall|p: int| #[trigger]
                    mem@.used.contains(p) == (m0.used.contains(p) && !exists|l: int|
                        0 <= l < k && #[trigger] self.frames@[l] == p),
            decreases self.frames@.len() - k,
        {
            let ghost m1 = mem@;
            let f: u64 = self.frames[k];
            assert(self.owned().contains(f as int));
            mem.frame_dealloc(PhysPageNum(f));
            proof {
                assert forall|p: int| #[trigger] mem@.used.contains(p) == (m0.used.contains(p)
                    && !exists|l: int| 0 <= l < k + 1 && #[trigger] self.frames@[l] == p) by {
                    assert(m1.used.contains(p) == (m0.used.contains(p) && !exists|l: int|
                        0 <= l < k && #[trigger] self.frames@[l] == p));
                    if p == f {
                        assert(self.frames@[k as int] == p);
                    }
                }
            }
            k += 1;
        }
        assert(mem@.used =~= m0.used.difference(self.owned()));
    }
}

/// A part of a frame.
#[derive(Clone, Copy, PartialEq, Eq, Structural, Debug)]
pub struct FrameSlice {
    /// The frame.
    pub ppn: PhysPageNum,
    /// The first byte.
    pub start: usize,
    /// The byte behind the last.
    pub end: usize,
}

/// Bytes that lie one after the other in virtual memory, piece by piece in
/// frames.
pub struct UserBuffer {
    pub buffers: Vec<FrameSlice>,
}

impl UserBuffer {
    /// A buffer of these pieces.
    pub fn new(buffers: Vec<FrameSlice>) -> (r: Self)
        ensures
            r.buffers == buffers,
    {
        UserBuffer { buffers }
    }
}

/// The addresses from `ptr` on lie in one half of the address space, where the
/// highest bit of the 39 is extended.
pub open spec fn canonical(ptr: int, len: int) -> bool {
    ||| ptr + len <= VA_SPACE / 2
    ||| (ptr >= u64::MAX + 1 - VA_SPACE / 2 && ptr + len <= u64::MAX)
}

/// How many pages hold the `len` bytes from virtual address `a` on.
pub open spec fn piece_count(a: int, len: int) -> int {
    if len <= 0 {
        0
    } else {
        address::ceil_of(a + len) - address::floor_of(a)
    }
}

/// Piece `k` of the `len` bytes from virtual address `a` on.
pub open spec fn piece(m: MemData, root: int, a: int, len: int, k: int) -> FrameSlice {
    let v = address::floor_of(a) + k;
    FrameSlice {
        ppn: PhysPageNum(pte_ppn(lookup(m, root, v).unwrap()) as u64),
        start: (if k == 0 {
            a % 4096
        } else {
            0
        }) as usize,
        end: (if k == piece_count(a, len) - 1 && (a + len) % 4096 != 0 {
            (a + len) % 4096
        } else {
            4096
        }) as usize,
    }
}

/// A piece lies in one page.
pub proof fn lemma_piece_bounds(m: MemData, root: int, a: int, len: int, k: int)
    requires
        0 <= a,
        0 <= k < piece_count(a, len),
    ensures
        piece(m, root, a, len, k).start < piece(m, root, a, len, k).end <= 4096,
{
    if k == 0 && piece_count(a, len) == 1 && (a + len) % 4096 != 0 {
        assert((a + len) / 4096 == a / 4096);
    }
}

/// The byte at virtual address `a`.
pub open spec fn virt_byte(m: MemData, root: int, a: int) -> u8 {
    m.pages[pte_ppn(lookup(m, root, a / 4096).unwrap())][a % 4096]
}

/// The bytes of the first `k` pieces.
pub open spec fn flat(m: MemData, pieces: Seq<FrameSlice>, k: int) -> Seq<u8>
    decreases k,
{
    if k <= 0 {
        Seq::empty()
    } else {
        let s = pieces[k - 1];
        flat(m, pieces, k - 1) + m.pages[s.ppn.0 as int].subrange(s.start as int, s.end as int)
    }
}

/// The pieces hold the bytes at the virtual addresses, in their order.
pub proof fn law_buffer_bytes(m: MemData, root: int, a: int, len: int, pieces: Seq<FrameSlice>)
    requires
        0 <= a,
        0 <= len,
        pieces.len() == piece_count(a, len),
        forall|k: int| 0 <= k < pieces.len() ==> #[trigger] pieces[k] == piece(m, root, a, len, k),
        forall|k: int|
            0 <= k < pieces.len() ==> m.pages[(#[trigger] pieces[k]).ppn.0 as int].len() == 4096,
    ensures
        flat(m, pieces, pieces.len() as int) == Seq::new(
            len as nat,
            |i: int| virt_byte(m, root, a + i),
        ),
{
    let n = pieces.len() as int;
    if n > 0 {
        lemma_flat(m, root, a, len, pieces, n);
        assert(flat(m, pieces, n) =~= Seq::new(len as nat, |i: int| virt_byte(m, root, a + i)));
    } else {
        assert(len == 0);
        assert(flat(m, pieces, n) =~= Seq::new(len as nat, |i: int| virt_byte(m, root, a + i)));
    }
}

/// Where piece `k` lies among the addresses.
proof fn lemma_piece_place(m: MemData, root: int, a: int, len: int, k: int)
    requires
        0 <= a,
        0 < len,
        0 <= k < piece_count(a, len),
    ensures
        ({
            let s = piece(m, root, a, len, k);
            let v = a / 4096 + k;
            &&& 0 <= s.start < s.end <= 4096
            &&& k == 0 ==> 4096 * v + s.start == a
            &&& k > 0 ==> s.start == 0
            &&& k < piece_count(a, len) - 1 ==> s.end == 4096
            &&& k == piece_count(a, len) - 1 ==> 4096 * v + s.end == a + len
            &&& s.ppn.0 == pte_ppn(lookup(m, root, v).unwrap())
        }),
{
    lemma_piece_bounds(m, root, a, len, k);
}

/// An address in page `v`.
proof fn lemma_in_page(v: int, i: int)
    requires
        0 <= i < 4096,
    ensures
        (4096 * v + i) / 4096 == v,
        (4096 * v + i) % 4096 == i,
{
}

proof fn lemma_flat(m: MemData, root: int, a: int, len: int, pieces: Seq<FrameSlice>, k: int)
    requires
        0 <= a,
        0 < len,
        pieces.len() == piece_count(a, len),
        0 < k <= pieces.len(),
        forall|j: int| 0 <= j < pieces.len() ==> #[trigger] pieces[j] == piece(m, root, a, len, j),
        forall|j: int|
            0 <= j < pieces.len() ==> m.pages[(#[trigger] pieces[j]).ppn.0 as int].len() == 4096,
    ensures
        flat(m, pieces, k).len() == (if k == pieces.len() {
            len
        } else {
            4096 * (a / 4096 + k) - a
        }),
        forall|i: int|
            0 <= i < flat(m, pieces, k).len() ==> #[trigger] flat(m, pieces, k)[i] == virt_byte(
                m,
                root,
                a + i,
            ),
    decreases k,
{
    let s = pieces[k - 1];
    let v = a / 4096 + (k - 1);
    let page = m.pages[s.ppn.0 as int];
    let before = flat(m, pieces, k - 1);
    let base = before.len() as int;
    let all = flat(m, pieces, k);
    if k > 1 {
        lemma_flat(m, root, a, len, pieces, k - 1);
    }
    lemma_piece_place(m, root, a, len, k - 1);
    assert(s == piece(m, root, a, len, k - 1));
    assert(a + base == 4096 * v + s.start);
    assert(all == before + page.subrange(s.start as int, s.end as int));
    assert(all.len() == base + (s.end - s.start));
    assert forall|i: int| 0 <= i < all.len() implies #[trigger] all[i] == virt_byte(
        m,
        root,
        a + i,
    ) by {
        if i < base {
            assert(all[i] == before[i]);
        } else {
            let x = s.start + (i - base);
            lemma_in_page(v, x);
            assert(a + i == 4096 * v + x);
            assert(all[i] == page[x]);
        }
    }
}

/// Where `len` bytes at a virtual address lie in physical memory, translated
/// through the page table of the token.
pub fn translated_byte_buffer(mem: &PhysMemory, token: u64, ptr: u64, len: u64) -> (v: Vec<
    FrameSlice,
>)
    requires
        mem.wf(),
        walkable(mem@, token as int % (PPN_SPACE as int)),
        canonical(ptr as int, len as int),
        ({
            let a = ptr as int % (VA_SPACE as int);
            forall|k: int|
                0 <= k < piece_count(a, len as int) ==> #[trigger] lookup(
                    mem@,
                    token as int % (PPN_SPACE as int),
                    address::floor_of(a) + k,
                ) is Some
        }),
    ensures
        ({
            let a = ptr as int % (VA_SPACE as int);
            &&& v@.len() == piece_count(a, len as int)
            &&& forall|k: int|
                0 <= k < v@.len() ==> #[trigger] v@[k] == piece(
                    mem@,
                    token as int % (PPN_SPACE as int),
                    a,
                    len as int,
                    k,
                )
        }),
{
    let ghost root = token as int % (PPN_SPACE as int);
    let ghost a = ptr as int % (VA_SPACE as int);
    let ghost n = piece_count(a, len as int);
    let ghost off = ptr - a;
    let page_table = PageTable::from_token(token);
    let mut start: u64 = ptr;
    let end: u64 = start + len;
    let last = VirtAddr::new(end);
    let mut v: Vec<FrameSlice> = Vec::new();
    proof {
        lemma_halves(ptr as int, len as int);
    }
    while start < end
        invariant
            mem.wf(),
            root == token as int % (PPN_SPACE as int),
            n == piece_count(a, len as int),
            page_table.root() == root,
            walkable(mem@, root),
            0 <= a,
            (off == 0 && a + len <= VA_SPACE / 2) || (off == u64::MAX + 1 - VA_SPACE && a
                >= VA_SPACE / 2 && a + len < VA_SPACE),
            end == off + a + len,
            len > 0 ==> last.0 == a + len,
            start < end ==> {
                &&& len > 0
                &&& start == off + (if v@.len() == 0 {
                    a
                } else {
                    4096 * (a / 4096 + v@.len())
                })
                &&& v@.len() < n
            },
            start >= end ==> v@.len() == n,
            forall|k: int|
                0 <= k < n ==> #[trigger] lookup(mem@, root, address::floor_of(a) + k) is Some,
            forall|k: int|
                0 <= k < v@.len() ==> #[trigger] v@[k] == piece(mem@, root, a, len as int, k),
        decreases n - v@.len(),
    {
        let ghost k = v@.len() as int;
        let ghost pos = start - off;
        proof {
            lemma_piece(a, len as int, k);
            lemma_low(off, pos);
        }
        let start_va = VirtAddr::new(start);
        let vpn: VirtPageNum = start_va.floor();
        assert(lookup(mem@, root, address::floor_of(a) + k) is Some);
        let ppn: PhysPageNum = page_table.translate(mem, vpn).unwrap().ppn();
        let next = VirtPageNum(vpn.0 + 1).addr();
        let end_va: VirtAddr = if next.0 < last.0 {
            next
        } else {
            last
        };
        let from: usize = start_va.page_offset() as usize;
        let to: usize = if end_va.page_offset() == 0 {
            4096
        } else {
            end_va.page_offset() as usize
        };
        let s = FrameSlice { ppn, start: from, end: to };
        v.push(s);
        proof {
            assert(s == piece(mem@, root, a, len as int, k));
            let w: u64 = end_va.0;
            assert(w >= 0x40_0000_0000u64 && w < 0x80_0000_0000u64 ==> w | 0xffff_ff80_0000_0000u64
                == w + 0xffff_ff80_0000_0000u64) by (bit_vector);
        }
        start = end_va.to_word();
    }
    v
}

/// In which half the addresses lie.
proof fn lemma_halves(ptr: int, len: int)
    requires
        0 <= ptr <= u64::MAX,
        0 <= len,
        canonical(ptr, len),
    ensures
        ({
            let a = ptr % (VA_SPACE as int);
            let off = ptr - a;
            &&& (off == 0 && a + len <= VA_SPACE / 2) || (off == u64::MAX + 1 - VA_SPACE && a
                >= VA_SPACE / 2 && a + len < VA_SPACE)
            &&& (ptr + len) % (VA_SPACE as int) == a + len
            &&& len > 0 ==> piece_count(a, len) > 0
        }),
{
}

/// The low bits of an address in either half.
proof fn lemma_low(off: int, pos: int)
    requires
        off == 0 || off == u64::MAX + 1 - VA_SPACE,
        0 <= pos < VA_SPACE,
    ensures
        (off + pos) % (VA_SPACE as int) == pos,
{
}

/// Where piece `k` starts, and whether it is the last.
proof fn lemma_piece(a: int, len: int, k: int)
    requires
        0 <= a,
        0 < len,
        0 <= k < piece_count(a, len),
    ensures
        ({
            let pos = if k == 0 {
                a
            } else {
                4096 * (a / 4096 + k)
            };
            let next = 4096 * (a / 4096 + k + 1);
            &&& pos < a + len
            &&& pos / 4096 == a / 4096 + k
            &&& pos % 4096 == if k == 0 {
                a % 4096
            } else {
                0
            }
            &&& (next >= a + len) == (k == piece_count(a, len) - 1)
            &&& next % 4096 == 0
            &&& next > pos
            &&& k == piece_count(a, len) - 1 ==> (a + len - 1) / 4096 == a / 4096 + k
        }),
{
}

} // verus!
