//! Whether a device holds a file system: the test to make before its blocks are
//! relied on.
use super::block_dev::BlockDevice;
use super::bytes;
use super::disk_inode;
use super::disk_inode::{DiskInode, InodeData};
use super::efs::EasyFileSystem;
use super::super_block::SuperBlock;
use super::BLOCK_SZ;
use vstd::prelude::*;

verus! {

/// The block is a data block in use that is not taken.
spec fn can_take(sb: SuperBlock, disk: Seq<Seq<u8>>, taken: Seq<bool>, b: u32) -> bool {
    sb.data_used(disk, b as int) && !taken[b - sb.data_area()]
}

/// The inode is a tree of data blocks in use that are not taken.
spec fn can_claim(sb: SuperBlock, disk: Seq<Seq<u8>>, taken: Seq<bool>, inode: InodeData) -> bool {
    &&& inode.wf(disk)
    &&& forall|p: int|
        0 <= p < inode.total() ==> can_take(sb, disk, taken, #[trigger] inode.slot(disk, p))
}

/// One of the first `n` blocks of the inode is `b`.
spec fn among(disk: Seq<Seq<u8>>, inode: InodeData, n: int, b: int) -> bool {
    exists|p: int| 0 <= p < n && #[trigger] inode.slot(disk, p) == b
}

/// The blocks that were taken, and the first `n` blocks of the inode.
spec fn claimed(
    sb: SuperBlock,
    disk: Seq<Seq<u8>>,
    t0: Seq<bool>,
    t1: Seq<bool>,
    inode: InodeData,
    n: int,
) -> bool {
    &&& t1.len() == t0.len()
    &&& forall|x: int|
        0 <= x < t0.len() ==> #[trigger] t1[x] == (t0[x] || among(
            disk,
            inode,
            n,
            sb.data_area() + x,
        ))
}

/// A data block is taken if one of the first `n` inodes has it.
spec fn taken_upto(sb: SuperBlock, disk: Seq<Seq<u8>>, taken: Seq<bool>, n: int) -> bool {
    &&& taken.len() == sb.data_area_blocks
    &&& forall|x: int|
        0 <= x < taken.len() ==> #[trigger] taken[x] == has_owner(sb, disk, n, sb.data_area() + x)
}

/// One of the first `n` inodes has the block.
spec fn has_owner(sb: SuperBlock, disk: Seq<Seq<u8>>, n: int, b: int) -> bool {
    exists|j: int| 0 <= j < n && sb.used(disk, j) && #[trigger] sb.owns(disk, j, b)
}

/// What a file system asks of its inodes holds of the first `n`.
spec fn inodes_upto(sb: SuperBlock, disk: Seq<Seq<u8>>, n: int) -> bool {
    &&& forall|i: int| 0 <= i < n && #[trigger] sb.used(disk, i) ==> sb.inode(disk, i).wf(disk)
    &&& forall|i: int, b: int|
        0 <= i < n && sb.used(disk, i) && #[trigger] sb.owns(disk, i, b) ==> sb.data_used(disk, b)
    &&& forall|i: int, j: int, b: int|
        0 <= i < n && 0 <= j < n && sb.used(disk, i) && sb.used(disk, j) && #[trigger] sb.owns(
            disk,
            i,
            b,
        ) && #[trigger] sb.owns(disk, j, b) ==> i == j
    &&& forall|i: int|
        0 <= i < n && !sb.used(disk, i) ==> #[trigger] sb.inode_bytes(disk, i) == bytes::zeros(128)
}

/// The first `n` data blocks are zero where they are not in use.
spec fn free_upto(sb: SuperBlock, disk: Seq<Seq<u8>>, n: int) -> bool {
    forall|b: int|
        sb.data_area() <= b < sb.data_area() + n && !sb.data_used(disk, b) ==> #[trigger] disk[b]
            == bytes::zeros(512)
}

/// One more inode with blocks of its own.
proof fn lemma_claimed(
    sb: SuperBlock,
    disk: Seq<Seq<u8>>,
    t0: Seq<bool>,
    t1: Seq<bool>,
    i: int,
)
    requires
        0 <= i,
        sb.used(disk, i),
        taken_upto(sb, disk, t0, i),
        inodes_upto(sb, disk, i),
        can_claim(sb, disk, t0, sb.inode(disk, i)),
        claimed(sb, disk, t0, t1, sb.inode(disk, i), sb.inode(disk, i).total()),
    ensures
        taken_upto(sb, disk, t1, i + 1),
        inodes_upto(sb, disk, i + 1),
{
    let d = sb.inode(disk, i);
    assert forall|b: int| #[trigger] sb.owns(disk, i, b) implies sb.data_used(disk, b)
        && !has_owner(sb, disk, i, b) by {
        let p = choose|p: int| 0 <= p < d.total() && #[trigger] d.slot(disk, p) == b;
        assert(can_take(sb, disk, t0, d.slot(disk, p)));
        assert(t0[b - sb.data_area()] == has_owner(sb, disk, i, sb.data_area() + (b
            - sb.data_area())));
    }
    assert forall|x: int| 0 <= x < t1.len() implies #[trigger] t1[x] == has_owner(
        sb,
        disk,
        i + 1,
        sb.data_area() + x,
    ) by {
        let b = sb.data_area() + x;
        assert(among(disk, d, d.total(), b) == sb.owns(disk, i, b));
        assert(t0[x] == has_owner(sb, disk, i, b));
        if has_owner(sb, disk, i + 1, b) {
            let j = choose|j: int| 0 <= j < i + 1 && sb.used(disk, j) && #[trigger] sb.owns(disk, j, b);
            if j < i {
                assert(sb.owns(disk, j, b));
            }
        }
    }
    assert forall|k: int, j: int, b: int|
        0 <= k < i + 1 && 0 <= j < i + 1 && sb.used(disk, k) && sb.used(disk, j)
            && #[trigger] sb.owns(disk, k, b) && #[trigger] sb.owns(disk, j, b) implies k == j by {
        if k == i && j < i {
            assert(has_owner(sb, disk, i, b));
        }
        if j == i && k < i {
            assert(has_owner(sb, disk, i, b));
        }
    }
}

/// An inode whose blocks cannot be claimed does not occur in a file system.
proof fn lemma_not_claimed(sb: SuperBlock, disk: Seq<Seq<u8>>, taken: Seq<bool>, i: int)
    requires
        0 <= i,
        sb.used(disk, i),
        taken_upto(sb, disk, taken, i),
        !can_claim(sb, disk, taken, sb.inode(disk, i)),
    ensures
        !sb.holds(disk),
{
    if sb.holds(disk) {
        let d = sb.inode(disk, i);
        assert(d.wf(disk));
        assert forall|p: int| 0 <= p < d.total() implies can_take(
            sb,
            disk,
            taken,
            #[trigger] d.slot(disk, p),
        ) by {
            let b = d.slot(disk, p) as int;
            assert(sb.owns(disk, i, b));
            assert(sb.data_used(disk, b));
            assert(taken[b - sb.data_area()] == has_owner(sb, disk, i, sb.data_area() + (b
                - sb.data_area())));
            if has_owner(sb, disk, i, b) {
                let j = choose|j: int|
                    0 <= j < i && sb.used(disk, j) && #[trigger] sb.owns(disk, j, b);
                assert(sb.owns(disk, j, b));
            }
        }
    }
}

/// Whether all bytes are zero.
fn all_zero(v: &Vec<u8>) -> (r: bool)
    ensures
        r == (v@ == bytes::zeros(v@.len())),
{
    let mut i: usize = 0;
    while i < v.len()
        invariant
            i <= v@.len(),
            forall|k: int| 0 <= k < i ==> #[trigger] v@[k] == 0,
        decreases v@.len() - i,
    {
        if v[i] != 0 {
            assert(bytes::zeros(v@.len())[i as int] == 0);
            return false;
        }
        i += 1;
    }
    assert(v@ =~= bytes::zeros(v@.len()));
    true
}

impl<D: BlockDevice> EasyFileSystem<D> {
    /// The areas lie where the super block says, and on the disk.
    pub open spec fn laid_out(&self) -> bool {
        &&& self.cache.inv()
        &&& self.sb().fits(self.cache@)
        &&& self.matches(self.sb())
    }

    /// Whether the block is a data block in use that is not taken; if so, it is
    /// taken now.
    fn take(&mut self, taken: &mut Vec<bool>, b: u32) -> (r: bool)
        requires
            old(self).laid_out(),
            old(taken)@.len() == old(self).sb().data_area_blocks,
        ensures
            final(self).laid_out(),
            final(self).same(old(self)),
            final(self).untouched(old(self)),
            r == can_take(old(self).sb(), old(self).cache@, old(taken)@, b),
            final(taken)@ == if r {
                old(taken)@.update(b - old(self).sb().data_area(), true)
            } else {
                old(taken)@
            },
    {
        if b < self.data_area_start_block {
            return false;
        }
        let k: usize = (b - self.data_area_start_block) as usize;
        if k >= taken.len() || !self.data_bitmap.is_set(&mut self.cache, k) || taken[k] {
            return false;
        }
        taken.set(k, true);
        true
    }

    /// Whether the inode is a tree of data blocks in use that are not taken; if so,
    /// they are taken now.
    fn claim(&mut self, taken: &mut Vec<bool>, inode: &DiskInode) -> (r: bool)
        requires
            old(self).laid_out(),
            old(taken)@.len() == old(self).sb().data_area_blocks,
        ensures
            final(self).laid_out(),
            final(self).same(old(self)),
            final(self).untouched(old(self)),
            r == can_claim(old(self).sb(), old(self).cache@, old(taken)@, inode@),
            final(taken)@.len() == old(taken)@.len(),
            r ==> claimed(
                old(self).sb(),
                old(self).cache@,
                old(taken)@,
                final(taken)@,
                inode@,
                inode@.total(),
            ),
    {
        let ghost sb = self.sb();
        let ghost disk = self.cache@;
        let ghost t0 = taken@;
        let ghost d = inode@;
        if inode.size as usize > disk_inode::INDIRECT2_BOUND * BLOCK_SZ {
            assert(!d.in_range(disk));
            return false;
        }
        let total: usize = DiskInode::total_blocks(inode.size) as usize;
        let mut p: usize = 0;
        while p < total
            invariant
                p <= total,
                total == d.total(),
                total <= 157 + 129 * 128,
                d == inode@,
                self.laid_out(),
                self.same(old(self)),
                self.untouched(old(self)),
                sb == old(self).sb(),
                disk == old(self).cache@,
                t0 == old(taken)@,
                t0.len() == sb.data_area_blocks,
                claimed(sb, disk, t0, taken@, d, p as int),
                forall|q: int|
                    0 <= q < p ==> can_take(sb, disk, t0, #[trigger] d.slot(disk, q)),
                forall|q: int, s: int|
                    0 <= q < s < p ==> #[trigger] d.slot(disk, q) != #[trigger] d.slot(disk, s),
            decreases total - p,
        {
            proof {
                if p > 27 {
                    assert(can_take(sb, disk, t0, d.slot(disk, 27)));
                }
                if p > 156 {
                    assert(can_take(sb, disk, t0, d.slot(disk, 156)));
                    let a = (p - 157) / 129;
                    let h = 157 + 129 * a;
                    assert((h - 157) % 129 == 0 && (h - 157) / 129 == a);
                    if h < p {
                        assert(d.slot(disk, h) == disk_inode::entry(disk, d.indirect2, a));
                        assert(can_take(sb, disk, t0, d.slot(disk, h)));
                    }
                }
            }
            let b: u32 = inode.slot_at(p, &mut self.cache);
            let ghost t1 = taken@;
            if !self.take(taken, b) {
                proof {
                    assert(d.slot(disk, p as int) == b);
                    if sb.data_used(disk, b as int) && !t0[b - sb.data_area()] {
                        assert(t1[b - sb.data_area()]);
                        assert(among(disk, d, p as int, b as int));
                        let q = choose|q: int| 0 <= q < p && #[trigger] d.slot(disk, q) == b;
                        assert(d.slot(disk, q) == d.slot(disk, p as int));
                        assert(!d.distinct(disk));
                    }
                }
                return false;
            }
            proof {
                let y = b - sb.data_area();
                assert(!t1[y]);
                assert(!among(disk, d, p as int, sb.data_area() + y));
                assert forall|x: int| 0 <= x < t0.len() implies #[trigger] taken@[x] == (t0[x]
                    || among(disk, d, p + 1, sb.data_area() + x)) by {
                    assert(t1[x] == (t0[x] || among(disk, d, p as int, sb.data_area() + x)));
                    if among(disk, d, p as int, sb.data_area() + x) {
                        let q = choose|q: int|
                            0 <= q < p && #[trigger] d.slot(disk, q) == sb.data_area() + x;
                        assert(d.slot(disk, q) == sb.data_area() + x);
                    }
                    if among(disk, d, p + 1, sb.data_area() + x) && x != y {
                        let q = choose|q: int|
                            0 <= q < p + 1 && #[trigger] d.slot(disk, q) == sb.data_area() + x;
                        assert(q < p);
                    }
                    if x == y {
                        assert(d.slot(disk, p as int) == sb.data_area() + x);
                    }
                }
            }
            p += 1;
        }
        proof {
            assert forall|q: int| 0 <= q < d.total() implies (#[trigger] d.slot(disk, q))
                < disk.len() by {
                assert(can_take(sb, disk, t0, d.slot(disk, q)));
            }
        }
        true
    }

    /// Whether the inodes are what a file system asks of them.
    fn inodes_intact(&mut self, data_area_blocks: u32) -> (r: bool)
        requires
            old(self).laid_out(),
            data_area_blocks == old(self).sb().data_area_blocks,
        ensures
            final(self).laid_out(),
            final(self).same(old(self)),
            final(self).untouched(old(self)),
            r ==> inodes_upto(old(self).sb(), old(self).cache@, old(self).sb().inodes()),
            !r ==> !old(self).sb().holds(old(self).cache@),
    {
        let ghost sb = self.sb();
        let ghost disk = self.cache@;
        let mut taken: Vec<bool> = Vec::new();
        let mut k: u32 = 0;
        while k < data_area_blocks
            invariant
                k <= data_area_blocks,
                taken@.len() == k,
                forall|x: int| 0 <= x < k ==> !#[trigger] taken@[x],
            decreases data_area_blocks - k,
        {
            taken.push(false);
            k += 1;
        }
        let inodes: usize = self.inode_bitmap.maximum();
        let mut i: usize = 0;
        while i < inodes
            invariant
                i <= inodes,
                inodes == sb.inodes(),
                self.laid_out(),
                self.same(old(self)),
                self.untouched(old(self)),
                sb == old(self).sb(),
                disk == old(self).cache@,
                taken_upto(sb, disk, taken@, i as int),
                inodes_upto(sb, disk, i as int),
            decreases inodes - i,
        {
            proof {
                sb.lemma_places(disk);
                super::efs::lemma_inode_place(self.inode_start(), i as int);
                assert(sb.inode_block(i as int) < sb.data_bitmap());
            }
            let (block_id, offset): (u32, usize) = self.get_disk_inode_pos(i as u32);
            if self.inode_bitmap.is_set(&mut self.cache, i) {
                let inode: DiskInode = self.cache.read_record(block_id as usize, offset);
                let ghost t0 = taken@;
                assert(inode@ == sb.inode(disk, i as int));
                if !self.claim(&mut taken, &inode) {
                    proof {
                        lemma_not_claimed(sb, disk, t0, i as int);
                    }
                    return false;
                }
                proof {
                    lemma_claimed(sb, disk, t0, taken@, i as int);
                }
            } else {
                let b: Vec<u8> = self.cache.read_bytes(block_id as usize, offset, 128);
                assert(b@ == sb.inode_bytes(disk, i as int));
                if !all_zero(&b) {
                    return false;
                }
                assert(!sb.used(disk, i as int));
                assert forall|x: int| 0 <= x < taken@.len() implies #[trigger] taken@[x]
                    == has_owner(sb, disk, i + 1, sb.data_area() + x) by {
                    let y = sb.data_area() + x;
                    assert(taken@[x] == has_owner(sb, disk, i as int, y));
                    if has_owner(sb, disk, i as int, y) {
                        let j = choose|j: int|
                            0 <= j < i && sb.used(disk, j) && #[trigger] sb.owns(disk, j, y);
                        assert(sb.owns(disk, j, y));
                    }
                }
            }
            i += 1;
        }
        true
    }

    /// Whether the data blocks that are not in use are zero.
    fn free_intact(&mut self, data_area_blocks: u32) -> (r: bool)
        requires
            old(self).laid_out(),
            data_area_blocks == old(self).sb().data_area_blocks,
        ensures
            final(self).laid_out(),
            final(self).same(old(self)),
            final(self).untouched(old(self)),
            r == free_upto(old(self).sb(), old(self).cache@, data_area_blocks as int),
    {
        let ghost sb = self.sb();
        let ghost disk = self.cache@;
        let mut k: u32 = 0;
        while k < data_area_blocks
            invariant
                k <= data_area_blocks,
                data_area_blocks == sb.data_area_blocks,
                self.laid_out(),
                self.same(old(self)),
                self.untouched(old(self)),
                sb == old(self).sb(),
                disk == old(self).cache@,
                free_upto(sb, disk, k as int),
            decreases data_area_blocks - k,
        {
            if !self.data_bitmap.is_set(&mut self.cache, k as usize) {
                let b: usize = (self.data_area_start_block + k) as usize;
                proof {
                    self.cache.lemma_wf();
                    assert(disk[b as int].len() == BLOCK_SZ);
                }
                let v: Vec<u8> = self.cache.read_bytes(b, 0, BLOCK_SZ);
                assert(v@ =~= disk[b as int]);
                if !all_zero(&v) {
                    assert(!sb.data_used(disk, b as int));
                    return false;
                }
            }
            k += 1;
        }
        true
    }

    /// Whether the blocks make up a file system: the inodes in use are trees of data
    /// blocks in use, no block belongs to two of them, and what is free is filled
    /// with zeros.
    pub fn is_intact(&mut self) -> (r: bool)
        requires
            old(self).laid_out(),
            old(self).sb().valid(),
        ensures
            final(self).laid_out(),
            final(self).same(old(self)),
            final(self).untouched(old(self)),
            r == final(self).wf(),
    {
        let super_block: SuperBlock = self.cache.read_record(0, 0);
        let n: u32 = super_block.data_area_blocks;
        if !self.inodes_intact(n) {
            return false;
        }
        if !self.free_intact(n) {
            return false;
        }
        true
    }
}

} // verus!
