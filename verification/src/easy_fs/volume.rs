//! What a file system on disk means: which inodes are in use, which blocks
//! they own, and what their files hold.
use super::bitmap;
use super::block_cache;
use super::block_cache::DiskRecord;
use super::bytes;
use super::disk_inode;
use super::disk_inode::{DiskInode, InodeData};
use super::super_block::SuperBlock;
use super::BLOCK_SZ;
use vstd::prelude::*;

verus! {

/// A file or directory. The blocks of a file hold whole blocks of bytes, of
/// which the first `size` are the content.
pub struct FileData {
    pub dir: bool,
    pub nlink: u32,
    pub size: int,
    pub raw: Seq<u8>,
}

impl FileData {
    /// The content.
    pub open spec fn content(self) -> Seq<u8> {
        self.raw.subrange(0, self.size)
    }

    /// The blocks are as many as the content needs.
    pub open spec fn wf(self) -> bool {
        &&& 0 <= self.size
        &&& disk_inode::blocks_for(self.size) <= disk_inode::INDIRECT2_BOUND
        &&& self.raw.len() == disk_inode::blocks_for(self.size) * BLOCK_SZ
    }

    /// An empty file or directory.
    pub open spec fn empty(dir: bool, nlink: u32) -> FileData {
        FileData { dir, nlink, size: 0, raw: Seq::empty() }
    }

    /// The file grown to `new_size`; a new block comes with zeros in it. A
    /// smaller size changes nothing.
    pub open spec fn grown(self, new_size: int) -> FileData {
        if new_size < self.size {
            self
        } else {
            FileData {
                size: new_size,
                raw: Seq::new(
                    (disk_inode::blocks_for(new_size) * BLOCK_SZ) as nat,
                    |i: int|
                        if i < self.raw.len() {
                            self.raw[i]
                        } else {
                            0
                        },
                ),
                ..self
            }
        }
    }

    /// The file with `b` written over its bytes from `offset` on.
    pub open spec fn written(self, offset: int, b: Seq<u8>) -> FileData {
        FileData { raw: bytes::splice(self.raw, offset, b), ..self }
    }

    /// The file with the `n` bytes from `offset` on taken out.
    pub open spec fn removed(self, offset: int, n: int) -> FileData {
        FileData {
            size: self.size - n,
            raw: bytes::splice(
                self.raw,
                offset,
                self.content().subrange(offset + n, self.size),
            ).subrange(0, disk_inode::blocks_for(self.size - n) * BLOCK_SZ),
            ..self
        }
    }

    /// The file with nothing in it.
    pub open spec fn cleared(self) -> FileData {
        FileData { size: 0, raw: Seq::empty(), ..self }
    }

    /// The file with another number of links.
    pub open spec fn linked(self, nlink: u32) -> FileData {
        FileData { nlink, ..self }
    }
}

/// How many of the first `n` bits of the bitmap at `start` are clear.
pub open spec fn clear_bits(disk: Seq<Seq<u8>>, start: int, n: int) -> int
    decreases n,
{
    if n <= 0 {
        0
    } else {
        clear_bits(disk, start, n - 1) + (if bitmap::bit(disk, start, n - 1) {
            0int
        } else {
            1
        })
    }
}

/// The count depends on the bits alone.
pub proof fn lemma_clear_bits_same(d1: Seq<Seq<u8>>, d2: Seq<Seq<u8>>, start: int, n: int)
    requires
        forall|j: int|
            0 <= j < n ==> #[trigger] bitmap::bit(d2, start, j) == bitmap::bit(d1, start, j),
    ensures
        clear_bits(d2, start, n) == clear_bits(d1, start, n),
    decreases n,
{
    if n > 0 {
        lemma_clear_bits_same(d1, d2, start, n - 1);
    }
}

/// Setting a clear bit takes one off the count.
pub proof fn lemma_clear_bits_set(d1: Seq<Seq<u8>>, d2: Seq<Seq<u8>>, start: int, n: int, k: int)
    requires
        0 <= k < n,
        !bitmap::bit(d1, start, k),
        bitmap::bit(d2, start, k),
        forall|j: int|
            0 <= j < n && j != k ==> #[trigger] bitmap::bit(d2, start, j) == bitmap::bit(
                d1,
                start,
                j,
            ),
    ensures
        clear_bits(d2, start, n) == clear_bits(d1, start, n) - 1,
    decreases n,
{
    if k == n - 1 {
        lemma_clear_bits_same(d1, d2, start, n - 1);
    } else {
        lemma_clear_bits_set(d1, d2, start, n - 1, k);
    }
}

/// Where the count is positive, a bit is clear.
pub proof fn lemma_clear_bits_some(disk: Seq<Seq<u8>>, start: int, n: int) -> (k: int)
    requires
        clear_bits(disk, start, n) > 0,
    ensures
        0 <= k < n,
        !bitmap::bit(disk, start, k),
    decreases n,
{
    if !bitmap::bit(disk, start, n - 1) {
        n - 1
    } else {
        lemma_clear_bits_some(disk, start, n - 1)
    }
}

/// A count is never negative.
pub proof fn lemma_clear_bits_bound(disk: Seq<Seq<u8>>, start: int, n: int)
    ensures
        0 <= clear_bits(disk, start, n),
        n >= 0 ==> clear_bits(disk, start, n) <= n,
    decreases n,
{
    if n > 0 {
        lemma_clear_bits_bound(disk, start, n - 1);
    }
}

impl SuperBlock {
    /// The first block of the inode area.
    pub open spec fn inode_area(&self) -> int {
        1 + self.inode_bitmap_blocks
    }

    /// The first block of the data bitmap.
    pub open spec fn data_bitmap(&self) -> int {
        1 + self.inode_bitmap_blocks + self.inode_area_blocks
    }

    /// The first block of the data area.
    pub open spec fn data_area(&self) -> int {
        1 + self.inode_bitmap_blocks + self.inode_area_blocks + self.data_bitmap_blocks
    }

    /// The number of inodes.
    pub open spec fn inodes(&self) -> int {
        self.inode_bitmap_blocks * (bitmap::BLOCK_BITS as int)
    }

    /// The areas lie on the disk, and the bitmaps cover them.
    pub open spec fn fits(&self, disk: Seq<Seq<u8>>) -> bool {
        &&& block_cache::disk_wf(disk)
        &&& disk.len() <= u32::MAX
        &&& self.data_area() + self.data_area_blocks <= disk.len()
        &&& self.inodes() <= 4 * self.inode_area_blocks
        &&& self.inodes() <= u32::MAX
        &&& self.data_area_blocks <= self.data_bitmap_blocks * (bitmap::BLOCK_BITS as int)
        &&& self.data_bitmap_blocks * (bitmap::BLOCK_BITS as int) <= usize::MAX
    }

    /// Whether the areas lie among the first `blocks` blocks, and the bitmaps
    /// cover them.
    pub fn is_laid_out(&self, blocks: u32) -> (r: bool)
        ensures
            forall|disk: Seq<Seq<u8>>|
                block_cache::disk_wf(disk) && disk.len() == blocks ==> r == #[trigger] self.fits(disk),
            r ==> forall|disk: Seq<Seq<u8>>|
                block_cache::disk_wf(disk) && blocks <= disk.len() <= u32::MAX
                    ==> #[trigger] self.fits(disk),
            r ==> self.data_area() <= u32::MAX,
    {
        let each: u64 = bitmap::BLOCK_BITS as u64;
        assert(each == 4096);
        let inode_bits: u64 = self.inode_bitmap_blocks as u64 * each;
        let data_bits: u64 = self.data_bitmap_blocks as u64 * each;
        let end: u64 = 1 + self.inode_bitmap_blocks as u64 + self.inode_area_blocks as u64
            + self.data_bitmap_blocks as u64 + self.data_area_blocks as u64;
        end <= blocks as u64 && inode_bits <= 4 * self.inode_area_blocks as u64 && inode_bits
            <= u32::MAX as u64 && self.data_area_blocks as u64 <= data_bits && data_bits
            <= usize::MAX as u64
    }

    /// The block that holds inode `i`.
    pub open spec fn inode_block(&self, i: int) -> int {
        self.inode_area() + i / 4
    }

    /// The bytes of inode `i`.
    pub open spec fn inode_bytes(&self, disk: Seq<Seq<u8>>, i: int) -> Seq<u8> {
        disk[self.inode_block(i)].subrange(i % 4 * 128, i % 4 * 128 + 128)
    }

    /// Inode `i`.
    pub open spec fn inode(&self, disk: Seq<Seq<u8>>, i: int) -> InodeData {
        DiskInode::parse(self.inode_bytes(disk, i))
    }

    /// Whether inode `i` is in use.
    pub open spec fn used(&self, disk: Seq<Seq<u8>>, i: int) -> bool {
        0 <= i < self.inodes() && bitmap::bit(disk, 1, i)
    }

    /// Whether block `b` of the data area is in use.
    pub open spec fn data_used(&self, disk: Seq<Seq<u8>>, b: int) -> bool {
        &&& self.data_area() <= b < self.data_area() + self.data_area_blocks
        &&& bitmap::bit(disk, self.data_bitmap(), b - self.data_area())
    }

    /// Whether block `b` belongs to inode `i`.
    pub open spec fn owns(&self, disk: Seq<Seq<u8>>, i: int, b: int) -> bool {
        exists|p: int|
            0 <= p < self.inode(disk, i).total() && #[trigger] self.inode(disk, i).slot(disk, p)
                == b
    }

    /// The blocks of inode `i`, in the order in which they were allocated.
    pub open spec fn blocks_of(&self, disk: Seq<Seq<u8>>, i: int) -> Seq<u32> {
        self.inode(disk, i).blocks(disk)
    }

    /// Both disks have the same data blocks in use. Inodes have the same blocks
    /// on both; inode `i` keeps those that its size takes.
    pub open spec fn same_blocks(&self, d0: Seq<Seq<u8>>, d1: Seq<Seq<u8>>, i: int) -> bool {
        &&& forall|b: int| #[trigger] self.data_used(d1, b) == self.data_used(d0, b)
        &&& forall|j: int|
            self.used(d0, j) && j != i ==> #[trigger] self.blocks_of(d1, j) == self.blocks_of(d0, j)
        &&& self.blocks_of(d1, i) == self.blocks_of(d0, i).subrange(0, self.inode(d1, i).total())
    }

    /// What inode `i` holds.
    pub open spec fn file(&self, disk: Seq<Seq<u8>>, i: int) -> FileData {
        let inode = self.inode(disk, i);
        FileData {
            dir: inode.dir,
            nlink: inode.nlink,
            size: inode.size as int,
            raw: inode.raw(disk),
        }
    }

    /// All files and directories, by inode number.
    pub open spec fn files(&self, disk: Seq<Seq<u8>>) -> Map<int, FileData> {
        Map::new(|i: int| self.used(disk, i), |i: int| self.file(disk, i))
    }

    /// How many data blocks are free.
    pub open spec fn free_blocks(&self, disk: Seq<Seq<u8>>) -> int {
        clear_bits(disk, self.data_bitmap(), self.data_area_blocks as int)
    }

    /// How many inodes are free.
    pub open spec fn free_inodes(&self, disk: Seq<Seq<u8>>) -> int {
        clear_bits(disk, 1, self.inodes())
    }

    /// The disk holds this file system: the super block says so, the inodes in
    /// use are trees of data blocks in use, no block belongs to two of them,
    /// and what is free is filled with zeros.
    pub open spec fn holds(&self, disk: Seq<Seq<u8>>) -> bool {
        &&& self.valid()
        &&& self.fits(disk)
        &&& SuperBlock::parse(disk[0].subrange(0, 24)) == *self
        &&& forall|i: int| #[trigger]
            self.used(disk, i) ==> self.inode(disk, i).wf(disk)
        &&& forall|i: int, b: int|
            self.used(disk, i) && #[trigger] self.owns(disk, i, b) ==> self.data_used(disk, b)
        &&& forall|i: int, j: int, b: int|
            self.used(disk, i) && self.used(disk, j) && #[trigger] self.owns(disk, i, b)
                && #[trigger] self.owns(disk, j, b) ==> i == j
        &&& forall|b: int|
            self.data_area() <= b < self.data_area() + self.data_area_blocks && !self.data_used(
                disk,
                b,
            ) ==> #[trigger] disk[b] == bytes::zeros(512)
        &&& forall|i: int|
            0 <= i < self.inodes() && !self.used(disk, i) ==> #[trigger] self.inode_bytes(disk, i)
                == bytes::zeros(128)
    }

    /// The inodes in use are the same on both disks, and own the same blocks.
    #[verifier::opaque]
    pub open spec fn keeps(&self, d1: Seq<Seq<u8>>, d2: Seq<Seq<u8>>) -> bool {
        &&& d2.len() == d1.len()
        &&& forall|j: int| #[trigger] self.used(d2, j) == self.used(d1, j)
        &&& forall|j: int|
            0 <= j < self.inodes() ==> #[trigger] self.inode_bytes(d2, j) == self.inode_bytes(
                d1,
                j,
            )
        &&& forall|j: int, b: int|
            self.used(d1, j) ==> #[trigger] self.owns(d2, j, b) == self.owns(d1, j, b)
        &&& forall|j: int, b: int|
            self.used(d1, j) && #[trigger] self.owns(d1, j, b) ==> d2[b] == d1[b]
    }

    /// Two steps that keep the inodes make one.
    pub proof fn lemma_keeps_trans(&self, d0: Seq<Seq<u8>>, d1: Seq<Seq<u8>>, d2: Seq<Seq<u8>>)
        requires
            self.keeps(d0, d1),
            self.keeps(d1, d2),
        ensures
            self.keeps(d0, d2),
    {
        reveal(SuperBlock::keeps);
        assert forall|j: int| #[trigger] self.used(d2, j) == self.used(d0, j) by {
            assert(self.used(d1, j) == self.used(d0, j));
        }
        assert forall|j: int| 0 <= j < self.inodes() implies #[trigger] self.inode_bytes(d2, j)
            == self.inode_bytes(d0, j) by {
            assert(self.inode_bytes(d1, j) == self.inode_bytes(d0, j));
        }
        assert forall|j: int, b: int| self.used(d0, j) implies #[trigger] self.owns(d2, j, b)
            == self.owns(d0, j, b) by {
            assert(self.used(d1, j) == self.used(d0, j));
            assert(self.owns(d1, j, b) == self.owns(d0, j, b));
        }
        assert forall|j: int, b: int| self.used(d0, j) && #[trigger] self.owns(d0, j, b) implies d2[
        b] == d0[b] by {
            assert(self.used(d1, j) == self.used(d0, j));
            assert(self.owns(d1, j, b) == self.owns(d0, j, b));
            assert(d1[b] == d0[b]);
        }
    }

    /// A disk that agrees on an inode and the blocks that it owns holds the
    /// same file there.
    pub proof fn lemma_keep(&self, d1: Seq<Seq<u8>>, d2: Seq<Seq<u8>>, i: int)
        requires
            d1.len() == d2.len(),
            self.inode_bytes(d2, i) == self.inode_bytes(d1, i),
            self.inode(d1, i).wf(d1),
            forall|b: int| #[trigger] self.owns(d1, i, b) ==> d2[b] == d1[b],
        ensures
            self.inode(d2, i) == self.inode(d1, i),
            self.inode(d2, i).wf(d2),
            forall|b: int| #[trigger] self.owns(d2, i, b) == self.owns(d1, i, b),
            self.blocks_of(d2, i) == self.blocks_of(d1, i),
            self.file(d2, i) == self.file(d1, i),
    {
        let inode = self.inode(d1, i);
        assert forall|p: int| 0 <= p < inode.total() && disk_inode::index_pos(p) implies d2[(
        #[trigger] inode.slot(d1, p)) as int] == d1[inode.slot(d1, p) as int] by {
            assert(self.owns(d1, i, inode.slot(d1, p) as int));
        }
        inode.lemma_same_index(d1, d2);
        assert forall|b: int| #[trigger] self.owns(d2, i, b) == self.owns(d1, i, b) by {
            if self.owns(d2, i, b) {
                let p = choose|p: int|
                    0 <= p < self.inode(d2, i).total() && #[trigger] self.inode(d2, i).slot(d2, p)
                        == b;
                assert(inode.slot(d1, p) == b);
            }
            if self.owns(d1, i, b) {
                let p = choose|p: int|
                    0 <= p < self.inode(d1, i).total() && #[trigger] self.inode(d1, i).slot(d1, p)
                        == b;
                assert(self.inode(d2, i).slot(d2, p) == b);
            }
        }
        assert(inode.raw(d2) =~= inode.raw(d1)) by {
            assert forall|k: int| 0 <= k < inode.raw(d1).len() implies inode.raw(d2)[k]
                == inode.raw(d1)[k] by {
                let n = k / 512;
                inode.lemma_data_pos(d1, n);
                assert(0 <= disk_inode::data_pos(n) < disk_inode::total_for(inode.nblocks()));
                assert(inode.block(d2, n) == inode.block(d1, n));
                assert(self.owns(d1, i, inode.block(d1, n) as int));
            }
        }
    }

    /// The blocks of the areas are apart, and each inode has its own place.
    pub proof fn lemma_places(&self, disk: Seq<Seq<u8>>)
        requires
            self.fits(disk),
        ensures
            forall|i: int|
                0 <= i < self.inodes() ==> self.inode_area() <= #[trigger] self.inode_block(i)
                    < self.data_bitmap(),
            forall|k: int|
                0 <= k < self.inodes() ==> 1 <= 1 + #[trigger] (k / (bitmap::BLOCK_BITS as int))
                    < self.inode_area(),
    {
        assert forall|k: int| 0 <= k < self.inodes() implies 1 <= 1 + #[trigger] (k / (
        bitmap::BLOCK_BITS as int)) < self.inode_area() by {
            assert(k < self.inode_bitmap_blocks * 4096);
        }
    }

    /// One inode changes, and everything else stays.
    pub proof fn lemma_update(&self, d1: Seq<Seq<u8>>, d2: Seq<Seq<u8>>, i: int)
        requires
            self.holds(d1),
            self.used(d1, i),
            d2.len() == d1.len(),
            block_cache::disk_wf(d2),
            forall|b: int|
                0 <= b < self.inode_area() || self.data_bitmap() <= b < self.data_area()
                    ==> #[trigger] d2[b] == d1[b],
            forall|j: int|
                0 <= j < self.inodes() && j != i ==> #[trigger] self.inode_bytes(d2, j)
                    == self.inode_bytes(d1, j),
            forall|b: int|
                self.data_area() <= b < self.data_area() + self.data_area_blocks
                    && !self.data_used(d1, b) ==> #[trigger] d2[b] == d1[b],
            forall|j: int, b: int|
                self.used(d1, j) && j != i && #[trigger] self.owns(d1, j, b) ==> d2[b] == d1[b],
            self.inode(d2, i).wf(d2),
            forall|b: int| #[trigger]
                self.owns(d2, i, b) ==> self.data_used(d1, b) && forall|j: int|
                    self.used(d1, j) && j != i ==> !#[trigger] self.owns(d1, j, b),
        ensures
            self.holds(d2),
            self.files(d2) == self.files(d1).insert(i, self.file(d2, i)),
            self.free_blocks(d2) == self.free_blocks(d1),
            self.free_inodes(d2) == self.free_inodes(d1),
            forall|b: int| self.data_used(d2, b) == self.data_used(d1, b),
    {
        self.lemma_places(d1);
        assert forall|k: int| 0 <= k < self.inodes() implies #[trigger] bitmap::bit(d2, 1, k)
            == bitmap::bit(d1, 1, k) by {
            assert(d2[1 + k / 4096] == d1[1 + k / 4096]);
        }
        assert forall|k: int| 0 <= k < self.data_area_blocks implies #[trigger] bitmap::bit(
            d2,
            self.data_bitmap(),
            k,
        ) == bitmap::bit(d1, self.data_bitmap(), k) by {
            assert(k / 4096 < self.data_bitmap_blocks);
            assert(d2[self.data_bitmap() + k / 4096] == d1[self.data_bitmap() + k / 4096]);
        }
        assert forall|j: int| self.used(d2, j) == #[trigger] self.used(d1, j) by {}
        assert forall|b: int| self.data_used(d2, b) == #[trigger] self.data_used(d1, b) by {}
        lemma_clear_bits_same(d1, d2, 1, self.inodes());
        lemma_clear_bits_same(d1, d2, self.data_bitmap(), self.data_area_blocks as int);
        assert forall|j: int| self.used(d1, j) && j != i implies {
            &&& #[trigger] self.inode(d2, j).wf(d2)
            &&& self.file(d2, j) == self.file(d1, j)
            &&& forall|b: int| #[trigger] self.owns(d2, j, b) == self.owns(d1, j, b)
        } by {
            self.lemma_keep(d1, d2, j);
        }
        assert(d2[0] == d1[0]);
        assert forall|j: int, k: int, b: int|
            self.used(d2, j) && self.used(d2, k) && #[trigger] self.owns(d2, j, b)
                && #[trigger] self.owns(d2, k, b) implies j == k by {
            if j != i {
                assert(self.inode(d2, j).wf(d2));
            }
            if k != i {
                assert(self.inode(d2, k).wf(d2));
            }
        }
        assert forall|j: int, b: int|
            self.used(d2, j) && #[trigger] self.owns(d2, j, b) implies self.data_used(d2, b) by {
            if j != i {
                assert(self.inode(d2, j).wf(d2));
                assert(self.owns(d1, j, b));
            }
        }
        assert forall|j: int| #[trigger] self.used(d2, j) implies self.inode(d2, j).wf(d2) by {
            if j != i {
                assert(self.inode(d2, j).wf(d2));
            }
        }
        let f2 = self.files(d2);
        let f1 = self.files(d1).insert(i, self.file(d2, i));
        assert forall|j: int| #[trigger] f2.dom().contains(j) == f1.dom().contains(j) by {}
        assert forall|j: int| f2.dom().contains(j) implies #[trigger] f2[j] == f1[j] by {
            if j != i {
                assert(self.inode(d2, j).wf(d2));
            }
        }
        assert(f2 =~= f1);
    }

    /// Inodes in use that keep their bytes and their blocks keep their files.
    proof fn lemma_keep_all(&self, d1: Seq<Seq<u8>>, d2: Seq<Seq<u8>>)
        requires
            self.holds(d1),
            d2.len() == d1.len(),
            forall|j: int| #[trigger]
                self.used(d1, j) && self.used(d2, j) ==> self.inode_bytes(d2, j)
                    == self.inode_bytes(d1, j),
            forall|j: int, b: int|
                self.used(d1, j) && self.used(d2, j) && #[trigger] self.owns(d1, j, b) ==> d2[b]
                    == d1[b],
        ensures
            forall|j: int| #[trigger]
                self.used(d1, j) && self.used(d2, j) ==> {
                    &&& self.inode(d2, j).wf(d2)
                    &&& self.file(d2, j) == self.file(d1, j)
                },
            forall|j: int, b: int|
                self.used(d1, j) && self.used(d2, j) ==> #[trigger] self.owns(d2, j, b)
                    == self.owns(d1, j, b),
    {
        assert forall|j: int| #[trigger] self.used(d1, j) && self.used(d2, j) implies {
            &&& self.inode(d2, j).wf(d2)
            &&& self.file(d2, j) == self.file(d1, j)
        } by {
            self.lemma_keep(d1, d2, j);
        }
        assert forall|j: int, b: int|
            self.used(d1, j) && self.used(d2, j) implies #[trigger] self.owns(d2, j, b)
            == self.owns(d1, j, b) by {
            self.lemma_keep(d1, d2, j);
        }
    }

    /// An inode of zeros is an empty file that nothing links to.
    proof fn lemma_zero_inode(&self, disk: Seq<Seq<u8>>, i: int)
        requires
            self.inode_bytes(disk, i) == bytes::zeros(128),
        ensures
            self.inode(disk, i).wf(disk),
            self.file(disk, i) == FileData::empty(false, 0),
            forall|b: int| !#[trigger] self.owns(disk, i, b),
    {
        let s = bytes::zeros(128);
        bytes::lemma_zero_word(s, 0);
        bytes::lemma_zero_word(s, 4);
        let inode = self.inode(disk, i);
        assert(inode.size == 0 && inode.nlink == 0);
        assert(inode.raw(disk) =~= Seq::<u8>::empty());
    }

    /// Marking a free inode as used adds an empty file.
    pub proof fn lemma_take_inode(&self, d1: Seq<Seq<u8>>, k: int)
        requires
            self.holds(d1),
            0 <= k < self.inodes(),
            !bitmap::bit(d1, 1, k),
        ensures
            ({
                let d2 = bitmap::with_bit(d1, 1, k, true);
                &&& self.holds(d2)
                &&& self.files(d2) == self.files(d1).insert(k, FileData::empty(false, 0))
                &&& self.free_inodes(d2) == self.free_inodes(d1) - 1
                &&& self.free_blocks(d2) == self.free_blocks(d1)
            }),
    {
        let d2 = bitmap::with_bit(d1, 1, k, true);
        self.lemma_places(d1);
        assert(1 + k / 4096 < self.inode_area());
        bitmap::lemma_with_bit(d1, 1, k, true);
        assert forall|j: int| #[trigger] self.used(d2, j) == (self.used(d1, j) || j == k) by {}
        assert forall|b: int| #[trigger] self.data_used(d2, b) == self.data_used(d1, b) by {
            if self.data_area() <= b < self.data_area() + self.data_area_blocks {
                assert((b - self.data_area()) / 4096 < self.data_bitmap_blocks);
            }
        }
        assert forall|b: int| self.inode_area() <= b < d1.len() implies #[trigger] d2[b]
            == d1[b] by {}
        assert forall|j: int| 0 <= j < self.inodes() implies #[trigger] self.inode_bytes(d2, j)
            == self.inode_bytes(d1, j) by {
            assert(d2[self.inode_block(j)] == d1[self.inode_block(j)]);
        }
        assert forall|j: int, b: int|
            self.used(d1, j) && self.used(d2, j) && #[trigger] self.owns(d1, j, b) implies d2[b]
            == d1[b] by {
            assert(self.data_used(d1, b));
        }
        self.lemma_keep_all(d1, d2);
        assert(self.inode_bytes(d2, k) == bytes::zeros(128));
        self.lemma_zero_inode(d2, k);
        lemma_clear_bits_set(d1, d2, 1, self.inodes(), k);
        assert forall|n: int| 0 <= n < self.data_area_blocks implies #[trigger] bitmap::bit(
            d2,
            self.data_bitmap(),
            n,
        ) == bitmap::bit(d1, self.data_bitmap(), n) by {
            assert(n / 4096 < self.data_bitmap_blocks);
        }
        lemma_clear_bits_same(d1, d2, self.data_bitmap(), self.data_area_blocks as int);
        assert(self.files(d2) =~= self.files(d1).insert(k, FileData::empty(false, 0)));
    }

    /// Zeroing an inode and marking it as free takes its file away.
    pub proof fn lemma_give_inode(&self, d1: Seq<Seq<u8>>, d2: Seq<Seq<u8>>, i: int)
        requires
            self.holds(d1),
            self.used(d1, i),
            ({
                let b = self.inode_block(i);
                d2 == bitmap::with_bit(
                    d1.update(b, bytes::splice(d1[b], i % 4 * 128, bytes::zeros(128))),
                    1,
                    i,
                    false,
                )
            }),
        ensures
            self.holds(d2),
            self.files(d2) == self.files(d1).remove(i),
            self.free_inodes(d2) == self.free_inodes(d1) + 1,
            self.free_blocks(d2) == self.free_blocks(d1),
            forall|b: int| #[trigger] self.data_used(d2, b) == self.data_used(d1, b),
    {
        let b0 = self.inode_block(i);
        let dm = d1.update(b0, bytes::splice(d1[b0], i % 4 * 128, bytes::zeros(128)));
        self.lemma_places(d1);
        assert(self.inode_area() <= b0 < self.data_bitmap());
        assert(1 + i / 4096 < self.inode_area());
        bitmap::lemma_with_bit(dm, 1, i, false);
        assert forall|k: int| 0 <= k < self.inodes() implies #[trigger] bitmap::bit(dm, 1, k)
            == bitmap::bit(d1, 1, k) by {
            assert(dm[1 + k / 4096] == d1[1 + k / 4096]);
        }
        assert forall|k: int| 0 <= k < self.inodes() && k != i implies #[trigger] bitmap::bit(
            d2,
            1,
            k,
        ) == bitmap::bit(d1, 1, k) by {
            assert(1 + k / 4096 < self.inode_area());
            assert(bitmap::bit(dm, 1, k) == bitmap::bit(d1, 1, k));
        }
        assert forall|j: int| #[trigger] self.used(d2, j) == (self.used(d1, j) && j != i) by {}
        assert forall|n: int| 0 <= n < self.data_area_blocks implies #[trigger] bitmap::bit(
            d2,
            self.data_bitmap(),
            n,
        ) == bitmap::bit(d1, self.data_bitmap(), n) by {
            assert(n / 4096 < self.data_bitmap_blocks);
        }
        assert forall|b: int| #[trigger] self.data_used(d2, b) == self.data_used(d1, b) by {}
        assert forall|j: int| 0 <= j < self.inodes() && j != i implies #[trigger] self.inode_bytes(
            d2,
            j,
        ) == self.inode_bytes(d1, j) by {
            assert(d2[self.inode_block(j)] == dm[self.inode_block(j)]);
            assert(self.inode_bytes(d2, j) =~= self.inode_bytes(d1, j));
        }
        assert(d2[b0] == dm[b0]);
        assert(self.inode_bytes(d2, i) =~= bytes::zeros(128));
        assert forall|j: int, b: int|
            self.used(d1, j) && self.used(d2, j) && #[trigger] self.owns(d1, j, b) implies d2[b]
            == d1[b] by {
            assert(self.data_used(d1, b));
        }
        self.lemma_keep_all(d1, d2);
        lemma_clear_bits_set(d2, d1, 1, self.inodes(), i);
        lemma_clear_bits_same(d1, d2, self.data_bitmap(), self.data_area_blocks as int);
        assert(self.files(d2) =~= self.files(d1).remove(i));
    }

    /// Marking an inode as used changes no block of another.
    pub proof fn lemma_take_inode_blocks(&self, d1: Seq<Seq<u8>>, k: int)
        requires
            self.holds(d1),
            0 <= k < self.inodes(),
        ensures
            ({
                let d2 = bitmap::with_bit(d1, 1, k, true);
                &&& forall|b: int| #[trigger] self.data_used(d2, b) == self.data_used(d1, b)
                &&& forall|j: int|
                    self.used(d1, j) ==> #[trigger] self.blocks_of(d2, j) == self.blocks_of(d1, j)
            }),
    {
        let d2 = bitmap::with_bit(d1, 1, k, true);
        self.lemma_places(d1);
        assert(1 + k / 4096 < self.inode_area());
        bitmap::lemma_with_bit(d1, 1, k, true);
        assert forall|b: int| self.inode_area() <= b < d1.len() implies #[trigger] d2[b]
            == d1[b] by {}
        assert forall|b: int| #[trigger] self.data_used(d2, b) == self.data_used(d1, b) by {
            if self.data_area() <= b < self.data_area() + self.data_area_blocks {
                assert((b - self.data_area()) / 4096 < self.data_bitmap_blocks);
            }
        }
        assert forall|j: int| self.used(d1, j) implies #[trigger] self.blocks_of(d2, j)
            == self.blocks_of(d1, j) by {
            assert(d2[self.inode_block(j)] == d1[self.inode_block(j)]);
            assert forall|b: int| #[trigger] self.owns(d1, j, b) implies d2[b] == d1[b] by {
                assert(self.data_used(d1, b));
            }
            self.lemma_keep(d1, d2, j);
        }
    }

    /// Marking a free data block as used changes no file; the block holds zeros
    /// and belongs to nobody.
    pub proof fn lemma_take_data(&self, d1: Seq<Seq<u8>>, k: int)
        requires
            self.holds(d1),
            0 <= k < self.data_area_blocks,
            !bitmap::bit(d1, self.data_bitmap(), k),
        ensures
            ({
                let d2 = bitmap::with_bit(d1, self.data_bitmap(), k, true);
                &&& self.holds(d2)
                &&& self.files(d2) == self.files(d1)
                &&& self.free_blocks(d2) == self.free_blocks(d1) - 1
                &&& self.free_inodes(d2) == self.free_inodes(d1)
                &&& forall|b: int| #[trigger]
                    self.data_used(d2, b) == (self.data_used(d1, b) || b == self.data_area() + k)
                &&& forall|b: int|
                    0 <= b < self.data_bitmap() || self.data_area() <= b < d1.len()
                        ==> #[trigger] d2[b] == d1[b]
                &&& d2[self.data_area() + k] == bytes::zeros(512)
                &&& forall|j: int| #[trigger]
                    self.used(d1, j) ==> !self.owns(d1, j, self.data_area() + k)
                &&& self.keeps(d1, d2)
            }),
    {
        let d2 = bitmap::with_bit(d1, self.data_bitmap(), k, true);
        reveal(SuperBlock::keeps);
        let new = self.data_area() + k;
        self.lemma_places(d1);
        assert(k / 4096 < self.data_bitmap_blocks);
        bitmap::lemma_with_bit(d1, self.data_bitmap(), k, true);
        assert forall|n: int| 0 <= n < self.inodes() implies #[trigger] bitmap::bit(d2, 1, n)
            == bitmap::bit(d1, 1, n) by {
            assert(1 + n / 4096 < self.inode_area());
        }
        assert forall|n: int| 0 <= n < self.data_area_blocks && n != k implies #[trigger] bitmap::bit(
            d2,
            self.data_bitmap(),
            n,
        ) == bitmap::bit(d1, self.data_bitmap(), n) by {
            assert(n / 4096 < self.data_bitmap_blocks);
        }
        assert forall|j: int| #[trigger] self.used(d2, j) == self.used(d1, j) by {}
        assert forall|b: int| #[trigger] self.data_used(d2, b) == (self.data_used(d1, b) || b
            == new) by {}
        assert forall|j: int| 0 <= j < self.inodes() implies #[trigger] self.inode_bytes(d2, j)
            == self.inode_bytes(d1, j) by {
            assert(d2[self.inode_block(j)] == d1[self.inode_block(j)]);
        }
        assert forall|j: int, b: int|
            self.used(d1, j) && self.used(d2, j) && #[trigger] self.owns(d1, j, b) implies d2[b]
            == d1[b] by {
            assert(self.data_used(d1, b));
        }
        self.lemma_keep_all(d1, d2);
        assert(!self.data_used(d1, new));
        assert(d1[new] == bytes::zeros(512));
        lemma_clear_bits_set(d1, d2, self.data_bitmap(), self.data_area_blocks as int, k);
        lemma_clear_bits_same(d1, d2, 1, self.inodes());
        assert(self.files(d2) =~= self.files(d1));
    }

    /// Zeroing a data block that belongs to nobody and marking it as free
    /// changes no file.
    pub proof fn lemma_give_data(&self, d1: Seq<Seq<u8>>, b0: int)
        requires
            self.holds(d1),
            self.data_used(d1, b0),
            forall|j: int| #[trigger] self.used(d1, j) ==> !self.owns(d1, j, b0),
        ensures
            ({
                let d2 = bitmap::with_bit(
                    d1.update(b0, bytes::zeros(512)),
                    self.data_bitmap(),
                    b0 - self.data_area(),
                    false,
                );
                &&& self.holds(d2)
                &&& self.files(d2) == self.files(d1)
                &&& self.free_blocks(d2) == self.free_blocks(d1) + 1
                &&& self.free_inodes(d2) == self.free_inodes(d1)
                &&& forall|b: int| #[trigger]
                    self.data_used(d2, b) == (self.data_used(d1, b) && b != b0)
                &&& self.keeps(d1, d2)
            }),
    {
        let k = b0 - self.data_area();
        reveal(SuperBlock::keeps);
        let dm = d1.update(b0, bytes::zeros(512));
        let d2 = bitmap::with_bit(dm, self.data_bitmap(), k, false);
        self.lemma_places(d1);
        assert(k / 4096 < self.data_bitmap_blocks);
        bitmap::lemma_with_bit(dm, self.data_bitmap(), k, false);
        assert forall|n: int| 0 <= n < self.inodes() implies #[trigger] bitmap::bit(d2, 1, n)
            == bitmap::bit(d1, 1, n) by {
            assert(1 + n / 4096 < self.inode_area());
        }
        assert forall|n: int| 0 <= n < self.data_area_blocks implies #[trigger] bitmap::bit(
            dm,
            self.data_bitmap(),
            n,
        ) == bitmap::bit(d1, self.data_bitmap(), n) by {
            assert(n / 4096 < self.data_bitmap_blocks);
        }
        assert forall|n: int| 0 <= n < self.data_area_blocks && n != k implies #[trigger] bitmap::bit(
            d2,
            self.data_bitmap(),
            n,
        ) == bitmap::bit(d1, self.data_bitmap(), n) by {
            assert(n / 4096 < self.data_bitmap_blocks);
            assert(bitmap::bit(dm, self.data_bitmap(), n) == bitmap::bit(
                d1,
                self.data_bitmap(),
                n,
            ));
        }
        assert forall|j: int| #[trigger] self.used(d2, j) == self.used(d1, j) by {}
        assert forall|b: int| #[trigger] self.data_used(d2, b) == (self.data_used(d1, b) && b
            != b0) by {}
        assert forall|j: int| 0 <= j < self.inodes() implies #[trigger] self.inode_bytes(d2, j)
            == self.inode_bytes(d1, j) by {
            assert(d2[self.inode_block(j)] == d1[self.inode_block(j)]);
        }
        assert forall|j: int, b: int|
            self.used(d1, j) && self.used(d2, j) && #[trigger] self.owns(d1, j, b) implies d2[b]
            == d1[b] by {
            assert(self.data_used(d1, b));
        }
        self.lemma_keep_all(d1, d2);
        assert(d2[b0] == dm[b0]);
        assert(bitmap::bit(d1, self.data_bitmap(), k));
        lemma_clear_bits_set(d2, d1, self.data_bitmap(), self.data_area_blocks as int, k);
        lemma_clear_bits_same(d1, d2, 1, self.inodes());
        assert(self.files(d2) =~= self.files(d1));
    }

    /// The disk with inode `i` replaced.
    pub open spec fn with_inode(
        &self,
        disk: Seq<Seq<u8>>,
        i: int,
        inode: InodeData,
    ) -> Seq<Seq<u8>> {
        let b = self.inode_block(i);
        disk.update(
            b,
            bytes::splice(
                disk[b],
                i % 4 * 128,
                DiskInode::stored(inode, self.inode_bytes(disk, i)),
            ),
        )
    }

    /// The inode is read back, and the others stay.
    pub proof fn lemma_with_inode(&self, disk: Seq<Seq<u8>>, i: int, inode: InodeData)
        requires
            self.fits(disk),
            0 <= i < self.inodes(),
            inode.direct.len() == disk_inode::INODE_DIRECT_COUNT,
        ensures
            ({
                let d2 = self.with_inode(disk, i, inode);
                &&& d2.len() == disk.len()
                &&& block_cache::disk_wf(d2)
                &&& self.inode(d2, i) == inode
                &&& forall|j: int|
                    0 <= j < self.inodes() && j != i ==> #[trigger] self.inode_bytes(d2, j)
                        == self.inode_bytes(disk, j)
                &&& forall|b: int|
                    0 <= b < self.inode_area() || self.data_bitmap() <= b < disk.len()
                        ==> #[trigger] d2[b] == disk[b]
            }),
    {
        let d2 = self.with_inode(disk, i, inode);
        let b0 = self.inode_block(i);
        self.lemma_places(disk);
        assert(self.inode_area() <= b0 < self.data_bitmap());
        let old_bytes = self.inode_bytes(disk, i);
        inode.lemma_read_back(old_bytes);
        assert(self.inode_bytes(d2, i) =~= DiskInode::stored(inode, old_bytes));
        assert forall|j: int| 0 <= j < self.inodes() && j != i implies #[trigger] self.inode_bytes(
            d2,
            j,
        ) == self.inode_bytes(disk, j) by {
            assert(self.inode_area() <= self.inode_block(j) < self.data_bitmap());
            assert(self.inode_bytes(d2, j) =~= self.inode_bytes(disk, j));
        }
    }

    /// Inode `i` is replaced by one whose blocks are in use and belong to no
    /// other inode.
    pub proof fn lemma_commit(
        &self,
        d0: Seq<Seq<u8>>,
        d1: Seq<Seq<u8>>,
        i: int,
        inode: InodeData,
    )
        requires
            self.holds(d0),
            self.used(d0, i),
            block_cache::disk_wf(d1),
            d1.len() == d0.len(),
            inode.wf(d1),
            forall|b: int|
                0 <= b < d0.len() && !self.data_used(d0, b) ==> #[trigger] d1[b] == d0[b],
            forall|j: int, b: int|
                self.used(d0, j) && j != i && #[trigger] self.owns(d0, j, b) ==> d1[b] == d0[b],
            forall|p: int|
                0 <= p < inode.total() ==> self.data_used(d0, (#[trigger] inode.slot(d1, p)) as int)
                    && forall|j: int|
                    self.used(d0, j) && j != i ==> !#[trigger] self.owns(
                        d0,
                        j,
                        inode.slot(d1, p) as int,
                    ),
        ensures
            ({
                let d2 = self.with_inode(d1, i, inode);
                &&& self.holds(d2)
                &&& self.files(d2) == self.files(d0).insert(
                    i,
                    (FileData {
                        dir: inode.dir,
                        nlink: inode.nlink,
                        size: inode.size as int,
                        raw: inode.raw(d1),
                    }),
                )
                &&& self.free_blocks(d2) == self.free_blocks(d0)
                &&& self.free_inodes(d2) == self.free_inodes(d0)
                &&& self.inode(d2, i) == inode
                &&& forall|b: int| #[trigger] self.data_used(d2, b) == self.data_used(d0, b)
                &&& forall|b: int| self.data_area() <= b < d1.len() ==> #[trigger] d2[b] == d1[b]
                &&& forall|p: int|
                    0 <= p < inode.total() ==> #[trigger] inode.slot(d2, p) == inode.slot(d1, p)
                &&& forall|j: int, b: int|
                    self.used(d0, j) && j != i ==> #[trigger] self.owns(d2, j, b) == self.owns(
                        d0,
                        j,
                        b,
                    )
                &&& forall|j: int|
                    self.used(d0, j) && j != i ==> #[trigger] self.blocks_of(d2, j)
                        == self.blocks_of(d0, j)
                &&& self.blocks_of(d2, i) == inode.blocks(d1)
            }),
    {
        let d2 = self.with_inode(d1, i, inode);
        self.lemma_places(d0);
        self.lemma_with_inode(d1, i, inode);
        assert forall|p: int| 0 <= p < inode.total() && disk_inode::index_pos(p) implies d2[(
        #[trigger] inode.slot(d1, p)) as int] == d1[inode.slot(d1, p) as int] by {
            assert(self.data_used(d0, inode.slot(d1, p) as int));
        }
        inode.lemma_same_index(d1, d2);
        assert(inode.raw(d2) =~= inode.raw(d1)) by {
            assert forall|k: int| 0 <= k < inode.raw(d1).len() implies inode.raw(d2)[k]
                == inode.raw(d1)[k] by {
                let n = k / 512;
                inode.lemma_data_pos(d1, n);
                assert(0 <= disk_inode::data_pos(n) < disk_inode::total_for(inode.nblocks()));
                assert(inode.block(d2, n) == inode.block(d1, n));
                assert(self.data_used(d0, inode.slot(d1, disk_inode::data_pos(n)) as int));
            }
        }
        assert forall|b: int| #[trigger] self.owns(d2, i, b) implies self.data_used(d0, b)
            && forall|j: int|
            self.used(d0, j) && j != i ==> !#[trigger] self.owns(d0, j, b) by {
            let p = choose|p: int|
                0 <= p < self.inode(d2, i).total() && #[trigger] self.inode(d2, i).slot(d2, p) == b;
            assert(inode.slot(d2, p) == b);
            assert(inode.slot(d1, p) == b);
        }
        assert forall|j: int| 0 <= j < self.inodes() && j != i implies #[trigger] self.inode_bytes(
            d2,
            j,
        ) == self.inode_bytes(d0, j) by {
            assert(d1[self.inode_block(j)] == d0[self.inode_block(j)]);
        }
        assert forall|j: int, b: int|
            self.used(d0, j) && j != i && #[trigger] self.owns(d0, j, b) implies d2[b] == d0[b] by {
            assert(self.data_used(d0, b));
        }
        self.lemma_update(d0, d2, i);
        assert forall|j: int, b: int| self.used(d0, j) && j != i implies #[trigger] self.owns(
            d2,
            j,
            b,
        ) == self.owns(d0, j, b) by {
            self.lemma_keep(d0, d2, j);
        }
        assert forall|j: int| self.used(d0, j) && j != i implies #[trigger] self.blocks_of(d2, j)
            == self.blocks_of(d0, j) by {
            self.lemma_keep(d0, d2, j);
        }
        assert(self.blocks_of(d2, i) =~= inode.blocks(d1));
    }
}

} // verus!
