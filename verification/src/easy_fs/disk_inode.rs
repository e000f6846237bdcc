//! Inodes as they lie on disk.
use super::block_cache::{BlockCacheManager, DiskRecord};
use super::block_dev::BlockDevice;
use super::bytes;
use super::bytes::{copy_to_slice, read_u32, write_words};
use super::BLOCK_SZ;
use vstd::prelude::*;
use vstd::slice::slice_subrange;

verus! {

/// The number of data blocks that an inode points to directly.
pub const INODE_DIRECT_COUNT: usize = 27;

/// The number of entries in an index block.
pub const INODE_INDIRECT1_COUNT: usize = 128;

/// The number of data blocks below a second-level index block.
pub const INODE_INDIRECT2_COUNT: usize = 16384;

/// The upper bound of the direct data blocks.
pub const DIRECT_BOUND: usize = 27;

/// The upper bound of the data blocks below the first-level index block.
pub const INDIRECT1_BOUND: usize = 155;

/// The upper bound of the data blocks of an inode.
pub const INDIRECT2_BOUND: usize = 16539;

/// Type of a disk inode.
#[derive(Clone, Copy, PartialEq, Eq, Structural)]
pub enum DiskInodeType {
    File,
    Directory,
}

/// A disk inode, 128 bytes. It finds the data blocks of a file: the first ones
/// directly, the next through an index block, the rest through an index block
/// of index blocks.
pub struct DiskInode {
    /// Size of the content in bytes.
    pub size: u32,
    /// Number of hard links.
    pub nlink: u32,
    /// The first data blocks.
    pub direct: [u32; INODE_DIRECT_COUNT],
    /// The first-level index block.
    pub indirect1: u32,
    /// The second-level index block.
    pub indirect2: u32,
    /// File or directory.
    pub type_: DiskInodeType,
}

/// What a disk inode says.
pub struct InodeData {
    pub size: u32,
    pub nlink: u32,
    pub direct: Seq<u32>,
    pub indirect1: u32,
    pub indirect2: u32,
    pub dir: bool,
}

impl View for DiskInode {
    type V = InodeData;

    open spec fn view(&self) -> InodeData {
        InodeData {
            size: self.size,
            nlink: self.nlink,
            direct: self.direct@,
            indirect1: self.indirect1,
            indirect2: self.indirect2,
            dir: self.type_ == DiskInodeType::Directory,
        }
    }
}

/// Data blocks that `size` bytes take.
pub open spec fn blocks_for(size: int) -> int {
    (size + BLOCK_SZ - 1) / (BLOCK_SZ as int)
}

/// Blocks that `n` data blocks and their index blocks take.
pub open spec fn total_for(n: int) -> int {
    n + (if n > DIRECT_BOUND {
        1int
    } else {
        0
    }) + (if n > INDIRECT1_BOUND {
        1 + (n - INDIRECT1_BOUND + INODE_INDIRECT1_COUNT - 1) / (INODE_INDIRECT1_COUNT as int)
    } else {
        0
    })
}

/// Where data block `k` stands among the blocks of an inode, counted in the
/// order in which they are allocated.
pub open spec fn data_pos(k: int) -> int {
    if k < DIRECT_BOUND {
        k
    } else if k < INDIRECT1_BOUND {
        k + 1
    } else {
        158 + 129 * ((k - INDIRECT1_BOUND) / 128) + (k - INDIRECT1_BOUND) % 128
    }
}

/// Whether an index block stands at position `p` of that order.
pub open spec fn index_pos(p: int) -> bool {
    p == 27 || p == 156 || (p >= 157 && (p - 157) % 129 == 0)
}

/// How many of `len` bytes from `offset` on lie in a content of `size` bytes.
pub open spec fn read_len(size: int, offset: int, len: int) -> int {
    if offset >= size {
        0
    } else if offset + len < size {
        len
    } else {
        size - offset
    }
}

/// Entry `i` of index block `b`.
pub open spec fn entry(disk: Seq<Seq<u8>>, b: u32, i: int) -> u32 {
    bytes::u32_at(disk[b as int], 4 * i)
}

impl InodeData {
    /// A new inode: one link and no block.
    pub open spec fn initial(dir: bool) -> InodeData {
        InodeData {
            size: 0,
            nlink: 1,
            direct: Seq::new(27, |i: int| 0u32),
            indirect1: 0,
            indirect2: 0,
            dir,
        }
    }

    /// Number of data blocks.
    pub open spec fn nblocks(self) -> int {
        blocks_for(self.size as int)
    }

    /// Number of blocks, index blocks included.
    pub open spec fn total(self) -> int {
        total_for(self.nblocks())
    }

    /// The number of data block `k`.
    pub open spec fn block(self, disk: Seq<Seq<u8>>, k: int) -> u32 {
        if k < DIRECT_BOUND {
            self.direct[k]
        } else if k < INDIRECT1_BOUND {
            entry(disk, self.indirect1, k - DIRECT_BOUND)
        } else {
            entry(
                disk,
                entry(disk, self.indirect2, (k - INDIRECT1_BOUND) / 128),
                (k - INDIRECT1_BOUND) % 128,
            )
        }
    }

    /// The block at position `p` of the order in which the blocks are
    /// allocated: an index block comes right before the first block below it.
    pub open spec fn slot(self, disk: Seq<Seq<u8>>, p: int) -> u32 {
        if p < 27 {
            self.direct[p]
        } else if p == 27 {
            self.indirect1
        } else if p < 156 {
            entry(disk, self.indirect1, p - 28)
        } else if p == 156 {
            self.indirect2
        } else {
            let w = entry(disk, self.indirect2, (p - 157) / 129);
            if (p - 157) % 129 == 0 {
                w
            } else {
                entry(disk, w, (p - 157) % 129 - 1)
            }
        }
    }

    /// All blocks of the inode, in the order in which they are allocated.
    pub open spec fn blocks(self, disk: Seq<Seq<u8>>) -> Seq<u32> {
        Seq::new(self.total() as nat, |p: int| self.slot(disk, p))
    }

    /// The inode is not too large, and its blocks lie on the disk.
    pub open spec fn in_range(self, disk: Seq<Seq<u8>>) -> bool {
        &&& self.direct.len() == INODE_DIRECT_COUNT
        &&& self.nblocks() <= INDIRECT2_BOUND
        &&& forall|p: int|
            0 <= p < self.total() ==> (#[trigger] self.slot(disk, p)) < disk.len()
    }

    /// No block serves twice.
    pub open spec fn distinct(self, disk: Seq<Seq<u8>>) -> bool {
        forall|p: int, q: int|
            0 <= p < q < self.total() ==> #[trigger] self.slot(disk, p) != #[trigger] self.slot(
                disk,
                q,
            )
    }

    /// The blocks of the inode form a tree on the disk.
    pub open spec fn wf(self, disk: Seq<Seq<u8>>) -> bool {
        self.in_range(disk) && self.distinct(disk)
    }

    /// The bytes of the data blocks, to the end of the last one.
    pub open spec fn raw(self, disk: Seq<Seq<u8>>) -> Seq<u8> {
        Seq::new(
            (self.nblocks() * BLOCK_SZ) as nat,
            |i: int| disk[self.block(disk, i / (BLOCK_SZ as int)) as int][i % (BLOCK_SZ as int)],
        )
    }

    /// The content.
    pub open spec fn content(self, disk: Seq<Seq<u8>>) -> Seq<u8> {
        self.raw(disk).subrange(0, self.size as int)
    }

    /// The words that lie on disk, in their order.
    pub open spec fn words(self) -> Seq<u32> {
        seq![self.size, self.nlink] + self.direct + seq![self.indirect1, self.indirect2]
    }

    /// The position of a data block, and the block at that position.
    pub proof fn lemma_data_pos(self, disk: Seq<Seq<u8>>, k: int)
        requires
            0 <= k,
        ensures
            self.slot(disk, data_pos(k)) == self.block(disk, k),
            !index_pos(data_pos(k)),
            forall|n: int| k < n ==> 0 <= data_pos(k) < #[trigger] total_for(n),
    {
        if k >= INDIRECT1_BOUND {
            let a = (k - 155) / 128;
            let b = (k - 155) % 128;
            assert(k - 155 == 128 * a + b);
            let q = data_pos(k) - 157;
            assert(q == 129 * a + (b + 1));
            assert(q / 129 == a && q % 129 == b + 1);
            assert forall|n: int| k < n implies 0 <= data_pos(k) < #[trigger] total_for(n) by {
                assert((n - 155 + 127) / 128 >= a + 1);
            }
        }
    }

    /// Different data blocks stand at different positions.
    pub proof fn lemma_data_pos_distinct(k: int, l: int)
        requires
            0 <= k < l,
        ensures
            data_pos(k) < data_pos(l),
    {
    }

    /// A disk that agrees on the index blocks gives the same blocks.
    pub proof fn lemma_same_index(self, d1: Seq<Seq<u8>>, d2: Seq<Seq<u8>>)
        requires
            self.nblocks() <= INDIRECT2_BOUND,
            forall|p: int|
                0 <= p < self.total() && index_pos(p) ==> d2[#[trigger] self.slot(d1, p) as int]
                    == d1[self.slot(d1, p) as int],
        ensures
            forall|p: int|
                0 <= p < self.total() ==> #[trigger] self.slot(d2, p) == self.slot(d1, p),
            forall|k: int|
                0 <= k < self.nblocks() ==> #[trigger] self.block(d2, k) == self.block(d1, k),
            self.blocks(d2) == self.blocks(d1),
    {
        let t = self.total();
        assert forall|p: int| 0 <= p < t implies #[trigger] self.slot(d2, p) == self.slot(
            d1,
            p,
        ) by {
            if p > 27 {
                assert(self.slot(d1, 27) == self.indirect1);
                assert(index_pos(27));
            }
            if p > 156 {
                assert(self.slot(d1, 156) == self.indirect2);
                assert(index_pos(156));
                let a = (p - 157) / 129;
                let h = 157 + 129 * a;
                assert(h <= p);
                assert((h - 157) % 129 == 0 && (h - 157) / 129 == a);
                assert(index_pos(h));
                assert(self.slot(d1, h) == entry(d1, self.indirect2, a));
                assert(d2[self.slot(d1, h) as int] == d1[self.slot(d1, h) as int]);
            }
        }
        assert forall|k: int| 0 <= k < self.nblocks() implies #[trigger] self.block(d2, k)
            == self.block(d1, k) by {
            self.lemma_data_pos(d1, k);
            self.lemma_data_pos(d2, k);
            assert(0 <= data_pos(k) < total_for(self.nblocks()));
            assert(self.slot(d2, data_pos(k)) == self.slot(d1, data_pos(k)));
        }
        assert(self.blocks(d2) =~= self.blocks(d1));
    }

    /// Data blocks lie on the disk; two of them differ, and none is an index
    /// block.
    pub proof fn lemma_data_blocks(self, disk: Seq<Seq<u8>>, k: int)
        requires
            self.in_range(disk),
            0 <= k < self.nblocks(),
        ensures
            self.block(disk, k) < disk.len(),
            self.distinct(disk) ==> forall|p: int|
                0 <= p < self.total() && p != data_pos(k) ==> #[trigger] self.slot(disk, p)
                    != self.block(disk, k),
            self.distinct(disk) ==> forall|l: int|
                0 <= l < self.nblocks() && l != k ==> #[trigger] self.block(disk, l)
                    != self.block(disk, k),
    {
        self.lemma_data_pos(disk, k);
        let p = data_pos(k);
        assert(0 <= p < total_for(self.nblocks()));
        assert(self.slot(disk, p) < disk.len());
        if self.distinct(disk) {
            assert forall|q: int| 0 <= q < self.total() && q != p implies #[trigger] self.slot(
                disk,
                q,
            ) != self.block(disk, k) by {
                if q < p {
                    assert(self.slot(disk, q) != self.slot(disk, p));
                } else {
                    assert(self.slot(disk, p) != self.slot(disk, q));
                }
            }
            assert forall|l: int| 0 <= l < self.nblocks() && l != k implies #[trigger] self.block(
                disk,
                l,
            ) != self.block(disk, k) by {
                self.lemma_data_pos(disk, l);
                if l < k {
                    Self::lemma_data_pos_distinct(l, k);
                } else {
                    Self::lemma_data_pos_distinct(k, l);
                }
                assert(0 <= data_pos(l) < total_for(self.nblocks()));
                assert(self.slot(disk, data_pos(l)) != self.block(disk, k));
            }
        }
    }

    /// The inode after its blocks were given up.
    pub open spec fn cleared(self) -> InodeData {
        InodeData {
            size: 0,
            direct: Seq::new(
                27,
                |k: int|
                    if k < self.nblocks() {
                        0
                    } else {
                        self.direct[k]
                    },
            ),
            indirect1: if self.nblocks() > DIRECT_BOUND {
                0
            } else {
                self.indirect1
            },
            indirect2: if self.nblocks() > INDIRECT1_BOUND {
                0
            } else {
                self.indirect2
            },
            ..self
        }
    }

    /// Whether `b` is one of the data blocks.
    pub open spec fn is_data(self, disk: Seq<Seq<u8>>, b: int) -> bool {
        exists|k: int| 0 <= k < self.nblocks() && #[trigger] self.block(disk, k) == b
    }

    /// Data block `k` can be looked up.
    pub proof fn lemma_get(self, disk: Seq<Seq<u8>>, k: int)
        requires
            self.in_range(disk),
            0 <= k < self.nblocks(),
        ensures
            self.block(disk, k) < disk.len(),
            DIRECT_BOUND <= k ==> self.indirect1 < disk.len(),
            INDIRECT1_BOUND <= k ==> {
                &&& self.indirect2 < disk.len()
                &&& entry(disk, self.indirect2, (k - INDIRECT1_BOUND) / 128) < disk.len()
            },
    {
        assert(self.block(disk, k) < disk.len()) by {
            self.lemma_data_blocks(disk, k);
        }
        if DIRECT_BOUND <= k {
            assert(self.slot(disk, 27) < disk.len());
        }
        if INDIRECT1_BOUND <= k {
            assert(self.slot(disk, 156) < disk.len());
            let a = (k - 155) / 128;
            let h = 157 + 129 * a;
            assert((h - 157) % 129 == 0 && (h - 157) / 129 == a);
            assert(h < self.total()) by {
                self.lemma_data_pos(disk, k);
                assert(data_pos(k) < total_for(self.nblocks()));
            }
            assert(self.slot(disk, h) == entry(disk, self.indirect2, a));
            assert(self.slot(disk, h) < disk.len());
        }
    }

    /// An inode that was stored is read back.
    pub proof fn lemma_read_back(self, old_bytes: Seq<u8>)
        requires
            self.direct.len() == INODE_DIRECT_COUNT,
            old_bytes.len() == 128,
        ensures
            DiskInode::stored(self, old_bytes).len() == 128,
            DiskInode::parse(DiskInode::stored(self, old_bytes)) == self,
    {
        let w = self.words();
        let tail = seq![
            if self.dir {
                1u8
            } else {
                0u8
            },
        ] + old_bytes.subrange(125, 128);
        let s = DiskInode::stored(self, old_bytes);
        assert(s =~= bytes::words_bytes(w) + tail);
        let v = DiskInode::parse(s);
        bytes::lemma_words_bytes(w, tail, 0);
        bytes::lemma_words_bytes(w, tail, 1);
        bytes::lemma_words_bytes(w, tail, 29);
        bytes::lemma_words_bytes(w, tail, 30);
        assert forall|i: int| 0 <= i < 27 implies v.direct[i] == self.direct[i] by {
            bytes::lemma_words_bytes(w, tail, i + 2);
        }
        assert(v.direct =~= self.direct);
    }
}

impl DiskRecord for DiskInode {
    open spec fn size() -> nat {
        128
    }

    open spec fn parse(s: Seq<u8>) -> InodeData {
        InodeData {
            size: bytes::u32_at(s, 0),
            nlink: bytes::u32_at(s, 4),
            direct: Seq::new(27, |i: int| bytes::u32_at(s, 8 + 4 * i)),
            indirect1: bytes::u32_at(s, 116),
            indirect2: bytes::u32_at(s, 120),
            dir: s[124] == 1,
        }
    }

    open spec fn stored(value: InodeData, s: Seq<u8>) -> Seq<u8> {
        bytes::words_bytes(value.words()) + seq![
            if value.dir {
                1u8
            } else {
                0u8
            },
        ] + s.subrange(125, 128)
    }

    fn byte_size() -> (n: usize) {
        128
    }

    fn load(s: &[u8]) -> (r: Self) {
        let mut direct: [u32; INODE_DIRECT_COUNT] = [0u32; INODE_DIRECT_COUNT];
        let mut i: usize = 0;
        while i < INODE_DIRECT_COUNT
            invariant
                i <= INODE_DIRECT_COUNT,
                s@.len() == 128,
                forall|k: int| 0 <= k < i ==> #[trigger] direct@[k] == bytes::u32_at(s@, 8 + 4 * k),
            decreases INODE_DIRECT_COUNT - i,
        {
            direct[i] = read_u32(s, 8 + 4 * i);
            i += 1;
        }
        let type_: DiskInodeType = if s[124] == 1 {
            DiskInodeType::Directory
        } else {
            DiskInodeType::File
        };
        let r = DiskInode {
            size: read_u32(s, 0),
            nlink: read_u32(s, 4),
            direct,
            indirect1: read_u32(s, 116),
            indirect2: read_u32(s, 120),
            type_,
        };
        assert(r@.direct =~= Self::parse(s@).direct);
        r
    }

    fn save(&self, dst: &mut Vec<u8>, offset: usize) {
        let _len: usize = dst.len();
        let mut words: Vec<u32> = vec![self.size, self.nlink];
        let mut i: usize = 0;
        while i < INODE_DIRECT_COUNT
            invariant
                i <= INODE_DIRECT_COUNT,
                words@ =~= seq![self.size, self.nlink] + self.direct@.subrange(0, i as int),
            decreases INODE_DIRECT_COUNT - i,
        {
            words.push(self.direct[i]);
            i += 1;
        }
        words.push(self.indirect1);
        words.push(self.indirect2);
        let ghost before = dst@;
        assert(words@ =~= self@.words());
        write_words(dst, offset, &words);
        let kind: u8 = if self.type_ == DiskInodeType::Directory {
            1
        } else {
            0
        };
        dst.set(offset + 124, kind);
        assert(dst@ =~= bytes::splice(
            before,
            offset as int,
            Self::stored(self@, before.subrange(offset as int, offset + 128)),
        ));
    }
}

impl DiskInode {
    /// An inode with nothing in it.
    pub fn empty() -> (r: Self)
        ensures
            r@ == (InodeData {
                size: 0,
                nlink: 0,
                direct: Seq::new(27, |i: int| 0u32),
                indirect1: 0,
                indirect2: 0,
                dir: false,
            }),
    {
        let r = DiskInode {
            size: 0,
            nlink: 0,
            direct: [0u32; INODE_DIRECT_COUNT],
            indirect1: 0,
            indirect2: 0,
            type_: DiskInodeType::File,
        };
        assert(r@.direct =~= Seq::new(27, |i: int| 0u32));
        r
    }

    /// Initialize a disk inode: one link and no block.
    pub fn initialize(&mut self, type_: DiskInodeType)
        ensures
            final(self)@ == InodeData::initial(type_ == DiskInodeType::Directory),
    {
        self.size = 0;
        self.nlink = 1;
        self.direct = [0u32; INODE_DIRECT_COUNT];
        self.indirect1 = 0;
        self.indirect2 = 0;
        self.type_ = type_;
        assert(self@.direct =~= Seq::new(27, |i: int| 0u32));
    }

    /// Whether this inode is a directory.
    pub fn is_dir(&self) -> (r: bool)
        ensures
            r == self@.dir,
    {
        self.type_ == DiskInodeType::Directory
    }

    /// Whether this inode is a file.
    pub fn is_file(&self) -> (r: bool)
        ensures
            r == !self@.dir,
    {
        self.type_ == DiskInodeType::File
    }

    /// Number of data blocks that the size takes.
    pub fn data_blocks(&self) -> (r: u32)
        requires
            self@.size <= u32::MAX - BLOCK_SZ,
        ensures
            r == self@.nblocks(),
    {
        Self::_data_blocks(self.size)
    }

    fn _data_blocks(size: u32) -> (r: u32)
        requires
            size <= u32::MAX - BLOCK_SZ,
        ensures
            r == blocks_for(size as int),
    {
        (size + BLOCK_SZ as u32 - 1) / BLOCK_SZ as u32
    }

    /// Number of blocks that `size` bytes take, index blocks included.
    pub fn total_blocks(size: u32) -> (r: u32)
        requires
            size <= u32::MAX - BLOCK_SZ,
        ensures
            r == total_for(blocks_for(size as int)),
    {
        let data_blocks: usize = Self::_data_blocks(size) as usize;
        let mut total: usize = data_blocks;
        if data_blocks > INODE_DIRECT_COUNT {
            total += 1;
        }
        if data_blocks > INDIRECT1_BOUND {
            total += 1;
            total +=
            (data_blocks - INDIRECT1_BOUND + INODE_INDIRECT1_COUNT - 1) / INODE_INDIRECT1_COUNT;
        }
        total as u32
    }

    /// Number of blocks to allocate before the inode can grow to `new_size`.
    pub fn blocks_num_needed(&self, new_size: u32) -> (r: u32)
        requires
            new_size >= self@.size,
            new_size <= u32::MAX - BLOCK_SZ,
        ensures
            r == total_for(blocks_for(new_size as int)) - self@.total(),
    {
        proof {
            lemma_total_monotonic(blocks_for(self@.size as int), blocks_for(new_size as int));
        }
        Self::total_blocks(new_size) - Self::total_blocks(self.size)
    }

    /// The number of data block `inner_id`.
    pub fn get_block_id<D: BlockDevice>(
        &self,
        inner_id: u32,
        cache: &mut BlockCacheManager<D>,
    ) -> (r: u32)
        requires
            old(cache).inv(),
            inner_id < INDIRECT2_BOUND,
            DIRECT_BOUND <= inner_id < INDIRECT1_BOUND ==> self@.indirect1 < old(cache)@.len(),
            INDIRECT1_BOUND <= inner_id ==> {
                &&& self@.indirect2 < old(cache)@.len()
                &&& entry(old(cache)@, self@.indirect2, (inner_id - INDIRECT1_BOUND) / 128) < old(
                    cache,
                )@.len()
            },
        ensures
            final(cache).inv(),
            final(cache)@ == old(cache)@,
            final(cache).held() == old(cache).held(),
            old(cache).on_device() == old(cache)@ ==> final(cache).on_device() == old(cache)@,
            r == self@.block(old(cache)@, inner_id as int),
    {
        let inner: usize = inner_id as usize;
        if inner < INODE_DIRECT_COUNT {
            self.direct[inner]
        } else if inner < INDIRECT1_BOUND {
            Self::index_entry(self.indirect1, inner - INODE_DIRECT_COUNT, cache)
        } else {
            let last: usize = inner - INDIRECT1_BOUND;
            let indirect1: u32 = Self::index_entry(
                self.indirect2,
                last / INODE_INDIRECT1_COUNT,
                cache,
            );
            Self::index_entry(indirect1, last % INODE_INDIRECT1_COUNT, cache)
        }
    }

    /// The block at position `p` of the order in which the blocks are allocated;
    /// the index blocks that lead to it must lie on the disk.
    pub fn slot_at<D: BlockDevice>(&self, p: usize, cache: &mut BlockCacheManager<D>) -> (r: u32)
        requires
            old(cache).inv(),
            p < 157 + 129 * 128,
            p > 27 ==> self@.indirect1 < old(cache)@.len(),
            p > 156 ==> self@.indirect2 < old(cache)@.len(),
            p > 156 && (p - 157) % 129 != 0 ==> entry(
                old(cache)@,
                self@.indirect2,
                (p - 157) / 129,
            ) < old(cache)@.len(),
        ensures
            final(cache).inv(),
            final(cache)@ == old(cache)@,
            final(cache).held() == old(cache).held(),
            old(cache).on_device() == old(cache)@ ==> final(cache).on_device() == old(cache)@,
            r == self@.slot(old(cache)@, p as int),
    {
        if p < 27 {
            self.direct[p]
        } else if p == 27 {
            self.indirect1
        } else if p < 156 {
            Self::index_entry(self.indirect1, p - 28, cache)
        } else if p == 156 {
            self.indirect2
        } else {
            let a: usize = (p - 157) / 129;
            let b: usize = (p - 157) % 129;
            let w: u32 = Self::index_entry(self.indirect2, a, cache);
            if b == 0 {
                w
            } else {
                Self::index_entry(w, b - 1, cache)
            }
        }
    }

    /// Entry `i` of index block `block`.
    fn index_entry<D: BlockDevice>(block: u32, i: usize, cache: &mut BlockCacheManager<D>) -> (r:
        u32)
        requires
            old(cache).inv(),
            block < old(cache)@.len(),
            i < INODE_INDIRECT1_COUNT,
        ensures
            final(cache).inv(),
            final(cache)@ == old(cache)@,
            final(cache).held() == old(cache).held(),
            old(cache).on_device() == old(cache)@ ==> final(cache).on_device() == old(cache)@,
            r == entry(old(cache)@, block, i as int),
    {
        proof {
            cache.lemma_wf();
            assert(cache@[block as int].len() == BLOCK_SZ);
        }
        let b: Vec<u8> = cache.read_bytes(block as usize, 4 * i, 4);
        assert(b@.subrange(0, 4) =~= b@);
        read_u32(b.as_slice(), 0)
    }

    /// Writes entry `i` of index block `block`.
    fn set_index_entry<D: BlockDevice>(
        block: u32,
        i: usize,
        value: u32,
        cache: &mut BlockCacheManager<D>,
    )
        requires
            old(cache).inv(),
            block < old(cache)@.len(),
            i < INODE_INDIRECT1_COUNT,
        ensures
            final(cache).inv(),
            final(cache).held() == old(cache).held(),
            final(cache)@.len() == old(cache)@.len(),
            forall|b: int|
                0 <= b < old(cache)@.len() && b != block ==> #[trigger] final(cache)@[b] == old(
                    cache,
                )@[b],
            forall|j: int|
                0 <= j < INODE_INDIRECT1_COUNT ==> #[trigger] entry(final(cache)@, block, j)
                    == if j == i {
                    value
                } else {
                    entry(old(cache)@, block, j)
                },
    {
        let ghost before = cache@;
        proof {
            cache.lemma_wf();
            assert(before[block as int].len() == BLOCK_SZ);
        }
        let v: Vec<u8> = bytes::u32_to_bytes(value);
        cache.write_bytes(block as usize, 4 * i, v.as_slice());
        proof {
            bytes::lemma_u32_read_back(before[block as int], 4 * i, value);
            assert forall|j: int| 0 <= j < INODE_INDIRECT1_COUNT implies #[trigger] entry(
                cache@,
                block,
                j,
            ) == if j == i {
                value
            } else {
                entry(before, block, j)
            } by {
                if j != i {
                    bytes::lemma_u32_elsewhere(before[block as int], 4 * i, v@, 4 * j);
                }
            }
        }
    }

    /// Reads the content from `offset` on into `buf`, as far as it goes, and
    /// gives the number of bytes read.
    pub fn read_at<D: BlockDevice>(
        &self,
        offset: usize,
        buf: &mut [u8],
        cache: &mut BlockCacheManager<D>,
    ) -> (r: usize)
        requires
            old(cache).inv(),
            self@.in_range(old(cache)@),
            offset + old(buf)@.len() <= usize::MAX,
        ensures
            final(cache).inv(),
            final(cache)@ == old(cache)@,
            final(cache).held() == old(cache).held(),
            old(cache).on_device() == old(cache)@ ==> final(cache).on_device() == old(cache)@,
            r == read_len(self@.size as int, offset as int, old(buf)@.len() as int),
            final(buf)@ == bytes::splice(
                old(buf)@,
                0,
                bytes::part(self@.content(old(cache)@), offset as int, r as int),
            ),
    {
        let ghost disk = cache@;
        let ghost inode = self@;
        let ghost before = buf@;
        let len: usize = buf.len();
        let size: usize = self.size as usize;
        let end: usize = if offset + len < size {
            offset + len
        } else {
            size
        };
        if offset >= end {
            assert(buf@ =~= bytes::splice(
                before,
                0,
                bytes::part(inode.content(disk), offset as int, 0),
            ));
            return 0;
        }
        let mut start: usize = offset;
        let mut start_block: usize = start / BLOCK_SZ;
        let mut read_size: usize = 0;
        assert(buf@ =~= bytes::splice(
            before,
            0,
            bytes::part(inode.content(disk), offset as int, start - offset),
        ));
        while start < end
            invariant
                cache.inv(),
                cache@ == disk,
                cache.held() == old(cache).held(),
                disk == old(cache)@,
                old(cache).on_device() == disk ==> cache.on_device() == disk,
                inode == self@,
                inode.in_range(disk),
                offset <= start <= end,
                end <= offset + len,
                end <= size,
                size == inode.size,
                offset + len <= usize::MAX,
                len == before.len(),
                buf@.len() == len,
                read_size == start - offset,
                start < end ==> start_block == start / BLOCK_SZ,
                buf@ == bytes::splice(
                    before,
                    0,
                    bytes::part(inode.content(disk), offset as int, start - offset),
                ),
            decreases end - start,
        {
            let block_end: usize = (start / BLOCK_SZ + 1) * BLOCK_SZ;
            let end_current_block: usize = if block_end < end {
                block_end
            } else {
                end
            };
            let block_read_size: usize = end_current_block - start;
            proof {
                assert(start_block < inode.nblocks());
                inode.lemma_get(disk, start_block as int);
                cache.lemma_wf();
            }
            let id: u32 = self.get_block_id(start_block as u32, cache);
            assert(disk[id as int].len() == BLOCK_SZ);
            let src: Vec<u8> = cache.read_bytes(id as usize, start % BLOCK_SZ, block_read_size);
            let ghost mid = buf@;
            copy_to_slice(buf, read_size, src.as_slice());
            proof {
                let content = inode.content(disk);
                assert forall|i: int| 0 <= i < len implies buf@[i] == bytes::splice(
                    before,
                    0,
                    bytes::part(content, offset as int, end_current_block - offset),
                )[i] by {
                    if read_size <= i < read_size + block_read_size {
                        let x = offset + i;
                        assert(x / (BLOCK_SZ as int) == start_block as int);
                        assert(x % (BLOCK_SZ as int) == start % BLOCK_SZ + (i - read_size));
                        assert(src@[i - read_size] == disk[id as int][x % (BLOCK_SZ as int)]);
                        assert(content[x] == inode.raw(disk)[x]);
                    }
                }
                assert(buf@ =~= bytes::splice(
                    before,
                    0,
                    bytes::part(content, offset as int, end_current_block - offset),
                ));
            }
            read_size += block_read_size;
            start_block += 1;
            start = end_current_block;
        }
        read_size
    }

    /// Writes `buf` over the content from `offset` on, as far as the content
    /// goes, and gives the number of bytes written. The size must have been
    /// adjusted before.
    pub fn write_at<D: BlockDevice>(
        &self,
        offset: usize,
        buf: &[u8],
        cache: &mut BlockCacheManager<D>,
    ) -> (r: usize)
        requires
            old(cache).inv(),
            self@.wf(old(cache)@),
            offset + buf@.len() <= usize::MAX,
            offset <= self@.size,
        ensures
            final(cache).inv(),
            final(cache).held() == old(cache).held(),
            final(cache)@.len() == old(cache)@.len(),
            r == read_len(self@.size as int, offset as int, buf@.len() as int),
            self@.wf(final(cache)@),
            self@.blocks(final(cache)@) == self@.blocks(old(cache)@),
            self@.raw(final(cache)@) == bytes::splice(
                self@.raw(old(cache)@),
                offset as int,
                buf@.subrange(0, r as int),
            ),
            self@.content(final(cache)@) == bytes::splice(
                self@.content(old(cache)@),
                offset as int,
                buf@.subrange(0, r as int),
            ),
            forall|b: int|
                0 <= b < old(cache)@.len() && !self@.is_data(old(cache)@, b)
                    ==> #[trigger] final(cache)@[b] == old(cache)@[b],
    {
        let ghost disk = cache@;
        let ghost inode = self@;
        let len: usize = buf.len();
        let size: usize = self.size as usize;
        let end: usize = if offset + len < size {
            offset + len
        } else {
            size
        };
        let mut start: usize = offset;
        let mut start_block: usize = start / BLOCK_SZ;
        let mut write_size: usize = 0;
        assert(inode.raw(disk) =~= bytes::splice(inode.raw(disk), offset as int, buf@.subrange(0, 0)));
        while start < end
            invariant
                cache.inv(),
                cache.held() == old(cache).held(),
                cache@.len() == disk.len(),
                disk == old(cache)@,
                inode == self@,
                inode.wf(disk),
                inode.wf(cache@),
                inode.blocks(cache@) == inode.blocks(disk),
                forall|p: int|
                    0 <= p < inode.total() ==> #[trigger] inode.slot(cache@, p) == inode.slot(
                        disk,
                        p,
                    ),
                forall|k: int|
                    0 <= k < inode.nblocks() ==> #[trigger] inode.block(cache@, k) == inode.block(
                        disk,
                        k,
                    ),
                offset <= start <= end,
                end <= offset + len,
                end <= size,
                size == inode.size,
                offset + len <= usize::MAX,
                len == buf@.len(),
                write_size == start - offset,
                start < end ==> start_block == start / BLOCK_SZ,
                inode.raw(cache@) == bytes::splice(
                    inode.raw(disk),
                    offset as int,
                    buf@.subrange(0, write_size as int),
                ),
                forall|b: int|
                    0 <= b < disk.len() && !inode.is_data(disk, b) ==> #[trigger] cache@[b]
                        == disk[b],
            decreases end - start,
        {
            let block_end: usize = (start / BLOCK_SZ + 1) * BLOCK_SZ;
            let end_current_block: usize = if block_end < end {
                block_end
            } else {
                end
            };
            let block_write_size: usize = end_current_block - start;
            let ghost mid = cache@;
            proof {
                assert(start_block < inode.nblocks());
                inode.lemma_get(mid, start_block as int);
                cache.lemma_wf();
            }
            let id: u32 = self.get_block_id(start_block as u32, cache);
            assert(mid[id as int].len() == BLOCK_SZ);
            let src: &[u8] = slice_subrange(buf, write_size, write_size + block_write_size);
            cache.write_bytes(id as usize, start % BLOCK_SZ, src);
            proof {
                let sb = start_block as int;
                inode.lemma_data_blocks(mid, sb);
                inode.lemma_data_pos(mid, sb);
                assert(inode.is_data(disk, id as int)) by {
                    assert(inode.block(disk, sb) == id);
                }
                assert forall|p: int| 0 <= p < inode.total() && index_pos(p) implies cache@[
                #[trigger] inode.slot(mid, p) as int] == mid[inode.slot(mid, p) as int] by {
                    assert(p != data_pos(sb));
                }
                inode.lemma_same_index(mid, cache@);
                assert forall|p: int| 0 <= p < inode.total() implies (#[trigger] inode.slot(
                    cache@,
                    p,
                )) < cache@.len() by {
                    assert(inode.slot(mid, p) < mid.len());
                }
                assert forall|p: int, q: int|
                    0 <= p < q < inode.total() implies #[trigger] inode.slot(cache@, p)
                    != #[trigger] inode.slot(cache@, q) by {
                    assert(inode.slot(mid, p) != inode.slot(mid, q));
                }
                let w2 = write_size + block_write_size;
                assert forall|i: int| 0 <= i < inode.raw(cache@).len() implies inode.raw(
                    cache@,
                )[i] == bytes::splice(
                    inode.raw(disk),
                    offset as int,
                    buf@.subrange(0, w2 as int),
                )[i] by {
                    let k = i / (BLOCK_SZ as int);
                    let j = i % (BLOCK_SZ as int);
                    assert(0 <= k < inode.nblocks());
                    assert(inode.block(cache@, k) == inode.block(mid, k));
                    assert(inode.raw(mid)[i] == mid[inode.block(mid, k) as int][j]);
                    inode.lemma_data_blocks(mid, k);
                    if k != sb {
                        assert(inode.block(mid, k) != id);
                    } else {
                        assert(i == 512 * sb + j);
                        assert(start == 512 * sb + start % BLOCK_SZ);
                    }
                    if start <= i < end_current_block {
                        assert(k == sb);
                        assert(j == start % BLOCK_SZ + (i - start));
                        assert(src@[i - start] == buf@[i - offset]);
                    }
                }
                assert(inode.raw(cache@) =~= bytes::splice(
                    inode.raw(disk),
                    offset as int,
                    buf@.subrange(0, w2 as int),
                ));
            }
            write_size += block_write_size;
            start_block += 1;
            start = end_current_block;
        }
        assert(inode.content(cache@) =~= bytes::splice(
            inode.content(disk),
            offset as int,
            buf@.subrange(0, write_size as int),
        ));
        write_size
    }

    /// Makes the inode smaller; its blocks stay where they are.
    pub fn decrease_size(&mut self, new_size: u32)
        ensures
            final(self)@ == (InodeData {
                size: if new_size >= old(self)@.size {
                    old(self)@.size
                } else {
                    new_size
                },
                ..old(self)@
            }),
    {
        if new_size >= self.size {
            return ;
        }
        self.size = new_size;
    }

    /// Takes the bytes from `offset` on out of the content, as many as `buf`
    /// holds, and puts them into `buf`. What follows them moves up; no block is
    /// given up.
    pub fn remove_at<D: BlockDevice>(
        &mut self,
        offset: usize,
        buf: &mut [u8],
        cache: &mut BlockCacheManager<D>,
    )
        requires
            old(cache).inv(),
            old(self)@.wf(old(cache)@),
            offset <= old(self)@.size,
            offset + old(buf)@.len() <= usize::MAX,
        ensures
            final(cache).inv(),
            final(cache).held() == old(cache).held(),
            final(cache)@.len() == old(cache)@.len(),
            ({
                let inode = old(self)@;
                let n = read_len(inode.size as int, offset as int, old(buf)@.len() as int);
                &&& final(buf)@ == bytes::splice(
                    old(buf)@,
                    0,
                    bytes::part(inode.content(old(cache)@), offset as int, n),
                )
                &&& final(self)@ == (InodeData { size: (inode.size - n) as u32, ..inode })
                &&& final(self)@.raw(final(cache)@) == bytes::splice(
                    inode.raw(old(cache)@),
                    offset as int,
                    inode.content(old(cache)@).subrange(offset + n, inode.size as int),
                ).subrange(0, final(self)@.nblocks() * BLOCK_SZ)
                &&& final(self)@.blocks(final(cache)@) == inode.blocks(old(cache)@).subrange(
                    0,
                    final(self)@.total(),
                )
            }),
            final(self)@.wf(final(cache)@),
            forall|b: int|
                0 <= b < old(cache)@.len() && !old(self)@.is_data(old(cache)@, b)
                    ==> #[trigger] final(cache)@[b] == old(cache)@[b],
    {
        let ghost inode = self@;
        let ghost disk = cache@;
        let len: usize = self.read_at(offset, buf, cache);
        let rest_len: usize = self.size as usize - offset - len;
        let mut rest: Vec<u8> = vec![0u8; rest_len];
        self.read_at(offset + len, rest.as_mut_slice(), cache);
        assert(rest@ =~= inode.content(disk).subrange(offset + len, inode.size as int));
        self.write_at(offset, rest.as_slice(), cache);
        assert(rest@.subrange(0, rest@.len() as int) =~= rest@);
        let new_size: u32 = self.size - len as u32;
        self.decrease_size(new_size);
        proof {
            assert(self@.direct =~= inode.direct);
            assert(self@ == (InodeData { size: new_size, ..inode }));
            lemma_total_monotonic(self@.nblocks(), inode.nblocks());
            assert forall|p: int| 0 <= p < self@.total() implies #[trigger] self@.slot(cache@, p)
                == inode.slot(cache@, p) by {}
            lemma_is_tree(self@, cache@, inode.blocks(cache@));
            assert(self@.raw(cache@) =~= inode.raw(cache@).subrange(
                0,
                self@.nblocks() * BLOCK_SZ,
            )) by {
                assert forall|i: int| 0 <= i < self@.nblocks() * BLOCK_SZ implies self@.raw(
                    cache@,
                )[i] == inode.raw(cache@)[i] by {
                    assert(self@.block(cache@, i / 512) == inode.block(cache@, i / 512));
                }
            }
        }
    }

    /// Grows the inode to `new_size`; `new_blocks` holds the blocks that this
    /// takes, data and index blocks in the order in which they are needed.
    /// What is left of `new_blocks` stays unused, and no block is given up
    /// where `new_size` is smaller.
    #[verifier::rlimit(40)]
    pub fn increase_size<D: BlockDevice>(
        &mut self,
        new_size: u32,
        new_blocks: Vec<u32>,
        cache: &mut BlockCacheManager<D>,
    )
        requires
            old(cache).inv(),
            old(self)@.wf(old(cache)@),
            blocks_for(new_size as int) <= INDIRECT2_BOUND,
            grow_need(old(self)@.size as int, new_size as int) <= new_blocks@.len(),
            grown(old(self)@, old(cache)@, new_size as int, new_blocks@).no_duplicates(),
            forall|p: int|
                0 <= p < grown(old(self)@, old(cache)@, new_size as int, new_blocks@).len()
                    ==> #[trigger] grown(
                    old(self)@,
                    old(cache)@,
                    new_size as int,
                    new_blocks@,
                )[p] < old(cache)@.len(),
        ensures
            final(cache).inv(),
            final(cache).held() == old(cache).held(),
            final(cache)@.len() == old(cache)@.len(),
            final(self)@.size == new_size,
            final(self)@.nlink == old(self)@.nlink,
            final(self)@.dir == old(self)@.dir,
            final(self)@.wf(final(cache)@),
            final(self)@.blocks(final(cache)@) == grown(
                old(self)@,
                old(cache)@,
                new_size as int,
                new_blocks@,
            ).subrange(0, final(self)@.total()),
            forall|b: int|
                0 <= b < old(cache)@.len() && !has_index(
                    grown(old(self)@, old(cache)@, new_size as int, new_blocks@),
                    b,
                ) ==> #[trigger] final(cache)@[b] == old(cache)@[b],
            unused_kept(old(self)@, final(self)@),
            entries_kept(
                old(cache)@,
                final(cache)@,
                grown(old(self)@, old(cache)@, new_size as int, new_blocks@),
                old(self)@.total(),
                final(self)@.total(),
            ),
    {
        let ghost inode = self@;
        let ghost disk = cache@;
        let ghost exp = grown(inode, disk, new_size as int, new_blocks@);
        let ghost n0 = inode.nblocks();
        let ghost n1 = blocks_for(new_size as int);
        let ghost t0 = total_for(n0);
        let ghost t1 = total_for(n1);
        let mut current_blocks: u32 = self.data_blocks();
        self.size = new_size;
        let mut total_blocks: u32 = self.data_blocks();
        proof {
            assert(forall|p: int| 0 <= p < t0 ==> #[trigger] exp[p] == inode.slot(disk, p));
            lemma_entries_same(disk, exp, t0, t1);
        }
        if total_blocks <= current_blocks {
            proof {
                lemma_total_monotonic(n1, n0);
                assert forall|p: int| 0 <= p < t1 implies #[trigger] self@.slot(disk, p)
                    == exp[p] by {
                    assert(self@.slot(disk, p) == inode.slot(disk, p));
                }
                lemma_is_tree(self@, disk, exp);
                lemma_entries_kept(disk, cache@, exp, t0, t1);
            }
            return ;
        }
        proof {
            lemma_total_monotonic(n0, n1);
            assert(exp.len() == t1);
        }
        let mut idx: usize = 0;
        while current_blocks < total_blocks && current_blocks < INODE_DIRECT_COUNT as u32
            invariant
                self@.size == new_size,
                self@.nlink == inode.nlink,
                self@.dir == inode.dir,
                self@.direct.len() == INODE_DIRECT_COUNT,
                self@.indirect1 == inode.indirect1,
                self@.indirect2 == inode.indirect2,
                forall|k: int|
                    current_blocks <= k < INODE_DIRECT_COUNT ==> #[trigger] self@.direct[k]
                        == inode.direct[k],
                n0 == inode.nblocks(),
                t0 == total_for(n0),
                t1 == total_for(n1),
                n0 <= current_blocks <= total_blocks,
                total_blocks == n1,
                n1 <= INDIRECT2_BOUND,
                t1 - t0 <= new_blocks@.len(),
                exp == inode.blocks(disk) + new_blocks@.subrange(0, t1 - t0),
                exp.len() == t1,
                t0 <= t1,
                current_blocks <= INODE_DIRECT_COUNT ==> t0 + idx == current_blocks,
                current_blocks > INODE_DIRECT_COUNT ==> idx == 0 && current_blocks == n0,
                forall|p: int|
                    0 <= p < t0 + idx ==> #[trigger] self@.slot(disk, p) == exp[p],
            decreases total_blocks - current_blocks,
        {
            let ghost mid = self@;
            assert(total_for(n1) > current_blocks);
            let b: u32 = new_blocks[idx];
            self.direct[current_blocks as usize] = b;
            proof {
                assert(exp[current_blocks as int] == b);
                assert forall|p: int| 0 <= p < t0 + idx + 1 implies #[trigger] self@.slot(disk, p)
                    == exp[p] by {
                    if p < t0 + idx {
                        assert(mid.slot(disk, p) == exp[p]);
                    }
                }
            }
            current_blocks += 1;
            idx += 1;
        }
        if total_blocks <= INODE_DIRECT_COUNT as u32 {
            proof {
                lemma_is_tree(self@, disk, exp);
                lemma_entries_kept(disk, cache@, exp, t0, t1);
            }
            return ;
        }
        if current_blocks == INODE_DIRECT_COUNT as u32 {
            let ghost mid = self@;
            assert(t1 > 27);
            self.indirect1 = new_blocks[idx];
            proof {
                assert(exp[27] == new_blocks@[idx as int]);
                assert forall|p: int| 0 <= p < 28 implies #[trigger] self@.slot(disk, p)
                    == exp[p] by {
                    if p < 27 {
                        assert(mid.slot(disk, p) == exp[p]);
                    }
                }
            }
            idx += 1;
        }
        current_blocks -= INODE_DIRECT_COUNT as u32;
        total_blocks -= INODE_DIRECT_COUNT as u32;
        proof {
            lemma_entries_same(disk, exp, t0, t0 + idx);
        }
        while current_blocks < total_blocks && current_blocks < INODE_INDIRECT1_COUNT as u32
            invariant
                cache.inv(),
                cache.held() == old(cache).held(),
                cache@.len() == disk.len(),
                disk == old(cache)@,
                self@.size == new_size,
                self@.nlink == inode.nlink,
                self@.dir == inode.dir,
                self@.direct.len() == INODE_DIRECT_COUNT,
                self@.indirect2 == inode.indirect2,
                n0 == inode.nblocks(),
                t0 == total_for(n0),
                t1 == total_for(n1),
                n0 <= current_blocks + 27,
                current_blocks <= total_blocks,
                total_blocks + 27 == n1,
                n1 <= INDIRECT2_BOUND,
                t1 - t0 <= new_blocks@.len(),
                exp == inode.blocks(disk) + new_blocks@.subrange(0, t1 - t0),
                exp.len() == t1,
                exp.no_duplicates(),
                forall|p: int| 0 <= p < t1 ==> #[trigger] exp[p] < disk.len(),
                t0 <= t1,
                total_blocks > 0,
                current_blocks <= INODE_INDIRECT1_COUNT ==> t0 + idx == 28 + current_blocks,
                current_blocks > INODE_INDIRECT1_COUNT ==> idx == 0 && current_blocks + 27 == n0,
                forall|p: int|
                    0 <= p < t0 + idx ==> #[trigger] self@.slot(cache@, p) == exp[p],
                forall|b: int|
                    0 <= b < disk.len() && !has_index(exp, b) ==> #[trigger] cache@[b] == disk[b],
                filled_upto(disk, cache@, exp, t0, t0 + idx),
            decreases total_blocks - current_blocks,
        {
            let ghost mid = cache@;
            proof {
                assert(self@.slot(mid, 27) == exp[27]);
                assert(exp[27] < disk.len());
                assert(t1 > 28 + current_blocks);
            }
            let b: u32 = new_blocks[idx];
            Self::set_index_entry(self.indirect1, current_blocks as usize, b, cache);
            proof {
                assert(exp[t0 + idx] == b);
                lemma_fill(self@, mid, cache@, exp, 27, current_blocks as int);
                lemma_frame(disk, mid, cache@, exp, 27);
                lemma_entry_filled(disk, mid, cache@, exp, t0, 27, current_blocks as int);
            }
            current_blocks += 1;
            idx += 1;
        }
        if total_blocks <= INODE_INDIRECT1_COUNT as u32 {
            proof {
                lemma_is_tree(self@, cache@, exp);
                lemma_entries_kept(disk, cache@, exp, t0, t1);
            }
            return ;
        }
        if current_blocks == INODE_INDIRECT1_COUNT as u32 {
            let ghost mid = self@;
            assert(t1 > 156);
            self.indirect2 = new_blocks[idx];
            proof {
                assert(exp[156] == new_blocks@[idx as int]);
                assert forall|p: int| 0 <= p < 157 implies #[trigger] self@.slot(cache@, p)
                    == exp[p] by {
                    if p < 156 {
                        assert(mid.slot(cache@, p) == exp[p]);
                    }
                }
                lemma_entries_more(disk, cache@, exp, t0, t0 + idx, t0 + idx + 1);
            }
            idx += 1;
        }
        current_blocks -= INODE_INDIRECT1_COUNT as u32;
        total_blocks -= INODE_INDIRECT1_COUNT as u32;
        let mut a0: usize = current_blocks as usize / INODE_INDIRECT1_COUNT;
        let mut b0: usize = current_blocks as usize % INODE_INDIRECT1_COUNT;
        let a1: usize = total_blocks as usize / INODE_INDIRECT1_COUNT;
        let b1: usize = total_blocks as usize % INODE_INDIRECT1_COUNT;
        while a0 < a1 || (a0 == a1 && b0 < b1)
            invariant
                cache.inv(),
                cache.held() == old(cache).held(),
                cache@.len() == disk.len(),
                disk == old(cache)@,
                self@.size == new_size,
                self@.nlink == inode.nlink,
                self@.dir == inode.dir,
                self@.direct.len() == INODE_DIRECT_COUNT,
                t0 == total_for(n0),
                t1 == total_for(n1),
                n0 == inode.nblocks(),
                n1 == 155 + 128 * a1 + b1,
                128 * a0 + b0 <= 128 * a1 + b1,
                0 < 128 * a1 + b1,
                b0 < 128,
                b1 < 128,
                n1 <= INDIRECT2_BOUND,
                t1 - t0 <= new_blocks@.len(),
                exp == inode.blocks(disk) + new_blocks@.subrange(0, t1 - t0),
                exp.len() == t1,
                exp.no_duplicates(),
                forall|p: int| 0 <= p < t1 ==> #[trigger] exp[p] < disk.len(),
                t0 <= t1,
                t0 + idx == 157 + 129 * a0 + (if b0 == 0 {
                    0int
                } else {
                    1 + b0
                }),
                forall|p: int|
                    0 <= p < t0 + idx ==> #[trigger] self@.slot(cache@, p) == exp[p],
                forall|b: int|
                    0 <= b < disk.len() && !has_index(exp, b) ==> #[trigger] cache@[b] == disk[b],
                filled_upto(disk, cache@, exp, t0, t0 + idx),
            decreases 128 * a1 + b1 - (128 * a0 + b0),
        {
            let ghost c = 155 + 128 * a0 + b0;
            proof {
                assert(self@.slot(cache@, 156) == exp[156]);
                assert(c < n1);
                assert(total_for(n1) >= total_for(c + 1)) by {
                    lemma_total_monotonic(c + 1, n1);
                }
                assert(total_for(c + 1) == 158 + 129 * a0 + b0 + 1) by {
                    assert((c + 1 - 155 + 127) / 128 == a0 + 1);
                }
                assert(a0 < 128);
            }
            if b0 == 0 {
                let ghost mid = cache@;
                let b: u32 = new_blocks[idx];
                Self::set_index_entry(self.indirect2, a0, b, cache);
                proof {
                    assert(exp[t0 + idx] == b);
                    lemma_fill(self@, mid, cache@, exp, 156, a0 as int);
                    lemma_frame(disk, mid, cache@, exp, 156);
                    lemma_entry_filled(disk, mid, cache@, exp, t0, 156, a0 as int);
                }
                idx += 1;
            }
            let ghost h = 157 + 129 * a0;
            proof {
                assert((h - 157) % 129 == 0 && (h - 157) / 129 == a0 as int);
                assert(self@.slot(cache@, h) == exp[h]);
                assert(self@.slot(cache@, 156) == exp[156]);
                assert(exp[156] < disk.len());
                assert(exp[h] < disk.len());
            }
            let low: u32 = Self::index_entry(self.indirect2, a0, cache);
            let ghost mid = cache@;
            let b: u32 = new_blocks[idx];
            Self::set_index_entry(low, b0, b, cache);
            proof {
                assert(exp[t0 + idx] == b);
                lemma_fill(self@, mid, cache@, exp, h, b0 as int);
                lemma_frame(disk, mid, cache@, exp, h);
                lemma_entry_filled(disk, mid, cache@, exp, t0, h, b0 as int);
            }
            idx += 1;
            b0 += 1;
            if b0 == INODE_INDIRECT1_COUNT {
                b0 = 0;
                a0 += 1;
            }
        }
        proof {
            assert(a0 == a1 && b0 == b1);
            if b1 == 0 {
                assert((n1 - 155 + 127) / 128 == a1 as int);
            } else {
                assert((n1 - 155 + 127) / 128 == a1 + 1);
            }
            assert(t0 + idx == t1);
            lemma_is_tree(self@, cache@, exp);
            lemma_entries_kept(disk, cache@, exp, t0, t1);
        }
    }

    /// Clears the size to zero and gives the blocks that should be
    /// deallocated, index blocks included.
    pub fn clear_size<D: BlockDevice>(&mut self, cache: &mut BlockCacheManager<D>) -> (r: Vec<u32>)
        requires
            old(cache).inv(),
            old(self)@.in_range(old(cache)@),
        ensures
            final(cache).inv(),
            final(cache)@ == old(cache)@,
            final(cache).held() == old(cache).held(),
            r@ == old(self)@.blocks(old(cache)@),
            final(self)@ == old(self)@.cleared(),
    {
        let ghost inode = self@;
        let ghost disk = cache@;
        let ghost n = inode.nblocks();
        let ghost t = inode.total();
        let ghost all = inode.blocks(disk);
        let mut v: Vec<u32> = Vec::new();
        let mut data_blocks: usize = self.data_blocks() as usize;
        self.size = 0;
        let mut current_blocks: usize = 0;
        while current_blocks < data_blocks && current_blocks < INODE_DIRECT_COUNT
            invariant
                current_blocks <= data_blocks,
                current_blocks <= INODE_DIRECT_COUNT,
                data_blocks == n,
                n == inode.nblocks(),
                t == inode.total(),
                all == inode.blocks(disk),
                inode.direct.len() == 27,
                self@ == (InodeData { size: 0, direct: self@.direct, ..inode }),
                self@.direct.len() == 27,
                forall|k: int|
                    0 <= k < 27 ==> #[trigger] self@.direct[k] == if k < current_blocks {
                        0
                    } else {
                        inode.direct[k]
                    },
                v@.len() == current_blocks,
                v@ =~= all.subrange(0, v@.len() as int),
            decreases data_blocks - current_blocks,
        {
            assert(all[current_blocks as int] == inode.slot(disk, current_blocks as int));
            v.push(self.direct[current_blocks]);
            self.direct[current_blocks] = 0;
            current_blocks += 1;
        }
        assert(self@.direct =~= inode.cleared().direct);
        if data_blocks <= INODE_DIRECT_COUNT {
            assert(v@ =~= all);
            return v;
        }
        assert(all[27] == inode.slot(disk, 27));
        v.push(self.indirect1);
        data_blocks -= INODE_DIRECT_COUNT;
        current_blocks = 0;
        assert(inode.slot(disk, 27) < disk.len());
        while current_blocks < data_blocks && current_blocks < INODE_INDIRECT1_COUNT
            invariant
                cache.inv(),
                cache@ == disk,
                cache.held() == old(cache).held(),
                current_blocks <= data_blocks,
                current_blocks <= INODE_INDIRECT1_COUNT,
                data_blocks + 27 == n,
                n == inode.nblocks(),
                t == inode.total(),
                all == inode.blocks(disk),
                self@.indirect1 == inode.indirect1,
                inode.indirect1 < disk.len(),
                v@.len() == 28 + current_blocks,
                28 + current_blocks <= t,
                data_blocks > 0,
                v@ =~= all.subrange(0, v@.len() as int),
            decreases data_blocks - current_blocks,
        {
            assert(all[28 + current_blocks] == inode.slot(disk, 28 + current_blocks));
            let e: u32 = Self::index_entry(self.indirect1, current_blocks, cache);
            v.push(e);
            current_blocks += 1;
        }
        self.indirect1 = 0;
        if data_blocks <= INODE_INDIRECT1_COUNT {
            assert(v@ =~= all);
            return v;
        }
        assert(all[156] == inode.slot(disk, 156));
        assert(inode.slot(disk, 156) < disk.len());
        v.push(self.indirect2);
        data_blocks -= INODE_INDIRECT1_COUNT;
        let a1: usize = data_blocks / INODE_INDIRECT1_COUNT;
        let b1: usize = data_blocks % INODE_INDIRECT1_COUNT;
        proof {
            if b1 == 0 {
                assert((n - 155 + 127) / 128 == a1 as int);
                assert(t == 157 + 129 * a1);
            } else {
                assert((n - 155 + 127) / 128 == a1 + 1);
                assert(t == 158 + 129 * a1 + b1);
            }
        }
        let mut a: usize = 0;
        while a < a1
            invariant
                cache.inv(),
                cache@ == disk,
                cache.held() == old(cache).held(),
                a <= a1,
                a1 <= 128,
                157 + 129 * a1 <= t,
                t == inode.total(),
                inode.in_range(disk),
                all == inode.blocks(disk),
                self@.indirect2 == inode.indirect2,
                inode.indirect2 < disk.len(),
                v@.len() == 157 + 129 * a,
                v@ =~= all.subrange(0, v@.len() as int),
            decreases a1 - a,
        {
            Self::collect_low(Ghost(inode), self.indirect2, a, INODE_INDIRECT1_COUNT, &mut v, cache);
            a += 1;
        }
        if b1 > 0 {
            Self::collect_low(Ghost(inode), self.indirect2, a1, b1, &mut v, cache);
        }
        assert(v@ =~= all);
        self.indirect2 = 0;
        v
    }

    /// Adds to `v` index block `a` of the second level and the first `count`
    /// data blocks below it.
    fn collect_low<D: BlockDevice>(
        Ghost(inode): Ghost<InodeData>,
        indirect2: u32,
        a: usize,
        count: usize,
        v: &mut Vec<u32>,
        cache: &mut BlockCacheManager<D>,
    )
        requires
            old(cache).inv(),
            inode.in_range(old(cache)@),
            indirect2 == inode.indirect2,
            inode.indirect2 < old(cache)@.len(),
            a < 128,
            0 < count <= 128,
            old(v)@.len() == 157 + 129 * a,
            158 + 129 * a + count <= inode.total(),
            old(v)@ == inode.blocks(old(cache)@).subrange(0, old(v)@.len() as int),
        ensures
            final(cache).inv(),
            final(cache)@ == old(cache)@,
            final(cache).held() == old(cache).held(),
            final(v)@.len() == 158 + 129 * a + count,
            final(v)@ == inode.blocks(old(cache)@).subrange(0, final(v)@.len() as int),
    {
        let ghost disk = cache@;
        let ghost all = inode.blocks(disk);
        let ghost h = 157 + 129 * a;
        let e: u32 = Self::index_entry(indirect2, a, cache);
        proof {
            assert((h - 157) % 129 == 0 && (h - 157) / 129 == a as int);
            assert(inode.slot(disk, h) == e);
            assert(all[h] == e);
            assert(inode.slot(disk, h) < disk.len());
        }
        v.push(e);
        let mut b: usize = 0;
        while b < count
            invariant
                cache.inv(),
                cache@ == disk,
                cache.held() == old(cache).held(),
                b <= count,
                count <= 128,
                h == 157 + 129 * a,
                h + 1 + count <= inode.total(),
                e == entry(disk, inode.indirect2, a as int),
                e < disk.len(),
                all == inode.blocks(disk),
                v@.len() == h + 1 + b,
                v@ =~= all.subrange(0, v@.len() as int),
            decreases count - b,
        {
            proof {
                let p = h + 1 + b;
                assert((p - 157) / 129 == a as int && (p - 157) % 129 == b + 1);
                assert(all[p] == inode.slot(disk, p));
            }
            let x: u32 = Self::index_entry(e, b, cache);
            v.push(x);
            b += 1;
        }
    }
}

/// Blocks that an inode of `size` bytes needs before it can hold `new_size`.
pub open spec fn grow_need(size: int, new_size: int) -> int {
    if new_size >= size {
        total_for(blocks_for(new_size)) - total_for(blocks_for(size))
    } else {
        0
    }
}

/// The blocks of `inode`, then those of `new_blocks` that growing takes.
pub open spec fn grown(
    inode: InodeData,
    disk: Seq<Seq<u8>>,
    new_size: int,
    new_blocks: Seq<u32>,
) -> Seq<u32> {
    inode.blocks(disk) + new_blocks.subrange(0, grow_need(inode.size as int, new_size))
}

/// Whether `b` stands at the position of an index block.
pub open spec fn has_index(blocks: Seq<u32>, b: int) -> bool {
    exists|p: int| 0 <= p < blocks.len() && index_pos(p) && #[trigger] blocks[p] == b
}

/// Where entry `e` of the index block at position `h` points to.
pub open spec fn child_pos(h: int, e: int) -> int {
    if h == 156 {
        157 + 129 * e
    } else {
        h + 1 + e
    }
}

/// The places for blocks in `i1` that its size does not use are as in `i0`.
pub open spec fn unused_kept(i0: InodeData, i1: InodeData) -> bool {
    &&& forall|k: int|
        i1.nblocks() <= k < INODE_DIRECT_COUNT ==> #[trigger] i1.direct[k] == i0.direct[k]
    &&& i1.nblocks() <= DIRECT_BOUND ==> i1.indirect1 == i0.indirect1
    &&& i1.nblocks() <= INDIRECT1_BOUND ==> i1.indirect2 == i0.indirect2
}

/// The entries of the index blocks among `blocks` are the same on both disks,
/// except those that point to the positions from `from` to before `to`.
pub open spec fn entries_kept(
    d0: Seq<Seq<u8>>,
    d1: Seq<Seq<u8>>,
    blocks: Seq<u32>,
    from: int,
    to: int,
) -> bool {
    forall|h: int, e: int|
        0 <= h < blocks.len() && index_pos(h) && 0 <= e < INODE_INDIRECT1_COUNT && !(from
            <= child_pos(h, e) < to) ==> #[trigger] entry(d1, blocks[h], e) == entry(
            d0,
            blocks[h],
            e,
        )
}

/// `entries_kept`, told apart while entries are filled.
#[verifier::opaque]
spec fn filled_upto(
    d0: Seq<Seq<u8>>,
    d1: Seq<Seq<u8>>,
    blocks: Seq<u32>,
    from: int,
    to: int,
) -> bool {
    entries_kept(d0, d1, blocks, from, to)
}

proof fn lemma_entries_same(disk: Seq<Seq<u8>>, blocks: Seq<u32>, from: int, to: int)
    ensures
        filled_upto(disk, disk, blocks, from, to),
{
    reveal(filled_upto);
}

proof fn lemma_entries_more(
    d0: Seq<Seq<u8>>,
    d1: Seq<Seq<u8>>,
    blocks: Seq<u32>,
    from: int,
    to: int,
    more: int,
)
    requires
        filled_upto(d0, d1, blocks, from, to),
        to <= more,
    ensures
        filled_upto(d0, d1, blocks, from, more),
{
    reveal(filled_upto);
}

/// One more entry was filled.
proof fn lemma_entry_filled(
    d0: Seq<Seq<u8>>,
    d1: Seq<Seq<u8>>,
    d2: Seq<Seq<u8>>,
    exp: Seq<u32>,
    from: int,
    h: int,
    e: int,
)
    requires
        d1.len() == d2.len(),
        0 <= h < exp.len(),
        index_pos(h),
        0 <= e < 128,
        from <= child_pos(h, e),
        exp.no_duplicates(),
        forall|p: int| 0 <= p < exp.len() ==> #[trigger] exp[p] < d1.len(),
        filled_upto(d0, d1, exp, from, child_pos(h, e)),
        forall|b: int| 0 <= b < d1.len() && b != exp[h] ==> #[trigger] d2[b] == d1[b],
        forall|j: int|
            0 <= j < 128 && j != e ==> #[trigger] entry(d2, exp[h], j) == entry(d1, exp[h], j),
    ensures
        filled_upto(d0, d2, exp, from, child_pos(h, e) + 1),
{
    reveal(filled_upto);
    let to = child_pos(h, e);
    assert forall|g: int, j: int|
        0 <= g < exp.len() && index_pos(g) && 0 <= j < INODE_INDIRECT1_COUNT && !(from <= child_pos(
            g,
            j,
        ) < to + 1) implies #[trigger] entry(d2, exp[g], j) == entry(d0, exp[g], j) by {
        assert(entry(d1, exp[g], j) == entry(d0, exp[g], j));
        if g != h {
            assert(exp[g] != exp[h]);
            assert(exp[g] < d1.len());
        }
    }
}

proof fn lemma_entries_kept(
    d0: Seq<Seq<u8>>,
    d1: Seq<Seq<u8>>,
    blocks: Seq<u32>,
    from: int,
    to: int,
)
    requires
        filled_upto(d0, d1, blocks, from, to),
    ensures
        entries_kept(d0, d1, blocks, from, to),
{
    reveal(filled_upto);
}

/// An inode whose positions hold distinct blocks of the disk is a tree.
proof fn lemma_is_tree(inode: InodeData, disk: Seq<Seq<u8>>, exp: Seq<u32>)
    requires
        inode.direct.len() == INODE_DIRECT_COUNT,
        inode.nblocks() <= INDIRECT2_BOUND,
        inode.total() <= exp.len(),
        exp.no_duplicates(),
        forall|p: int| 0 <= p < exp.len() ==> #[trigger] exp[p] < disk.len(),
        forall|p: int| 0 <= p < inode.total() ==> #[trigger] inode.slot(disk, p) == exp[p],
    ensures
        inode.wf(disk),
        inode.blocks(disk) == exp.subrange(0, inode.total()),
{
    assert(inode.blocks(disk) =~= exp.subrange(0, inode.total()));
    assert forall|p: int| 0 <= p < inode.total() implies (#[trigger] inode.slot(disk, p))
        < disk.len() by {
        assert(exp[p] < disk.len());
    }
    assert forall|p: int, q: int| 0 <= p < q < inode.total() implies #[trigger] inode.slot(disk, p)
        != #[trigger] inode.slot(disk, q) by {
        assert(exp[p] != exp[q]);
    }
}

/// Filling the next entry of an index block adds one position and keeps the
/// ones before it.
proof fn lemma_fill(
    inode: InodeData,
    d1: Seq<Seq<u8>>,
    d2: Seq<Seq<u8>>,
    exp: Seq<u32>,
    h: int,
    e: int,
)
    requires
        0 <= e < 128,
        index_pos(h),
        h < child_pos(h, e) < exp.len(),
        exp.no_duplicates(),
        forall|p: int| 0 <= p < exp.len() ==> #[trigger] exp[p] < d1.len(),
        d1.len() == d2.len(),
        forall|p: int|
            0 <= p < child_pos(h, e) ==> #[trigger] inode.slot(d1, p) == exp[p],
        forall|b: int| 0 <= b < d1.len() && b != exp[h] ==> #[trigger] d2[b] == d1[b],
        forall|j: int|
            0 <= j < 128 ==> #[trigger] entry(d2, exp[h], j) == if j == e {
                exp[child_pos(h, e)]
            } else {
                entry(d1, exp[h], j)
            },
    ensures
        forall|p: int|
            0 <= p <= child_pos(h, e) ==> #[trigger] inode.slot(d2, p) == exp[p],
{
    let f = child_pos(h, e);
    assert forall|p: int| 0 <= p <= f implies #[trigger] inode.slot(d2, p) == exp[p] by {
        if p < f {
            assert(inode.slot(d1, p) == exp[p]);
        }
        if p > 27 {
            assert(inode.slot(d1, 27) == exp[27]);
            if h != 27 {
                assert(exp[27] != exp[h]);
            }
        }
        if p > 156 {
            assert(inode.slot(d1, 156) == exp[156]);
            let a = (p - 157) / 129;
            let g = 157 + 129 * a;
            assert((g - 157) % 129 == 0 && (g - 157) / 129 == a);
            if h != 156 {
                assert(exp[156] != exp[h]);
            }
            if g < p {
                assert(inode.slot(d1, g) == exp[g]);
                assert(exp[g] == entry(d1, inode.indirect2, a));
                assert(h != 156 || a != e);
                assert(entry(d2, inode.indirect2, a) == entry(d1, inode.indirect2, a));
                if g != h {
                    assert(exp[g] != exp[h]);
                }
            }
        }
    }
}

/// A write to an index block leaves the other kinds of blocks alone.
proof fn lemma_frame(d0: Seq<Seq<u8>>, d1: Seq<Seq<u8>>, d2: Seq<Seq<u8>>, exp: Seq<u32>, h: int)
    requires
        d0.len() == d1.len() == d2.len(),
        0 <= h < exp.len(),
        index_pos(h),
        forall|b: int| 0 <= b < d0.len() && !has_index(exp, b) ==> #[trigger] d1[b] == d0[b],
        forall|b: int| 0 <= b < d1.len() && b != exp[h] ==> #[trigger] d2[b] == d1[b],
    ensures
        forall|b: int| 0 <= b < d0.len() && !has_index(exp, b) ==> #[trigger] d2[b] == d0[b],
{
    assert forall|b: int| 0 <= b < d0.len() && !has_index(exp, b) implies #[trigger] d2[b]
        == d0[b] by {
        assert(b != exp[h]);
        assert(d1[b] == d0[b]);
    }
}

/// A data block stands behind all blocks that fewer data blocks take.
pub proof fn lemma_data_pos_new(n: int, k: int)
    requires
        0 <= n <= k,
    ensures
        total_for(n) <= data_pos(k),
{
    if n > INDIRECT1_BOUND {
        let a = (k - 155) / 128;
        assert((n - 155 + 127) / 128 <= a + 1);
    }
}

/// More data blocks take no fewer blocks.
pub proof fn lemma_total_monotonic(m: int, n: int)
    requires
        0 <= m <= n,
    ensures
        total_for(m) <= total_for(n),
{
}

} // verus!
