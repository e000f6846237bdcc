//! The file system: the areas on disk put together.
use super::bitmap;
use super::bitmap::Bitmap;
use super::block_cache;
use super::block_cache::{BlockCacheManager, DiskRecord};
use super::block_dev::BlockDevice;
use super::bytes;
use super::disk_inode::{DiskInode, DiskInodeType, InodeData};
use super::super_block::{SuperBlock, EFS_MAGIC};
use super::vfs::Inode;
use super::volume;
use super::volume::FileData;
use super::BLOCK_SZ;
use vstd::prelude::*;

verus! {

/// Bytes of an inode on disk.
pub const INODE_SZ: usize = 128;

/// A file system over a block device.
pub struct EasyFileSystem<D: BlockDevice> {
    /// The device, behind its cache.
    pub cache: BlockCacheManager<D>,
    /// Inode bitmap.
    pub inode_bitmap: Bitmap,
    /// Data bitmap.
    pub data_bitmap: Bitmap,
    /// The first block of the inode area.
    pub inode_area_start_block: u32,
    /// The first block of the data area.
    pub data_area_start_block: u32,
}

impl<D: BlockDevice> View for EasyFileSystem<D> {
    type V = Map<int, FileData>;

    /// The files and directories by inode number.
    open spec fn view(&self) -> Map<int, FileData> {
        self.sb().files(self.cache@)
    }
}

/// The block and the offset in it of inode `i`, where the inode area starts at
/// block `start`.
pub open spec fn inode_pos(start: int, i: int) -> (int, int) {
    (start + i / 4, i % 4 * INODE_SZ)
}

/// The inode at an offset of a block.
pub open spec fn inode_at(start: int, block_id: int, block_offset: int) -> int {
    (block_id - start) * 4 + block_offset / (INODE_SZ as int)
}

/// An inode is found again from its place, and two inodes never share one.
pub proof fn lemma_inode_place(start: int, i: int)
    requires
        0 <= i,
    ensures
        inode_at(start, inode_pos(start, i).0, inode_pos(start, i).1) == i,
        start <= inode_pos(start, i).0,
        inode_pos(start, i).1 + INODE_SZ <= BLOCK_SZ,
{
    assert((i % 4 * 128) / 128 == i % 4);
}

/// The super block of a new file system.
pub open spec fn new_super_block(total_blocks: u32, inode_bitmap_blocks: u32) -> SuperBlock {
    let inode_area_blocks = inode_bitmap_blocks * 1024;
    let data_total = total_blocks - 1 - inode_bitmap_blocks - inode_area_blocks;
    let data_bitmap_blocks = (data_total + 4096) / 4097;
    SuperBlock {
        magic: EFS_MAGIC,
        total_blocks,
        inode_bitmap_blocks,
        inode_area_blocks: inode_area_blocks as u32,
        data_bitmap_blocks: data_bitmap_blocks as u32,
        data_area_blocks: (data_total - data_bitmap_blocks) as u32,
    }
}

/// The disk after a file system was made on it: the super block, the bit of
/// inode 0 and its record, and zeros everywhere else in the file system.
pub open spec fn new_disk(before: Seq<Seq<u8>>, sb: SuperBlock) -> Seq<Seq<u8>> {
    Seq::new(
        before.len(),
        |b: int|
            if b == 0 {
                bytes::splice(bytes::zeros(512), 0, SuperBlock::stored(sb, bytes::zeros(24)))
            } else if b == 1 {
                bytes::splice(bytes::zeros(512), 0, seq![1u8])
            } else if b == sb.inode_area() {
                bytes::splice(
                    bytes::zeros(512),
                    0,
                    DiskInode::stored(InodeData::initial(true), bytes::zeros(128)),
                )
            } else if b < sb.total_blocks {
                bytes::zeros(512)
            } else {
                before[b]
            },
    )
}

/// The first bit of a block of zeros is set.
proof fn lemma_first_bit()
    ensures
        bitmap::block_with(bytes::zeros(512), 0, true) == bytes::splice(
            bytes::zeros(512),
            0,
            seq![1u8],
        ),
{
    let zero = bytes::zeros(512);
    bytes::lemma_zero_long(zero, 0);
    let w = bytes::u64_at(zero, 0);
    assert(w == 0);
    assert(0u64 | (1u64 << 0u64) == 1u64) by (bit_vector);
    assert((1u64 & 0xff) as u8 == 1u8 && ((1u64 >> 8) & 0xff) as u8 == 0u8 && ((1u64 >> 16) & 0xff)
        as u8 == 0u8 && ((1u64 >> 24) & 0xff) as u8 == 0u8 && ((1u64 >> 32) & 0xff) as u8 == 0u8
        && ((1u64 >> 40) & 0xff) as u8 == 0u8 && ((1u64 >> 48) & 0xff) as u8 == 0u8 && ((1u64 >> 56)
        & 0xff) as u8 == 0u8) by (bit_vector);
    vstd::bytes::spec_u64_to_le_bytes_to_open(1u64);
    assert(bytes::u64_bytes(1u64) =~= seq![1u8, 0u8, 0u8, 0u8, 0u8, 0u8, 0u8, 0u8]);
    assert(bitmap::block_with(zero, 0, true) =~= bytes::splice(zero, 0, seq![1u8]));
}

/// A disk with a super block and nothing but zeros behind it holds no file.
proof fn lemma_blank(sb: SuperBlock, disk: Seq<Seq<u8>>)
    requires
        sb.valid(),
        sb.fits(disk),
        SuperBlock::parse(disk[0].subrange(0, 24)) == sb,
        forall|b: int|
            1 <= b < sb.data_area() + sb.data_area_blocks ==> #[trigger] disk[b] == bytes::zeros(
                512,
            ),
    ensures
        sb.holds(disk),
        sb.files(disk) == Map::<int, FileData>::empty(),
        sb.free_blocks(disk) == sb.data_area_blocks,
        sb.free_inodes(disk) == sb.inodes(),
        forall|i: int| 0 <= i < sb.inodes() ==> !#[trigger] bitmap::bit(disk, 1, i),
{
    sb.lemma_places(disk);
    assert forall|i: int| 0 <= i < sb.inodes() implies !#[trigger] bitmap::bit(disk, 1, i) by {
        assert(1 + i / 4096 < sb.inode_area());
        assert(disk[1 + i / 4096] == bytes::zeros(512));
        bitmap::lemma_zero_block(disk[1 + i / 4096], i % 4096);
    }
    assert forall|i: int| 0 <= i < sb.data_area_blocks implies !#[trigger] bitmap::bit(
        disk,
        sb.data_bitmap(),
        i,
    ) by {
        assert(i / 4096 < sb.data_bitmap_blocks);
        assert(disk[sb.data_bitmap() + i / 4096] == bytes::zeros(512));
        bitmap::lemma_zero_block(disk[sb.data_bitmap() + i / 4096], i % 4096);
    }
    assert forall|i: int| 0 <= i < sb.inodes() && !sb.used(
        disk,
        i,
    ) implies #[trigger] sb.inode_bytes(disk, i) == bytes::zeros(128) by {
        assert(disk[sb.inode_block(i)] == bytes::zeros(512));
        assert(sb.inode_bytes(disk, i) =~= bytes::zeros(128));
    }
    assert(sb.files(disk) =~= Map::<int, FileData>::empty());
    lemma_all_clear(disk, 1, sb.inodes());
    lemma_all_clear(disk, sb.data_bitmap(), sb.data_area_blocks as int);
}

proof fn lemma_all_clear(disk: Seq<Seq<u8>>, start: int, n: int)
    requires
        0 <= n,
        forall|i: int| 0 <= i < n ==> !#[trigger] bitmap::bit(disk, start, i),
    ensures
        volume::clear_bits(disk, start, n) == n,
    decreases n,
{
    if n > 0 {
        lemma_all_clear(disk, start, n - 1);
    }
}

impl<D: BlockDevice> EasyFileSystem<D> {
    /// The super block on disk.
    pub open spec fn sb(&self) -> SuperBlock {
        SuperBlock::parse(self.cache@[0].subrange(0, 24))
    }

    /// The bitmaps and areas lie where the super block says.
    pub open spec fn matches(&self, sb: SuperBlock) -> bool {
        &&& self.inode_bitmap.start() == 1
        &&& self.inode_bitmap.len() == sb.inode_bitmap_blocks
        &&& self.data_bitmap.start() == sb.data_bitmap()
        &&& self.data_bitmap.len() == sb.data_bitmap_blocks
        &&& self.inode_area_start_block == sb.inode_area()
        &&& self.data_area_start_block == sb.data_area()
    }

    /// The first block of the inode area.
    pub open spec fn inode_start(&self) -> int {
        self.inode_area_start_block as int
    }

    /// The first block of the data area.
    pub open spec fn data_start(&self) -> int {
        self.data_area_start_block as int
    }

    /// The device holds a file system, and this is it.
    pub open spec fn wf(&self) -> bool {
        &&& self.cache.inv()
        &&& self.sb().holds(self.cache@)
        &&& self.matches(self.sb())
    }

    /// The two are states of one file system: the areas lie at the same
    /// places, and the same cached blocks have users.
    pub open spec fn same(&self, other: &Self) -> bool {
        &&& self.sb() == other.sb()
        &&& self.inode_bitmap == other.inode_bitmap
        &&& self.data_bitmap == other.data_bitmap
        &&& self.inode_area_start_block == other.inode_area_start_block
        &&& self.data_area_start_block == other.data_area_start_block
        &&& self.cache.held() == other.cache.held()
        &&& self.cache@.len() == other.cache@.len()
    }

    /// The device holds what the cache does.
    pub open spec fn synced(&self) -> bool {
        self.cache.on_device() == self.cache@
    }

    /// Free data blocks.
    pub open spec fn free_blocks(&self) -> int {
        self.sb().free_blocks(self.cache@)
    }

    /// Free inodes.
    pub open spec fn free_inodes(&self) -> int {
        self.sb().free_inodes(self.cache@)
    }

    /// Nothing was written: the blocks are as before, and so are the files and
    /// what is free.
    pub open spec fn untouched(&self, before: &Self) -> bool {
        &&& self.cache@ == before.cache@
        &&& self@ == before@
        &&& self.free_blocks() == before.free_blocks()
        &&& self.free_inodes() == before.free_inodes()
        &&& before.synced() ==> self.synced()
    }

    /// Makes a file system of `total_blocks` blocks on the device, with a root
    /// directory and nothing in it. The rest of the device is left alone.
    pub fn create(device: D, total_blocks: u32, inode_bitmap_blocks: u32) -> (r: Self)
        requires
            block_cache::disk_wf(device.blocks()),
            total_blocks <= device.blocks().len() <= u32::MAX,
            1 <= inode_bitmap_blocks,
            1 + inode_bitmap_blocks * 1025 <= total_blocks,
            total_blocks - inode_bitmap_blocks * 1025 + 4095 <= u32::MAX,
            inode_bitmap_blocks * (bitmap::BLOCK_BITS as int) <= u32::MAX,
            inode_bitmap_blocks * (bitmap::BLOCK_BITS as int) * INODE_SZ + BLOCK_SZ <= usize::MAX,
        ensures
            r.wf(),
            r.sb() == new_super_block(total_blocks, inode_bitmap_blocks),
            r@ == Map::<int, FileData>::empty().insert(0, FileData::empty(true, 1)),
            r.free_blocks() == r.sb().data_area_blocks,
            r.free_inodes() == r.sb().inodes() - 1,
            r.synced(),
            r.cache@ == new_disk(device.blocks(), r.sb()),
    {
        let ghost before = device.blocks();
        let ghost sb = new_super_block(total_blocks, inode_bitmap_blocks);
        let inode_bitmap = Bitmap::new(1, inode_bitmap_blocks as usize);
        let inode_num: usize = inode_bitmap.maximum();
        let inode_area_blocks: u32 = ((inode_num * INODE_SZ + BLOCK_SZ - 1) / BLOCK_SZ) as u32;
        assert(inode_area_blocks == inode_bitmap_blocks * 1024);
        let inode_total_blocks: u32 = inode_bitmap_blocks + inode_area_blocks;
        let data_total_blocks: u32 = total_blocks - 1 - inode_total_blocks;
        let data_bitmap_blocks: u32 = (data_total_blocks + 4096) / 4097;
        let data_area_blocks: u32 = data_total_blocks - data_bitmap_blocks;
        let data_bitmap = Bitmap::new(
            (1 + inode_bitmap_blocks + inode_area_blocks) as usize,
            data_bitmap_blocks as usize,
        );
        let mut efs = EasyFileSystem {
            cache: BlockCacheManager::new(device),
            inode_bitmap,
            data_bitmap,
            inode_area_start_block: 1 + inode_bitmap_blocks,
            data_area_start_block: 1 + inode_total_blocks + data_bitmap_blocks,
        };
        Self::clear_blocks(&mut efs.cache, total_blocks);
        let ghost clear = efs.cache@;
        let mut super_block: SuperBlock = efs.cache.read_record(0, 0);
        super_block.initialize(
            total_blocks,
            inode_bitmap_blocks,
            inode_area_blocks,
            data_bitmap_blocks,
            data_area_blocks,
        );
        efs.cache.write_record(0, 0, &super_block);
        proof {
            efs.cache.lemma_wf();
            SuperBlock::lemma_read_back(sb, clear[0].subrange(0, 24));
            assert(efs.cache@[0].subrange(0, 24) =~= SuperBlock::stored(
                sb,
                clear[0].subrange(0, 24),
            ));
            assert(efs.sb() == sb);
            assert(sb.fits(efs.cache@));
            lemma_blank(sb, efs.cache@);
        }
        let ghost blank = efs.cache@;
        efs.create_root();
        proof {
            lemma_first_bit();
            assert(clear[0].subrange(0, 24) =~= bytes::zeros(24));
            assert(blank[sb.inode_area()].subrange(0, 128) =~= bytes::zeros(128));
            assert(efs.cache@ =~= new_disk(before, sb));
        }
        efs.cache.block_cache_sync_all();
        efs
    }

    /// Fills the first `n` blocks with zeros.
    fn clear_blocks(cache: &mut BlockCacheManager<D>, n: u32)
        requires
            old(cache).inv(),
            n <= old(cache)@.len() <= u32::MAX,
        ensures
            final(cache).inv(),
            final(cache)@.len() == old(cache)@.len(),
            forall|b: int| 0 <= b < n ==> #[trigger] final(cache)@[b] == bytes::zeros(512),
            forall|b: int|
                n <= b < old(cache)@.len() ==> #[trigger] final(cache)@[b] == old(cache)@[b],
    {
        let ghost before = cache@;
        let zero: Vec<u8> = vec![0u8; BLOCK_SZ];
        let mut i: u32 = 0;
        while i < n
            invariant
                i <= n,
                n <= before.len(),
                before.len() <= u32::MAX,
                zero@ =~= bytes::zeros(512),
                cache.inv(),
                cache@.len() == before.len(),
                forall|b: int| 0 <= b < i ==> #[trigger] cache@[b] == bytes::zeros(512),
                forall|b: int| i <= b < before.len() ==> #[trigger] cache@[b] == before[b],
            decreases n - i,
        {
            proof {
                cache.lemma_wf();
                assert(cache@[i as int].len() == 512);
            }
            cache.write_bytes(i as usize, 0, zero.as_slice());
            assert(cache@[i as int] =~= bytes::zeros(512));
            i += 1;
        }
    }

    /// Makes the root directory, which is inode 0, in a file system that holds
    /// nothing yet.
    fn create_root(&mut self)
        requires
            old(self).wf(),
            old(self)@ == Map::<int, FileData>::empty(),
            old(self).sb().inodes() > 0,
            old(self).free_inodes() == old(self).sb().inodes(),
        ensures
            final(self).wf(),
            final(self).sb() == old(self).sb(),
            final(self)@ == Map::<int, FileData>::empty().insert(0, FileData::empty(true, 1)),
            final(self).free_blocks() == old(self).free_blocks(),
            final(self).free_inodes() == old(self).free_inodes() - 1,
            final(self).cache@ == old(self).sb().with_inode(
                bitmap::with_bit(old(self).cache@, 1, 0, true),
                0,
                InodeData::initial(true),
            ),
    {
        let ghost sb = self.sb();
        let ghost d0 = self.cache@;
        let root: u32 = self.alloc_inode();
        proof {
            if root > 0 {
                assert(old(self)@.contains_key(0));
            }
            sb.lemma_places(d0);
            assert(1 + 0int / 4096 < sb.inode_area());
            bitmap::lemma_with_bit(d0, 1, 0, true);
        }
        let ghost d1 = self.cache@;
        assert(self@.contains_key(0));
        let (block_id, offset): (u32, usize) = self.get_disk_inode_pos(root);
        let mut inode: DiskInode = self.cache.read_record(block_id as usize, offset);
        inode.initialize(DiskInodeType::Directory);
        self.cache.write_record(block_id as usize, offset, &inode);
        proof {
            sb.lemma_commit(d1, d1, 0, inode@);
            sb.lemma_with_inode(d1, 0, inode@);
            assert(inode@.raw(d1) =~= Seq::<u8>::empty());
            assert(self.cache@ =~= sb.with_inode(d1, 0, inode@));
            assert(self.cache@[0] == d1[0]);
            assert(self@ =~= Map::<int, FileData>::empty().insert(0, FileData::empty(true, 1)));
        }
    }

    /// Opens the file system on a device, whose super block must be valid.
    pub fn open(device: D) -> (r: Self)
        requires
            block_cache::disk_wf(device.blocks()),
            0 < device.blocks().len(),
            SuperBlock::parse(device.blocks()[0].subrange(0, 24)).valid(),
            SuperBlock::parse(device.blocks()[0].subrange(0, 24)).data_area() <= u32::MAX,
        ensures
            r.cache.inv(),
            r.cache@ == device.blocks(),
            r.synced(),
            r.matches(r.sb()),
            r.sb().holds(device.blocks()) ==> r.wf(),
    {
        let mut cache = BlockCacheManager::new(device);
        let super_block: SuperBlock = cache.read_record(0, 0);
        proof {
            cache.lemma_wf();
        }
        let inode_total_blocks: u32 = super_block.inode_bitmap_blocks
            + super_block.inode_area_blocks;
        let inode_bitmap = Bitmap::new(1, super_block.inode_bitmap_blocks as usize);
        let data_bitmap = Bitmap::new(
            (1 + inode_total_blocks) as usize,
            super_block.data_bitmap_blocks as usize,
        );
        EasyFileSystem {
            cache,
            inode_bitmap,
            data_bitmap,
            inode_area_start_block: 1 + super_block.inode_bitmap_blocks,
            data_area_start_block: 1 + inode_total_blocks + super_block.data_bitmap_blocks,
        }
    }

    /// The root inode of the file system.
    pub fn root_inode(efs: &Self) -> (r: Inode)
        ensures
            r.block() == efs.inode_start(),
            r.offset() == 0,
    {
        let (block_id, block_offset): (u32, usize) = efs.get_disk_inode_pos(0);
        Inode::new(block_id, block_offset)
    }

    /// The block of an inode, and the offset in it.
    pub fn get_disk_inode_pos(&self, inode_id: u32) -> (r: (u32, usize))
        requires
            self.inode_start() + inode_id / 4 <= u32::MAX,
        ensures
            (r.0 as int, r.1 as int) == inode_pos(self.inode_start(), inode_id as int),
    {
        let inodes_per_block: u32 = (BLOCK_SZ / INODE_SZ) as u32;
        let block_id: u32 = self.inode_area_start_block + inode_id / inodes_per_block;
        (block_id, (inode_id % inodes_per_block) as usize * INODE_SZ)
    }

    /// The block of a data block, from its number in the data area.
    pub fn get_data_block_id(&self, data_block_id: u32) -> (r: u32)
        requires
            self.data_start() + data_block_id <= u32::MAX,
        ensures
            r == self.data_start() + data_block_id,
    {
        self.data_area_start_block + data_block_id
    }

    /// Allocates the first free inode; it is an empty file that nothing links
    /// to.
    pub fn alloc_inode(&mut self) -> (r: u32)
        requires
            old(self).wf(),
            old(self).free_inodes() > 0,
        ensures
            final(self).wf(),
            final(self).same(old(self)),
            r < old(self).sb().inodes(),
            !old(self)@.contains_key(r as int),
            forall|j: int| 0 <= j < r ==> #[trigger] old(self)@.contains_key(j),
            final(self)@ == old(self)@.insert(r as int, FileData::empty(false, 0)),
            final(self).free_inodes() == old(self).free_inodes() - 1,
            final(self).free_blocks() == old(self).free_blocks(),
            final(self).cache@ == bitmap::with_bit(old(self).cache@, 1, r as int, true),
            forall|b: int| #[trigger]
                old(self).sb().data_used(final(self).cache@, b) == old(self).sb().data_used(
                    old(self).cache@,
                    b,
                ),
            forall|j: int|
                old(self)@.contains_key(j) ==> #[trigger] old(self).sb().blocks_of(
                    final(self).cache@,
                    j,
                ) == old(self).sb().blocks_of(old(self).cache@, j),
    {
        let ghost sb = self.sb();
        let ghost disk = self.cache@;
        let ghost before = *self;
        let found: Option<usize> = self.inode_bitmap.alloc_bit(&mut self.cache);
        proof {
            let k = volume::lemma_clear_bits_some(disk, 1, sb.inodes());
            assert(!self.inode_bitmap.bit(disk, k));
            sb.lemma_places(disk);
        }
        let k: usize = found.unwrap();
        proof {
            sb.lemma_take_inode(disk, k as int);
            sb.lemma_take_inode_blocks(disk, k as int);
            assert(1 + k / 4096 < sb.inode_area());
            bitmap::lemma_with_bit(disk, 1, k as int, true);
            assert(self.cache@[0] == disk[0]);
            assert forall|j: int| 0 <= j < k implies #[trigger] old(self)@.contains_key(j) by {
                assert(self.inode_bitmap.bit(disk, j));
            }
        }
        k as u32
    }

    /// Gives an inode back: its bytes are zeroed, and it is marked as free.
    pub fn dealloc_inode(&mut self, inode_id: u32)
        requires
            old(self).wf(),
            old(self)@.contains_key(inode_id as int),
        ensures
            final(self).wf(),
            final(self).same(old(self)),
            final(self)@ == old(self)@.remove(inode_id as int),
            final(self).free_inodes() == old(self).free_inodes() + 1,
            final(self).free_blocks() == old(self).free_blocks(),
            ({
                let b = old(self).sb().inode_block(inode_id as int);
                final(self).cache@ == bitmap::with_bit(
                    old(self).cache@.update(
                        b,
                        bytes::splice(
                            old(self).cache@[b],
                            inode_id as int % 4 * 128,
                            bytes::zeros(128),
                        ),
                    ),
                    1,
                    inode_id as int,
                    false,
                )
            }),
            forall|b: int| #[trigger]
                old(self).sb().data_used(final(self).cache@, b) == old(self).sb().data_used(
                    old(self).cache@,
                    b,
                ),
    {
        let ghost sb = self.sb();
        let ghost disk = self.cache@;
        proof {
            sb.lemma_places(disk);
        }
        let (block_id, offset): (u32, usize) = self.get_disk_inode_pos(inode_id);
        let zero: Vec<u8> = vec![0u8; INODE_SZ];
        assert(zero@ =~= bytes::zeros(128));
        self.cache.write_bytes(block_id as usize, offset, zero.as_slice());
        let ghost mid = self.cache@;
        proof {
            assert(sb.inode_area() <= block_id < sb.data_bitmap());
            assert(1 + inode_id / 4096 < sb.inode_area());
            assert(mid[1 + inode_id as int / 4096] == disk[1 + inode_id as int / 4096]);
            assert(bitmap::bit(mid, 1, inode_id as int));
        }
        self.inode_bitmap.dealloc(&mut self.cache, inode_id as usize);
        proof {
            self.cache.lemma_wf();
            sb.lemma_give_inode(disk, self.cache@, inode_id as int);
            assert(block_cache::disk_wf(mid)) by {
                assert forall|b: int| 0 <= b < mid.len() implies (#[trigger] mid[b]).len()
                    == BLOCK_SZ by {}
            }
            bitmap::lemma_with_bit(mid, 1, inode_id as int, false);
            assert(self.cache@[0] == disk[0]);
        }
    }

    /// Allocates the first free data block, which holds zeros.
    pub fn alloc_data(&mut self) -> (r: u32)
        requires
            old(self).wf(),
            old(self).free_blocks() > 0,
        ensures
            final(self).wf(),
            final(self).same(old(self)),
            old(self).sb().data_area() <= r < old(self).sb().data_area() + old(
                self,
            ).sb().data_area_blocks,
            !old(self).sb().data_used(old(self).cache@, r as int),
            forall|b: int|
                old(self).sb().data_area() <= b < r ==> #[trigger] old(self).sb().data_used(
                    old(self).cache@,
                    b,
                ),
            final(self)@ == old(self)@,
            final(self).free_inodes() == old(self).free_inodes(),
            final(self).free_blocks() == old(self).free_blocks() - 1,
            final(self).cache@ == bitmap::with_bit(
                old(self).cache@,
                old(self).sb().data_bitmap(),
                r - old(self).sb().data_area(),
                true,
            ),
            final(self).cache@[r as int] == bytes::zeros(512),
    {
        let ghost sb = self.sb();
        let ghost disk = self.cache@;
        let found: Option<usize> = self.data_bitmap.alloc_bit(&mut self.cache);
        proof {
            let k = volume::lemma_clear_bits_some(
                disk,
                sb.data_bitmap(),
                sb.data_area_blocks as int,
            );
            assert(!self.data_bitmap.bit(disk, k));
        }
        let k: usize = found.unwrap();
        proof {
            sb.lemma_take_data(disk, k as int);
            assert(self.cache@[0] == disk[0]);
            assert forall|b: int|
                sb.data_area() <= b < sb.data_area() + k implies #[trigger] sb.data_used(
                disk,
                b,
            ) by {
                assert(self.data_bitmap.bit(disk, b - sb.data_area()));
            }
        }
        k as u32 + self.data_area_start_block
    }

    /// Gives a data block back: it is zeroed and marked as free. It must be in
    /// use, and belong to no inode any more.
    pub fn dealloc_data(&mut self, block_id: u32)
        requires
            old(self).wf(),
            old(self).sb().data_used(old(self).cache@, block_id as int),
            forall|j: int| #[trigger]
                old(self).sb().used(old(self).cache@, j) ==> !old(self).sb().owns(
                    old(self).cache@,
                    j,
                    block_id as int,
                ),
        ensures
            final(self).wf(),
            final(self).same(old(self)),
            final(self)@ == old(self)@,
            final(self).free_inodes() == old(self).free_inodes(),
            final(self).free_blocks() == old(self).free_blocks() + 1,
            final(self).cache@ == bitmap::with_bit(
                old(self).cache@.update(block_id as int, bytes::zeros(512)),
                old(self).sb().data_bitmap(),
                block_id - old(self).sb().data_area(),
                false,
            ),
    {
        let ghost sb = self.sb();
        let ghost disk = self.cache@;
        let zero: Vec<u8> = vec![0u8; BLOCK_SZ];
        self.cache.write_bytes(block_id as usize, 0, zero.as_slice());
        let ghost mid = self.cache@;
        proof {
            let k = block_id - sb.data_area();
            assert(disk[block_id as int].len() == 512);
            assert(mid[block_id as int] =~= bytes::zeros(512));
            assert(k / 4096 < sb.data_bitmap_blocks);
            assert(mid[sb.data_bitmap() + k / 4096] == disk[sb.data_bitmap() + k / 4096]);
            assert(mid =~= disk.update(block_id as int, bytes::zeros(512)));
            sb.lemma_give_data(disk, block_id as int);
        }
        self.data_bitmap.dealloc(&mut self.cache, (block_id - self.data_area_start_block) as usize);
        proof {
            bitmap::lemma_with_bit(mid, sb.data_bitmap(), block_id - sb.data_area(), false);
            assert(self.cache@[0] == disk[0]);
        }
    }

    /// The number of the inode at an offset of a block.
    pub fn compute_inode_id(&self, block_id: u32, block_offset: u32) -> (r: u32)
        requires
            self.inode_start() <= block_id,
            inode_at(self.inode_start(), block_id as int, block_offset as int) <= u32::MAX,
        ensures
            r == inode_at(self.inode_start(), block_id as int, block_offset as int),
    {
        let inodes_per_block: u32 = (BLOCK_SZ / INODE_SZ) as u32;
        (block_id - self.inode_area_start_block) * inodes_per_block + block_offset / INODE_SZ as u32
    }
}

} // verus!
