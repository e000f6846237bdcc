//! Inodes as the users of the file system see them.
use super::bitmap;
use super::block_cache::{BlockCacheManager, DiskRecord};
use super::block_dev::BlockDevice;
use super::bytes;
use super::bytes::same_bytes;
use super::dir_entry;
use super::dir_entry::{DirEntry, DIRENT_SZ};
use super::directory;
use super::disk_inode;
use super::disk_inode::{DiskInode, DiskInodeType, InodeData};
use super::efs;
use super::efs::EasyFileSystem;
use super::growth;
use super::super_block::SuperBlock;
use super::volume::FileData;
use super::FILE_NOT_EXIST;
use vstd::prelude::*;
use vstd::string::*;

verus! {

/// An inode of a file system: the place of its record on disk.
pub struct Inode {
    block_id: usize,
    block_offset: usize,
}

/// The blocks `v` were free in `d0`, are in use in `d1`, hold zeros there and
/// belong to nobody; what was in use still is.
#[verifier::opaque]
spec fn fresh(sb: SuperBlock, d0: Seq<Seq<u8>>, d1: Seq<Seq<u8>>, v: Seq<u32>) -> bool {
    &&& v.no_duplicates()
    &&& forall|n: int|
        0 <= n < v.len() ==> {
            &&& !sb.data_used(d0, (#[trigger] v[n]) as int)
            &&& sb.data_used(d1, v[n] as int)
            &&& d1[v[n] as int] == bytes::zeros(512)
        }
    &&& forall|n: int, j: int|
        0 <= n < v.len() && sb.used(d1, j) ==> !#[trigger] sb.owns(d1, j, (#[trigger] v[n]) as int)
    &&& forall|b: int| sb.data_used(d0, b) ==> #[trigger] sb.data_used(d1, b)
}

/// One more block.
proof fn lemma_fresh(sb: SuperBlock, d0: Seq<Seq<u8>>, d1: Seq<Seq<u8>>, b: u32, v: Seq<u32>)
    requires
        sb.holds(d1),
        fresh(sb, d0, d1, v),
        sb.keeps(d0, d1),
        sb.data_area() <= b < sb.data_area() + sb.data_area_blocks,
        !sb.data_used(d1, b as int),
    ensures
        ({
            let d2 = bitmap::with_bit(d1, sb.data_bitmap(), b - sb.data_area(), true);
            &&& fresh(sb, d0, d2, v.push(b))
            &&& sb.keeps(d0, d2)
        }),
{
    let d2 = bitmap::with_bit(d1, sb.data_bitmap(), b - sb.data_area(), true);
    sb.lemma_take_data(d1, b - sb.data_area());
    sb.lemma_keeps_trans(d0, d1, d2);
    reveal(SuperBlock::keeps);
    reveal(fresh);
    let w = v.push(b);
    assert forall|n: int| 0 <= n < v.len() implies (#[trigger] v[n]) != b by {}
    assert forall|n: int| 0 <= n < w.len() implies {
        &&& !sb.data_used(d0, (#[trigger] w[n]) as int)
        &&& sb.data_used(d2, w[n] as int)
        &&& d2[w[n] as int] == bytes::zeros(512)
    } by {
        if n < v.len() {
            assert(w[n] == v[n]);
            assert(d2[v[n] as int] == d1[v[n] as int]);
        } else if sb.data_used(d0, b as int) {
            assert(sb.data_used(d1, b as int));
        }
    }
    assert forall|n: int, j: int| 0 <= n < w.len() && sb.used(d2, j) implies !#[trigger] sb.owns(
        d2,
        j,
        (#[trigger] w[n]) as int,
    ) by {
        assert(sb.used(d1, j));
        assert(sb.owns(d2, j, w[n] as int) == sb.owns(d1, j, w[n] as int));
        if n < v.len() {
            assert(w[n] == v[n]);
            assert(!sb.owns(d1, j, v[n] as int));
        }
    }
}

/// An inode that got the blocks `v` has them behind its own.
proof fn lemma_grown_blocks(
    sb: SuperBlock,
    d0: Seq<Seq<u8>>,
    d1: Seq<Seq<u8>>,
    d2: Seq<Seq<u8>>,
    i: int,
    v: Seq<u32>,
    all: Seq<u32>,
)
    requires
        sb.holds(d0),
        sb.used(d0, i),
        sb.keeps(d0, d1),
        growth::taken_in_order(sb, d0, d1, v),
        forall|b: int| #[trigger] sb.data_used(d2, b) == sb.data_used(d1, b),
        forall|j: int|
            sb.used(d1, j) && j != i ==> #[trigger] sb.blocks_of(d2, j) == sb.blocks_of(d1, j),
        all == sb.blocks_of(d1, i) + v,
        sb.blocks_of(d2, i) == all,
    ensures
        growth::has_grown(sb, d0, d2, i),
{
    reveal(SuperBlock::keeps);
    assert forall|j: int| sb.used(d0, j) implies #[trigger] sb.blocks_of(d1, j) == sb.blocks_of(
        d0,
        j,
    ) by {
        sb.lemma_keep(d0, d1, j);
    }
    growth::lemma_none_taken(sb, d1, d2);
    growth::lemma_taken_trans(sb, d0, d1, d2, v, Seq::empty());
    let b0 = sb.blocks_of(d0, i);
    assert(v + Seq::<u32>::empty() =~= v);
    assert(growth::new_blocks(sb, d0, d2, i) =~= v);
    assert(b0 =~= all.subrange(0, b0.len() as int));
    assert forall|j: int| sb.used(d0, j) && j != i implies #[trigger] sb.blocks_of(d2, j)
        == sb.blocks_of(d0, j) by {
        assert(sb.used(d1, j));
        assert(sb.blocks_of(d1, j) == sb.blocks_of(d0, j));
    }
}

/// The blocks that inode `i` owns are those in its tree.
proof fn lemma_owned(sb: SuperBlock, disk: Seq<Seq<u8>>, i: int, p: int)
    requires
        0 <= p < sb.inode(disk, i).total(),
    ensures
        sb.owns(disk, i, sb.inode(disk, i).slot(disk, p) as int),
{
}

/// A data block of inode `i` is one that it owns.
proof fn lemma_data_owned(sb: SuperBlock, disk: Seq<Seq<u8>>, i: int, b: int)
    requires
        sb.inode(disk, i).is_data(disk, b),
    ensures
        sb.owns(disk, i, b),
{
    let inode = sb.inode(disk, i);
    let k = choose|k: int| 0 <= k < inode.nblocks() && #[trigger] inode.block(disk, k) == b;
    inode.lemma_data_pos(disk, k);
    assert(0 <= disk_inode::data_pos(k) < disk_inode::total_for(inode.nblocks()));
    lemma_owned(sb, disk, i, disk_inode::data_pos(k));
}

/// The blocks of inode `i` are in use, and belong to it alone.
proof fn lemma_own_blocks(sb: SuperBlock, disk: Seq<Seq<u8>>, i: int)
    requires
        sb.holds(disk),
        sb.used(disk, i),
    ensures
        forall|p: int|
            0 <= p < sb.inode(disk, i).total() ==> {
                &&& sb.data_used(disk, (#[trigger] sb.inode(disk, i).slot(disk, p)) as int)
                &&& forall|j: int|
                    sb.used(disk, j) && j != i ==> !#[trigger] sb.owns(
                        disk,
                        j,
                        sb.inode(disk, i).slot(disk, p) as int,
                    )
            },
        forall|b: int| #[trigger]
            sb.inode(disk, i).is_data(disk, b) ==> {
                &&& sb.data_used(disk, b)
                &&& forall|j: int| sb.used(disk, j) && j != i ==> !#[trigger] sb.owns(disk, j, b)
            },
{
    assert forall|p: int| 0 <= p < sb.inode(disk, i).total() implies {
        &&& sb.data_used(disk, (#[trigger] sb.inode(disk, i).slot(disk, p)) as int)
        &&& forall|j: int|
            sb.used(disk, j) && j != i ==> !#[trigger] sb.owns(
                disk,
                j,
                sb.inode(disk, i).slot(disk, p) as int,
            )
    } by {
        lemma_owned(sb, disk, i, p);
    }
    assert forall|b: int| #[trigger] sb.inode(disk, i).is_data(disk, b) implies {
        &&& sb.data_used(disk, b)
        &&& forall|j: int| sb.used(disk, j) && j != i ==> !#[trigger] sb.owns(disk, j, b)
    } by {
        lemma_data_owned(sb, disk, i, b);
    }
}

/// The inode number that a directory with this content gives to the name.
pub open spec fn found_id(c: Seq<u8>, name: Seq<u8>) -> Option<u32> {
    match directory::search(c, name, false, 0) {
        Some(k) => Some(directory::id_at(c, k)),
        None => None,
    }
}

/// All names in the directory can be read.
pub open spec fn names_ok(c: Seq<u8>) -> bool {
    forall|i: int|
        0 <= i < directory::entry_count(c) ==> dir_entry::name_ok(
            #[trigger] directory::entry_at(c, i),
        )
}

/// Every entry has a name that can be read and leads to a file.
pub open spec fn entries_ok(files: Map<int, FileData>, c: Seq<u8>) -> bool {
    forall|i: int|
        0 <= i < directory::entry_count(c) ==> entry_ok(files, #[trigger] directory::entry_at(c, i))
}

/// The entry has a name that can be read and leads to a file.
pub open spec fn entry_ok(files: Map<int, FileData>, e: Seq<u8>) -> bool {
    &&& dir_entry::name_ok(e)
    &&& dir_entry::entry_id(e) != FILE_NOT_EXIST
    &&& files.contains_key(dir_entry::entry_id(e) as int)
}

/// Inode `n` was cleared: its blocks came free, and all others stay as they were.
pub open spec fn was_cleared<D: BlockDevice>(
    fs0: &EasyFileSystem<D>,
    fs1: &EasyFileSystem<D>,
    n: int,
) -> bool {
    &&& fs1.synced()
    &&& fs1@ == fs0@.insert(n, fs0@[n].cleared())
    &&& fs1.free_inodes() == fs0.free_inodes()
    &&& fs1.free_blocks() == fs0.free_blocks() + disk_inode::total_for(
        disk_inode::blocks_for(fs0@[n].size),
    )
    &&& forall|b: int| #[trigger]
        fs0.sb().data_used(fs1.cache@, b) == (fs0.sb().data_used(fs0.cache@, b)
            && !fs0.sb().owns(fs0.cache@, n, b))
}

/// Inode `n` got the name `name` in directory `d` too.
pub open spec fn was_linked<D: BlockDevice>(
    fs0: &EasyFileSystem<D>,
    fs1: &EasyFileSystem<D>,
    d: int,
    name: Seq<u8>,
    n: int,
) -> bool {
    &&& fs1.synced()
    &&& fs1@ == link_added(fs0@, d, name, n)
    &&& fs1.free_inodes() == fs0.free_inodes()
    &&& fs1.free_blocks() == fs0.free_blocks() - append_need(fs0@[d])
    &&& growth::has_grown(fs0.sb(), fs0.cache@, fs1.cache@, d)
}

/// Inode `n` lost the name `name` in directory `d`; if that was its last one, the
/// inode came free, and so did its blocks.
pub open spec fn was_unlinked<D: BlockDevice>(
    fs0: &EasyFileSystem<D>,
    fs1: &EasyFileSystem<D>,
    d: int,
    name: Seq<u8>,
    n: int,
) -> bool {
    let last = fs0@[n].nlink == 1;
    let left = blocks_left(fs0.sb(), fs0.cache@, d, name, n);
    &&& fs1.synced()
    &&& fs1@ == link_removed(fs0@, d, name, n)
    &&& fs1.free_inodes() == fs0.free_inodes() + (if last {
        1int
    } else {
        0
    })
    &&& fs1.free_blocks() == fs0.free_blocks() + (if last {
        disk_inode::total_for(disk_inode::blocks_for(entry_removed(fs0@, d, name, n)[n].size))
    } else {
        0
    })
    &&& forall|b: int| #[trigger]
        fs0.sb().data_used(fs1.cache@, b) == (fs0.sb().data_used(fs0.cache@, b) && !(last && listed(
            left,
            b,
        )))
    &&& n != d ==> forall|b: int| #[trigger]
        listed(left, b) == fs0.sb().owns(fs0.cache@, n, b)
}

/// The files after inode `n` was created as `name` in directory `d`.
pub open spec fn created(
    files: Map<int, FileData>,
    d: int,
    name: Seq<u8>,
    n: int,
) -> Map<int, FileData> {
    files.insert(n, FileData::empty(false, 1)).insert(
        d,
        files[d].appended(dir_entry::make_entry(name, n as u32)),
    )
}

/// The files after directory `d` got `name` as one more link to inode `n`.
pub open spec fn link_added(
    files: Map<int, FileData>,
    d: int,
    name: Seq<u8>,
    n: int,
) -> Map<int, FileData> {
    files.insert(d, files[d].appended(dir_entry::make_entry(name, n as u32))).insert(
        n,
        files[n].linked((files[n].nlink + 1) as u32),
    )
}

/// The files after inode `n` lost a link, and directory `d` its entry for
/// `name`.
pub open spec fn entry_removed(
    files: Map<int, FileData>,
    d: int,
    name: Seq<u8>,
    n: int,
) -> Map<int, FileData> {
    let unlinked = files.insert(n, files[n].linked((files[n].nlink - 1) as u32));
    match directory::search(files[d].content(), name, true, 0) {
        Some(k) => unlinked.insert(d, unlinked[d].without(k)),
        None => unlinked,
    }
}

/// The files after directory `d` lost `name`, a link to inode `n`; with its
/// last link the inode goes.
pub open spec fn link_removed(
    files: Map<int, FileData>,
    d: int,
    name: Seq<u8>,
    n: int,
) -> Map<int, FileData> {
    let after = entry_removed(files, d, name, n);
    if files[n].nlink == 1 {
        after.remove(n)
    } else {
        after
    }
}

/// Whether `b` is one of the blocks.
pub open spec fn listed(blocks: Seq<u32>, b: int) -> bool {
    exists|n: int| 0 <= n < blocks.len() && #[trigger] blocks[n] == b
}

/// The blocks of an inode are those that it owns.
proof fn lemma_listed(sb: SuperBlock, disk: Seq<Seq<u8>>, i: int, b: int)
    ensures
        listed(sb.blocks_of(disk, i), b) == sb.owns(disk, i, b),
{
    let blocks = sb.blocks_of(disk, i);
    if sb.owns(disk, i, b) {
        let p = choose|p: int|
            0 <= p < sb.inode(disk, i).total() && #[trigger] sb.inode(disk, i).slot(disk, p) == b;
        assert(blocks[p] == b);
    }
    if listed(blocks, b) {
        let n = choose|n: int| 0 <= n < blocks.len() && #[trigger] blocks[n] == b;
        assert(sb.inode(disk, i).slot(disk, n) == b);
    }
}

proof fn lemma_listed_next(blocks: Seq<u32>, n: int, b: int)
    requires
        0 <= n < blocks.len(),
    ensures
        listed(blocks.subrange(0, n + 1), b) == (listed(blocks.subrange(0, n), b) || blocks[n]
            == b),
{
    let s = blocks.subrange(0, n);
    let t = blocks.subrange(0, n + 1);
    assert(t[n] == blocks[n]);
    if listed(s, b) {
        let k = choose|k: int| 0 <= k < s.len() && #[trigger] s[k] == b;
        assert(t[k] == b);
    }
    if listed(t, b) {
        let k = choose|k: int| 0 <= k < t.len() && #[trigger] t[k] == b;
        if k < n {
            assert(s[k] == b);
        }
    }
}

/// The blocks of inode `n` after directory `d` lost its entry for `name`: all
/// that it has, except where the directory is the inode itself.
pub open spec fn blocks_left(
    sb: SuperBlock,
    disk: Seq<Seq<u8>>,
    d: int,
    name: Seq<u8>,
    n: int,
) -> Seq<u32> {
    sb.blocks_of(disk, n).subrange(
        0,
        disk_inode::total_for(
            disk_inode::blocks_for(entry_removed(sb.files(disk), d, name, n)[n].size),
        ),
    )
}

/// Two steps that leave the blocks alone, the first at inode `t`, the second at
/// inode `i`.
proof fn lemma_blocks_left(
    sb: SuperBlock,
    d0: Seq<Seq<u8>>,
    d1: Seq<Seq<u8>>,
    d2: Seq<Seq<u8>>,
    t: int,
    i: int,
)
    requires
        sb.used(d0, t),
        sb.used(d1, t),
        sb.same_blocks(d0, d1, t),
        sb.same_blocks(d1, d2, i),
        sb.inode(d1, t).total() == sb.inode(d0, t).total(),
    ensures
        forall|b: int| #[trigger] sb.data_used(d2, b) == sb.data_used(d0, b),
        sb.blocks_of(d2, t) == if t == i {
            sb.blocks_of(d0, t).subrange(0, sb.inode(d2, t).total())
        } else {
            sb.blocks_of(d0, t)
        },
{
    assert forall|b: int| #[trigger] sb.data_used(d2, b) == sb.data_used(d0, b) by {
        assert(sb.data_used(d1, b) == sb.data_used(d0, b));
    }
    let all = sb.blocks_of(d0, t);
    assert(all.subrange(0, sb.inode(d1, t).total()) =~= all);
}

/// The blocks `left` of inode `t` came free, if it is gone.
proof fn lemma_freed(
    sb: SuperBlock,
    d0: Seq<Seq<u8>>,
    d2: Seq<Seq<u8>>,
    d3: Seq<Seq<u8>>,
    t: int,
    gone: bool,
    left: Seq<u32>,
)
    requires
        forall|b: int| #[trigger] sb.data_used(d2, b) == sb.data_used(d0, b),
        left == sb.blocks_of(d2, t),
        forall|b: int| #[trigger]
            sb.data_used(d3, b) == (sb.data_used(d2, b) && !(gone && sb.owns(d2, t, b))),
    ensures
        forall|b: int| #[trigger]
            sb.data_used(d3, b) == (sb.data_used(d0, b) && !(gone && listed(left, b))),
        left == sb.blocks_of(d0, t) ==> forall|b: int| #[trigger]
            listed(left, b) == sb.owns(d0, t, b),
{
    assert forall|b: int| #[trigger] sb.data_used(d3, b) == (sb.data_used(d0, b) && !(gone
        && listed(left, b))) by {
        lemma_listed(sb, d2, t, b);
        assert(sb.data_used(d2, b) == sb.data_used(d0, b));
    }
    if left == sb.blocks_of(d0, t) {
        assert forall|b: int| #[trigger] listed(left, b) == sb.owns(d0, t, b) by {
            lemma_listed(sb, d0, t, b);
        }
    }
}

/// Blocks that one more entry takes.
pub open spec fn append_need(dir: FileData) -> int {
    disk_inode::grow_need(dir.size, 32 * (dir.size / 32 + 1))
}

/// There is room for one more entry.
pub open spec fn can_append(dir: FileData, free_blocks: int) -> bool {
    &&& disk_inode::blocks_for(32 * (dir.size / 32 + 1)) <= disk_inode::INDIRECT2_BOUND
    &&& append_need(dir) <= free_blocks
}

impl Inode {
    /// The block that holds the record.
    pub closed spec fn block(&self) -> int {
        self.block_id as int
    }

    /// The offset of the record in its block.
    pub closed spec fn offset(&self) -> int {
        self.block_offset as int
    }

    /// The inode number.
    pub open spec fn id<D: BlockDevice>(&self, fs: &EasyFileSystem<D>) -> int {
        efs::inode_at(fs.inode_start(), self.block(), self.offset())
    }

    /// The inode is one of the file system.
    pub open spec fn is_in<D: BlockDevice>(&self, fs: &EasyFileSystem<D>) -> bool {
        &&& fs@.contains_key(self.id(fs))
        &&& (self.block(), self.offset()) == efs::inode_pos(fs.inode_start(), self.id(fs))
    }

    /// The file or directory.
    pub open spec fn file<D: BlockDevice>(&self, fs: &EasyFileSystem<D>) -> FileData {
        fs@[self.id(fs)]
    }

    /// An inode from its place.
    pub fn new(block_id: u32, block_offset: usize) -> (r: Self)
        ensures
            r.block() == block_id,
            r.offset() == block_offset,
    {
        Inode { block_id: block_id as usize, block_offset }
    }

    /// Reads the record.
    fn read_disk_inode<D: BlockDevice>(&self, fs: &mut EasyFileSystem<D>) -> (r: DiskInode)
        requires
            old(fs).wf(),
            self.is_in(old(fs)),
        ensures
            final(fs).wf(),
            final(fs).same(old(fs)),
            final(fs).cache@ == old(fs).cache@,
            old(fs).synced() ==> final(fs).synced(),
            r@ == old(fs).sb().inode(old(fs).cache@, self.id(old(fs))),
    {
        proof {
            fs.sb().lemma_places(fs.cache@);
            assert(fs.sb().used(fs.cache@, self.id(fs)));
        }
        fs.cache.read_record(self.block_id, self.block_offset)
    }

    /// Writes the record.
    fn write_disk_inode<D: BlockDevice>(&self, fs: &mut EasyFileSystem<D>, inode: &DiskInode)
        requires
            old(fs).cache.inv(),
            old(fs).sb().fits(old(fs).cache@),
            old(fs).matches(old(fs).sb()),
            0 <= self.id(old(fs)) < old(fs).sb().inodes(),
            (self.block(), self.offset()) == efs::inode_pos(
                old(fs).inode_start(),
                self.id(old(fs)),
            ),
            inode@.direct.len() == disk_inode::INODE_DIRECT_COUNT,
        ensures
            final(fs).cache.inv(),
            final(fs).matches(final(fs).sb()),
            final(fs).same(old(fs)),
            final(fs).cache@ == old(fs).sb().with_inode(
                old(fs).cache@,
                self.id(old(fs)),
                inode@,
            ),
    {
        let ghost sb = fs.sb();
        let ghost disk = fs.cache@;
        let ghost i = self.id(fs);
        proof {
            sb.lemma_places(disk);
            assert(sb.inode_area() <= sb.inode_block(i) < sb.data_bitmap());
            sb.lemma_with_inode(disk, i, inode@);
        }
        fs.cache.write_record(self.block_id, self.block_offset, inode);
        assert(fs.cache@ =~= sb.with_inode(disk, i, inode@));
        assert(fs.cache@[0] == disk[0]);
    }

    /// Allocates `count` data blocks.
    fn alloc_blocks<D: BlockDevice>(fs: &mut EasyFileSystem<D>, count: u32) -> (v: Vec<u32>)
        requires
            old(fs).wf(),
            count <= old(fs).free_blocks(),
        ensures
            final(fs).wf(),
            final(fs).same(old(fs)),
            final(fs)@ == old(fs)@,
            final(fs).free_inodes() == old(fs).free_inodes(),
            final(fs).free_blocks() == old(fs).free_blocks() - count,
            v@.len() == count,
            fresh(old(fs).sb(), old(fs).cache@, final(fs).cache@, v@),
            old(fs).sb().keeps(old(fs).cache@, final(fs).cache@),
            growth::taken_in_order(old(fs).sb(), old(fs).cache@, final(fs).cache@, v@),
    {
        let ghost sb = fs.sb();
        let ghost d0 = fs.cache@;
        let mut v: Vec<u32> = Vec::new();
        let mut c: u32 = 0;
        proof {
            reveal(SuperBlock::keeps);
            reveal(fresh);
            growth::lemma_none_taken(sb, d0, d0);
        }
        while c < count
            invariant
                c <= count,
                count <= old(fs).free_blocks(),
                sb == old(fs).sb(),
                d0 == old(fs).cache@,
                fs.wf(),
                fs.same(old(fs)),
                fs@ == old(fs)@,
                fs.free_inodes() == old(fs).free_inodes(),
                fs.free_blocks() == old(fs).free_blocks() - c,
                v@.len() == c,
                fresh(sb, d0, fs.cache@, v@),
                sb.keeps(d0, fs.cache@),
                growth::taken_in_order(sb, d0, fs.cache@, v@),
            decreases count - c,
        {
            let ghost d1 = fs.cache@;
            let b: u32 = fs.alloc_data();
            proof {
                lemma_fresh(sb, d0, d1, b, v@);
                sb.lemma_take_data(d1, b - sb.data_area());
                growth::lemma_taken_next(sb, d0, d1, fs.cache@, v@, b);
            }
            v.push(b);
            c += 1;
        }
        v
    }

    /// Grows the inode to `new_size`, with data blocks allocated for it. A
    /// smaller size changes nothing.
    #[verifier::rlimit(30)]
    fn increase_size<D: BlockDevice>(&self, new_size: u32, fs: &mut EasyFileSystem<D>)
        requires
            old(fs).wf(),
            self.is_in(old(fs)),
            new_size >= self.file(old(fs)).size ==> disk_inode::blocks_for(new_size as int)
                <= disk_inode::INDIRECT2_BOUND,
            disk_inode::grow_need(self.file(old(fs)).size, new_size as int) <= old(
                fs,
            ).free_blocks(),
        ensures
            final(fs).wf(),
            final(fs).same(old(fs)),
            final(fs)@ == old(fs)@.insert(
                self.id(old(fs)),
                self.file(old(fs)).grown(new_size as int),
            ),
            final(fs).free_inodes() == old(fs).free_inodes(),
            final(fs).free_blocks() == old(fs).free_blocks() - disk_inode::grow_need(
                self.file(old(fs)).size,
                new_size as int,
            ),
            growth::has_grown(
                old(fs).sb(),
                old(fs).cache@,
                final(fs).cache@,
                self.id(old(fs)),
            ),
    {
        let ghost sb = fs.sb();
        let ghost i = self.id(fs);
        let ghost before = fs@;
        assert(sb.used(fs.cache@, i));
        let mut inode: DiskInode = self.read_disk_inode(fs);
        let ghost d0 = fs.cache@;
        let ghost r0 = inode@;
        if new_size < inode.size {
            proof {
                assert(fs@ =~= before.insert(i, before[i]));
                growth::lemma_not_grown(sb, d0, d0, i);
            }
            return ;
        }
        let blocks_needed: u32 = inode.blocks_num_needed(new_size);
        let v: Vec<u32> = Self::alloc_blocks(fs, blocks_needed);
        let ghost d1 = fs.cache@;
        let ghost all = disk_inode::grown(r0, d1, new_size as int, v@);
        proof {
            reveal(SuperBlock::keeps);
            reveal(fresh);
            assert(sb.used(d1, i));
            assert(sb.inode_bytes(d1, i) == sb.inode_bytes(d0, i));
            assert(sb.inode(d1, i) == r0);
            assert(r0.wf(d1));
            assert(v@.subrange(0, blocks_needed as int) =~= v@);
            let t0 = r0.total();
            assert forall|p: int| 0 <= p < all.len() implies {
                &&& sb.data_used(d1, (#[trigger] all[p]) as int)
                &&& forall|j: int|
                    sb.used(d1, j) && j != i ==> !#[trigger] sb.owns(d1, j, all[p] as int)
            } by {
                if p < t0 {
                    assert(all[p] == r0.slot(d1, p));
                    lemma_owned(sb, d1, i, p);
                } else {
                    assert(all[p] == v@[p - t0]);
                }
            }
            assert forall|p: int, q: int| 0 <= p < q < all.len() implies all[p] != all[q] by {
                if q < t0 {
                    assert(all[p] == r0.slot(d1, p) && all[q] == r0.slot(d1, q));
                } else if p < t0 {
                    assert(all[p] == r0.slot(d1, p) && all[q] == v@[q - t0]);
                    lemma_owned(sb, d1, i, p);
                } else {
                    assert(all[p] == v@[p - t0] && all[q] == v@[q - t0]);
                }
            }
        }
        let ghost got = v@;
        inode.increase_size(new_size, v, &mut fs.cache);
        let ghost d2 = fs.cache@;
        let ghost r2 = inode@;
        proof {
            fs.cache.lemma_wf();
            assert forall|b: int| 0 <= b < d1.len() && !sb.data_used(d1, b) implies #[trigger] d2[b]
                == d1[b] by {
                if disk_inode::has_index(all, b) {
                    let p = choose|p: int|
                        0 <= p < all.len() && disk_inode::index_pos(p) && #[trigger] all[p] == b;
                    assert(sb.data_used(d1, all[p] as int));
                }
            }
            assert forall|j: int, b: int|
                sb.used(d1, j) && j != i && #[trigger] sb.owns(d1, j, b) implies d2[b]
                == d1[b] by {
                assert(sb.data_used(d1, b));
                if disk_inode::has_index(all, b) {
                    let p = choose|p: int|
                        0 <= p < all.len() && disk_inode::index_pos(p) && #[trigger] all[p] == b;
                    assert(!sb.owns(d1, j, all[p] as int));
                }
            }
            disk_inode::lemma_total_monotonic(r0.nblocks(), r2.nblocks());
            assert(all.subrange(0, r2.total()) =~= all);
            assert forall|p: int| 0 <= p < r2.total() implies (#[trigger] r2.slot(d2, p))
                == all[p] by {
                assert(r2.blocks(d2)[p] == all[p]);
            }
            assert forall|p: int| 0 <= p < r2.total() implies sb.data_used(
                d1,
                (#[trigger] r2.slot(d2, p)) as int,
            ) && forall|j: int|
                sb.used(d1, j) && j != i ==> !#[trigger] sb.owns(
                    d1,
                    j,
                    r2.slot(d2, p) as int,
                ) by {
                assert(r2.slot(d2, p) == all[p]);
            }
            sb.lemma_commit(d1, d2, i, r2);
            assert(r2.raw(d2) =~= before[i].grown(new_size as int).raw) by {
                assert forall|x: int| 0 <= x < r2.raw(d2).len() implies r2.raw(d2)[x]
                    == before[i].grown(new_size as int).raw[x] by {
                    let k = x / 512;
                    let p = disk_inode::data_pos(k);
                    r2.lemma_data_pos(d2, k);
                    assert(0 <= p < disk_inode::total_for(r2.nblocks()));
                    assert(r2.block(d2, k) == all[p]);
                    assert(!disk_inode::has_index(all, all[p] as int)) by {
                        if disk_inode::has_index(all, all[p] as int) {
                            let q = choose|q: int|
                                0 <= q < all.len() && disk_inode::index_pos(q) && #[trigger] all[q]
                                    == all[p];
                            assert(q != p);
                        }
                    }
                    assert(sb.data_used(d1, all[p] as int));
                    assert(d2[all[p] as int] == d1[all[p] as int]);
                    if k < r0.nblocks() {
                        r0.lemma_data_pos(d1, k);
                        assert(p < disk_inode::total_for(r0.nblocks()));
                        assert(all[p] == r0.slot(d1, p));
                        assert(r0.block(d1, k) == all[p]);
                        assert(sb.file(d1, i) == before[i]) by {
                            assert(sb.files(d1)[i] == before[i]);
                        }
                        assert(r0.raw(d1)[x] == before[i].raw[x]);
                    } else {
                        disk_inode::lemma_data_pos_new(r0.nblocks(), k);
                        assert(all[p] == v@[p - r0.total()]);
                    }
                }
            }
        }
        assert(d2[0] == d1[0]);
        self.write_disk_inode(fs, &inode);
        proof {
            assert(fs@ =~= before.insert(i, before[i].grown(new_size as int)));
            lemma_grown_blocks(sb, d0, d1, fs.cache@, i, got, all);
        }
    }

    /// Writes `buf` over the content from `offset` on, as far as the content
    /// goes.
    fn write_content<D: BlockDevice>(
        &self,
        offset: usize,
        buf: &[u8],
        fs: &mut EasyFileSystem<D>,
    ) -> (r: usize)
        requires
            old(fs).wf(),
            self.is_in(old(fs)),
            offset <= self.file(old(fs)).size,
            offset + buf@.len() <= usize::MAX,
        ensures
            final(fs).wf(),
            final(fs).same(old(fs)),
            r == disk_inode::read_len(
                self.file(old(fs)).size,
                offset as int,
                buf@.len() as int,
            ),
            final(fs)@ == old(fs)@.insert(
                self.id(old(fs)),
                self.file(old(fs)).written(offset as int, buf@.subrange(0, r as int)),
            ),
            final(fs).free_inodes() == old(fs).free_inodes(),
            final(fs).free_blocks() == old(fs).free_blocks(),
            growth::has_grown(
                old(fs).sb(),
                old(fs).cache@,
                final(fs).cache@,
                self.id(old(fs)),
            ),
            old(fs).sb().blocks_of(final(fs).cache@, self.id(old(fs))) == old(fs).sb().blocks_of(
                old(fs).cache@,
                self.id(old(fs)),
            ),
    {
        let ghost sb = fs.sb();
        let ghost i = self.id(fs);
        assert(sb.used(fs.cache@, i));
        let inode: DiskInode = self.read_disk_inode(fs);
        let ghost d0 = fs.cache@;
        let ghost rec = inode@;
        proof {
            lemma_own_blocks(sb, d0, i);
            sb.lemma_places(d0);
        }
        let r: usize = inode.write_at(offset, buf, &mut fs.cache);
        let ghost d1 = fs.cache@;
        proof {
            fs.cache.lemma_wf();
            assert(d1[0] == d0[0]);
            assert(d1[sb.inode_block(i)] == d0[sb.inode_block(i)]);
            assert(sb.inode(d1, i) == rec);
            assert forall|b: int| #[trigger] sb.owns(d1, i, b) implies sb.data_used(d0, b)
                && forall|j: int| sb.used(d0, j) && j != i ==> !#[trigger] sb.owns(d0, j, b) by {
                let p = choose|p: int|
                    0 <= p < sb.inode(d1, i).total() && #[trigger] sb.inode(d1, i).slot(d1, p) == b;
                assert(rec.blocks(d1)[p] == rec.blocks(d0)[p]);
                assert(sb.inode(d0, i).slot(d0, p) == b);
            }
            assert forall|j: int, b: int|
                sb.used(d0, j) && j != i && #[trigger] sb.owns(d0, j, b) implies d1[b] == d0[b] by {
                assert(sb.data_used(d0, b));
                if rec.is_data(d0, b) {
                    assert(sb.inode(d0, i).is_data(d0, b));
                }
            }
            assert forall|b: int| 0 <= b < d0.len() && !sb.data_used(d0, b) implies #[trigger] d1[b]
                == d0[b] by {
                if rec.is_data(d0, b) {
                    assert(sb.inode(d0, i).is_data(d0, b));
                }
            }
            assert forall|j: int| 0 <= j < sb.inodes() && j != i implies #[trigger] sb.inode_bytes(
                d1,
                j,
            ) == sb.inode_bytes(d0, j) by {
                assert(d1[sb.inode_block(j)] == d0[sb.inode_block(j)]);
            }
            sb.lemma_update(d0, d1, i);
            assert forall|j: int| sb.used(d0, j) && j != i implies #[trigger] sb.blocks_of(d1, j)
                == sb.blocks_of(d0, j) by {
                sb.lemma_keep(d0, d1, j);
            }
            assert(sb.blocks_of(d1, i) =~= sb.blocks_of(d0, i));
            growth::lemma_not_grown(sb, d0, d1, i);
            assert(sb.file(d1, i) == sb.file(d0, i).written(
                offset as int,
                buf@.subrange(0, r as int),
            ));
        }
        r
    }

    /// Takes the bytes from `offset` on out of the content, as many as `buf`
    /// holds, and puts them into `buf`.
    fn remove_content<D: BlockDevice>(
        &self,
        offset: usize,
        buf: &mut [u8],
        fs: &mut EasyFileSystem<D>,
    )
        requires
            old(fs).wf(),
            self.is_in(old(fs)),
            offset <= self.file(old(fs)).size,
            offset + old(buf)@.len() <= usize::MAX,
        ensures
            final(fs).wf(),
            final(fs).same(old(fs)),
            ({
                let file = self.file(old(fs));
                let n = disk_inode::read_len(file.size, offset as int, old(buf)@.len() as int);
                &&& final(buf)@ == bytes::splice(
                    old(buf)@,
                    0,
                    bytes::part(file.content(), offset as int, n),
                )
                &&& final(fs)@ == old(fs)@.insert(
                    self.id(old(fs)),
                    file.removed(offset as int, n),
                )
            }),
            final(fs).free_inodes() == old(fs).free_inodes(),
            final(fs).free_blocks() == old(fs).free_blocks(),
            old(fs).sb().same_blocks(old(fs).cache@, final(fs).cache@, self.id(old(fs))),
    {
        let ghost sb = fs.sb();
        let ghost i = self.id(fs);
        assert(sb.used(fs.cache@, i));
        let mut inode: DiskInode = self.read_disk_inode(fs);
        let ghost d0 = fs.cache@;
        let ghost rec = inode@;
        proof {
            lemma_own_blocks(sb, d0, i);
            sb.lemma_places(d0);
        }
        inode.remove_at(offset, buf, &mut fs.cache);
        let ghost d1 = fs.cache@;
        proof {
            fs.cache.lemma_wf();
            assert(d1[0] == d0[0]);
            disk_inode::lemma_total_monotonic(inode@.nblocks(), rec.nblocks());
            assert forall|p: int| 0 <= p < inode@.total() implies sb.data_used(
                d0,
                (#[trigger] inode@.slot(d1, p)) as int,
            ) && forall|j: int|
                sb.used(d0, j) && j != i ==> !#[trigger] sb.owns(
                    d0,
                    j,
                    inode@.slot(d1, p) as int,
                ) by {
                assert(inode@.blocks(d1)[p] == rec.blocks(d0)[p]);
                assert(inode@.slot(d1, p) == sb.inode(d0, i).slot(d0, p));
            }
            assert forall|j: int, b: int|
                sb.used(d0, j) && j != i && #[trigger] sb.owns(d0, j, b) implies d1[b] == d0[b] by {
                assert(sb.data_used(d0, b));
                if rec.is_data(d0, b) {
                    assert(sb.inode(d0, i).is_data(d0, b));
                }
            }
            assert forall|b: int| 0 <= b < d0.len() && !sb.data_used(d0, b) implies #[trigger] d1[b]
                == d0[b] by {
                if rec.is_data(d0, b) {
                    assert(sb.inode(d0, i).is_data(d0, b));
                }
            }
            sb.lemma_commit(d0, d1, i, inode@);
        }
        self.write_disk_inode(fs, &inode);
    }

    /// Sets the number of links.
    fn set_nlink<D: BlockDevice>(&self, nlink: u32, fs: &mut EasyFileSystem<D>)
        requires
            old(fs).wf(),
            self.is_in(old(fs)),
        ensures
            final(fs).wf(),
            final(fs).same(old(fs)),
            final(fs)@ == old(fs)@.insert(self.id(old(fs)), self.file(old(fs)).linked(nlink)),
            final(fs).free_inodes() == old(fs).free_inodes(),
            final(fs).free_blocks() == old(fs).free_blocks(),
            old(fs).sb().same_blocks(old(fs).cache@, final(fs).cache@, self.id(old(fs))),
    {
        let ghost sb = fs.sb();
        let ghost i = self.id(fs);
        assert(sb.used(fs.cache@, i));
        let mut inode: DiskInode = self.read_disk_inode(fs);
        let ghost d0 = fs.cache@;
        let ghost rec = inode@;
        inode.nlink = nlink;
        proof {
            lemma_own_blocks(sb, d0, i);
            assert(inode@ == (InodeData { nlink, ..rec }));
            assert forall|p: int| #[trigger] inode@.slot(d0, p) == rec.slot(d0, p) by {}
            assert(inode@.raw(d0) =~= rec.raw(d0)) by {
                assert forall|x: int| 0 <= x < rec.raw(d0).len() implies inode@.raw(d0)[x]
                    == rec.raw(d0)[x] by {
                    assert(inode@.block(d0, x / 512) == rec.block(d0, x / 512));
                }
            }
            sb.lemma_commit(d0, d0, i, inode@);
            assert(inode@.blocks(d0) =~= rec.blocks(d0).subrange(0, rec.total()));
        }
        self.write_disk_inode(fs, &inode);
    }

    /// Makes the inode, which must be new, a file with one link.
    fn initialize<D: BlockDevice>(&self, type_: DiskInodeType, fs: &mut EasyFileSystem<D>)
        requires
            old(fs).wf(),
            self.is_in(old(fs)),
        ensures
            final(fs).wf(),
            final(fs).same(old(fs)),
            final(fs)@ == old(fs)@.insert(
                self.id(old(fs)),
                FileData::empty(type_ == DiskInodeType::Directory, 1),
            ),
            final(fs).free_inodes() == old(fs).free_inodes(),
            final(fs).free_blocks() == old(fs).free_blocks(),
            forall|b: int| #[trigger]
                old(fs).sb().data_used(final(fs).cache@, b) == old(fs).sb().data_used(
                    old(fs).cache@,
                    b,
                ),
            growth::others_same(
                old(fs).sb(),
                old(fs).cache@,
                final(fs).cache@,
                self.id(old(fs)),
            ),
    {
        let ghost sb = fs.sb();
        let ghost i = self.id(fs);
        assert(sb.used(fs.cache@, i));
        let mut inode: DiskInode = self.read_disk_inode(fs);
        let ghost d0 = fs.cache@;
        inode.initialize(type_);
        proof {
            sb.lemma_commit(d0, d0, i, inode@);
            assert(inode@.raw(d0) =~= Seq::<u8>::empty());
        }
        self.write_disk_inode(fs, &inode);
    }

    /// Gives all blocks of the inode back.
    fn do_clear<D: BlockDevice>(&self, fs: &mut EasyFileSystem<D>)
        requires
            old(fs).wf(),
            self.is_in(old(fs)),
        ensures
            final(fs).wf(),
            final(fs).same(old(fs)),
            final(fs)@ == old(fs)@.insert(self.id(old(fs)), self.file(old(fs)).cleared()),
            final(fs).free_inodes() == old(fs).free_inodes(),
            final(fs).free_blocks() == old(fs).free_blocks() + disk_inode::total_for(
                disk_inode::blocks_for(self.file(old(fs)).size),
            ),
            forall|b: int| #[trigger]
                old(fs).sb().data_used(final(fs).cache@, b) == (old(fs).sb().data_used(
                    old(fs).cache@,
                    b,
                ) && !old(fs).sb().owns(old(fs).cache@, self.id(old(fs)), b)),
    {
        let ghost sb = fs.sb();
        let ghost i = self.id(fs);
        assert(sb.used(fs.cache@, i));
        let mut inode: DiskInode = self.read_disk_inode(fs);
        let ghost d0 = fs.cache@;
        let ghost rec = inode@;
        proof {
            lemma_own_blocks(sb, d0, i);
        }
        let blocks: Vec<u32> = inode.clear_size(&mut fs.cache);
        proof {
            sb.lemma_commit(d0, d0, i, inode@);
            assert(inode@.raw(d0) =~= Seq::<u8>::empty());
        }
        self.write_disk_inode(fs, &inode);
        proof {
            let d1 = fs.cache@;
            assert(fs@ =~= old(fs)@.insert(i, old(fs)@[i].cleared()));
            assert forall|n: int| 0 <= n < blocks@.len() implies {
                &&& sb.data_used(d1, (#[trigger] blocks@[n]) as int)
                &&& forall|j: int| #[trigger]
                    sb.used(d1, j) ==> !sb.owns(d1, j, blocks@[n] as int)
            } by {
                assert(blocks@[n] == sb.inode(d0, i).slot(d0, n));
                assert forall|j: int| #[trigger] sb.used(d1, j) implies !sb.owns(
                    d1,
                    j,
                    blocks@[n] as int,
                ) by {
                    if j != i {
                        assert(sb.files(d1).contains_key(j));
                        assert(sb.used(d0, j));
                        assert(sb.owns(d1, j, blocks@[n] as int) == sb.owns(
                            d0,
                            j,
                            blocks@[n] as int,
                        ));
                    }
                }
            }
            assert forall|m: int, n: int| 0 <= m < n < blocks@.len() implies blocks@[m]
                != blocks@[n] by {
                assert(blocks@[m] == rec.slot(d0, m) && blocks@[n] == rec.slot(d0, n));
            }
        }
        let ghost list = blocks@;
        Self::dealloc_blocks(blocks, fs);
        proof {
            assert forall|b: int| #[trigger] sb.data_used(fs.cache@, b) == (sb.data_used(d0, b)
                && !sb.owns(d0, i, b)) by {
                lemma_listed(sb, d0, i, b);
                assert(list == sb.blocks_of(d0, i));
            }
        }
    }

    /// Gives the data blocks back.
    fn dealloc_blocks<D: BlockDevice>(blocks: Vec<u32>, fs: &mut EasyFileSystem<D>)
        requires
            old(fs).wf(),
            blocks@.no_duplicates(),
            forall|n: int|
                0 <= n < blocks@.len() ==> {
                    &&& old(fs).sb().data_used(old(fs).cache@, (#[trigger] blocks@[n]) as int)
                    &&& forall|j: int| #[trigger]
                        old(fs).sb().used(old(fs).cache@, j) ==> !old(fs).sb().owns(
                            old(fs).cache@,
                            j,
                            blocks@[n] as int,
                        )
                },
        ensures
            final(fs).wf(),
            final(fs).same(old(fs)),
            final(fs)@ == old(fs)@,
            final(fs).free_inodes() == old(fs).free_inodes(),
            final(fs).free_blocks() == old(fs).free_blocks() + blocks@.len(),
            forall|b: int| #[trigger]
                old(fs).sb().data_used(final(fs).cache@, b) == (old(fs).sb().data_used(
                    old(fs).cache@,
                    b,
                ) && !listed(blocks@, b)),
    {
        let ghost sb = fs.sb();
        let ghost before = fs.cache@;
        let mut n: usize = 0;
        while n < blocks.len()
            invariant
                n <= blocks@.len(),
                fs.wf(),
                fs.same(old(fs)),
                sb == fs.sb(),
                fs@ == old(fs)@,
                fs.free_inodes() == old(fs).free_inodes(),
                fs.free_blocks() == old(fs).free_blocks() + n,
                blocks@.no_duplicates(),
                before == old(fs).cache@,
                forall|b: int| #[trigger]
                    sb.data_used(fs.cache@, b) == (sb.data_used(before, b) && !listed(
                        blocks@.subrange(0, n as int),
                        b,
                    )),
                forall|m: int|
                    n <= m < blocks@.len() ==> {
                        &&& sb.data_used(fs.cache@, (#[trigger] blocks@[m]) as int)
                        &&& forall|j: int| #[trigger]
                            sb.used(fs.cache@, j) ==> !sb.owns(fs.cache@, j, blocks@[m] as int)
                    },
            decreases blocks@.len() - n,
        {
            let ghost d0 = fs.cache@;
            let b: u32 = blocks[n];
            assert(sb.data_used(d0, blocks@[n as int] as int));
            fs.dealloc_data(b);
            proof {
                sb.lemma_give_data(d0, b as int);
                reveal(SuperBlock::keeps);
                assert forall|m: int| n + 1 <= m < blocks@.len() implies {
                    &&& sb.data_used(fs.cache@, (#[trigger] blocks@[m]) as int)
                    &&& forall|j: int| #[trigger]
                        sb.used(fs.cache@, j) ==> !sb.owns(fs.cache@, j, blocks@[m] as int)
                } by {
                    assert(blocks@[m] != blocks@[n as int]);
                    assert(sb.data_used(d0, blocks@[m] as int));
                    assert forall|j: int| #[trigger] sb.used(fs.cache@, j) implies !sb.owns(
                        fs.cache@,
                        j,
                        blocks@[m] as int,
                    ) by {
                        assert(sb.used(d0, j));
                    }
                }
                assert forall|c: int| #[trigger] sb.data_used(fs.cache@, c) == (sb.data_used(
                    before,
                    c,
                ) && !listed(blocks@.subrange(0, n + 1), c)) by {
                    lemma_listed_next(blocks@, n as int, c);
                    assert(sb.data_used(d0, c) == (sb.data_used(before, c) && !listed(
                        blocks@.subrange(0, n as int),
                        c,
                    )));
                }
            }
            n += 1;
        }
        assert(blocks@.subrange(0, n as int) =~= blocks@);
    }

    /// Reads entry `i` of the directory.
    fn read_entry<D: BlockDevice>(
        disk_inode: &DiskInode,
        i: usize,
        cache: &mut BlockCacheManager<D>,
    ) -> (r: DirEntry)
        requires
            old(cache).inv(),
            disk_inode@.in_range(old(cache)@),
            i < directory::entry_count(disk_inode@.content(old(cache)@)),
        ensures
            final(cache).inv(),
            final(cache)@ == old(cache)@,
            final(cache).held() == old(cache).held(),
            old(cache).on_device() == old(cache)@ ==> final(cache).on_device() == old(cache)@,
            r.wf(),
            r@ == directory::entry_at(disk_inode@.content(old(cache)@), i as int),
    {
        let mut dirent = DirEntry::empty();
        let _n: usize = disk_inode.read_at(DIRENT_SZ * i, dirent.as_bytes_mut(), cache);
        assert(dirent@ =~= directory::entry_at(disk_inode@.content(old(cache)@), i as int));
        dirent
    }

    /// The inode number that the directory gives to the name.
    fn find_inode_id<D: BlockDevice>(&self, name: &str, fs: &mut EasyFileSystem<D>) -> (r: Option<
        u32,
    >)
        requires
            old(fs).wf(),
            self.is_in(old(fs)),
            self.file(old(fs)).dir,
            directory::searchable(self.file(old(fs)).content(), name.spec_bytes()),
        ensures
            final(fs).wf(),
            final(fs).same(old(fs)),
            final(fs).cache@ == old(fs).cache@,
            old(fs).synced() ==> final(fs).synced(),
            r == found_id(self.file(old(fs)).content(), name.spec_bytes()),
    {
        let ghost c = self.file(fs).content();
        let ghost key = name.spec_bytes();
        assert(fs.sb().used(fs.cache@, self.id(fs)));
        let disk_inode: DiskInode = self.read_disk_inode(fs);
        let file_count: usize = disk_inode.size as usize / DIRENT_SZ;
        let mut i: usize = 0;
        let mut cur: usize = 0;
        while cur < file_count
            invariant
                cur <= i,
                cur <= file_count,
                file_count == directory::entry_count(c),
                fs.cache.inv(),
                fs.same(old(fs)),
                fs.cache@ == old(fs).cache@,
                old(fs).synced() ==> fs.synced(),
                old(fs).wf(),
                c == self.file(old(fs)).content(),
                disk_inode@.in_range(fs.cache@),
                disk_inode@.content(fs.cache@) == c,
                key == name.spec_bytes(),
                directory::searchable(c, key),
                directory::search(c, key, false, 0) == directory::search(c, key, false, i as int),
                i <= file_count,
                (forall|j: int| 0 <= j < i ==> #[trigger] directory::live(c, j)) ==> i == cur,
            decreases file_count - i,
        {
            proof {
                directory::lemma_search(c, key, false, i as int);
                if i == file_count {
                    assert(forall|j: int| 0 <= j < i ==> #[trigger] directory::live(c, j));
                }
            }
            let dirent: DirEntry = Self::read_entry(&disk_inode, i, &mut fs.cache);
            if dirent.inode_id() == FILE_NOT_EXIST {
                assert(!directory::live(c, i as int));
                i += 1;
                continue ;
            }
            proof {
                assert(directory::live(c, i as int));
                assert(dir_entry::name_ok(directory::entry_at(c, i as int)));
            }
            if same_bytes(dirent.name().as_bytes(), name.as_bytes()) {
                return Some(dirent.inode_id());
            }
            cur += 1;
            i += 1;
        }
        proof {
            directory::lemma_search(c, key, false, i as int);
        }
        None
    }

    /// Finds an inode under this directory by name.
    pub fn find<D: BlockDevice>(&self, name: &str, fs: &mut EasyFileSystem<D>) -> (r: Option<Inode>)
        requires
            old(fs).wf(),
            self.is_in(old(fs)),
            self.file(old(fs)).dir,
            directory::searchable(self.file(old(fs)).content(), name.spec_bytes()),
            found_id(self.file(old(fs)).content(), name.spec_bytes()) matches Some(n) ==> old(
                fs,
            ).inode_start() + n / 4 <= u32::MAX,
        ensures
            final(fs).wf(),
            final(fs).same(old(fs)),
            final(fs).untouched(old(fs)),
            match found_id(self.file(old(fs)).content(), name.spec_bytes()) {
                Some(n) => {
                    &&& r matches Some(inode)
                    &&& (inode.block(), inode.offset()) == efs::inode_pos(
                        old(fs).inode_start(),
                        n as int,
                    )
                    &&& inode.id(old(fs)) == n
                },
                None => r is None,
            },
    {
        self.do_find(name, fs)
    }

    fn do_find<D: BlockDevice>(&self, name: &str, fs: &mut EasyFileSystem<D>) -> (r: Option<Inode>)
        requires
            old(fs).wf(),
            self.is_in(old(fs)),
            self.file(old(fs)).dir,
            directory::searchable(self.file(old(fs)).content(), name.spec_bytes()),
            found_id(self.file(old(fs)).content(), name.spec_bytes()) matches Some(n) ==> old(
                fs,
            ).inode_start() + n / 4 <= u32::MAX,
        ensures
            final(fs).wf(),
            final(fs).same(old(fs)),
            final(fs).cache@ == old(fs).cache@,
            old(fs).synced() ==> final(fs).synced(),
            match found_id(self.file(old(fs)).content(), name.spec_bytes()) {
                Some(n) => {
                    &&& r matches Some(inode)
                    &&& (inode.block(), inode.offset()) == efs::inode_pos(
                        old(fs).inode_start(),
                        n as int,
                    )
                    &&& inode.id(old(fs)) == n
                },
                None => r is None,
            },
    {
        match self.find_inode_id(name, fs) {
            Some(inode_id) => {
                let (block_id, block_offset): (u32, usize) = fs.get_disk_inode_pos(inode_id);
                proof {
                    efs::lemma_inode_place(fs.inode_start(), inode_id as int);
                }
                Some(Inode::new(block_id, block_offset))
            },
            None => None,
        }
    }

    /// Adds an entry at the end of the directory.
    fn append_dirent<D: BlockDevice>(
        &self,
        new_name: &str,
        inode_id: u32,
        fs: &mut EasyFileSystem<D>,
    )
        requires
            old(fs).wf(),
            self.is_in(old(fs)),
            can_append(self.file(old(fs)), old(fs).free_blocks()),
            new_name.spec_bytes().len() <= dir_entry::NAME_LENGTH_LIMIT,
        ensures
            final(fs).wf(),
            final(fs).same(old(fs)),
            final(fs)@ == old(fs)@.insert(
                self.id(old(fs)),
                self.file(old(fs)).appended(
                    dir_entry::make_entry(new_name.spec_bytes(), inode_id),
                ),
            ),
            final(fs).free_inodes() == old(fs).free_inodes(),
            final(fs).free_blocks() == old(fs).free_blocks() - append_need(self.file(old(fs))),
            growth::has_grown(
                old(fs).sb(),
                old(fs).cache@,
                final(fs).cache@,
                self.id(old(fs)),
            ),
    {
        let ghost i = self.id(fs);
        let ghost files = fs@;
        assert(fs.sb().used(fs.cache@, i));
        let disk_inode: DiskInode = self.read_disk_inode(fs);
        let file_count: usize = disk_inode.size as usize / DIRENT_SZ;
        let new_size: usize = (file_count + 1) * DIRENT_SZ;
        self.increase_size(new_size as u32, fs);
        let ghost d1 = fs.cache@;
        let dirent = DirEntry::new(new_name, inode_id);
        proof {
            dir_entry::lemma_made_entry(new_name.spec_bytes(), inode_id);
        }
        self.write_content(file_count * DIRENT_SZ, dirent.as_bytes(), fs);
        proof {
            assert(dirent@.subrange(0, 32) =~= dirent@);
            assert(fs@ =~= files.insert(i, files[i].appended(dirent@)));
            growth::lemma_grown_files(fs.sb(), old(fs).cache@, d1, fs.cache@, i);
        }
    }

    /// Takes the first entry with this name out of the directory.
    fn remove_dirent<D: BlockDevice>(&self, name: &str, fs: &mut EasyFileSystem<D>) -> (r: Option<
        DirEntry,
    >)
        requires
            old(fs).wf(),
            self.is_in(old(fs)),
            directory::readable(self.file(old(fs)).content(), name.spec_bytes(), true),
        ensures
            final(fs).wf(),
            final(fs).same(old(fs)),
            match directory::search(
                self.file(old(fs)).content(),
                name.spec_bytes(),
                true,
                0,
            ) {
                Some(k) => {
                    &&& r matches Some(e)
                    &&& e.wf()
                    &&& e@ == directory::entry_at(self.file(old(fs)).content(), k)
                    &&& final(fs)@ == old(fs)@.insert(
                        self.id(old(fs)),
                        self.file(old(fs)).without(k),
                    )
                },
                None => r is None && final(fs)@ == old(fs)@,
            },
            final(fs).free_inodes() == old(fs).free_inodes(),
            final(fs).free_blocks() == old(fs).free_blocks(),
            old(fs).sb().same_blocks(old(fs).cache@, final(fs).cache@, self.id(old(fs))),
    {
        let ghost c = self.file(fs).content();
        let ghost key = name.spec_bytes();
        assert(fs.sb().used(fs.cache@, self.id(fs)));
        let disk_inode: DiskInode = self.read_disk_inode(fs);
        let file_count: usize = disk_inode.size as usize / DIRENT_SZ;
        let mut i: usize = 0;
        while i < file_count
            invariant
                i <= file_count,
                file_count == directory::entry_count(c),
                fs.cache.inv(),
                fs.same(old(fs)),
                fs.cache@ == old(fs).cache@,
                old(fs).synced() ==> fs.synced(),
                old(fs).wf(),
                c == self.file(old(fs)).content(),
                self.is_in(old(fs)),
                self.file(old(fs)).size == c.len(),
                c.len() <= u32::MAX,
                disk_inode@.in_range(fs.cache@),
                disk_inode@.content(fs.cache@) == c,
                key == name.spec_bytes(),
                directory::readable(c, key, true),
                directory::search(c, key, true, 0) == directory::search(c, key, true, i as int),
            decreases file_count - i,
        {
            let mut dirent: DirEntry = Self::read_entry(&disk_inode, i, &mut fs.cache);
            proof {
                directory::lemma_search(c, key, true, i as int);
                assert(dir_entry::name_ok(directory::entry_at(c, i as int)));
            }
            if same_bytes(dirent.name().as_bytes(), name.as_bytes()) {
                self.remove_content(DIRENT_SZ * i, dirent.as_bytes_mut(), fs);
                assert(dirent@ =~= directory::entry_at(c, i as int));
                return Some(dirent);
            }
            i += 1;
        }
        proof {
            let sb = fs.sb();
            let all = sb.blocks_of(fs.cache@, self.id(fs));
            assert(all.subrange(0, sb.inode(fs.cache@, self.id(fs)).total()) =~= all);
        }
        None
    }

    /// Creates a file under this directory by name: the first free inode gets
    /// one link, and the directory an entry for it. `None` if the name is
    /// taken.
    pub fn create<D: BlockDevice>(&self, name: &str, fs: &mut EasyFileSystem<D>) -> (r: Option<
        Inode,
    >)
        requires
            old(fs).wf(),
            self.is_in(old(fs)),
            self.file(old(fs)).dir,
            directory::searchable(self.file(old(fs)).content(), name.spec_bytes()),
            found_id(self.file(old(fs)).content(), name.spec_bytes()) is None ==> {
                &&& old(fs).free_inodes() > 0
                &&& can_append(self.file(old(fs)), old(fs).free_blocks())
                &&& name.spec_bytes().len() <= dir_entry::NAME_LENGTH_LIMIT
            },
        ensures
            final(fs).wf(),
            final(fs).same(old(fs)),
            match found_id(self.file(old(fs)).content(), name.spec_bytes()) {
                Some(_) => r is None && final(fs).untouched(old(fs)),
                None => {
                    &&& r matches Some(inode)
                    &&& inode.is_in(final(fs))
                    &&& inode.id(final(fs)) <= u32::MAX
                    &&& !old(fs)@.contains_key(inode.id(old(fs)))
                    &&& forall|j: int|
                        0 <= j < inode.id(old(fs)) ==> #[trigger] old(fs)@.contains_key(j)
                    &&& final(fs)@ == created(
                        old(fs)@,
                        self.id(old(fs)),
                        name.spec_bytes(),
                        inode.id(old(fs)),
                    )
                    &&& final(fs).free_inodes() == old(fs).free_inodes() - 1
                    &&& final(fs).free_blocks() == old(fs).free_blocks() - append_need(
                        self.file(old(fs)),
                    )
                    &&& growth::has_grown(
                        old(fs).sb(),
                        old(fs).cache@,
                        final(fs).cache@,
                        self.id(old(fs)),
                    )
                    &&& final(fs).synced()
                },
            },
    {
        if self.find_inode_id(name, fs).is_some() {
            return None;
        }
        let ghost d0 = fs.cache@;
        let ghost sb = fs.sb();
        let ghost i = self.id(fs);
        let new_inode_id: u32 = fs.alloc_inode();
        let ghost d1 = fs.cache@;
        assert(fs@.contains_key(i));
        proof {
            fs.sb().lemma_places(fs.cache@);
            efs::lemma_inode_place(fs.inode_start(), new_inode_id as int);
            let b = fs.sb().inode_block(new_inode_id as int);
            assert(b < fs.sb().data_bitmap());
        }
        let (block_id, block_offset): (u32, usize) = fs.get_disk_inode_pos(new_inode_id);
        let inode = Inode::new(block_id, block_offset);
        inode.initialize(DiskInodeType::File, fs);
        let ghost files = fs@;
        let ghost d2 = fs.cache@;
        self.append_dirent(name, new_inode_id, fs);
        proof {
            assert forall|j: int| sb.used(d0, j) implies #[trigger] sb.blocks_of(d2, j)
                == sb.blocks_of(d0, j) by {
                assert(old(fs)@.contains_key(j));
                assert(sb.files(d1).contains_key(j));
                assert(sb.used(d1, j));
                assert(sb.blocks_of(d1, j) == sb.blocks_of(d0, j));
            }
            assert(sb.used(d0, i));
            growth::lemma_not_grown(sb, d0, d2, i);
            growth::lemma_grown_files(sb, d0, d2, fs.cache@, i);
            assert(files =~= old(fs)@.insert(new_inode_id as int, FileData::empty(false, 1)));
        }
        fs.cache.block_cache_sync_all();
        Some(inode)
    }

    /// Whether this is a directory whose entries all have a name that can be read
    /// and lead to a file.
    pub fn is_sound<D: BlockDevice>(&self, fs: &mut EasyFileSystem<D>) -> (r: bool)
        requires
            old(fs).wf(),
            self.is_in(old(fs)),
        ensures
            final(fs).wf(),
            final(fs).same(old(fs)),
            final(fs).untouched(old(fs)),
            r == (self.file(old(fs)).dir && entries_ok(old(fs)@, self.file(old(fs)).content())),
    {
        let ghost files = fs@;
        let ghost c = self.file(fs).content();
        assert(fs.sb().used(fs.cache@, self.id(fs)));
        let disk_inode: DiskInode = self.read_disk_inode(fs);
        if !disk_inode.is_dir() {
            return false;
        }
        let file_count: usize = disk_inode.size as usize / DIRENT_SZ;
        let inodes: usize = fs.inode_bitmap.maximum();
        let mut i: usize = 0;
        while i < file_count
            invariant
                i <= file_count,
                file_count == directory::entry_count(c),
                fs.wf(),
                fs.same(old(fs)),
                fs.cache@ == old(fs).cache@,
                files == fs@,
                files == old(fs)@,
                c == self.file(old(fs)).content(),
                old(fs).synced() ==> fs.synced(),
                inodes == fs.sb().inodes(),
                disk_inode@.in_range(fs.cache@),
                disk_inode@.content(fs.cache@) == c,
                forall|j: int|
                    0 <= j < i ==> entry_ok(files, #[trigger] directory::entry_at(c, j)),
            decreases file_count - i,
        {
            let dirent: DirEntry = Self::read_entry(&disk_inode, i, &mut fs.cache);
            let ghost e = directory::entry_at(c, i as int);
            let id: u32 = dirent.inode_id();
            let known: bool = id != FILE_NOT_EXIST && (id as usize) < inodes
                && fs.inode_bitmap.is_set(&mut fs.cache, id as usize);
            assert(known == (id != FILE_NOT_EXIST && files.contains_key(id as int)));
            if !known || !dirent.has_name() {
                assert(!entry_ok(files, e));
                return false;
            }
            i += 1;
        }
        true
    }

    /// Lists the names under this directory.
    pub fn ls<D: BlockDevice>(&self, fs: &mut EasyFileSystem<D>) -> (r: Vec<String>)
        requires
            old(fs).wf(),
            self.is_in(old(fs)),
            names_ok(self.file(old(fs)).content()),
        ensures
            final(fs).wf(),
            final(fs).same(old(fs)),
            final(fs).untouched(old(fs)),
            r@.len() == directory::entry_count(self.file(old(fs)).content()),
            forall|i: int|
                0 <= i < r@.len() ==> vstd::utf8::encode_utf8((#[trigger] r@[i])@)
                    == directory::name_at(self.file(old(fs)).content(), i),
    {
        self.do_ls(fs)
    }

    fn do_ls<D: BlockDevice>(&self, fs: &mut EasyFileSystem<D>) -> (r: Vec<String>)
        requires
            old(fs).wf(),
            self.is_in(old(fs)),
            names_ok(self.file(old(fs)).content()),
        ensures
            final(fs).wf(),
            final(fs).same(old(fs)),
            final(fs).cache@ == old(fs).cache@,
            old(fs).synced() ==> final(fs).synced(),
            r@.len() == directory::entry_count(self.file(old(fs)).content()),
            forall|i: int|
                0 <= i < r@.len() ==> vstd::utf8::encode_utf8((#[trigger] r@[i])@)
                    == directory::name_at(self.file(old(fs)).content(), i),
    {
        let ghost c = self.file(fs).content();
        assert(fs.sb().used(fs.cache@, self.id(fs)));
        let disk_inode: DiskInode = self.read_disk_inode(fs);
        let file_count: usize = disk_inode.size as usize / DIRENT_SZ;
        let mut v: Vec<String> = Vec::new();
        let mut i: usize = 0;
        while i < file_count
            invariant
                i <= file_count,
                file_count == directory::entry_count(c),
                fs.cache.inv(),
                fs.same(old(fs)),
                fs.cache@ == old(fs).cache@,
                old(fs).synced() ==> fs.synced(),
                disk_inode@.in_range(fs.cache@),
                disk_inode@.content(fs.cache@) == c,
                names_ok(c),
                v@.len() == i,
                forall|j: int|
                    0 <= j < i ==> vstd::utf8::encode_utf8((#[trigger] v@[j])@)
                        == directory::name_at(c, j),
            decreases file_count - i,
        {
            let dirent: DirEntry = Self::read_entry(&disk_inode, i, &mut fs.cache);
            assert(dir_entry::name_ok(directory::entry_at(c, i as int)));
            v.push(dirent.name().to_owned());
            i += 1;
        }
        v
    }

    /// Reads the content from `offset` on into `buf`, and gives the number of
    /// bytes read.
    pub fn read_at<D: BlockDevice>(
        &self,
        offset: usize,
        buf: &mut [u8],
        fs: &mut EasyFileSystem<D>,
    ) -> (r: usize)
        requires
            old(fs).wf(),
            self.is_in(old(fs)),
            offset + old(buf)@.len() <= usize::MAX,
        ensures
            final(fs).wf(),
            final(fs).same(old(fs)),
            final(fs).untouched(old(fs)),
            r == disk_inode::read_len(
                self.file(old(fs)).size,
                offset as int,
                old(buf)@.len() as int,
            ),
            final(buf)@ == bytes::splice(
                old(buf)@,
                0,
                bytes::part(self.file(old(fs)).content(), offset as int, r as int),
            ),
    {
        assert(fs.sb().used(fs.cache@, self.id(fs)));
        let disk_inode: DiskInode = self.read_disk_inode(fs);
        disk_inode.read_at(offset, buf, &mut fs.cache)
    }

    /// Writes `buf` over the content from `offset` on; the inode grows where
    /// the content is shorter. What lies between the old end and `offset` are
    /// the bytes that the last block held, then zeros.
    pub fn write_at<D: BlockDevice>(
        &self,
        offset: usize,
        buf: &[u8],
        fs: &mut EasyFileSystem<D>,
    ) -> (r: usize)
        requires
            old(fs).wf(),
            self.is_in(old(fs)),
            disk_inode::blocks_for(offset + buf@.len()) <= disk_inode::INDIRECT2_BOUND,
            disk_inode::grow_need(self.file(old(fs)).size, offset + buf@.len()) <= old(
                fs,
            ).free_blocks(),
        ensures
            final(fs).wf(),
            final(fs).same(old(fs)),
            final(fs).synced(),
            r == buf@.len(),
            final(fs)@ == old(fs)@.insert(
                self.id(old(fs)),
                self.file(old(fs)).grown(offset + buf@.len()).written(offset as int, buf@),
            ),
            final(fs).free_inodes() == old(fs).free_inodes(),
            final(fs).free_blocks() == old(fs).free_blocks() - disk_inode::grow_need(
                self.file(old(fs)).size,
                offset + buf@.len(),
            ),
            growth::has_grown(
                old(fs).sb(),
                old(fs).cache@,
                final(fs).cache@,
                self.id(old(fs)),
            ),
    {
        let _len: usize = buf.len();
        let ghost files = fs@;
        let ghost i = self.id(fs);
        self.increase_size((offset + buf.len()) as u32, fs);
        let ghost d1 = fs.cache@;
        let r: usize = self.write_content(offset, buf, fs);
        proof {
            assert(buf@.subrange(0, r as int) =~= buf@);
            assert(fs@ =~= files.insert(
                i,
                files[i].grown(offset + buf@.len()).written(offset as int, buf@),
            ));
            growth::lemma_grown_files(fs.sb(), old(fs).cache@, d1, fs.cache@, i);
        }
        fs.cache.block_cache_sync_all();
        r
    }

    /// Clears the content; its blocks are given back.
    pub fn clear<D: BlockDevice>(&self, fs: &mut EasyFileSystem<D>)
        requires
            old(fs).wf(),
            self.is_in(old(fs)),
        ensures
            final(fs).wf(),
            final(fs).same(old(fs)),
            was_cleared(old(fs), final(fs), self.id(old(fs))),
    {
        self.do_clear(fs);
        fs.cache.block_cache_sync_all();
    }

    /// The inode number.
    pub fn inode_id<D: BlockDevice>(&self, fs: &EasyFileSystem<D>) -> (r: u32)
        requires
            fs.wf(),
            self.is_in(fs),
        ensures
            r == self.id(fs),
    {
        proof {
            fs.sb().lemma_places(fs.cache@);
            assert(fs.sb().used(fs.cache@, self.id(fs)));
        }
        fs.compute_inode_id(self.block_id as u32, self.block_offset as u32)
    }

    /// Whether this is a directory.
    pub fn is_dir<D: BlockDevice>(&self, fs: &mut EasyFileSystem<D>) -> (r: bool)
        requires
            old(fs).wf(),
            self.is_in(old(fs)),
        ensures
            final(fs).wf(),
            final(fs).same(old(fs)),
            final(fs).untouched(old(fs)),
            r == self.file(old(fs)).dir,
    {
        self.read_disk_inode(fs).is_dir()
    }

    /// Whether this is a file.
    pub fn is_file<D: BlockDevice>(&self, fs: &mut EasyFileSystem<D>) -> (r: bool)
        requires
            old(fs).wf(),
            self.is_in(old(fs)),
        ensures
            final(fs).wf(),
            final(fs).same(old(fs)),
            final(fs).untouched(old(fs)),
            r == !self.file(old(fs)).dir,
    {
        self.read_disk_inode(fs).is_file()
    }

    /// The number of hard links.
    pub fn nlink<D: BlockDevice>(&self, fs: &mut EasyFileSystem<D>) -> (r: u32)
        requires
            old(fs).wf(),
            self.is_in(old(fs)),
        ensures
            final(fs).wf(),
            final(fs).same(old(fs)),
            final(fs).untouched(old(fs)),
            r == self.file(old(fs)).nlink,
    {
        self.do_nlink(fs)
    }

    /// Reads the number of hard links.
    pub fn do_nlink<D: BlockDevice>(&self, fs: &mut EasyFileSystem<D>) -> (r: u32)
        requires
            old(fs).wf(),
            self.is_in(old(fs)),
        ensures
            final(fs).wf(),
            final(fs).same(old(fs)),
            final(fs).untouched(old(fs)),
            r == self.file(old(fs)).nlink,
    {
        self.read_disk_inode(fs).nlink
    }

    /// Adds a hard link: an entry of this directory that gives `new_name` to
    /// `old_inode`, which counts one link more. Returns 0; -1 if the name is
    /// taken; -2 if `old_inode` is a directory.
    pub fn add_link<D: BlockDevice>(
        &self,
        new_name: &str,
        old_inode: &Inode,
        fs: &mut EasyFileSystem<D>,
    ) -> (r: isize)
        requires
            old(fs).wf(),
            self.is_in(old(fs)),
            old_inode.is_in(old(fs)),
            !old_inode.file(old(fs)).dir ==> {
                &&& self.file(old(fs)).dir
                &&& directory::searchable(self.file(old(fs)).content(), new_name.spec_bytes())
                &&& match found_id(self.file(old(fs)).content(), new_name.spec_bytes()) {
                    Some(n) => old(fs).inode_start() + n / 4 <= u32::MAX,
                    None => {
                        &&& can_append(self.file(old(fs)), old(fs).free_blocks())
                        &&& new_name.spec_bytes().len() <= dir_entry::NAME_LENGTH_LIMIT
                        &&& old_inode.file(old(fs)).nlink < u32::MAX
                    },
                }
            },
        ensures
            final(fs).wf(),
            final(fs).same(old(fs)),
            ({
                let taken = found_id(self.file(old(fs)).content(), new_name.spec_bytes()) is Some;
                if old_inode.file(old(fs)).dir {
                    r == -2 && final(fs).untouched(old(fs))
                } else if taken {
                    r == -1 && final(fs).untouched(old(fs))
                } else {
                    &&& r == 0
                    &&& was_linked(
                        old(fs),
                        final(fs),
                        self.id(old(fs)),
                        new_name.spec_bytes(),
                        old_inode.id(old(fs)),
                    )
                }
            }),
    {
        if old_inode.is_dir(fs) {
            return -2;
        }
        if self.do_find(new_name, fs).is_some() {
            return -1;
        }
        let ghost sb = fs.sb();
        let ghost d0 = fs.cache@;
        let ghost i = self.id(fs);
        let ghost n = old_inode.id(fs);
        let old_inode_id: u32 = old_inode.inode_id(fs);
        self.append_dirent(new_name, old_inode_id, fs);
        let ghost d1 = fs.cache@;
        let nlink: u32 = old_inode.do_nlink(fs);
        old_inode.set_nlink(nlink + 1, fs);
        proof {
            let d2 = fs.cache@;
            assert(sb.files(d1).contains_key(n) && sb.files(d2).contains_key(n));
            assert(sb.files(d1)[n].size == sb.files(d2)[n].size);
            assert(sb.inode(d1, n).size == sb.inode(d2, n).size);
            assert(sb.blocks_of(d2, n) =~= sb.blocks_of(d1, n));
            assert forall|j: int| sb.used(d1, j) implies #[trigger] sb.blocks_of(d2, j)
                == sb.blocks_of(d1, j) by {}
            assert(sb.files(d1).contains_key(i));
            assert(sb.used(d1, i));
            growth::lemma_not_grown(sb, d1, d2, i);
            growth::lemma_grown_files(sb, d0, d1, d2, i);
        }
        fs.cache.block_cache_sync_all();
        0
    }

    /// Takes one link off the inode, and the first entry with the name out of
    /// this directory. Gives the number of links that are left.
    fn drop_entry<D: BlockDevice>(
        &self,
        name: &str,
        inode: &Inode,
        fs: &mut EasyFileSystem<D>,
    ) -> (r: u32)
        requires
            old(fs).wf(),
            self.is_in(old(fs)),
            inode.is_in(old(fs)),
            inode.file(old(fs)).nlink > 0,
            directory::readable(self.file(old(fs)).content(), name.spec_bytes(), true),
        ensures
            final(fs).wf(),
            final(fs).same(old(fs)),
            inode.is_in(final(fs)),
            r == inode.file(old(fs)).nlink - 1,
            final(fs)@ == entry_removed(
                old(fs)@,
                self.id(old(fs)),
                name.spec_bytes(),
                inode.id(old(fs)),
            ),
            final(fs).free_inodes() == old(fs).free_inodes(),
            final(fs).free_blocks() == old(fs).free_blocks(),
            forall|b: int| #[trigger]
                old(fs).sb().data_used(final(fs).cache@, b) == old(fs).sb().data_used(
                    old(fs).cache@,
                    b,
                ),
            old(fs).sb().blocks_of(final(fs).cache@, inode.id(old(fs))) == blocks_left(
                old(fs).sb(),
                old(fs).cache@,
                self.id(old(fs)),
                name.spec_bytes(),
                inode.id(old(fs)),
            ),
    {
        let ghost key = name.spec_bytes();
        let ghost c = self.file(fs).content();
        let ghost i = self.id(fs);
        let ghost t = inode.id(fs);
        let ghost sb = fs.sb();
        let ghost d0 = fs.cache@;
        assert(sb.used(d0, t) && sb.used(d0, i));
        let nlink: u32 = inode.do_nlink(fs);
        inode.set_nlink(nlink - 1, fs);
        let ghost d1 = fs.cache@;
        let ghost files1 = fs@;
        proof {
            assert(files1[i].content() == c);
            directory::lemma_search(c, key, true, 0);
            assert(files1.contains_key(t));
            assert(sb.used(d1, t));
            assert(files1[t].size == old(fs)@[t].size);
        }
        let _dirent: Option<DirEntry> = self.remove_dirent(name, fs);
        proof {
            let d2 = fs.cache@;
            assert(fs@ =~= entry_removed(old(fs)@, i, key, t));
            lemma_blocks_left(sb, d0, d1, d2, t, i);
            assert(fs@.contains_key(t));
            assert(sb.used(d2, t));
            assert(sb.inode(d2, t).size == fs@[t].size);
            let all = sb.blocks_of(d0, t);
            if t != i {
                assert(fs@[t].size == old(fs)@[t].size);
                assert(all.subrange(0, sb.inode(d0, t).total()) =~= all);
            }
        }
        nlink - 1
    }

    /// Gives the blocks of the inode back, and then the inode itself.
    fn discard<D: BlockDevice>(&self, inode_id: u32, fs: &mut EasyFileSystem<D>)
        requires
            old(fs).wf(),
            self.is_in(old(fs)),
            inode_id == self.id(old(fs)),
        ensures
            final(fs).wf(),
            final(fs).same(old(fs)),
            final(fs)@ == old(fs)@.remove(self.id(old(fs))),
            final(fs).free_inodes() == old(fs).free_inodes() + 1,
            final(fs).free_blocks() == old(fs).free_blocks() + disk_inode::total_for(
                disk_inode::blocks_for(self.file(old(fs)).size),
            ),
            forall|b: int| #[trigger]
                old(fs).sb().data_used(final(fs).cache@, b) == (old(fs).sb().data_used(
                    old(fs).cache@,
                    b,
                ) && !old(fs).sb().owns(old(fs).cache@, self.id(old(fs)), b)),
    {
        let ghost sb = fs.sb();
        let ghost d0 = fs.cache@;
        self.do_clear(fs);
        let ghost d1 = fs.cache@;
        fs.dealloc_inode(inode_id);
        proof {
            assert(fs@ =~= old(fs)@.remove(self.id(old(fs))));
            assert forall|b: int| #[trigger] sb.data_used(fs.cache@, b) == (sb.data_used(d0, b)
                && !sb.owns(d0, self.id(old(fs)), b)) by {
                assert(sb.data_used(fs.cache@, b) == sb.data_used(d1, b));
            }
        }
    }

    /// Removes the hard link with this name from the directory; the inode
    /// counts one link less, and with the last link its blocks and the inode
    /// itself are given back. Returns 0; -1 if there is no such name.
    pub fn remove_link<D: BlockDevice>(&self, name: &str, fs: &mut EasyFileSystem<D>) -> (r: isize)
        requires
            old(fs).wf(),
            self.is_in(old(fs)),
            self.file(old(fs)).dir,
            directory::searchable(self.file(old(fs)).content(), name.spec_bytes()),
            found_id(self.file(old(fs)).content(), name.spec_bytes()) matches Some(n) ==> {
                &&& old(fs)@.contains_key(n as int)
                &&& old(fs)@[n as int].nlink > 0
                &&& directory::readable(self.file(old(fs)).content(), name.spec_bytes(), true)
            },
        ensures
            final(fs).wf(),
            final(fs).same(old(fs)),
            match found_id(self.file(old(fs)).content(), name.spec_bytes()) {
                Some(n) => {
                    &&& r == 0
                    &&& was_unlinked(
                        old(fs),
                        final(fs),
                        self.id(old(fs)),
                        name.spec_bytes(),
                        n as int,
                    )
                },
                None => r == -1 && final(fs).untouched(old(fs)),
            },
    {
        let ghost c = self.file(fs).content();
        let ghost key = name.spec_bytes();
        let ghost i = self.id(fs);
        let ghost sb = fs.sb();
        let ghost d0 = fs.cache@;
        proof {
            fs.sb().lemma_places(fs.cache@);
            if let Some(n) = found_id(c, key) {
                assert(fs.sb().used(fs.cache@, n as int));
                assert(fs.sb().inode_block(n as int) < fs.sb().data_bitmap());
            }
        }
        match self.do_find(name, fs) {
            Some(inode) => {
                let ghost t = inode.id(fs);
                let inode_id: u32 = inode.inode_id(fs);
                let nlink: u32 = self.drop_entry(name, &inode, fs);
                let ghost d2 = fs.cache@;
                let ghost left = blocks_left(sb, d0, i, key, t);
                if nlink == 0 {
                    inode.discard(inode_id, fs);
                }
                proof {
                    assert(fs@ =~= link_removed(old(fs)@, i, key, t));
                    if t != i {
                        let all = sb.blocks_of(d0, t);
                        assert(sb.used(d0, t));
                        assert(entry_removed(old(fs)@, i, key, t)[t].size == old(fs)@[t].size);
                        assert(left =~= all);
                    }
                    lemma_freed(sb, d0, d2, fs.cache@, t, nlink == 0, left);
                }
                fs.cache.block_cache_sync_all();
                0
            },
            None => -1,
        }
    }
}

} // verus!
