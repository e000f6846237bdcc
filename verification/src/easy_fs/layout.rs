//! How a file system lies on disk, in terms of blocks, offsets and numbers.
use super::bitmap;
use super::block_cache::DiskRecord;
use super::bytes;
use super::dir_entry;
use super::directory;
use super::disk_inode;
use super::disk_inode::{DiskInode, InodeData};
use super::efs;
use super::super_block::SuperBlock;
use super::volume::FileData;
use vstd::prelude::*;

verus! {

/// The super block is six words, little endian: the magic number, and the lengths of
/// the file system and of its areas.
pub proof fn law_super_block_bytes(sb: SuperBlock, before: Seq<u8>)
    ensures
        ({
            let s = SuperBlock::stored(sb, before);
            &&& s.len() == 24
            &&& bytes::u32_at(s, 0) == sb.magic
            &&& bytes::u32_at(s, 4) == sb.total_blocks
            &&& bytes::u32_at(s, 8) == sb.inode_bitmap_blocks
            &&& bytes::u32_at(s, 12) == sb.inode_area_blocks
            &&& bytes::u32_at(s, 16) == sb.data_bitmap_blocks
            &&& bytes::u32_at(s, 20) == sb.data_area_blocks
        }),
        sb.valid() == (sb.magic == 0x3b80_0001),
{
    SuperBlock::lemma_read_back(sb, before);
}

/// The record of an inode is 128 bytes: the size, the links, the numbers of 27 blocks
/// and of two index blocks, and whether it is a directory.
pub proof fn law_inode_bytes(inode: InodeData, before: Seq<u8>, i: int)
    requires
        inode.direct.len() == 27,
        before.len() == 128,
        0 <= i < 27,
    ensures
        ({
            let s = DiskInode::stored(inode, before);
            &&& s.len() == 128
            &&& bytes::u32_at(s, 0) == inode.size
            &&& bytes::u32_at(s, 4) == inode.nlink
            &&& bytes::u32_at(s, 8 + 4 * i) == inode.direct[i]
            &&& bytes::u32_at(s, 116) == inode.indirect1
            &&& bytes::u32_at(s, 120) == inode.indirect2
            &&& s[124] == if inode.dir {
                1int
            } else {
                0
            }
        }),
{
    let w = inode.words();
    let tail = seq![
        if inode.dir {
            1u8
        } else {
            0u8
        },
    ] + before.subrange(125, 128);
    assert(DiskInode::stored(inode, before) =~= bytes::words_bytes(w) + tail);
    bytes::lemma_words_bytes(w, tail, 0);
    bytes::lemma_words_bytes(w, tail, 1);
    bytes::lemma_words_bytes(w, tail, i + 2);
    bytes::lemma_words_bytes(w, tail, 29);
    bytes::lemma_words_bytes(w, tail, 30);
}

/// Four inodes lie in a block, one behind the other.
pub proof fn law_inode_place(start: int, i: int)
    requires
        0 <= i,
    ensures
        512 * efs::inode_pos(start, i).0 + efs::inode_pos(start, i).1 == 512 * start + 128 * i,
        0 <= efs::inode_pos(start, i).1 < 512,
{
    assert(i == 4 * (i / 4) + i % 4);
}

/// An entry of a directory is the name, zeros up to 28 bytes, and the number of the
/// inode.
pub proof fn law_entry_bytes(name: Seq<u8>, id: u32, i: int)
    requires
        name.len() <= 27,
        0 <= i < 28,
    ensures
        dir_entry::make_entry(name, id).len() == 32,
        dir_entry::make_entry(name, id)[i] == if i < name.len() {
            name[i]
        } else {
            0
        },
        bytes::u32_at(dir_entry::make_entry(name, id), 28) == id,
{
    let e = dir_entry::make_entry(name, id);
    let b = bytes::u32_bytes(id);
    assert(e[28] == b[0] && e[29] == b[1] && e[30] == b[2] && e[31] == b[3]);
}

/// The name in an entry is what stands before its first zero byte.
pub proof fn law_entry_name(e: Seq<u8>, n: int)
    requires
        e.len() == 32,
        0 <= n <= 27,
        e[n] == 0,
        forall|i: int| 0 <= i < n ==> #[trigger] e[i] != 0,
    ensures
        dir_entry::entry_name(e) == e.subrange(0, n),
        dir_entry::entry_id(e) == bytes::u32_at(e, 28),
{
    lemma_zero_found(e, 0, n);
}

proof fn lemma_zero_found(e: Seq<u8>, i: int, n: int)
    requires
        0 <= i <= n <= 27,
        e[n] == 0,
        forall|k: int| i <= k < n ==> #[trigger] e[k] != 0,
    ensures
        dir_entry::name_end(e, i) == n,
    decreases n - i,
{
    if i < n {
        lemma_zero_found(e, i + 1, n);
    }
}

/// A name that was put into an entry is read back, and so is the number.
pub proof fn law_entry_read_back(name: Seq<u8>, id: u32)
    requires
        name.len() <= 27,
        forall|i: int| 0 <= i < name.len() ==> #[trigger] name[i] != 0,
    ensures
        dir_entry::entry_name(dir_entry::make_entry(name, id)) == name,
        dir_entry::entry_id(dir_entry::make_entry(name, id)) == id,
{
    let e = dir_entry::make_entry(name, id);
    let n = name.len() as int;
    assert(e[n] == 0);
    law_entry_bytes(name, id, n);
    law_entry_name(e, n);
    assert(e.subrange(0, n) =~= name);
}

/// Content of a directory is a sequence of entries of 32 bytes.
pub proof fn law_directory_entries(c: Seq<u8>, i: int, k: int)
    requires
        0 <= i,
        32 * i + 32 <= c.len(),
        0 <= k < 32,
    ensures
        i < directory::entry_count(c),
        directory::entry_at(c, i)[k] == c[32 * i + k],
        directory::live(c, i) == (directory::id_at(c, i) != super::FILE_NOT_EXIST),
{
}

/// The blocks of a content are as many as hold it, and no more.
pub proof fn law_blocks_for(size: int)
    requires
        0 <= size,
    ensures
        512 * disk_inode::blocks_for(size) >= size,
        512 * (disk_inode::blocks_for(size) - 1) < size,
{
}

/// Where the number of a data block is found: among the 27 in the record, among 128 in
/// the first index block, or in one of the index blocks below the second.
pub proof fn law_block_place(inode: InodeData, disk: Seq<Seq<u8>>, k: int)
    requires
        0 <= k,
    ensures
        k < 27 ==> inode.block(disk, k) == inode.direct[k],
        27 <= k < 155 ==> inode.block(disk, k) == bytes::u32_at(
            disk[inode.indirect1 as int],
            4 * (k - 27),
        ),
        155 <= k ==> inode.block(disk, k) == bytes::u32_at(
            disk[bytes::u32_at(disk[inode.indirect2 as int], 4 * ((k - 155) / 128)) as int],
            4 * ((k - 155) % 128),
        ),
{
}

/// Byte `i` of a file lies in data block `i / 512` of its inode.
pub proof fn law_file_bytes(sb: SuperBlock, disk: Seq<Seq<u8>>, n: int, i: int)
    requires
        0 <= i < sb.inode(disk, n).size,
    ensures
        sb.file(disk, n).size == sb.inode(disk, n).size,
        sb.file(disk, n).content()[i] == disk[sb.inode(disk, n).block(disk, i / 512) as int][i
            % 512],
        sb.file(disk, n).dir == sb.inode(disk, n).dir,
        sb.file(disk, n).nlink == sb.inode(disk, n).nlink,
{
    law_blocks_for(sb.inode(disk, n).size as int);
}

/// One more data block takes one block, and one more for each index block that has to
/// come before it.
pub proof fn law_next_block(n: int)
    requires
        0 <= n,
    ensures
        disk_inode::total_for(0) == 0,
        disk_inode::total_for(n + 1) == disk_inode::total_for(n) + 1 + (if n == 27 || n == 155 {
            1int
        } else {
            0
        }) + (if n >= 155 && (n - 155) % 128 == 0 {
            1int
        } else {
            0
        }),
{
    if n >= 155 {
        let a = (n - 155) / 128;
        let b = (n - 155) % 128;
        assert(n - 155 == 128 * a + b);
        assert((n - 155 + 128) / 128 == a + 1);
        if b == 0 {
            assert((n - 155 + 127) / 128 == a);
        } else {
            assert((n - 155 + 127) / 128 == a + 1);
        }
    }
}

/// Growing needs just the blocks that are not there yet.
pub proof fn law_grow_need(size: int, new_size: int)
    requires
        0 <= size,
        0 <= new_size,
    ensures
        new_size <= size ==> disk_inode::grow_need(size, new_size) == 0,
        size <= new_size ==> disk_inode::total_for(disk_inode::blocks_for(size))
            + disk_inode::grow_need(size, new_size) == disk_inode::total_for(
            disk_inode::blocks_for(new_size),
        ),
{
}

/// A read gets as many bytes as there are, and no more than it asks for.
pub proof fn law_read_len(size: int, offset: int, len: int)
    requires
        0 <= size,
        0 <= offset,
        0 <= len,
    ensures
        ({
            let n = disk_inode::read_len(size, offset, len);
            &&& 0 <= n <= len
            &&& n > 0 ==> offset + n <= size
            &&& n < len ==> offset + n >= size
        }),
{
}

/// A new file system uses all its blocks: four inodes for each block of the inode area,
/// a bit for each inode and each data block, and no block of bits too many.
pub proof fn law_new_layout(total: u32, inode_bits: u32)
    requires
        1 + inode_bits + 1024 * inode_bits < total,
    ensures
        ({
            let sb = efs::new_super_block(total, inode_bits);
            &&& sb.magic == 0x3b80_0001
            &&& sb.total_blocks == total
            &&& sb.inode_bitmap_blocks == inode_bits
            &&& 4 * sb.inode_area_blocks == 4096 * inode_bits
            &&& 1 + sb.inode_bitmap_blocks + sb.inode_area_blocks + sb.data_bitmap_blocks
                + sb.data_area_blocks == total
            &&& sb.data_area_blocks <= 4096 * sb.data_bitmap_blocks
            &&& 4096 * (sb.data_bitmap_blocks - 1) <= sb.data_area_blocks
            &&& sb.inode_area() == 1 + inode_bits
            &&& sb.data_bitmap() == sb.inode_area() + sb.inode_area_blocks
            &&& sb.data_area() == sb.data_bitmap() + sb.data_bitmap_blocks
            &&& sb.inodes() == 4096 * inode_bits
        }),
{
}

/// The bits of a bitmap are in blocks of 4096, each of 64 words of 64 bits.
pub proof fn law_bit_place(disk: Seq<Seq<u8>>, start: int, k: int)
    requires
        0 <= k,
    ensures
        bitmap::bit(disk, start, k) == ((bytes::u64_at(
            disk[start + k / 4096],
            8 * (k % 4096 / 64),
        ) >> ((k % 64) as u64)) & 1 == 1),
{
    assert(k % 4096 % 64 == k % 64);
}

/// A block counts as free where its bit is clear.
pub proof fn law_clear_bits(disk: Seq<Seq<u8>>, start: int, n: int)
    requires
        0 <= n,
    ensures
        super::volume::clear_bits(disk, start, 0) == 0,
        super::volume::clear_bits(disk, start, n + 1) == super::volume::clear_bits(disk, start, n)
            + (if bitmap::bit(disk, start, n) {
            0int
        } else {
            1
        }),
{
}

/// A file that grows keeps its bytes, and what comes behind its blocks is zero.
pub proof fn law_grown_bytes(f: FileData, new_size: int, i: int)
    requires
        f.wf(),
        f.size <= new_size,
        0 <= i < new_size,
    ensures
        f.grown(new_size).size == new_size,
        f.grown(new_size).content()[i] == if i < f.raw.len() {
            f.raw[i]
        } else {
            0
        },
        f.grown(new_size).nlink == f.nlink,
        f.grown(new_size).dir == f.dir,
{
    law_blocks_for(new_size);
}

/// Taking bytes out of a file moves those behind them up.
pub proof fn law_removed_bytes(f: FileData, offset: int, n: int, i: int)
    requires
        f.wf(),
        0 <= offset,
        0 <= n,
        offset + n <= f.size,
        0 <= i < f.size - n,
    ensures
        f.removed(offset, n).size == f.size - n,
        f.removed(offset, n).content()[i] == if i < offset {
            f.content()[i]
        } else {
            f.content()[i + n]
        },
        f.removed(offset, n).nlink == f.nlink,
        f.removed(offset, n).dir == f.dir,
{
    law_blocks_for(f.size - n);
    law_blocks_for(f.size);
    let m = disk_inode::blocks_for(f.size - n) * 512;
    assert(disk_inode::blocks_for(f.size - n) <= disk_inode::blocks_for(f.size));
    let tail = f.content().subrange(offset + n, f.size);
    let s = bytes::splice(f.raw, offset, tail);
    assert(f.removed(offset, n).raw == s.subrange(0, m));
    assert(f.removed(offset, n).content()[i] == s[i]);
}

/// When the areas of a super block lie on the disk and the bitmaps cover them.
pub proof fn law_fits(sb: SuperBlock, disk: Seq<Seq<u8>>)
    requires
        forall|b: int| 0 <= b < disk.len() ==> (#[trigger] disk[b]).len() == 512,
        disk.len() <= u32::MAX,
    ensures
        sb.fits(disk) == {
            &&& 1 + sb.inode_bitmap_blocks + sb.inode_area_blocks + sb.data_bitmap_blocks
                + sb.data_area_blocks <= disk.len()
            &&& 4096 * sb.inode_bitmap_blocks <= 4 * sb.inode_area_blocks
            &&& 4096 * sb.inode_bitmap_blocks <= u32::MAX
            &&& sb.data_area_blocks <= 4096 * sb.data_bitmap_blocks
            &&& 4096 * sb.data_bitmap_blocks <= usize::MAX
        },
{
}

/// The inode and the file with a number, and the bits that say what is in use.
pub proof fn law_in_use(sb: SuperBlock, disk: Seq<Seq<u8>>, i: int, b: int)
    ensures
        sb.used(disk, i) == (0 <= i < 4096 * sb.inode_bitmap_blocks && bitmap::bit(disk, 1, i)),
        ({
            let first = 1 + sb.inode_bitmap_blocks + sb.inode_area_blocks + sb.data_bitmap_blocks;
            sb.data_used(disk, b) == (first <= b < first + sb.data_area_blocks && bitmap::bit(
                disk,
                1 + sb.inode_bitmap_blocks + sb.inode_area_blocks,
                b - first,
            ))
        }),
        sb.files(disk).contains_key(i) == sb.used(disk, i),
{
}

/// Words lie on disk with their lowest byte first.
pub proof fn law_little_endian(x: u32, s: Seq<u8>, off: int)
    ensures
        bytes::u32_bytes(x).len() == 4,
        bytes::u32_bytes(x)[0] == x & 0xff,
        bytes::u32_bytes(x)[1] == (x >> 8) & 0xff,
        bytes::u32_bytes(x)[2] == (x >> 16) & 0xff,
        bytes::u32_bytes(x)[3] == x >> 24,
        bytes::u32_at(s, off) == s[off] + 0x100 * s[off + 1] + 0x1_0000 * s[off + 2] + 0x100_0000
            * s[off + 3],
{
    assert(x & 0xff == x % 0x100 && (x >> 8) & 0xff == x / 0x100 % 0x100 && (x >> 16) & 0xff == x
        / 0x1_0000 % 0x100 && x >> 24 == x / 0x100_0000) by (bit_vector);
}

/// Bytes that are written over others stand in their place, and the rest stays.
pub proof fn law_splice(s: Seq<u8>, off: int, b: Seq<u8>, i: int)
    requires
        0 <= i < s.len(),
    ensures
        bytes::splice(s, off, b).len() == s.len(),
        off <= i < off + b.len() ==> bytes::splice(s, off, b)[i] == b[i - off],
        !(off <= i < off + b.len()) ==> bytes::splice(s, off, b)[i] == s[i],
{
}

/// A new inode is empty, has one link, and points to no block.
pub proof fn law_new_inode(dir: bool, k: int)
    requires
        0 <= k < 27,
    ensures
        InodeData::initial(dir).size == 0,
        InodeData::initial(dir).nlink == 1,
        InodeData::initial(dir).dir == dir,
        InodeData::initial(dir).direct.len() == 27,
        InodeData::initial(dir).direct[k] == 0,
        InodeData::initial(dir).indirect1 == 0,
        InodeData::initial(dir).indirect2 == 0,
{
}

/// An inode that gave up its blocks points to none of them any more.
pub proof fn law_cleared_inode(inode: InodeData, k: int)
    requires
        0 <= k < 27,
        inode.direct.len() == 27,
    ensures
        inode.cleared().size == 0,
        512 * k < inode.size ==> inode.cleared().direct[k] == 0,
        512 * k >= inode.size ==> inode.cleared().direct[k] == inode.direct[k],
        inode.size > 512 * 27 ==> inode.cleared().indirect1 == 0,
        inode.size > 512 * 155 ==> inode.cleared().indirect2 == 0,
        inode.cleared().nlink == inode.nlink,
        inode.cleared().dir == inode.dir,
        inode.cleared().direct.len() == 27,
{
    law_blocks_for(inode.size as int);
}

/// The blocks of an inode are taken in this order: those in the record, the first index
/// block and those below it, the second index block, and then each index block below it
/// with those that it leads to.
pub proof fn law_block_order(inode: InodeData, disk: Seq<Seq<u8>>, p: int)
    requires
        0 <= p,
    ensures
        p < 27 ==> inode.slot(disk, p) == inode.direct[p],
        inode.slot(disk, 27) == inode.indirect1,
        27 < p < 156 ==> inode.slot(disk, p) == bytes::u32_at(
            disk[inode.indirect1 as int],
            4 * (p - 28),
        ),
        inode.slot(disk, 156) == inode.indirect2,
        inode.slot(disk, 157 + 129 * p) == bytes::u32_at(disk[inode.indirect2 as int], 4 * p),
        p < 128 ==> inode.slot(disk, 158 + p) == bytes::u32_at(
            disk[bytes::u32_at(disk[inode.indirect2 as int], 0) as int],
            4 * p,
        ),
{
    assert((129 * p) / 129 == p && (129 * p) % 129 == 0);
    if p < 128 {
        assert((1 + p) / 129 == 0 && (1 + p) % 129 == 1 + p);
    }
}

/// A new file system has its super block first, then a bit and a record for the root
/// directory, and zeros elsewhere; what lies behind it stays.
pub proof fn law_new_disk(before: Seq<Seq<u8>>, sb: SuperBlock, b: int, i: int)
    requires
        0 <= b < before.len(),
        0 <= i < 512,
        1 <= sb.inode_bitmap_blocks,
        sb.inode_area() < sb.total_blocks <= before.len(),
    ensures
        ({
            let d = efs::new_disk(before, sb);
            &&& d.len() == before.len()
            &&& b >= sb.total_blocks ==> d[b] == before[b]
            &&& bytes::u32_at(d[0], 0) == sb.magic
            &&& bytes::u32_at(d[0], 4) == sb.total_blocks
            &&& bytes::u32_at(d[0], 8) == sb.inode_bitmap_blocks
            &&& bytes::u32_at(d[0], 12) == sb.inode_area_blocks
            &&& bytes::u32_at(d[0], 16) == sb.data_bitmap_blocks
            &&& bytes::u32_at(d[0], 20) == sb.data_area_blocks
            &&& i >= 24 ==> d[0][i] == 0
            &&& d[1][i] == if i == 0 {
                1int
            } else {
                0
            }
            &&& i >= 128 ==> d[1 + sb.inode_bitmap_blocks][i] == 0
            &&& 1 < b < sb.total_blocks && b != 1 + sb.inode_bitmap_blocks ==> d[b][i] == 0
        }),
{
    let d = efs::new_disk(before, sb);
    let s = SuperBlock::stored(sb, bytes::zeros(24));
    law_super_block_bytes(sb, bytes::zeros(24));
    let block = bytes::splice(bytes::zeros(512), 0, s);
    assert(d[0] == block);
    assert forall|k: int| 0 <= k < 24 implies #[trigger] block[k] == s[k] by {}
    InodeData::initial(true).lemma_read_back(bytes::zeros(128));
}

} // verus!
