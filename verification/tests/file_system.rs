use easy_kernel::easy_fs::bitmap::{decomposition, Bitmap};
use easy_kernel::easy_fs::block_cache::BlockCacheManager;
use easy_kernel::easy_fs::block_dev::{BlockDevice, Blocks};
use easy_kernel::easy_fs::dir_entry::DirEntry;
use easy_kernel::easy_fs::disk_inode::{DiskInode, DiskInodeType};
use easy_kernel::easy_fs::efs::EasyFileSystem;
use easy_kernel::easy_fs::super_block::{SuperBlock, EFS_MAGIC};
use easy_kernel::easy_fs::vfs::Inode;
use easy_kernel::easy_fs::{BLOCK_SZ, FILE_NOT_EXIST};

#[derive(Clone)]
struct RamDisk(Vec<Vec<u8>>);

impl RamDisk {
    fn new(blocks: usize) -> Self {
        RamDisk(vec![vec![0xaa; BLOCK_SZ]; blocks])
    }
}

impl BlockDevice for RamDisk {
    fn blocks(&self) -> Blocks {
        unreachable!()
    }

    fn read_block(&self, block_id: usize, buf: &mut [u8]) {
        buf.copy_from_slice(&self.0[block_id]);
    }

    fn write_block(&mut self, block_id: usize, buf: &[u8]) {
        self.0[block_id].copy_from_slice(buf);
    }
}

fn new_fs() -> EasyFileSystem<RamDisk> {
    EasyFileSystem::create(RamDisk::new(4096), 4096, 1)
}

fn pattern(n: usize, seed: usize) -> Vec<u8> {
    (0..n).map(|i| (i * 7 + i / 251 + seed) as u8).collect()
}

#[test]
fn layout_of_a_new_file_system() {
    let fs = new_fs();
    assert_eq!(fs.inode_area_start_block, 2);
    assert_eq!(fs.data_area_start_block, 1 + 1 + 1024 + 1);
    assert_eq!(fs.get_disk_inode_pos(0), (2, 0));
    assert_eq!(fs.get_disk_inode_pos(5), (3, 128));
    assert_eq!(fs.compute_inode_id(3, 128), 5);
    assert_eq!(fs.get_data_block_id(7), 1034);
    let disk = fs.cache.device();
    assert_eq!(&disk.0[0][0..8], &[0x01, 0x00, 0x80, 0x3b, 0x00, 0x10, 0x00, 0x00]);
    assert_eq!(disk.0[1][0], 1);
    assert!(disk.0[4095].iter().all(|b| *b == 0));
}

#[test]
fn bits_are_taken_from_the_front() {
    let mut cache = BlockCacheManager::new(RamDisk(vec![vec![0; BLOCK_SZ]; 4]));
    let bitmap = Bitmap::new(1, 2);
    assert_eq!(bitmap.maximum(), 8192);
    assert_eq!(decomposition(4096 + 64 + 3), (1, 1, 3));
    for i in 0..70 {
        assert_eq!(bitmap.alloc_bit(&mut cache), Some(i));
    }
    bitmap.dealloc(&mut cache, 66);
    bitmap.dealloc(&mut cache, 3);
    assert_eq!(bitmap.alloc_bit(&mut cache), Some(3));
    assert_eq!(bitmap.alloc_bit(&mut cache), Some(66));
    assert_eq!(bitmap.alloc_bit(&mut cache), Some(70));
}

#[test]
fn a_full_bitmap_has_no_bit() {
    let mut cache = BlockCacheManager::new(RamDisk(vec![vec![0xff; BLOCK_SZ]; 2]));
    let bitmap = Bitmap::new(1, 1);
    assert_eq!(bitmap.alloc_bit(&mut cache), None);
    bitmap.dealloc(&mut cache, 4095);
    assert_eq!(bitmap.alloc_bit(&mut cache), Some(4095));
    assert_eq!(bitmap.alloc_bit(&mut cache), None);
}

#[test]
fn index_blocks_are_counted() {
    assert_eq!(DiskInode::total_blocks(0), 0);
    assert_eq!(DiskInode::total_blocks(1), 1);
    assert_eq!(DiskInode::total_blocks(27 * 512), 27);
    assert_eq!(DiskInode::total_blocks(27 * 512 + 1), 29);
    assert_eq!(DiskInode::total_blocks(155 * 512), 156);
    assert_eq!(DiskInode::total_blocks(156 * 512), 159);
    assert_eq!(DiskInode::total_blocks((155 + 129) * 512), 155 + 129 + 1 + 1 + 2);
    let mut inode = DiskInode::empty();
    inode.initialize(DiskInodeType::File);
    assert!(inode.is_file());
    assert!(!inode.is_dir());
    assert_eq!(inode.data_blocks(), 0);
    assert_eq!(inode.blocks_num_needed(27 * 512 + 1), 29);
}

#[test]
fn directory_entries_are_32_bytes() {
    let mut e = DirEntry::new("hello", 0x0102_0304);
    assert_eq!(e.as_bytes().len(), 32);
    assert_eq!(&e.as_bytes()[0..6], b"hello\0");
    assert_eq!(&e.as_bytes()[28..32], &[4, 3, 2, 1]);
    assert_eq!(e.name(), "hello");
    assert_eq!(e.inode_id(), 0x0102_0304);
    e.mark_as_deleted();
    assert_eq!(e.inode_id(), FILE_NOT_EXIST);
    assert_eq!(DirEntry::empty().name(), "");
    assert_eq!(DirEntry::new("grüße", 1).name(), "grüße");
}

#[test]
fn files_are_created_found_and_listed() {
    let mut fs = new_fs();
    let root: Inode = EasyFileSystem::root_inode(&fs);
    assert!(root.is_dir(&mut fs));
    assert!(root.find("a", &mut fs).is_none());
    let a = root.create("a", &mut fs).unwrap();
    let b = root.create("b", &mut fs).unwrap();
    assert!(root.create("a", &mut fs).is_none());
    assert_eq!(a.inode_id(&fs), 1);
    assert_eq!(b.inode_id(&fs), 2);
    assert!(a.is_file(&mut fs));
    assert_eq!(a.nlink(&mut fs), 1);
    assert_eq!(root.find("b", &mut fs).unwrap().inode_id(&fs), 2);
    assert_eq!(root.ls(&mut fs), vec!["a".to_string(), "b".to_string()]);
}

#[test]
fn what_was_written_is_read_back() {
    let mut fs = new_fs();
    let root = EasyFileSystem::root_inode(&fs);
    let f = root.create("f", &mut fs).unwrap();
    let data = pattern(200_000, 1);
    assert_eq!(f.write_at(0, &data, &mut fs), 200_000);
    let mut buf = vec![0u8; 200_000];
    assert_eq!(f.read_at(0, &mut buf, &mut fs), 200_000);
    assert!(buf == data);
    let patch = pattern(3000, 77);
    assert_eq!(f.write_at(100_001, &patch, &mut fs), 3000);
    let mut part = vec![9u8; 3002];
    assert_eq!(f.read_at(100_000, &mut part, &mut fs), 3002);
    assert_eq!(part[0], data[100_000]);
    assert!(part[1..3001] == patch[..]);
    assert_eq!(part[3001], data[103_001]);
    let mut end = vec![7u8; 100];
    assert_eq!(f.read_at(199_950, &mut end, &mut fs), 50);
    assert!(end[..50] == data[199_950..]);
    assert!(end[50..].iter().all(|b| *b == 7));
    assert_eq!(f.read_at(200_000, &mut end, &mut fs), 0);
    assert_eq!(f.read_at(999_999, &mut end, &mut fs), 0);
}

#[test]
fn a_gap_reads_as_zeros() {
    let mut fs = new_fs();
    let root = EasyFileSystem::root_inode(&fs);
    let f = root.create("f", &mut fs).unwrap();
    assert_eq!(f.write_at(1000, b"x", &mut fs), 1);
    let mut buf = vec![5u8; 1001];
    assert_eq!(f.read_at(0, &mut buf, &mut fs), 1001);
    assert!(buf[..1000].iter().all(|b| *b == 0));
    assert_eq!(buf[1000], b'x');
}

#[test]
fn clearing_gives_the_blocks_back() {
    let mut fs = new_fs();
    let root = EasyFileSystem::root_inode(&fs);
    let f = root.create("f", &mut fs).unwrap();
    let first = fs.alloc_data();
    fs.dealloc_data(first);
    f.write_at(0, &pattern(180 * 512, 3), &mut fs);
    f.clear(&mut fs);
    let mut buf = vec![0u8; 8];
    assert_eq!(f.read_at(0, &mut buf, &mut fs), 0);
    assert_eq!(fs.alloc_data(), first);
}

#[test]
fn allocation_and_return_of_blocks() {
    let mut fs = new_fs();
    let b = fs.alloc_data();
    let c = fs.alloc_data();
    assert_eq!((b, c), (1027, 1028));
    fs.dealloc_data(b);
    assert_eq!(fs.alloc_data(), 1027);
    assert_eq!(fs.alloc_inode(), 1);
    assert_eq!(fs.alloc_inode(), 2);
    fs.dealloc_inode(1);
    assert_eq!(fs.alloc_inode(), 1);
}

#[test]
fn hard_links_share_a_file() {
    let mut fs = new_fs();
    let root = EasyFileSystem::root_inode(&fs);
    let f = root.create("one", &mut fs).unwrap();
    f.write_at(0, b"shared", &mut fs);
    assert_eq!(root.add_link("two", &f, &mut fs), 0);
    assert_eq!(f.nlink(&mut fs), 2);
    assert_eq!(root.add_link("two", &f, &mut fs), -1);
    assert_eq!(root.add_link("dir", &root, &mut fs), -2);
    let two = root.find("two", &mut fs).unwrap();
    assert_eq!(two.inode_id(&fs), f.inode_id(&fs));
    let mut buf = vec![0u8; 6];
    assert_eq!(two.read_at(0, &mut buf, &mut fs), 6);
    assert_eq!(&buf, b"shared");
    assert_eq!(root.remove_link("one", &mut fs), 0);
    assert!(root.find("one", &mut fs).is_none());
    assert_eq!(two.nlink(&mut fs), 1);
    assert_eq!(two.read_at(0, &mut buf, &mut fs), 6);
    assert_eq!(root.remove_link("none", &mut fs), -1);
}

#[test]
fn the_last_link_takes_the_file_along() {
    let mut fs = new_fs();
    let root = EasyFileSystem::root_inode(&fs);
    let f = root.create("gone", &mut fs).unwrap();
    let id = f.inode_id(&fs);
    f.write_at(0, &pattern(5000, 2), &mut fs);
    assert_eq!(root.remove_link("gone", &mut fs), 0);
    assert!(root.find("gone", &mut fs).is_none());
    let g = root.create("next", &mut fs).unwrap();
    assert_eq!(g.inode_id(&fs), id);
    let mut buf = vec![0u8; 4];
    assert_eq!(g.read_at(0, &mut buf, &mut fs), 0);
}

#[test]
fn a_file_system_can_be_opened_again() {
    let mut fs = new_fs();
    let root = EasyFileSystem::root_inode(&fs);
    let f = root.create("kept", &mut fs).unwrap();
    let data = pattern(40_000, 9);
    f.write_at(0, &data, &mut fs);
    let disk: RamDisk = fs.cache.device().clone();
    let mut again = EasyFileSystem::open(disk);
    let root = EasyFileSystem::root_inode(&again);
    assert_eq!(root.ls(&mut again), vec!["kept".to_string()]);
    let f = root.find("kept", &mut again).unwrap();
    let mut buf = vec![0u8; 40_000];
    assert_eq!(f.read_at(0, &mut buf, &mut again), 40_000);
    assert!(buf == data);
}

#[test]
fn a_new_file_system_is_zero_but_for_its_records() {
    let fs = new_fs();
    let disk = fs.cache.device();
    let words: [u32; 6] = [EFS_MAGIC, 4096, 1, 1024, 1, 3069];
    let mut block = vec![0xaa; BLOCK_SZ];
    for (i, w) in words.iter().enumerate() {
        block[4 * i..4 * i + 4].copy_from_slice(&w.to_le_bytes());
    }
    assert_eq!(&disk.0[0][..24], &block[..24]);
    assert!(disk.0[0][24..].iter().all(|b| *b == 0));
    assert_eq!(disk.0[1][0], 1);
    assert!(disk.0[1][1..].iter().all(|b| *b == 0));
    let mut root = DiskInode::empty();
    root.initialize(DiskInodeType::Directory);
    let stored: DiskInode = EasyFileSystem::open(disk.clone()).cache.read_record(2, 0);
    assert_eq!((stored.size, stored.nlink, stored.direct), (root.size, root.nlink, root.direct));
    assert!(stored.is_dir());
    assert!(disk.0[2][128..].iter().all(|b| *b == 0));
    assert!(disk.0[3..].iter().all(|block| block.iter().all(|b| *b == 0)));
}

#[test]
fn super_blocks_are_tested() {
    let sb = SuperBlock {
        magic: EFS_MAGIC,
        total_blocks: 4096,
        inode_bitmap_blocks: 1,
        inode_area_blocks: 1024,
        data_bitmap_blocks: 1,
        data_area_blocks: 3069,
    };
    assert!(sb.is_laid_out(4096));
    assert!(!sb.is_laid_out(4095));
    assert!(!SuperBlock { inode_area_blocks: 1023, ..sb }.is_laid_out(4096));
    let wide = SuperBlock { inode_bitmap_blocks: u32::MAX, inode_area_blocks: u32::MAX, ..sb };
    assert!(!wide.is_laid_out(u32::MAX));
    assert!(!SuperBlock { data_area_blocks: 4097, ..sb }.is_laid_out(8192));
    assert!(SuperBlock { data_area_blocks: 4096, ..sb }.is_laid_out(8192));
}

#[test]
fn bits_can_be_looked_at() {
    let mut cache = BlockCacheManager::new(RamDisk(vec![vec![0; BLOCK_SZ]; 4]));
    let bitmap = Bitmap::new(1, 2);
    for _ in 0..4100 {
        bitmap.alloc_bit(&mut cache);
    }
    bitmap.dealloc(&mut cache, 65);
    assert!(bitmap.is_set(&mut cache, 0));
    assert!(bitmap.is_set(&mut cache, 64));
    assert!(!bitmap.is_set(&mut cache, 65));
    assert!(bitmap.is_set(&mut cache, 4099));
    assert!(!bitmap.is_set(&mut cache, 4100));
}

#[test]
fn names_have_at_most_27_bytes() {
    let name = "abcdefghijklmnopqrstuvwxyz0";
    let e = DirEntry::new(name, 3);
    assert_eq!(e.name(), name);
    assert_eq!(e.as_bytes()[27], 0);
    assert!(e.has_name());
    let mut long = DirEntry::empty();
    long.as_bytes_mut().copy_from_slice(&[b'a'; 32]);
    assert!(!long.has_name());
    let mut broken = DirEntry::new("x", 1);
    broken.as_bytes_mut()[0] = 0xff;
    assert!(!broken.has_name());
    let mut fs = new_fs();
    let root = EasyFileSystem::root_inode(&fs);
    let f = root.create(name, &mut fs).unwrap();
    assert_eq!(root.add_link("ABCDEFGHIJKLMNOPQRSTUVWXYZ1", &f, &mut fs), 0);
    assert_eq!(root.find(name, &mut fs).unwrap().inode_id(&fs), 1);
    assert_eq!(root.ls(&mut fs), vec![name.to_string(), "ABCDEFGHIJKLMNOPQRSTUVWXYZ1".to_string()]);
}

#[test]
fn growing_into_an_index_block_leaves_the_rest() {
    let mut cache = BlockCacheManager::new(RamDisk(vec![vec![0; BLOCK_SZ]; 400]));
    let mut inode = DiskInode::empty();
    inode.initialize(DiskInodeType::File);
    inode.increase_size(27 * 512, (100..127).collect(), &mut cache);
    assert_eq!((inode.indirect1, inode.indirect2), (0, 0));
    inode.increase_size(28 * 512, vec![50, 60], &mut cache);
    assert_eq!((inode.indirect1, inode.indirect2), (50, 0));
    assert_eq!(inode.direct[26], 126);
    assert_eq!(inode.get_block_id(27, &mut cache), 60);
    assert_eq!(cache.read_bytes(50, 0, 4), vec![60, 0, 0, 0]);
    assert!(cache.read_bytes(50, 4, 508).iter().all(|b| *b == 0));
    let more: Vec<u32> = (200..200 + 127).collect();
    inode.increase_size(155 * 512, more, &mut cache);
    assert_eq!((inode.indirect1, inode.indirect2), (50, 0));
    inode.increase_size(156 * 512, vec![70, 71, 72], &mut cache);
    assert_eq!((inode.indirect1, inode.indirect2), (50, 70));
    assert_eq!(inode.get_block_id(27, &mut cache), 60);
    assert_eq!(inode.get_block_id(155, &mut cache), 72);
    assert!(cache.read_bytes(70, 4, 508).iter().all(|b| *b == 0));
    let blocks = inode.clear_size(&mut cache);
    assert_eq!(blocks.len(), 159);
    let mut fresh = DiskInode::empty();
    fresh.initialize(DiskInodeType::File);
    assert_eq!((inode.size, inode.nlink, inode.direct), (fresh.size, fresh.nlink, fresh.direct));
    assert_eq!((inode.indirect1, inode.indirect2), (fresh.indirect1, fresh.indirect2));
    assert!(inode.is_file());
}

#[test]
fn the_blocks_of_a_removed_file_come_free() {
    let mut fs = new_fs();
    let root = EasyFileSystem::root_inode(&fs);
    root.create("kept", &mut fs).unwrap();
    let before: RamDisk = fs.cache.device().clone();
    let f = root.create("gone", &mut fs).unwrap();
    f.write_at(0, &pattern(100 * 512, 4), &mut fs);
    assert_eq!(fs.cache.read_bytes(1026, 0, 1), vec![0xff]);
    assert_eq!(root.remove_link("gone", &mut fs), 0);
    let after = fs.cache.device();
    assert!(after.0[..1027] == before.0[..1027]);
    assert!(after.0[1028..] == before.0[1028..]);
}

#[test]
fn only_the_blocks_of_the_cleared_file_come_free() {
    let mut fs = new_fs();
    let root = EasyFileSystem::root_inode(&fs);
    let a = root.create("a", &mut fs).unwrap();
    let b = root.create("b", &mut fs).unwrap();
    a.write_at(0, &pattern(512, 1), &mut fs);
    b.write_at(0, &pattern(512, 2), &mut fs);
    a.write_at(512, &pattern(512, 3), &mut fs);
    assert_eq!(fs.cache.read_bytes(1026, 0, 1), vec![0b1111]);
    a.clear(&mut fs);
    assert_eq!(fs.cache.read_bytes(1026, 0, 1), vec![0b0101]);
    assert_eq!(fs.alloc_data(), 1028);
    assert_eq!(fs.alloc_data(), 1030);
}

#[test]
fn a_given_back_inode_is_zero() {
    let mut fs = new_fs();
    assert_eq!(fs.alloc_inode(), 1);
    assert_eq!(fs.cache.read_bytes(1, 0, 1), vec![0b11]);
    fs.dealloc_inode(1);
    assert_eq!(fs.cache.read_bytes(1, 0, 1), vec![0b01]);
    assert!(fs.cache.read_bytes(2, 128, 128).iter().all(|b| *b == 0));
}

#[test]
fn bytes_behind_a_shortened_end_are_zero() {
    let mut fs = new_fs();
    let root = EasyFileSystem::root_inode(&fs);
    let f = root.create("f", &mut fs).unwrap();
    f.write_at(0, &[7; 700], &mut fs);
    f.clear(&mut fs);
    f.write_at(0, b"ab", &mut fs);
    f.write_at(900, b"z", &mut fs);
    let mut buf = vec![5u8; 901];
    assert_eq!(f.read_at(0, &mut buf, &mut fs), 901);
    assert_eq!(&buf[..2], b"ab");
    assert!(buf[2..900].iter().all(|b| *b == 0));
    assert_eq!(buf[900], b'z');
}

#[test]
fn a_link_that_is_removed_again_changes_no_name() {
    let mut fs = new_fs();
    let root = EasyFileSystem::root_inode(&fs);
    for name in ["a", "b", "c"] {
        root.create(name, &mut fs).unwrap();
    }
    let b = root.find("b", &mut fs).unwrap();
    let names = root.ls(&mut fs);
    assert_eq!(root.add_link("d", &b, &mut fs), 0);
    assert_eq!(root.ls(&mut fs).len(), 4);
    assert_eq!(root.remove_link("d", &mut fs), 0);
    assert_eq!(root.ls(&mut fs), names);
    assert_eq!(b.nlink(&mut fs), 1);
}

#[test]
fn directories_are_tested() {
    let mut fs = new_fs();
    let root = EasyFileSystem::root_inode(&fs);
    assert!(root.is_sound(&mut fs));
    let f = root.create("f", &mut fs).unwrap();
    assert!(root.is_sound(&mut fs));
    assert!(!f.is_sound(&mut fs));
    root.write_at(32, DirEntry::new("lost", 9).as_bytes(), &mut fs);
    assert!(!root.is_sound(&mut fs));
    root.write_at(32, DirEntry::new("far", 0x7fff_ffff).as_bytes(), &mut fs);
    assert!(!root.is_sound(&mut fs));
    root.write_at(32, DirEntry::new("again", 1).as_bytes(), &mut fs);
    assert!(root.is_sound(&mut fs));
    root.write_at(32, &[0xff], &mut fs);
    assert!(!root.is_sound(&mut fs));
}

#[test]
fn broken_file_systems_are_found() {
    let mut fs = new_fs();
    let root = EasyFileSystem::root_inode(&fs);
    assert!(fs.is_intact());
    let a = root.create("a", &mut fs).unwrap();
    let b = root.create("b", &mut fs).unwrap();
    a.write_at(0, &pattern(300 * 512, 1), &mut fs);
    b.write_at(0, &pattern(1000, 2), &mut fs);
    assert!(fs.is_intact());
    root.remove_link("b", &mut fs);
    assert!(fs.is_intact());
    let good: RamDisk = fs.cache.device().clone();
    let broken = |block: usize, at: usize, bytes: &[u8]| {
        let mut disk = good.clone();
        disk.0[block][at..at + bytes.len()].copy_from_slice(bytes);
        !EasyFileSystem::open(disk).is_intact()
    };
    assert!(!broken(1027, 500, &[1]));
    assert!(broken(4000, 0, &[1]));
    assert!(broken(2, 3 * 128 + 5, &[1]));
    assert!(broken(1026, 2, &[0]));
    assert!(broken(2, 128, &u32::MAX.to_le_bytes()));
    assert!(broken(2, 128 + 8, &5u32.to_le_bytes()));
    assert!(broken(2, 128 + 8, &1027u32.to_le_bytes()));
    assert!(broken(2, 128 + 8, &1029u32.to_le_bytes()));
    assert!(broken(2, 128 + 8, &u32::MAX.to_le_bytes()));
    assert!(broken(2, 128 + 8 + 27 * 4, &u32::MAX.to_le_bytes()));
    assert!(broken(1, 0, &[0b01]));
}

#[test]
fn blocks_stand_in_the_order_of_their_allocation() {
    let mut cache = BlockCacheManager::new(RamDisk(vec![vec![0; BLOCK_SZ]; 700]));
    let mut inode = DiskInode::empty();
    inode.initialize(DiskInodeType::File);
    let total = DiskInode::total_blocks(400 * 512);
    let blocks: Vec<u32> = (0..total).map(|i| 650 - i).collect();
    inode.increase_size(400 * 512, blocks.clone(), &mut cache);
    for (p, b) in blocks.iter().enumerate() {
        assert_eq!(inode.slot_at(p, &mut cache), *b);
    }
}

#[test]
fn the_lowest_free_blocks_are_taken() {
    let mut fs = new_fs();
    let root = EasyFileSystem::root_inode(&fs);
    let a = root.create("a", &mut fs).unwrap();
    let b = root.create("b", &mut fs).unwrap();
    a.write_at(0, &pattern(512, 1), &mut fs);
    b.write_at(0, &pattern(512, 2), &mut fs);
    a.write_at(512, &pattern(512, 3), &mut fs);
    a.clear(&mut fs);
    b.write_at(512, &pattern(3 * 512, 4), &mut fs);
    let inode: DiskInode = fs.cache.read_record(2, 2 * 128);
    assert_eq!(inode.direct[..5], [1029, 1028, 1030, 1031, 0]);
}
