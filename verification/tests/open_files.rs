use easy_kernel::easy_fs::block_dev::{BlockDevice, Blocks};
use easy_kernel::easy_fs::efs::EasyFileSystem;
use easy_kernel::fs::files::{linkat, list_apps, open_file, unlinkat};
use easy_kernel::fs::inode::{OSInode, OpenFlags, Stat, StatMode, CREATE, RDWR, TRUNC, WRONLY};
use easy_kernel::mm::address::{PhysPageNum, VirtAddr};
use easy_kernel::mm::frame_allocator::PhysMemory;
use easy_kernel::mm::memory_set::{MapPermission, MemorySet, MAP_R, MAP_U, MAP_W};
use easy_kernel::mm::user_memory::{copy_to_user, translated_str};
use easy_kernel::syscall::fs::{
    sys_close, sys_fstat, sys_linkat, sys_open, sys_read, sys_unlinkat, sys_write, FdTable,
};

#[derive(Clone)]
struct RamDisk(Vec<Vec<u8>>);

impl BlockDevice for RamDisk {
    fn blocks(&self) -> Blocks {
        unreachable!()
    }

    fn read_block(&self, block_id: usize, buf: &mut [u8]) {
        buf.copy_from_slice(&self.0[block_id]);
    }

    fn write_block(&mut self, block_id: usize, buf: &[u8]) {
        self.0[block_id].copy_from_slice(buf);
    }
}

fn new_fs() -> EasyFileSystem<RamDisk> {
    EasyFileSystem::create(RamDisk(vec![vec![0; 512]; 2048]), 2048, 1)
}

/// Memory, and an address space with four user pages at 0x1000.
fn user_memory() -> (PhysMemory, MemorySet, u64) {
    let mut mem = PhysMemory::new(PhysPageNum(0x80000), 16);
    let mut space = MemorySet::new_bare(&mut mem);
    space.insert_framed_area(
        VirtAddr(0x1000),
        VirtAddr(0x5000),
        MapPermission { bits: MAP_R | MAP_W | MAP_U },
        &mut mem,
    );
    let token = space.token();
    (mem, space, token)
}

fn flags(bits: u32) -> OpenFlags {
    OpenFlags::from_bits(bits).unwrap()
}

fn content(file: &mut OSInode, fs: &mut EasyFileSystem<RamDisk>) -> Vec<u8> {
    file.read_all(fs)
}

#[test]
fn flags_tell_the_access() {
    assert_eq!(flags(0).read_write(), (true, false));
    assert_eq!(flags(WRONLY).read_write(), (false, true));
    assert_eq!(flags(RDWR).read_write(), (true, true));
    assert_eq!(flags(CREATE | WRONLY).read_write(), (false, true));
    assert_eq!(flags(CREATE).read_write(), (true, true));
    assert!(flags(CREATE | TRUNC).contains(TRUNC));
    assert!(OpenFlags::from_bits(0x4).is_none());
    assert!(OpenFlags::from_bits(0x603).is_some());
}

#[test]
fn files_are_opened_by_name() {
    let mut fs = new_fs();
    let root = EasyFileSystem::root_inode(&fs);
    assert!(open_file(&root, "x", flags(0), &mut fs).is_none());
    let x = open_file(&root, "x", flags(CREATE | WRONLY), &mut fs).unwrap();
    assert!(!x.readable());
    assert!(x.writable());
    x.inode.write_at(0, b"hello", &mut fs);
    let mut y = open_file(&root, "x", flags(0), &mut fs).unwrap();
    assert_eq!(content(&mut y, &mut fs), b"hello");
    assert_eq!(y.offset, 5);
    assert_eq!(content(&mut y, &mut fs), b"");
    let mut z = open_file(&root, "x", flags(TRUNC | RDWR), &mut fs).unwrap();
    assert_eq!(content(&mut z, &mut fs), b"");
    z.inode.write_at(0, b"more", &mut fs);
    let mut w = open_file(&root, "x", flags(CREATE | RDWR), &mut fs).unwrap();
    assert_eq!(content(&mut w, &mut fs), b"");
    assert_eq!(list_apps(&root, &mut fs), vec!["x".to_string()]);
}

#[test]
fn reading_all_takes_many_blocks() {
    let mut fs = new_fs();
    let root = EasyFileSystem::root_inode(&fs);
    let mut f = open_file(&root, "f", flags(CREATE | RDWR), &mut fs).unwrap();
    let data: Vec<u8> = (0..3000).map(|i| (i % 253) as u8).collect();
    f.inode.write_at(0, &data, &mut fs);
    f.offset = 10;
    assert!(content(&mut f, &mut fs) == data[10..]);
}

#[test]
fn names_are_linked_and_unlinked() {
    let mut fs = new_fs();
    let root = EasyFileSystem::root_inode(&fs);
    assert_eq!(linkat(&root, "a", "b", &mut fs), -1);
    open_file(&root, "a", flags(CREATE | RDWR), &mut fs).unwrap();
    assert_eq!(linkat(&root, "a", "b", &mut fs), 0);
    assert_eq!(linkat(&root, "a", "b", &mut fs), -1);
    assert_eq!(linkat(&root, "a", "a", &mut fs), -1);
    let b = open_file(&root, "b", flags(0), &mut fs).unwrap();
    assert_eq!(b.stat(&mut fs), Stat::new(1, StatMode::File, 2));
    assert_eq!(unlinkat(&root, "a", &mut fs), 0);
    assert_eq!(b.stat(&mut fs), Stat { dev: 0, ino: 1, mode: StatMode::File, nlink: 1 });
    assert_eq!(unlinkat(&root, "zzz", &mut fs), -1);
    assert_eq!(OSInode::new(true, false, root).stat(&mut fs).mode, StatMode::Dir);
}

#[test]
fn calls_go_through_user_memory() {
    let mut fs = new_fs();
    let root = EasyFileSystem::root_inode(&fs);
    let (mut mem, _space, token) = user_memory();
    let mut table = FdTable { files: Vec::new() };
    copy_to_user(token, 0x1ffe, b"name\0", &mut mem);
    assert_eq!(translated_str(token, 0x1ffe, &mem), b"name");
    assert_eq!(sys_open(&mut table, 0x1ffe, 0, token, &root, &mut fs, &mem), -1);
    assert_eq!(sys_open(&mut table, 0x1ffe, CREATE | RDWR, token, &root, &mut fs, &mem), 0);
    assert_eq!(sys_open(&mut table, 0x1ffe, 0, token, &root, &mut fs, &mem), 1);

    let text: Vec<u8> = (0..6000).map(|i| (i % 250) as u8).collect();
    copy_to_user(token, 0x1100, &text, &mut mem);
    assert_eq!(sys_write(&mut table, 0, 0x1100, 6000, token, &mut fs, &mem), 6000);
    assert_eq!(sys_write(&mut table, 1, 0x1100, 6000, token, &mut fs, &mem), -1);
    assert_eq!(sys_write(&mut table, 9, 0x1100, 6000, token, &mut fs, &mem), -1);
    assert_eq!(table.files[0].as_ref().unwrap().offset, 6000);

    copy_to_user(token, 0x1800, &vec![0xee; 10_000], &mut mem);
    assert_eq!(sys_read(&mut table, 1, 0x1801, 7000, token, &mut fs, &mut mem), 6000);
    let mut f = OSInode::new(true, true, root.find("name", &mut fs).unwrap());
    assert!(content(&mut f, &mut fs) == text);
    assert_eq!(sys_write(&mut table, 0, 0x1800, 6002, token, &mut fs, &mem), 6002);
    let mut echo = OSInode::new(true, true, root.find("name", &mut fs).unwrap());
    echo.offset = 6000;
    let seen = content(&mut echo, &mut fs);
    assert_eq!(seen[0], 0xee);
    assert!(seen[1..6001] == text[..]);
    assert_eq!(seen[6001], 0xee);
    assert_eq!(sys_read(&mut table, 1, 0x1800, 1_0, token, &mut fs, &mut mem), 10);
    assert_eq!(sys_read(&mut table, 7, 0x1800, 10, token, &mut fs, &mut mem), -1);

    assert_eq!(sys_close(&mut table, 0), 0);
    assert_eq!(sys_close(&mut table, 0), -1);
    assert_eq!(sys_close(&mut table, 5), -1);
    assert_eq!(sys_write(&mut table, 0, 0x1100, 1, token, &mut fs, &mem), -1);
    copy_to_user(token, 0x1ffe, b"name\0", &mut mem);
    assert_eq!(sys_open(&mut table, 0x1ffe, WRONLY, token, &root, &mut fs, &mem), 0);
    assert_eq!(sys_read(&mut table, 0, 0x1800, 10, token, &mut fs, &mut mem), -1);
}

#[test]
fn status_is_written_to_user_memory() {
    let mut fs = new_fs();
    let root = EasyFileSystem::root_inode(&fs);
    let (mut mem, space, token) = user_memory();
    let f = open_file(&root, "f", flags(CREATE | RDWR), &mut fs).unwrap();
    let table = FdTable { files: vec![None, Some(f)] };
    assert_eq!(sys_fstat(&table, 1, 0x2ff8, token, &mut fs, &mut mem), 0);
    assert_eq!(sys_fstat(&table, 0, 0x2ff8, token, &mut fs, &mut mem), -1);
    assert_eq!(sys_fstat(&table, 2, 0x2ff8, token, &mut fs, &mut mem), -1);
    let low = space.translate(&mem, VirtAddr(0x2000).floor()).unwrap().ppn();
    let high = space.translate(&mem, VirtAddr(0x3000).floor()).unwrap().ppn();
    assert_eq!(mem.read_bytes(low, 0xff8, 8), vec![0; 8]);
    assert_eq!(
        mem.read_bytes(high, 0, 16),
        vec![1, 0, 0, 0, 0, 0, 0, 0, 0x00, 0x80, 0, 0, 1, 0, 0, 0]
    );
}

#[test]
fn link_calls_take_user_strings() {
    let mut fs = new_fs();
    let root = EasyFileSystem::root_inode(&fs);
    let (mut mem, _space, token) = user_memory();
    open_file(&root, "old", flags(CREATE | RDWR), &mut fs).unwrap();
    copy_to_user(token, 0x1000, b"old\0new\0", &mut mem);
    assert_eq!(sys_linkat(0x1004, 0x1000, token, &root, &mut fs, &mem), -1);
    assert_eq!(sys_linkat(0x1000, 0x1004, token, &root, &mut fs, &mem), 0);
    assert_eq!(sys_unlinkat(0x1000, token, &root, &mut fs, &mem), 0);
    assert!(root.find("old", &mut fs).is_none());
    assert_eq!(sys_unlinkat(0x1004, token, &root, &mut fs, &mem), 0);
    assert!(root.find("new", &mut fs).is_none());
}

#[test]
fn reads_follow_one_another() {
    let mut fs = new_fs();
    let root = EasyFileSystem::root_inode(&fs);
    let (mut mem, space, token) = user_memory();
    let mut f = open_file(&root, "f", flags(CREATE | RDWR), &mut fs).unwrap();
    f.inode.write_at(0, b"abcdefgh", &mut fs);
    f.offset = 0;
    let mut table = FdTable { files: vec![Some(f)] };
    assert_eq!(sys_read(&mut table, 0, 0x1000, 3, token, &mut fs, &mut mem), 3);
    assert_eq!(sys_read(&mut table, 0, 0x1003, 100, token, &mut fs, &mut mem), 5);
    assert_eq!(sys_read(&mut table, 0, 0x1008, 100, token, &mut fs, &mut mem), 0);
    let ppn = space.translate(&mem, VirtAddr(0x1000).floor()).unwrap().ppn();
    assert_eq!(mem.read_bytes(ppn, 0, 9), b"abcdefgh\0");
}

#[test]
fn the_lowest_number_is_given_out() {
    let mut fs = new_fs();
    let root = EasyFileSystem::root_inode(&fs);
    let (mut mem, _space, token) = user_memory();
    copy_to_user(token, 0x1000, b"f\0", &mut mem);
    let mut table = FdTable { files: Vec::new() };
    for fd in 0..4 {
        assert_eq!(sys_open(&mut table, 0x1000, CREATE | RDWR, token, &root, &mut fs, &mem), fd);
    }
    assert_eq!(sys_close(&mut table, 2), 0);
    assert_eq!(sys_close(&mut table, 1), 0);
    assert_eq!(sys_open(&mut table, 0x1000, 0, token, &root, &mut fs, &mem), 1);
    assert_eq!(sys_open(&mut table, 0x1000, 0, token, &root, &mut fs, &mem), 2);
    assert_eq!(sys_open(&mut table, 0x1000, 0, token, &root, &mut fs, &mem), 4);
}

#[test]
fn blocks_come_free_with_their_files() {
    let mut fs = new_fs();
    let root = EasyFileSystem::root_inode(&fs);
    let mut bits = |fs: &mut EasyFileSystem<RamDisk>| fs.cache.read_bytes(1026, 0, 2);
    let f = open_file(&root, "f", flags(CREATE | RDWR), &mut fs).unwrap();
    f.inode.write_at(0, &[1; 1500], &mut fs);
    assert_eq!(bits(&mut fs), vec![0b1111, 0]);
    open_file(&root, "f", flags(0), &mut fs).unwrap();
    assert_eq!(bits(&mut fs), vec![0b1111, 0]);
    open_file(&root, "f", flags(TRUNC | RDWR), &mut fs).unwrap();
    assert_eq!(bits(&mut fs), vec![0b0001, 0]);
    f.inode.write_at(0, &[1; 600], &mut fs);
    assert_eq!(linkat(&root, "f", "g", &mut fs), 0);
    assert_eq!(unlinkat(&root, "f", &mut fs), 0);
    assert_eq!(bits(&mut fs), vec![0b0111, 0]);
    assert_eq!(unlinkat(&root, "g", &mut fs), 0);
    assert_eq!(bits(&mut fs), vec![0b0001, 0]);
    assert_eq!(fs.cache.read_bytes(1, 0, 1), vec![0b01]);
}

#[test]
fn reading_writes_nothing() {
    let mut fs = new_fs();
    let root = EasyFileSystem::root_inode(&fs);
    let f = open_file(&root, "f", flags(CREATE | RDWR), &mut fs).unwrap();
    f.inode.write_at(0, &[1; 9000], &mut fs);
    let before: RamDisk = fs.cache.device().clone();
    let mut g = open_file(&root, "f", flags(0), &mut fs).unwrap();
    assert_eq!(content(&mut g, &mut fs).len(), 9000);
    assert_eq!(list_apps(&root, &mut fs).len(), 1);
    assert_eq!(unlinkat(&root, "h", &mut fs), -1);
    assert_eq!(linkat(&root, "f", "f", &mut fs), -1);
    g.stat(&mut fs);
    fs.cache.block_cache_sync_all();
    assert!(fs.cache.device().0 == before.0);
}
