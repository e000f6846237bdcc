//! System calls on files. Each works on the file table of the process, and on
//! user memory through the token of its page table.
use crate::easy_fs::block_dev::BlockDevice;
use crate::easy_fs::bytes;
use crate::easy_fs::bytes::u32_to_bytes;
use crate::easy_fs::dir_entry::str_from_utf8;
use crate::easy_fs::disk_inode;
use crate::easy_fs::efs::EasyFileSystem;
use crate::easy_fs::growth;
use crate::easy_fs::vfs;
use crate::easy_fs::vfs::Inode;
use crate::fs::files;
use crate::fs::files::{linkat, open_file, unlinkat};
use crate::fs::inode;
use crate::fs::inode::{OSInode, OpenFlags, Stat};
use crate::mm::frame_allocator::{MemData, PhysMemory};
use crate::mm::page_table::{FrameSlice, UserBuffer};
use crate::mm::user_memory;
use crate::mm::user_memory::{copy_to_user, translated_str, user_buffer};
use crate::task::process;
use vstd::bytes::u64_to_le_bytes;
use vstd::prelude::*;
use vstd::string::*;

verus! {

/// The file table of a process.
pub struct FdTable {
    pub files: Vec<Option<OSInode>>,
}

impl FdTable {
    /// The open file with this number, if there is one.
    pub open spec fn file(&self, fd: int) -> Option<OSInode> {
        if 0 <= fd < self.files@.len() {
            self.files@[fd]
        } else {
            None
        }
    }

    /// The table with an entry changed.
    pub open spec fn with(&self, fd: int, file: Option<OSInode>) -> Seq<Option<OSInode>> {
        self.files@.update(fd, file)
    }

    /// The first free number; the table gets a new entry if it has none.
    pub fn alloc_fd(&mut self) -> (r: usize)
        ensures
            r == process::first_free(old(self).files@, 0),
            final(self).files@ == process::placed(old(self).files@, r as int, None),
            r < final(self).files@.len(),
    {
        let ghost list = self.files@;
        let mut i: usize = 0;
        while i < self.files.len()
            invariant
                i <= list.len(),
                self.files@ == list,
                process::first_free(list, 0) == process::first_free(list, i as int),
            decreases list.len() - i,
        {
            if self.files[i].is_none() {
                assert(list =~= list.update(i as int, None));
                return i;
            }
            i += 1;
        }
        self.files.push(None);
        i
    }
}

/// User memory holds a string at the address, and it is UTF-8.
pub open spec fn has_string(m: MemData, token: u64, ptr: u64) -> bool {
    &&& exists|n: int| #[trigger] user_memory::user_str(m, token, ptr, n)
    &&& vstd::utf8::valid_utf8(user_memory::user_string(m, token, ptr))
}

/// The bytes of a string, as one.
fn as_str(b: &Vec<u8>) -> (r: &str)
    requires
        vstd::utf8::valid_utf8(b@),
    ensures
        r.spec_bytes() == b@,
{
    proof {
        vstd::utf8::decode_utf8_encode_utf8(b@);
    }
    str_from_utf8(b.as_slice()).unwrap()
}

/// The `len` bytes at the address can be written to the file.
pub open spec fn can_write<D: BlockDevice>(
    file: OSInode,
    fs: &EasyFileSystem<D>,
    m: MemData,
    token: u64,
    buf: u64,
    len: int,
) -> bool {
    &&& file.inode.is_in(fs)
    &&& user_memory::accessible(m, token, buf, len)
    &&& len > 0 ==> {
        &&& disk_inode::blocks_for(file.offset + len) <= disk_inode::INDIRECT2_BOUND
        &&& disk_inode::grow_need(file.inode.file(fs).size, file.offset + len)
            <= fs.free_blocks()
    }
}

/// Writes `len` bytes at user address `buf` to an open file. Returns their
/// number; -1 if there is no such file or it cannot be written.
pub fn sys_write<D: BlockDevice>(
    table: &mut FdTable,
    fd: usize,
    buf: u64,
    len: u64,
    token: u64,
    fs: &mut EasyFileSystem<D>,
    mem: &PhysMemory,
) -> (r: isize)
    requires
        old(fs).wf(),
        mem.wf(),
        match old(table).file(fd as int) {
            Some(file) if file.writable => can_write(
                file,
                old(fs),
                mem@,
                token,
                buf,
                len as int,
            ),
            _ => true,
        },
    ensures
        final(fs).wf(),
        final(fs).same(old(fs)),
        match old(table).file(fd as int) {
            Some(file) if file.writable => {
                &&& r == len
                &&& final(fs)@ == old(fs)@.insert(
                    file.inode.id(old(fs)),
                    inode::file_written(
                        file.inode.file(old(fs)),
                        file.offset as int,
                        user_memory::user_bytes(mem@, token, buf, len as int),
                    ),
                )
                &&& final(fs).free_inodes() == old(fs).free_inodes()
                &&& if len > 0 {
                    &&& final(fs).free_blocks() == old(fs).free_blocks() - disk_inode::grow_need(
                        file.inode.file(old(fs)).size,
                        file.offset + len,
                    )
                    &&& final(fs).synced()
                } else {
                    final(fs).untouched(old(fs))
                }
                &&& growth::has_grown(
                    old(fs).sb(),
                    old(fs).cache@,
                    final(fs).cache@,
                    file.inode.id(old(fs)),
                )
                &&& final(table).files@ == old(table).with(
                    fd as int,
                    Some(OSInode { offset: (file.offset + len) as usize, ..file }),
                )
            },
            _ => {
                &&& r == -1
                &&& final(fs).untouched(old(fs))
                &&& final(table).files@ == old(table).files@
            },
        },
{
    if fd >= table.files.len() {
        return -1;
    }
    let ghost files = table.files@;
    let mut slot: Option<OSInode> = None;
    core::mem::swap(&mut slot, &mut table.files[fd]);
    match slot {
        Some(file0) => {
            let mut file = file0;
            if !file.writable() {
                table.files.set(fd, Some(file));
                assert(table.files@ =~= files);
                return -1;
            }
            let pieces: Vec<FrameSlice> = user_buffer(token, buf, len, mem);
            proof {
                mem.lemma_wf();
                user_memory::lemma_user_pieces(mem@, token, buf, len as int);
            }
            let buffer = UserBuffer::new(pieces);
            let n: usize = file.write(&buffer, fs, mem);
            table.files.set(fd, Some(file));
            assert(table.files@ =~= files.update(fd as int, Some(file)));
            n as isize
        },
        None => {
            assert(table.files@ =~= files);
            -1
        },
    }
}

/// Reads up to `len` bytes of an open file to user address `buf`. Returns their
/// number; -1 if there is no such file or it cannot be read.
pub fn sys_read<D: BlockDevice>(
    table: &mut FdTable,
    fd: usize,
    buf: u64,
    len: u64,
    token: u64,
    fs: &mut EasyFileSystem<D>,
    mem: &mut PhysMemory,
) -> (r: isize)
    requires
        old(fs).wf(),
        old(mem).wf(),
        match old(table).file(fd as int) {
            Some(file) if file.readable => {
                &&& file.inode.is_in(old(fs))
                &&& user_memory::accessible(old(mem)@, token, buf, len as int)
                &&& file.offset + len <= usize::MAX
            },
            _ => true,
        },
    ensures
        final(fs).wf(),
        final(fs).same(old(fs)),
        final(fs).untouched(old(fs)),
        final(mem).wf(),
        final(mem).first() == old(mem).first(),
        match old(table).file(fd as int) {
            Some(file) if file.readable => {
                let part = inode::read_part(
                    file.inode.file(old(fs)),
                    file.offset as int,
                    len as int,
                );
                let pieces = user_memory::user_pieces(old(mem)@, token, buf, len as int);
                &&& r == part.len()
                &&& final(mem)@ == user_memory::scattered(
                    old(mem)@,
                    pieces,
                    part,
                    pieces.len() as int,
                )
                &&& final(table).files@ == old(table).with(
                    fd as int,
                    Some(OSInode { offset: (file.offset + r) as usize, ..file }),
                )
            },
            _ => r == -1 && final(mem)@ == old(mem)@ && final(table).files@ == old(table).files@,
        },
{
    if fd >= table.files.len() {
        return -1;
    }
    let ghost files = table.files@;
    let mut slot: Option<OSInode> = None;
    core::mem::swap(&mut slot, &mut table.files[fd]);
    match slot {
        Some(file0) => {
            let mut file = file0;
            if !file.readable() {
                table.files.set(fd, Some(file));
                assert(table.files@ =~= files);
                return -1;
            }
            let ghost f = file.inode.file(fs);
            let pieces: Vec<FrameSlice> = user_buffer(token, buf, len, mem);
            proof {
                mem.lemma_wf();
                user_memory::lemma_user_pieces(mem@, token, buf, len as int);
                assert(fs.sb().used(fs.cache@, file.inode.id(fs)));
                assert(f.wf());
            }
            let buffer = UserBuffer::new(pieces);
            let n: usize = file.read(&buffer, fs, mem);
            table.files.set(fd, Some(file));
            assert(table.files@ =~= files.update(fd as int, Some(file)));
            n as isize
        },
        None => {
            assert(table.files@ =~= files);
            -1
        },
    }
}

/// What `sys_open` does with an open file: it gets the first free number.
pub open spec fn installed(
    files0: Seq<Option<OSInode>>,
    files1: Seq<Option<OSInode>>,
    file: Option<OSInode>,
    r: isize,
) -> bool {
    if file is Some {
        &&& r == process::first_free(files0, 0)
        &&& files1 == process::placed(files0, r as int, file)
    } else {
        r == -1 && files1 == files0
    }
}

/// Opens the file whose name is the string at user address `path`. Returns its
/// number; -1 if it cannot be opened.
pub fn sys_open<D: BlockDevice>(
    table: &mut FdTable,
    path: u64,
    flags: u32,
    token: u64,
    root: &Inode,
    fs: &mut EasyFileSystem<D>,
    mem: &PhysMemory,
) -> (r: isize)
    requires
        mem.wf(),
        has_string(mem@, token, path),
        flags & !0x603u32 == 0,
        files::can_open(
            old(fs),
            root,
            user_memory::user_string(mem@, token, path),
            OpenFlags { bits: flags },
        ),
        old(table).files@.len() < isize::MAX,
    ensures
        final(fs).wf(),
        final(fs).same(old(fs)),
        exists|file: Option<OSInode>| #[trigger]
            files::opened(
                old(fs),
                final(fs),
                root,
                user_memory::user_string(mem@, token, path),
                OpenFlags { bits: flags },
                file,
            ) && installed(old(table).files@, final(table).files@, file, r),
{
    let name: Vec<u8> = translated_str(token, path, mem);
    let ghost bits = OpenFlags { bits: flags };
    let ghost fs0 = *fs;
    let ghost files0 = table.files@;
    let file: Option<OSInode> = open_file(
        root,
        as_str(&name),
        OpenFlags::from_bits(flags).unwrap(),
        fs,
    );
    let ghost g = file;
    assert(files::opened(&fs0, fs, root, name@, bits, g));
    match file {
        Some(inode) => {
            let fd: usize = table.alloc_fd();
            table.files.set(fd, Some(inode));
            assert(table.files@ =~= process::placed(files0, fd as int, g));
            fd as isize
        },
        None => -1,
    }
}

/// Closes an open file. Returns 0; -1 if there is no such file.
pub fn sys_close(table: &mut FdTable, fd: usize) -> (r: isize)
    ensures
        match old(table).file(fd as int) {
            Some(_) => r == 0 && final(table).files@ == old(table).with(fd as int, None),
            None => r == -1 && final(table).files@ == old(table).files@,
        },
{
    if fd >= table.files.len() {
        return -1;
    }
    if table.files[fd].is_none() {
        return -1;
    }
    table.files.set(fd, None);
    0
}

/// The status of a file, as user programs read it.
pub open spec fn stat_bytes(s: Stat) -> Seq<u8> {
    bytes::u64_bytes(s.dev) + bytes::u64_bytes(s.ino) + bytes::u32_bytes(s.mode.number())
        + bytes::u32_bytes(s.nlink)
}

/// The status of a file, as user programs read it.
fn stat_to_bytes(s: &Stat) -> (r: Vec<u8>)
    ensures
        r@ == stat_bytes(*s),
        r@.len() == 24,
{
    let mut r: Vec<u8> = u64_to_le_bytes(s.dev);
    let mut ino: Vec<u8> = u64_to_le_bytes(s.ino);
    let mut mode: Vec<u8> = u32_to_bytes(s.mode.bits());
    let mut nlink: Vec<u8> = u32_to_bytes(s.nlink);
    proof {
        vstd::bytes::lemma_auto_spec_u64_to_from_le_bytes();
    }
    r.append(&mut ino);
    r.append(&mut mode);
    r.append(&mut nlink);
    r
}

/// Writes the status of an open file to user address `st`. Returns 0; -1 if there
/// is no such file.
pub fn sys_fstat<D: BlockDevice>(
    table: &FdTable,
    fd: usize,
    st: u64,
    token: u64,
    fs: &mut EasyFileSystem<D>,
    mem: &mut PhysMemory,
) -> (r: isize)
    requires
        old(fs).wf(),
        old(mem).wf(),
        table.file(fd as int) matches Some(file) ==> file.inode.is_in(old(fs))
            && user_memory::accessible(old(mem)@, token, st, 24),
    ensures
        final(fs).wf(),
        final(fs).same(old(fs)),
        final(fs).untouched(old(fs)),
        final(mem).wf(),
        final(mem).first() == old(mem).first(),
        match table.file(fd as int) {
            Some(file) => {
                &&& r == 0
                &&& final(mem)@ == user_memory::user_written(
                    old(mem)@,
                    token,
                    st,
                    stat_bytes(
                        inode::file_stat(file.inode.id(old(fs)), file.inode.file(old(fs))),
                    ),
                )
            },
            None => r == -1 && final(mem)@ == old(mem)@,
        },
        table.file(fd as int) matches Some(file) ==> exists|b: Seq<u8>|
            {
                let f = file.inode.file(old(fs));
                &&& final(mem)@ == #[trigger] user_memory::user_written(old(mem)@, token, st, b)
                &&& b.len() == 24
                &&& bytes::u64_at(b, 0) == 0
                &&& bytes::u64_at(b, 8) == file.inode.id(old(fs))
                &&& bytes::u32_at(b, 16) == if f.dir {
                    0x4000int
                } else {
                    0x8000
                }
                &&& bytes::u32_at(b, 20) == f.nlink
            },
{
    if fd >= table.files.len() {
        return -1;
    }
    match &table.files[fd] {
        Some(file) => {
            proof {
                super::laws::law_stat_bytes(file.inode.id(fs), file.inode.file(fs));
            }
            let stat: Stat = file.stat(fs);
            let b: Vec<u8> = stat_to_bytes(&stat);
            copy_to_user(token, st, b.as_slice(), mem);
            0
        },
        None => -1,
    }
}

/// Gives a file another name; both are strings at user addresses. Returns what
/// `linkat` does.
pub fn sys_linkat<D: BlockDevice>(
    old_path: u64,
    new_path: u64,
    token: u64,
    root: &Inode,
    fs: &mut EasyFileSystem<D>,
    mem: &PhysMemory,
) -> (r: isize)
    requires
        mem.wf(),
        has_string(mem@, token, old_path),
        has_string(mem@, token, new_path),
        files::can_link(
            old(fs),
            root,
            user_memory::user_string(mem@, token, old_path),
            user_memory::user_string(mem@, token, new_path),
        ),
    ensures
        final(fs).wf(),
        final(fs).same(old(fs)),
        r == files::link_result(
            old(fs),
            root,
            user_memory::user_string(mem@, token, old_path),
            user_memory::user_string(mem@, token, new_path),
        ),
        if r == 0 {
            vfs::was_linked(
                old(fs),
                final(fs),
                root.id(old(fs)),
                user_memory::user_string(mem@, token, new_path),
                vfs::found_id(
                    root.file(old(fs)).content(),
                    user_memory::user_string(mem@, token, old_path),
                )->0 as int,
            )
        } else {
            final(fs).untouched(old(fs))
        },
{
    let old_name: Vec<u8> = translated_str(token, old_path, mem);
    let new_name: Vec<u8> = translated_str(token, new_path, mem);
    linkat(root, as_str(&old_name), as_str(&new_name), fs)
}

/// Takes a name away from its file; it is a string at a user address. Returns
/// what `unlinkat` does.
pub fn sys_unlinkat<D: BlockDevice>(
    path: u64,
    token: u64,
    root: &Inode,
    fs: &mut EasyFileSystem<D>,
    mem: &PhysMemory,
) -> (r: isize)
    requires
        mem.wf(),
        has_string(mem@, token, path),
        files::can_unlink(old(fs), root, user_memory::user_string(mem@, token, path)),
    ensures
        final(fs).wf(),
        final(fs).same(old(fs)),
        match vfs::found_id(
            root.file(old(fs)).content(),
            user_memory::user_string(mem@, token, path),
        ) {
            Some(n) => {
                &&& r == 0
                &&& vfs::was_unlinked(
                    old(fs),
                    final(fs),
                    root.id(old(fs)),
                    user_memory::user_string(mem@, token, path),
                    n as int,
                )
            },
            None => r == -1 && final(fs).untouched(old(fs)),
        },
{
    let name: Vec<u8> = translated_str(token, path, mem);
    unlinkat(root, as_str(&name), fs)
}

} // verus!
