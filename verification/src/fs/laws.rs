//! What opening, linking and reading files does, in terms of the flags, the names and
//! the bytes.
use super::files;
use super::inode;
use super::inode::{OSInode, OpenFlags};
use crate::easy_fs::block_dev::BlockDevice;
use crate::easy_fs::disk_inode;
use crate::easy_fs::efs::EasyFileSystem;
use crate::easy_fs::vfs;
use crate::easy_fs::vfs::Inode;
use crate::easy_fs::volume::FileData;
use crate::syscall::fs;
use crate::task::process;
use vstd::prelude::*;

verus! {

/// Bit 0 of the flags forbids reading, no flag at all forbids writing; files are created
/// where bit 9 is set, and truncated where bit 10 is.
pub proof fn law_flags(flags: OpenFlags)
    ensures
        flags.reads() == (flags.bits & 1 == 0),
        flags.writes() == (flags.bits != 0),
        flags.has(inode::CREATE) == (flags.bits & 0x200 != 0),
        flags.has(inode::TRUNC) == (flags.bits & 0x400 != 0),
{
    let b = flags.bits;
    assert((b == 0 || b & 1 != 1) == (b & 1 == 0) && (b & 0x200 == 0x200) == (b & 0x200 != 0) && (b
        & 0x400 == 0x400) == (b & 0x400 != 0)) by (bit_vector);
}

/// A file that exists is opened from its start. It is emptied if it is to be created or
/// truncated, and keeps its links; no other file changes.
pub proof fn law_open_existing<D: BlockDevice>(
    fs0: &EasyFileSystem<D>,
    fs1: &EasyFileSystem<D>,
    root: &Inode,
    name: Seq<u8>,
    flags: OpenFlags,
    r: Option<OSInode>,
    n: u32,
    j: int,
)
    requires
        files::opened(fs0, fs1, root, name, flags, r),
        vfs::found_id(root.file(fs0).content(), name) == Some(n),
    ensures
        r is Some,
        r->0.readable == (flags.bits & 1 == 0),
        r->0.writable == (flags.bits != 0),
        r->0.offset == 0,
        r->0.inode.id(fs1) == n,
        flags.bits & 0x600 == 0 ==> fs1@ == fs0@,
        flags.bits & 0x600 != 0 ==> fs1@[n as int].size == 0 && fs1@[n as int].content().len() == 0
            && fs1@[n as int].nlink == fs0@[n as int].nlink && fs1@[n as int].dir
            == fs0@[n as int].dir,
        j != n ==> fs1@.contains_key(j) == fs0@.contains_key(j) && fs1@[j] == fs0@[j],
{
    law_flags(flags);
    let b = flags.bits;
    assert((b & 0x600 == 0) == (b & 0x200 == 0 && b & 0x400 == 0)) by (bit_vector);
}

/// A file that does not exist is created if it is to be: an empty file with one link, at
/// the lowest number that is free. Otherwise nothing happens.
pub proof fn law_open_missing<D: BlockDevice>(
    fs0: &EasyFileSystem<D>,
    fs1: &EasyFileSystem<D>,
    root: &Inode,
    name: Seq<u8>,
    flags: OpenFlags,
    r: Option<OSInode>,
    j: int,
)
    requires
        files::opened(fs0, fs1, root, name, flags, r),
        vfs::found_id(root.file(fs0).content(), name) is None,
        fs0@.contains_key(root.id(fs0)),
    ensures
        (r is Some) == (flags.bits & 0x200 != 0),
        r is None ==> fs1@ == fs0@,
        r matches Some(file) ==> {
            let n = file.inode.id(fs1);
            &&& file.readable == (flags.bits & 1 == 0)
            &&& file.writable
            &&& file.offset == 0
            &&& !fs0@.contains_key(n)
            &&& 0 <= j < n ==> fs0@.contains_key(j)
            &&& fs1@.contains_key(n)
            &&& fs1@[n].size == 0
            &&& fs1@[n].nlink == 1
            &&& !fs1@[n].dir
            &&& j != n && j != root.id(fs0) ==> fs1@.contains_key(j) == fs0@.contains_key(j)
                && fs1@[j] == fs0@[j]
        },
{
    law_flags(flags);
    let b = flags.bits;
    assert(b & 0x200 != 0 ==> b != 0) by (bit_vector);
}

/// A link is made just where the old name leads to a file that is no directory, and the
/// new name to none.
pub proof fn law_link_result<D: BlockDevice>(
    fs: &EasyFileSystem<D>,
    root: &Inode,
    old_path: Seq<u8>,
    new_path: Seq<u8>,
)
    ensures
        ({
            let c = root.file(fs).content();
            let r = files::link_result(fs, root, old_path, new_path);
            &&& vfs::found_id(c, old_path) is None ==> r == -1
            &&& vfs::found_id(c, old_path) matches Some(n) ==> {
                &&& fs@[n as int].dir ==> r == -2
                &&& !fs@[n as int].dir && vfs::found_id(c, new_path) is Some ==> r == -1
                &&& !fs@[n as int].dir && vfs::found_id(c, new_path) is None ==> r == 0
            }
        }),
{
}

/// A file that has a name cannot get the same name again.
pub proof fn law_link_itself<D: BlockDevice>(fs: &EasyFileSystem<D>, root: &Inode, path: Seq<u8>)
    ensures
        files::link_result(fs, root, path, path) != 0,
{
}

/// A read gives the bytes of the file from the offset on, all that it asks for unless
/// the file ends before.
pub proof fn law_read_bytes(f: FileData, offset: int, len: int, i: int)
    requires
        f.wf(),
        0 <= offset,
        0 <= len,
    ensures
        ({
            let b = inode::read_part(f, offset, len);
            &&& b.len() == if offset + len <= f.size {
                len
            } else if offset <= f.size {
                f.size - offset
            } else {
                0
            }
            &&& 0 <= i < b.len() ==> b[i] == f.content()[offset + i]
        }),
{
}

/// A write puts its bytes at the offset, keeps the others, and makes the file as long as
/// it has to be.
pub proof fn law_write_bytes(f: FileData, offset: int, b: Seq<u8>, i: int)
    requires
        f.wf(),
        0 <= offset,
        b.len() > 0,
        disk_inode::blocks_for(offset + b.len()) <= disk_inode::INDIRECT2_BOUND,
    ensures
        ({
            let g = inode::file_written(f, offset, b);
            &&& g.size == if offset + b.len() > f.size {
                offset + b.len()
            } else {
                f.size
            }
            &&& offset <= i < offset + b.len() ==> g.content()[i] == b[i - offset]
            &&& 0 <= i < f.size && !(offset <= i < offset + b.len()) ==> g.content()[i]
                == f.content()[i]
            &&& g.nlink == f.nlink
            &&& g.dir == f.dir
        }),
{
    crate::easy_fs::laws::law_write_read(f, offset, b);
}

/// An open file gets the lowest number that is free, and keeps the others.
pub proof fn law_lowest_number(
    files0: Seq<Option<OSInode>>,
    files1: Seq<Option<OSInode>>,
    file: OSInode,
    r: isize,
    j: int,
)
    requires
        fs::installed(files0, files1, Some(file), r),
    ensures
        0 <= r <= files0.len(),
        r < files1.len(),
        files1[r as int] == Some(file),
        r < files0.len() ==> files0[r as int] is None,
        0 <= j < r ==> files0[j] is Some,
        0 <= j < files0.len() && j != r ==> files1[j] == files0[j],
{
    process::law_lowest_free(files0, 0);
}

/// Where no file was opened, the table stays as it is.
pub proof fn law_none_installed(
    files0: Seq<Option<OSInode>>,
    files1: Seq<Option<OSInode>>,
    r: isize,
)
    requires
        fs::installed(files0, files1, None, r),
    ensures
        r == -1,
        files1 == files0,
{
}

/// Reading all gives every byte of the file from the offset on, and leaves the offset at
/// its end; a second time there is nothing left.
pub proof fn law_read_all<D: BlockDevice>(
    file: &mut OSInode,
    fs: &mut EasyFileSystem<D>,
    v: Vec<u8>,
    i: int,
)
    requires
        call_ensures(OSInode::read_all::<D>, (file, fs), v),
        old(file).inode.file(old(fs)).wf(),
        old(file).inode.file(old(fs)).size <= usize::MAX,
    ensures
        ({
            let f = old(file).inode.file(old(fs));
            &&& old(file).offset <= f.size ==> v@.len() == f.size - old(file).offset && final(file).offset == f.size
            &&& old(file).offset > f.size ==> v@.len() == 0 && final(file).offset == old(file).offset
            &&& 0 <= i < v@.len() ==> v@[i] == f.content()[old(file).offset + i]
            &&& final(fs)@ == old(fs)@
            &&& final(file).readable == old(file).readable
            &&& final(file).writable == old(file).writable
        }),
{
}

} // verus!
