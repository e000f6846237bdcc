//! Opening, linking and unlinking files by name. All files lie in one directory,
//! the root.
use super::inode::{OSInode, OpenFlags, CREATE, TRUNC};
use crate::easy_fs::block_dev::BlockDevice;
use crate::easy_fs::dir_entry;
use crate::easy_fs::directory;
use crate::easy_fs::efs::EasyFileSystem;
use crate::easy_fs::growth;
use crate::easy_fs::vfs;
use crate::easy_fs::vfs::Inode;
use vstd::prelude::*;
use vstd::string::*;

verus! {

/// The name of an inode leads to one of the file system.
pub open spec fn name_known<D: BlockDevice>(
    fs: &EasyFileSystem<D>,
    root: &Inode,
    name: Seq<u8>,
) -> bool {
    &&& fs.wf()
    &&& root.is_in(fs)
    &&& root.file(fs).dir
    &&& directory::searchable(root.file(fs).content(), name)
    &&& vfs::found_id(root.file(fs).content(), name) matches Some(n) ==> fs@.contains_key(n as int)
}

/// There is room for one more name.
pub open spec fn room_for_name<D: BlockDevice>(
    fs: &EasyFileSystem<D>,
    root: &Inode,
    name: Seq<u8>,
) -> bool {
    &&& vfs::can_append(root.file(fs), fs.free_blocks())
    &&& name.len() <= dir_entry::NAME_LENGTH_LIMIT
}

/// A file can be opened: if it is to be created, there is room for it.
pub open spec fn can_open<D: BlockDevice>(
    fs: &EasyFileSystem<D>,
    root: &Inode,
    name: Seq<u8>,
    flags: OpenFlags,
) -> bool {
    &&& name_known(fs, root, name)
    &&& vfs::found_id(root.file(fs).content(), name) is None && flags.has(CREATE) ==> {
        &&& fs.free_inodes() > 0
        &&& room_for_name(fs, root, name)
    }
}

/// What opening a file does: one that exists is found, and cleared if it is to
/// be created or truncated; one that does not is created, if it is to be.
pub open spec fn opened<D: BlockDevice>(
    fs0: &EasyFileSystem<D>,
    fs1: &EasyFileSystem<D>,
    root: &Inode,
    name: Seq<u8>,
    flags: OpenFlags,
    r: Option<OSInode>,
) -> bool {
    match vfs::found_id(root.file(fs0).content(), name) {
        Some(n) => {
            &&& r matches Some(file)
            &&& file.readable == flags.reads()
            &&& file.writable == flags.writes()
            &&& file.offset == 0
            &&& file.inode.is_in(fs1)
            &&& file.inode.id(fs1) == n
            &&& if flags.has(CREATE) || flags.has(TRUNC) {
                vfs::was_cleared(fs0, fs1, n as int)
            } else {
                fs1.untouched(fs0)
            }
        },
        None => if flags.has(CREATE) {
            &&& r matches Some(file)
            &&& file.readable == flags.reads()
            &&& file.writable == flags.writes()
            &&& file.offset == 0
            &&& file.inode.is_in(fs1)
            &&& !fs0@.contains_key(file.inode.id(fs1))
            &&& forall|j: int| 0 <= j < file.inode.id(fs1) ==> #[trigger] fs0@.contains_key(j)
            &&& fs1@ == vfs::created(fs0@, root.id(fs0), name, file.inode.id(fs1))
            &&& fs1.free_inodes() == fs0.free_inodes() - 1
            &&& fs1.free_blocks() == fs0.free_blocks() - vfs::append_need(root.file(fs0))
            &&& growth::has_grown(fs0.sb(), fs0.cache@, fs1.cache@, root.id(fs0))
            &&& fs1.synced()
        } else {
            r is None && fs1.untouched(fs0)
        },
    }
}

/// The record of a known inode lies at a small block number.
proof fn lemma_known<D: BlockDevice>(fs: &EasyFileSystem<D>, n: int)
    requires
        fs.wf(),
        fs@.contains_key(n),
    ensures
        fs.inode_start() + n / 4 <= u32::MAX,
{
    fs.sb().lemma_places(fs.cache@);
    assert(fs.sb().used(fs.cache@, n));
    assert(fs.sb().inode_block(n) < fs.sb().data_bitmap());
}

/// The inode with this name, if there is one.
fn lookup<D: BlockDevice>(root: &Inode, name: &str, fs: &mut EasyFileSystem<D>) -> (r: Option<
    Inode,
>)
    requires
        name_known(old(fs), root, name.spec_bytes()),
    ensures
        final(fs).wf(),
        final(fs).same(old(fs)),
        final(fs).untouched(old(fs)),
        match vfs::found_id(root.file(old(fs)).content(), name.spec_bytes()) {
            Some(n) => r matches Some(inode) && inode.is_in(final(fs)) && inode.id(final(fs)) == n,
            None => r is None,
        },
{
    proof {
        if let Some(n) = vfs::found_id(root.file(fs).content(), name.spec_bytes()) {
            lemma_known(fs, n as int);
        }
    }
    root.find(name, fs)
}

/// Opens a file of the root directory.
pub fn open_file<D: BlockDevice>(
    root: &Inode,
    name: &str,
    flags: OpenFlags,
    fs: &mut EasyFileSystem<D>,
) -> (r: Option<OSInode>)
    requires
        can_open(old(fs), root, name.spec_bytes(), flags),
    ensures
        final(fs).wf(),
        final(fs).same(old(fs)),
        opened(old(fs), final(fs), root, name.spec_bytes(), flags, r),
{
    let (readable, writable): (bool, bool) = flags.read_write();
    if flags.contains(CREATE) {
        match lookup(root, name, fs) {
            Some(inode) => {
                inode.clear(fs);
                Some(OSInode::new(readable, writable, inode))
            },
            None => {
                match root.create(name, fs) {
                    Some(inode) => Some(OSInode::new(readable, writable, inode)),
                    None => None,
                }
            },
        }
    } else {
        match lookup(root, name, fs) {
            Some(inode) => {
                if flags.contains(TRUNC) {
                    inode.clear(fs);
                }
                Some(OSInode::new(readable, writable, inode))
            },
            None => None,
        }
    }
}

/// A link can be made, if it is asked for.
pub open spec fn can_link<D: BlockDevice>(
    fs: &EasyFileSystem<D>,
    root: &Inode,
    old_path: Seq<u8>,
    new_path: Seq<u8>,
) -> bool {
    &&& name_known(fs, root, old_path)
    &&& vfs::found_id(root.file(fs).content(), old_path) matches Some(n) ==> {
        !fs@[n as int].dir ==> {
            &&& name_known(fs, root, new_path)
            &&& vfs::found_id(root.file(fs).content(), new_path) is None ==> room_for_name(
                fs,
                root,
                new_path,
            ) && fs@[n as int].nlink < u32::MAX
        }
    }
}

/// What `linkat` returns.
pub open spec fn link_result<D: BlockDevice>(
    fs: &EasyFileSystem<D>,
    root: &Inode,
    old_path: Seq<u8>,
    new_path: Seq<u8>,
) -> int {
    match vfs::found_id(root.file(fs).content(), old_path) {
        Some(n) => if fs@[n as int].dir {
            -2
        } else if vfs::found_id(root.file(fs).content(), new_path) is Some {
            -1
        } else {
            0
        },
        None => -1,
    }
}

/// Gives the file with the name `old_path` the name `new_path` too. Returns 0;
/// -1 if there is no such file or the new name is taken; -2 if it is a directory.
pub fn linkat<D: BlockDevice>(
    root: &Inode,
    old_path: &str,
    new_path: &str,
    fs: &mut EasyFileSystem<D>,
) -> (r: isize)
    requires
        can_link(old(fs), root, old_path.spec_bytes(), new_path.spec_bytes()),
    ensures
        final(fs).wf(),
        final(fs).same(old(fs)),
        r == link_result(old(fs), root, old_path.spec_bytes(), new_path.spec_bytes()),
        if r == 0 {
            vfs::was_linked(
                old(fs),
                final(fs),
                root.id(old(fs)),
                new_path.spec_bytes(),
                vfs::found_id(root.file(old(fs)).content(), old_path.spec_bytes())->0 as int,
            )
        } else {
            final(fs).untouched(old(fs))
        },
{
    match lookup(root, old_path, fs) {
        Some(old_inode) => {
            proof {
                if let Some(n) = vfs::found_id(root.file(fs).content(), new_path.spec_bytes()) {
                    if fs@.contains_key(n as int) {
                        lemma_known(fs, n as int);
                    }
                }
            }
            root.add_link(new_path, &old_inode, fs)
        },
        None => -1,
    }
}

/// The link with this name can be taken away, if there is one.
pub open spec fn can_unlink<D: BlockDevice>(
    fs: &EasyFileSystem<D>,
    root: &Inode,
    path: Seq<u8>,
) -> bool {
    &&& name_known(fs, root, path)
    &&& vfs::found_id(root.file(fs).content(), path) matches Some(n) ==> {
        &&& fs@[n as int].nlink > 0
        &&& directory::readable(root.file(fs).content(), path, true)
    }
}

/// Takes the name `path` away from its file, which goes with its last name.
/// Returns 0; -1 if there is no such file.
pub fn unlinkat<D: BlockDevice>(root: &Inode, path: &str, fs: &mut EasyFileSystem<D>) -> (r: isize)
    requires
        can_unlink(old(fs), root, path.spec_bytes()),
    ensures
        final(fs).wf(),
        final(fs).same(old(fs)),
        match vfs::found_id(root.file(old(fs)).content(), path.spec_bytes()) {
            Some(n) => {
                &&& r == 0
                &&& vfs::was_unlinked(
                    old(fs),
                    final(fs),
                    root.id(old(fs)),
                    path.spec_bytes(),
                    n as int,
                )
            },
            None => r == -1 && final(fs).untouched(old(fs)),
        },
{
    root.remove_link(path, fs)
}

/// The names of all files.
pub fn list_apps<D: BlockDevice>(root: &Inode, fs: &mut EasyFileSystem<D>) -> (r: Vec<String>)
    requires
        old(fs).wf(),
        root.is_in(old(fs)),
        vfs::names_ok(root.file(old(fs)).content()),
    ensures
        final(fs).wf(),
        final(fs).same(old(fs)),
        final(fs).untouched(old(fs)),
        r@.len() == directory::entry_count(root.file(old(fs)).content()),
        forall|i: int|
            0 <= i < r@.len() ==> vstd::utf8::encode_utf8((#[trigger] r@[i])@)
                == directory::name_at(root.file(old(fs)).content(), i),
{
    root.ls(fs)
}

} // verus!
