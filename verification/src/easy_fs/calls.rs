//! What one call on a file says of the next.
use super::block_dev::BlockDevice;
use super::directory;
use super::disk_inode;
use super::efs::EasyFileSystem;
use super::laws;
use super::vfs;
use super::vfs::Inode;
use super::FILE_NOT_EXIST;
use vstd::prelude::*;
use vstd::string::*;

verus! {

/// What was written to a file is read from it, at the same offset.
pub proof fn law_write_read<D: BlockDevice>(
    inode: &Inode,
    offset: usize,
    buf: &[u8],
    fs1: &mut EasyFileSystem<D>,
    r1: usize,
    out: &mut [u8],
    fs2: &mut EasyFileSystem<D>,
    r2: usize,
)
    requires
        call_ensures(Inode::write_at::<D>, (inode, offset, buf, fs1), r1),
        call_ensures(Inode::read_at::<D>, (inode, offset, out, fs2), r2),
        *old(fs2) == *final(fs1),
        inode.file(old(fs1)).wf(),
        disk_inode::blocks_for(offset + buf@.len()) <= disk_inode::INDIRECT2_BOUND,
        old(out)@.len() == buf@.len(),
        buf@.len() > 0,
    ensures
        r1 == buf@.len(),
        r2 == buf@.len(),
        final(out)@ == buf@,
{
    laws::law_write_read(inode.file(old(fs1)), offset as int, buf@);
    assert(inode.id(old(fs2)) == inode.id(old(fs1)));
    assert(final(out)@ =~= buf@);
}

/// What is written to one file does not show in another.
pub proof fn law_write_elsewhere<D: BlockDevice>(
    inode: &Inode,
    offset: usize,
    buf: &[u8],
    fs: &mut EasyFileSystem<D>,
    r: usize,
    j: int,
)
    requires
        call_ensures(Inode::write_at::<D>, (inode, offset, buf, fs), r),
        j != inode.id(old(fs)),
    ensures
        final(fs)@.contains_key(j) == old(fs)@.contains_key(j),
        final(fs)@[j] == old(fs)@[j],
{
}

/// A file that was emptied gives no bytes.
pub proof fn law_clear_read<D: BlockDevice>(
    inode: &Inode,
    fs1: &mut EasyFileSystem<D>,
    offset: usize,
    out: &mut [u8],
    fs2: &mut EasyFileSystem<D>,
    r: usize,
)
    requires
        call_ensures(Inode::clear::<D>, (inode, fs1), ()),
        call_ensures(Inode::read_at::<D>, (inode, offset, out, fs2), r),
        *old(fs2) == *final(fs1),
    ensures
        r == 0,
        final(out)@ == old(out)@,
{
    assert(inode.id(old(fs2)) == inode.id(old(fs1)));
    assert(final(out)@ =~= old(out)@);
}

/// A file that was created is found under its name, with one link and nothing in it.
pub proof fn law_create_find<D: BlockDevice>(
    dir: &Inode,
    name: &str,
    fs1: &mut EasyFileSystem<D>,
    r1: Option<Inode>,
    fs2: &mut EasyFileSystem<D>,
    r2: Option<Inode>,
)
    requires
        call_ensures(Inode::create::<D>, (dir, name, fs1), r1),
        call_ensures(Inode::find::<D>, (dir, name, fs2), r2),
        *old(fs2) == *final(fs1),
        old(fs1)@.contains_key(dir.id(old(fs1))),
        dir.file(old(fs1)).wf(),
        dir.file(old(fs1)).dir,
        laws::tidy(dir.file(old(fs1)).content()),
        forall|k: int|
            0 <= k < directory::entry_count(dir.file(old(fs1)).content()) ==> old(fs1)@.contains_key(#[trigger] directory::id_at(dir.file(old(fs1)).content(), k) as int),
        laws::fits_entry(dir.file(old(fs1))),
        laws::good_name(name.spec_bytes()),
        !laws::names(dir.file(old(fs1)).content()).contains(name.spec_bytes()),
        r1 is Some ==> 0 <= r1->0.id(old(fs1)) < FILE_NOT_EXIST,
    ensures
        r1 is Some,
        r2 is Some,
        r2->0.id(old(fs2)) == r1->0.id(old(fs1)),
        old(fs2)@[r1->0.id(old(fs1))].nlink == 1,
        old(fs2)@[r1->0.id(old(fs1))].size == 0,
{
    let d = dir.id(old(fs1));
    let b = name.spec_bytes();
    laws::law_found_listed(dir.file(old(fs1)).content(), b);
    let n = r1->0.id(old(fs1));
    laws::law_create(old(fs1)@, d, b, n);
}

} // verus!
