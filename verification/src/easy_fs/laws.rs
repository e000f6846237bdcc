//! What holds of the file system as a whole.
use super::bitmap;
use super::block_cache::DiskRecord;
use super::block_dev::BlockDevice;
use super::bytes;
use super::dir_entry;
use super::directory;
use super::disk_inode;
use super::disk_inode::InodeData;
use super::efs::EasyFileSystem;
use super::growth;
use super::super_block::SuperBlock;
use super::vfs;
use super::volume::FileData;
use super::BLOCK_SZ;
use super::FILE_NOT_EXIST;
use vstd::prelude::*;

verus! {

/// Every file of a file system is as large as its blocks allow.
pub proof fn law_files_wf<D: BlockDevice>(fs: &EasyFileSystem<D>, i: int)
    requires
        fs.wf(),
        fs@.contains_key(i),
    ensures
        fs@[i].wf(),
{
    assert(fs.sb().used(fs.cache@, i));
}

/// What was written is read back; the rest of the content stays, and the
/// content ends where it ended or where the write did.
pub proof fn law_write_read(f: FileData, offset: int, b: Seq<u8>)
    requires
        f.wf(),
        0 <= offset,
        disk_inode::blocks_for(offset + b.len()) <= disk_inode::INDIRECT2_BOUND,
    ensures
        ({
            let g = f.grown(offset + b.len()).written(offset, b);
            &&& g.wf()
            &&& g.size == if offset + b.len() > f.size {
                offset + b.len()
            } else {
                f.size
            }
            &&& b.len() > 0 ==> disk_inode::read_len(g.size, offset, b.len() as int) == b.len()
            &&& bytes::part(g.content(), offset, b.len() as int) == b
            &&& forall|i: int|
                0 <= i < f.size && !(offset <= i < offset + b.len()) ==> #[trigger] g.content()[i]
                    == f.content()[i]
        }),
{
    let g = f.grown(offset + b.len()).written(offset, b);
    assert(bytes::part(g.content(), offset, b.len() as int) =~= b);
}

/// Growing takes as many blocks as clearing gives back afterwards, over those
/// that it would have given back before.
pub proof fn law_grow_clear(f: FileData, new_size: int)
    requires
        f.wf(),
        f.size <= new_size,
        disk_inode::blocks_for(new_size) <= disk_inode::INDIRECT2_BOUND,
    ensures
        0 <= disk_inode::grow_need(f.size, new_size),
        disk_inode::total_for(disk_inode::blocks_for(f.grown(new_size).size))
            == disk_inode::total_for(disk_inode::blocks_for(f.size)) + disk_inode::grow_need(
            f.size,
            new_size,
        ),
        f.grown(new_size).cleared() == f.cleared(),
        f.cleared().content() == Seq::<u8>::empty(),
        disk_inode::total_for(disk_inode::blocks_for(f.cleared().size)) == 0,
{
    disk_inode::lemma_total_monotonic(
        disk_inode::blocks_for(f.size),
        disk_inode::blocks_for(new_size),
    );
}

/// A file system that is on its device is found there again, whole.
pub proof fn law_reopen<D: BlockDevice>(fs: &EasyFileSystem<D>)
    requires
        fs.wf(),
        fs.synced(),
    ensures
        ({
            let sb = SuperBlock::parse(fs.cache.on_device()[0].subrange(0, 24));
            &&& sb.valid()
            &&& sb.holds(fs.cache.on_device())
            &&& sb.files(fs.cache.on_device()) == fs@
        }),
{
}

/// Giving back a data block that was just allocated restores the disk.
pub proof fn law_alloc_dealloc_data(sb: SuperBlock, disk: Seq<Seq<u8>>, b: int)
    requires
        sb.holds(disk),
        sb.data_area() <= b < sb.data_area() + sb.data_area_blocks,
        !sb.data_used(disk, b),
    ensures
        bitmap::with_bit(
            bitmap::with_bit(disk, sb.data_bitmap(), b - sb.data_area(), true).update(
                b,
                bytes::zeros(512),
            ),
            sb.data_bitmap(),
            b - sb.data_area(),
            false,
        ) == disk,
{
    let k = b - sb.data_area();
    let at = sb.data_bitmap() + k / 4096;
    assert(k / 4096 < sb.data_bitmap_blocks);
    assert(disk[at].len() == 512);
    bitmap::lemma_set_clear(disk[at], k % 4096);
    let d2 = bitmap::with_bit(disk, sb.data_bitmap(), k, true);
    bitmap::lemma_with_bit(disk, sb.data_bitmap(), k, true);
    assert(d2.update(b, bytes::zeros(512)) =~= d2) by {
        assert(d2[b] == disk[b]);
    }
    assert(bitmap::with_bit(d2, sb.data_bitmap(), k, false) =~= disk);
}

/// The first entry with a name, among live ones or all.
proof fn lemma_search_is(c: Seq<u8>, name: Seq<u8>, deleted: bool, i: int, k: int)
    requires
        0 <= i <= k < directory::entry_count(c),
        directory::name_at(c, k) == name,
        deleted || directory::live(c, k),
        forall|j: int|
            i <= j < k && (deleted || directory::live(c, j)) ==> #[trigger] directory::name_at(c, j)
                != name,
    ensures
        directory::search(c, name, deleted, i) == Some(k),
    decreases k - i,
{
    if i < k {
        assert(directory::name_at(c, i) == directory::name_at(c, i));
        lemma_search_is(c, name, deleted, i + 1, k);
    }
}

/// No entry with a name.
proof fn lemma_search_none(c: Seq<u8>, name: Seq<u8>, deleted: bool, i: int)
    requires
        0 <= i,
        forall|j: int|
            i <= j < directory::entry_count(c) && (deleted || directory::live(c, j))
                ==> #[trigger] directory::name_at(c, j) != name,
    ensures
        directory::search(c, name, deleted, i) is None,
    decreases directory::entry_count(c) - i,
{
    if i < directory::entry_count(c) {
        assert(directory::name_at(c, i) == directory::name_at(c, i));
        lemma_search_none(c, name, deleted, i + 1);
    }
}

/// A directory as the file system keeps it: whole entries, none deleted, each
/// with a readable name of its own.
pub open spec fn tidy(c: Seq<u8>) -> bool {
    &&& c.len() % 32 == 0
    &&& forall|i: int|
        0 <= i < directory::entry_count(c) ==> dir_entry::name_ok(
            #[trigger] directory::entry_at(c, i),
        ) && directory::live(c, i)
    &&& forall|i: int, j: int|
        0 <= i < j < directory::entry_count(c) ==> #[trigger] directory::name_at(c, i)
            != #[trigger] directory::name_at(c, j)
}

/// Every search in a tidy directory can be made.
pub proof fn law_tidy_searchable(c: Seq<u8>, name: Seq<u8>)
    requires
        tidy(c),
    ensures
        directory::searchable(c, name),
        directory::readable(c, name, true),
        vfs::names_ok(c),
        directory::search(c, name, true, 0) == directory::search(c, name, false, 0),
{
    directory::lemma_search(c, name, false, 0);
    directory::lemma_search(c, name, true, 0);
    assert forall|i: int| 0 <= i < directory::entry_count(c) implies #[trigger] directory::live(
        c,
        i,
    ) by {
        assert(dir_entry::name_ok(directory::entry_at(c, i)));
    }
    match directory::search(c, name, true, 0) {
        Some(k) => {
            lemma_search_is(c, name, false, 0, k);
        },
        None => {
            lemma_search_none(c, name, false, 0);
        },
    }
}

/// A name that an entry can hold: short enough, without a zero byte, UTF-8.
pub open spec fn good_name(name: Seq<u8>) -> bool {
    &&& name.len() <= dir_entry::NAME_LENGTH_LIMIT
    &&& !name.contains(0)
    &&& vstd::utf8::valid_utf8(name)
}

/// There is room for one more entry, as far as the size of the directory goes.
pub open spec fn fits_entry(dir: FileData) -> bool {
    disk_inode::blocks_for(32 * (dir.size / 32 + 1)) <= disk_inode::INDIRECT2_BOUND
}

/// An appended entry is the last one; the others stay.
pub proof fn law_appended(f: FileData, e: Seq<u8>)
    requires
        f.wf(),
        f.size % 32 == 0,
        fits_entry(f),
        e.len() == 32,
    ensures
        ({
            let g = f.appended(e);
            let n = directory::entry_count(f.content());
            &&& g.wf()
            &&& g.size == f.size + 32
            &&& g.dir == f.dir
            &&& g.nlink == f.nlink
            &&& directory::entry_count(g.content()) == n + 1
            &&& directory::entry_at(g.content(), n) == e
            &&& forall|i: int|
                0 <= i < n ==> #[trigger] directory::entry_at(g.content(), i)
                    == directory::entry_at(f.content(), i)
        }),
{
    let g = f.appended(e);
    let n = directory::entry_count(f.content());
    law_write_read(f, 32 * n, e);
    assert(f.grown(32 * n + e.len()) == f.grown(32 * (n + 1)));
    assert(directory::entry_at(g.content(), n) =~= e);
    assert forall|i: int| 0 <= i < n implies #[trigger] directory::entry_at(g.content(), i)
        == directory::entry_at(f.content(), i) by {
        assert(directory::entry_at(g.content(), i) =~= directory::entry_at(f.content(), i));
    }
}

/// An entry that was taken out is gone; those behind it move up.
pub proof fn law_without(f: FileData, k: int)
    requires
        f.wf(),
        f.size % 32 == 0,
        0 <= k < directory::entry_count(f.content()),
    ensures
        ({
            let g = f.without(k);
            let n = directory::entry_count(f.content());
            &&& g.wf()
            &&& g.size == f.size - 32
            &&& g.dir == f.dir
            &&& g.nlink == f.nlink
            &&& directory::entry_count(g.content()) == n - 1
            &&& forall|i: int|
                0 <= i < n - 1 ==> #[trigger] directory::entry_at(g.content(), i)
                    == directory::entry_at(
                    f.content(),
                    if i < k {
                        i
                    } else {
                        i + 1
                    },
                )
        }),
{
    let g = f.without(k);
    let n = directory::entry_count(f.content());
    assert(g.raw.len() == disk_inode::blocks_for(f.size - 32) * BLOCK_SZ);
    assert forall|i: int| 0 <= i < n - 1 implies #[trigger] directory::entry_at(g.content(), i)
        == directory::entry_at(
        f.content(),
        if i < k {
            i
        } else {
            i + 1
        },
    ) by {
        let m = if i < k {
            i
        } else {
            i + 1
        };
        assert(directory::entry_at(g.content(), i) =~= directory::entry_at(f.content(), m));
    }
}

/// A name that was added is found, with the inode that it was added for; other
/// names are found as before, and the directory stays tidy.
#[verifier::spinoff_prover]
pub proof fn law_add_find(f: FileData, name: Seq<u8>, id: u32, other: Seq<u8>)
    requires
        f.wf(),
        tidy(f.content()),
        fits_entry(f),
        good_name(name),
        id != FILE_NOT_EXIST,
        vfs::found_id(f.content(), name) is None,
        other != name,
    ensures
        ({
            let c = f.appended(dir_entry::make_entry(name, id)).content();
            &&& tidy(c)
            &&& vfs::found_id(c, name) == Some(id)
            &&& vfs::found_id(c, other) == vfs::found_id(f.content(), other)
        }),
{
    let e = dir_entry::make_entry(name, id);
    dir_entry::lemma_made_entry(name, id);
    law_appended(f, e);
    let c0 = f.content();
    let c = f.appended(e).content();
    let n = directory::entry_count(c0);
    directory::lemma_search(c0, name, false, 0);
    assert forall|i: int| 0 <= i < n + 1 implies dir_entry::name_ok(
        #[trigger] directory::entry_at(c, i),
    ) && directory::live(c, i) by {
        if i < n {
            assert(directory::entry_at(c, i) == directory::entry_at(c0, i));
        }
    }
    assert forall|i: int| 0 <= i < n implies #[trigger] directory::name_at(c, i) != name by {
        assert(directory::entry_at(c, i) == directory::entry_at(c0, i));
        assert(dir_entry::name_ok(directory::entry_at(c0, i)));
        assert(directory::name_at(c0, i) != name);
    }
    assert forall|i: int, j: int| 0 <= i < j < n + 1 implies #[trigger] directory::name_at(c, i)
        != #[trigger] directory::name_at(c, j) by {
        assert(directory::entry_at(c, i) == directory::entry_at(c0, i));
        if j < n {
            assert(directory::entry_at(c, j) == directory::entry_at(c0, j));
            assert(directory::name_at(c0, i) != directory::name_at(c0, j));
        }
    }
    lemma_search_is(c, name, false, 0, n);
    assert forall|i: int| 0 <= i < n implies #[trigger] directory::entry_at(c, i)
        == directory::entry_at(c0, i) by {}
    lemma_added_other(c0, c, other);
}

/// One more entry at the end does not change what other names lead to.
proof fn lemma_added_other(c0: Seq<u8>, c: Seq<u8>, other: Seq<u8>)
    requires
        directory::entry_count(c) == directory::entry_count(c0) + 1,
        forall|i: int|
            0 <= i < directory::entry_count(c0) ==> #[trigger] directory::entry_at(c, i)
                == directory::entry_at(c0, i),
        directory::name_at(c, directory::entry_count(c0)) != other,
    ensures
        vfs::found_id(c, other) == vfs::found_id(c0, other),
{
    let n = directory::entry_count(c0);
    directory::lemma_search(c0, other, false, 0);
    match directory::search(c0, other, false, 0) {
        Some(k) => {
            assert(directory::entry_at(c, k) == directory::entry_at(c0, k));
            assert forall|j: int|
                0 <= j < k && (false || directory::live(c, j)) implies #[trigger] directory::name_at(
                c,
                j,
            ) != other by {
                assert(directory::entry_at(c, j) == directory::entry_at(c0, j));
                assert(directory::name_at(c0, j) != other);
            }
            lemma_search_is(c, other, false, 0, k);
        },
        None => {
            assert forall|j: int|
                0 <= j < n + 1 && (false || directory::live(
                    c,
                    j,
                )) implies #[trigger] directory::name_at(c, j) != other by {
                if j < n {
                    assert(directory::entry_at(c, j) == directory::entry_at(c0, j));
                    assert(directory::name_at(c0, j) != other);
                }
            }
            lemma_search_none(c, other, false, 0);
        },
    }
}

/// A name that was removed is not found any more; other names are found as
/// before, and the directory stays tidy.
pub proof fn law_remove_find(f: FileData, k: int, other: Seq<u8>)
    requires
        f.wf(),
        tidy(f.content()),
        0 <= k < directory::entry_count(f.content()),
        other != directory::name_at(f.content(), k),
    ensures
        ({
            let c = f.without(k).content();
            &&& tidy(c)
            &&& vfs::found_id(c, directory::name_at(f.content(), k)) is None
            &&& vfs::found_id(c, other) == vfs::found_id(f.content(), other)
        }),
{
    law_without(f, k);
    let c0 = f.content();
    let c = f.without(k).content();
    let n = directory::entry_count(c0);
    let name = directory::name_at(c0, k);
    assert forall|i: int| 0 <= i < n - 1 implies dir_entry::name_ok(
        #[trigger] directory::entry_at(c, i),
    ) && directory::live(c, i) by {
        let m = if i < k {
            i
        } else {
            i + 1
        };
        assert(dir_entry::name_ok(directory::entry_at(c0, m)));
    }
    assert forall|i: int, j: int| 0 <= i < j < n - 1 implies #[trigger] directory::name_at(c, i)
        != #[trigger] directory::name_at(c, j) by {
        let mi = if i < k {
            i
        } else {
            i + 1
        };
        let mj = if j < k {
            j
        } else {
            j + 1
        };
        assert(directory::entry_at(c, i) == directory::entry_at(c0, mi));
        assert(directory::entry_at(c, j) == directory::entry_at(c0, mj));
        assert(directory::name_at(c0, mi) != directory::name_at(c0, mj));
    }
    assert forall|i: int| 0 <= i < n - 1 implies #[trigger] directory::name_at(c, i) != name by {
        let m = if i < k {
            i
        } else {
            i + 1
        };
        assert(directory::entry_at(c, i) == directory::entry_at(c0, m));
        if m < k {
            assert(directory::name_at(c0, m) != directory::name_at(c0, k));
        } else {
            assert(directory::name_at(c0, k) != directory::name_at(c0, m));
        }
    }
    lemma_search_none(c, name, false, 0);
    directory::lemma_search(c0, other, false, 0);
    match directory::search(c0, other, false, 0) {
        Some(x) => {
            let y = if x < k {
                x
            } else {
                x - 1
            };
            assert(directory::entry_at(c, y) == directory::entry_at(c0, x));
            assert forall|j: int|
                0 <= j < y && (false || directory::live(c, j)) implies #[trigger] directory::name_at(
                c,
                j,
            ) != other by {
                let m = if j < k {
                    j
                } else {
                    j + 1
                };
                assert(directory::entry_at(c, j) == directory::entry_at(c0, m));
                assert(dir_entry::name_ok(directory::entry_at(c0, m)));
                assert(directory::name_at(c0, m) != other);
            }
            lemma_search_is(c, other, false, 0, y);
        },
        None => {
            assert forall|j: int|
                0 <= j < n - 1 && (false || directory::live(
                    c,
                    j,
                )) implies #[trigger] directory::name_at(c, j) != other by {
                let m = if j < k {
                    j
                } else {
                    j + 1
                };
                assert(directory::entry_at(c, j) == directory::entry_at(c0, m));
                assert(dir_entry::name_ok(directory::entry_at(c0, m)));
                assert(directory::name_at(c0, m) != other);
            }
            lemma_search_none(c, other, false, 0);
        },
    }
}

/// How many of the first `n` entries lead to inode `id`.
pub open spec fn links_to(c: Seq<u8>, n: int, id: int) -> int
    decreases n,
{
    if n <= 0 {
        0
    } else {
        links_to(c, n - 1, id) + (if directory::id_at(c, n - 1) == id {
            1int
        } else {
            0
        })
    }
}

proof fn lemma_links_same(c0: Seq<u8>, c1: Seq<u8>, n: int, id: int)
    requires
        forall|i: int|
            0 <= i < n ==> #[trigger] directory::entry_at(c1, i) == directory::entry_at(c0, i),
    ensures
        links_to(c1, n, id) == links_to(c0, n, id),
    decreases n,
{
    if n > 0 {
        lemma_links_same(c0, c1, n - 1, id);
        assert(directory::entry_at(c1, n - 1) == directory::entry_at(c0, n - 1));
    }
}

proof fn lemma_links_removed(c0: Seq<u8>, c1: Seq<u8>, n: int, k: int, id: int)
    requires
        0 <= k < n,
        forall|i: int|
            0 <= i < n - 1 ==> #[trigger] directory::entry_at(c1, i) == directory::entry_at(
                c0,
                if i < k {
                    i
                } else {
                    i + 1
                },
            ),
    ensures
        links_to(c1, n - 1, id) == links_to(c0, n, id) - (if directory::id_at(c0, k) == id {
            1int
        } else {
            0
        }),
    decreases n,
{
    if k == n - 1 {
        lemma_links_same(c0, c1, n - 1, id);
    } else {
        assert forall|i: int| 0 <= i < n - 2 implies #[trigger] directory::entry_at(c1, i)
            == directory::entry_at(
            c0,
            if i < k {
                i
            } else {
                i + 1
            },
        ) by {}
        lemma_links_removed(c0, c1, n - 1, k, id);
        assert(directory::entry_at(c1, n - 2) == directory::entry_at(c0, n - 1));
    }
}

proof fn lemma_links_bound(c: Seq<u8>, n: int, id: int)
    requires
        0 <= n,
    ensures
        0 <= links_to(c, n, id) <= n,
        links_to(c, n, id) == 0 ==> forall|k: int|
            0 <= k < n ==> #[trigger] directory::id_at(c, k) != id,
        (exists|k: int| 0 <= k < n && #[trigger] directory::id_at(c, k) == id) ==> links_to(
            c,
            n,
            id,
        ) > 0,
    decreases n,
{
    if n > 0 {
        lemma_links_bound(c, n - 1, id);
    }
}

/// The files of a file system whose only directory is the root: every entry
/// leads to a file, and every file counts the entries that lead to it, of which
/// there is at least one.
pub open spec fn consistent(files: Map<int, FileData>) -> bool {
    let c = files[0].content();
    let n = directory::entry_count(c);
    &&& files.contains_key(0)
    &&& files[0].dir
    &&& files[0].wf()
    &&& tidy(c)
    &&& forall|k: int|
        0 <= k < n ==> files.contains_key(#[trigger] directory::id_at(c, k) as int)
            && directory::id_at(c, k) != 0
    &&& forall|i: int| #[trigger]
        files.contains_key(i) && i != 0 ==> {
            &&& 0 < i < FILE_NOT_EXIST
            &&& !files[i].dir
            &&& files[i].wf()
            &&& files[i].nlink == links_to(c, n, i)
            &&& files[i].nlink > 0
        }
}

/// In a directory whose entries all have a readable name and lead to a file, every
/// name can be looked up, and what is found is a file.
pub proof fn law_entries_ok(files: Map<int, FileData>, c: Seq<u8>, name: Seq<u8>)
    requires
        vfs::entries_ok(files, c),
    ensures
        vfs::names_ok(c),
        directory::searchable(c, name),
        vfs::found_id(c, name) matches Some(n) ==> files.contains_key(n as int),
{
    directory::lemma_search(c, name, false, 0);
    assert forall|i: int| 0 <= i < directory::entry_count(c) implies dir_entry::name_ok(
        #[trigger] directory::entry_at(c, i),
    ) && directory::live(c, i) by {
        assert(vfs::entry_ok(files, directory::entry_at(c, i)));
    }
    assert forall|i: int| 0 <= i < directory::entry_count(c) implies #[trigger] directory::live(
        c,
        i,
    ) by {
        assert(vfs::entry_ok(files, directory::entry_at(c, i)));
    }
    if let Some(k) = directory::search(c, name, false, 0) {
        assert(vfs::entry_ok(files, directory::entry_at(c, k)));
    }
}

/// A new file system is consistent.
pub proof fn law_new_consistent()
    ensures
        consistent(Map::<int, FileData>::empty().insert(0, FileData::empty(true, 1))),
{
    let files = Map::<int, FileData>::empty().insert(0, FileData::empty(true, 1));
    assert(files[0].content() =~= Seq::<u8>::empty());
}

/// Creating a file keeps the file system consistent.
pub proof fn law_create_consistent(files: Map<int, FileData>, name: Seq<u8>, n: int)
    requires
        consistent(files),
        !files.contains_key(n),
        0 < n < FILE_NOT_EXIST,
        good_name(name),
        fits_entry(files[0]),
        vfs::found_id(files[0].content(), name) is None,
    ensures
        consistent(vfs::created(files, 0, name, n)),
        vfs::found_id(vfs::created(files, 0, name, n)[0].content(), name) == Some(n as u32),
{
    let after = vfs::created(files, 0, name, n);
    let e = dir_entry::make_entry(name, n as u32);
    dir_entry::lemma_made_entry(name, n as u32);
    law_appended(files[0], e);
    law_add_find(files[0], name, n as u32, name.push(1));
    let c0 = files[0].content();
    let c = after[0].content();
    let m = directory::entry_count(c0);
    lemma_links_bound(c0, m, n);
    assert(links_to(c0, m, n) == 0) by {
        if links_to(c0, m, n) > 0 {
            lemma_no_links(c0, m, n);
        }
    }
    assert forall|k: int| 0 <= k < m + 1 implies after.contains_key(
        #[trigger] directory::id_at(c, k) as int,
    ) && directory::id_at(c, k) != 0 by {
        if k < m {
            assert(directory::entry_at(c, k) == directory::entry_at(c0, k));
            assert(files.contains_key(directory::id_at(c0, k) as int));
        }
    }
    assert forall|i: int| #[trigger] after.contains_key(i) && i != 0 implies {
        &&& 0 < i < FILE_NOT_EXIST
        &&& !after[i].dir
        &&& after[i].wf()
        &&& after[i].nlink == links_to(c, m + 1, i)
        &&& after[i].nlink > 0
    } by {
        lemma_links_same(c0, c, m, i);
        if i != n {
            assert(files.contains_key(i));
        }
    }
}

proof fn lemma_no_links(c: Seq<u8>, n: int, id: int)
    requires
        0 <= n,
        forall|k: int| 0 <= k < n ==> #[trigger] directory::id_at(c, k) != id,
    ensures
        links_to(c, n, id) == 0,
    decreases n,
{
    if n > 0 {
        lemma_no_links(c, n - 1, id);
        assert(directory::id_at(c, n - 1) != id);
    }
}

/// One more entry for a file that counts it keeps the file system consistent.
proof fn lemma_one_more_link(files: Map<int, FileData>, after: Map<int, FileData>, n: int)
    requires
        consistent(files),
        files.contains_key(n),
        n != 0,
        files[n].nlink < u32::MAX,
        after[0].dir,
        after[0].wf(),
        tidy(after[0].content()),
        directory::entry_count(after[0].content()) == directory::entry_count(files[0].content())
            + 1,
        forall|k: int|
            0 <= k < directory::entry_count(files[0].content()) ==> #[trigger] directory::entry_at(
                after[0].content(),
                k,
            ) == directory::entry_at(files[0].content(), k),
        directory::id_at(after[0].content(), directory::entry_count(files[0].content())) == n,
        forall|i: int| #[trigger] after.contains_key(i) == files.contains_key(i),
        after[n] == files[n].linked((files[n].nlink + 1) as u32),
        forall|i: int| i != 0 && i != n ==> #[trigger] after[i] == files[i],
    ensures
        consistent(after),
{
    let c0 = files[0].content();
    let c = after[0].content();
    let m = directory::entry_count(c0);
    assert forall|k: int| 0 <= k < m + 1 implies after.contains_key(
        #[trigger] directory::id_at(c, k) as int,
    ) && directory::id_at(c, k) != 0 by {
        if k < m {
            assert(directory::entry_at(c, k) == directory::entry_at(c0, k));
            assert(files.contains_key(directory::id_at(c0, k) as int));
        }
    }
    assert forall|i: int| #[trigger] after.contains_key(i) && i != 0 implies {
        &&& 0 < i < FILE_NOT_EXIST
        &&& !after[i].dir
        &&& after[i].wf()
        &&& after[i].nlink == links_to(c, m + 1, i)
        &&& after[i].nlink > 0
    } by {
        lemma_links_same(c0, c, m, i);
        assert(files.contains_key(i));
    }
}

/// Adding a link to a file keeps the file system consistent.
pub proof fn law_add_link_consistent(files: Map<int, FileData>, name: Seq<u8>, n: int)
    requires
        consistent(files),
        files.contains_key(n),
        n != 0,
        files[n].nlink < u32::MAX,
        good_name(name),
        fits_entry(files[0]),
        vfs::found_id(files[0].content(), name) is None,
    ensures
        consistent(vfs::link_added(files, 0, name, n)),
        vfs::found_id(vfs::link_added(files, 0, name, n)[0].content(), name) == Some(n as u32),
{
    let after = vfs::link_added(files, 0, name, n);
    let e = dir_entry::make_entry(name, n as u32);
    dir_entry::lemma_made_entry(name, n as u32);
    law_appended(files[0], e);
    law_add_find(files[0], name, n as u32, name.push(1));
    assert(after[0] == files[0].appended(e));
    lemma_one_more_link(files, after, n);
}

/// Removing a link keeps the file system consistent; the name is gone.
pub proof fn law_remove_link_consistent(files: Map<int, FileData>, name: Seq<u8>, n: int)
    requires
        consistent(files),
        vfs::found_id(files[0].content(), name) == Some(n as u32),
        0 <= n <= u32::MAX,
    ensures
        consistent(vfs::link_removed(files, 0, name, n)),
        vfs::found_id(vfs::link_removed(files, 0, name, n)[0].content(), name) is None,
{
    let after = vfs::link_removed(files, 0, name, n);
    let c0 = files[0].content();
    let m = directory::entry_count(c0);
    law_tidy_searchable(c0, name);
    directory::lemma_search(c0, name, true, 0);
    let k = directory::search(c0, name, true, 0).unwrap();
    assert(directory::id_at(c0, k) == n);
    law_without(files[0], k);
    law_remove_find(files[0], k, name.push(1));
    let c = after[0].content();
    assert(after[0] == files[0].without(k));
    assert forall|j: int| 0 <= j < m - 1 implies after.contains_key(
        #[trigger] directory::id_at(c, j) as int,
    ) && directory::id_at(c, j) != 0 by {
        let x = if j < k {
            j
        } else {
            j + 1
        };
        assert(directory::entry_at(c, j) == directory::entry_at(c0, x));
        assert(files.contains_key(directory::id_at(c0, x) as int));
        if directory::id_at(c, j) == n {
            lemma_links_removed(c0, c, m, k, n);
            lemma_links_bound(c, m - 1, n);
            assert(files.contains_key(n));
        }
    }
    assert forall|i: int| #[trigger] after.contains_key(i) && i != 0 implies {
        &&& 0 < i < FILE_NOT_EXIST
        &&& !after[i].dir
        &&& after[i].wf()
        &&& after[i].nlink == links_to(c, m - 1, i)
        &&& after[i].nlink > 0
    } by {
        lemma_links_removed(c0, c, m, k, i);
        assert(files.contains_key(i));
    }
}

/// Writing to a file, or clearing it, keeps the file system consistent.
pub proof fn law_write_consistent(files: Map<int, FileData>, i: int, g: FileData)
    requires
        consistent(files),
        files.contains_key(i),
        i != 0,
        g.wf(),
        g.dir == files[i].dir,
        g.nlink == files[i].nlink,
    ensures
        consistent(files.insert(i, g)),
{
    let after = files.insert(i, g);
    assert forall|k: int| #[trigger] after.contains_key(k) && k != 0 implies {
        &&& 0 < k < FILE_NOT_EXIST
        &&& !after[k].dir
        &&& after[k].wf()
        &&& after[k].nlink == links_to(
            after[0].content(),
            directory::entry_count(after[0].content()),
            k,
        )
        &&& after[k].nlink > 0
    } by {
        assert(files.contains_key(k));
    }
}

/// A new inode that was grown with the blocks `v` and cleared again gives them
/// back in their order, and is as new.
pub proof fn law_inode_grow_clear(
    dir: bool,
    i1: InodeData,
    d0: Seq<Seq<u8>>,
    d1: Seq<Seq<u8>>,
    v: Seq<u32>,
)
    requires
        i1.direct.len() == disk_inode::INODE_DIRECT_COUNT,
        i1.nlink == 1,
        i1.dir == dir,
        v.len() == i1.total(),
        i1.blocks(d1) == disk_inode::grown(InodeData::initial(dir), d0, i1.size as int, v).subrange(
            0,
            i1.total(),
        ),
        disk_inode::unused_kept(InodeData::initial(dir), i1),
    ensures
        i1.blocks(d1) == v,
        i1.cleared() == InodeData::initial(dir),
{
    let i0 = InodeData::initial(dir);
    assert(i0.blocks(d0) =~= Seq::<u32>::empty());
    assert(i1.blocks(d1) =~= v);
    assert(i1.cleared().direct =~= i0.direct);
}

/// A data block that was allocated is not allocated again while it is in use.
pub proof fn law_alloc_apart(sb: SuperBlock, disk: Seq<Seq<u8>>, a: int, b: int)
    requires
        sb.holds(disk),
        sb.data_area() <= a < sb.data_area() + sb.data_area_blocks,
        !sb.data_used(disk, a),
        !sb.data_used(
            bitmap::with_bit(disk, sb.data_bitmap(), a - sb.data_area(), true),
            b,
        ),
    ensures
        b != a,
        !sb.data_used(disk, b),
{
    sb.lemma_take_data(disk, a - sb.data_area());
}

/// The bytes behind the end of the content, up to the end of the last block, are
/// zero.
pub open spec fn zero_tail(f: FileData) -> bool {
    forall|i: int| f.size <= i < f.raw.len() ==> #[trigger] f.raw[i] == 0
}

/// All files, other than directories, end in zeros.
pub open spec fn zero_tails(files: Map<int, FileData>) -> bool {
    forall|i: int| #[trigger] files.contains_key(i) && !files[i].dir ==> zero_tail(files[i])
}

/// The bytes between the old end of a file and a write behind it read as zero.
pub proof fn law_gap_zero(f: FileData, offset: int, b: Seq<u8>)
    requires
        f.wf(),
        zero_tail(f),
        f.size <= offset,
        disk_inode::blocks_for(offset + b.len()) <= disk_inode::INDIRECT2_BOUND,
    ensures
        ({
            let g = f.grown(offset + b.len()).written(offset, b);
            forall|i: int| f.size <= i < offset ==> #[trigger] g.content()[i] == 0
        }),
{
}

/// In a new file system all files end in zeros.
pub proof fn law_new_zero_tails()
    ensures
        zero_tails(Map::<int, FileData>::empty().insert(0, FileData::empty(true, 1))),
{
}

/// Writing to a file leaves zeros behind its end.
pub proof fn law_write_zero_tails(files: Map<int, FileData>, i: int, offset: int, b: Seq<u8>)
    requires
        zero_tails(files),
        files.contains_key(i),
        files[i].wf(),
        0 <= offset,
        disk_inode::blocks_for(offset + b.len()) <= disk_inode::INDIRECT2_BOUND,
    ensures
        zero_tails(files.insert(i, files[i].grown(offset + b.len()).written(offset, b))),
{
    let g = files[i].grown(offset + b.len()).written(offset, b);
    let after = files.insert(i, g);
    assert forall|j: int| #[trigger] after.contains_key(j) && !after[j].dir implies zero_tail(
        after[j],
    ) by {
        assert(files.contains_key(j) && !files[j].dir);
    }
}

/// Clearing a file leaves zeros behind its end: it has no block any more.
pub proof fn law_clear_zero_tails(files: Map<int, FileData>, i: int)
    requires
        zero_tails(files),
        files.contains_key(i),
    ensures
        zero_tails(files.insert(i, files[i].cleared())),
{
    let after = files.insert(i, files[i].cleared());
    assert forall|j: int| #[trigger] after.contains_key(j) && !after[j].dir implies zero_tail(
        after[j],
    ) by {
        if j != i {
            assert(files.contains_key(j));
        }
    }
}

/// Creating a file in a directory leaves zeros behind the end of all files.
pub proof fn law_create_zero_tails(files: Map<int, FileData>, d: int, name: Seq<u8>, n: int)
    requires
        zero_tails(files),
        files.contains_key(d),
        files[d].dir,
    ensures
        zero_tails(vfs::created(files, d, name, n)),
{
    let after = vfs::created(files, d, name, n);
    assert forall|j: int| #[trigger] after.contains_key(j) && !after[j].dir implies zero_tail(
        after[j],
    ) by {
        if j != n && j != d {
            assert(files.contains_key(j));
        }
    }
}

/// Adding a link to a file leaves zeros behind the end of all files.
pub proof fn law_add_link_zero_tails(files: Map<int, FileData>, d: int, name: Seq<u8>, n: int)
    requires
        zero_tails(files),
        files.contains_key(d),
        files[d].dir,
        files.contains_key(n),
    ensures
        zero_tails(vfs::link_added(files, d, name, n)),
{
    let after = vfs::link_added(files, d, name, n);
    assert forall|j: int| #[trigger] after.contains_key(j) && !after[j].dir implies zero_tail(
        after[j],
    ) by {
        assert(files.contains_key(j));
    }
}

/// Removing a link leaves zeros behind the end of all files.
pub proof fn law_remove_link_zero_tails(files: Map<int, FileData>, d: int, name: Seq<u8>, n: int)
    requires
        zero_tails(files),
        files.contains_key(d),
        files[d].dir,
        files.contains_key(n),
    ensures
        zero_tails(vfs::link_removed(files, d, name, n)),
{
    let after = vfs::link_removed(files, d, name, n);
    assert forall|j: int| #[trigger] after.contains_key(j) && !after[j].dir implies zero_tail(
        after[j],
    ) by {
        assert(files.contains_key(j));
    }
}

/// The names in a directory, in their order.
pub open spec fn names(c: Seq<u8>) -> Seq<Seq<u8>> {
    Seq::new(directory::entry_count(c) as nat, |i: int| directory::name_at(c, i))
}

/// A name is found in a tidy directory just where it is among its names.
pub proof fn law_found_listed(c: Seq<u8>, name: Seq<u8>)
    requires
        tidy(c),
    ensures
        vfs::found_id(c, name) is Some <==> names(c).contains(name),
{
    directory::lemma_search(c, name, false, 0);
    match directory::search(c, name, false, 0) {
        Some(k) => {
            assert(names(c)[k] == name);
        },
        None => {
            if names(c).contains(name) {
                let k = choose|k: int| 0 <= k < names(c).len() && names(c)[k] == name;
                assert(dir_entry::name_ok(directory::entry_at(c, k)));
                assert(directory::name_at(c, k) != name);
            }
        },
    }
}

/// An appended name is the last one.
proof fn lemma_names_appended(f: FileData, name: Seq<u8>, id: u32)
    requires
        f.wf(),
        f.size % 32 == 0,
        fits_entry(f),
        good_name(name),
    ensures
        ({
            let c = f.appended(dir_entry::make_entry(name, id)).content();
            &&& names(c) == names(f.content()).push(name)
            &&& directory::id_at(c, directory::entry_count(f.content())) == id
        }),
{
    let e = dir_entry::make_entry(name, id);
    dir_entry::lemma_made_entry(name, id);
    law_appended(f, e);
    let c = f.appended(e).content();
    let l = names(f.content()).push(name);
    assert forall|i: int| 0 <= i < l.len() implies names(c)[i] == l[i] by {
        if i < l.len() - 1 {
            assert(directory::entry_at(c, i) == directory::entry_at(f.content(), i));
        }
    }
    assert(names(c) =~= l);
}

/// Creating a file in a tidy directory: the name comes last and leads to the new
/// file, which is empty, has one link and a number that no entry had; all other
/// files stay as they are.
pub proof fn law_create(files: Map<int, FileData>, d: int, name: Seq<u8>, n: int)
    requires
        files.contains_key(d),
        files[d].wf(),
        files[d].dir,
        tidy(files[d].content()),
        forall|k: int|
            0 <= k < directory::entry_count(files[d].content()) ==> files.contains_key(
                #[trigger] directory::id_at(files[d].content(), k) as int,
            ),
        fits_entry(files[d]),
        good_name(name),
        !names(files[d].content()).contains(name),
        !files.contains_key(n),
        0 <= n < FILE_NOT_EXIST,
    ensures
        ({
            let after = vfs::created(files, d, name, n);
            let c = after[d].content();
            &&& after[n] == FileData::empty(false, 1)
            &&& after[d].dir
            &&& after[d].wf()
            &&& tidy(c)
            &&& names(c) == names(files[d].content()).push(name)
            &&& vfs::found_id(c, name) == Some(n as u32)
            &&& forall|k: int|
                0 <= k < directory::entry_count(files[d].content()) ==> #[trigger] directory::id_at(
                    files[d].content(),
                    k,
                ) != n
            &&& forall|other: Seq<u8>|
                other != name ==> #[trigger] vfs::found_id(c, other) == vfs::found_id(
                    files[d].content(),
                    other,
                )
            &&& forall|j: int|
                j != n && j != d ==> #[trigger] after.contains_key(j) == files.contains_key(j)
                    && after[j] == files[j]
        }),
{
    let c0 = files[d].content();
    let e = dir_entry::make_entry(name, n as u32);
    law_found_listed(c0, name);
    dir_entry::lemma_made_entry(name, n as u32);
    law_appended(files[d], e);
    lemma_names_appended(files[d], name, n as u32);
    law_add_find(files[d], name, n as u32, name.push(1));
    let c = vfs::created(files, d, name, n)[d].content();
    assert forall|other: Seq<u8>| other != name implies #[trigger] vfs::found_id(c, other)
        == vfs::found_id(c0, other) by {
        law_add_find(files[d], name, n as u32, other);
    }
}

/// Adding a link to a file in a tidy directory, and removing it again: in between
/// the name comes last, leads to the file, and is counted; afterwards the names,
/// the links and all contents are as before, and the name is not found.
pub proof fn law_add_remove_link(files: Map<int, FileData>, d: int, name: Seq<u8>, n: int)
    requires
        files.contains_key(d),
        files[d].wf(),
        files[d].dir,
        tidy(files[d].content()),
        fits_entry(files[d]),
        good_name(name),
        !names(files[d].content()).contains(name),
        files.contains_key(n),
        n != d,
        0 <= n < FILE_NOT_EXIST,
        0 < files[n].nlink < u32::MAX,
    ensures
        ({
            let added = vfs::link_added(files, d, name, n);
            let removed = vfs::link_removed(added, d, name, n);
            &&& names(added[d].content()) == names(files[d].content()).push(name)
            &&& vfs::found_id(added[d].content(), name) == Some(n as u32)
            &&& added[n] == files[n].linked((files[n].nlink + 1) as u32)
            &&& removed.dom() == files.dom()
            &&& removed[n] == files[n]
            &&& removed[d].content() == files[d].content()
            &&& removed[d].dir
            &&& removed[d].nlink == files[d].nlink
            &&& vfs::found_id(removed[d].content(), name) is None
            &&& forall|j: int| j != d ==> #[trigger] removed[j] == files[j]
        }),
{
    let f = files[d];
    let c0 = f.content();
    let m = directory::entry_count(c0);
    let e = dir_entry::make_entry(name, n as u32);
    law_found_listed(c0, name);
    dir_entry::lemma_made_entry(name, n as u32);
    law_appended(f, e);
    lemma_names_appended(f, name, n as u32);
    law_add_find(f, name, n as u32, name.push(1));
    let added = vfs::link_added(files, d, name, n);
    let g = added[d];
    let c = g.content();
    assert(names(c)[m] == name);
    law_tidy_searchable(c, name);
    assert forall|j: int| 0 <= j < m && (true || directory::live(c, j)) implies #[trigger] directory::name_at(
        c,
        j,
    ) != name by {
        assert(names(c)[j] == names(c0)[j]);
        if names(c0)[j] == name {
            assert(names(c0).contains(name));
        }
    }
    lemma_search_is(c, name, true, 0, m);
    let removed = vfs::link_removed(added, d, name, n);
    law_without(g, m);
    assert(removed[d] == g.without(m));
    assert(removed[d].content() =~= c0) by {
        assert forall|x: int| 0 <= x < c0.len() implies removed[d].content()[x] == c0[x] by {
            let i = x / 32;
            assert(directory::entry_at(removed[d].content(), i) == directory::entry_at(c, i));
            assert(directory::entry_at(c, i) == directory::entry_at(c0, i));
            assert(directory::entry_at(c0, i)[x % 32] == c0[x]);
            assert(directory::entry_at(removed[d].content(), i)[x % 32]
                == removed[d].content()[x]);
        }
    }
    assert(removed[n] == files[n]);
    assert(removed.dom() =~= files.dom());
}

/// A file that loses one of several links stays as it is but for the count; with its
/// last link it goes. All other files stay.
pub proof fn law_remove_link(files: Map<int, FileData>, d: int, name: Seq<u8>, n: int, j: int)
    requires
        files.contains_key(d),
        files.contains_key(n),
        n != d,
        files[n].nlink > 0,
    ensures
        ({
            let after = vfs::link_removed(files, d, name, n);
            &&& after.contains_key(n) == (files[n].nlink > 1)
            &&& files[n].nlink > 1 ==> after[n].nlink == files[n].nlink - 1 && after[n].size
                == files[n].size && after[n].raw == files[n].raw && after[n].dir == files[n].dir
            &&& j != n ==> after.contains_key(j) == files.contains_key(j)
            &&& j != n && j != d ==> after[j] == files[j]
            &&& after[d].nlink == files[d].nlink
            &&& after[d].dir == files[d].dir
        }),
{
}

/// A file that gets one more link stays as it is but for the count.
pub proof fn law_add_link(files: Map<int, FileData>, d: int, name: Seq<u8>, n: int, j: int)
    requires
        files.contains_key(d),
        files.contains_key(n),
        n != d,
        files[n].nlink < u32::MAX,
    ensures
        ({
            let after = vfs::link_added(files, d, name, n);
            &&& after.dom() == files.dom()
            &&& after[n].nlink == files[n].nlink + 1
            &&& after[n].size == files[n].size
            &&& after[n].raw == files[n].raw
            &&& after[n].dir == files[n].dir
            &&& j != n && j != d ==> after[j] == files[j]
            &&& after[d].nlink == files[d].nlink
            &&& after[d].dir == files[d].dir
        }),
{
    assert(vfs::link_added(files, d, name, n).dom() =~= files.dom());
}

/// With its last link, the number of a file and all its blocks come free.
pub proof fn law_last_link_frees<D: BlockDevice>(
    fs0: &EasyFileSystem<D>,
    fs1: &EasyFileSystem<D>,
    d: int,
    name: Seq<u8>,
    n: int,
    b: int,
)
    requires
        vfs::was_unlinked(fs0, fs1, d, name, n),
        fs0@.contains_key(d),
        fs0@.contains_key(n),
        n != d,
        fs0@[n].nlink == 1,
    ensures
        !fs1@.contains_key(n),
        fs1.free_inodes() == fs0.free_inodes() + 1,
        fs1.free_blocks() == fs0.free_blocks() + disk_inode::total_for(
            disk_inode::blocks_for(fs0@[n].size),
        ),
        fs0.sb().data_used(fs1.cache@, b) == (fs0.sb().data_used(fs0.cache@, b) && !fs0.sb().owns(
            fs0.cache@,
            n,
            b,
        )),
        fs1.synced(),
{
    law_remove_link(fs0@, d, name, n, n);
}

/// With one of several links, nothing comes free.
pub proof fn law_other_link_frees_nothing<D: BlockDevice>(
    fs0: &EasyFileSystem<D>,
    fs1: &EasyFileSystem<D>,
    d: int,
    name: Seq<u8>,
    n: int,
    b: int,
)
    requires
        vfs::was_unlinked(fs0, fs1, d, name, n),
        fs0@[n].nlink > 1,
    ensures
        fs1.free_inodes() == fs0.free_inodes(),
        fs1.free_blocks() == fs0.free_blocks(),
        fs0.sb().data_used(fs1.cache@, b) == fs0.sb().data_used(fs0.cache@, b),
{
}

/// A file that is emptied keeps its links; its blocks come free, and no other file
/// changes.
pub proof fn law_clear_frees<D: BlockDevice>(
    fs0: &EasyFileSystem<D>,
    fs1: &EasyFileSystem<D>,
    n: int,
    j: int,
    b: int,
)
    requires
        vfs::was_cleared(fs0, fs1, n),
    ensures
        fs1@[n].size == 0,
        fs1@[n].nlink == fs0@[n].nlink,
        fs1@[n].dir == fs0@[n].dir,
        j != n ==> fs1@.contains_key(j) == fs0@.contains_key(j) && fs1@[j] == fs0@[j],
        fs1.free_inodes() == fs0.free_inodes(),
        fs1.free_blocks() == fs0.free_blocks() + disk_inode::total_for(
            disk_inode::blocks_for(fs0@[n].size),
        ),
        fs0.sb().owns(fs0.cache@, n, b) ==> !fs0.sb().data_used(fs1.cache@, b),
        !fs0.sb().owns(fs0.cache@, n, b) ==> fs0.sb().data_used(fs1.cache@, b)
            == fs0.sb().data_used(fs0.cache@, b),
{
}

/// One more entry takes a block just where the entries fill their blocks.
pub proof fn law_append_need(dir: FileData)
    requires
        0 <= dir.size,
        dir.size % 32 == 0,
    ensures
        dir.size % 512 != 0 ==> vfs::append_need(dir) == 0,
        dir.size % 512 == 0 ==> vfs::append_need(dir) == disk_inode::total_for(dir.size / 512 + 1)
            - disk_inode::total_for(dir.size / 512),
{
    let s = dir.size;
    assert(32 * (s / 32 + 1) == s + 32);
    if s % 512 == 0 {
        assert((s + 32 + 511) / 512 == s / 512 + 1);
        assert((s + 511) / 512 == s / 512);
    } else {
        assert((s + 32 + 511) / 512 == (s + 511) / 512);
    }
}

/// An inode that grows gets data blocks that were free, and no free one with a lower
/// number is passed over. Those that it had, it keeps.
pub proof fn law_lowest_blocks(
    sb: SuperBlock,
    d0: Seq<Seq<u8>>,
    d1: Seq<Seq<u8>>,
    i: int,
    p: int,
    b: int,
)
    requires
        growth::has_grown(sb, d0, d1, i),
        sb.blocks_of(d0, i).len() <= p < sb.blocks_of(d1, i).len(),
    ensures
        !sb.data_used(d0, sb.blocks_of(d1, i)[p] as int),
        sb.data_used(d1, sb.blocks_of(d1, i)[p] as int),
        sb.data_area() <= b < sb.blocks_of(d1, i)[p] ==> sb.data_used(d1, b),
        sb.data_used(d0, b) ==> sb.data_used(d1, b),
        0 <= b < sb.blocks_of(d0, i).len() ==> sb.blocks_of(d1, i)[b] == sb.blocks_of(d0, i)[b],
{
    reveal(growth::taken_in_order);
    let v = growth::new_blocks(sb, d0, d1, i);
    let k = p - sb.blocks_of(d0, i).len();
    assert(v[k] == sb.blocks_of(d1, i)[p]);
    assert(vfs::listed(v, v[k] as int));
    if sb.data_area() <= b < v[k] && !sb.data_used(d0, b) {
        assert(vfs::listed(v, b));
    }
}

} // verus!
