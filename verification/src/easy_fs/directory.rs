//! What the content of a directory says: a sequence of entries.
use super::dir_entry;
use super::volume::FileData;
use super::FILE_NOT_EXIST;
use vstd::prelude::*;

verus! {

/// The number of entries.
pub open spec fn entry_count(c: Seq<u8>) -> int {
    c.len() as int / 32
}

/// The bytes of entry `i`.
pub open spec fn entry_at(c: Seq<u8>, i: int) -> Seq<u8> {
    c.subrange(32 * i, 32 * i + 32)
}

/// The name in entry `i`.
pub open spec fn name_at(c: Seq<u8>, i: int) -> Seq<u8> {
    dir_entry::entry_name(entry_at(c, i))
}

/// The inode number in entry `i`.
pub open spec fn id_at(c: Seq<u8>, i: int) -> u32 {
    dir_entry::entry_id(entry_at(c, i))
}

/// Whether entry `i` is not marked as deleted.
pub open spec fn live(c: Seq<u8>, i: int) -> bool {
    id_at(c, i) != FILE_NOT_EXIST
}

/// The first entry from `i` on with this name. Entries that are marked as
/// deleted count only where `deleted` is set.
pub open spec fn search(c: Seq<u8>, name: Seq<u8>, deleted: bool, i: int) -> Option<int>
    decreases entry_count(c) - i,
{
    if i >= entry_count(c) {
        None
    } else if (deleted || live(c, i)) && name_at(c, i) == name {
        Some(i)
    } else {
        search(c, name, deleted, i + 1)
    }
}

/// Up to where a search goes.
pub open spec fn search_end(c: Seq<u8>, name: Seq<u8>, deleted: bool) -> int {
    match search(c, name, deleted, 0) {
        Some(k) => k + 1,
        None => entry_count(c),
    }
}

/// The names that a search meets can be read.
pub open spec fn readable(c: Seq<u8>, name: Seq<u8>, deleted: bool) -> bool {
    forall|i: int|
        0 <= i < search_end(c, name, deleted) && (deleted || live(c, i)) ==> dir_entry::name_ok(
            #[trigger] entry_at(c, i),
        )
}

/// A search that skips deleted entries can be made: it reads the names that it
/// meets, and it counts live entries only, so without a hit none may be
/// deleted.
pub open spec fn searchable(c: Seq<u8>, name: Seq<u8>) -> bool {
    &&& readable(c, name, false)
    &&& search(c, name, false, 0) is None ==> forall|i: int|
        0 <= i < entry_count(c) ==> #[trigger] live(c, i)
}

/// Where a search ends.
pub proof fn lemma_search(c: Seq<u8>, name: Seq<u8>, deleted: bool, i: int)
    requires
        0 <= i,
    ensures
        match search(c, name, deleted, i) {
            Some(k) => {
                &&& i <= k < entry_count(c)
                &&& name_at(c, k) == name
                &&& deleted || live(c, k)
                &&& forall|j: int|
                    i <= j < k && (deleted || live(c, j)) ==> #[trigger] name_at(c, j) != name
            },
            None => forall|j: int|
                i <= j < entry_count(c) && (deleted || live(c, j)) ==> #[trigger] name_at(c, j)
                    != name,
        },
    decreases entry_count(c) - i,
{
    if i < entry_count(c) && !((deleted || live(c, i)) && name_at(c, i) == name) {
        lemma_search(c, name, deleted, i + 1);
    }
}

impl FileData {
    /// The directory with one more entry at its end.
    pub open spec fn appended(self, e: Seq<u8>) -> FileData {
        let n = self.size / 32;
        self.grown(32 * (n + 1)).written(32 * n, e)
    }

    /// The directory without entry `k`.
    pub open spec fn without(self, k: int) -> FileData {
        self.removed(32 * k, 32)
    }
}

} // verus!
