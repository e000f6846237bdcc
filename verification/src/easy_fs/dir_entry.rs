//! Directory entries. The content of a directory is a sequence of them.
use super::bytes;
use super::bytes::{copy_into, read_u32, write_u32};
use super::FILE_NOT_EXIST;
use vstd::prelude::*;
use vstd::slice::slice_subrange;
use vstd::string::*;

verus! {

/// The longest name. The byte after it holds the terminating zero.
pub const NAME_LENGTH_LIMIT: usize = 27;

/// Size of a directory entry.
pub const DIRENT_SZ: usize = 32;

/// A directory entry, 32 bytes: a name that ends at the first zero byte of its
/// 28, and the number of an inode.
pub struct DirEntry {
    bytes: Vec<u8>,
}

impl View for DirEntry {
    type V = Seq<u8>;

    closed spec fn view(&self) -> Seq<u8> {
        self.bytes@
    }
}

/// The first zero byte among the name bytes, from byte `i` on; 28 if there is
/// none.
pub open spec fn name_end(e: Seq<u8>, i: int) -> int
    decreases NAME_LENGTH_LIMIT + 1 - i,
{
    if i > NAME_LENGTH_LIMIT {
        NAME_LENGTH_LIMIT + 1
    } else if e[i] == 0 {
        i
    } else {
        name_end(e, i + 1)
    }
}

/// The name in an entry.
pub open spec fn entry_name(e: Seq<u8>) -> Seq<u8> {
    e.subrange(0, name_end(e, 0))
}

/// The name in an entry can be read: a zero byte ends it, and it is UTF-8.
pub open spec fn name_ok(e: Seq<u8>) -> bool {
    &&& name_end(e, 0) <= NAME_LENGTH_LIMIT
    &&& vstd::utf8::valid_utf8(entry_name(e))
}

/// The inode number in an entry.
pub open spec fn entry_id(e: Seq<u8>) -> u32 {
    bytes::u32_at(e, 28)
}

/// The entry that gives the name `name` to inode `inode_id`.
pub open spec fn make_entry(name: Seq<u8>, inode_id: u32) -> Seq<u8> {
    Seq::new(
        28,
        |i: int|
            if i < name.len() {
                name[i]
            } else {
                0
            },
    ) + bytes::u32_bytes(inode_id)
}

/// Where the name of an entry ends.
pub proof fn lemma_name_end(e: Seq<u8>, i: int)
    requires
        0 <= i <= 28,
    ensures
        i <= name_end(e, i) <= 28,
        forall|j: int| i <= j < name_end(e, i) ==> #[trigger] e[j] != 0,
        name_end(e, i) < 28 ==> e[name_end(e, i)] == 0,
    decreases 28 - i,
{
    if i < 28 {
        lemma_name_end(e, i + 1);
    }
}

proof fn lemma_name_end_is(e: Seq<u8>, i: int, n: int)
    requires
        0 <= i <= n <= 28,
        n < 28 ==> e[n] == 0,
        forall|j: int| i <= j < n ==> #[trigger] e[j] != 0,
    ensures
        name_end(e, i) == n,
    decreases n - i,
{
    if i < n {
        lemma_name_end_is(e, i + 1, n);
    }
}

/// An entry gives back the inode number that it was made from, and the name, if
/// no zero byte cuts it short.
pub proof fn lemma_made_entry(name: Seq<u8>, inode_id: u32)
    requires
        name.len() <= 28,
    ensures
        make_entry(name, inode_id).len() == DIRENT_SZ,
        entry_id(make_entry(name, inode_id)) == inode_id,
        !name.contains(0) ==> entry_name(make_entry(name, inode_id)) == name,
        !name.contains(0) && name.len() <= NAME_LENGTH_LIMIT && vstd::utf8::valid_utf8(name)
            ==> name_ok(make_entry(name, inode_id)),
{
    let e = make_entry(name, inode_id);
    bytes::lemma_u32_read_back(e, 28, inode_id);
    assert(e =~= bytes::splice(e, 28, bytes::u32_bytes(inode_id)));
    if !name.contains(0) {
        assert forall|j: int| 0 <= j < name.len() implies #[trigger] e[j] != 0 by {
            assert(name.contains(name[j]));
        }
        lemma_name_end_is(e, 0, name.len() as int);
        assert(entry_name(e) =~= name);
    }
}

/// `core::str::from_utf8`: the string that the bytes encode if they are UTF-8,
/// otherwise an error, which is given as `None`.
#[verifier::external_body]
pub(crate) fn str_from_utf8(v: &[u8]) -> (r: Option<&str>)
    ensures
        match r {
            Some(s) => vstd::utf8::valid_utf8(v@) && s@ == vstd::utf8::decode_utf8(v@),
            None => !vstd::utf8::valid_utf8(v@),
        },
{
    core::str::from_utf8(v).ok()
}

impl DirEntry {
    /// The entry holds all its bytes.
    pub open spec fn wf(&self) -> bool {
        self@.len() == DIRENT_SZ
    }

    /// An empty directory entry.
    pub fn empty() -> (r: Self)
        ensures
            r.wf(),
            r@ == bytes::zeros(32),
    {
        let r = DirEntry { bytes: vec![0u8; DIRENT_SZ] };
        assert(r@ =~= bytes::zeros(32));
        r
    }

    /// A directory entry from a name and an inode number. A zero byte always
    /// ends the name.
    pub fn new(name: &str, inode_id: u32) -> (r: Self)
        requires
            name.spec_bytes().len() <= NAME_LENGTH_LIMIT,
        ensures
            r.wf(),
            r@ == make_entry(name.spec_bytes(), inode_id),
            name_end(r@, 0) <= NAME_LENGTH_LIMIT,
            !name.spec_bytes().contains(0) ==> name_ok(r@) && entry_name(r@) == name.spec_bytes(),
    {
        let mut v: Vec<u8> = vec![0u8; DIRENT_SZ];
        copy_into(&mut v, 0, name.as_bytes());
        write_u32(&mut v, 28, inode_id);
        proof {
            assert(v@ =~= make_entry(name.spec_bytes(), inode_id));
            assert(v@[27] == 0);
            lemma_name_end(v@, 0);
            vstd::utf8::encode_utf8_valid_utf8(name@);
            lemma_made_entry(name.spec_bytes(), inode_id);
        }
        DirEntry { bytes: v }
    }

    /// The bytes, to be written.
    pub fn as_bytes(&self) -> (r: &[u8])
        ensures
            r@ == self@,
    {
        self.bytes.as_slice()
    }

    /// The bytes, to be read into.
    pub fn as_bytes_mut(&mut self) -> (r: &mut [u8])
        ensures
            r@ == old(self)@,
            final(self)@ == final(r)@,
    {
        self.bytes.as_mut_slice()
    }

    /// Whether the name can be read.
    pub fn has_name(&self) -> (r: bool)
        requires
            self.wf(),
        ensures
            r == name_ok(self@),
    {
        let mut len: usize = 0;
        while len <= NAME_LENGTH_LIMIT && self.bytes[len] != 0
            invariant
                len <= NAME_LENGTH_LIMIT + 1,
                self.wf(),
                name_end(self@, len as int) == name_end(self@, 0),
            decreases NAME_LENGTH_LIMIT + 1 - len,
        {
            len += 1;
        }
        let part: &[u8] = slice_subrange(self.bytes.as_slice(), 0, len);
        assert(part@ =~= entry_name(self@));
        len <= NAME_LENGTH_LIMIT && str_from_utf8(part).is_some()
    }

    /// The name.
    pub fn name(&self) -> (r: &str)
        requires
            self.wf(),
            name_ok(self@),
        ensures
            r.spec_bytes() == entry_name(self@),
    {
        let mut len: usize = 0;
        while self.bytes[len] != 0
            invariant
                len <= NAME_LENGTH_LIMIT,
                self.wf(),
                name_end(self@, 0) <= NAME_LENGTH_LIMIT,
                name_end(self@, len as int) == name_end(self@, 0),
            decreases NAME_LENGTH_LIMIT - len,
        {
            proof {
                lemma_name_end(self@, len as int);
                lemma_name_end(self@, len + 1);
            }
            len += 1;
        }
        let part: &[u8] = slice_subrange(self.bytes.as_slice(), 0, len);
        assert(part@ =~= entry_name(self@));
        proof {
            vstd::utf8::decode_utf8_encode_utf8(part@);
        }
        str_from_utf8(part).unwrap()
    }

    /// The inode number.
    pub fn inode_id(&self) -> (r: u32)
        requires
            self.wf(),
        ensures
            r == entry_id(self@),
    {
        read_u32(self.bytes.as_slice(), 28)
    }

    /// Gives the entry the inode number that stands for no file.
    pub fn mark_as_deleted(&mut self)
        requires
            old(self).wf(),
        ensures
            final(self).wf(),
            final(self)@ == old(self)@.subrange(0, 28) + bytes::u32_bytes(FILE_NOT_EXIST),
            entry_id(final(self)@) == FILE_NOT_EXIST,
            final(self)@.subrange(0, 28) == old(self)@.subrange(0, 28),
    {
        let ghost before = self@;
        write_u32(&mut self.bytes, 28, FILE_NOT_EXIST);
        proof {
            bytes::lemma_u32_read_back(before, 28, FILE_NOT_EXIST);
            assert(self@ =~= before.subrange(0, 28) + bytes::u32_bytes(FILE_NOT_EXIST));
        }
    }
}

} // verus!
