//! Inodes as open files: with access rights and an offset.
use crate::easy_fs::block_dev::BlockDevice;
use crate::easy_fs::bytes;
use crate::easy_fs::directory;
use crate::easy_fs::disk_inode;
use crate::easy_fs::efs::EasyFileSystem;
use crate::easy_fs::growth;
use crate::easy_fs::vfs::Inode;
use crate::easy_fs::volume::FileData;
use crate::mm::frame_allocator::{MemData, PhysMemory};
use crate::mm::page_table;
use crate::mm::page_table::{FrameSlice, UserBuffer};
use crate::mm::user_memory;
use vstd::prelude::*;
use vstd::slice::slice_subrange;
use vstd::string::*;

verus! {

/// What a file is.
#[derive(Clone, Copy, PartialEq, Eq, Structural, Debug)]
pub enum StatMode {
    /// Neither.
    Null,
    /// A directory.
    Dir,
    /// An ordinary file.
    File,
}

impl StatMode {
    /// The number for it.
    pub open spec fn number(self) -> u32 {
        match self {
            StatMode::Null => 0,
            StatMode::Dir => 0o040000,
            StatMode::File => 0o100000,
        }
    }

    /// The number for it.
    pub fn bits(&self) -> (r: u32)
        ensures
            r == self.number(),
    {
        match self {
            StatMode::Null => 0,
            StatMode::Dir => 0o040000,
            StatMode::File => 0o100000,
        }
    }
}

/// What is known of a file.
#[derive(Clone, Copy, PartialEq, Eq, Structural, Debug)]
pub struct Stat {
    /// The device.
    pub dev: u64,
    /// The inode number.
    pub ino: u64,
    /// What the file is.
    pub mode: StatMode,
    /// The number of hard links.
    pub nlink: u32,
}

impl Stat {
    /// The status of an inode, on the only device.
    pub fn new(ino: u64, mode: StatMode, nlink: u32) -> (r: Self)
        ensures
            r == (Stat { dev: 0, ino, mode, nlink }),
    {
        Stat { dev: 0, ino, mode, nlink }
    }
}

/// Write only.
pub const WRONLY: u32 = 0x1;

/// Read and write.
pub const RDWR: u32 = 0x2;

/// Create the file if it does not exist.
pub const CREATE: u32 = 0x200;

/// Truncate the file.
pub const TRUNC: u32 = 0x400;

/// How to open a file; with no flag, read only.
#[derive(Clone, Copy, PartialEq, Eq, Structural, Debug)]
pub struct OpenFlags {
    pub bits: u32,
}

impl OpenFlags {
    /// The flags in a word, if it has no others.
    pub fn from_bits(bits: u32) -> (r: Option<Self>)
        ensures
            r == if bits & !0x603u32 == 0 {
                Some(OpenFlags { bits })
            } else {
                None::<OpenFlags>
            },
    {
        if bits & !0x603 == 0 {
            Some(OpenFlags { bits })
        } else {
            None
        }
    }

    /// Whether no flag is set.
    pub fn is_empty(&self) -> (r: bool)
        ensures
            r == (self.bits == 0),
    {
        self.bits == 0
    }

    /// Whether a flag is set.
    pub open spec fn has(self, flag: u32) -> bool {
        self.bits & flag == flag
    }

    /// Whether a flag is set.
    pub fn contains(&self, flag: u32) -> (r: bool)
        ensures
            r == self.has(flag),
    {
        self.bits & flag == flag
    }

    /// Whether the file is opened to be read.
    pub open spec fn reads(self) -> bool {
        self.bits == 0 || !self.has(WRONLY)
    }

    /// Whether the file is opened to be written.
    pub open spec fn writes(self) -> bool {
        self.bits != 0
    }

    /// Whether the file is opened to be read, and to be written. Validity is not
    /// checked.
    pub fn read_write(&self) -> (r: (bool, bool))
        ensures
            r == (self.reads(), self.writes()),
    {
        if self.is_empty() {
            (true, false)
        } else if self.contains(WRONLY) {
            (false, true)
        } else {
            (true, true)
        }
    }
}

/// An open file.
pub struct OSInode {
    pub readable: bool,
    pub writable: bool,
    pub offset: usize,
    pub inode: Inode,
}

/// What reading `len` bytes from `offset` on gives.
pub open spec fn read_part(f: FileData, offset: int, len: int) -> Seq<u8> {
    bytes::part(f.content(), offset, disk_inode::read_len(f.size, offset, len))
}

/// The file after `b` was written from `offset` on, piece by piece.
pub open spec fn file_written(f: FileData, offset: int, b: Seq<u8>) -> FileData {
    if b.len() == 0 {
        f
    } else {
        f.grown(offset + b.len()).written(offset, b)
    }
}

/// The pieces have bytes.
pub open spec fn no_empty(pieces: Seq<FrameSlice>) -> bool {
    forall|k: int| 0 <= k < pieces.len() ==> (#[trigger] pieces[k]).start < pieces[k].end
}

/// Pieces behind the end of what is written stay as they are.
proof fn lemma_rest_kept(m: MemData, pieces: Seq<FrameSlice>, src: Seq<u8>, k: int, n: int)
    requires
        m.wf(),
        user_memory::pieces_ok(m, pieces),
        0 <= k <= n <= pieces.len(),
        user_memory::pieces_len(pieces, k) >= src.len(),
    ensures
        user_memory::scattered(m, pieces, src, n) == user_memory::scattered(m, pieces, src, k),
        user_memory::pieces_len(pieces, n) >= src.len(),
    decreases n,
{
    if k < n {
        lemma_rest_kept(m, pieces, src, k, n - 1);
        user_memory::lemma_scattered(m, pieces, src, n - 1);
        let before = user_memory::scattered(m, pieces, src, n - 1);
        let after = user_memory::scattered(m, pieces, src, n);
        let p = pieces[n - 1];
        assert(m.pages.contains_key(pieces[n - 1].ppn.0 as int));
        assert(before.pages.dom().contains(p.ppn.0 as int));
        let none = user_memory::clipped(
            src,
            user_memory::pieces_len(pieces, n - 1),
            user_memory::pieces_len(pieces, n),
        );
        assert(none.len() == 0);
        assert(bytes::splice(before.pages[p.ppn.0 as int], p.start as int, none)
            =~= before.pages[p.ppn.0 as int]);
        assert(after.pages =~= before.pages);
    }
}

/// Two writes, one behind the other, make one.
pub proof fn law_write_write(f: FileData, offset: int, a: Seq<u8>, b: Seq<u8>)
    requires
        f.wf(),
        0 <= offset,
    ensures
        file_written(file_written(f, offset, a), offset + a.len(), b) == file_written(
            f,
            offset,
            a + b,
        ),
{
    let l = file_written(file_written(f, offset, a), offset + a.len(), b);
    let r = file_written(f, offset, a + b);
    if a.len() == 0 {
        assert(a + b =~= b);
    } else if b.len() == 0 {
        assert(a + b =~= a);
    } else {
        assert(l.raw =~= r.raw);
    }
}

/// Two reads, one behind the other, give what one gives.
pub proof fn law_read_read(f: FileData, offset: int, a: int, b: int)
    requires
        f.wf(),
        0 <= offset,
        0 <= a,
        0 <= b,
    ensures
        ({
            let first = read_part(f, offset, a);
            read_part(f, offset, a + b) == first + read_part(f, offset + first.len(), b)
        }),
{
    let first = read_part(f, offset, a);
    assert(read_part(f, offset, a + b) =~= first + read_part(f, offset + first.len(), b));
}

/// What was written to an open file is read from where the write started.
pub proof fn law_file_write_read(f: FileData, offset: int, b: Seq<u8>)
    requires
        f.wf(),
        0 <= offset,
        disk_inode::blocks_for(offset + b.len()) <= disk_inode::INDIRECT2_BOUND,
    ensures
        read_part(file_written(f, offset, b), offset, b.len() as int) == b,
{
    if b.len() > 0 {
        crate::easy_fs::laws::law_write_read(f, offset, b);
    }
}

/// Blocks for two writes, one behind the other.
proof fn lemma_need(size: int, a: int, b: int)
    requires
        0 <= size,
        0 <= a <= b,
    ensures
        disk_inode::grow_need(size, a) <= disk_inode::grow_need(size, b),
        0 <= disk_inode::grow_need(size, a),
        disk_inode::grow_need(
            if a < size {
                size
            } else {
                a
            },
            b,
        ) == disk_inode::grow_need(size, b) - disk_inode::grow_need(size, a),
{
    disk_inode::lemma_total_monotonic(disk_inode::blocks_for(a), disk_inode::blocks_for(b));
    if size <= a {
        disk_inode::lemma_total_monotonic(disk_inode::blocks_for(size), disk_inode::blocks_for(a));
    }
    if size <= b {
        disk_inode::lemma_total_monotonic(disk_inode::blocks_for(size), disk_inode::blocks_for(b));
    }
}

/// More pieces have more bytes.
proof fn lemma_len_grows(pieces: Seq<FrameSlice>, j: int, k: int)
    requires
        no_empty(pieces),
        0 <= j <= k <= pieces.len(),
    ensures
        j <= user_memory::pieces_len(pieces, j),
        user_memory::pieces_len(pieces, j) + (k - j) <= user_memory::pieces_len(pieces, k),
    decreases k,
{
    if k > 0 {
        assert(pieces[k - 1].start < pieces[k - 1].end);
        if j < k {
            lemma_len_grows(pieces, j, k - 1);
        } else {
            lemma_len_grows(pieces, k - 1, k - 1);
        }
    }
}

/// The file system as reading from the inode leaves it.
#[verifier::opaque]
spec fn still<D: BlockDevice>(
    fs0: EasyFileSystem<D>,
    fs: EasyFileSystem<D>,
    inode: Inode,
    f: FileData,
) -> bool {
    &&& fs.wf()
    &&& fs.same(&fs0)
    &&& fs.untouched(&fs0)
    &&& inode.is_in(&fs)
    &&& inode.file(&fs) == f
}

/// One more piece is read.
proof fn lemma_read_step(
    m: MemData,
    pieces: Seq<FrameSlice>,
    f: FileData,
    start: int,
    k: int,
    total: int,
)
    requires
        m.wf(),
        user_memory::pieces_ok(m, pieces),
        no_empty(pieces),
        0 <= start,
        0 <= k < pieces.len(),
        ({
            let all = user_memory::pieces_len(pieces, pieces.len() as int);
            let part = read_part(f, start, all);
            &&& total <= part.len()
            &&& total == user_memory::pieces_len(pieces, k) || total == part.len()
            &&& total <= user_memory::pieces_len(pieces, k)
        }),
    ensures
        ({
            let all = user_memory::pieces_len(pieces, pieces.len() as int);
            let part = read_part(f, start, all);
            let s = pieces[k];
            let m1 = user_memory::scattered(m, pieces, part, k);
            let len = disk_inode::read_len(f.size, start + total, s.end - s.start);
            &&& m1.pages.contains_key(s.ppn.0 as int)
            &&& s.start < s.end <= 4096
            &&& total + len <= part.len()
            &&& total + len <= user_memory::pieces_len(pieces, k + 1)
            &&& total + len == part.len() || total + len == user_memory::pieces_len(pieces, k + 1)
            &&& len == 0 ==> total == part.len()
            &&& len > 0 ==> user_memory::scattered(m, pieces, part, k + 1) == (MemData {
                pages: m1.pages.insert(
                    s.ppn.0 as int,
                    bytes::splice(
                        m1.pages[s.ppn.0 as int],
                        s.start as int,
                        bytes::part(f.content(), start + total, len),
                    ),
                ),
                used: m1.used,
            })
        }),
{
    let n = pieces.len() as int;
    let all = user_memory::pieces_len(pieces, n);
    let part = read_part(f, start, all);
    let s = pieces[k];
    lemma_len_grows(pieces, k, n);
    lemma_len_grows(pieces, k + 1, n);
    user_memory::lemma_scattered(m, pieces, part, k);
    let m1 = user_memory::scattered(m, pieces, part, k);
    assert(m.pages.contains_key(pieces[k].ppn.0 as int));
    assert(m1.pages.dom().contains(s.ppn.0 as int));
    assert(pieces[k].start < pieces[k].end);
    let len = disk_inode::read_len(f.size, start + total, s.end - s.start);
    let off = user_memory::pieces_len(pieces, k);
    if len > 0 {
        assert(total == off);
        assert(user_memory::clipped(part, off, user_memory::pieces_len(pieces, k + 1))
            =~= bytes::part(f.content(), start + total, len));
    }
}

impl OSInode {
    /// An open file at its start.
    pub fn new(readable: bool, writable: bool, inode: Inode) -> (r: Self)
        ensures
            r.readable == readable,
            r.writable == writable,
            r.offset == 0,
            r.inode == inode,
    {
        OSInode { readable, writable, offset: 0, inode }
    }

    /// Whether the file can be read.
    pub fn readable(&self) -> (r: bool)
        ensures
            r == self.readable,
    {
        self.readable
    }

    /// Whether the file can be written.
    pub fn writable(&self) -> (r: bool)
        ensures
            r == self.writable,
    {
        self.writable
    }

    /// Reads all that is left from the offset on.
    pub fn read_all<D: BlockDevice>(&mut self, fs: &mut EasyFileSystem<D>) -> (v: Vec<u8>)
        requires
            old(fs).wf(),
            old(self).inode.is_in(old(fs)),
            old(self).offset + 512 <= usize::MAX,
        ensures
            final(fs).wf(),
            final(fs).same(old(fs)),
            final(fs).untouched(old(fs)),
            ({
                let f = old(self).inode.file(old(fs));
                &&& v@ == if old(self).offset < f.size {
                    f.content().subrange(old(self).offset as int, f.size)
                } else {
                    Seq::empty()
                }
                &&& *final(self) == (OSInode {
                    offset: if old(self).offset < f.size {
                        f.size as usize
                    } else {
                        old(self).offset
                    },
                    ..*old(self)
                })
            }),
    {
        let ghost f = self.inode.file(fs);
        let ghost start = self.offset as int;
        proof {
            assert(fs.sb().used(fs.cache@, self.inode.id(fs)));
            assert(f.wf());
        }
        let mut buffer: Vec<u8> = vec![0u8; 512];
        let mut v: Vec<u8> = Vec::new();
        loop
            invariant
                fs.wf(),
                fs.same(old(fs)),
                fs.untouched(old(fs)),
                self.inode == old(self).inode,
                self.readable == old(self).readable,
                self.writable == old(self).writable,
                self.inode.is_in(fs),
                self.inode.file(fs) == f,
                f == old(self).inode.file(old(fs)),
                f.wf(),
                start == old(self).offset,
                buffer@.len() == 512,
                start + 512 <= usize::MAX,
                start <= self.offset,
                self.offset == start || self.offset <= f.size,
                v@ == bytes::part(f.content(), start, self.offset - start),
            decreases f.size + start - self.offset,
        {
            let ghost before = v@;
            let ghost at = self.offset as int;
            let len: usize = self.inode.read_at(self.offset, buffer.as_mut_slice(), fs);
            if len == 0 {
                proof {
                    if start < f.size {
                        assert(at == f.size);
                        assert(v@ =~= f.content().subrange(start, f.size));
                    } else {
                        assert(v@ =~= Seq::<u8>::empty());
                    }
                }
                return v;
            }
            self.offset = self.offset + len;
            v.extend_from_slice(slice_subrange(buffer.as_slice(), 0, len));
            proof {
                assert(v@ =~= bytes::part(f.content(), start, self.offset - start));
            }
        }
    }

    /// Reads from the offset on into a piece of memory; the offset moves on.
    fn read_piece<D: BlockDevice>(
        &mut self,
        s: &FrameSlice,
        fs: &mut EasyFileSystem<D>,
        mem: &mut PhysMemory,
        Ghost(fs0): Ghost<EasyFileSystem<D>>,
        Ghost(f): Ghost<FileData>,
    ) -> (r: usize)
        requires
            still(fs0, *old(fs), old(self).inode, f),
            old(mem).wf(),
            old(mem)@.pages.contains_key(s.ppn.0 as int),
            s.start <= s.end <= 4096,
            old(self).offset + (s.end - s.start) <= usize::MAX,
        ensures
            still(fs0, *final(fs), final(self).inode, f),
            final(mem).wf(),
            final(mem).first() == old(mem).first(),
            r == disk_inode::read_len(
                f.size,
                old(self).offset as int,
                s.end - s.start,
            ),
            final(mem)@ == (MemData {
                pages: old(mem)@.pages.insert(
                    s.ppn.0 as int,
                    bytes::splice(
                        old(mem)@.pages[s.ppn.0 as int],
                        s.start as int,
                        bytes::part(
                            f.content(),
                            old(self).offset as int,
                            r as int,
                        ),
                    ),
                ),
                used: old(mem)@.used,
            }),
            r == 0 ==> final(mem)@ == old(mem)@,
            *final(self) == (OSInode { offset: (old(self).offset + r) as usize, ..*old(self) }),
    {
        let ghost m1 = mem@;
        reveal(still);
        let ghost at = self.offset as int;
        proof {
            mem.lemma_wf();
        }
        let mut b: Vec<u8> = mem.read_bytes(s.ppn, s.start, s.end - s.start);
        let ghost old_b = b@;
        let len: usize = self.inode.read_at(self.offset, b.as_mut_slice(), fs);
        mem.write_bytes(s.ppn, s.start, b.as_slice());
        self.offset = self.offset + len;
        proof {
            let clip = bytes::part(f.content(), at, len as int);
            assert(bytes::splice(m1.pages[s.ppn.0 as int], s.start as int, b@) =~= bytes::splice(
                m1.pages[s.ppn.0 as int],
                s.start as int,
                clip,
            ));
            if len == 0 {
                assert(bytes::splice(m1.pages[s.ppn.0 as int], s.start as int, clip)
                    =~= m1.pages[s.ppn.0 as int]);
                assert(mem@.pages =~= m1.pages);
            }
        }
        len
    }

    /// Reads from the offset on into the buffer, as far as the file goes; the
    /// offset moves on. Gives the number of bytes read.
    pub fn read<D: BlockDevice>(
        &mut self,
        buf: &UserBuffer,
        fs: &mut EasyFileSystem<D>,
        mem: &mut PhysMemory,
    ) -> (r: usize)
        requires
            old(fs).wf(),
            old(self).inode.is_in(old(fs)),
            old(mem).wf(),
            user_memory::pieces_ok(old(mem)@, buf.buffers@),
            no_empty(buf.buffers@),
            old(self).offset + user_memory::pieces_len(
                buf.buffers@,
                buf.buffers@.len() as int,
            ) <= usize::MAX,
        ensures
            final(fs).wf(),
            final(fs).same(old(fs)),
            final(fs).untouched(old(fs)),
            final(mem).wf(),
            final(mem).first() == old(mem).first(),
            ({
                let part = read_part(
                    old(self).inode.file(old(fs)),
                    old(self).offset as int,
                    user_memory::pieces_len(buf.buffers@, buf.buffers@.len() as int),
                );
                &&& r == part.len()
                &&& final(mem)@ == user_memory::scattered(
                    old(mem)@,
                    buf.buffers@,
                    part,
                    buf.buffers@.len() as int,
                )
                &&& *final(self) == (OSInode {
                    offset: (old(self).offset + r) as usize,
                    ..*old(self)
                })
            }),
    {
        let ghost f = self.inode.file(fs);
        let ghost fs0 = *fs;
        let ghost m0 = mem@;
        let ghost start = self.offset as int;
        let ghost pieces = buf.buffers@;
        let ghost n = pieces.len() as int;
        let ghost all = user_memory::pieces_len(pieces, n);
        let ghost part = read_part(f, start, all);
        proof {
            mem.lemma_wf();
            lemma_len_grows(pieces, 0, n);
            reveal(still);
        }
        let mut total: usize = 0;
        let mut k: usize = 0;
        while k < buf.buffers.len()
            invariant
                k <= n,
                n == pieces.len(),
                pieces == buf.buffers@,
                all == user_memory::pieces_len(pieces, n),
                part == read_part(f, start, all),
                m0.wf(),
                mem.wf(),
                mem.first() == old(mem).first(),
                user_memory::pieces_ok(m0, pieces),
                no_empty(pieces),
                still(fs0, *fs, self.inode, f),
                0 <= start,
                self.inode == old(self).inode,
                self.readable == old(self).readable,
                self.writable == old(self).writable,
                start + all <= usize::MAX,
                self.offset == start + total,
                total <= part.len(),
                total == user_memory::pieces_len(pieces, k as int) || total == part.len(),
                total <= user_memory::pieces_len(pieces, k as int),
                mem@ == user_memory::scattered(m0, pieces, part, k as int),
            ensures
                total == part.len(),
                mem@ == user_memory::scattered(m0, pieces, part, n),
            decreases n - k,
        {
            let s: FrameSlice = buf.buffers[k];
            proof {
                lemma_len_grows(pieces, k as int, n);
                lemma_len_grows(pieces, k + 1, n);
                lemma_read_step(m0, pieces, f, start, k as int, total as int);
            }
            let len: usize = self.read_piece(&s, fs, mem, Ghost(fs0), Ghost(f));
            if len == 0 {
                proof {
                    lemma_rest_kept(m0, pieces, part, k as int, n);
                }
                break;
            }
            total = total + len;
            k += 1;
        }
        reveal(still);
        total
    }

    /// Writes the bytes of the buffer from the offset on; the file grows as it
    /// must, and the offset moves on. Gives the number of bytes written.
    pub fn write<D: BlockDevice>(
        &mut self,
        buf: &UserBuffer,
        fs: &mut EasyFileSystem<D>,
        mem: &PhysMemory,
    ) -> (r: usize)
        requires
            old(fs).wf(),
            old(self).inode.is_in(old(fs)),
            mem.wf(),
            user_memory::pieces_ok(mem@, buf.buffers@),
            no_empty(buf.buffers@),
            ({
                let end = old(self).offset + user_memory::pieces_len(
                    buf.buffers@,
                    buf.buffers@.len() as int,
                );
                buf.buffers@.len() > 0 ==> {
                    &&& disk_inode::blocks_for(end) <= disk_inode::INDIRECT2_BOUND
                    &&& disk_inode::grow_need(old(self).inode.file(old(fs)).size, end) <= old(
                        fs,
                    ).free_blocks()
                }
            }),
        ensures
            final(fs).wf(),
            final(fs).same(old(fs)),
            ({
                let b = page_table::flat(mem@, buf.buffers@, buf.buffers@.len() as int);
                let f = old(self).inode.file(old(fs));
                &&& r == b.len()
                &&& final(fs)@ == old(fs)@.insert(
                    old(self).inode.id(old(fs)),
                    file_written(f, old(self).offset as int, b),
                )
                &&& final(fs).free_inodes() == old(fs).free_inodes()
                &&& r > 0 ==> final(fs).free_blocks() == old(fs).free_blocks()
                    - disk_inode::grow_need(f.size, old(self).offset + r)
                &&& r > 0 ==> final(fs).synced()
                &&& growth::has_grown(
                    old(fs).sb(),
                    old(fs).cache@,
                    final(fs).cache@,
                    old(self).inode.id(old(fs)),
                )
                &&& r == 0 ==> final(fs).untouched(old(fs))
                &&& *final(self) == (OSInode {
                    offset: (old(self).offset + r) as usize,
                    ..*old(self)
                })
            }),
    {
        let ghost f = self.inode.file(fs);
        let ghost files = fs@;
        let ghost id = self.inode.id(fs);
        let ghost start = self.offset as int;
        let ghost pieces = buf.buffers@;
        let ghost n = pieces.len() as int;
        let ghost all = user_memory::pieces_len(pieces, n);
        let ghost free = fs.free_blocks();
        proof {
            mem.lemma_wf();
            assert(fs.sb().used(fs.cache@, id));
            assert(f.wf());
            lemma_len_grows(pieces, 0, n);
            assert(fs@ =~= files.insert(id, file_written(f, start, page_table::flat(mem@, pieces, 0))));
        }
        proof {
            growth::lemma_not_grown(fs.sb(), fs.cache@, fs.cache@, id);
        }
        if buf.buffers.len() == 0 {
            return 0;
        }
        let ghost d0 = fs.cache@;
        let mut total: usize = 0;
        let mut k: usize = 0;
        while k < buf.buffers.len()
            invariant
                k <= n,
                n == pieces.len(),
                pieces == buf.buffers@,
                all == user_memory::pieces_len(pieces, n),
                mem.wf(),
                user_memory::pieces_ok(mem@, pieces),
                no_empty(pieces),
                fs.wf(),
                fs.same(old(fs)),
                self.inode == old(self).inode,
                self.readable == old(self).readable,
                self.writable == old(self).writable,
                self.inode.is_in(fs),
                id == self.inode.id(fs),
                id == old(self).inode.id(old(fs)),
                f.wf(),
                files.contains_key(id),
                f == files[id],
                start == old(self).offset,
                self.offset == start + total,
                total == user_memory::pieces_len(pieces, k as int),
                n > 0 ==> disk_inode::blocks_for(start + all) <= disk_inode::INDIRECT2_BOUND,
                n > 0 ==> disk_inode::grow_need(f.size, start + all) <= free,
                fs@ == files.insert(
                    id,
                    file_written(f, start, page_table::flat(mem@, pieces, k as int)),
                ),
                fs.free_inodes() == old(fs).free_inodes(),
                k == 0 ==> fs.free_blocks() == free,
                k > 0 ==> fs.free_blocks() == free - disk_inode::grow_need(f.size, start + total),
                k > 0 ==> fs.synced(),
                d0 == old(fs).cache@,
                growth::has_grown(old(fs).sb(), d0, fs.cache@, id),
                files == old(fs)@,
            decreases n - k,
        {
            let s: FrameSlice = buf.buffers[k];
            let ghost done = page_table::flat(mem@, pieces, k as int);
            let ghost g = file_written(f, start, done);
            proof {
                mem.lemma_wf();
                lemma_len_grows(pieces, k as int, n);
                lemma_len_grows(pieces, k + 1, n);
                user_memory::lemma_flat_len(mem@, pieces, k as int);
                user_memory::lemma_flat_len(mem@, pieces, k + 1);
                assert(mem@.pages.contains_key(pieces[k as int].ppn.0 as int));
                assert(pieces[k as int].start < pieces[k as int].end);
                assert(self.inode.file(fs) == g);
                let next = user_memory::pieces_len(pieces, k + 1);
                lemma_need(f.size, start + total, start + next);
                lemma_need(f.size, start + next, start + all);
                assert(g.size == if done.len() > 0 && start + total >= f.size {
                    start + total
                } else {
                    f.size
                });
                if k == 0 {
                    assert(total == 0);
                }
            }
            let b: Vec<u8> = mem.read_bytes(s.ppn, s.start, s.end - s.start);
            let ghost d1 = fs.cache@;
            let len: usize = self.inode.write_at(self.offset, b.as_slice(), fs);
            proof {
                growth::lemma_grown_files(fs.sb(), d0, d1, fs.cache@, id);
                law_write_write(f, start, done, b@);
                assert(fs@ =~= files.insert(
                    id,
                    file_written(f, start, page_table::flat(mem@, pieces, k + 1)),
                ));
            }
            self.offset = self.offset + len;
            total = total + len;
            k += 1;
        }
        proof {
            user_memory::lemma_flat_len(mem@, pieces, n);
            lemma_len_grows(pieces, 0, n);
        }
        total
    }

    /// What is known of the file.
    pub fn stat<D: BlockDevice>(&self, fs: &mut EasyFileSystem<D>) -> (r: Stat)
        requires
            old(fs).wf(),
            self.inode.is_in(old(fs)),
        ensures
            final(fs).wf(),
            final(fs).same(old(fs)),
            final(fs).untouched(old(fs)),
            r == file_stat(self.inode.id(old(fs)), self.inode.file(old(fs))),
    {
        let ino: u32 = self.inode.inode_id(fs);
        let mode: StatMode = if self.inode.is_dir(fs) {
            StatMode::Dir
        } else if self.inode.is_file(fs) {
            StatMode::File
        } else {
            StatMode::Null
        };
        let nlink: u32 = self.inode.nlink(fs);
        Stat::new(ino as u64, mode, nlink)
    }
}

/// What is known of inode `i`.
pub open spec fn file_stat(i: int, f: FileData) -> Stat {
    Stat {
        dev: 0,
        ino: i as u64,
        mode: if f.dir {
            StatMode::Dir
        } else {
            StatMode::File
        },
        nlink: f.nlink,
    }
}

} // verus!
