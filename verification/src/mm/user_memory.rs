//! Reading and writing the memory of user programs from the kernel.
use super::address;
use super::address::{PhysPageNum, VirtAddr, PPN_SPACE, VA_SPACE};
use super::frame_allocator::{MemData, PhysMemory};
use super::page_table;
use super::page_table::{translated_byte_buffer, FrameSlice, PageTable};
use crate::easy_fs::bytes;
use vstd::prelude::*;
use vstd::slice::slice_subrange;

verus! {

/// The root of the page table of a token.
pub open spec fn token_root(token: u64) -> int {
    token as int % (PPN_SPACE as int)
}

/// The pieces that hold the `len` bytes at user address `ptr`.
pub open spec fn user_pieces(m: MemData, token: u64, ptr: u64, len: int) -> Seq<FrameSlice> {
    let a = ptr as int % (VA_SPACE as int);
    Seq::new(
        page_table::piece_count(a, len) as nat,
        |k: int| page_table::piece(m, token_root(token), a, len, k),
    )
}

/// The page of user address `a` has an entry, and its frame exists.
pub open spec fn user_page(m: MemData, token: u64, v: int) -> bool {
    page_table::lookup(m, token_root(token), v) matches Some(bits) && m.pages.contains_key(
        page_table::pte_ppn(bits),
    )
}

/// The kernel can access the `len` bytes at user address `ptr`.
pub open spec fn accessible(m: MemData, token: u64, ptr: u64, len: int) -> bool {
    let a = ptr as int % (VA_SPACE as int);
    &&& page_table::walkable(m, token_root(token))
    &&& page_table::canonical(ptr as int, len)
    &&& forall|k: int|
        0 <= k < page_table::piece_count(a, len) ==> #[trigger] user_page(
            m,
            token,
            address::floor_of(a) + k,
        )
}

/// The pieces lie in frames that exist.
pub open spec fn pieces_ok(m: MemData, pieces: Seq<FrameSlice>) -> bool {
    forall|k: int|
        0 <= k < pieces.len() ==> m.pages.contains_key((#[trigger] pieces[k]).ppn.0 as int)
            && pieces[k].start <= pieces[k].end <= 4096
}

/// The number of bytes in the first `k` pieces.
pub open spec fn pieces_len(pieces: Seq<FrameSlice>, k: int) -> int
    decreases k,
{
    if k <= 0 {
        0
    } else {
        pieces_len(pieces, k - 1) + (pieces[k - 1].end - pieces[k - 1].start)
    }
}

/// The part of `src` from `from` to before `to`, as far as it goes.
pub open spec fn clipped(src: Seq<u8>, from: int, to: int) -> Seq<u8> {
    let n = src.len() as int;
    src.subrange(
        if from < n {
            from
        } else {
            n
        },
        if to < n {
            to
        } else {
            n
        },
    )
}

/// Memory after `src` was written to the first `k` pieces, as far as it goes.
pub open spec fn scattered(m: MemData, pieces: Seq<FrameSlice>, src: Seq<u8>, k: int) -> MemData
    decreases k,
{
    if k <= 0 {
        m
    } else {
        let before = scattered(m, pieces, src, k - 1);
        let p = pieces[k - 1];
        MemData {
            pages: before.pages.insert(
                p.ppn.0 as int,
                bytes::splice(
                    before.pages[p.ppn.0 as int],
                    p.start as int,
                    clipped(src, pieces_len(pieces, k - 1), pieces_len(pieces, k)),
                ),
            ),
            used: before.used,
        }
    }
}

/// Memory after `src` was written at user address `ptr`.
pub open spec fn user_written(m: MemData, token: u64, ptr: u64, src: Seq<u8>) -> MemData {
    let pieces = user_pieces(m, token, ptr, src.len() as int);
    scattered(m, pieces, src, pieces.len() as int)
}

/// Only the bytes of frames in the pieces change.
pub proof fn lemma_scattered(m: MemData, pieces: Seq<FrameSlice>, src: Seq<u8>, k: int)
    requires
        pieces_ok(m, pieces),
        m.wf(),
        0 <= k <= pieces.len(),
    ensures
        scattered(m, pieces, src, k).wf(),
        scattered(m, pieces, src, k).used == m.used,
        scattered(m, pieces, src, k).pages.dom() == m.pages.dom(),
        pieces_len(pieces, k) >= 0,
        forall|p: int|
            (forall|j: int| 0 <= j < k ==> (#[trigger] pieces[j]).ppn.0 != p)
                ==> #[trigger] scattered(m, pieces, src, k).pages[p] == m.pages[p],
    decreases k,
{
    if k > 0 {
        lemma_scattered(m, pieces, src, k - 1);
        let s = pieces[k - 1];
        assert(m.pages.contains_key(s.ppn.0 as int));
        let m1 = scattered(m, pieces, src, k - 1);
        let m2 = scattered(m, pieces, src, k);
        assert(m1.pages.dom().contains(s.ppn.0 as int));
        assert(m2.pages.dom() =~= m.pages.dom());
        assert forall|p: int| #[trigger] m2.pages.contains_key(p) implies m2.pages[p].len() == 4096
            && 0 <= p < PPN_SPACE by {
            assert(m1.pages.dom().contains(p));
            assert(m1.pages.contains_key(p));
        }
        assert forall|p: int|
            (forall|j: int| 0 <= j < k ==> (#[trigger] pieces[j]).ppn.0 != p) implies #[trigger] m2.pages[p]
            == m.pages[p] by {
            assert(pieces[k - 1].ppn.0 != p);
            assert(m1.pages[p] == m.pages[p]);
        }
    }
}

/// What was written to pieces in different frames is read from them.
pub proof fn law_written_read(m: MemData, pieces: Seq<FrameSlice>, src: Seq<u8>)
    requires
        m.wf(),
        pieces_ok(m, pieces),
        forall|i: int, j: int|
            0 <= i < j < pieces.len() ==> (#[trigger] pieces[i]).ppn != (#[trigger] pieces[j]).ppn,
        src.len() == pieces_len(pieces, pieces.len() as int),
    ensures
        page_table::flat(
            scattered(m, pieces, src, pieces.len() as int),
            pieces,
            pieces.len() as int,
        ) == src,
{
    let n = pieces.len() as int;
    lemma_written_read(m, pieces, src, n, n);
    assert(clipped(src, 0, pieces_len(pieces, n)) =~= src);
}

proof fn lemma_pieces_len(pieces: Seq<FrameSlice>, j: int, k: int)
    requires
        0 <= j <= k <= pieces.len(),
        forall|i: int| 0 <= i < pieces.len() ==> (#[trigger] pieces[i]).start <= pieces[i].end,
    ensures
        0 <= pieces_len(pieces, j) <= pieces_len(pieces, k),
    decreases k,
{
    if k > 0 {
        assert(pieces[k - 1].start <= pieces[k - 1].end);
        if j < k {
            lemma_pieces_len(pieces, j, k - 1);
        } else {
            lemma_pieces_len(pieces, k - 1, k - 1);
        }
    }
}

proof fn lemma_written_read(
    m: MemData,
    pieces: Seq<FrameSlice>,
    src: Seq<u8>,
    j: int,
    k: int,
)
    requires
        m.wf(),
        pieces_ok(m, pieces),
        forall|x: int, y: int|
            0 <= x < y < pieces.len() ==> (#[trigger] pieces[x]).ppn != (#[trigger] pieces[y]).ppn,
        src.len() == pieces_len(pieces, pieces.len() as int),
        0 <= j <= k <= pieces.len(),
    ensures
        page_table::flat(scattered(m, pieces, src, k), pieces, j) == clipped(
            src,
            0,
            pieces_len(pieces, j),
        ),
    decreases k, j,
{
    let mk = scattered(m, pieces, src, k);
    let c = clipped(src, 0, pieces_len(pieces, j));
    assert forall|i: int| 0 <= i < pieces.len() implies (#[trigger] pieces[i]).start
        <= pieces[i].end by {}
    lemma_pieces_len(pieces, j, pieces.len() as int);
    lemma_pieces_len(pieces, 0, j);
    if j == 0 {
        assert(page_table::flat(mk, pieces, j) =~= c);
    } else {
        let s = pieces[j - 1];
        let off = pieces_len(pieces, j - 1);
        lemma_pieces_len(pieces, j - 1, j);
        lemma_pieces_len(pieces, 0, j - 1);
        lemma_scattered(m, pieces, src, k);
        lemma_scattered(m, pieces, src, j);
        lemma_scattered(m, pieces, src, j - 1);
        lemma_written_read(m, pieces, src, j - 1, k);
        let mj = scattered(m, pieces, src, j);
        let p = s.ppn.0 as int;
        lemma_later(m, pieces, src, j, k);
        assert(m.pages.dom().contains(p));
        assert(mj.pages[p].subrange(s.start as int, s.end as int) =~= clipped(
            src,
            off,
            pieces_len(pieces, j),
        )) by {
            let before = scattered(m, pieces, src, j - 1);
            assert(before.pages.dom().contains(p));
            assert(before.pages.contains_key(p));
            assert(before.pages[p].len() == 4096);
        }
        assert(page_table::flat(mk, pieces, j) =~= c);
    }
}

/// Writing later pieces leaves the frame of piece `j - 1` alone.
proof fn lemma_later(m: MemData, pieces: Seq<FrameSlice>, src: Seq<u8>, j: int, k: int)
    requires
        forall|x: int, y: int|
            0 <= x < y < pieces.len() ==> (#[trigger] pieces[x]).ppn != (#[trigger] pieces[y]).ppn,
        0 < j <= k <= pieces.len(),
    ensures
        scattered(m, pieces, src, k).pages[pieces[j - 1].ppn.0 as int] == scattered(
            m,
            pieces,
            src,
            j,
        ).pages[pieces[j - 1].ppn.0 as int],
    decreases k,
{
    if j < k {
        lemma_later(m, pieces, src, j, k - 1);
        assert(pieces[j - 1].ppn != pieces[k - 1].ppn);
    }
}

/// Writes `src` to the pieces, as far as it goes.
pub fn write_pieces(pieces: &Vec<FrameSlice>, src: &[u8], mem: &mut PhysMemory)
    requires
        old(mem).wf(),
        pieces_ok(old(mem)@, pieces@),
    ensures
        final(mem).wf(),
        final(mem).first() == old(mem).first(),
        final(mem)@ == scattered(old(mem)@, pieces@, src@, pieces@.len() as int),
{
    let ghost m0 = mem@;
    let mut k: usize = 0;
    let mut off: usize = 0;
    proof {
        mem.lemma_wf();
    }
    while k < pieces.len()
        invariant
            k <= pieces@.len(),
            off <= src@.len(),
            m0.wf(),
            mem.wf(),
            mem.first() == old(mem).first(),
            pieces_ok(m0, pieces@),
            mem@ == scattered(m0, pieces@, src@, k as int),
            off == if pieces_len(pieces@, k as int) < src@.len() {
                pieces_len(pieces@, k as int)
            } else {
                src@.len() as int
            },
        decreases pieces@.len() - k,
    {
        let p: FrameSlice = pieces[k];
        proof {
            lemma_scattered(m0, pieces@, src@, k as int);
            assert(m0.pages.contains_key(pieces@[k as int].ppn.0 as int));
            assert(mem@.pages.dom().contains(p.ppn.0 as int));
        }
        let left: usize = src.len() - off;
        let len: usize = if p.end - p.start < left {
            p.end - p.start
        } else {
            left
        };
        let part: &[u8] = slice_subrange(src, off, off + len);
        assert(part@ =~= clipped(
            src@,
            pieces_len(pieces@, k as int),
            pieces_len(pieces@, k + 1),
        ));
        mem.write_bytes(p.ppn, p.start, part);
        off += len;
        k += 1;
    }
}

/// Writes `src` at user address `ptr`, translated through the page table of the
/// token. The bytes may lie in several pages.
pub fn copy_to_user(token: u64, ptr: u64, src: &[u8], mem: &mut PhysMemory)
    requires
        old(mem).wf(),
        accessible(old(mem)@, token, ptr, src@.len() as int),
    ensures
        final(mem).wf(),
        final(mem).first() == old(mem).first(),
        final(mem)@ == user_written(old(mem)@, token, ptr, src@),
{
    let pieces: Vec<FrameSlice> = user_buffer(token, ptr, src.len() as u64, mem);
    write_pieces(&pieces, src, mem);
}

/// The pieces at a user address that the kernel can access.
pub proof fn lemma_pieces_ok(m: MemData, token: u64, ptr: u64, len: int)
    requires
        m.wf(),
        accessible(m, token, ptr, len),
    ensures
        pieces_ok(m, user_pieces(m, token, ptr, len)),
{
    let a = ptr as int % (VA_SPACE as int);
    let pieces = user_pieces(m, token, ptr, len);
    assert forall|k: int| 0 <= k < pieces.len() implies m.pages.contains_key(
        (#[trigger] pieces[k]).ppn.0 as int,
    ) && pieces[k].start <= pieces[k].end <= 4096 by {
        assert(user_page(m, token, address::floor_of(a) + k));
        let bits = page_table::lookup(m, token_root(token), address::floor_of(a) + k)->0;
        assert(pieces[k] == page_table::piece(m, token_root(token), a, len, k));
        assert(pieces[k].ppn.0 == page_table::pte_ppn(bits));
        page_table::lemma_piece_bounds(m, token_root(token), a, len, k);
    }
}

/// The pieces that hold `len` bytes at user address `ptr`.
pub fn user_buffer(token: u64, ptr: u64, len: u64, mem: &PhysMemory) -> (r: Vec<FrameSlice>)
    requires
        mem.wf(),
        accessible(mem@, token, ptr, len as int),
    ensures
        r@ == user_pieces(mem@, token, ptr, len as int),
        pieces_ok(mem@, r@),
{
    let ghost a = ptr as int % (VA_SPACE as int);
    proof {
        mem.lemma_wf();
        assert forall|k: int|
            0 <= k < page_table::piece_count(a, len as int) implies #[trigger] page_table::lookup(
            mem@,
            token as int % (PPN_SPACE as int),
            address::floor_of(a) + k,
        ) is Some by {
            assert(user_page(mem@, token, address::floor_of(a) + k));
        }
        lemma_pieces_ok(mem@, token, ptr, len as int);
    }
    let r: Vec<FrameSlice> = translated_byte_buffer(mem, token, ptr, len);
    assert(r@ =~= user_pieces(mem@, token, ptr, len as int));
    r
}

/// The byte at user address `a`.
pub open spec fn user_byte(m: MemData, token: u64, a: int) -> u8 {
    page_table::virt_byte(m, token_root(token), a % (VA_SPACE as int))
}

/// A string of `n` bytes, and a zero byte behind it, starts at user address
/// `ptr`.
pub open spec fn user_str(m: MemData, token: u64, ptr: u64, n: int) -> bool {
    &&& 0 <= n
    &&& ptr + n < u64::MAX
    &&& page_table::walkable(m, token_root(token))
    &&& forall|i: int|
        0 <= i <= n ==> {
            &&& user_page(m, token, (ptr + i) % (VA_SPACE as int) / 4096)
            &&& (#[trigger] user_byte(m, token, ptr + i) == 0) == (i == n)
        }
}

/// The bytes of that string.
pub open spec fn user_str_bytes(m: MemData, token: u64, ptr: u64, n: int) -> Seq<u8> {
    Seq::new(n as nat, |i: int| user_byte(m, token, ptr + i))
}

/// The string that starts at user address `ptr`, if one does.
pub open spec fn user_string(m: MemData, token: u64, ptr: u64) -> Seq<u8> {
    user_str_bytes(m, token, ptr, choose|n: int| user_str(m, token, ptr, n))
}

/// Only one string starts at an address.
pub proof fn lemma_one_string(m: MemData, token: u64, ptr: u64, n: int)
    requires
        user_str(m, token, ptr, n),
    ensures
        user_string(m, token, ptr) == user_str_bytes(m, token, ptr, n),
{
    let k = choose|k: int| user_str(m, token, ptr, k);
    let bn = user_byte(m, token, ptr + n);
    let bk = user_byte(m, token, ptr + k);
    assert(k == n);
}

/// The `len` bytes at user address `ptr`.
pub open spec fn user_bytes(m: MemData, token: u64, ptr: u64, len: int) -> Seq<u8> {
    Seq::new(
        len as nat,
        |i: int| page_table::virt_byte(m, token_root(token), ptr as int % (VA_SPACE as int) + i),
    )
}

/// The bytes of all pieces at a user address are the bytes there.
pub proof fn lemma_user_pieces(m: MemData, token: u64, ptr: u64, len: int)
    requires
        m.wf(),
        0 <= len,
        pieces_ok(m, user_pieces(m, token, ptr, len)),
    ensures
        ({
            let pieces = user_pieces(m, token, ptr, len);
            &&& pieces_len(pieces, pieces.len() as int) == len
            &&& page_table::flat(m, pieces, pieces.len() as int) == user_bytes(m, token, ptr, len)
            &&& forall|k: int|
                0 <= k < pieces.len() ==> (#[trigger] pieces[k]).start < pieces[k].end
        }),
{
    let pieces = user_pieces(m, token, ptr, len);
    let a = ptr as int % (VA_SPACE as int);
    let n = pieces.len() as int;
    assert forall|k: int| 0 <= k < pieces.len() implies (#[trigger] pieces[k]).start
        < pieces[k].end by {
        page_table::lemma_piece_bounds(m, token_root(token), a, len, k);
    }
    assert forall|k: int| 0 <= k < n implies m.pages[(#[trigger] pieces[k]).ppn.0 as int].len()
        == 4096 by {
        assert(m.pages.contains_key(pieces[k].ppn.0 as int));
    }
    page_table::law_buffer_bytes(m, token_root(token), a, len, pieces);
    lemma_flat_len(m, pieces, n);
}

/// The number of bytes in pieces is the length of what they hold.
pub proof fn lemma_flat_len(m: MemData, pieces: Seq<FrameSlice>, k: int)
    requires
        m.wf(),
        pieces_ok(m, pieces),
        0 <= k <= pieces.len(),
    ensures
        page_table::flat(m, pieces, k).len() == pieces_len(pieces, k),
    decreases k,
{
    if k > 0 {
        lemma_flat_len(m, pieces, k - 1);
        assert(m.pages.contains_key(pieces[k - 1].ppn.0 as int));
    }
}

/// The string that starts at user address `ptr`, up to its zero byte.
pub fn translated_str(token: u64, ptr: u64, mem: &PhysMemory) -> (r: Vec<u8>)
    requires
        mem.wf(),
        exists|n: int| #[trigger] user_str(mem@, token, ptr, n),
    ensures
        user_str(mem@, token, ptr, r@.len() as int),
        r@ == user_string(mem@, token, ptr),
{
    let ghost n = choose|n: int| #[trigger] user_str(mem@, token, ptr, n);
    let table = PageTable::from_token(token);
    let mut r: Vec<u8> = Vec::new();
    let mut va: u64 = ptr;
    loop
        invariant
            mem.wf(),
            user_str(mem@, token, ptr, n),
            table.root() == token_root(token),
            va == ptr + r@.len(),
            r@.len() <= n,
            r@ == user_str_bytes(mem@, token, ptr, r@.len() as int),
        decreases n - r@.len(),
    {
        let ghost i = r@.len() as int;
        proof {
            mem.lemma_wf();
            let b = user_byte(mem@, token, ptr + i);
            assert((b == 0) == (i == n));
            assert(user_page(mem@, token, (ptr + i) % (VA_SPACE as int) / 4096));
        }
        let a = VirtAddr::new(va);
        let ppn: PhysPageNum = table.translate(mem, a.floor()).unwrap().ppn();
        let page: Vec<u8> = mem.read_bytes(ppn, a.page_offset() as usize, 1);
        let ch: u8 = page[0];
        assert(ch == user_byte(mem@, token, ptr + i));
        if ch == 0 {
            proof {
                lemma_one_string(mem@, token, ptr, n);
            }
            return r;
        }
        r.push(ch);
        va += 1;
        proof {
            assert(r@ =~= user_str_bytes(mem@, token, ptr, i + 1));
        }
    }
}

} // verus!
