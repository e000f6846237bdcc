//! Little-endian words inside byte sequences, and writes of one byte sequence
//! into another.
use vstd::bytes::{u64_from_le_bytes, u64_to_le_bytes};
use vstd::prelude::*;
use vstd::slice::slice_subrange;

verus! {

/// The little-endian `u32` that starts at `off`.
pub open spec fn u32_at(s: Seq<u8>, off: int) -> u32 {
    (s[off] + 0x100 * s[off + 1] + 0x1_0000 * s[off + 2] + 0x100_0000 * s[off + 3]) as u32
}

/// The little-endian `u64` that starts at `off`.
pub open spec fn u64_at(s: Seq<u8>, off: int) -> u64 {
    vstd::bytes::spec_u64_from_le_bytes(s.subrange(off, off + 8))
}

/// The four bytes of `x`, least significant first.
pub open spec fn u32_bytes(x: u32) -> Seq<u8> {
    seq![
        (x % 0x100) as u8,
        (x / 0x100 % 0x100) as u8,
        (x / 0x1_0000 % 0x100) as u8,
        (x / 0x100_0000) as u8,
    ]
}

/// The eight bytes of `x`, least significant first.
pub open spec fn u64_bytes(x: u64) -> Seq<u8> {
    vstd::bytes::spec_u64_to_le_bytes(x)
}

/// `s` with the bytes from `off` on replaced by `b`; the length stays.
pub open spec fn splice(s: Seq<u8>, off: int, b: Seq<u8>) -> Seq<u8> {
    Seq::new(s.len(), |i: int| if off <= i < off + b.len() { b[i - off] } else { s[i] })
}

/// The `n` bytes of `s` from `off` on.
pub open spec fn part(s: Seq<u8>, off: int, n: int) -> Seq<u8> {
    Seq::new(n as nat, |i: int| s[off + i])
}

/// `n` zero bytes.
pub open spec fn zeros(n: nat) -> Seq<u8> {
    Seq::new(n, |i: int| 0u8)
}

/// A word just written is read back.
pub proof fn lemma_u32_read_back(s: Seq<u8>, off: int, x: u32)
    requires
        0 <= off,
        off + 4 <= s.len(),
    ensures
        u32_bytes(x).len() == 4,
        u32_at(splice(s, off, u32_bytes(x)), off) == x,
{
}

/// A word just written is read back.
pub proof fn lemma_u64_read_back(s: Seq<u8>, off: int, x: u64)
    requires
        0 <= off,
        off + 8 <= s.len(),
    ensures
        u64_bytes(x).len() == 8,
        u64_at(splice(s, off, u64_bytes(x)), off) == x,
{
    vstd::bytes::lemma_auto_spec_u64_to_from_le_bytes();
    assert(splice(s, off, u64_bytes(x)).subrange(off, off + 8) =~= u64_bytes(x));
}

/// A write leaves the words outside it alone.
pub proof fn lemma_u32_elsewhere(s: Seq<u8>, off: int, b: Seq<u8>, at: int)
    requires
        0 <= at,
        at + 4 <= s.len(),
        at + 4 <= off || off + b.len() <= at,
    ensures
        u32_at(splice(s, off, b), at) == u32_at(s, at),
{
}

/// A write leaves the words outside it alone.
pub proof fn lemma_u64_elsewhere(s: Seq<u8>, off: int, b: Seq<u8>, at: int)
    requires
        0 <= at,
        at + 8 <= s.len(),
        at + 8 <= off || off + b.len() <= at,
    ensures
        u64_at(splice(s, off, b), at) == u64_at(s, at),
{
    assert(splice(s, off, b).subrange(at, at + 8) =~= s.subrange(at, at + 8));
}

/// Four zero bytes are the word 0.
pub proof fn lemma_zero_word(s: Seq<u8>, off: int)
    requires
        0 <= off,
        off + 4 <= s.len(),
        forall|k: int| off <= k < off + 4 ==> #[trigger] s[k] == 0,
    ensures
        u32_at(s, off) == 0,
{
}

/// Eight zero bytes are the word 0.
pub proof fn lemma_zero_long(s: Seq<u8>, off: int)
    requires
        0 <= off,
        off + 8 <= s.len(),
        forall|k: int| off <= k < off + 8 ==> #[trigger] s[k] == 0,
    ensures
        u64_at(s, off) == 0,
{
    vstd::bytes::lemma_auto_spec_u64_to_from_le_bytes();
    vstd::bytes::spec_u64_to_le_bytes_to_open(0);
    assert(0u64 & 0xff == 0 && (0u64 >> 8) & 0xff == 0 && (0u64 >> 16) & 0xff == 0 && (0u64 >> 24)
        & 0xff == 0 && (0u64 >> 32) & 0xff == 0 && (0u64 >> 40) & 0xff == 0 && (0u64 >> 48) & 0xff
        == 0 && (0u64 >> 56) & 0xff == 0) by (bit_vector);
    assert(s.subrange(off, off + 8) =~= u64_bytes(0));
}

/// The word at `off`.
pub fn read_u32(s: &[u8], off: usize) -> (x: u32)
    requires
        off + 4 <= s@.len(),
    ensures
        x == u32_at(s@, off as int),
{
    let _len: usize = s.len();
    s[off] as u32 + 0x100 * (s[off + 1] as u32) + 0x1_0000 * (s[off + 2] as u32) + 0x100_0000 * (s[
    off + 3] as u32)
}

/// The word at `off`.
pub fn read_u64(s: &[u8], off: usize) -> (x: u64)
    requires
        off + 8 <= s@.len(),
    ensures
        x == u64_at(s@, off as int),
{
    let _len: usize = s.len();
    u64_from_le_bytes(slice_subrange(s, off, off + 8))
}

/// Copies `src` over the bytes of `dst` from `off` on.
pub fn copy_to_slice(dst: &mut [u8], off: usize, src: &[u8])
    requires
        off + src@.len() <= old(dst)@.len(),
    ensures
        final(dst)@ == splice(old(dst)@, off as int, src@),
{
    let n: usize = src.len();
    let m: usize = dst.len();
    let ghost before = dst@;
    let mut i: usize = 0;
    while i < n
        invariant
            i <= n,
            n == src@.len(),
            off + n <= m,
            m == dst@.len(),
            before.len() == dst@.len(),
            dst@ =~= splice(before, off as int, src@.subrange(0, i as int)),
        decreases n - i,
    {
        dst[off + i] = src[i];
        i += 1;
    }
    assert(src@.subrange(0, n as int) =~= src@);
}

/// Copies `src` over the bytes of `dst` from `off` on.
pub fn copy_into(dst: &mut Vec<u8>, off: usize, src: &[u8])
    requires
        off + src@.len() <= old(dst)@.len(),
    ensures
        final(dst)@ == splice(old(dst)@, off as int, src@),
{
    copy_to_slice(dst.as_mut_slice(), off, src);
}

/// The bytes of a sequence of words, one after the other.
pub open spec fn words_bytes(words: Seq<u32>) -> Seq<u8> {
    Seq::new(4 * words.len(), |k: int| u32_bytes(words[k / 4])[k % 4])
}

/// Word `i` is read back from the bytes of the words.
pub proof fn lemma_words_bytes(words: Seq<u32>, tail: Seq<u8>, i: int)
    requires
        0 <= i < words.len(),
    ensures
        u32_at(words_bytes(words) + tail, 4 * i) == words[i],
{
    let s = words_bytes(words) + tail;
    assert(4 * i % 4 == 0 && 4 * i / 4 == i);
    assert((4 * i + 1) % 4 == 1 && (4 * i + 1) / 4 == i);
    assert((4 * i + 2) % 4 == 2 && (4 * i + 2) / 4 == i);
    assert((4 * i + 3) % 4 == 3 && (4 * i + 3) / 4 == i);
}

/// Stores the words one after the other, from `off` on.
pub fn write_words(dst: &mut Vec<u8>, off: usize, words: &Vec<u32>)
    requires
        off + 4 * words@.len() <= old(dst)@.len(),
    ensures
        final(dst)@ == splice(old(dst)@, off as int, words_bytes(words@)),
{
    let n: usize = words.len();
    let m: usize = dst.len();
    let ghost before = dst@;
    let mut i: usize = 0;
    while i < n
        invariant
            i <= n,
            n == words@.len(),
            off + 4 * n <= m,
            m == dst@.len(),
            before.len() == m,
            dst@ =~= splice(before, off as int, words_bytes(words@.subrange(0, i as int))),
        decreases n - i,
    {
        let ghost mid = dst@;
        write_u32(dst, off + 4 * i, words[i]);
        proof {
            let w0 = words@.subrange(0, i as int);
            let w1 = words@.subrange(0, i + 1);
            assert forall|k: int| 0 <= k < m implies dst@[k] == splice(
                before,
                off as int,
                words_bytes(w1),
            )[k] by {
                let r = k - off;
                if 0 <= r < 4 * i {
                    assert(w0[r / 4] == w1[r / 4]);
                } else if 4 * i <= r < 4 * i + 4 {
                    assert(r / 4 == i);
                    assert(r % 4 == r - 4 * i);
                }
            }
        }
        i += 1;
    }
    assert(words@.subrange(0, n as int) =~= words@);
}

/// The bytes of a word.
pub fn u32_to_bytes(x: u32) -> (b: Vec<u8>)
    ensures
        b@ == u32_bytes(x),
{
    let b: Vec<u8> = vec![
        (x % 0x100) as u8,
        (x / 0x100 % 0x100) as u8,
        (x / 0x1_0000 % 0x100) as u8,
        (x / 0x100_0000) as u8,
    ];
    assert(b@ =~= u32_bytes(x));
    b
}

/// Stores a word at `off`.
pub fn write_u32(dst: &mut Vec<u8>, off: usize, x: u32)
    requires
        off + 4 <= old(dst)@.len(),
    ensures
        final(dst)@ == splice(old(dst)@, off as int, u32_bytes(x)),
{
    let b: Vec<u8> = u32_to_bytes(x);
    copy_into(dst, off, b.as_slice());
}

/// Whether two byte sequences are the same.
pub fn same_bytes(a: &[u8], b: &[u8]) -> (r: bool)
    ensures
        r == (a@ == b@),
{
    if a.len() != b.len() {
        return false;
    }
    let mut i: usize = 0;
    while i < a.len()
        invariant
            i <= a@.len(),
            a@.len() == b@.len(),
            forall|k: int| 0 <= k < i ==> a@[k] == b@[k],
        decreases a@.len() - i,
    {
        if a[i] != b[i] {
            return false;
        }
        i += 1;
    }
    assert(a@ =~= b@);
    true
}

} // verus!
