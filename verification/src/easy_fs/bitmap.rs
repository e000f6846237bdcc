//! A bitmap that lies in consecutive blocks of the device.
use super::block_cache::BlockCacheManager;
use super::block_dev::BlockDevice;
use super::bytes;
use super::bytes::read_u64;
use vstd::bytes::u64_to_le_bytes;
use vstd::prelude::*;

verus! {

/// Number of bits in a block.
pub const BLOCK_BITS: usize = 4096;

/// A bitmap: where it starts, and how many blocks it takes. A block of it is
/// 64 words of 64 bits.
pub struct Bitmap {
    start_block_id: usize,
    blocks: usize,
}

/// Bit `i` of a word.
pub open spec fn word_bit(word: u64, i: int) -> bool {
    (word >> (i as u64)) & 1u64 == 1u64
}

/// Bit `i` of a bitmap block.
pub open spec fn block_bit(block: Seq<u8>, i: int) -> bool {
    word_bit(bytes::u64_at(block, 8 * (i / 64)), i % 64)
}

/// Bit `k` of the bitmap that starts at block `start`.
pub open spec fn bit(disk: Seq<Seq<u8>>, start: int, k: int) -> bool {
    block_bit(disk[start + k / (BLOCK_BITS as int)], k % (BLOCK_BITS as int))
}

/// The block with bit `i` set or cleared.
pub open spec fn block_with(block: Seq<u8>, i: int, on: bool) -> Seq<u8> {
    let word = bytes::u64_at(block, 8 * (i / 64));
    let mask = 1u64 << ((i % 64) as u64);
    bytes::splice(
        block,
        8 * (i / 64),
        bytes::u64_bytes(
            if on {
                word | mask
            } else {
                word & !mask
            },
        ),
    )
}

/// The disk with bit `k` of the bitmap at `start` set or cleared.
pub open spec fn with_bit(disk: Seq<Seq<u8>>, start: int, k: int, on: bool) -> Seq<Seq<u8>> {
    let b = start + k / (BLOCK_BITS as int);
    disk.update(b, block_with(disk[b], k % (BLOCK_BITS as int), on))
}

proof fn lemma_word_set(w: u64, i: u64, j: u64)
    requires
        i < 64,
        j < 64,
    ensures
        ((w | (1u64 << i)) >> j) & 1u64 == (if i == j {
            1u64
        } else {
            (w >> j) & 1u64
        }),
{
    assert(i < 64 && j < 64 ==> ((w | (1u64 << i)) >> j) & 1u64 == (if i == j {
        1u64
    } else {
        (w >> j) & 1u64
    })) by (bit_vector);
}

proof fn lemma_word_clear(w: u64, i: u64, j: u64)
    requires
        i < 64,
        j < 64,
    ensures
        ((w & !(1u64 << i)) >> j) & 1u64 == (if i == j {
            0u64
        } else {
            (w >> j) & 1u64
        }),
{
    assert(i < 64 && j < 64 ==> ((w & !(1u64 << i)) >> j) & 1u64 == (if i == j {
        0u64
    } else {
        (w >> j) & 1u64
    })) by (bit_vector);
}

proof fn lemma_word_subtract(w: u64, i: u64)
    requires
        i < 64,
        (w >> i) & 1u64 == 1u64,
    ensures
        (1u64 << i) <= w,
        w - (1u64 << i) == w & !(1u64 << i),
{
    assert(i < 64 && (w >> i) & 1u64 == 1u64 ==> (1u64 << i) <= w && w - (1u64 << i) == w & !(1u64
        << i)) by (bit_vector);
}

/// Changing one bit of a block leaves the others alone.
pub proof fn lemma_block_with(block: Seq<u8>, i: int, on: bool, j: int)
    requires
        block.len() == super::BLOCK_SZ,
        0 <= i < BLOCK_BITS,
        0 <= j < BLOCK_BITS,
    ensures
        block_with(block, i, on).len() == block.len(),
        block_bit(block_with(block, i, on), j) == if i == j {
            on
        } else {
            block_bit(block, j)
        },
{
    let word = bytes::u64_at(block, 8 * (i / 64));
    let mask = 1u64 << ((i % 64) as u64);
    let w2 = if on { word | mask } else { word & !mask };
    bytes::lemma_u64_read_back(block, 8 * (i / 64), w2);
    if i / 64 == j / 64 {
        lemma_word_set(word, (i % 64) as u64, (j % 64) as u64);
        lemma_word_clear(word, (i % 64) as u64, (j % 64) as u64);
        assert(i % 64 == j % 64 <==> i == j);
    } else {
        bytes::lemma_u64_elsewhere(block, 8 * (i / 64), bytes::u64_bytes(w2), 8 * (j / 64));
    }
}

/// Changing one bit leaves the others, and every other block, alone.
pub proof fn lemma_with_bit(disk: Seq<Seq<u8>>, start: int, k: int, on: bool)
    requires
        super::block_cache::disk_wf(disk),
        0 <= start,
        0 <= k,
        start + k / (BLOCK_BITS as int) < disk.len(),
    ensures
        super::block_cache::disk_wf(with_bit(disk, start, k, on)),
        with_bit(disk, start, k, on).len() == disk.len(),
        bit(with_bit(disk, start, k, on), start, k) == on,
        forall|j: int|
            0 <= j && j != k && start + j / (BLOCK_BITS as int) < disk.len()
                ==> #[trigger] bit(with_bit(disk, start, k, on), start, j) == bit(disk, start, j),
        forall|b: int|
            0 <= b < disk.len() && b != start + k / (BLOCK_BITS as int)
                ==> #[trigger] with_bit(disk, start, k, on)[b] == disk[b],
{
    let n = BLOCK_BITS as int;
    let b = start + k / n;
    assert(disk[b].len() == super::BLOCK_SZ);
    lemma_block_with(disk[b], k % n, on, k % n);
    assert forall|j: int| 0 <= j && j != k && start + j / n < disk.len() implies #[trigger] bit(
        with_bit(disk, start, k, on),
        start,
        j,
    ) == bit(disk, start, j) by {
        if j / n == k / n {
            assert(j % n != k % n);
            lemma_block_with(disk[b], k % n, on, j % n);
        }
    }
}

/// A bitmap all of whose bytes are zero has no bit set.
pub proof fn lemma_zero_block(block: Seq<u8>, i: int)
    requires
        block.len() == super::BLOCK_SZ,
        forall|k: int| 0 <= k < block.len() ==> block[k] == 0,
        0 <= i < BLOCK_BITS,
    ensures
        !block_bit(block, i),
{
    bytes::lemma_zero_long(block, 8 * (i / 64));
    let j = (i % 64) as u64;
    assert((0u64 >> j) & 1u64 == 0u64) by (bit_vector);
}

/// Setting a clear bit and clearing it again restores the block.
pub proof fn lemma_set_clear(block: Seq<u8>, i: int)
    requires
        block.len() == super::BLOCK_SZ,
        0 <= i < BLOCK_BITS,
        !block_bit(block, i),
    ensures
        block_with(block_with(block, i, true), i, false) == block,
{
    vstd::bytes::lemma_auto_spec_u64_to_from_le_bytes();
    let off = 8 * (i / 64);
    let w = bytes::u64_at(block, off);
    let j = (i % 64) as u64;
    let mask = 1u64 << j;
    bytes::lemma_u64_read_back(block, off, w | mask);
    assert((w | mask) & !mask == w) by (bit_vector)
        requires
            (w >> j) & 1u64 != 1u64,
            mask == 1u64 << j,
            j < 64,
    ;
    assert(bytes::u64_bytes(w) == block.subrange(off, off + 8));
    assert(block_with(block_with(block, i, true), i, false) =~= block);
}

/// Decompose a bit's number into the block, the word in the block and the bit
/// in the word.
pub fn decomposition(bit: usize) -> (r: (usize, usize, usize))
    ensures
        r.0 == bit / BLOCK_BITS,
        r.1 == (bit % BLOCK_BITS) / 64,
        r.2 == bit % 64,
        r.1 < 64,
        r.2 < 64,
        bit == r.0 * BLOCK_BITS + r.1 * 64 + r.2,
{
    let block_pos: usize = bit / BLOCK_BITS;
    let rest: usize = bit % BLOCK_BITS;
    (block_pos, rest / 64, rest % 64)
}

impl Bitmap {
    /// Number of the first block.
    pub closed spec fn start(&self) -> int {
        self.start_block_id as int
    }

    /// Number of blocks.
    pub closed spec fn len(&self) -> int {
        self.blocks as int
    }

    /// Number of bits.
    pub open spec fn bits(&self) -> int {
        self.len() * (BLOCK_BITS as int)
    }

    /// The blocks lie on the disk, and the bits can be counted.
    pub open spec fn wf(&self, disk: Seq<Seq<u8>>) -> bool {
        &&& 0 <= self.start()
        &&& 0 <= self.len()
        &&& self.start() + self.len() <= disk.len()
        &&& disk.len() <= usize::MAX
        &&& self.bits() <= usize::MAX
    }

    /// Whether bit `k` is set.
    pub open spec fn bit(&self, disk: Seq<Seq<u8>>, k: int) -> bool {
        bit(disk, self.start(), k)
    }

    /// A bitmap from its first block and its number of blocks.
    pub fn new(start_block_id: usize, blocks: usize) -> (r: Self)
        ensures
            r.start() == start_block_id,
            r.len() == blocks,
    {
        Bitmap { start_block_id, blocks }
    }

    /// The first clear bit of a bitmap block.
    fn first_clear(block: &Vec<u8>) -> (r: Option<usize>)
        requires
            block@.len() == super::BLOCK_SZ,
        ensures
            match r {
                Some(i) => {
                    &&& i < BLOCK_BITS
                    &&& !block_bit(block@, i as int)
                    &&& forall|j: int| 0 <= j < i ==> #[trigger] block_bit(block@, j)
                },
                None => forall|j: int| 0 <= j < BLOCK_BITS ==> #[trigger] block_bit(block@, j),
            },
    {
        let mut w: usize = 0;
        while w < 64
            invariant
                w <= 64,
                block@.len() == super::BLOCK_SZ,
                forall|j: int| 0 <= j < 64 * w ==> #[trigger] block_bit(block@, j),
            decreases 64 - w,
        {
            let bits64: u64 = read_u64(block.as_slice(), 8 * w);
            let inner: u32 = bits64.trailing_ones();
            proof {
                vstd::std_specs::bits::axiom_u64_trailing_ones(bits64);
            }
            if bits64 != u64::MAX {
                let i: usize = w * 64 + inner as usize;
                proof {
                    assert(i as int / 64 == w as int);
                    assert(i as int % 64 == inner as int);
                    assert forall|j: int| 0 <= j < i implies #[trigger] block_bit(block@, j) by {
                        if j >= 64 * w {
                            assert(j / 64 == w as int);
                            assert((bits64 >> ((j % 64) as u64)) & 1u64 == 1u64);
                        }
                    }
                }
                return Some(i);
            }
            proof {
                assert forall|j: int| 0 <= j < 64 * (w + 1) implies #[trigger] block_bit(
                    block@,
                    j,
                ) by {
                    if j >= 64 * w {
                        assert(j / 64 == w as int);
                        assert((bits64 >> ((j % 64) as u64)) & 1u64 == 1u64);
                    }
                }
            }
            w += 1;
        }
        None
    }

    /// Whether a bit is set.
    pub fn is_set<D: BlockDevice>(&self, cache: &mut BlockCacheManager<D>, bit: usize) -> (r: bool)
        requires
            old(cache).inv(),
            self.wf(old(cache)@),
            bit < self.bits(),
        ensures
            final(cache).inv(),
            final(cache)@ == old(cache)@,
            final(cache).held() == old(cache).held(),
            old(cache).on_device() == old(cache)@ ==> final(cache).on_device() == old(cache)@,
            r == self.bit(old(cache)@, bit as int),
    {
        let (block_pos, bits64_pos, inner_pos): (usize, usize, usize) = decomposition(bit);
        assert(block_pos < self.len()) by (nonlinear_arith)
            requires
                bit == block_pos * BLOCK_BITS + bits64_pos * 64 + inner_pos,
                bit < self.len() * (BLOCK_BITS as int),
                BLOCK_BITS == 4096,
                0 <= bits64_pos,
                0 <= inner_pos,
        ;
        let ghost disk = cache@;
        proof {
            cache.lemma_wf();
            assert(disk[self.start() + block_pos].len() == super::BLOCK_SZ);
        }
        let pos: usize = self.start_block_id + block_pos;
        let block: Vec<u8> = cache.read_bytes(pos, 0, super::BLOCK_SZ);
        assert(block@ =~= disk[pos as int]);
        let word: u64 = read_u64(block.as_slice(), 8 * bits64_pos);
        (word >> (inner_pos as u64)) & 1u64 == 1u64
    }

    /// Sets the first clear bit and gives its number; `None` if every bit is
    /// set.
    pub fn alloc_bit<D: BlockDevice>(&self, cache: &mut BlockCacheManager<D>) -> (r: Option<usize>)
        requires
            old(cache).inv(),
            self.wf(old(cache)@),
        ensures
            final(cache).inv(),
            final(cache).held() == old(cache).held(),
            match r {
                Some(k) => {
                    &&& k < self.bits()
                    &&& !self.bit(old(cache)@, k as int)
                    &&& forall|j: int| 0 <= j < k ==> #[trigger] self.bit(old(cache)@, j)
                    &&& final(cache)@ == with_bit(old(cache)@, self.start(), k as int, true)
                },
                None => {
                    &&& forall|j: int| 0 <= j < self.bits() ==> #[trigger] self.bit(old(cache)@, j)
                    &&& final(cache)@ == old(cache)@
                },
            },
    {
        let ghost disk = cache@;
        let mut block_id: usize = 0;
        while block_id < self.blocks
            invariant
                block_id <= self.blocks,
                cache.inv(),
                cache@ == disk,
                self.wf(disk),
                cache.held() == old(cache).held(),
                disk == old(cache)@,
                forall|j: int|
                    0 <= j < block_id * (BLOCK_BITS as int) ==> #[trigger] self.bit(disk, j),
            decreases self.blocks - block_id,
        {
            proof {
                cache.lemma_wf();
                assert(disk[self.start() + block_id].len() == super::BLOCK_SZ);
            }
            let pos: usize = self.start_block_id + block_id;
            let block: Vec<u8> = cache.read_bytes(pos, 0, super::BLOCK_SZ);
            assert(block@ =~= disk[pos as int]);
            match Self::first_clear(&block) {
                Some(i) => {
                    let word_pos: usize = 8 * (i / 64);
                    let word: u64 = read_u64(block.as_slice(), word_pos);
                    let inner: u64 = (i % 64) as u64;
                    let changed: Vec<u8> = u64_to_le_bytes(word | (1u64 << inner));
                    cache.write_bytes(pos, word_pos, changed.as_slice());
                    assert(block_id * BLOCK_BITS + i < self.bits()) by (nonlinear_arith)
                        requires
                            block_id < self.len(),
                            i < BLOCK_BITS,
                            self.bits() == self.len() * (BLOCK_BITS as int),
                            BLOCK_BITS == 4096,
                    ;
                    let k: usize = block_id * BLOCK_BITS + i;
                    proof {
                        assert(k as int / (BLOCK_BITS as int) == block_id as int);
                        assert(k as int % (BLOCK_BITS as int) == i as int);
                        assert forall|j: int| 0 <= j < k implies #[trigger] self.bit(disk, j) by {
                            if j >= block_id * (BLOCK_BITS as int) {
                                assert(j / (BLOCK_BITS as int) == block_id as int);
                                assert(block_bit(block@, j % (BLOCK_BITS as int)));
                            }
                        }
                    }
                    return Some(k);
                },
                None => {
                    proof {
                        assert forall|j: int|
                            0 <= j < (block_id + 1) * (BLOCK_BITS as int) implies #[trigger] self.bit(
                            disk,
                            j,
                        ) by {
                            if j >= block_id * (BLOCK_BITS as int) {
                                assert(j / (BLOCK_BITS as int) == block_id as int);
                                assert(block_bit(block@, j % (BLOCK_BITS as int)));
                            }
                        }
                    }
                },
            }
            block_id += 1;
        }
        None
    }

    /// Clears bit `bit`, which must be set.
    pub fn dealloc<D: BlockDevice>(&self, cache: &mut BlockCacheManager<D>, bit: usize)
        requires
            old(cache).inv(),
            self.wf(old(cache)@),
            bit < self.bits(),
            self.bit(old(cache)@, bit as int),
        ensures
            final(cache).inv(),
            final(cache).held() == old(cache).held(),
            final(cache)@ == with_bit(old(cache)@, self.start(), bit as int, false),
    {
        let (block_pos, bits64_pos, inner_pos): (usize, usize, usize) = decomposition(bit);
        assert(block_pos < self.len()) by (nonlinear_arith)
            requires
                bit == block_pos * BLOCK_BITS + bits64_pos * 64 + inner_pos,
                bit < self.len() * (BLOCK_BITS as int),
                BLOCK_BITS == 4096,
                0 <= bits64_pos,
                0 <= inner_pos,
        ;
        let ghost disk = cache@;
        proof {
            cache.lemma_wf();
            assert(disk[self.start() + block_pos].len() == super::BLOCK_SZ);
        }
        let pos: usize = self.start_block_id + block_pos;
        let word_pos: usize = 8 * bits64_pos;
        let block: Vec<u8> = cache.read_bytes(pos, 0, super::BLOCK_SZ);
        assert(block@ =~= disk[pos as int]);
        let word: u64 = read_u64(block.as_slice(), word_pos);
        proof {
            lemma_word_subtract(word, inner_pos as u64);
        }
        let changed: Vec<u8> = u64_to_le_bytes(word - (1u64 << (inner_pos as u64)));
        cache.write_bytes(pos, word_pos, changed.as_slice());
    }

    /// The number of bits.
    pub fn maximum(&self) -> (r: usize)
        requires
            self.bits() <= usize::MAX,
        ensures
            r == self.bits(),
    {
        self.blocks * BLOCK_BITS
    }
}

} // verus!
