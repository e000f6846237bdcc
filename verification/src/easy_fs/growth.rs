//! Which data blocks an inode gets when it grows: the free ones with the lowest
//! numbers, in their order.
use super::super_block::SuperBlock;
use super::vfs;
use vstd::prelude::*;

verus! {

/// The blocks `v` came into use, and nothing else did. They are the free data
/// blocks with the lowest numbers, in their order.
#[verifier::opaque]
pub open spec fn taken_in_order(
    sb: SuperBlock,
    d0: Seq<Seq<u8>>,
    d1: Seq<Seq<u8>>,
    v: Seq<u32>,
) -> bool {
    &&& forall|p: int, q: int| 0 <= p < q < v.len() ==> #[trigger] v[p] < #[trigger] v[q]
    &&& forall|p: int|
        0 <= p < v.len() ==> {
            &&& sb.data_area() <= #[trigger] v[p] < sb.data_area() + sb.data_area_blocks
            &&& !sb.data_used(d0, v[p] as int)
        }
    &&& forall|p: int, b: int|
        0 <= p < v.len() && sb.data_area() <= b < #[trigger] v[p] && !#[trigger] sb.data_used(d0, b)
            ==> vfs::listed(v, b)
    &&& forall|b: int| #[trigger]
        sb.data_used(d1, b) == (sb.data_used(d0, b) || vfs::listed(v, b))
}

/// The inodes in use have the same blocks on both disks, but for inode `i`.
pub open spec fn others_same(sb: SuperBlock, d0: Seq<Seq<u8>>, d1: Seq<Seq<u8>>, i: int) -> bool {
    forall|j: int|
        sb.used(d0, j) && j != i ==> #[trigger] sb.blocks_of(d1, j) == sb.blocks_of(d0, j)
}

/// The blocks that inode `i` has on the second disk behind those that it has on the
/// first.
pub open spec fn new_blocks(
    sb: SuperBlock,
    d0: Seq<Seq<u8>>,
    d1: Seq<Seq<u8>>,
    i: int,
) -> Seq<u32> {
    sb.blocks_of(d1, i).skip(sb.blocks_of(d0, i).len() as int)
}

/// Inode `i` kept its blocks and got more behind them: the free ones with the lowest
/// numbers, in their order. All others have the same blocks as before.
pub open spec fn has_grown(sb: SuperBlock, d0: Seq<Seq<u8>>, d1: Seq<Seq<u8>>, i: int) -> bool {
    &&& sb.blocks_of(d0, i).is_prefix_of(sb.blocks_of(d1, i))
    &&& taken_in_order(sb, d0, d1, new_blocks(sb, d0, d1, i))
    &&& others_same(sb, d0, d1, i)
}

/// No block was taken.
pub proof fn lemma_none_taken(sb: SuperBlock, d0: Seq<Seq<u8>>, d1: Seq<Seq<u8>>)
    requires
        forall|b: int| #[trigger] sb.data_used(d1, b) == sb.data_used(d0, b),
    ensures
        taken_in_order(sb, d0, d1, Seq::<u32>::empty()),
{
    reveal(taken_in_order);
}

/// One more block was taken, the first free one.
pub proof fn lemma_taken_next(
    sb: SuperBlock,
    d0: Seq<Seq<u8>>,
    d1: Seq<Seq<u8>>,
    d2: Seq<Seq<u8>>,
    v: Seq<u32>,
    b: u32,
)
    requires
        taken_in_order(sb, d0, d1, v),
        sb.data_area() <= b < sb.data_area() + sb.data_area_blocks,
        !sb.data_used(d1, b as int),
        forall|x: int| sb.data_area() <= x < b ==> #[trigger] sb.data_used(d1, x),
        forall|x: int| #[trigger] sb.data_used(d2, x) == (sb.data_used(d1, x) || x == b),
    ensures
        taken_in_order(sb, d0, d2, v.push(b)),
{
    reveal(taken_in_order);
    let w = v.push(b);
    let none = Seq::<u32>::empty();
    assert(taken_in_order(sb, d1, d2, none.push(b))) by {
        let one = none.push(b);
        assert(one[0] == b);
        assert forall|x: int| #[trigger] sb.data_used(d2, x) == (sb.data_used(d1, x)
            || vfs::listed(one, x)) by {
            if x == b {
                assert(one[0] == x);
            }
        }
    }
    lemma_taken_trans(sb, d0, d1, d2, v, none.push(b));
    assert(v + none.push(b) =~= w);
}

/// What two lists hold together.
proof fn lemma_listed_both(v: Seq<u32>, w: Seq<u32>, b: int)
    ensures
        vfs::listed(v + w, b) == (vfs::listed(v, b) || vfs::listed(w, b)),
{
    let t = v + w;
    if vfs::listed(v, b) {
        let n = choose|n: int| 0 <= n < v.len() && #[trigger] v[n] == b;
        assert(t[n] == b);
    }
    if vfs::listed(w, b) {
        let n = choose|n: int| 0 <= n < w.len() && #[trigger] w[n] == b;
        assert(t[v.len() + n] == b);
    }
    if vfs::listed(t, b) {
        let n = choose|n: int| 0 <= n < t.len() && #[trigger] t[n] == b;
        if n < v.len() {
            assert(v[n] == b);
        } else {
            assert(w[n - v.len()] == b);
        }
    }
}

/// Blocks that were taken after others come behind them.
pub proof fn lemma_taken_trans(
    sb: SuperBlock,
    d0: Seq<Seq<u8>>,
    d1: Seq<Seq<u8>>,
    d2: Seq<Seq<u8>>,
    v: Seq<u32>,
    w: Seq<u32>,
)
    requires
        taken_in_order(sb, d0, d1, v),
        taken_in_order(sb, d1, d2, w),
    ensures
        taken_in_order(sb, d0, d2, v + w),
{
    reveal(taken_in_order);
    let t = v + w;
    assert forall|q: int| 0 <= q < w.len() implies !sb.data_used(d0, #[trigger] w[q] as int) by {
        assert(sb.data_used(d1, w[q] as int) == (sb.data_used(d0, w[q] as int) || vfs::listed(
            v,
            w[q] as int,
        )));
    }
    assert forall|p: int, q: int| 0 <= p < v.len() && 0 <= q < w.len() implies #[trigger] v[p]
        < #[trigger] w[q] by {
        let b = w[q] as int;
        assert(!sb.data_used(d1, b));
        assert(!sb.data_used(d0, b));
        assert(!vfs::listed(v, b));
        assert(v[p] != b);
    }
    assert forall|b: int| #[trigger] sb.data_used(d2, b) == (sb.data_used(d0, b) || vfs::listed(
        t,
        b,
    )) by {
        lemma_listed_both(v, w, b);
        assert(sb.data_used(d1, b) == (sb.data_used(d0, b) || vfs::listed(v, b)));
    }
    assert forall|p: int, b: int|
        0 <= p < t.len() && sb.data_area() <= b < #[trigger] t[p] && !#[trigger] sb.data_used(d0, b)
        implies vfs::listed(t, b) by {
        lemma_listed_both(v, w, b);
        if p < v.len() {
            assert(t[p] == v[p]);
        } else {
            assert(t[p] == w[p - v.len()]);
            assert(sb.data_used(d1, b) == (sb.data_used(d0, b) || vfs::listed(v, b)));
        }
    }
}

/// Growing twice is growing once.
pub proof fn lemma_grown_trans(
    sb: SuperBlock,
    d0: Seq<Seq<u8>>,
    d1: Seq<Seq<u8>>,
    d2: Seq<Seq<u8>>,
    i: int,
)
    requires
        has_grown(sb, d0, d1, i),
        has_grown(sb, d1, d2, i),
        forall|j: int| #[trigger] sb.used(d0, j) ==> sb.used(d1, j),
    ensures
        has_grown(sb, d0, d2, i),
{
    let b0 = sb.blocks_of(d0, i);
    let b1 = sb.blocks_of(d1, i);
    let b2 = sb.blocks_of(d2, i);
    lemma_taken_trans(sb, d0, d1, d2, new_blocks(sb, d0, d1, i), new_blocks(sb, d1, d2, i));
    assert(new_blocks(sb, d0, d2, i) =~= new_blocks(sb, d0, d1, i) + new_blocks(sb, d1, d2, i));
    assert(b0.is_prefix_of(b2)) by {
        assert(b0 =~= b2.subrange(0, b0.len() as int));
    }
    assert forall|j: int| sb.used(d0, j) && j != i implies #[trigger] sb.blocks_of(d2, j)
        == sb.blocks_of(d0, j) by {
        assert(sb.used(d1, j));
        assert(sb.blocks_of(d1, j) == sb.blocks_of(d0, j));
    }
}

/// Two steps in which an inode grows make one, where no file is lost.
pub proof fn lemma_grown_files(
    sb: SuperBlock,
    d0: Seq<Seq<u8>>,
    d1: Seq<Seq<u8>>,
    d2: Seq<Seq<u8>>,
    i: int,
)
    requires
        has_grown(sb, d0, d1, i),
        has_grown(sb, d1, d2, i),
        forall|j: int| #[trigger]
            sb.files(d0).contains_key(j) ==> sb.files(d1).contains_key(j),
    ensures
        has_grown(sb, d0, d2, i),
{
    assert forall|j: int| #[trigger] sb.used(d0, j) implies sb.used(d1, j) by {
        assert(sb.files(d0).contains_key(j));
        assert(sb.files(d1).contains_key(j));
    }
    lemma_grown_trans(sb, d0, d1, d2, i);
}

/// Where all blocks are as before, no inode has grown.
pub proof fn lemma_not_grown(sb: SuperBlock, d0: Seq<Seq<u8>>, d1: Seq<Seq<u8>>, i: int)
    requires
        forall|b: int| #[trigger] sb.data_used(d1, b) == sb.data_used(d0, b),
        others_same(sb, d0, d1, i),
        sb.blocks_of(d1, i) == sb.blocks_of(d0, i),
    ensures
        has_grown(sb, d0, d1, i),
{
    lemma_none_taken(sb, d0, d1);
    assert(new_blocks(sb, d0, d1, i) =~= Seq::<u32>::empty());
    assert(sb.blocks_of(d0, i) =~= sb.blocks_of(d1, i).subrange(
        0,
        sb.blocks_of(d0, i).len() as int,
    ));
}

} // verus!
