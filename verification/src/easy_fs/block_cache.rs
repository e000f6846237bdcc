//! Blocks cached in memory, so that reads and writes of one block meet in one
//! buffer and reach the device together.
use super::block_dev::BlockDevice;
use super::bytes;
use super::bytes::copy_into;
use super::BLOCK_SZ;
use vstd::prelude::*;
use vstd::slice::{slice_subrange, slice_to_vec};

verus! {

/// Number of blocks the cache holds at most.
pub const BLOCK_CACHE_SIZE: usize = 16;

/// A value that lies on disk in a fixed number of bytes.
pub trait DiskRecord: Sized + View {
    /// Bytes that the value occupies, padding included.
    spec fn size() -> nat;

    /// The value that the bytes stand for.
    spec fn parse(bytes: Seq<u8>) -> Self::V;

    /// The bytes after `value` has been stored over `bytes`.
    spec fn stored(value: Self::V, bytes: Seq<u8>) -> Seq<u8>;

    /// `size()`, computed.
    fn byte_size() -> (n: usize)
        ensures
            n == Self::size(),
    ;

    /// Reads the value out of its bytes.
    fn load(bytes: &[u8]) -> (r: Self)
        requires
            bytes@.len() == Self::size(),
        ensures
            r@ == Self::parse(bytes@),
    ;

    /// Stores the value over the bytes of `dst` that start at `offset`.
    fn save(&self, dst: &mut Vec<u8>, offset: usize)
        requires
            offset + Self::size() <= old(dst)@.len(),
        ensures
            final(dst)@ == bytes::splice(
                old(dst)@,
                offset as int,
                Self::stored(self@, old(dst)@.subrange(offset as int, offset + Self::size())),
            ),
    ;
}

/// A block held in memory.
pub struct BlockCache {
    cache: Vec<u8>,
    block_id: usize,
    modified: bool,
}

impl BlockCache {
    /// The bytes of the block.
    pub closed spec fn data(&self) -> Seq<u8> {
        self.cache@
    }

    /// The block's number.
    pub closed spec fn id(&self) -> int {
        self.block_id as int
    }

    /// Whether the buffer was written since it last met the device.
    pub closed spec fn dirty(&self) -> bool {
        self.modified
    }

    /// The buffer has the size of a block.
    pub open spec fn wf(&self) -> bool {
        self.data().len() == BLOCK_SZ
    }

    /// Load a new `BlockCache` from the device.
    pub fn new<D: BlockDevice>(block_id: usize, block_device: &D) -> (r: Self)
        requires
            block_id < block_device.blocks().len(),
            block_device.blocks()[block_id as int].len() == BLOCK_SZ,
        ensures
            r.wf(),
            r.data() == block_device.blocks()[block_id as int],
            r.id() == block_id,
            !r.dirty(),
    {
        let mut cache: Vec<u8> = vec![0u8; BLOCK_SZ];
        block_device.read_block(block_id, cache.as_mut_slice());
        BlockCache { cache, block_id, modified: false }
    }

    /// The bytes of the block.
    pub fn bytes(&self) -> (r: &[u8])
        ensures
            r@ == self.data(),
    {
        self.cache.as_slice()
    }

    /// The value at `offset`.
    pub fn get_ref<T: DiskRecord>(&self, offset: usize) -> (r: T)
        requires
            self.wf(),
            offset + T::size() <= BLOCK_SZ,
        ensures
            r@ == T::parse(self.data().subrange(offset as int, offset + T::size())),
    {
        let n: usize = T::byte_size();
        T::load(slice_subrange(self.cache.as_slice(), offset, offset + n))
    }

    /// Puts `value` at `offset` and marks the block as modified.
    pub fn set<T: DiskRecord>(&mut self, offset: usize, value: &T)
        requires
            old(self).wf(),
            offset + T::size() <= BLOCK_SZ,
        ensures
            final(self).wf(),
            final(self).data() == bytes::splice(
                old(self).data(),
                offset as int,
                T::stored(
                    value@,
                    old(self).data().subrange(offset as int, offset + T::size()),
                ),
            ),
            final(self).id() == old(self).id(),
            final(self).dirty(),
    {
        self.modified = true;
        value.save(&mut self.cache, offset);
    }

    /// Calls `f` on the value at `offset`.
    pub fn read<T: DiskRecord, V, F: FnOnce(&T) -> V>(&self, offset: usize, f: F) -> (r: V)
        requires
            self.wf(),
            offset + T::size() <= BLOCK_SZ,
            forall|t: T|
                t@ == T::parse(self.data().subrange(offset as int, offset + T::size()))
                    ==> #[trigger] f.requires((&t,)),
        ensures
            exists|t: T|
                t@ == T::parse(self.data().subrange(offset as int, offset + T::size()))
                    && #[trigger] f.ensures((&t,), r),
    {
        let t: T = self.get_ref(offset);
        f(&t)
    }

    /// Replaces the value at `offset` by what `f` makes of it, and marks the
    /// block as modified.
    pub fn modify<T: DiskRecord, V, F: FnOnce(T) -> (T, V)>(&mut self, offset: usize, f: F) -> (r:
        V)
        requires
            old(self).wf(),
            offset + T::size() <= BLOCK_SZ,
            forall|t: T|
                t@ == T::parse(old(self).data().subrange(offset as int, offset + T::size()))
                    ==> #[trigger] f.requires((t,)),
        ensures
            final(self).wf(),
            final(self).id() == old(self).id(),
            final(self).dirty(),
            exists|t: T, u: T|
                {
                    &&& t@ == T::parse(
                        old(self).data().subrange(offset as int, offset + T::size()),
                    )
                    &&& #[trigger] f.ensures((t,), (u, r))
                    &&& final(self).data() == bytes::splice(
                        old(self).data(),
                        offset as int,
                        T::stored(
                            u@,
                            old(self).data().subrange(offset as int, offset + T::size()),
                        ),
                    )
                },
    {
        let t: T = self.get_ref(offset);
        let (u, v) = f(t);
        self.set(offset, &u);
        v
    }

    /// Copies `src` over the bytes from `offset` on and marks the block as
    /// modified.
    pub fn write_bytes(&mut self, offset: usize, src: &[u8])
        requires
            old(self).wf(),
            offset + src@.len() <= BLOCK_SZ,
        ensures
            final(self).wf(),
            final(self).data() == bytes::splice(old(self).data(), offset as int, src@),
            final(self).id() == old(self).id(),
            final(self).dirty(),
    {
        self.modified = true;
        copy_into(&mut self.cache, offset, src);
    }

    /// Writes the buffer to the device if it was modified.
    pub fn sync<D: BlockDevice>(&mut self, block_device: &mut D)
        requires
            old(self).wf(),
            old(self).id() < old(block_device).blocks().len(),
        ensures
            final(self).wf(),
            final(self).data() == old(self).data(),
            final(self).id() == old(self).id(),
            !final(self).dirty(),
            final(block_device).blocks() == if old(self).dirty() {
                old(block_device).blocks().update(old(self).id(), old(self).data())
            } else {
                old(block_device).blocks()
            },
    {
        if self.modified {
            self.modified = false;
            block_device.write_block(self.block_id, self.cache.as_slice());
        }
    }
}

/// A cached block and the number of its current users.
pub struct CacheSlot {
    cache: BlockCache,
    users: usize,
}

/// The cached blocks of a device, in the order in which they were loaded.
pub struct BlockCacheManager<D: BlockDevice> {
    queue: Vec<CacheSlot>,
    device: D,
    contents: Ghost<Seq<Seq<u8>>>,
}

impl<D: BlockDevice> View for BlockCacheManager<D> {
    type V = Seq<Seq<u8>>;

    /// The blocks as readers see them: the cached ones as cached, the others
    /// as the device holds them.
    closed spec fn view(&self) -> Seq<Seq<u8>> {
        self.contents@
    }
}

/// The blocks are all of block size.
pub open spec fn disk_wf(disk: Seq<Seq<u8>>) -> bool {
    forall|b: int| 0 <= b < disk.len() ==> (#[trigger] disk[b]).len() == BLOCK_SZ
}

impl<D: BlockDevice> BlockCacheManager<D> {
    /// What the device itself holds.
    pub closed spec fn on_device(&self) -> Seq<Seq<u8>> {
        self.device.blocks()
    }

    /// The numbers of the cached blocks, oldest first.
    pub closed spec fn cached(&self) -> Seq<int> {
        Seq::new(self.queue@.len(), |i: int| self.queue@[i].cache.id())
    }

    /// How many users hold each of the cached blocks.
    pub closed spec fn users(&self) -> Seq<int> {
        Seq::new(self.queue@.len(), |i: int| self.queue@[i].users as int)
    }

    /// The cached blocks and the device together make up the view.
    pub closed spec fn wf(&self) -> bool {
        let d = self.contents@;
        let q = self.queue@;
        &&& d.len() == self.device.blocks().len()
        &&& disk_wf(d)
        &&& q.len() <= BLOCK_CACHE_SIZE
        &&& forall|i: int|
            0 <= i < q.len() ==> {
                &&& (#[trigger] q[i]).cache.wf()
                &&& 0 <= q[i].cache.id() < d.len()
                &&& q[i].cache.data() == d[q[i].cache.id()]
                &&& !q[i].cache.dirty() ==> self.device.blocks()[q[i].cache.id()]
                    == d[q[i].cache.id()]
            }
        &&& forall|i: int, j: int|
            0 <= i < j < q.len() ==> (#[trigger] q[i]).cache.id() != (#[trigger] q[j]).cache.id()
        &&& forall|b: int|
            0 <= b < d.len() && (forall|i: int|
                0 <= i < q.len() ==> (#[trigger] q[i]).cache.id() != b)
                ==> #[trigger] self.device.blocks()[b] == d[b]
    }

    /// A block that is not cached yet can be loaded: there is a free slot, or a
    /// block that nobody uses.
    pub open spec fn has_room(&self) -> bool {
        ||| self.cached().len() < BLOCK_CACHE_SIZE
        ||| exists|i: int| 0 <= i < self.users().len() && #[trigger] self.users()[i] == 0
    }

    /// The cache is well-formed and can load a block.
    pub open spec fn inv(&self) -> bool {
        &&& self.wf()
        &&& self.has_room()
        &&& forall|i: int|
            0 <= i < self.users().len() ==> 0 <= #[trigger] self.users()[i] < usize::MAX
    }

    /// The blocks that have users, and how many.
    pub open spec fn held(&self) -> Map<int, int> {
        Map::new(
            |b: int|
                exists|i: int|
                    0 <= i < self.cached().len() && #[trigger] self.cached()[i] == b
                        && self.users()[i] > 0,
            |b: int| self.users()[self.cached().index_of(b)],
        )
    }

    /// The blocks are all of block size.
    pub proof fn lemma_wf(&self)
        requires
            self.wf(),
        ensures
            disk_wf(self@),
            self@.len() == self.on_device().len(),
            self.cached().len() == self.users().len(),
            self.cached().len() <= BLOCK_CACHE_SIZE,
            self.cached().no_duplicates(),
            forall|b: int|
                0 <= b < self@.len() && !self.cached().contains(b)
                    ==> #[trigger] self.on_device()[b] == self@[b],
    {
        assert forall|b: int| 0 <= b < self@.len() && !self.cached().contains(b) implies #[trigger]
        self.on_device()[b] == self@[b] by {
            assert forall|i: int| 0 <= i < self.queue@.len() implies (
            #[trigger] self.queue@[i]).cache.id() != b by {
                assert(self.cached()[i] == self.queue@[i].cache.id());
            }
        }
        assert forall|i: int, j: int|
            0 <= i < j < self.cached().len() implies self.cached()[i] != self.cached()[j] by {
            assert(self.queue@[i].cache.id() != self.queue@[j].cache.id());
        }
    }

    /// A manager with nothing cached.
    pub fn new(device: D) -> (r: Self)
        requires
            disk_wf(device.blocks()),
        ensures
            r.inv(),
            r@ == device.blocks(),
            r.on_device() == device.blocks(),
            r.cached() == Seq::<int>::empty(),
    {
        BlockCacheManager { queue: Vec::new(), contents: Ghost(device.blocks()), device }
    }

    /// Where block `block_id` is cached.
    fn position(&self, block_id: usize) -> (r: Option<usize>)
        requires
            self.wf(),
        ensures
            match r {
                Some(i) => i < self.queue@.len() && self.queue@[i as int].cache.id() == block_id,
                None => forall|i: int|
                    0 <= i < self.queue@.len() ==> (#[trigger] self.queue@[i]).cache.id()
                        != block_id,
            },
    {
        let n: usize = self.queue.len();
        let mut i: usize = 0;
        while i < n
            invariant
                i <= n,
                n == self.queue@.len(),
                forall|k: int|
                    0 <= k < i ==> (#[trigger] self.queue@[k]).cache.id() != block_id,
            decreases n - i,
        {
            if self.queue[i].cache.block_id == block_id {
                return Some(i);
            }
            i += 1;
        }
        None
    }

    /// The first cached block that nobody uses.
    fn unused(&self) -> (r: Option<usize>)
        ensures
            match r {
                Some(i) => {
                    &&& i < self.queue@.len()
                    &&& self.queue@[i as int].users == 0
                    &&& forall|k: int| 0 <= k < i ==> (#[trigger] self.queue@[k]).users > 0
                },
                None => forall|k: int|
                    0 <= k < self.queue@.len() ==> (#[trigger] self.queue@[k]).users > 0,
            },
    {
        let n: usize = self.queue.len();
        let mut i: usize = 0;
        while i < n
            invariant
                i <= n,
                n == self.queue@.len(),
                forall|k: int| 0 <= k < i ==> (#[trigger] self.queue@[k]).users > 0,
            decreases n - i,
        {
            if self.queue[i].users == 0 {
                return Some(i);
            }
            i += 1;
        }
        None
    }

    /// Caches block `block_id`, counts one more user of it, and gives its slot.
    /// A block that is not cached is read from the device; where the cache is
    /// full, it takes the place of the first block that nobody uses, which is
    /// written back if it was modified.
    pub fn get_block_cache(&mut self, block_id: usize) -> (slot: usize)
        requires
            old(self).wf(),
            block_id < old(self)@.len(),
            old(self).cached().contains(block_id as int) || old(self).has_room(),
            forall|i: int|
                0 <= i < old(self).users().len() ==> #[trigger] old(self).users()[i] < usize::MAX,
        ensures
            final(self).wf(),
            final(self)@ == old(self)@,
            slot < final(self).cached().len(),
            final(self).cached()[slot as int] == block_id,
            old(self).cached().contains(block_id as int) ==> {
                &&& final(self).cached() == old(self).cached()
                &&& final(self).users() == old(self).users().update(
                    slot as int,
                    old(self).users()[slot as int] + 1,
                )
                &&& final(self).on_device() == old(self).on_device()
            },
            !old(self).cached().contains(block_id as int) && old(self).cached().len()
                < BLOCK_CACHE_SIZE ==> {
                &&& final(self).cached() == old(self).cached().push(block_id as int)
                &&& final(self).users() == old(self).users().push(1)
                &&& final(self).on_device() == old(self).on_device()
            },
            !old(self).cached().contains(block_id as int) && old(self).cached().len()
                == BLOCK_CACHE_SIZE ==> exists|v: int|
                {
                    &&& 0 <= v < old(self).users().len()
                    &&& #[trigger] old(self).users()[v] == 0
                    &&& forall|k: int| 0 <= k < v ==> #[trigger] old(self).users()[k] > 0
                    &&& final(self).cached() == old(self).cached().remove(v).push(block_id as int)
                    &&& final(self).users() == old(self).users().remove(v).push(1)
                    &&& final(self).on_device() == old(self).on_device().update(
                        old(self).cached()[v],
                        old(self)@[old(self).cached()[v]],
                    )
                },
    {
        let ghost before = *self;
        match self.position(block_id) {
            Some(i) => {
                assert(self.cached()[i as int] == block_id);
                assert(self.users()[i as int] < usize::MAX);
                let u: usize = self.queue[i].users;
                self.queue[i].users = u + 1;
                proof {
                    assert forall|k: int| 0 <= k < self.queue@.len() implies (
                    #[trigger] self.queue@[k]).cache == before.queue@[k].cache by {}
                    assert(self.cached() =~= before.cached());
                    assert(self.users() =~= before.users().update(i as int, before.users()[i as int] + 1));
                    Self::lemma_same_blocks(before, *self);
                }
                i
            },
            None => {
                assert(!self.cached().contains(block_id as int)) by {
                    assert forall|i: int| 0 <= i < self.cached().len() implies self.cached()[i]
                        != block_id by {
                        assert(self.queue@[i].cache.id() != block_id);
                    }
                }
                if self.queue.len() == BLOCK_CACHE_SIZE {
                    match self.unused() {
                        Some(v) => {
                            self.evict(v);
                            proof {
                                assert(before.users()[v as int] == 0);
                                assert forall|k: int| 0 <= k < v implies before.users()[k] > 0 by {
                                    assert(before.queue@[k].users > 0);
                                }
                                assert forall|i: int| 0 <= i < self.queue@.len() implies (
                                #[trigger] self.queue@[i]).cache.id() != block_id by {
                                    assert(self.cached()[i] == self.queue@[i].cache.id());
                                    assert(self.cached().len() == self.queue@.len());
                                    assert(before.cached().len() == before.queue@.len());
                                    let j = if i < v { i } else { i + 1 };
                                    assert(before.cached()[j] == self.cached()[i]);
                                    assert(before.queue@[j].cache.id() != block_id);
                                }
                            }
                        },
                        None => {
                            proof {
                                let i = choose|i: int|
                                    0 <= i < before.users().len() && #[trigger] before.users()[i]
                                        == 0;
                                assert(before.queue@[i].users > 0);
                                assert(false);
                            }
                        },
                    }
                }
                let ghost mid = *self;
                assert(self.device.blocks()[block_id as int] == self.contents@[block_id as int]);
                let cache: BlockCache = BlockCache::new(block_id, &self.device);
                let slot: usize = self.queue.len();
                self.queue.push(CacheSlot { cache, users: 1 });
                proof {
                    assert(self.queue@[slot as int].cache.id() == block_id);
                    assert forall|k: int| 0 <= k < slot implies #[trigger] self.queue@[k]
                        == mid.queue@[k] by {}
                    assert(self.cached() =~= mid.cached().push(block_id as int));
                    assert(self.users() =~= mid.users().push(1));
                    assert forall|b: int|
                        0 <= b < self.contents@.len() && (forall|i: int|
                            0 <= i < self.queue@.len() ==> (#[trigger] self.queue@[i]).cache.id()
                                != b) implies #[trigger] self.device.blocks()[b]
                        == self.contents@[b] by {
                        assert forall|i: int| 0 <= i < mid.queue@.len() implies (
                        #[trigger] mid.queue@[i]).cache.id() != b by {
                            assert(self.queue@[i].cache.id() != b);
                        }
                    }
                }
                slot
            },
        }
    }

    /// Managers with the same buffers over the same device are well-formed
    /// together.
    proof fn lemma_same_blocks(a: Self, b: Self)
        requires
            a.wf(),
            b.device == a.device,
            b.contents == a.contents,
            b.queue@.len() == a.queue@.len(),
            forall|k: int|
                0 <= k < a.queue@.len() ==> (#[trigger] b.queue@[k]).cache == a.queue@[k].cache,
        ensures
            b.wf(),
    {
        assert forall|x: int|
            0 <= x < b.contents@.len() && (forall|i: int|
                0 <= i < b.queue@.len() ==> (#[trigger] b.queue@[i]).cache.id() != x) implies #[trigger] b.device.blocks()[x]
            == b.contents@[x] by {
            assert forall|i: int| 0 <= i < a.queue@.len() implies (
            #[trigger] a.queue@[i]).cache.id() != x by {
                assert(b.queue@[i].cache.id() != x);
            }
        }
        assert forall|i: int, j: int| 0 <= i < j < b.queue@.len() implies (
        #[trigger] b.queue@[i]).cache.id() != (#[trigger] b.queue@[j]).cache.id() by {
            assert(a.queue@[i].cache.id() != a.queue@[j].cache.id());
        }
        assert forall|i: int| 0 <= i < b.queue@.len() implies {
            &&& (#[trigger] b.queue@[i]).cache.wf()
            &&& 0 <= b.queue@[i].cache.id() < b.contents@.len()
            &&& b.queue@[i].cache.data() == b.contents@[b.queue@[i].cache.id()]
            &&& !b.queue@[i].cache.dirty() ==> b.device.blocks()[b.queue@[i].cache.id()]
                == b.contents@[b.queue@[i].cache.id()]
        } by {
            assert(a.queue@[i].cache.wf());
        }
    }

    /// Counts one user of the cached block `block_id` less.
    pub fn release(&mut self, block_id: usize)
        requires
            old(self).wf(),
            exists|i: int|
                0 <= i < old(self).cached().len() && #[trigger] old(self).cached()[i] == block_id
                    && old(self).users()[i] > 0,
        ensures
            final(self).wf(),
            final(self)@ == old(self)@,
            final(self).on_device() == old(self).on_device(),
            final(self).cached() == old(self).cached(),
            forall|i: int|
                0 <= i < old(self).users().len() ==> #[trigger] final(self).users()[i] == old(
                    self,
                ).users()[i] - (if old(self).cached()[i] == block_id {
                    1int
                } else {
                    0
                }),
    {
        let ghost before = *self;
        let ghost held = choose|i: int|
            0 <= i < self.cached().len() && #[trigger] self.cached()[i] == block_id
                && self.users()[i] > 0;
        match self.position(block_id) {
            Some(i) => {
                proof {
                    assert(self.queue@[held].cache.id() == block_id);
                    assert(held == i);
                    assert(self.users()[held] == self.queue@[held].users);
                }
                let u: usize = self.queue[i].users;
                self.queue[i].users = u - 1;
                proof {
                    assert forall|k: int| 0 <= k < self.queue@.len() implies (
                    #[trigger] self.queue@[k]).cache == before.queue@[k].cache by {}
                    assert(self.cached() =~= before.cached());
                    Self::lemma_same_blocks(before, *self);
                    assert forall|k: int| 0 <= k < before.users().len() implies #[trigger] self.users()[k]
                        == before.users()[k] - (if before.cached()[k] == block_id {
                        1int
                    } else {
                        0
                    }) by {
                        if k != i {
                            assert(before.queue@[k].cache.id() != before.queue@[i as int].cache.id());
                        }
                    }
                }
            },
            None => {
                assert(self.queue@[held].cache.id() != block_id);
            },
        }
    }

    /// Drops slot `v`, after writing it back if it was modified.
    fn evict(&mut self, v: usize)
        requires
            old(self).wf(),
            v < old(self).cached().len(),
        ensures
            final(self).wf(),
            final(self)@ == old(self)@,
            final(self).cached() == old(self).cached().remove(v as int),
            final(self).users() == old(self).users().remove(v as int),
            final(self).on_device() == old(self).on_device().update(
                old(self).cached()[v as int],
                old(self)@[old(self).cached()[v as int]],
            ),
    {
        let ghost before = *self;
        let mut gone: CacheSlot = self.queue.remove(v);
        assert(gone == before.queue@[v as int]);
        gone.cache.sync(&mut self.device);
        proof {
            let g = before.queue@[v as int].cache;
            assert(self.device.blocks() =~= before.device.blocks().update(
                g.id(),
                before.contents@[g.id()],
            ));
            assert forall|i: int| 0 <= i < self.queue@.len() implies #[trigger] self.queue@[i]
                == before.queue@[if i < v { i } else { i + 1 }] by {}
            assert(self.cached() =~= before.cached().remove(v as int));
            assert(self.users() =~= before.users().remove(v as int));
            assert forall|b: int|
                0 <= b < self.contents@.len() && (forall|i: int|
                    0 <= i < self.queue@.len() ==> (#[trigger] self.queue@[i]).cache.id()
                        != b) implies #[trigger] self.device.blocks()[b] == self.contents@[b] by {
                if b != g.id() {
                    assert forall|i: int| 0 <= i < before.queue@.len() implies (
                    #[trigger] before.queue@[i]).cache.id() != b by {
                        if i < v {
                            assert(self.queue@[i].cache.id() != b);
                        } else if i > v {
                            assert(self.queue@[i - 1].cache.id() != b);
                        }
                    }
                    assert(before.device.blocks()[b] == before.contents@[b]);
                }
            }
            assert forall|i: int| 0 <= i < self.queue@.len() implies {
                &&& (#[trigger] self.queue@[i]).cache.wf()
                &&& 0 <= self.queue@[i].cache.id() < self.contents@.len()
                &&& self.queue@[i].cache.data() == self.contents@[self.queue@[i].cache.id()]
                &&& !self.queue@[i].cache.dirty()
                    ==> self.device.blocks()[self.queue@[i].cache.id()]
                    == self.contents@[self.queue@[i].cache.id()]
            } by {
                let j = if i < v { i } else { i + 1 };
                assert(before.queue@[j].cache.wf());
                assert(before.queue@[j].cache.id() != g.id());
            }
        }
    }

    /// `held` of a block, read off its slot.
    proof fn lemma_held(&self, i: int)
        requires
            self.wf(),
            0 <= i < self.cached().len(),
        ensures
            self.held().contains_key(self.cached()[i]) <==> self.users()[i] > 0,
            self.users()[i] > 0 ==> self.held()[self.cached()[i]] == self.users()[i],
    {
        self.lemma_wf();
        let b = self.cached()[i];
        assert(self.cached().contains(b));
        let k = self.cached().index_of(b);
        assert(self.cached()[k] == b);
        assert(k == i);
    }

    /// A block that is not cached has no users.
    proof fn lemma_not_held(&self, b: int)
        requires
            !self.cached().contains(b),
        ensures
            !self.held().contains_key(b),
    {
    }

    /// Caches a block and gives its slot; who uses what stays as it is.
    fn touch(&mut self, block_id: usize) -> (slot: usize)
        requires
            old(self).inv(),
            block_id < old(self)@.len(),
        ensures
            final(self).inv(),
            final(self)@ == old(self)@,
            final(self).held() == old(self).held(),
            slot < final(self).queue@.len(),
            final(self).queue@[slot as int].cache.id() == block_id,
            old(self).on_device() == old(self)@ ==> final(self).on_device() == old(self)@,
    {
        let ghost before = *self;
        let slot: usize = self.get_block_cache(block_id);
        let ghost mid = *self;
        proof {
            if before.on_device() == before@ {
                assert(mid.on_device() =~= before@);
            }
            mid.lemma_wf();
            before.lemma_wf();
            let hit = before.cached().contains(block_id as int);
            if hit {
                assert(mid.users()[slot as int] == before.users()[slot as int] + 1);
            }
            assert(mid.users()[slot as int] > 0);
        }
        self.release(block_id);
        proof {
            self.lemma_wf();
            assert(self.cached()[slot as int] == block_id);
            assert(self.queue@[slot as int].cache.id() == self.cached()[slot as int]);
            let hit = before.cached().contains(block_id as int);
            let n = before.cached().len() as int;
            if hit {
                assert(self.users() =~= before.users()) by {
                    assert forall|i: int| 0 <= i < self.users().len() implies self.users()[i]
                        == before.users()[i] by {
                        if i != slot {
                            assert(self.cached()[i] != self.cached()[slot as int]);
                        }
                    }
                }
                assert(self.held() =~= before.held());
            } else if n < BLOCK_CACHE_SIZE {
                assert(self.users() =~= before.users().push(0)) by {
                    assert forall|i: int| 0 <= i < self.users().len() implies self.users()[i]
                        == before.users().push(0)[i] by {
                        if i != slot {
                            assert(self.cached()[i] != self.cached()[slot as int]);
                        }
                    }
                }
                assert(self.users()[n] == 0);
                assert forall|b: int|
                    #![trigger self.held().dom().contains(b)]
                    #![trigger before.held().dom().contains(b)]
                    #![trigger self.held()[b]]
                    self.held().dom().contains(b) == before.held().dom().contains(b) && (
                    before.held().dom().contains(b) ==> self.held()[b] == before.held()[b]) by {
                    if before.cached().contains(b) {
                        let i = before.cached().index_of(b);
                        before.lemma_held(i);
                        self.lemma_held(i);
                    } else if b == block_id {
                        self.lemma_held(n);
                        before.lemma_not_held(b);
                    } else {
                        before.lemma_not_held(b);
                        self.lemma_not_held(b);
                    }
                }
                assert(self.held() =~= before.held());
            } else {
                let v = choose|v: int|
                    {
                        &&& 0 <= v < before.users().len()
                        &&& #[trigger] before.users()[v] == 0
                        &&& forall|k: int| 0 <= k < v ==> #[trigger] before.users()[k] > 0
                        &&& mid.cached() == before.cached().remove(v).push(block_id as int)
                        &&& mid.users() == before.users().remove(v).push(1)
                        &&& mid.on_device() == before.on_device().update(
                            before.cached()[v],
                            before@[before.cached()[v]],
                        )
                    };
                assert(self.users() =~= before.users().remove(v).push(0)) by {
                    assert forall|i: int| 0 <= i < self.users().len() implies self.users()[i]
                        == before.users().remove(v).push(0)[i] by {
                        if i != slot {
                            assert(self.cached()[i] != self.cached()[slot as int]);
                        }
                    }
                }
                assert(self.users()[n - 1] == 0);
                assert forall|b: int|
                    #![trigger self.held().dom().contains(b)]
                    #![trigger before.held().dom().contains(b)]
                    #![trigger self.held()[b]]
                    self.held().dom().contains(b) == before.held().dom().contains(b) && (
                    before.held().dom().contains(b) ==> self.held()[b] == before.held()[b]) by {
                    if before.cached().contains(b) {
                        let i = before.cached().index_of(b);
                        before.lemma_held(i);
                        if i < v {
                            self.lemma_held(i);
                        } else if i > v {
                            self.lemma_held(i - 1);
                        } else {
                            assert(!self.cached().contains(b)) by {
                                assert forall|k: int| 0 <= k < self.cached().len() implies self.cached()[k]
                                    != b by {
                                    if k < v {
                                        assert(before.cached()[k] != before.cached()[v]);
                                    } else if k < n - 1 {
                                        assert(before.cached()[k + 1] != before.cached()[v]);
                                    }
                                }
                            }
                            self.lemma_not_held(b);
                        }
                    } else if b == block_id {
                        self.lemma_held(n - 1);
                        before.lemma_not_held(b);
                    } else {
                        before.lemma_not_held(b);
                        self.lemma_not_held(b);
                    }
                }
                assert(self.held() =~= before.held());
            }
        }
        slot
    }

    /// What a changed buffer in one slot means for the whole.
    proof fn lemma_slot_changed(before: Self, after: Self, slot: int)
        requires
            before.inv(),
            0 <= slot < before.queue@.len(),
            after.device == before.device,
            after.queue@.len() == before.queue@.len(),
            forall|k: int|
                0 <= k < before.queue@.len() && k != slot ==> #[trigger] after.queue@[k]
                    == before.queue@[k],
            after.queue@[slot].users == before.queue@[slot].users,
            after.queue@[slot].cache.wf(),
            after.queue@[slot].cache.id() == before.queue@[slot].cache.id(),
            after.queue@[slot].cache.dirty(),
            after.contents@ == before.contents@.update(
                before.queue@[slot].cache.id(),
                after.queue@[slot].cache.data(),
            ),
        ensures
            after.inv(),
            after.held() == before.held(),
    {
        let id = before.queue@[slot].cache.id();
        assert(after.cached() =~= before.cached());
        assert(after.users() =~= before.users());
        assert(after.held() =~= before.held());
        assert forall|i: int| 0 <= i < after.queue@.len() implies {
            &&& (#[trigger] after.queue@[i]).cache.wf()
            &&& 0 <= after.queue@[i].cache.id() < after.contents@.len()
            &&& after.queue@[i].cache.data() == after.contents@[after.queue@[i].cache.id()]
            &&& !after.queue@[i].cache.dirty() ==> after.device.blocks()[after.queue@[i].cache.id()]
                == after.contents@[after.queue@[i].cache.id()]
        } by {
            assert(before.queue@[i].cache.wf());
            assert(before.queue@[slot].cache.wf());
            if i != slot {
                assert(before.queue@[i].cache.id() != id);
            }
        }
        assert forall|i: int, j: int| 0 <= i < j < after.queue@.len() implies (
        #[trigger] after.queue@[i]).cache.id() != (#[trigger] after.queue@[j]).cache.id() by {
            assert(before.queue@[i].cache.id() != before.queue@[j].cache.id());
        }
        assert forall|x: int|
            0 <= x < after.contents@.len() && (forall|i: int|
                0 <= i < after.queue@.len() ==> (#[trigger] after.queue@[i]).cache.id()
                    != x) implies #[trigger] after.device.blocks()[x] == after.contents@[x] by {
            assert(after.queue@[slot].cache.id() != x);
            assert forall|i: int| 0 <= i < before.queue@.len() implies (
            #[trigger] before.queue@[i]).cache.id() != x by {
                assert(after.queue@[i].cache.id() != x);
            }
        }
        assert(disk_wf(after.contents@));
    }

    /// The value at `offset` of block `block_id`.
    pub fn read_record<T: DiskRecord>(&mut self, block_id: usize, offset: usize) -> (r: T)
        requires
            old(self).inv(),
            block_id < old(self)@.len(),
            offset + T::size() <= BLOCK_SZ,
        ensures
            final(self).inv(),
            final(self)@ == old(self)@,
            final(self).held() == old(self).held(),
            r@ == T::parse(
                old(self)@[block_id as int].subrange(offset as int, offset + T::size()),
            ),
            old(self).on_device() == old(self)@ ==> final(self).on_device() == old(self)@,
    {
        let slot: usize = self.touch(block_id);
        assert(self.queue@[slot as int].cache.wf());
        self.queue[slot].cache.get_ref(offset)
    }

    /// Puts `value` at `offset` of block `block_id`.
    pub fn write_record<T: DiskRecord>(&mut self, block_id: usize, offset: usize, value: &T)
        requires
            old(self).inv(),
            block_id < old(self)@.len(),
            offset + T::size() <= BLOCK_SZ,
        ensures
            final(self).inv(),
            final(self).held() == old(self).held(),
            final(self)@ == old(self)@.update(
                block_id as int,
                bytes::splice(
                    old(self)@[block_id as int],
                    offset as int,
                    T::stored(
                        value@,
                        old(self)@[block_id as int].subrange(offset as int, offset + T::size()),
                    ),
                ),
            ),
    {
        let slot: usize = self.touch(block_id);
        let ghost before = *self;
        assert(self.queue@[slot as int].cache.wf());
        self.queue[slot].cache.set(offset, value);
        proof {
            self.contents@ = before.contents@.update(
                block_id as int,
                self.queue@[slot as int].cache.data(),
            );
            Self::lemma_slot_changed(before, *self, slot as int);
        }
    }

    /// `len` bytes of block `block_id`, from `offset` on.
    pub fn read_bytes(&mut self, block_id: usize, offset: usize, len: usize) -> (r: Vec<u8>)
        requires
            old(self).inv(),
            block_id < old(self)@.len(),
            offset + len <= BLOCK_SZ,
        ensures
            final(self).inv(),
            final(self)@ == old(self)@,
            final(self).held() == old(self).held(),
            r@ == old(self)@[block_id as int].subrange(offset as int, offset + len),
            old(self).on_device() == old(self)@ ==> final(self).on_device() == old(self)@,
    {
        let slot: usize = self.touch(block_id);
        assert(self.queue@[slot as int].cache.wf());
        slice_to_vec(slice_subrange(self.queue[slot].cache.bytes(), offset, offset + len))
    }

    /// Copies `src` over the bytes of block `block_id` from `offset` on.
    pub fn write_bytes(&mut self, block_id: usize, offset: usize, src: &[u8])
        requires
            old(self).inv(),
            block_id < old(self)@.len(),
            offset + src@.len() <= BLOCK_SZ,
        ensures
            final(self).inv(),
            final(self).held() == old(self).held(),
            final(self)@ == old(self)@.update(
                block_id as int,
                bytes::splice(old(self)@[block_id as int], offset as int, src@),
            ),
    {
        let slot: usize = self.touch(block_id);
        let ghost before = *self;
        assert(self.queue@[slot as int].cache.wf());
        self.queue[slot].cache.write_bytes(offset, src);
        proof {
            self.contents@ = before.contents@.update(
                block_id as int,
                self.queue@[slot as int].cache.data(),
            );
            Self::lemma_slot_changed(before, *self, slot as int);
        }
    }

    /// Sync all cached blocks to the device.
    pub fn block_cache_sync_all(&mut self)
        requires
            old(self).wf(),
        ensures
            final(self).wf(),
            final(self)@ == old(self)@,
            final(self).cached() == old(self).cached(),
            final(self).users() == old(self).users(),
            final(self).on_device() == old(self)@,
    {
        let n: usize = self.queue.len();
        let mut i: usize = 0;
        let ghost before = *self;
        while i < n
            invariant
                i <= n,
                n == self.queue@.len(),
                self.wf(),
                self@ == before@,
                self.cached() == before.cached(),
                self.users() == before.users(),
                forall|k: int| 0 <= k < i ==> !(#[trigger] self.queue@[k]).cache.dirty(),
            decreases n - i,
        {
            let ghost mid = *self;
            assert(self.queue@[i as int].cache.wf());
            self.queue[i].cache.sync(&mut self.device);
            proof {
                let id = mid.queue@[i as int].cache.id();
                assert(self.device.blocks() =~= mid.device.blocks().update(id, mid.contents@[id]));
                assert(self.cached() =~= mid.cached());
                assert(self.users() =~= mid.users());
                assert forall|k: int| 0 <= k < self.queue@.len() implies {
                    &&& (#[trigger] self.queue@[k]).cache.wf()
                    &&& 0 <= self.queue@[k].cache.id() < self.contents@.len()
                    &&& self.queue@[k].cache.data() == self.contents@[self.queue@[k].cache.id()]
                    &&& !self.queue@[k].cache.dirty()
                        ==> self.device.blocks()[self.queue@[k].cache.id()]
                        == self.contents@[self.queue@[k].cache.id()]
                } by {
                    assert(mid.queue@[k].cache.wf());
                    if k != i {
                        assert(mid.queue@[k].cache.id() != id);
                    }
                }
                assert forall|k: int, j: int| 0 <= k < j < self.queue@.len() implies (
                #[trigger] self.queue@[k]).cache.id() != (#[trigger] self.queue@[j]).cache.id() by {
                    assert(mid.queue@[k].cache.id() != mid.queue@[j].cache.id());
                }
                assert forall|x: int|
                    0 <= x < self.contents@.len() && (forall|k: int|
                        0 <= k < self.queue@.len() ==> (#[trigger] self.queue@[k]).cache.id()
                            != x) implies #[trigger] self.device.blocks()[x]
                    == self.contents@[x] by {
                    if x != id {
                        assert forall|k: int| 0 <= k < mid.queue@.len() implies (
                        #[trigger] mid.queue@[k]).cache.id() != x by {
                            assert(self.queue@[k].cache.id() != x);
                        }
                        assert(mid.device.blocks()[x] == mid.contents@[x]);
                    }
                }
                assert forall|k: int| 0 <= k < i + 1 implies !(
                #[trigger] self.queue@[k]).cache.dirty() by {
                    if k < i {
                        assert(!mid.queue@[k].cache.dirty());
                    }
                }
            }
            i += 1;
        }
        proof {
            assert forall|b: int| 0 <= b < self.contents@.len() implies self.device.blocks()[b]
                == self.contents@[b] by {
                if exists|k: int| 0 <= k < n && (#[trigger] self.queue@[k]).cache.id() == b {
                    let k = choose|k: int|
                        0 <= k < n && (#[trigger] self.queue@[k]).cache.id() == b;
                    assert(!self.queue@[k].cache.dirty());
                }
            }
            assert(self.device.blocks() =~= self.contents@);
        }
    }

    /// The device.
    pub fn device(&self) -> (r: &D)
        ensures
            r.blocks() == self.on_device(),
    {
        &self.device
    }
}

} // verus!
