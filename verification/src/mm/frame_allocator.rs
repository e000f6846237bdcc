//! Physical memory, frame by frame, and which frames are in use.
use super::address::{PhysPageNum, PPN_SPACE};
use crate::easy_fs::bytes;
use crate::easy_fs::bytes::{copy_to_slice, read_u64};
use vstd::bytes::u64_to_le_bytes;
use vstd::prelude::*;
use vstd::slice::{slice_subrange, slice_to_vec};

verus! {

/// Physical memory.
pub struct PhysMemory {
    start: u64,
    pages: Vec<Vec<u8>>,
    used: Vec<bool>,
}

/// What physical memory holds: the bytes of each frame, and the frames that are
/// in use.
pub struct MemData {
    pub pages: Map<int, Seq<u8>>,
    pub used: Set<int>,
}

impl MemData {
    /// The frames that are free.
    pub open spec fn free(self) -> Set<int> {
        self.pages.dom().difference(self.used)
    }

    /// Word `i` of a frame.
    pub open spec fn word(self, ppn: int, i: int) -> u64 {
        bytes::u64_at(self.pages[ppn], 8 * i)
    }

    /// Memory after word `i` of a frame was written.
    pub open spec fn with_word(self, ppn: int, i: int, x: u64) -> MemData {
        MemData {
            pages: self.pages.insert(
                ppn,
                bytes::splice(self.pages[ppn], 8 * i, bytes::u64_bytes(x)),
            ),
            ..self
        }
    }

    /// Memory after frame `ppn` was allocated.
    pub open spec fn with_frame(self, ppn: int) -> MemData {
        MemData {
            pages: self.pages.insert(ppn, bytes::zeros(4096)),
            used: self.used.insert(ppn),
        }
    }

    /// Memory after frame `ppn` was given back.
    pub open spec fn without_frame(self, ppn: int) -> MemData {
        MemData { pages: self.pages, used: self.used.remove(ppn) }
    }

    /// Frames are whole, finitely many, and have page numbers; those in use
    /// exist.
    pub open spec fn wf(self) -> bool {
        &&& self.pages.dom().finite()
        &&& self.used.subset_of(self.pages.dom())
        &&& forall|p: int| #[trigger]
            self.pages.contains_key(p) ==> self.pages[p].len() == 4096 && 0 <= p < PPN_SPACE
    }

    /// The frames that are in use afterwards are those that were, and the free ones
    /// with the lowest numbers, as many as are free no more.
    #[verifier::opaque]
    pub open spec fn takes_lowest(self, m1: MemData) -> bool {
        &&& m1.pages.dom() == self.pages.dom()
        &&& forall|p: int| #[trigger] self.used.contains(p) ==> m1.used.contains(p)
        &&& forall|p: int, q: int|
            #![trigger m1.used.contains(p), self.free().contains(q)]
            m1.used.contains(p) && self.free().contains(p) && self.free().contains(q) && q < p
                ==> m1.used.contains(q)
    }

    /// Nothing was taken.
    pub proof fn lemma_takes_none(self, m1: MemData)
        requires
            m1.pages.dom() == self.pages.dom(),
            forall|p: int| #[trigger] m1.used.contains(p) == self.used.contains(p),
        ensures
            self.takes_lowest(m1),
    {
        reveal(MemData::takes_lowest);
    }

    /// The first free frame was taken.
    pub proof fn lemma_takes_first(self, f: int)
        requires
            self.free().contains(f),
            forall|q: int| #[trigger] self.free().contains(q) ==> f <= q,
        ensures
            self.takes_lowest(self.with_frame(f)),
    {
        reveal(MemData::takes_lowest);
        assert(self.with_frame(f).pages.dom() =~= self.pages.dom());
    }

    /// What was taken in two steps.
    pub proof fn lemma_takes_trans(self, m1: MemData, m2: MemData)
        requires
            self.takes_lowest(m1),
            m1.takes_lowest(m2),
        ensures
            self.takes_lowest(m2),
    {
        reveal(MemData::takes_lowest);
        assert forall|p: int, q: int|
            #![trigger m2.used.contains(p), self.free().contains(q)]
            m2.used.contains(p) && self.free().contains(p) && self.free().contains(q) && q < p
                implies m2.used.contains(q) by {
            if m1.used.contains(p) {
                assert(m1.used.contains(q));
            } else {
                assert(m1.free().contains(p));
                if !m1.used.contains(q) {
                    assert(m1.free().contains(q));
                }
            }
        }
    }

    /// A word that was written is read back, and the others stay.
    pub proof fn lemma_with_word(self, ppn: int, i: int, x: u64)
        requires
            self.wf(),
            self.pages.contains_key(ppn),
            0 <= i < 512,
        ensures
            self.with_word(ppn, i, x).wf(),
            self.with_word(ppn, i, x).free() == self.free(),
            forall|q: int, j: int|
                0 <= j < 512 ==> #[trigger] self.with_word(ppn, i, x).word(q, j) == if q == ppn && j
                    == i {
                    x
                } else {
                    self.word(q, j)
                },
    {
        let m = self.with_word(ppn, i, x);
        bytes::lemma_u64_read_back(self.pages[ppn], 8 * i, x);
        assert forall|q: int, j: int| 0 <= j < 512 implies #[trigger] m.word(q, j) == if q == ppn
            && j == i {
            x
        } else {
            self.word(q, j)
        } by {
            if q == ppn && j != i {
                bytes::lemma_u64_elsewhere(self.pages[ppn], 8 * i, bytes::u64_bytes(x), 8 * j);
            }
        }
        assert(m.pages.dom() =~= self.pages.dom());
    }

    /// A frame that was allocated holds zeros, and one frame less is free.
    pub proof fn lemma_with_frame(self, ppn: int)
        requires
            self.wf(),
            self.free().contains(ppn),
        ensures
            self.with_frame(ppn).wf(),
            self.with_frame(ppn).free() == self.free().remove(ppn),
            self.with_frame(ppn).free().len() == self.free().len() - 1,
            forall|j: int| 0 <= j < 512 ==> #[trigger] self.with_frame(ppn).word(ppn, j) == 0,
    {
        let m = self.with_frame(ppn);
        assert(m.pages.dom() =~= self.pages.dom());
        assert(m.free() =~= self.free().remove(ppn));
        assert forall|j: int| 0 <= j < 512 implies #[trigger] m.word(ppn, j) == 0 by {
            bytes::lemma_zero_long(m.pages[ppn], 8 * j);
        }
    }

    /// One frame more is free after one was given back.
    pub proof fn lemma_without_frame(self, ppn: int)
        requires
            self.wf(),
            self.used.contains(ppn),
        ensures
            self.without_frame(ppn).wf(),
            self.without_frame(ppn).free() == self.free().insert(ppn),
            self.without_frame(ppn).free().len() == self.free().len() + 1,
    {
        assert(self.without_frame(ppn).free() =~= self.free().insert(ppn));
    }

    /// The frames `f` are free after they were given back.
    pub proof fn lemma_without_frames(self, m1: MemData, f: Set<int>)
        requires
            self.wf(),
            f.subset_of(self.used),
            m1.pages.dom() == self.pages.dom(),
            forall|p: int| #[trigger]
                m1.used.contains(p) == (self.used.contains(p) && !f.contains(p)),
        ensures
            f.finite(),
            m1.free() == self.free().union(f),
            m1.free().len() == self.free().len() + f.len(),
    {
        assert(f.subset_of(self.pages.dom()));
        vstd::set_lib::lemma_len_subset(f, self.pages.dom());
        vstd::set_lib::lemma_len_subset(self.free(), self.pages.dom());
        assert(m1.free() =~= self.free().union(f));
        vstd::set_lib::lemma_set_disjoint_lens(self.free(), f);
    }

    /// The frames `f` are free no more after they were taken.
    pub proof fn lemma_with_frames(self, m1: MemData, f: Set<int>)
        requires
            self.wf(),
            f.subset_of(self.free()),
            m1.pages.dom() == self.pages.dom(),
            forall|p: int| #[trigger]
                m1.used.contains(p) == (self.used.contains(p) || f.contains(p)),
        ensures
            f.finite(),
            self.free() == m1.free().union(f),
            self.free().len() == m1.free().len() + f.len(),
    {
        assert(f.subset_of(self.pages.dom()));
        vstd::set_lib::lemma_len_subset(f, self.pages.dom());
        vstd::set_lib::lemma_len_subset(m1.free(), self.pages.dom());
        assert(self.free() =~= m1.free().union(f));
        vstd::set_lib::lemma_set_disjoint_lens(m1.free(), f);
    }

    /// A frame that was allocated and given back is free again, and the others
    /// are as before.
    pub proof fn law_alloc_dealloc(self, ppn: int)
        requires
            self.wf(),
            self.free().contains(ppn),
        ensures
            self.with_frame(ppn).without_frame(ppn).used == self.used,
            self.with_frame(ppn).without_frame(ppn).free() == self.free(),
            forall|q: int|
                q != ppn ==> #[trigger] self.with_frame(ppn).without_frame(ppn).pages[q]
                    == self.pages[q],
    {
        let m = self.with_frame(ppn).without_frame(ppn);
        assert(m.used =~= self.used);
        assert(m.free() =~= self.free());
    }
}

impl View for PhysMemory {
    type V = MemData;

    closed spec fn view(&self) -> MemData {
        MemData {
            pages: Map::new(
                |p: int| self.start <= p < self.start + self.pages@.len(),
                |p: int| self.pages@[p - self.start]@,
            ),
            used: Set::new(
                |p: int|
                    self.start <= p < self.start + self.pages@.len() && self.used@[p - self.start],
            ),
        }
    }
}

impl PhysMemory {
    /// Every frame is whole, and has a flag.
    pub closed spec fn wf(&self) -> bool {
        &&& self.pages@.len() == self.used@.len()
        &&& self.start + self.pages@.len() <= PPN_SPACE
        &&& forall|i: int| 0 <= i < self.pages@.len() ==> (#[trigger] self.pages@[i])@.len() == 4096
    }

    /// The number of the first frame.
    pub closed spec fn first(&self) -> int {
        self.start as int
    }

    /// What a well-formed memory holds is well-formed.
    pub proof fn lemma_wf(&self)
        requires
            self.wf(),
        ensures
            self@.wf(),
    {
        let m = self@;
        let n = self.pages@.len() as int;
        let range = vstd::set_lib::set_int_range(self.start as int, self.start + n);
        vstd::set_lib::lemma_int_range(self.start as int, self.start + n);
        assert(m.pages.dom() =~= range);
    }

    /// Memory of `count` free frames, the first of them number `start`.
    pub fn new(start: PhysPageNum, count: usize) -> (r: Self)
        requires
            start.0 + count <= PPN_SPACE,
        ensures
            r.wf(),
            r.first() == start.0,
            r@.pages.dom() == vstd::set_lib::set_int_range(start.0 as int, start.0 + count),
            forall|p: int| #[trigger]
                r@.pages.contains_key(p) ==> r@.pages[p] == bytes::zeros(4096),
            r@.used == Set::<int>::empty(),
    {
        let mut pages: Vec<Vec<u8>> = Vec::new();
        let mut used: Vec<bool> = Vec::new();
        let mut i: usize = 0;
        while i < count
            invariant
                i <= count,
                pages@.len() == i,
                used@.len() == i,
                forall|k: int| 0 <= k < i ==> (#[trigger] pages@[k])@ == bytes::zeros(4096),
                forall|k: int| 0 <= k < i ==> !#[trigger] used@[k],
            decreases count - i,
        {
            let page: Vec<u8> = vec![0u8; 4096];
            assert(page@ =~= bytes::zeros(4096));
            pages.push(page);
            used.push(false);
            i += 1;
        }
        let r = PhysMemory { start: start.0, pages, used };
        proof {
            assert(r@.pages.dom() =~= vstd::set_lib::set_int_range(
                start.0 as int,
                start.0 + count,
            ));
            assert(r@.used =~= Set::<int>::empty());
        }
        r
    }

    /// Allocates the first free frame and fills it with zeros; `None` if no
    /// frame is free.
    pub fn frame_alloc(&mut self) -> (r: Option<PhysPageNum>)
        requires
            old(self).wf(),
        ensures
            final(self).wf(),
            final(self).first() == old(self).first(),
            match r {
                Some(p) => {
                    &&& old(self)@.free().contains(p.0 as int)
                    &&& forall|q: int| #[trigger]
                        old(self)@.free().contains(q) ==> p.0 <= q
                    &&& final(self)@ == old(self)@.with_frame(p.0 as int)
                },
                None => old(self)@.free() == Set::<int>::empty() && final(self)@ == old(self)@,
            },
    {
        let ghost before = self@;
        let mut i: usize = 0;
        while i < self.used.len()
            invariant
                i <= self.used@.len(),
                self.wf(),
                *self == *old(self),
                before == self@,
                forall|k: int| 0 <= k < i ==> #[trigger] self.used@[k],
            decreases self.used@.len() - i,
        {
            if !self.used[i] {
                self.used.set(i, true);
                let zero: Vec<u8> = vec![0u8; 4096];
                assert(zero@ =~= bytes::zeros(4096));
                self.pages.set(i, zero);
                let p: u64 = self.start + i as u64;
                proof {
                    assert(self@.pages =~= before.with_frame(p as int).pages);
                    assert(self@.used =~= before.with_frame(p as int).used);
                }
                return Some(PhysPageNum(p));
            }
            i += 1;
        }
        assert(before.free() =~= Set::<int>::empty());
        None
    }

    /// The number of free frames.
    pub fn free_frames(&self) -> (r: u64)
        requires
            self.wf(),
        ensures
            r == self@.free().len(),
            r <= PPN_SPACE,
    {
        let ghost mut found: Set<int> = Set::empty();
        let mut count: u64 = 0;
        let mut i: usize = 0;
        while i < self.used.len()
            invariant
                i <= self.used@.len(),
                self.wf(),
                count <= i,
                found.finite(),
                found.len() == count,
                forall|p: int| #[trigger]
                    found.contains(p) == (self.start <= p < self.start + i && !self.used@[p
                        - self.start]),
            decreases self.used@.len() - i,
        {
            if !self.used[i] {
                proof {
                    found = found.insert(self.start + i);
                }
                count += 1;
            }
            i += 1;
        }
        assert(found =~= self@.free());
        count
    }

    /// The first free frame, if there is one.
    pub fn first_free(&self) -> (r: Option<PhysPageNum>)
        requires
            self.wf(),
        ensures
            match r {
                Some(p) => {
                    &&& self@.free().contains(p.0 as int)
                    &&& forall|q: int| #[trigger] self@.free().contains(q) ==> p.0 <= q
                },
                None => self@.free() == Set::<int>::empty(),
            },
    {
        let mut i: usize = 0;
        while i < self.used.len()
            invariant
                i <= self.used@.len(),
                self.wf(),
                forall|k: int| 0 <= k < i ==> #[trigger] self.used@[k],
            decreases self.used@.len() - i,
        {
            if !self.used[i] {
                return Some(PhysPageNum(self.start + i as u64));
            }
            i += 1;
        }
        assert(self@.free() =~= Set::<int>::empty());
        None
    }

    /// Whether there is a frame with this number, and it is free.
    pub fn is_free(&self, ppn: PhysPageNum) -> (r: bool)
        requires
            self.wf(),
        ensures
            r == self@.free().contains(ppn.0 as int),
    {
        self.start <= ppn.0 && ppn.0 - self.start < self.used.len() as u64 && !self.used[(ppn.0
            - self.start) as usize]
    }

    /// Whether there is a frame with this number, and it is in use.
    pub fn is_used(&self, ppn: PhysPageNum) -> (r: bool)
        requires
            self.wf(),
        ensures
            r == self@.used.contains(ppn.0 as int),
    {
        self.start <= ppn.0 && ppn.0 - self.start < self.used.len() as u64 && self.used[(ppn.0
            - self.start) as usize]
    }

    /// The place of a frame.
    fn slot(&self, ppn: PhysPageNum) -> (r: usize)
        requires
            self@.pages.contains_key(ppn.0 as int),
        ensures
            r == ppn.0 - self.start,
            r < self.pages@.len(),
    {
        let _count: usize = self.pages.len();
        (ppn.0 - self.start) as usize
    }

    /// Gives a frame back.
    pub fn frame_dealloc(&mut self, ppn: PhysPageNum)
        requires
            old(self).wf(),
            old(self)@.used.contains(ppn.0 as int),
        ensures
            final(self).wf(),
            final(self).first() == old(self).first(),
            final(self)@ == old(self)@.without_frame(ppn.0 as int),
    {
        let ghost before = self@;
        let n: usize = self.slot(ppn);
        self.used.set(n, false);
        proof {
            assert(self@.pages =~= before.pages);
            assert(self@.used =~= before.used.remove(ppn.0 as int));
        }
    }

    /// Word `i` of a frame.
    pub fn read_word(&self, ppn: PhysPageNum, i: usize) -> (r: u64)
        requires
            self.wf(),
            self@.pages.contains_key(ppn.0 as int),
            i < 512,
        ensures
            r == self@.word(ppn.0 as int, i as int),
    {
        read_u64(self.pages[self.slot(ppn)].as_slice(), 8 * i)
    }

    /// Writes word `i` of a frame.
    pub fn write_word(&mut self, ppn: PhysPageNum, i: usize, x: u64)
        requires
            old(self).wf(),
            old(self)@.pages.contains_key(ppn.0 as int),
            i < 512,
        ensures
            final(self).wf(),
            final(self).first() == old(self).first(),
            final(self)@ == old(self)@.with_word(ppn.0 as int, i as int, x),
    {
        let b: Vec<u8> = u64_to_le_bytes(x);
        proof {
            vstd::bytes::lemma_auto_spec_u64_to_from_le_bytes();
        }
        self.write_bytes(ppn, 8 * i, b.as_slice());
    }

    /// `len` bytes of a frame, from `offset` on.
    pub fn read_bytes(&self, ppn: PhysPageNum, offset: usize, len: usize) -> (r: Vec<u8>)
        requires
            self.wf(),
            self@.pages.contains_key(ppn.0 as int),
            offset + len <= 4096,
        ensures
            r@ == self@.pages[ppn.0 as int].subrange(offset as int, offset + len),
    {
        let page: &[u8] = self.pages[self.slot(ppn)].as_slice();
        slice_to_vec(slice_subrange(page, offset, offset + len))
    }

    /// Copies `src` over the bytes of a frame from `offset` on.
    pub fn write_bytes(&mut self, ppn: PhysPageNum, offset: usize, src: &[u8])
        requires
            old(self).wf(),
            old(self)@.pages.contains_key(ppn.0 as int),
            offset + src@.len() <= 4096,
        ensures
            final(self).wf(),
            final(self).first() == old(self).first(),
            final(self)@.used == old(self)@.used,
            final(self)@.pages == old(self)@.pages.insert(
                ppn.0 as int,
                bytes::splice(old(self)@.pages[ppn.0 as int], offset as int, src@),
            ),
    {
        let ghost before = self@;
        let n: usize = self.slot(ppn);
        copy_to_slice(self.pages[n].as_mut_slice(), offset, src);
        proof {
            assert(self@.pages =~= before.pages.insert(
                ppn.0 as int,
                bytes::splice(before.pages[ppn.0 as int], offset as int, src@),
            ));
            assert(self@.used =~= before.used);
        }
    }
}

} // verus!
