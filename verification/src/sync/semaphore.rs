//! Counting semaphores.
use super::mutex::Wait;
use std::collections::VecDeque;
use vstd::prelude::*;

verus! {

/// A semaphore. A count below zero tells how many threads sleep on it.
pub struct Semaphore {
    count: isize,
    wait_queue: VecDeque<usize>,
}

/// What happens when a resource is handed back: the first thread that waits gets
/// it and is woken.
pub open spec fn raised(s0: &Semaphore, s1: &Semaphore, r: Option<usize>) -> bool {
    &&& s1.wf()
    &&& s1.level() == s0.level() + 1
    &&& if s0.level() < 0 {
        &&& r == Some(s0.waiting()[0])
        &&& s1.waiting() == s0.waiting().drop_first()
    } else {
        &&& r is None
        &&& s1.waiting() == s0.waiting()
    }
}

/// What happens when thread `tid` asks for a resource: it gets one, or waits.
pub open spec fn lowered(s0: &Semaphore, s1: &Semaphore, tid: usize, r: Wait) -> bool {
    &&& s1.wf()
    &&& s1.level() == s0.level() - 1
    &&& if s0.level() > 0 {
        &&& r == Wait::Acquired
        &&& s1.waiting() == s0.waiting()
    } else {
        &&& r == Wait::Blocked
        &&& s1.waiting() == s0.waiting().push(tid)
    }
}

impl Semaphore {
    /// The resources that are left, less those that threads wait for.
    pub closed spec fn level(&self) -> int {
        self.count as int
    }

    /// The threads that sleep on the semaphore, in the order of their turns.
    pub closed spec fn waiting(&self) -> Seq<usize> {
        self.wait_queue@
    }

    /// Threads sleep only where nothing is left, and the count tells how many.
    pub open spec fn wf(&self) -> bool {
        self.waiting().len() == if self.level() < 0 {
            -self.level()
        } else {
            0
        }
    }

    /// The count is a machine word.
    pub proof fn lemma_level(&self)
        ensures
            isize::MIN <= self.level() <= isize::MAX,
    {
    }

    /// A semaphore with `res_count` resources.
    pub fn new(res_count: usize) -> (r: Self)
        requires
            res_count <= isize::MAX,
        ensures
            r.wf(),
            r.level() == res_count,
            r.waiting() == Seq::<usize>::empty(),
    {
        Semaphore { count: res_count as isize, wait_queue: VecDeque::new() }
    }

    /// Hands a resource back; the thread that gets it is returned, to be woken.
    pub fn up(&mut self) -> (r: Option<usize>)
        requires
            old(self).wf(),
            old(self).level() < isize::MAX,
        ensures
            raised(old(self), final(self), r),
    {
        self.count += 1;
        if self.count <= 0 {
            self.wait_queue.pop_front()
        } else {
            None
        }
    }

    /// Thread `tid` asks for a resource.
    pub fn down(&mut self, tid: usize) -> (r: Wait)
        requires
            old(self).wf(),
            old(self).level() > isize::MIN,
        ensures
            lowered(old(self), final(self), tid, r),
    {
        self.count -= 1;
        if self.count < 0 {
            self.wait_queue.push_back(tid);
            Wait::Blocked
        } else {
            Wait::Acquired
        }
    }

    /// The count.
    pub fn count(&self) -> (r: isize)
        ensures
            r == self.level(),
    {
        self.count
    }

    /// The threads that sleep on the semaphore.
    pub fn blocked_tids(&self) -> (r: Vec<usize>)
        ensures
            r@ == self.waiting(),
    {
        let mut r: Vec<usize> = Vec::new();
        let mut i: usize = 0;
        while i < self.wait_queue.len()
            invariant
                i <= self.wait_queue@.len(),
                r@ =~= self.wait_queue@.subrange(0, i as int),
            decreases self.wait_queue@.len() - i,
        {
            r.push(self.wait_queue[i]);
            i += 1;
        }
        r
    }
}

} // verus!
