//! Mutexes: one whose waiters try again, and one whose waiters sleep.
use std::collections::VecDeque;
use vstd::prelude::*;

verus! {

/// What a thread that asked for something has to do.
#[derive(Clone, Copy, PartialEq, Eq, Structural, Debug)]
pub enum Wait {
    /// It has it, and goes on.
    Acquired,
    /// It lets the others run, and asks again.
    Retry,
    /// It sleeps until another thread hands over to it.
    Blocked,
}

/// The state of a mutex: whether a thread holds it, whether waiters sleep, and the
/// threads that do, in the order of their turns.
pub struct LockState {
    pub held: bool,
    pub sleeping: bool,
    pub waiting: Seq<usize>,
}

/// What happens when thread `tid` asks for a mutex: it gets one that is free, and
/// waits for one that is held.
pub open spec fn asked(m0: LockState, m1: LockState, tid: usize, r: Wait) -> bool {
    &&& m1.held
    &&& m1.sleeping == m0.sleeping
    &&& r == if !m0.held {
        Wait::Acquired
    } else if m0.sleeping {
        Wait::Blocked
    } else {
        Wait::Retry
    }
    &&& m1.waiting == if r == Wait::Blocked {
        m0.waiting.push(tid)
    } else {
        m0.waiting
    }
}

/// What happens when a mutex is given up: the first thread that sleeps on it gets
/// it and is woken; without one, it is free.
pub open spec fn given_up(m0: LockState, m1: LockState, r: Option<usize>) -> bool {
    &&& m1.sleeping == m0.sleeping
    &&& if m0.waiting.len() > 0 {
        &&& r == Some(m0.waiting[0])
        &&& m1.held == m0.held
        &&& m1.waiting == m0.waiting.drop_first()
    } else {
        &&& r is None
        &&& !m1.held
        &&& m1.waiting == m0.waiting
    }
}

/// A mutex. A thread that is woken holds the mutex: it was handed over.
pub trait Mutex: Sized {
    /// The mutex is in order.
    spec fn wf(&self) -> bool;

    /// Whether a thread holds the mutex.
    spec fn held(&self) -> bool;

    /// The threads that sleep on the mutex, in the order of their turns.
    spec fn waiting(&self) -> Seq<usize>;

    /// Whether waiters sleep.
    spec fn sleeping(&self) -> bool;

    /// Thread `tid` asks for the mutex.
    fn lock(&mut self, tid: usize) -> (r: Wait)
        requires
            old(self).wf(),
        ensures
            final(self).wf(),
            asked(
                (LockState {
                    held: old(self).held(),
                    sleeping: old(self).sleeping(),
                    waiting: old(self).waiting(),
                }),
                (LockState {
                    held: final(self).held(),
                    sleeping: final(self).sleeping(),
                    waiting: final(self).waiting(),
                }),
                tid,
                r,
            ),
    ;

    /// Gives the mutex up; the thread that gets it is returned, to be woken.
    /// A mutex whose waiters sleep must be held.
    fn unlock(&mut self) -> (r: Option<usize>)
        requires
            old(self).wf(),
            old(self).sleeping() ==> old(self).held(),
        ensures
            final(self).wf(),
            given_up(
                (LockState {
                    held: old(self).held(),
                    sleeping: old(self).sleeping(),
                    waiting: old(self).waiting(),
                }),
                (LockState {
                    held: final(self).held(),
                    sleeping: final(self).sleeping(),
                    waiting: final(self).waiting(),
                }),
                r,
            ),
    ;

    /// The threads that sleep on the mutex.
    fn blocked_tids(&self) -> (r: Vec<usize>)
        requires
            self.wf(),
        ensures
            r@ == self.waiting(),
    ;

    /// Whether a thread holds the mutex.
    fn locked(&self) -> (r: bool)
        ensures
            r == self.held(),
    ;
}

/// Spinlock mutex.
pub struct MutexSpin {
    locked: bool,
}

impl MutexSpin {
    /// A free spinlock mutex.
    pub fn new() -> (r: Self)
        ensures
            r.wf(),
            !r.held(),
            !r.sleeping(),
            r.waiting() == Seq::<usize>::empty(),
    {
        MutexSpin { locked: false }
    }
}

impl Mutex for MutexSpin {
    closed spec fn wf(&self) -> bool {
        true
    }

    closed spec fn held(&self) -> bool {
        self.locked
    }

    closed spec fn waiting(&self) -> Seq<usize> {
        Seq::empty()
    }

    closed spec fn sleeping(&self) -> bool {
        false
    }

    fn lock(&mut self, tid: usize) -> (r: Wait) {
        if self.locked {
            Wait::Retry
        } else {
            self.locked = true;
            Wait::Acquired
        }
    }

    fn unlock(&mut self) -> (r: Option<usize>) {
        self.locked = false;
        None
    }

    fn blocked_tids(&self) -> (r: Vec<usize>) {
        Vec::new()
    }

    fn locked(&self) -> (r: bool) {
        self.locked
    }
}

/// Blocking mutex: the threads that wait for it sleep in a queue.
pub struct MutexBlocking {
    locked: bool,
    wait_queue: VecDeque<usize>,
}

impl MutexBlocking {
    /// A free blocking mutex.
    pub fn new() -> (r: Self)
        ensures
            r.wf(),
            !r.held(),
            r.sleeping(),
            r.waiting() == Seq::<usize>::empty(),
    {
        MutexBlocking { locked: false, wait_queue: VecDeque::new() }
    }
}

impl Mutex for MutexBlocking {
    closed spec fn wf(&self) -> bool {
        !self.locked ==> self.wait_queue@.len() == 0
    }

    closed spec fn held(&self) -> bool {
        self.locked
    }

    closed spec fn waiting(&self) -> Seq<usize> {
        self.wait_queue@
    }

    closed spec fn sleeping(&self) -> bool {
        true
    }

    fn lock(&mut self, tid: usize) -> (r: Wait) {
        if self.locked {
            self.wait_queue.push_back(tid);
            Wait::Blocked
        } else {
            self.locked = true;
            Wait::Acquired
        }
    }

    fn unlock(&mut self) -> (r: Option<usize>) {
        match self.wait_queue.pop_front() {
            Some(waking) => Some(waking),
            None => {
                self.locked = false;
                None
            },
        }
    }

    fn blocked_tids(&self) -> (r: Vec<usize>) {
        let mut r: Vec<usize> = Vec::new();
        let mut i: usize = 0;
        while i < self.wait_queue.len()
            invariant
                i <= self.wait_queue@.len(),
                r@ =~= self.wait_queue@.subrange(0, i as int),
            decreases self.wait_queue@.len() - i,
        {
            r.push(self.wait_queue[i]);
            i += 1;
        }
        r
    }

    fn locked(&self) -> (r: bool) {
        self.locked
    }
}

/// Either kind of mutex.
pub enum KernelMutex {
    Spin(MutexSpin),
    Blocking(MutexBlocking),
}

impl Mutex for KernelMutex {
    open spec fn wf(&self) -> bool {
        match self {
            KernelMutex::Spin(m) => m.wf(),
            KernelMutex::Blocking(m) => m.wf(),
        }
    }

    open spec fn held(&self) -> bool {
        match self {
            KernelMutex::Spin(m) => m.held(),
            KernelMutex::Blocking(m) => m.held(),
        }
    }

    open spec fn waiting(&self) -> Seq<usize> {
        match self {
            KernelMutex::Spin(m) => m.waiting(),
            KernelMutex::Blocking(m) => m.waiting(),
        }
    }

    open spec fn sleeping(&self) -> bool {
        match self {
            KernelMutex::Spin(m) => m.sleeping(),
            KernelMutex::Blocking(m) => m.sleeping(),
        }
    }

    fn lock(&mut self, tid: usize) -> (r: Wait) {
        match self {
            KernelMutex::Spin(m) => m.lock(tid),
            KernelMutex::Blocking(m) => m.lock(tid),
        }
    }

    fn unlock(&mut self) -> (r: Option<usize>) {
        match self {
            KernelMutex::Spin(m) => m.unlock(),
            KernelMutex::Blocking(m) => m.unlock(),
        }
    }

    fn blocked_tids(&self) -> (r: Vec<usize>) {
        match self {
            KernelMutex::Spin(m) => m.blocked_tids(),
            KernelMutex::Blocking(m) => m.blocked_tids(),
        }
    }

    fn locked(&self) -> (r: bool) {
        match self {
            KernelMutex::Spin(m) => m.locked(),
            KernelMutex::Blocking(m) => m.locked(),
        }
    }
}

} // verus!
