//! Condition variables.
use super::mutex;
use super::mutex::Mutex;
use std::collections::VecDeque;
use vstd::prelude::*;

verus! {

/// A condition variable: the threads that wait for the condition.
pub struct Condvar {
    wait_queue: VecDeque<usize>,
}

/// What a signal does: the first waiting thread is woken, if there is one.
pub open spec fn signalled(c0: &Condvar, c1: &Condvar, r: Option<usize>) -> bool {
    if c0.waiting().len() > 0 {
        &&& r == Some(c0.waiting()[0])
        &&& c1.waiting() == c0.waiting().drop_first()
    } else {
        &&& r is None
        &&& c1.waiting() == c0.waiting()
    }
}

impl Condvar {
    /// The waiting threads, in the order of their turns.
    pub closed spec fn waiting(&self) -> Seq<usize> {
        self.wait_queue@
    }

    /// A condition variable that nobody waits for.
    pub fn new() -> (r: Self)
        ensures
            r.waiting() == Seq::<usize>::empty(),
    {
        Condvar { wait_queue: VecDeque::new() }
    }

    /// Takes the first waiting thread out; it is returned, to be woken.
    pub fn signal(&mut self) -> (r: Option<usize>)
        ensures
            signalled(old(self), final(self), r),
    {
        self.wait_queue.pop_front()
    }

    /// Thread `tid` gives the mutex up and sleeps until a signal; then it has
    /// to lock the mutex again. The thread that gets the mutex is returned, to
    /// be woken.
    pub fn wait<M: Mutex>(&mut self, tid: usize, mutex: &mut M) -> (r: Option<usize>)
        requires
            old(mutex).wf(),
            old(mutex).sleeping() ==> old(mutex).held(),
        ensures
            final(self).waiting() == old(self).waiting().push(tid),
            final(mutex).wf(),
            mutex::given_up(
                (mutex::LockState {
                    held: old(mutex).held(),
                    sleeping: old(mutex).sleeping(),
                    waiting: old(mutex).waiting(),
                }),
                (mutex::LockState {
                    held: final(mutex).held(),
                    sleeping: final(mutex).sleeping(),
                    waiting: final(mutex).waiting(),
                }),
                r,
            ),
    {
        let woken: Option<usize> = mutex.unlock();
        self.wait_queue.push_back(tid);
        woken
    }
}

} // verus!
