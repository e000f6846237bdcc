//! What holds of locks over several calls.
use super::condvar;
use super::condvar::Condvar;
use super::mutex;
use super::mutex::{LockState, Wait};
use super::semaphore;
use super::semaphore::Semaphore;
use vstd::prelude::*;

verus! {

/// A thread that locks a free mutex has it, no other gets it before it is given
/// up, and then it is free again.
pub proof fn law_lock_unlock(
    m0: LockState,
    m1: LockState,
    m2: LockState,
    m3: LockState,
    tid: usize,
    other: usize,
    r1: Wait,
    r2: Wait,
    r3: Option<usize>,
)
    requires
        !m0.held,
        m0.waiting.len() == 0,
        mutex::asked(m0, m1, tid, r1),
        mutex::asked(m1, m2, other, r2),
        mutex::given_up(m1, m3, r3),
    ensures
        r1 == Wait::Acquired,
        r2 != Wait::Acquired,
        r3 is None,
        !m3.held,
        m3.waiting == m0.waiting,
{
}

/// A thread that sleeps on a mutex gets it when those before it have had it: with
/// none before it, from the thread that has it now. The mutex is never free in
/// between.
pub proof fn law_handed_over(
    m0: LockState,
    m1: LockState,
    m2: LockState,
    tid: usize,
    r1: Wait,
    r2: Option<usize>,
)
    requires
        m0.held,
        m0.sleeping,
        mutex::asked(m0, m1, tid, r1),
        mutex::given_up(m1, m2, r2),
    ensures
        r1 == Wait::Blocked,
        m2.held,
        m0.waiting.len() == 0 ==> r2 == Some(tid) && m2.waiting.len() == 0,
        m0.waiting.len() > 0 ==> r2 == Some(m0.waiting[0]) && m2.waiting
            == m0.waiting.drop_first().push(tid),
{
    if m0.waiting.len() > 0 {
        assert(m0.waiting.push(tid).drop_first() =~= m0.waiting.drop_first().push(tid));
    }
}

/// Handing a resource back undoes having got it.
pub proof fn law_down_up(
    s0: &Semaphore,
    s1: &Semaphore,
    s2: &Semaphore,
    tid: usize,
    r2: Option<usize>,
)
    requires
        s0.wf(),
        semaphore::lowered(s0, s1, tid, Wait::Acquired),
        semaphore::raised(s1, s2, r2),
    ensures
        r2 is None,
        s2.level() == s0.level(),
        s2.waiting() == s0.waiting(),
{
}

/// A thread that finds no resource waits behind the others, and the next resource
/// goes to the first of them.
pub proof fn law_down_waits(
    s0: &Semaphore,
    s1: &Semaphore,
    s2: &Semaphore,
    tid: usize,
    r2: Option<usize>,
)
    requires
        s0.wf(),
        semaphore::lowered(s0, s1, tid, Wait::Blocked),
        semaphore::raised(s1, s2, r2),
    ensures
        s2.level() == s0.level(),
        s0.waiting().len() == 0 ==> r2 == Some(tid) && s2.waiting().len() == 0,
        s0.waiting().len() > 0 ==> r2 == Some(s0.waiting()[0]) && s2.waiting()
            == s0.waiting().drop_first().push(tid),
{
    if s0.waiting().len() > 0 {
        assert(s0.waiting().push(tid).drop_first() =~= s0.waiting().drop_first().push(tid));
    }
}

/// A signal wakes a thread that waits alone, and nobody is left.
pub proof fn law_wait_signal(
    c0: &Condvar,
    c1: &Condvar,
    c2: &Condvar,
    tid: usize,
    r: Option<usize>,
)
    requires
        c0.waiting().len() == 0,
        c1.waiting() == c0.waiting().push(tid),
        condvar::signalled(c1, c2, r),
    ensures
        r == Some(tid),
        c2.waiting() == c0.waiting(),
{
    assert(c2.waiting() =~= c0.waiting());
}

/// Asking for a mutex takes nobody out of the queue: each thread that sleeps on it
/// keeps its place, and one that has to sleep comes last.
pub proof fn law_ask_keeps_order(m0: LockState, m1: LockState, tid: usize, r: Wait, i: int)
    requires
        mutex::asked(m0, m1, tid, r),
        0 <= i < m0.waiting.len(),
    ensures
        m1.held,
        (r == Wait::Acquired) == !m0.held,
        (r == Wait::Blocked) == (m0.held && m0.sleeping),
        m1.waiting[i] == m0.waiting[i],
        r == Wait::Blocked ==> m1.waiting.len() == m0.waiting.len() + 1 && m1.waiting.last() == tid,
        r != Wait::Blocked ==> m1.waiting.len() == m0.waiting.len(),
{
}

/// A mutex that is given up goes to the first thread that sleeps on it, and all others
/// move up; it is free only where nobody sleeps on it.
pub proof fn law_give_up_in_order(m0: LockState, m1: LockState, r: Option<usize>, i: int)
    requires
        mutex::given_up(m0, m1, r),
        m0.held,
        0 < i < m0.waiting.len(),
    ensures
        m1.held,
        r == Some(m0.waiting[0]),
        m1.waiting[i - 1] == m0.waiting[i],
        m1.waiting.len() == m0.waiting.len() - 1,
{
}

/// A resource that is handed back wakes the first thread that sleeps, and all others
/// move up.
pub proof fn law_raise_in_order(s0: &Semaphore, s1: &Semaphore, r: Option<usize>, i: int)
    requires
        s0.wf(),
        semaphore::raised(s0, s1, r),
        0 < i < s0.waiting().len(),
    ensures
        r == Some(s0.waiting()[0]),
        s1.waiting()[i - 1] == s0.waiting()[i],
        s1.waiting().len() == s0.waiting().len() - 1,
        s1.level() == s0.level() + 1,
{
}

/// Taking of a semaphore takes nobody out of the queue: each thread that sleeps on it
/// keeps its place. It sleeps just where nothing is left.
pub proof fn law_lower_keeps_order(s0: &Semaphore, s1: &Semaphore, tid: usize, r: Wait, i: int)
    requires
        s0.wf(),
        semaphore::lowered(s0, s1, tid, r),
        0 <= i < s0.waiting().len(),
    ensures
        r == Wait::Blocked,
        s1.waiting()[i] == s0.waiting()[i],
        s1.waiting().len() == s0.waiting().len() + 1,
        s1.waiting().last() == tid,
        s1.level() == s0.level() - 1,
{
}

/// A thread gets a resource just where one is left.
pub proof fn law_lower_outcome(s0: &Semaphore, s1: &Semaphore, tid: usize, r: Wait)
    requires
        semaphore::lowered(s0, s1, tid, r),
    ensures
        (r == Wait::Acquired) == (s0.level() > 0),
        (r == Wait::Blocked) == (s0.level() <= 0),
        r == Wait::Acquired ==> s1.waiting() == s0.waiting(),
{
}

/// Signals wake the threads in the order in which they began to wait.
pub proof fn law_signal_in_order(c0: &Condvar, c1: &Condvar, r: Option<usize>, i: int)
    requires
        condvar::signalled(c0, c1, r),
        0 <= i < c0.waiting().len(),
    ensures
        r == Some(c0.waiting()[0]),
        i > 0 ==> c1.waiting()[i - 1] == c0.waiting()[i],
        c1.waiting().len() == c0.waiting().len() - 1,
{
}

/// A signal that nobody waits for is lost.
pub proof fn law_signal_lost(c0: &Condvar, c1: &Condvar, r: Option<usize>)
    requires
        condvar::signalled(c0, c1, r),
        c0.waiting().len() == 0,
    ensures
        r is None,
        c1.waiting().len() == 0,
{
}

} // verus!
