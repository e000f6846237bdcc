//! Who gets a mutex, a semaphore or a signal, and who waits for it.
use super::sync;
use super::Step;
use crate::sync::condvar::Condvar;
use crate::sync::mutex::{KernelMutex, Mutex};
use crate::sync::semaphore::Semaphore;
use crate::sync::utils;
use crate::task::process::Process;
use vstd::prelude::*;

verus! {

/// A thread gets a mutex that is free at once; all other mutexes stay as they are.
pub proof fn law_lock_free(p0: &Process, p1: &Process, tid: usize, id: int, r: Step, j: int)
    requires
        sync::lock_step(p0, p1, tid, id, r),
        0 <= id < p0.mutex_list@.len(),
        0 <= j < p0.mutex_list@.len(),
        !p0.mutex_list@[id]->0.held(),
        p0.mutex_list@[id] is Some,
    ensures
        r == Step::Done(0),
        p1.mutex_list@[id] is Some,
        p1.mutex_list@[id]->0.held(),
        p1.mutex_list@[id]->0.waiting() == p0.mutex_list@[id]->0.waiting(),
        j != id ==> p1.mutex_list@[j] == p0.mutex_list@[j],
        p1.threads == p0.threads,
        p1.deadlock_detect == p0.deadlock_detect,
        p1.semaphore_list == p0.semaphore_list,
        p1.condvar_list == p0.condvar_list,
{
}

/// A thread that asks for a mutex which is held sleeps behind those that do, or tries
/// again; who holds what stays as it is noted.
pub proof fn law_lock_held(p0: &Process, p1: &Process, tid: usize, id: int, r: Step, i: int)
    requires
        sync::lock_step(p0, p1, tid, id, r),
        0 <= id < p0.mutex_list@.len(),
        p0.mutex_list@[id] is Some,
        p0.mutex_list@[id]->0.held(),
    ensures
        ({
            let m0 = p0.mutex_list@[id]->0;
            let m1 = p1.mutex_list@[id]->0;
            &&& p1.mutex_list@[id] is Some
            &&& m1.held()
            &&& m1.sleeping() == m0.sleeping()
            &&& 0 <= i < m0.waiting().len() ==> m1.waiting()[i] == m0.waiting()[i]
            &&& m0.sleeping() ==> r == Step::Block && m1.waiting().len() == m0.waiting().len() + 1
                && m1.waiting().last() == tid
            &&& !m0.sleeping() ==> r == Step::Yield && m1.waiting() == m0.waiting()
            &&& p1.mutex_allocation == p0.mutex_allocation
        }),
{
}

/// A mutex that is given up goes to the first thread that sleeps on it, and is held on;
/// it is free where nobody does. All other mutexes stay as they are.
pub proof fn law_unlock(
    l0: Seq<Option<KernelMutex>>,
    l1: Seq<Option<KernelMutex>>,
    id: int,
    woken: Option<usize>,
    i: int,
    j: int,
)
    requires
        sync::unlock_step(l0, l1, id, woken),
        0 <= id < l0.len(),
        0 <= j < l0.len(),
        l0[id] is Some,
    ensures
        ({
            let m0 = l0[id]->0;
            let m1 = l1[id]->0;
            &&& l1[id] is Some
            &&& l1.len() == l0.len()
            &&& j != id ==> l1[j] == l0[j]
            &&& m1.sleeping() == m0.sleeping()
            &&& m0.waiting().len() == 0 ==> woken is None && !m1.held() && m1.waiting().len() == 0
            &&& m0.waiting().len() > 0 ==> woken == Some(m0.waiting()[0]) && m1.held() == m0.held()
                && m1.waiting().len() == m0.waiting().len() - 1
            &&& 0 < i < m0.waiting().len() ==> m1.waiting()[i - 1] == m0.waiting()[i]
        }),
{
}

/// A thread that locked a free mutex and gives it up leaves the mutexes as they were.
pub proof fn law_lock_unlock(
    p0: &Process,
    p1: &Process,
    l2: Seq<Option<KernelMutex>>,
    tid: usize,
    id: int,
    r: Step,
    woken: Option<usize>,
)
    requires
        sync::lock_step(p0, p1, tid, id, r),
        0 <= id < p0.mutex_list@.len(),
        p0.mutex_list@[id] is Some,
        !p0.mutex_list@[id]->0.held(),
        p0.mutex_list@[id]->0.waiting().len() == 0,
        sync::unlock_step(p1.mutex_list@, l2, id, woken),
    ensures
        r == Step::Done(0),
        woken is None,
        l2[id] is Some,
        !l2[id]->0.held(),
        l2[id]->0.waiting().len() == 0,
        l2[id]->0.sleeping() == p0.mutex_list@[id]->0.sleeping(),
{
    law_lock_free(p0, p1, tid, id, r, id);
    law_unlock(p1.mutex_list@, l2, id, woken, 0, id);
}

/// A thread that was woken by a signal asks for the mutex like any other.
pub proof fn law_relock(
    l0: Seq<Option<KernelMutex>>,
    l1: Seq<Option<KernelMutex>>,
    id: int,
    tid: usize,
    r: Step,
)
    requires
        sync::relock_step(l0, l1, id, tid, r),
        0 <= id < l0.len(),
        l0[id] is Some,
    ensures
        ({
            let m0 = l0[id]->0;
            let m1 = l1[id]->0;
            &&& l1[id] is Some
            &&& m1.held()
            &&& !m0.held() ==> r == Step::Done(0) && m1.waiting() == m0.waiting()
            &&& m0.held() && m0.sleeping() ==> r == Step::Block && m1.waiting()
                == m0.waiting().push(tid)
            &&& m0.held() && !m0.sleeping() ==> r == Step::Yield && m1.waiting() == m0.waiting()
        }),
{
}

/// A thread takes of a semaphore where something is left, and sleeps behind the others
/// where not. Only what it gets is counted, and only while deadlocks are detected.
pub proof fn law_down(
    p0: &Process,
    rows: Seq<Seq<usize>>,
    p1: &Process,
    tid: usize,
    id: int,
    r: Step,
    i: int,
    j: int,
)
    requires
        sync::down_step(p0, rows, p1, tid, id, r),
        0 <= id < p0.semaphore_list@.len(),
        p0.semaphore_list@[id] is Some,
        tid < rows.len(),
        id < rows[tid as int].len(),
        rows[tid as int][id] < usize::MAX,
        0 <= i < rows.len(),
        0 <= j < rows[i].len(),
    ensures
        ({
            let s0 = p0.semaphore_list@[id]->0;
            let s1 = p1.semaphore_list@[id]->0;
            &&& p1.semaphore_list@[id] is Some
            &&& s1.level() == s0.level() - 1
            &&& s0.level() > 0 ==> r == Step::Done(0) && s1.waiting() == s0.waiting()
            &&& s0.level() <= 0 ==> r == Step::Block && s1.waiting() == s0.waiting().push(tid)
            &&& utils::rows(p1.semaphore_allocation@)[i][j] == rows[i][j] + (if s0.level() > 0
                && p0.deadlock_detect && i == tid && j == id {
                1int
            } else {
                0
            })
        }),
{
}

/// A resource that is handed back goes to the first thread that sleeps on the
/// semaphore, if one does; otherwise it is left.
pub proof fn law_up(
    l0: Seq<Option<Semaphore>>,
    l1: Seq<Option<Semaphore>>,
    id: int,
    woken: Option<usize>,
    i: int,
    j: int,
)
    requires
        sync::up_step(l0, l1, id, woken),
        0 <= id < l0.len(),
        0 <= j < l0.len(),
        l0[id] is Some,
        l0[id]->0.wf(),
    ensures
        ({
            let s0 = l0[id]->0;
            let s1 = l1[id]->0;
            &&& l1[id] is Some
            &&& j != id ==> l1[j] == l0[j]
            &&& s1.level() == s0.level() + 1
            &&& s0.waiting().len() == 0 ==> woken is None && s1.waiting().len() == 0
            &&& s0.waiting().len() > 0 ==> woken == Some(s0.waiting()[0]) && s1.waiting().len()
                == s0.waiting().len() - 1
            &&& 0 < i < s0.waiting().len() ==> s1.waiting()[i - 1] == s0.waiting()[i]
        }),
{
}

/// Handing back what was taken undoes the count.
pub proof fn law_counted_back(rows: Seq<Seq<usize>>, tid: int, id: int)
    requires
        0 <= tid < rows.len(),
        0 <= id < rows[tid].len(),
        rows[tid][id] < usize::MAX,
    ensures
        sync::counted(sync::counted(rows, tid, id, 1), tid, id, -1) == rows,
{
    let up = sync::counted(rows, tid, id, 1);
    let back = sync::counted(up, tid, id, -1);
    assert(up[tid][id] == rows[tid][id] + 1);
    assert(back[tid] =~= rows[tid]);
    assert(back =~= rows);
}

/// A thread that waits for a condition waits behind all others, and a signal wakes the
/// first of them.
pub proof fn law_wait_signal(
    l0: Seq<Option<Condvar>>,
    l1: Seq<Option<Condvar>>,
    l2: Seq<Option<Condvar>>,
    id: int,
    tid: usize,
    woken: Option<usize>,
)
    requires
        sync::wait_step(l0, l1, id, tid),
        sync::signal_step(l1, l2, id, woken),
        0 <= id < l0.len(),
        l0[id] is Some,
    ensures
        l1[id] is Some,
        l2[id] is Some,
        l1[id]->0.waiting() == l0[id]->0.waiting().push(tid),
        l0[id]->0.waiting().len() == 0 ==> woken == Some(tid) && l2[id]->0.waiting().len() == 0,
        l0[id]->0.waiting().len() > 0 ==> woken == Some(l0[id]->0.waiting()[0])
            && l2[id]->0.waiting() == l0[id]->0.waiting().drop_first().push(tid),
{
    let w = l0[id]->0.waiting();
    if w.len() > 0 {
        assert(w.push(tid).drop_first() =~= w.drop_first().push(tid));
    }
}

/// A signal that nobody waits for changes nothing for the next thread that waits.
pub proof fn law_signal_lost(
    l0: Seq<Option<Condvar>>,
    l1: Seq<Option<Condvar>>,
    id: int,
    woken: Option<usize>,
    j: int,
)
    requires
        sync::signal_step(l0, l1, id, woken),
        0 <= id < l0.len(),
        0 <= j < l0.len(),
        l0[id] is Some,
        l0[id]->0.waiting().len() == 0,
    ensures
        woken is None,
        l1[id] is Some,
        l1[id]->0.waiting().len() == 0,
        j != id ==> l1[j] == l0[j],
{
}

/// A new mutex is free, a new semaphore has the resources that it is made with, and
/// nobody waits for them.
pub proof fn law_fresh(m: KernelMutex, blocking: bool, s: Semaphore, count: int)
    requires
        sync::fresh_mutex(m, blocking),
        sync::fresh_semaphore(s, count),
    ensures
        !m.held(),
        m.sleeping() == blocking,
        m.waiting().len() == 0,
        s.level() == count,
        s.waiting().len() == 0,
{
}

} // verus!
