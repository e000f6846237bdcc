//! What a thread can rely on when a call on a mutex, a semaphore, a condition variable or
//! a timer has returned.
use super::deadlock;
use super::handover;
use super::sync;
use super::sync::Timer;
use super::Step;
use crate::sync::mutex::Mutex;
use crate::sync::utils;
use crate::task::process;
use crate::task::process::Process;
use vstd::prelude::*;

verus! {

/// A thread is refused a mutex that would close a cycle of threads, each of which waits
/// for a mutex that the next alone holds; the process stays as it is.
pub proof fn law_lock_refused(
    p: &mut Process,
    tid: usize,
    id: usize,
    r: Step,
    c: Seq<int>,
    b: Seq<int>,
)
    requires
        call_ensures(sync::sys_mutex_lock, (p, tid, id), r),
        sync::can_lock(old(p), tid as int, id as int),
        old(p).deadlock_detect,
        forall|j: int|
            0 <= j < old(p).mutex_list@.len() ==> #[trigger] old(p).mutex_list@[j] is Some,
        c.len() > 0,
        b.len() == c.len(),
        forall|x: int| 0 <= x < c.len() ==> 0 <= #[trigger] c[x] < old(p).threads,
        forall|x: int| 0 <= x < c.len() ==> 0 <= #[trigger] b[x] < old(p).mutex_list@.len(),
        forall|x: int|
            #![trigger b[x]]
            0 <= x < c.len() ==> old(p).mutex_list@[b[x]]->0.held() && (
            old(p).mutex_list@[b[x]]->0.waiting().contains(c[x] as usize) || (c[x] == tid && b[x]
                == id)),
        forall|x: int, i: int|
            #![trigger b[x], old(p).mutex_allocation@[i]]
            0 <= x < c.len() && 0 <= i < old(p).threads && i != c[(x + 1) % (c.len() as int)]
                ==> old(p).mutex_allocation@[i]@[b[x]] == 0,
    ensures
        r == Step::Done(-0xdeadisize),
        *final(p) == *old(p),
{
    deadlock::law_lock_cycle_refused(&*old(p), tid as int, id as int, c, b);
}

/// A thread is refused a semaphore that would close such a cycle.
pub proof fn law_down_refused(
    p: &mut Process,
    tid: usize,
    id: usize,
    r: Step,
    c: Seq<int>,
    b: Seq<int>,
)
    requires
        call_ensures(sync::sys_semaphore_down, (p, tid, id), r),
        sync::can_use(old(p), tid as int, id as int),
        old(p).deadlock_detect,
        forall|j: int|
            0 <= j < old(p).semaphore_list@.len() ==> #[trigger] old(p).semaphore_list@[j] is Some,
        c.len() > 0,
        b.len() == c.len(),
        forall|x: int| 0 <= x < c.len() ==> 0 <= #[trigger] c[x] < old(p).threads,
        forall|x: int| 0 <= x < c.len() ==> 0 <= #[trigger] b[x] < old(p).semaphore_list@.len(),
        forall|x: int|
            #![trigger b[x]]
            0 <= x < c.len() ==> old(p).semaphore_list@[b[x]]->0.level() <= 0 && (
            old(p).semaphore_list@[b[x]]->0.waiting().contains(c[x] as usize) || (c[x] == tid
                && b[x] == id)),
        forall|x: int, i: int|
            #![trigger b[x], old(p).semaphore_allocation@[i]]
            0 <= x < c.len() && 0 <= i < old(p).threads && i != c[(x + 1) % (c.len() as int)] && b[x]
                < old(p).semaphore_allocation@[i]@.len() ==> old(p).semaphore_allocation@[i]@[b[x]]
                == 0,
    ensures
        r == Step::Done(-0xdeadisize),
        final(p).semaphore_list == old(p).semaphore_list,
{
    deadlock::law_down_cycle_refused(&*old(p), tid as int, id as int, c, b);
}

/// Without detection, a thread takes of a semaphore where something is left, and sleeps
/// where not.
pub proof fn law_down(p: &mut Process, tid: usize, id: usize, r: Step)
    requires
        call_ensures(sync::sys_semaphore_down, (p, tid, id), r),
        sync::can_use(old(p), tid as int, id as int),
        !old(p).deadlock_detect,
    ensures
        ({
            let s0 = old(p).semaphore_list@[id as int]->0;
            let s1 = final(p).semaphore_list@[id as int]->0;
            &&& final(p).semaphore_list@[id as int] is Some
            &&& s1.level() == s0.level() - 1
            &&& s0.level() > 0 ==> r == Step::Done(0) && s1.waiting() == s0.waiting()
            &&& s0.level() <= 0 ==> r == Step::Block && s1.waiting() == s0.waiting().push(tid)
        }),
{
    deadlock::law_no_detection(&*old(p), tid as int, id as int);
}

/// A resource that is handed back goes to the first thread that sleeps on the semaphore.
pub proof fn law_up(p: &mut Process, tid: usize, id: usize, r: (isize, Option<usize>), j: int)
    requires
        call_ensures(sync::sys_semaphore_up, (p, tid, id), r),
        sync::can_use(old(p), tid as int, id as int),
        0 <= j < old(p).semaphore_list@.len(),
    ensures
        ({
            let s0 = old(p).semaphore_list@[id as int]->0;
            let s1 = final(p).semaphore_list@[id as int]->0;
            &&& r.0 == 0
            &&& s1.level() == s0.level() + 1
            &&& s0.waiting().len() == 0 ==> r.1 is None
            &&& s0.waiting().len() > 0 ==> r.1 == Some(s0.waiting()[0]) && s1.waiting()
                == s0.waiting().drop_first()
            &&& j != id ==> final(p).semaphore_list@[j] == old(p).semaphore_list@[j]
        }),
{
    let s0 = old(p).semaphore_list@[id as int]->0;
    assert(old(p).semaphore_list@[id as int] is Some);
}

/// A mutex that is unlocked goes to the first thread that sleeps on it, or is free; the
/// thread that unlocks it is not noted for it any more.
pub proof fn law_unlock(p: &mut Process, tid: usize, id: usize, r: (isize, Option<usize>), j: int)
    requires
        call_ensures(sync::sys_mutex_unlock, (p, tid, id), r),
        sync::can_lock(old(p), tid as int, id as int),
        0 <= j < old(p).mutex_list@.len(),
    ensures
        ({
            let m0 = old(p).mutex_list@[id as int]->0;
            let m1 = final(p).mutex_list@[id as int]->0;
            &&& r.0 == 0
            &&& m0.waiting().len() == 0 ==> r.1 is None && !m1.held()
            &&& m0.waiting().len() > 0 ==> r.1 == Some(m0.waiting()[0]) && m1.held() == m0.held()
                && m1.waiting() == m0.waiting().drop_first()
            &&& j != id ==> final(p).mutex_list@[j] == old(p).mutex_list@[j]
            &&& old(p).deadlock_detect ==> final(p).mutex_allocation@[tid as int]@[id as int] == 0
        }),
{
    handover::law_unlock(old(p).mutex_list@, final(p).mutex_list@, id as int, r.1, 0, j);
    deadlock::law_noted(&*old(p), tid as int, id as int, 0, tid as int, id as int);
    let rows = utils::rows(final(p).mutex_allocation@);
    assert(rows[tid as int] == final(p).mutex_allocation@[tid as int]@);
}

/// A new mutex has the lowest number that is free; it is free, and no thread is noted
/// for it.
pub proof fn law_mutex_create(p: &mut Process, blocking: bool, r: isize, i: int, j: int)
    requires
        call_ensures(sync::sys_mutex_create, (p, blocking), r),
        old(p).mutexes_wf(),
        0 <= i < old(p).threads,
    ensures
        0 <= r <= old(p).mutex_list@.len(),
        r < old(p).mutex_list@.len() ==> old(p).mutex_list@[r as int] is None,
        0 <= j < r ==> old(p).mutex_list@[j] is Some,
        0 <= j < old(p).mutex_list@.len() && j != r ==> final(p).mutex_list@[j]
            == old(p).mutex_list@[j],
        final(p).mutex_list@[r as int] is Some,
        !final(p).mutex_list@[r as int]->0.held(),
        final(p).mutex_list@[r as int]->0.waiting().len() == 0,
        final(p).mutex_list@[r as int]->0.sleeping() == blocking,
        final(p).mutex_allocation@[i]@[r as int] == 0,
{
    process::law_lowest_free(old(p).mutex_list@, 0);
    let rows0 = utils::rows(old(p).mutex_allocation@);
    let rows1 = utils::rows(final(p).mutex_allocation@);
    assert(rows0[i] == old(p).mutex_allocation@[i]@);
    assert(rows1.len() == rows0.len());
    assert(rows1[i] == final(p).mutex_allocation@[i]@);
    deadlock::law_created_unheld(rows0, r as int, i, r as int);
}

/// A new semaphore has the lowest number that is free, and the resources that it is made
/// with.
pub proof fn law_semaphore_create(p: &mut Process, count: usize, r: isize, j: int)
    requires
        call_ensures(sync::sys_semaphore_create, (p, count), r),
        old(p).semaphores_wf(),
    ensures
        0 <= r <= old(p).semaphore_list@.len(),
        r < old(p).semaphore_list@.len() ==> old(p).semaphore_list@[r as int] is None,
        0 <= j < r ==> old(p).semaphore_list@[j] is Some,
        0 <= j < old(p).semaphore_list@.len() && j != r ==> final(p).semaphore_list@[j]
            == old(p).semaphore_list@[j],
        final(p).semaphore_list@[r as int] is Some,
        final(p).semaphore_list@[r as int]->0.level() == count,
        final(p).semaphore_list@[r as int]->0.waiting().len() == 0,
{
    process::law_lowest_free(old(p).semaphore_list@, 0);
}

/// A thread that waits for a condition gives the mutex up and waits behind the others; a
/// signal wakes the first of them.
pub proof fn law_condvar_wait(
    p: &mut Process,
    tid: usize,
    cid: usize,
    id: usize,
    r: (Step, Option<usize>),
)
    requires
        call_ensures(sync::sys_condvar_wait, (p, tid, cid, id), r),
        sync::can_lock(old(p), tid as int, id as int),
        cid < old(p).condvar_list@.len(),
        old(p).condvar_list@[cid as int] is Some,
    ensures
        ({
            let m0 = old(p).mutex_list@[id as int]->0;
            &&& r.0 == Step::Block
            &&& final(p).condvar_list@[cid as int] is Some
            &&& final(p).condvar_list@[cid as int]->0.waiting() == old(p).condvar_list@[cid as int]->0.waiting().push(tid)
            &&& m0.waiting().len() == 0 ==> r.1 is None && !final(p).mutex_list@[id as int]->0.held()
            &&& m0.waiting().len() > 0 ==> r.1 == Some(m0.waiting()[0])
        }),
{
    handover::law_unlock(old(p).mutex_list@, final(p).mutex_list@, id as int, r.1, 0, id as int);
}

/// A signal wakes the thread that has waited longest, if one waits.
pub proof fn law_condvar_signal(p: &mut Process, cid: usize, r: (isize, Option<usize>))
    requires
        call_ensures(sync::sys_condvar_signal, (p, cid), r),
        cid < old(p).condvar_list@.len(),
        old(p).condvar_list@[cid as int] is Some,
    ensures
        ({
            let w = old(p).condvar_list@[cid as int]->0.waiting();
            &&& r.0 == 0
            &&& w.len() == 0 ==> r.1 is None && final(p).condvar_list@[cid as int]->0.waiting() == w
            &&& w.len() > 0 ==> r.1 == Some(w[0]) && final(p).condvar_list@[cid as int]->0.waiting()
                == w.drop_first()
        }),
{
}

/// Detection is switched off by 0 and on by 1, and any other number is refused.
pub proof fn law_detect(p: &mut Process, enabled: usize, r: isize)
    requires
        call_ensures(sync::sys_enable_deadlock_detect, (p, enabled), r),
    ensures
        enabled == 0 ==> r == 0 && !final(p).deadlock_detect,
        enabled == 1 ==> r == 0 && final(p).deadlock_detect,
        enabled > 1 ==> r == -1 && *final(p) == *old(p),
        final(p).mutex_list == old(p).mutex_list,
        final(p).semaphore_list == old(p).semaphore_list,
        final(p).threads == old(p).threads,
{
}

/// A thread that sleeps has a timer that ends when it is to be woken, and not before.
pub proof fn law_sleep(timers: &mut Vec<Timer>, now: usize, tid: usize, ms: usize, r: Step)
    requires
        call_ensures(sync::sys_sleep, (timers, now, tid, ms), r),
        now + ms <= usize::MAX,
    ensures
        r == Step::Block,
        final(timers)@.len() == old(timers)@.len() + 1,
        final(timers)@.drop_last() == old(timers)@,
        final(timers)@.last().tid == tid,
        final(timers)@.last().expire_ms == now + ms,
{
    assert(final(timers)@.drop_last() =~= old(timers)@);
}

} // verus!
