//! System calls on mutexes, semaphores and condition variables. Where a call
//! wakes a thread, it returns that thread's number with its result.
use super::Step;
use crate::sync::condvar::Condvar;
use crate::sync::mutex::{KernelMutex, Mutex, MutexBlocking, MutexSpin, Wait};
use crate::sync::semaphore::Semaphore;
use crate::sync::utils;
use crate::sync::utils::is_safe;
use crate::task::process;
use crate::task::process::Process;
use vstd::prelude::*;

verus! {

/// What a lock or down returns where it would lead to a deadlock.
pub const DEADLOCK: isize = -0xdead;

/// A thread that sleeps until a time.
#[derive(Clone, Copy, PartialEq, Eq, Structural, Debug)]
pub struct Timer {
    pub expire_ms: usize,
    pub tid: usize,
}

/// Thread `tid` sleeps for `ms` milliseconds from now on: a timer is set for it.
/// Once woken, it calls `finish_sleep`.
pub fn sys_sleep(timers: &mut Vec<Timer>, now_ms: usize, tid: usize, ms: usize) -> (r: Step)
    requires
        now_ms + ms <= usize::MAX,
    ensures
        r == Step::Block,
        final(timers)@ == old(timers)@.push(
            Timer { expire_ms: (now_ms + ms) as usize, tid },
        ),
{
    let expire_ms: usize = now_ms + ms;
    timers.push(Timer { expire_ms, tid });
    Step::Block
}

/// The thread was woken by its timer; the call returns.
pub fn finish_sleep() -> (r: Step)
    ensures
        r == Step::Done(0),
{
    Step::Done(0)
}

/// The place of the first `None`, or the end.
fn find_free<T>(list: &Vec<Option<T>>) -> (r: usize)
    ensures
        r == process::first_free(list@, 0),
        r <= list@.len(),
        r < list@.len() ==> list@[r as int] is None,
{
    let mut i: usize = 0;
    while i < list.len()
        invariant
            i <= list@.len(),
            process::first_free(list@, 0) == process::first_free(list@, i as int),
        decreases list@.len() - i,
    {
        if list[i].is_none() {
            return i;
        }
        i += 1;
    }
    i
}

/// Puts a zero into column `id` of the rows, or at the end of a row that does
/// not reach that far.
fn clear_column(table: &mut Vec<Vec<usize>>, n: usize, id: usize)
    requires
        n == old(table)@.len(),
    ensures
        utils::rows(final(table)@) == process::column_cleared(utils::rows(old(table)@), id as int),
        final(table)@.len() == old(table)@.len(),
        forall|i: int|
            0 <= i < n ==> (#[trigger] final(table)@[i])@ == process::placed(
                old(table)@[i]@,
                id as int,
                0usize,
            ),
{
    let ghost before = table@;
    let mut i: usize = 0;
    while i < n
        invariant
            i <= n,
            n == before.len(),
            table@.len() == n,
            forall|k: int|
                0 <= k < i ==> (#[trigger] table@[k])@ == process::placed(
                    before[k]@,
                    id as int,
                    0usize,
                ),
            forall|k: int| i <= k < n ==> #[trigger] table@[k] == before[k],
        decreases n - i,
    {
        assert(table@[i as int] == before[i as int]);
        if id < table[i].len() {
            table[i][id] = 0;
        } else {
            table[i].push(0);
        }
        i += 1;
    }
    assert(utils::rows(table@) =~= process::column_cleared(utils::rows(before), id as int));
}

/// Creates a mutex in the first free place, or at the end, and returns its
/// number; no thread holds it.
pub fn sys_mutex_create(process: &mut Process, blocking: bool) -> (r: isize)
    requires
        old(process).mutexes_wf(),
    ensures
        r == process::first_free(old(process).mutex_list@, 0),
        0 <= r <= old(process).mutex_list@.len(),
        exists|m: KernelMutex| #[trigger]
            fresh_mutex(m, blocking) && final(process).mutex_list@ == process::placed(
                old(process).mutex_list@,
                r as int,
                Some(m),
            ),
        utils::rows(final(process).mutex_allocation@) == process::column_cleared(
            utils::rows(old(process).mutex_allocation@),
            r as int,
        ),
        old(process).mutex_list@.len() + 1 < isize::MAX ==> final(process).mutexes_wf(),
        *final(process) == (Process {
            mutex_list: final(process).mutex_list,
            mutex_allocation: final(process).mutex_allocation,
            ..*old(process)
        }),
{
    let mutex: KernelMutex = if !blocking {
        KernelMutex::Spin(MutexSpin::new())
    } else {
        KernelMutex::Blocking(MutexBlocking::new())
    };
    assert(fresh_mutex(mutex, blocking));
    let n: usize = process.threads;
    let id: usize = find_free(&process.mutex_list);
    if id < process.mutex_list.len() {
        process.mutex_list.set(id, Some(mutex));
    } else {
        process.mutex_list.push(Some(mutex));
    }
    clear_column(&mut process.mutex_allocation, n, id);
    assert(process.mutex_list@ == process::placed(
        old(process).mutex_list@,
        id as int,
        Some(mutex),
    ));
    id as isize
}

/// A new mutex of the kind.
pub open spec fn fresh_mutex(m: KernelMutex, blocking: bool) -> bool {
    &&& m.wf()
    &&& !m.held()
    &&& m.waiting() == Seq::<usize>::empty()
    &&& m.sleeping() == blocking
}

/// The mutex can be used by the thread.
pub open spec fn can_lock(p: &Process, tid: int, id: int) -> bool {
    &&& p.mutexes_wf()
    &&& 0 <= tid < p.threads
    &&& 0 <= id < p.mutex_list@.len()
    &&& p.mutex_list@[id] is Some
}

/// Whether deadlock detection forbids thread `tid` to lock mutex `id`.
pub open spec fn lock_is_unsafe(p: &Process, tid: int, id: int) -> bool {
    p.deadlock_detect && !utils::safe(
        utils::rows(p.mutex_allocation@),
        process::mutex_available(p.mutex_list@),
        process::mutex_need(p.mutex_list@, p.threads as int, tid, id),
    )
}

/// What becomes of a mutex that thread `tid` asks for.
pub open spec fn mutex_asked(m0: KernelMutex, m1: KernelMutex, tid: usize) -> bool {
    &&& m1.wf()
    &&& m1.held()
    &&& m1.sleeping() == m0.sleeping()
    &&& m1.waiting() == if m0.held() && m0.sleeping() {
        m0.waiting().push(tid)
    } else {
        m0.waiting()
    }
}

/// The book of mutexes after `x` was noted for thread `tid` and mutex `id`, if
/// deadlocks are detected.
pub open spec fn noted(p: &Process, tid: int, id: int, x: usize) -> Seq<Seq<usize>> {
    let rows = utils::rows(p.mutex_allocation@);
    if p.deadlock_detect {
        rows.update(tid, rows[tid].update(id, x))
    } else {
        rows
    }
}

/// Notes that thread `tid` holds the mutex, or does not any more.
fn note_mutex(process: &mut Process, tid: usize, mutex_id: usize, x: usize)
    requires
        old(process).mutexes_wf(),
        tid < old(process).threads,
        mutex_id < old(process).mutex_list@.len(),
        x <= 1,
    ensures
        final(process).mutexes_wf(),
        utils::rows(final(process).mutex_allocation@) == noted(
            old(process),
            tid as int,
            mutex_id as int,
            x,
        ),
        *final(process) == (Process {
            mutex_allocation: final(process).mutex_allocation,
            ..*old(process)
        }),
{
    if process.is_deadlock_detect_enabled() {
        process.mutex_allocation[tid][mutex_id] = x;
        assert(utils::rows(process.mutex_allocation@) =~= noted(
            old(process),
            tid as int,
            mutex_id as int,
            x,
        ));
    }
}

/// Thread `tid` locks a mutex, unless deadlock detection forbids it. Where the
/// mutex is taken, the thread yields and calls `retry_mutex_lock`, or sleeps
/// and, once woken, calls `finish_mutex_lock`.
pub fn sys_mutex_lock(process: &mut Process, tid: usize, mutex_id: usize) -> (r: Step)
    requires
        can_lock(old(process), tid as int, mutex_id as int),
        old(process).deadlock_detect ==> forall|j: int|
            0 <= j < old(process).mutex_list@.len()
                ==> #[trigger] old(process).mutex_list@[j] is Some,
    ensures
        final(process).mutexes_wf(),
        if lock_is_unsafe(old(process), tid as int, mutex_id as int) {
            r == Step::Done(DEADLOCK) && *final(process) == *old(process)
        } else {
            lock_step(old(process), final(process), tid, mutex_id as int, r)
        },
{
    if process.is_deadlock_detect_enabled() {
        let available: Vec<usize> = process.available_mutexes();
        let need: Vec<Vec<usize>> = process.needed_mutexes(tid, mutex_id);
        proof {
            lemma_mutex_shape(process, tid as int, mutex_id as int);
        }
        if !is_safe(&process.mutex_allocation, &available, &need) {
            return Step::Done(DEADLOCK);
        }
    }
    retry_mutex_lock(process, tid, mutex_id)
}

/// What asking for a mutex does: it is locked and noted, or the thread has to
/// wait.
pub open spec fn lock_step(p0: &Process, p1: &Process, tid: usize, id: int, r: Step) -> bool {
    let m0 = p0.mutex_list@[id].unwrap();
    &&& exists|m1: KernelMutex| #[trigger]
        mutex_asked(m0, m1, tid) && p1.mutex_list@ == p0.mutex_list@.update(id, Some(m1))
    &&& *p1 == (Process {
        mutex_list: p1.mutex_list,
        mutex_allocation: p1.mutex_allocation,
        ..*p0
    })
    &&& if !m0.held() {
        &&& r == Step::Done(0)
        &&& utils::rows(p1.mutex_allocation@) == noted(p0, tid as int, id, 1)
    } else {
        &&& r == if m0.sleeping() {
            Step::Block
        } else {
            Step::Yield
        }
        &&& p1.mutex_allocation == p0.mutex_allocation
    }
}

/// Thread `tid` asks for the mutex once more, after it has yielded.
pub fn retry_mutex_lock(process: &mut Process, tid: usize, mutex_id: usize) -> (r: Step)
    requires
        can_lock(old(process), tid as int, mutex_id as int),
    ensures
        final(process).mutexes_wf(),
        lock_step(old(process), final(process), tid, mutex_id as int, r),
{
    let ghost p0 = *process;
    let ghost m0 = process.mutex_list@[mutex_id as int].unwrap();
    let mut slot: Option<KernelMutex> = None;
    core::mem::swap(&mut slot, &mut process.mutex_list[mutex_id]);
    let mut mutex: KernelMutex = slot.unwrap();
    let outcome: Wait = mutex.lock(tid);
    assert(mutex_asked(m0, mutex, tid));
    let ghost m1 = mutex;
    process.mutex_list.set(mutex_id, Some(mutex));
    proof {
        assert(process.mutex_list@ =~= p0.mutex_list@.update(mutex_id as int, Some(m1)));
        assert forall|k: int| 0 <= k < m1.waiting().len() implies #[trigger] m1.waiting()[k]
            < process.threads by {
            if k < m0.waiting().len() {
                assert(m1.waiting()[k] == m0.waiting()[k]);
                assert(p0.mutex_list@[mutex_id as int] is Some);
            }
        }
        assert(process.mutexes_wf());
    }
    match outcome {
        Wait::Acquired => {
            note_mutex(process, tid, mutex_id, 1);
            Step::Done(0)
        },
        Wait::Retry => Step::Yield,
        Wait::Blocked => Step::Block,
    }
}

/// Thread `tid` was woken and holds the mutex now.
pub fn finish_mutex_lock(process: &mut Process, tid: usize, mutex_id: usize) -> (r: Step)
    requires
        can_lock(old(process), tid as int, mutex_id as int),
    ensures
        final(process).mutexes_wf(),
        r == Step::Done(0),
        utils::rows(final(process).mutex_allocation@) == noted(
            old(process),
            tid as int,
            mutex_id as int,
            1,
        ),
        *final(process) == (Process {
            mutex_allocation: final(process).mutex_allocation,
            ..*old(process)
        }),
{
    note_mutex(process, tid, mutex_id, 1);
    Step::Done(0)
}

/// The book of mutexes has the shape that the safety check asks for.
proof fn lemma_mutex_shape(p: &Process, tid: int, id: int)
    requires
        can_lock(p, tid, id),
    ensures
        utils::well_shaped(
            utils::rows(p.mutex_allocation@),
            process::mutex_available(p.mutex_list@),
            process::mutex_need(p.mutex_list@, p.threads as int, tid, id),
        ),
{
    let al = utils::rows(p.mutex_allocation@);
    let n = p.threads as int;
    assert(al[0] == p.mutex_allocation@[0]@);
    let m = p.mutex_list@.len() as int;
    assert forall|i: int| 0 <= i < n implies m <= (#[trigger] al[i]).len() by {
        assert(p.mutex_allocation@[i]@.len() == m);
    }
    assert forall|j: int| 0 <= j < m implies process::mutex_available(p.mutex_list@)[j]
        + #[trigger] utils::held_by_all(al, n, j) <= usize::MAX by {
        assert forall|i: int| 0 <= i < n implies #[trigger] al[i][j] <= 1 by {
            assert(p.mutex_allocation@[i]@[j] <= 1);
        }
        lemma_ones(al, n, j);
    }
}

proof fn lemma_ones(al: Seq<Seq<usize>>, n: int, j: int)
    requires
        0 <= n,
        forall|i: int| 0 <= i < n ==> #[trigger] al[i][j] <= 1,
    ensures
        0 <= utils::held_by_all(al, n, j) <= n,
    decreases n,
{
    if n > 0 {
        lemma_ones(al, n - 1, j);
        assert(al[n - 1][j] <= 1);
    }
}

/// What becomes of a mutex that is given up.
pub open spec fn mutex_released(m0: KernelMutex, m1: KernelMutex, woken: Option<usize>) -> bool {
    &&& m1.wf()
    &&& m1.sleeping() == m0.sleeping()
    &&& if m0.waiting().len() > 0 {
        &&& woken == Some(m0.waiting()[0])
        &&& m1.held() == m0.held()
        &&& m1.waiting() == m0.waiting().drop_first()
    } else {
        &&& woken is None
        &&& !m1.held()
        &&& m1.waiting() == m0.waiting()
    }
}

/// Mutex `id` is given up, and thread `woken` gets it.
pub open spec fn unlock_step(
    l0: Seq<Option<KernelMutex>>,
    l1: Seq<Option<KernelMutex>>,
    id: int,
    woken: Option<usize>,
) -> bool {
    exists|m1: KernelMutex| #[trigger]
        mutex_released(l0[id].unwrap(), m1, woken) && l1 == l0.update(id, Some(m1))
}

/// Thread `tid` unlocks a mutex; the thread that it is handed to is woken.
pub fn sys_mutex_unlock(process: &mut Process, tid: usize, mutex_id: usize) -> (r: (
    isize,
    Option<usize>,
))
    requires
        can_lock(old(process), tid as int, mutex_id as int),
        old(process).mutex_list@[mutex_id as int].unwrap().sleeping() ==> old(
            process,
        ).mutex_list@[mutex_id as int].unwrap().held(),
    ensures
        final(process).mutexes_wf(),
        r.0 == 0,
        unlock_step(
            old(process).mutex_list@,
            final(process).mutex_list@,
            mutex_id as int,
            r.1,
        ),
        utils::rows(final(process).mutex_allocation@) == noted(
            old(process),
            tid as int,
            mutex_id as int,
            0,
        ),
        *final(process) == (Process {
            mutex_list: final(process).mutex_list,
            mutex_allocation: final(process).mutex_allocation,
            ..*old(process)
        }),
{
    let ghost p0 = *process;
    let ghost m0 = process.mutex_list@[mutex_id as int].unwrap();
    let mut slot: Option<KernelMutex> = None;
    core::mem::swap(&mut slot, &mut process.mutex_list[mutex_id]);
    let mut mutex: KernelMutex = slot.unwrap();
    let woken: Option<usize> = mutex.unlock();
    assert(mutex_released(m0, mutex, woken));
    let ghost m1 = mutex;
    process.mutex_list.set(mutex_id, Some(mutex));
    proof {
        assert(process.mutex_list@ =~= p0.mutex_list@.update(mutex_id as int, Some(m1)));
        lemma_waiting(&p0, mutex_id as int, m1);
        assert(process.mutexes_wf());
    }
    note_mutex(process, tid, mutex_id, 0);
    assert(process.mutex_list@ == p0.mutex_list@.update(mutex_id as int, Some(m1)));
    assert(mutex_released(m0, m1, woken));
    (0, woken)
}

/// Threads that still sleep on a mutex are threads of the process.
proof fn lemma_waiting(p: &Process, id: int, m1: KernelMutex)
    requires
        p.mutexes_wf(),
        0 <= id < p.mutex_list@.len(),
        p.mutex_list@[id] is Some,
        m1.waiting() == p.mutex_list@[id].unwrap().waiting() || (
        p.mutex_list@[id].unwrap().waiting().len() > 0 && m1.waiting()
            == p.mutex_list@[id].unwrap().waiting().drop_first()),
    ensures
        forall|k: int| 0 <= k < m1.waiting().len() ==> #[trigger] m1.waiting()[k] < p.threads,
{
    let m0 = p.mutex_list@[id].unwrap();
    assert forall|k: int| 0 <= k < m1.waiting().len() implies #[trigger] m1.waiting()[k]
        < p.threads by {
        assert(p.mutex_list@[id] is Some);
        if m1.waiting() == m0.waiting() {
            assert(m0.waiting()[k] < p.threads);
        } else {
            assert(m0.waiting()[k + 1] < p.threads);
        }
    }
}

/// Creates a semaphore in the first free place, or at the end, and returns its
/// number; no thread holds any of it.
pub fn sys_semaphore_create(process: &mut Process, res_count: usize) -> (r: isize)
    requires
        old(process).semaphores_wf(),
        res_count <= isize::MAX,
        ({
            let id = process::first_free(old(process).semaphore_list@, 0);
            id < old(process).semaphore_list@.len() ==> forall|i: int|
                0 <= i < old(process).threads ==> id < (#[trigger] old(
                    process,
                ).semaphore_allocation@[i])@.len()
        }),
    ensures
        r == process::first_free(old(process).semaphore_list@, 0),
        0 <= r <= old(process).semaphore_list@.len(),
        exists|s: Semaphore| #[trigger]
            fresh_semaphore(s, res_count as int) && final(process).semaphore_list@
                == process::placed(old(process).semaphore_list@, r as int, Some(s)),
        utils::rows(final(process).semaphore_allocation@) == process::column_cleared(
            utils::rows(old(process).semaphore_allocation@),
            r as int,
        ),
        old(process).semaphore_list@.len() + 1 < isize::MAX ==> final(process).semaphores_wf(),
        *final(process) == (Process {
            semaphore_list: final(process).semaphore_list,
            semaphore_allocation: final(process).semaphore_allocation,
            ..*old(process)
        }),
{
    let n: usize = process.threads;
    let id: usize = find_free(&process.semaphore_list);
    let semaphore = Semaphore::new(res_count);
    assert(fresh_semaphore(semaphore, res_count as int));
    if id < process.semaphore_list.len() {
        process.semaphore_list.set(id, Some(semaphore));
    } else {
        process.semaphore_list.push(Some(semaphore));
    }
    clear_column(&mut process.semaphore_allocation, n, id);
    assert(process.semaphore_list@ == process::placed(
        old(process).semaphore_list@,
        id as int,
        Some(semaphore),
    ));
    id as isize
}

/// A new semaphore.
pub open spec fn fresh_semaphore(s: Semaphore, count: int) -> bool {
    &&& s.wf()
    &&& s.level() == count
    &&& s.waiting() == Seq::<usize>::empty()
}

/// The semaphore can be used by the thread.
pub open spec fn can_use(p: &Process, tid: int, id: int) -> bool {
    &&& p.semaphores_wf()
    &&& 0 <= tid < p.threads
    &&& 0 <= id < p.semaphore_list@.len()
    &&& p.semaphore_list@[id] is Some
}

/// What becomes of a semaphore that one resource is handed back to.
pub open spec fn semaphore_up(s0: Semaphore, s1: Semaphore, woken: Option<usize>) -> bool {
    &&& s1.wf()
    &&& s1.level() == s0.level() + 1
    &&& if s0.level() < 0 {
        &&& woken == Some(s0.waiting()[0])
        &&& s1.waiting() == s0.waiting().drop_first()
    } else {
        &&& woken is None
        &&& s1.waiting() == s0.waiting()
    }
}

/// Semaphore `id` got one resource back, and thread `woken` gets it.
pub open spec fn up_step(
    l0: Seq<Option<Semaphore>>,
    l1: Seq<Option<Semaphore>>,
    id: int,
    woken: Option<usize>,
) -> bool {
    exists|s1: Semaphore| #[trigger]
        semaphore_up(l0[id].unwrap(), s1, woken) && l1 == l0.update(id, Some(s1))
}

/// The rows with `d` added for thread `tid` and semaphore `id`.
pub open spec fn counted(rows: Seq<Seq<usize>>, tid: int, id: int, d: int) -> Seq<Seq<usize>> {
    rows.update(tid, rows[tid].update(id, (rows[tid][id] + d) as usize))
}

/// Thread `tid` hands a resource of a semaphore back; the thread that gets it
/// is woken. With deadlock detection the thread must hold some of it.
pub fn sys_semaphore_up(process: &mut Process, tid: usize, sem_id: usize) -> (r: (
    isize,
    Option<usize>,
))
    requires
        can_use(old(process), tid as int, sem_id as int),
        old(process).semaphore_list@[sem_id as int].unwrap().level() < isize::MAX,
        old(process).deadlock_detect ==> {
            &&& sem_id < old(process).semaphore_allocation@[tid as int]@.len()
            &&& old(process).semaphore_allocation@[tid as int]@[sem_id as int] > 0
        },
    ensures
        final(process).semaphores_wf(),
        r.0 == 0,
        up_step(
            old(process).semaphore_list@,
            final(process).semaphore_list@,
            sem_id as int,
            r.1,
        ),
        utils::rows(final(process).semaphore_allocation@) == if old(process).deadlock_detect {
            counted(
                utils::rows(old(process).semaphore_allocation@),
                tid as int,
                sem_id as int,
                -1,
            )
        } else {
            utils::rows(old(process).semaphore_allocation@)
        },
        *final(process) == (Process {
            semaphore_list: final(process).semaphore_list,
            semaphore_allocation: final(process).semaphore_allocation,
            ..*old(process)
        }),
{
    let ghost p0 = *process;
    let ghost s0 = process.semaphore_list@[sem_id as int].unwrap();
    let mut slot: Option<Semaphore> = None;
    core::mem::swap(&mut slot, &mut process.semaphore_list[sem_id]);
    let mut semaphore: Semaphore = slot.unwrap();
    let woken: Option<usize> = semaphore.up();
    let ghost s1 = semaphore;
    process.semaphore_list.set(sem_id, Some(semaphore));
    proof {
        assert(process.semaphore_list@ =~= p0.semaphore_list@.update(sem_id as int, Some(s1)));
        assert(semaphore_up(s0, s1, woken));
        assert forall|k: int| 0 <= k < s1.waiting().len() implies #[trigger] s1.waiting()[k]
            < process.threads by {
            assert(p0.semaphore_list@[sem_id as int] is Some);
            if s0.level() < 0 {
                assert(s0.waiting()[k + 1] < p0.threads);
            }
        }
        assert(process.semaphores_wf());
    }
    if process.is_deadlock_detect_enabled() {
        let count: usize = process.semaphore_allocation[tid][sem_id];
        process.semaphore_allocation[tid][sem_id] = count - 1;
        assert(utils::rows(process.semaphore_allocation@) =~= counted(
            utils::rows(p0.semaphore_allocation@),
            tid as int,
            sem_id as int,
            -1,
        ));
    }
    (0, woken)
}

/// Whether deadlock detection forbids thread `tid` to take of semaphore `id`.
pub open spec fn down_is_unsafe(p: &Process, tid: int, id: int) -> bool {
    p.deadlock_detect && !utils::safe(
        process::padded(utils::rows(p.semaphore_allocation@), p.semaphore_list@.len() as int),
        process::semaphore_available(p.semaphore_list@),
        process::semaphore_need(p.semaphore_list@, p.threads as int, tid, id),
    )
}

/// What becomes of a semaphore that thread `tid` takes of.
pub open spec fn semaphore_asked(s0: Semaphore, s1: Semaphore, tid: usize) -> bool {
    &&& s1.wf()
    &&& s1.level() == s0.level() - 1
    &&& s1.waiting() == if s0.level() > 0 {
        s0.waiting()
    } else {
        s0.waiting().push(tid)
    }
}

/// What taking of a semaphore does: it is counted, or the thread has to wait.
/// `rows` is the book before.
pub open spec fn down_step(
    p0: &Process,
    rows: Seq<Seq<usize>>,
    p1: &Process,
    tid: usize,
    id: int,
    r: Step,
) -> bool {
    let s0 = p0.semaphore_list@[id].unwrap();
    &&& exists|s1: Semaphore| #[trigger]
        semaphore_asked(s0, s1, tid) && p1.semaphore_list@ == p0.semaphore_list@.update(
            id,
            Some(s1),
        )
    &&& *p1 == (Process {
        semaphore_list: p1.semaphore_list,
        semaphore_allocation: p1.semaphore_allocation,
        ..*p0
    })
    &&& r == if s0.level() > 0 {
        Step::Done(0)
    } else {
        Step::Block
    }
    &&& utils::rows(p1.semaphore_allocation@) == if s0.level() > 0 && p0.deadlock_detect {
        counted(rows, tid as int, id, 1)
    } else {
        rows
    }
}

/// Fills the rows up with zeros to `m` columns.
fn pad_rows(table: &mut Vec<Vec<usize>>, m: usize)
    requires
        forall|i: int| 0 <= i < old(table)@.len() ==> (#[trigger] old(table)@[i])@.len() <= m,
    ensures
        final(table)@.len() == old(table)@.len(),
        utils::rows(final(table)@) == process::padded(utils::rows(old(table)@), m as int),
        forall|i: int| 0 <= i < old(table)@.len() ==> (#[trigger] final(table)@[i])@.len() == m,
{
    let ghost before = table@;
    let n: usize = table.len();
    let mut i: usize = 0;
    while i < n
        invariant
            i <= n,
            n == before.len(),
            table@.len() == n,
            forall|k: int| 0 <= k < n ==> (#[trigger] before[k])@.len() <= m,
            forall|k: int|
                0 <= k < i ==> (#[trigger] table@[k])@ == process::padded(
                    utils::rows(before),
                    m as int,
                )[k],
            forall|k: int| i <= k < n ==> #[trigger] table@[k] == before[k],
        decreases n - i,
    {
        let ghost row = before[i as int]@;
        assert(table@[i as int] == before[i as int]);
        while table[i].len() < m
            invariant
                i < n,
                n == before.len(),
                table@.len() == n,
                row == before[i as int]@,
                row.len() <= table@[i as int]@.len() <= m,
                forall|k: int|
                    0 <= k < i ==> (#[trigger] table@[k])@ == process::padded(
                        utils::rows(before),
                        m as int,
                    )[k],
                forall|k: int| i < k < n ==> #[trigger] table@[k] == before[k],
                forall|j: int|
                    0 <= j < table@[i as int]@.len() ==> #[trigger] table@[i as int]@[j] == if j
                        < row.len() {
                        row[j]
                    } else {
                        0
                    },
            decreases m - table@[i as int]@.len(),
        {
            table[i].push(0);
        }
        assert(table@[i as int]@ =~= process::padded(utils::rows(before), m as int)[i as int]);
        i += 1;
    }
    assert(utils::rows(table@) =~= process::padded(utils::rows(before), m as int));
}

/// Thread `tid` takes a resource of a semaphore, unless deadlock detection
/// forbids it. Where nothing is left, the thread sleeps and, once woken, calls
/// `finish_semaphore_down`.
pub fn sys_semaphore_down(process: &mut Process, tid: usize, sem_id: usize) -> (r: Step)
    requires
        can_use(old(process), tid as int, sem_id as int),
        old(process).semaphore_list@[sem_id as int].unwrap().level() > isize::MIN,
        old(process).deadlock_detect ==> {
            let m = old(process).semaphore_list@.len() as int;
            let n = old(process).threads as int;
            &&& forall|j: int| 0 <= j < m ==> #[trigger] old(process).semaphore_list@[j] is Some
            &&& forall|j: int|
                0 <= j < m ==> process::semaphore_available(old(process).semaphore_list@)[j]
                    + #[trigger] utils::held_by_all(
                    process::padded(utils::rows(old(process).semaphore_allocation@), m),
                    n,
                    j,
                ) <= usize::MAX
        },
    ensures
        final(process).semaphores_wf(),
        ({
            let rows = if old(process).deadlock_detect {
                process::padded(
                    utils::rows(old(process).semaphore_allocation@),
                    old(process).semaphore_list@.len() as int,
                )
            } else {
                utils::rows(old(process).semaphore_allocation@)
            };
            if down_is_unsafe(old(process), tid as int, sem_id as int) {
                &&& r == Step::Done(DEADLOCK)
                &&& *final(process) == (Process {
                    semaphore_allocation: final(process).semaphore_allocation,
                    ..*old(process)
                })
                &&& utils::rows(final(process).semaphore_allocation@) == rows
            } else {
                down_step(old(process), rows, final(process), tid, sem_id as int, r)
            }
        }),
{
    let ghost p0 = *process;
    let ghost m0 = p0.semaphore_list@.len() as int;
    let ghost n0 = p0.threads as int;
    if process.is_deadlock_detect_enabled() {
        let m: usize = process.semaphore_list.len();
        let available: Vec<usize> = process.available_semaphores();
        let need: Vec<Vec<usize>> = process.needed_semaphores(tid, sem_id);
        pad_rows(&mut process.semaphore_allocation, m);
        proof {
            let al = utils::rows(process.semaphore_allocation@);
            assert(al[0].len() == m);
            assert(utils::well_shaped(al, available@, utils::rows(need@)));
        }
        if !is_safe(&process.semaphore_allocation, &available, &need) {
            return Step::Done(DEADLOCK);
        }
        proof {
            if p0.semaphore_list@[sem_id as int].unwrap().level() > 0 {
                let al = utils::rows(process.semaphore_allocation@);
                p0.semaphore_list@[sem_id as int].unwrap().lemma_level();
                lemma_row_bound(al, n0, tid as int, sem_id as int);
                assert(available@[sem_id as int] + utils::held_by_all(al, n0, sem_id as int)
                    <= usize::MAX);
                assert(al[tid as int] == process.semaphore_allocation@[tid as int]@);
            }
        }
    }
    let ghost p1 = *process;
    let ghost s0 = p0.semaphore_list@[sem_id as int].unwrap();
    let mut slot: Option<Semaphore> = None;
    core::mem::swap(&mut slot, &mut process.semaphore_list[sem_id]);
    let mut semaphore: Semaphore = slot.unwrap();
    let outcome: Wait = semaphore.down(tid);
    let ghost s1 = semaphore;
    process.semaphore_list.set(sem_id, Some(semaphore));
    proof {
        assert(process.semaphore_list@ =~= p0.semaphore_list@.update(sem_id as int, Some(s1)));
        assert(semaphore_asked(s0, s1, tid));
        assert forall|k: int| 0 <= k < s1.waiting().len() implies #[trigger] s1.waiting()[k]
            < process.threads by {
            assert(p0.semaphore_list@[sem_id as int] is Some);
            if k < s0.waiting().len() {
                assert(s0.waiting()[k] < p0.threads);
            }
        }
        assert(process.semaphores_wf());
    }
    match outcome {
        Wait::Acquired => {
            if process.is_deadlock_detect_enabled() {
                let count: usize = process.semaphore_allocation[tid][sem_id];
                process.semaphore_allocation[tid][sem_id] = count + 1;
                assert(utils::rows(process.semaphore_allocation@) =~= counted(
                    utils::rows(p1.semaphore_allocation@),
                    tid as int,
                    sem_id as int,
                    1,
                ));
            }
            Step::Done(0)
        },
        _ => Step::Block,
    }
}

/// What one thread holds is no more than what all hold.
proof fn lemma_row_bound(al: Seq<Seq<usize>>, n: int, i: int, j: int)
    requires
        0 <= i < n,
    ensures
        al[i][j] <= utils::held_by_all(al, n, j),
        0 <= utils::held_by_all(al, n, j),
    decreases n,
{
    if i < n - 1 {
        lemma_row_bound(al, n - 1, i, j);
    } else {
        lemma_all_bound(al, n - 1, j);
    }
}

proof fn lemma_all_bound(al: Seq<Seq<usize>>, n: int, j: int)
    ensures
        0 <= utils::held_by_all(al, n, j),
    decreases n,
{
    if n > 0 {
        lemma_all_bound(al, n - 1, j);
    }
}

/// Thread `tid` was woken and has a resource of the semaphore now.
pub fn finish_semaphore_down(process: &mut Process, tid: usize, sem_id: usize) -> (r: Step)
    requires
        can_use(old(process), tid as int, sem_id as int),
        old(process).deadlock_detect ==> {
            &&& sem_id < old(process).semaphore_allocation@[tid as int]@.len()
            &&& old(process).semaphore_allocation@[tid as int]@[sem_id as int] < usize::MAX
        },
    ensures
        final(process).semaphores_wf(),
        r == Step::Done(0),
        utils::rows(final(process).semaphore_allocation@) == if old(process).deadlock_detect {
            counted(
                utils::rows(old(process).semaphore_allocation@),
                tid as int,
                sem_id as int,
                1,
            )
        } else {
            utils::rows(old(process).semaphore_allocation@)
        },
        *final(process) == (Process {
            semaphore_allocation: final(process).semaphore_allocation,
            ..*old(process)
        }),
{
    let ghost p0 = *process;
    if process.is_deadlock_detect_enabled() {
        let count: usize = process.semaphore_allocation[tid][sem_id];
        process.semaphore_allocation[tid][sem_id] = count + 1;
        assert(utils::rows(process.semaphore_allocation@) =~= counted(
            utils::rows(p0.semaphore_allocation@),
            tid as int,
            sem_id as int,
            1,
        ));
    }
    Step::Done(0)
}

/// Creates a condition variable in the first free place, or at the end, and
/// returns its number.
pub fn sys_condvar_create(process: &mut Process) -> (r: isize)
    requires
        old(process).condvar_list@.len() < isize::MAX,
    ensures
        r == process::first_free(old(process).condvar_list@, 0),
        0 <= r <= old(process).condvar_list@.len(),
        exists|c: Condvar|
            (#[trigger] c.waiting()) == Seq::<usize>::empty() && final(process).condvar_list@
                == process::placed(old(process).condvar_list@, r as int, Some(c)),
        *final(process) == (Process {
            condvar_list: final(process).condvar_list,
            ..*old(process)
        }),
{
    let id: usize = find_free(&process.condvar_list);
    let condvar = Condvar::new();
    assert(condvar.waiting() == Seq::<usize>::empty());
    if id < process.condvar_list.len() {
        process.condvar_list.set(id, Some(condvar));
    } else {
        process.condvar_list.push(Some(condvar));
    }
    assert(process.condvar_list@ == process::placed(
        old(process).condvar_list@,
        id as int,
        Some(condvar),
    ));
    id as isize
}

/// The first thread that waits for condition variable `id` is taken out.
pub open spec fn signal_step(
    l0: Seq<Option<Condvar>>,
    l1: Seq<Option<Condvar>>,
    id: int,
    woken: Option<usize>,
) -> bool {
    let w = l0[id].unwrap().waiting();
    exists|c: Condvar|
        (#[trigger] c.waiting()) == (if w.len() > 0 {
            w.drop_first()
        } else {
            w
        }) && l1 == l0.update(id, Some(c)) && woken == if w.len() > 0 {
            Some(w[0])
        } else {
            None
        }
}

/// Wakes the first thread that waits for the condition.
pub fn sys_condvar_signal(process: &mut Process, condvar_id: usize) -> (r: (isize, Option<usize>))
    requires
        condvar_id < old(process).condvar_list@.len(),
        old(process).condvar_list@[condvar_id as int] is Some,
    ensures
        r.0 == 0,
        signal_step(
            old(process).condvar_list@,
            final(process).condvar_list@,
            condvar_id as int,
            r.1,
        ),
        *final(process) == (Process {
            condvar_list: final(process).condvar_list,
            ..*old(process)
        }),
{
    let mut slot: Option<Condvar> = None;
    core::mem::swap(&mut slot, &mut process.condvar_list[condvar_id]);
    let mut condvar: Condvar = slot.unwrap();
    let woken: Option<usize> = condvar.signal();
    let ghost c = condvar;
    process.condvar_list.set(condvar_id, Some(condvar));
    proof {
        assert(process.condvar_list@ =~= old(process).condvar_list@.update(
            condvar_id as int,
            Some(c),
        ));
        assert(c.waiting() == c.waiting());
    }
    (0, woken)
}

/// Thread `tid` waits for condition variable `id`.
pub open spec fn wait_step(
    l0: Seq<Option<Condvar>>,
    l1: Seq<Option<Condvar>>,
    id: int,
    tid: usize,
) -> bool {
    exists|c: Condvar|
        (#[trigger] c.waiting()) == l0[id].unwrap().waiting().push(tid) && l1 == l0.update(
            id,
            Some(c),
        )
}

/// Thread `tid` gives the mutex up and sleeps until a signal; then it calls
/// `finish_condvar_wait`. The thread that gets the mutex is woken.
pub fn sys_condvar_wait(
    process: &mut Process,
    tid: usize,
    condvar_id: usize,
    mutex_id: usize,
) -> (r: (Step, Option<usize>))
    requires
        condvar_id < old(process).condvar_list@.len(),
        old(process).condvar_list@[condvar_id as int] is Some,
        can_lock(old(process), tid as int, mutex_id as int),
        old(process).mutex_list@[mutex_id as int].unwrap().sleeping() ==> old(
            process,
        ).mutex_list@[mutex_id as int].unwrap().held(),
    ensures
        final(process).mutexes_wf(),
        r.0 == Step::Block,
        unlock_step(
            old(process).mutex_list@,
            final(process).mutex_list@,
            mutex_id as int,
            r.1,
        ),
        wait_step(
            old(process).condvar_list@,
            final(process).condvar_list@,
            condvar_id as int,
            tid,
        ),
        *final(process) == (Process {
            condvar_list: final(process).condvar_list,
            mutex_list: final(process).mutex_list,
            ..*old(process)
        }),
{
    let ghost p0 = *process;
    let ghost m0 = p0.mutex_list@[mutex_id as int].unwrap();
    let mut mutex_slot: Option<KernelMutex> = None;
    core::mem::swap(&mut mutex_slot, &mut process.mutex_list[mutex_id]);
    let mut mutex: KernelMutex = mutex_slot.unwrap();
    let mut slot: Option<Condvar> = None;
    core::mem::swap(&mut slot, &mut process.condvar_list[condvar_id]);
    let mut condvar: Condvar = slot.unwrap();
    let woken: Option<usize> = condvar.wait(tid, &mut mutex);
    let ghost m1 = mutex;
    let ghost c = condvar;
    process.mutex_list.set(mutex_id, Some(mutex));
    process.condvar_list.set(condvar_id, Some(condvar));
    proof {
        assert(process.mutex_list@ =~= p0.mutex_list@.update(mutex_id as int, Some(m1)));
        assert(mutex_released(m0, m1, woken));
        lemma_waiting(&p0, mutex_id as int, m1);
        assert(process.condvar_list@ =~= p0.condvar_list@.update(condvar_id as int, Some(c)));
        assert(c.waiting() == p0.condvar_list@[condvar_id as int].unwrap().waiting().push(tid));
    }
    (Step::Block, woken)
}

/// Thread `tid` was woken by a signal, and locks the mutex again. Where the
/// mutex is taken, the thread yields and calls this once more, or sleeps and,
/// once woken, calls `finish_relock`.
pub fn finish_condvar_wait(process: &mut Process, tid: usize, mutex_id: usize) -> (r: Step)
    requires
        can_lock(old(process), tid as int, mutex_id as int),
    ensures
        final(process).mutexes_wf(),
        relock_step(
            old(process).mutex_list@,
            final(process).mutex_list@,
            mutex_id as int,
            tid,
            r,
        ),
        *final(process) == (Process { mutex_list: final(process).mutex_list, ..*old(process) }),
{
    let ghost p0 = *process;
    let ghost m0 = p0.mutex_list@[mutex_id as int].unwrap();
    let mut slot: Option<KernelMutex> = None;
    core::mem::swap(&mut slot, &mut process.mutex_list[mutex_id]);
    let mut mutex: KernelMutex = slot.unwrap();
    let outcome: Wait = mutex.lock(tid);
    let ghost m1 = mutex;
    process.mutex_list.set(mutex_id, Some(mutex));
    proof {
        assert(mutex_asked(m0, m1, tid));
        assert(process.mutex_list@ =~= p0.mutex_list@.update(mutex_id as int, Some(m1)));
        assert forall|k: int| 0 <= k < m1.waiting().len() implies #[trigger] m1.waiting()[k]
            < process.threads by {
            if k < m0.waiting().len() {
                assert(m1.waiting()[k] == m0.waiting()[k]);
                assert(p0.mutex_list@[mutex_id as int] is Some);
            }
        }
    }
    match outcome {
        Wait::Acquired => Step::Done(0),
        Wait::Retry => Step::Yield,
        Wait::Blocked => Step::Block,
    }
}

/// The thread was woken and holds the mutex again; the call that waited for the
/// condition returns.
pub fn finish_relock() -> (r: Step)
    ensures
        r == Step::Done(0),
{
    Step::Done(0)
}

/// What asking for mutex `id` again after a signal does.
pub open spec fn relock_step(
    l0: Seq<Option<KernelMutex>>,
    l1: Seq<Option<KernelMutex>>,
    id: int,
    tid: usize,
    r: Step,
) -> bool {
    let m0 = l0[id].unwrap();
    &&& exists|m1: KernelMutex| #[trigger]
        mutex_asked(m0, m1, tid) && l1 == l0.update(id, Some(m1))
    &&& r == if !m0.held() {
        Step::Done(0)
    } else if m0.sleeping() {
        Step::Block
    } else {
        Step::Yield
    }
}

/// Switches deadlock detection off with 0 and on with 1.
pub fn sys_enable_deadlock_detect(process: &mut Process, enabled: usize) -> (r: isize)
    ensures
        r == if enabled <= 1 {
            0int
        } else {
            -1
        },
        *final(process) == (Process {
            deadlock_detect: if enabled <= 1 {
                enabled == 1
            } else {
                old(process).deadlock_detect
            },
            ..*old(process)
        }),
{
    process.enable_deadlock_detect(enabled)
}

/// Threads that hold nothing of resource `j` hand nothing back.
pub(crate) proof fn lemma_first_hold_none(al: Seq<Seq<usize>>, order: Seq<int>, k: int, tid: int, j: int)
    requires
        0 <= k <= order.len(),
        forall|a: int| 0 <= a < k ==> 0 <= #[trigger] order[a] < al.len() && order[a] != tid,
        forall|i: int| 0 <= i < al.len() && i != tid ==> #[trigger] al[i][j] == 0,
    ensures
        utils::held_by_first(al, order, k, j) == 0,
    decreases k,
{
    if k > 0 {
        lemma_first_hold_none(al, order, k - 1, tid, j);
        assert(al[order[k - 1]][j] == 0);
    }
}

/// In an order of all threads each has a place.
pub(crate) proof fn lemma_place(order: Seq<int>, n: int, tid: int)
    requires
        order.len() == n,
        order.no_duplicates(),
        forall|k: int| 0 <= k < n ==> 0 <= #[trigger] order[k] < n,
        0 <= tid < n,
    ensures
        order.contains(tid),
{
    let all = vstd::set_lib::set_int_range(0, n);
    vstd::set_lib::lemma_int_range(0, n);
    order.unique_seq_to_set();
    assert(order.to_set().subset_of(all)) by {
        assert forall|x: int| order.to_set().contains(x) implies all.contains(x) by {
            let k = choose|k: int| 0 <= k < order.len() && order[k] == x;
            assert(0 <= order[k] < n);
        }
    }
    vstd::set_lib::lemma_subset_equality(order.to_set(), all);
    assert(all.contains(tid));
}

/// A thread that asks for a mutex which it holds alone is refused: it would wait
/// for itself.
pub proof fn law_relock_refused(p: &Process, tid: int, id: int)
    requires
        can_lock(p, tid, id),
        p.deadlock_detect,
        p.mutex_list@[id].unwrap().held(),
        forall|i: int|
            0 <= i < p.threads && i != tid ==> #[trigger] p.mutex_allocation@[i]@[id] == 0,
    ensures
        lock_is_unsafe(p, tid, id),
{
    let al = utils::rows(p.mutex_allocation@);
    let available = process::mutex_available(p.mutex_list@);
    let need = process::mutex_need(p.mutex_list@, p.threads as int, tid, id);
    assert(al[0] == p.mutex_allocation@[0]@);
    let m = utils::resources(al);
    if utils::safe(al, available, need) {
        let order = choose|order: Seq<int>| utils::safe_order(al, available, need, m, order);
        lemma_place(order, p.threads as int, tid);
        let k = choose|k: int| 0 <= k < order.len() && order[k] == tid;
        assert forall|i: int| 0 <= i < al.len() && i != tid implies #[trigger] al[i][id] == 0 by {
            assert(p.mutex_allocation@[i]@[id] == 0);
        }
        lemma_first_hold_none(al, order, k, tid, id);
        assert(need[order[k]][id] <= available[id] + utils::held_by_first(al, order, k, id));
        assert(need[tid][id] == 1);
    }
}

/// A thread that asks for a free mutex while no thread waits for any is not
/// refused.
pub proof fn law_free_lock_granted(p: &Process, tid: int, id: int)
    requires
        can_lock(p, tid, id),
        !p.mutex_list@[id].unwrap().held(),
        forall|j: int|
            0 <= j < p.mutex_list@.len() ==> #[trigger] p.mutex_list@[j] is Some
                && p.mutex_list@[j].unwrap().waiting().len() == 0,
    ensures
        !lock_is_unsafe(p, tid, id),
{
    let al = utils::rows(p.mutex_allocation@);
    let available = process::mutex_available(p.mutex_list@);
    let need = process::mutex_need(p.mutex_list@, p.threads as int, tid, id);
    assert(al[0] == p.mutex_allocation@[0]@);
    let m = utils::resources(al);
    let order = Seq::new(p.threads as nat, |k: int| k);
    assert forall|k: int, j: int| 0 <= k < order.len() && 0 <= j < m implies #[trigger] need[order[k]][j]
        <= available[j] + #[trigger] utils::held_by_first(al, order, k, j) by {
        lemma_first_nonneg(al, order, k, j);
        assert(p.mutex_list@[j] is Some);
        assert(!p.mutex_list@[j].unwrap().waiting().contains(order[k] as usize));
    }
    assert(utils::safe_order(al, available, need, m, order));
}

pub(crate) proof fn lemma_first_nonneg(al: Seq<Seq<usize>>, order: Seq<int>, k: int, j: int)
    ensures
        0 <= utils::held_by_first(al, order, k, j),
    decreases k,
{
    if k > 0 {
        lemma_first_nonneg(al, order, k - 1, j);
    }
}

} // verus!
