//! What the threads of a process share: mutexes, semaphores and condition
//! variables, and the book that deadlock detection keeps of them.
use crate::sync::condvar::Condvar;
use crate::sync::mutex::{KernelMutex, Mutex};
use crate::sync::semaphore::Semaphore;
use crate::sync::utils;
use vstd::prelude::*;

verus! {

/// A process. Its threads are numbered from 0.
pub struct Process {
    /// Number of threads.
    pub threads: usize,
    /// Mutexes, by number.
    pub mutex_list: Vec<Option<KernelMutex>>,
    /// Semaphores, by number.
    pub semaphore_list: Vec<Option<Semaphore>>,
    /// Condition variables, by number.
    pub condvar_list: Vec<Option<Condvar>>,
    /// Which thread holds which mutex: 1 where it does.
    pub mutex_allocation: Vec<Vec<usize>>,
    /// How much of each semaphore each thread holds.
    pub semaphore_allocation: Vec<Vec<usize>>,
    /// Whether deadlocks are detected.
    pub deadlock_detect: bool,
}

/// The place of the first `None`, or the end.
pub open spec fn first_free<T>(list: Seq<Option<T>>, i: int) -> int
    decreases list.len() - i,
{
    if i >= list.len() || list[i] is None {
        i
    } else {
        first_free(list, i + 1)
    }
}

/// The list with `item` in place `id`, which may be its end.
pub open spec fn placed<T>(list: Seq<T>, id: int, item: T) -> Seq<T> {
    if id < list.len() {
        list.update(id, item)
    } else {
        list.push(item)
    }
}

/// The rows with a zero in column `id`, which may be a new one.
pub open spec fn column_cleared(rows: Seq<Seq<usize>>, id: int) -> Seq<Seq<usize>> {
    Seq::new(rows.len(), |i: int| placed(rows[i], id, 0usize))
}

/// How often `x` is among the first `n` of `s`.
pub open spec fn times(s: Seq<usize>, n: int, x: int) -> int
    decreases n,
{
    if n <= 0 {
        0
    } else {
        times(s, n - 1, x) + (if s[n - 1] == x {
            1int
        } else {
            0
        })
    }
}

/// The mutexes as resources: 1 where there is a mutex and it is free.
pub open spec fn mutex_available(list: Seq<Option<KernelMutex>>) -> Seq<usize> {
    Seq::new(
        list.len(),
        |j: int|
            if list[j] is Some && !list[j].unwrap().held() {
                1
            } else {
                0
            },
    )
}

/// Mutexes that the threads wait for, where thread `tid` asks for mutex `id`.
pub open spec fn mutex_need(
    list: Seq<Option<KernelMutex>>,
    n: int,
    tid: int,
    id: int,
) -> Seq<Seq<usize>> {
    Seq::new(
        n as nat,
        |i: int|
            Seq::new(
                list.len(),
                |j: int|
                    if list[j].unwrap().waiting().contains(i as usize) || (i == tid && j == id) {
                        1usize
                    } else {
                        0
                    },
            ),
    )
}

/// What is left of the semaphores.
pub open spec fn semaphore_available(list: Seq<Option<Semaphore>>) -> Seq<usize> {
    Seq::new(
        list.len(),
        |j: int|
            if list[j] is Some && list[j].unwrap().level() > 0 {
                list[j].unwrap().level() as usize
            } else {
                0
            },
    )
}

/// What the threads wait for of the semaphores, where thread `tid` asks for
/// semaphore `id`.
pub open spec fn semaphore_need(
    list: Seq<Option<Semaphore>>,
    n: int,
    tid: int,
    id: int,
) -> Seq<Seq<usize>> {
    Seq::new(
        n as nat,
        |i: int|
            Seq::new(
                list.len(),
                |j: int|
                    {
                        let w = list[j].unwrap().waiting();
                        (times(w, w.len() as int, i) + (if i == tid && j == id {
                            1int
                        } else {
                            0
                        })) as usize
                    },
            ),
    )
}

/// The rows filled up with zeros to `m` columns.
pub open spec fn padded(rows: Seq<Seq<usize>>, m: int) -> Seq<Seq<usize>> {
    Seq::new(
        rows.len(),
        |i: int|
            Seq::new(
                m as nat,
                |j: int|
                    if j < rows[i].len() {
                        rows[i][j]
                    } else {
                        0
                    },
            ),
    )
}

impl Process {
    /// The mutexes are in order, and threads of the process sleep on them; the
    /// book has a row for each thread with a column for each mutex.
    pub open spec fn mutexes_wf(&self) -> bool {
        &&& forall|j: int|
            0 <= j < self.mutex_list@.len() ==> (#[trigger] self.mutex_list@[j] matches Some(m)
                ==> m.wf() && forall|k: int|
                0 <= k < m.waiting().len() ==> #[trigger] m.waiting()[k] < self.threads)
        &&& self.mutex_allocation@.len() == self.threads
        &&& forall|i: int|
            0 <= i < self.threads ==> (#[trigger] self.mutex_allocation@[i])@.len()
                == self.mutex_list@.len()
        &&& forall|i: int, j: int|
            0 <= i < self.threads && 0 <= j < self.mutex_list@.len()
                ==> #[trigger] self.mutex_allocation@[i]@[j] <= 1
        &&& self.mutex_list@.len() < isize::MAX
        &&& self.threads < isize::MAX
    }

    /// The semaphores are in order, and threads of the process sleep on them;
    /// the book has a row for each thread with at most a column for each
    /// semaphore.
    pub open spec fn semaphores_wf(&self) -> bool {
        &&& forall|j: int|
            0 <= j < self.semaphore_list@.len() ==> (#[trigger] self.semaphore_list@[j] matches Some(
                s,
            ) ==> s.wf() && forall|k: int|
                0 <= k < s.waiting().len() ==> #[trigger] s.waiting()[k] < self.threads)
        &&& self.semaphore_allocation@.len() == self.threads
        &&& forall|i: int|
            0 <= i < self.threads ==> (#[trigger] self.semaphore_allocation@[i])@.len()
                <= self.semaphore_list@.len()
        &&& self.semaphore_list@.len() < isize::MAX
        &&& self.threads < isize::MAX
    }

    /// A process with `threads` threads and nothing to share.
    pub fn new(threads: usize) -> (r: Self)
        requires
            threads < isize::MAX,
        ensures
            r.threads == threads,
            r.mutexes_wf(),
            r.semaphores_wf(),
            r.mutex_list@.len() == 0,
            r.semaphore_list@.len() == 0,
            r.condvar_list@.len() == 0,
            !r.deadlock_detect,
    {
        let mut mutex_allocation: Vec<Vec<usize>> = Vec::new();
        let mut semaphore_allocation: Vec<Vec<usize>> = Vec::new();
        let mut i: usize = 0;
        while i < threads
            invariant
                i <= threads,
                mutex_allocation@.len() == i,
                semaphore_allocation@.len() == i,
                forall|k: int| 0 <= k < i ==> (#[trigger] mutex_allocation@[k])@.len() == 0,
                forall|k: int| 0 <= k < i ==> (#[trigger] semaphore_allocation@[k])@.len() == 0,
            decreases threads - i,
        {
            mutex_allocation.push(Vec::new());
            semaphore_allocation.push(Vec::new());
            i += 1;
        }
        Process {
            threads,
            mutex_list: Vec::new(),
            semaphore_list: Vec::new(),
            condvar_list: Vec::new(),
            mutex_allocation,
            semaphore_allocation,
            deadlock_detect: false,
        }
    }

    /// Whether deadlocks are detected.
    pub fn is_deadlock_detect_enabled(&self) -> (r: bool)
        ensures
            r == self.deadlock_detect,
    {
        self.deadlock_detect
    }

    /// Switches deadlock detection off with 0 and on with 1, and returns 0;
    /// with any other argument nothing changes, and -1 is returned.
    pub fn enable_deadlock_detect(&mut self, enabled: usize) -> (r: isize)
        ensures
            r == if enabled <= 1 {
                0int
            } else {
                -1
            },
            *final(self) == (Process {
                deadlock_detect: if enabled <= 1 {
                    enabled == 1
                } else {
                    old(self).deadlock_detect
                },
                ..*old(self)
            }),
    {
        if enabled == 0 {
            self.deadlock_detect = false;
            0
        } else if enabled == 1 {
            self.deadlock_detect = true;
            0
        } else {
            -1
        }
    }

    /// The free mutexes.
    pub(crate) fn available_mutexes(&self) -> (r: Vec<usize>)
        requires
            self.mutexes_wf(),
        ensures
            r@ == mutex_available(self.mutex_list@),
    {
        let mut r: Vec<usize> = Vec::new();
        let mut j: usize = 0;
        while j < self.mutex_list.len()
            invariant
                j <= self.mutex_list@.len(),
                r@ =~= mutex_available(self.mutex_list@).subrange(0, j as int),
            decreases self.mutex_list@.len() - j,
        {
            let mut free: usize = 0;
            match &self.mutex_list[j] {
                Some(m) => {
                    if !m.locked() {
                        free = 1;
                    }
                },
                None => {},
            }
            r.push(free);
            j += 1;
        }
        r
    }

    /// What the threads wait for, where thread `tid` asks for mutex `id`.
    pub(crate) fn needed_mutexes(&self, tid: usize, id: usize) -> (r: Vec<Vec<usize>>)
        requires
            self.mutexes_wf(),
            forall|j: int|
                0 <= j < self.mutex_list@.len() ==> #[trigger] self.mutex_list@[j] is Some,
        ensures
            utils::rows(r@) == mutex_need(
                self.mutex_list@,
                self.threads as int,
                tid as int,
                id as int,
            ),
    {
        let n: usize = self.threads;
        let m: usize = self.mutex_list.len();
        let ghost spec = mutex_need(self.mutex_list@, n as int, tid as int, id as int);
        let mut r: Vec<Vec<usize>> = Vec::new();
        let mut i: usize = 0;
        while i < n
            invariant
                i <= n,
                n == self.threads,
                m == self.mutex_list@.len(),
                self.mutexes_wf(),
                spec == mutex_need(self.mutex_list@, n as int, tid as int, id as int),
                forall|j: int| 0 <= j < m ==> #[trigger] self.mutex_list@[j] is Some,
                r@.len() == i,
                forall|k: int| 0 <= k < i ==> (#[trigger] r@[k])@ == spec[k],
            decreases n - i,
        {
            let mut row: Vec<usize> = Vec::new();
            let mut j: usize = 0;
            while j < m
                invariant
                    i < n,
                    j <= m,
                    n == self.threads,
                    m == self.mutex_list@.len(),
                    self.mutexes_wf(),
                    spec == mutex_need(self.mutex_list@, n as int, tid as int, id as int),
                    forall|j: int| 0 <= j < m ==> #[trigger] self.mutex_list@[j] is Some,
                    row@ =~= spec[i as int].subrange(0, j as int),
                decreases m - j,
            {
                let mut need: usize = 0;
                if i == tid && j == id {
                    need = 1;
                }
                match &self.mutex_list[j] {
                    Some(mutex) => {
                        let blocked: Vec<usize> = mutex.blocked_tids();
                        if contains_tid(&blocked, i) {
                            need = 1;
                        }
                    },
                    None => {},
                }
                row.push(need);
                j += 1;
            }
            assert(row@ =~= spec[i as int]);
            r.push(row);
            i += 1;
        }
        assert(utils::rows(r@) =~= spec);
        r
    }

    /// What is left of the semaphores.
    pub(crate) fn available_semaphores(&self) -> (r: Vec<usize>)
        requires
            self.semaphores_wf(),
        ensures
            r@ == semaphore_available(self.semaphore_list@),
    {
        let mut r: Vec<usize> = Vec::new();
        let mut j: usize = 0;
        while j < self.semaphore_list.len()
            invariant
                j <= self.semaphore_list@.len(),
                r@ =~= semaphore_available(self.semaphore_list@).subrange(
                    0,
                    j as int,
                ),
            decreases self.semaphore_list@.len() - j,
        {
            let mut free: usize = 0;
            match &self.semaphore_list[j] {
                Some(s) => {
                    if s.count() > 0 {
                        free = s.count() as usize;
                    }
                },
                None => {},
            }
            r.push(free);
            j += 1;
        }
        r
    }

    /// What the threads wait for, where thread `tid` asks for semaphore `id`.
    pub(crate) fn needed_semaphores(&self, tid: usize, id: usize) -> (r: Vec<Vec<usize>>)
        requires
            self.semaphores_wf(),
            forall|j: int|
                0 <= j < self.semaphore_list@.len() ==> #[trigger] self.semaphore_list@[j] is Some,
        ensures
            utils::rows(r@) == semaphore_need(
                self.semaphore_list@,
                self.threads as int,
                tid as int,
                id as int,
            ),
    {
        let n: usize = self.threads;
        let m: usize = self.semaphore_list.len();
        let ghost spec = semaphore_need(self.semaphore_list@, n as int, tid as int, id as int);
        let mut r: Vec<Vec<usize>> = Vec::new();
        let mut i: usize = 0;
        while i < n
            invariant
                i <= n,
                n == self.threads,
                m == self.semaphore_list@.len(),
                spec == semaphore_need(self.semaphore_list@, n as int, tid as int, id as int),
                self.semaphores_wf(),
                forall|j: int| 0 <= j < m ==> #[trigger] self.semaphore_list@[j] is Some,
                r@.len() == i,
                forall|k: int| 0 <= k < i ==> (#[trigger] r@[k])@ == spec[k],
            decreases n - i,
        {
            let mut row: Vec<usize> = Vec::new();
            let mut j: usize = 0;
            while j < m
                invariant
                    i < n,
                    j <= m,
                    m == self.semaphore_list@.len(),
                    spec == semaphore_need(self.semaphore_list@, n as int, tid as int, id as int),
                    self.semaphores_wf(),
                    forall|j: int| 0 <= j < m ==> #[trigger] self.semaphore_list@[j] is Some,
                    row@ =~= spec[i as int].subrange(0, j as int),
                decreases m - j,
            {
                let mut need: usize = 0;
                proof {
                    self.semaphore_list@[j as int].unwrap().lemma_level();
                }
                match &self.semaphore_list[j] {
                    Some(s) => {
                        let blocked: Vec<usize> = s.blocked_tids();
                        need = count_tid(&blocked, i);
                    },
                    None => {},
                }
                if i == tid && j == id {
                    need += 1;
                }
                row.push(need);
                j += 1;
            }
            assert(row@ =~= spec[i as int]);
            r.push(row);
            i += 1;
        }
        assert(utils::rows(r@) =~= spec);
        r
    }
}

/// Whether the thread is among those.
fn contains_tid(tids: &Vec<usize>, tid: usize) -> (r: bool)
    ensures
        r == tids@.contains(tid),
{
    let mut i: usize = 0;
    while i < tids.len()
        invariant
            i <= tids@.len(),
            forall|k: int| 0 <= k < i ==> tids@[k] != tid,
        decreases tids@.len() - i,
    {
        if tids[i] == tid {
            assert(tids@.contains(tids@[i as int]));
            return true;
        }
        i += 1;
    }
    false
}

/// How often the thread is among those.
fn count_tid(tids: &Vec<usize>, tid: usize) -> (r: usize)
    ensures
        r == times(tids@, tids@.len() as int, tid as int),
        r <= tids@.len(),
{
    let mut r: usize = 0;
    let mut i: usize = 0;
    while i < tids.len()
        invariant
            i <= tids@.len(),
            r <= i,
            r == times(tids@, i as int, tid as int),
        decreases tids@.len() - i,
    {
        if tids[i] == tid {
            r += 1;
        }
        i += 1;
    }
    r
}

/// The number that a list gives out is its lowest free one.
pub proof fn law_lowest_free<T>(list: Seq<Option<T>>, i: int)
    requires
        0 <= i <= list.len(),
    ensures
        i <= first_free(list, i) <= list.len(),
        first_free(list, i) < list.len() ==> list[first_free(list, i)] is None,
        forall|j: int| i <= j < first_free(list, i) ==> (#[trigger] list[j]) is Some,
    decreases list.len() - i,
{
    if i < list.len() && list[i] is Some {
        law_lowest_free(list, i + 1);
    }
}

} // verus!
