//! Which requests deadlock detection refuses, and what the book that it keeps says.
use super::sync;
use super::Step;
use crate::sync::mutex::KernelMutex;
use crate::sync::mutex::Mutex;
use crate::sync::utils;
use crate::task::process;
use crate::task::process::Process;
use vstd::prelude::*;

verus! {

/// The thread of the cycle that comes first in the order.
proof fn lemma_earliest(order: Seq<int>, n: int, c: Seq<int>, l: int) -> (r: (int, int))
    requires
        order.len() == n,
        order.no_duplicates(),
        forall|k: int| 0 <= k < n ==> 0 <= #[trigger] order[k] < n,
        0 < l <= c.len(),
        forall|x: int| 0 <= x < c.len() ==> 0 <= #[trigger] c[x] < n,
    ensures
        0 <= r.0 < l,
        0 <= r.1 < n,
        order[r.1] == c[r.0],
        forall|x: int, k: int| 0 <= x < l && 0 <= k < r.1 ==> #[trigger] order[k] != #[trigger] c[x],
    decreases l,
{
    sync::lemma_place(order, n, c[l - 1]);
    let k = choose|k: int| 0 <= k < order.len() && order[k] == c[l - 1];
    if l == 1 {
        assert forall|x: int, j: int| 0 <= x < l && 0 <= j < k implies #[trigger] order[j]
            != #[trigger] c[x] by {
            assert(order[j] != order[k]);
        }
        (0, k)
    } else {
        let (x0, k0) = lemma_earliest(order, n, c, l - 1);
        if k < k0 {
            assert forall|x: int, j: int| 0 <= x < l && 0 <= j < k implies #[trigger] order[j]
                != #[trigger] c[x] by {
                if x == l - 1 {
                    assert(order[j] != order[k]);
                }
            }
            (l - 1, k)
        } else {
            assert forall|x: int, j: int| 0 <= x < l && 0 <= j < k0 implies #[trigger] order[j]
                != #[trigger] c[x] by {
                if x == l - 1 {
                    assert(order[j] != order[k]);
                }
            }
            (x0, k0)
        }
    }
}

/// Where each thread of a cycle needs some of a resource of which nothing is left,
/// and which the next thread alone holds, no order lets all threads finish.
pub proof fn law_cycle_unsafe(
    al: Seq<Seq<usize>>,
    available: Seq<usize>,
    need: Seq<Seq<usize>>,
    c: Seq<int>,
    b: Seq<int>,
)
    requires
        c.len() > 0,
        b.len() == c.len(),
        forall|x: int| 0 <= x < c.len() ==> 0 <= #[trigger] c[x] < al.len(),
        forall|x: int| 0 <= x < c.len() ==> 0 <= #[trigger] b[x] < al[0].len(),
        forall|x: int|
            #![trigger b[x]]
            0 <= x < c.len() ==> available[b[x]] == 0 && need[c[x]][b[x]] > 0,
        forall|x: int, i: int|
            #![trigger b[x], al[i]]
            0 <= x < c.len() && 0 <= i < al.len() && i != c[(x + 1) % (c.len() as int)]
                ==> al[i][b[x]] == 0,
    ensures
        !utils::safe(al, available, need),
{
    let n = al.len() as int;
    let m = utils::resources(al);
    assert(c[0] < al.len());
    if utils::safe(al, available, need) {
        let order = choose|order: Seq<int>| utils::safe_order(al, available, need, m, order);
        let (x, k) = lemma_earliest(order, n, c, c.len() as int);
        let j = b[x];
        let y = (x + 1) % (c.len() as int);
        let next = c[y];
        assert forall|a: int| 0 <= a < k implies 0 <= #[trigger] order[a] < al.len() && order[a]
            != next by {
            assert(order[a] != c[y]);
        }
        assert forall|i: int| 0 <= i < al.len() && i != next implies #[trigger] al[i][j] == 0 by {
            assert(al[i][b[x]] == 0);
        }
        sync::lemma_first_hold_none(al, order, k, next, j);
        assert(need[order[k]][j] <= available[j] + utils::held_by_first(al, order, k, j));
    }
}

/// A thread is refused a mutex where that would close a cycle: each thread of the
/// cycle waits for a mutex, or is the one that asks, and the next one alone holds
/// it.
pub proof fn law_lock_cycle_refused(p: &Process, tid: int, id: int, c: Seq<int>, b: Seq<int>)
    requires
        sync::can_lock(p, tid, id),
        p.deadlock_detect,
        forall|j: int| 0 <= j < p.mutex_list@.len() ==> #[trigger] p.mutex_list@[j] is Some,
        c.len() > 0,
        b.len() == c.len(),
        forall|x: int| 0 <= x < c.len() ==> 0 <= #[trigger] c[x] < p.threads,
        forall|x: int| 0 <= x < c.len() ==> 0 <= #[trigger] b[x] < p.mutex_list@.len(),
        forall|x: int|
            #![trigger b[x]]
            0 <= x < c.len() ==> p.mutex_list@[b[x]]->0.held() && (
            p.mutex_list@[b[x]]->0.waiting().contains(c[x] as usize) || (c[x] == tid && b[x]
                == id)),
        forall|x: int, i: int|
            #![trigger b[x], p.mutex_allocation@[i]]
            0 <= x < c.len() && 0 <= i < p.threads && i != c[(x + 1) % (c.len() as int)]
                ==> p.mutex_allocation@[i]@[b[x]] == 0,
    ensures
        sync::lock_is_unsafe(p, tid, id),
{
    let al = utils::rows(p.mutex_allocation@);
    let available = process::mutex_available(p.mutex_list@);
    let need = process::mutex_need(p.mutex_list@, p.threads as int, tid, id);
    assert(al[0] == p.mutex_allocation@[0]@);
    assert forall|x: int|
        #![trigger b[x]]
        0 <= x < c.len() implies available[b[x]] == 0 && need[c[x]][b[x]] > 0 by {
        assert(0 <= c[x] < p.threads);
        assert(p.mutex_list@[b[x]] is Some);
    }
    assert forall|x: int, i: int|
        #![trigger b[x], al[i]]
        0 <= x < c.len() && 0 <= i < al.len() && i != c[(x + 1) % (c.len() as int)] implies al[i][b[x]]
        == 0 by {
        assert(p.mutex_allocation@[i]@[b[x]] == 0);
    }
    law_cycle_unsafe(al, available, need, c, b);
}

/// Two threads do not wait for each other: where thread `t` alone holds mutex `a`,
/// thread `u` alone holds mutex `b` and waits for `a`, thread `t` is refused `b`.
pub proof fn law_crossed_locks_refused(p: &Process, t: int, u: int, a: int, b: int)
    requires
        sync::can_lock(p, t, b),
        p.deadlock_detect,
        forall|j: int| 0 <= j < p.mutex_list@.len() ==> #[trigger] p.mutex_list@[j] is Some,
        0 <= u < p.threads,
        0 <= a < p.mutex_list@.len(),
        p.mutex_list@[a]->0.held(),
        p.mutex_list@[b]->0.held(),
        p.mutex_list@[a]->0.waiting().contains(u as usize),
        forall|i: int|
            0 <= i < p.threads && i != t ==> (#[trigger] p.mutex_allocation@[i])@[a] == 0,
        forall|i: int|
            0 <= i < p.threads && i != u ==> (#[trigger] p.mutex_allocation@[i])@[b] == 0,
    ensures
        sync::lock_is_unsafe(p, t, b),
{
    let c = seq![t, u];
    let w = seq![b, a];
    assert(c[0] == t && c[1] == u && w[0] == b && w[1] == a);
    assert forall|x: int, i: int|
        #![trigger w[x], p.mutex_allocation@[i]]
        0 <= x < c.len() && 0 <= i < p.threads && i != c[(x + 1) % (c.len() as int)]
            implies p.mutex_allocation@[i]@[w[x]] == 0 by {
        vstd::arithmetic::div_mod::lemma_small_mod(1, 2);
        vstd::arithmetic::div_mod::lemma_mod_self_0(2);
        if x == 0 {
            assert(c[(x + 1) % (c.len() as int)] == u);
        } else {
            assert(c[(x + 1) % (c.len() as int)] == t);
        }
    }
    law_lock_cycle_refused(p, t, b, c, w);
}

/// Detection that is switched off refuses nothing.
pub proof fn law_no_detection(p: &Process, tid: int, id: int)
    requires
        !p.deadlock_detect,
    ensures
        !sync::lock_is_unsafe(p, tid, id),
        !sync::down_is_unsafe(p, tid, id),
{
}

/// A thread that waits is counted.
proof fn lemma_times(s: Seq<usize>, n: int, x: int)
    requires
        0 <= n <= s.len(),
    ensures
        0 <= process::times(s, n, x) <= n,
        (exists|k: int| 0 <= k < n && #[trigger] s[k] == x) ==> process::times(s, n, x) > 0,
        (forall|k: int| 0 <= k < n ==> #[trigger] s[k] != x) ==> process::times(s, n, x) == 0,
    decreases n,
{
    if n > 0 {
        lemma_times(s, n - 1, x);
    }
}

/// A thread is refused a semaphore of which nothing is left, where that would close a
/// cycle: each thread of the cycle waits for such a semaphore, or is the one that
/// asks, and the next one alone holds some of it.
pub proof fn law_down_cycle_refused(p: &Process, tid: int, id: int, c: Seq<int>, b: Seq<int>)
    requires
        sync::can_use(p, tid, id),
        p.deadlock_detect,
        forall|j: int| 0 <= j < p.semaphore_list@.len() ==> #[trigger] p.semaphore_list@[j] is Some,
        c.len() > 0,
        b.len() == c.len(),
        forall|x: int| 0 <= x < c.len() ==> 0 <= #[trigger] c[x] < p.threads,
        forall|x: int| 0 <= x < c.len() ==> 0 <= #[trigger] b[x] < p.semaphore_list@.len(),
        forall|x: int|
            #![trigger b[x]]
            0 <= x < c.len() ==> p.semaphore_list@[b[x]]->0.level() <= 0 && (
            p.semaphore_list@[b[x]]->0.waiting().contains(c[x] as usize) || (c[x] == tid && b[x]
                == id)),
        forall|x: int, i: int|
            #![trigger b[x], p.semaphore_allocation@[i]]
            0 <= x < c.len() && 0 <= i < p.threads && i != c[(x + 1) % (c.len() as int)] && b[x]
                < p.semaphore_allocation@[i]@.len() ==> p.semaphore_allocation@[i]@[b[x]] == 0,
    ensures
        sync::down_is_unsafe(p, tid, id),
{
    let m = p.semaphore_list@.len() as int;
    let rows = utils::rows(p.semaphore_allocation@);
    let al = process::padded(rows, m);
    let available = process::semaphore_available(p.semaphore_list@);
    let need = process::semaphore_need(p.semaphore_list@, p.threads as int, tid, id);
    assert(al[0].len() == m);
    assert forall|x: int|
        #![trigger b[x]]
        0 <= x < c.len() implies available[b[x]] == 0 && need[c[x]][b[x]] > 0 by {
        assert(0 <= c[x] < p.threads);
        assert(p.semaphore_list@[b[x]] is Some);
        let s = p.semaphore_list@[b[x]]->0;
        let w = s.waiting();
        s.lemma_level();
        lemma_times(w, w.len() as int, c[x]);
        if w.contains(c[x] as usize) {
            let k = choose|k: int| 0 <= k < w.len() && w[k] == c[x] as usize;
            assert(w[k] == c[x]);
        }
    }
    assert forall|x: int, i: int|
        #![trigger b[x], al[i]]
        0 <= x < c.len() && 0 <= i < al.len() && i != c[(x + 1) % (c.len() as int)] implies al[i][b[x]]
        == 0 by {
        assert(rows[i] == p.semaphore_allocation@[i]@);
    }
    law_cycle_unsafe(al, available, need, c, b);
}

/// A thread is not refused a semaphore of which something is left while no thread
/// waits for any.
pub proof fn law_free_down_granted(p: &Process, tid: int, id: int)
    requires
        sync::can_use(p, tid, id),
        p.semaphore_list@[id]->0.level() > 0,
        forall|j: int|
            0 <= j < p.semaphore_list@.len() ==> #[trigger] p.semaphore_list@[j] is Some
                && p.semaphore_list@[j]->0.waiting().len() == 0,
    ensures
        !sync::down_is_unsafe(p, tid, id),
{
    let m = p.semaphore_list@.len() as int;
    let al = process::padded(utils::rows(p.semaphore_allocation@), m);
    let available = process::semaphore_available(p.semaphore_list@);
    let need = process::semaphore_need(p.semaphore_list@, p.threads as int, tid, id);
    assert(al[0].len() == m);
    let order = Seq::new(p.threads as nat, |k: int| k);
    assert forall|k: int, j: int| 0 <= k < order.len() && 0 <= j < m implies #[trigger] need[order[k]][j]
        <= available[j] + #[trigger] utils::held_by_first(al, order, k, j) by {
        sync::lemma_first_nonneg(al, order, k, j);
        assert(p.semaphore_list@[j] is Some);
        let s = p.semaphore_list@[j]->0;
        s.lemma_level();
        lemma_times(s.waiting(), 0, k);
        assert(s.waiting().len() == 0);
    }
    assert(utils::resources(al) == m);
    assert(utils::safe_order(al, available, need, m, order));
}

/// Threads that finished hand back what one of them held.
proof fn lemma_first_hold_some(al: Seq<Seq<usize>>, order: Seq<int>, k: int, a: int, j: int)
    requires
        0 <= a < k,
    ensures
        utils::held_by_first(al, order, k, j) >= al[order[a]][j],
    decreases k,
{
    if a == k - 1 {
        sync::lemma_first_nonneg(al, order, k - 1, j);
    } else {
        lemma_first_hold_some(al, order, k - 1, a, j);
    }
}

/// A thread is not refused a mutex where the threads can be put in an order in which
/// each finds the mutexes that it waits or asks for free, or held by one before it.
pub proof fn law_lock_in_order_granted(p: &Process, tid: int, id: int, order: Seq<int>)
    requires
        sync::can_lock(p, tid, id),
        forall|j: int| 0 <= j < p.mutex_list@.len() ==> #[trigger] p.mutex_list@[j] is Some,
        order.len() == p.threads,
        order.no_duplicates(),
        forall|k: int| 0 <= k < order.len() ==> 0 <= #[trigger] order[k] < p.threads,
        forall|k: int, j: int|
            #![trigger order[k], p.mutex_list@[j]]
            0 <= k < order.len() && 0 <= j < p.mutex_list@.len() && p.mutex_list@[j]->0.held() && (
            p.mutex_list@[j]->0.waiting().contains(order[k] as usize) || (order[k] == tid && j
                == id)) ==> exists|a: int|
                0 <= a < k && p.mutex_allocation@[#[trigger] order[a]]@[j] > 0,
    ensures
        !sync::lock_is_unsafe(p, tid, id),
{
    let al = utils::rows(p.mutex_allocation@);
    let available = process::mutex_available(p.mutex_list@);
    let need = process::mutex_need(p.mutex_list@, p.threads as int, tid, id);
    let m = p.mutex_list@.len() as int;
    assert(al[0] == p.mutex_allocation@[0]@);
    assert(utils::resources(al) == m);
    assert forall|k: int, j: int| 0 <= k < order.len() && 0 <= j < m implies #[trigger] need[order[k]][j]
        <= available[j] + #[trigger] utils::held_by_first(al, order, k, j) by {
        sync::lemma_first_nonneg(al, order, k, j);
        let mutex = p.mutex_list@[j]->0;
        assert(p.mutex_list@[j] is Some);
        assert(0 <= order[k] < p.threads);
        if mutex.held() && (mutex.waiting().contains(order[k] as usize) || (order[k] == tid && j
            == id)) {
            let a = choose|a: int|
                0 <= a < k && p.mutex_allocation@[#[trigger] order[a]]@[j] > 0;
            assert(al[order[a]] == p.mutex_allocation@[order[a]]@);
            lemma_first_hold_some(al, order, k, a, j);
        }
    }
    assert(utils::safe_order(al, available, need, m, order));
}

/// A thread that waits once is counted once.
proof fn lemma_times_once(s: Seq<usize>, n: int, x: int)
    requires
        0 <= n <= s.len(),
        s.no_duplicates(),
    ensures
        0 <= process::times(s, n, x) <= 1,
    decreases n,
{
    if n > 0 {
        lemma_times_once(s, n - 1, x);
        if s[n - 1] == x {
            assert forall|k: int| 0 <= k < n - 1 implies #[trigger] s[k] != x by {
                assert(s[k] != s[n - 1]);
            }
            lemma_times(s, n - 1, x);
        }
    }
}

/// A thread is not refused a semaphore where the threads can be put in an order in
/// which each finds that something is left of the semaphores that it waits or asks
/// for, or that one before it holds some.
pub proof fn law_down_in_order_granted(p: &Process, tid: int, id: int, order: Seq<int>)
    requires
        sync::can_use(p, tid, id),
        forall|j: int|
            0 <= j < p.semaphore_list@.len() ==> #[trigger] p.semaphore_list@[j] is Some
                && p.semaphore_list@[j]->0.waiting().no_duplicates(),
        !p.semaphore_list@[id]->0.waiting().contains(tid as usize),
        order.len() == p.threads,
        order.no_duplicates(),
        forall|k: int| 0 <= k < order.len() ==> 0 <= #[trigger] order[k] < p.threads,
        forall|k: int, j: int|
            #![trigger order[k], p.semaphore_list@[j]]
            0 <= k < order.len() && 0 <= j < p.semaphore_list@.len()
                && p.semaphore_list@[j]->0.level() <= 0 && (
            p.semaphore_list@[j]->0.waiting().contains(order[k] as usize) || (order[k] == tid && j
                == id)) ==> exists|a: int|
                0 <= a < k && j < p.semaphore_allocation@[#[trigger] order[a]]@.len()
                    && p.semaphore_allocation@[order[a]]@[j] > 0,
    ensures
        !sync::down_is_unsafe(p, tid, id),
{
    let m = p.semaphore_list@.len() as int;
    let rows = utils::rows(p.semaphore_allocation@);
    let al = process::padded(rows, m);
    let available = process::semaphore_available(p.semaphore_list@);
    let need = process::semaphore_need(p.semaphore_list@, p.threads as int, tid, id);
    assert(al[0].len() == m);
    assert(utils::resources(al) == m);
    assert forall|k: int, j: int| 0 <= k < order.len() && 0 <= j < m implies #[trigger] need[order[k]][j]
        <= available[j] + #[trigger] utils::held_by_first(al, order, k, j) by {
        sync::lemma_first_nonneg(al, order, k, j);
        let s = p.semaphore_list@[j]->0;
        let w = s.waiting();
        let i = order[k];
        assert(p.semaphore_list@[j] is Some);
        assert(0 <= i < p.threads);
        s.lemma_level();
        lemma_times(w, w.len() as int, i);
        lemma_times_once(w, w.len() as int, i);
        if !w.contains(i as usize) {
            assert forall|x: int| 0 <= x < w.len() implies #[trigger] w[x] != i by {
                assert(w.contains(w[x]));
            }
        }
        assert(need[i][j] <= 1);
        if s.level() <= 0 && (w.contains(i as usize) || (i == tid && j == id)) {
            let a = choose|a: int|
                0 <= a < k && j < p.semaphore_allocation@[#[trigger] order[a]]@.len()
                    && p.semaphore_allocation@[order[a]]@[j] > 0;
            assert(rows[order[a]] == p.semaphore_allocation@[order[a]]@);
            lemma_first_hold_some(al, order, k, a, j);
        }
    }
    assert(utils::safe_order(al, available, need, m, order));
}

/// What the book says of a mutex that was noted: that of the thread, and nothing
/// else, has changed.
pub proof fn law_noted(p: &Process, tid: int, id: int, x: usize, i: int, j: int)
    requires
        p.mutexes_wf(),
        0 <= tid < p.threads,
        0 <= id < p.mutex_list@.len(),
        0 <= i < p.threads,
        0 <= j < p.mutex_list@.len(),
    ensures
        sync::noted(p, tid, id, x)[i][j] == if p.deadlock_detect && i == tid && j == id {
            x
        } else {
            p.mutex_allocation@[i]@[j]
        },
{
    assert(p.mutex_allocation@[tid]@.len() == p.mutex_list@.len());
    assert(p.mutex_allocation@[i]@.len() == p.mutex_list@.len());
}

/// A thread that has locked a mutex which no other thread holds is refused it while
/// detection is on, until it gives the mutex up.
pub proof fn law_lock_then_relock(p0: &Process, p1: &Process, tid: usize, id: int, r: Step)
    requires
        sync::can_lock(p0, tid as int, id),
        p0.deadlock_detect,
        p1.mutexes_wf(),
        sync::lock_step(p0, p1, tid, id, r),
        !p0.mutex_list@[id]->0.held(),
        forall|i: int|
            0 <= i < p0.threads && i != tid ==> (#[trigger] p0.mutex_allocation@[i])@[id] == 0,
    ensures
        r == Step::Done(0),
        p1.mutex_allocation@[tid as int]@[id] == 1,
        sync::lock_is_unsafe(p1, tid as int, id),
{
    let m0 = p0.mutex_list@[id].unwrap();
    let m1 = choose|m1: KernelMutex| #[trigger]
        sync::mutex_asked(m0, m1, tid) && p1.mutex_list@ == p0.mutex_list@.update(id, Some(m1));
    assert(p1.mutex_list@[id] == Some(m1));
    let rows1 = utils::rows(p1.mutex_allocation@);
    assert forall|i: int| 0 <= i < p1.threads implies (#[trigger] p1.mutex_allocation@[i])@[id]
        == if i == tid {
        1
    } else {
        p0.mutex_allocation@[i]@[id]
    } by {
        law_noted(p0, tid as int, id, 1, i, id);
        assert(rows1[i] == p1.mutex_allocation@[i]@);
    }
    assert forall|i: int| 0 <= i < p1.threads && i != tid implies #[trigger] p1.mutex_allocation@[i]@[id]
        == 0 by {
        assert(p0.mutex_allocation@[i]@[id] == 0);
    }
    sync::law_relock_refused(p1, tid as int, id);
}

/// What the book says of a semaphore after `d` was counted for a thread.
pub proof fn law_counted(rows: Seq<Seq<usize>>, tid: int, id: int, d: int, i: int, j: int)
    requires
        0 <= tid < rows.len(),
        0 <= id < rows[tid].len(),
        0 <= i < rows.len(),
        0 <= j < rows[i].len(),
        0 <= rows[tid][id] + d <= usize::MAX,
    ensures
        sync::counted(rows, tid, id, d)[i][j] == if i == tid && j == id {
            rows[i][j] + d
        } else {
            rows[i][j] as int
        },
{
}

/// Filling the book up changes no entry, and gives every thread one for every
/// semaphore.
pub proof fn law_padded(rows: Seq<Seq<usize>>, m: int, i: int, j: int)
    requires
        0 <= i < rows.len(),
        0 <= j < m,
    ensures
        process::padded(rows, m).len() == rows.len(),
        process::padded(rows, m)[i].len() == m,
        process::padded(rows, m)[i][j] == if j < rows[i].len() {
            rows[i][j]
        } else {
            0
        },
{
}

/// No thread holds anything of what was just created, and what threads hold of the
/// rest stays.
pub proof fn law_created_unheld(rows: Seq<Seq<usize>>, id: int, i: int, j: int)
    requires
        0 <= i < rows.len(),
        0 <= id <= rows[i].len(),
        0 <= j < rows[i].len() || j == id,
    ensures
        process::column_cleared(rows, id)[i][j] == if j == id {
            0
        } else {
            rows[i][j]
        },
{
}

/// What is put into a list stands in its place, and the others stay.
pub proof fn law_placed<T>(list: Seq<T>, id: int, item: T, j: int)
    requires
        0 <= id <= list.len(),
        0 <= j < list.len() || j == id,
    ensures
        process::placed(list, id, item)[j] == if j == id {
            item
        } else {
            list[j]
        },
        process::placed(list, id, item).len() == if id == list.len() {
            list.len() + 1
        } else {
            list.len()
        },
{
}

} // verus!
