//! The safety check of the banker's algorithm.
use vstd::prelude::*;

verus! {

/// The rows of a matrix.
pub open spec fn rows(v: Seq<Vec<usize>>) -> Seq<Seq<usize>> {
    Seq::new(v.len(), |i: int| v[i]@)
}

/// What the first `k` threads of an order hold of resource `j`.
pub open spec fn held_by_first(
    allocation: Seq<Seq<usize>>,
    order: Seq<int>,
    k: int,
    j: int,
) -> int
    decreases k,
{
    if k <= 0 {
        0
    } else {
        held_by_first(allocation, order, k - 1, j) + allocation[order[k - 1]][j]
    }
}

/// What the finished ones of the first `n` threads hold of resource `j`.
pub open spec fn held_by_finished(
    allocation: Seq<Seq<usize>>,
    finish: Seq<bool>,
    n: int,
    j: int,
) -> int
    decreases n,
{
    if n <= 0 {
        0
    } else {
        held_by_finished(allocation, finish, n - 1, j) + (if finish[n - 1] {
            allocation[n - 1][j] as int
        } else {
            0
        })
    }
}

/// What all threads hold of resource `j`.
pub open spec fn held_by_all(allocation: Seq<Seq<usize>>, n: int, j: int) -> int
    decreases n,
{
    if n <= 0 {
        0
    } else {
        held_by_all(allocation, n - 1, j) + allocation[n - 1][j]
    }
}

/// The threads can finish in this order: each needs no more than what is
/// available, together with what those before it held.
pub open spec fn safe_order(
    allocation: Seq<Seq<usize>>,
    available: Seq<usize>,
    need: Seq<Seq<usize>>,
    m: int,
    order: Seq<int>,
) -> bool {
    &&& order.len() == allocation.len()
    &&& order.no_duplicates()
    &&& forall|k: int| 0 <= k < order.len() ==> 0 <= #[trigger] order[k] < allocation.len()
    &&& forall|k: int, j: int|
        0 <= k < order.len() && 0 <= j < m ==> #[trigger] need[order[k]][j] <= available[j]
            + #[trigger] held_by_first(allocation, order, k, j)
}

/// The number of resources: the length of the first row.
pub open spec fn resources(allocation: Seq<Seq<usize>>) -> int {
    if allocation.len() == 0 {
        0
    } else {
        allocation[0].len() as int
    }
}

/// The state is safe: some order exists in which all threads can finish.
pub open spec fn safe(
    allocation: Seq<Seq<usize>>,
    available: Seq<usize>,
    need: Seq<Seq<usize>>,
) -> bool {
    exists|order: Seq<int>| safe_order(allocation, available, need, resources(allocation), order)
}

/// The matrices cover all threads and resources, and what is handed back can be
/// counted.
pub open spec fn well_shaped(
    allocation: Seq<Seq<usize>>,
    available: Seq<usize>,
    need: Seq<Seq<usize>>,
) -> bool {
    let m = resources(allocation);
    &&& allocation.len() <= need.len()
    &&& allocation.len() > 0 ==> m <= available.len()
    &&& forall|i: int|
        0 <= i < allocation.len() ==> m <= (#[trigger] allocation[i]).len()
    &&& forall|i: int| 0 <= i < allocation.len() ==> m <= (#[trigger] need[i]).len()
    &&& forall|j: int|
        0 <= j < m ==> available[j] + #[trigger] held_by_all(
            allocation,
            allocation.len() as int,
            j,
        ) <= usize::MAX
}

proof fn lemma_finish_one(
    allocation: Seq<Seq<usize>>,
    finish: Seq<bool>,
    n: int,
    idx: int,
    j: int,
)
    requires
        0 <= idx < n <= finish.len(),
        !finish[idx],
    ensures
        held_by_finished(allocation, finish.update(idx, true), n, j) == held_by_finished(
            allocation,
            finish,
            n,
            j,
        ) + allocation[idx][j],
    decreases n,
{
    if idx == n - 1 {
        lemma_finish_same(allocation, finish, finish.update(idx, true), n - 1, j);
    } else {
        lemma_finish_one(allocation, finish, n - 1, idx, j);
    }
}

proof fn lemma_finish_same(
    allocation: Seq<Seq<usize>>,
    f1: Seq<bool>,
    f2: Seq<bool>,
    n: int,
    j: int,
)
    requires
        n <= f1.len(),
        n <= f2.len(),
        forall|i: int| 0 <= i < n ==> f1[i] == f2[i],
    ensures
        held_by_finished(allocation, f1, n, j) == held_by_finished(allocation, f2, n, j),
    decreases n,
{
    if n > 0 {
        lemma_finish_same(allocation, f1, f2, n - 1, j);
    }
}

proof fn lemma_finish_bound(allocation: Seq<Seq<usize>>, finish: Seq<bool>, n: int, j: int)
    requires
        n <= finish.len(),
    ensures
        0 <= held_by_finished(allocation, finish, n, j) <= held_by_all(allocation, n, j),
    decreases n,
{
    if n > 0 {
        lemma_finish_bound(allocation, finish, n - 1, j);
    }
}

proof fn lemma_none_finished(allocation: Seq<Seq<usize>>, finish: Seq<bool>, n: int, j: int)
    requires
        forall|i: int| 0 <= i < n ==> !finish[i],
    ensures
        held_by_finished(allocation, finish, n, j) == 0,
    decreases n,
{
    if n > 0 {
        lemma_none_finished(allocation, finish, n - 1, j);
    }
}

/// Finished threads that come first in an order hold no more than all finished
/// ones.
proof fn lemma_first_are_finished(
    allocation: Seq<Seq<usize>>,
    order: Seq<int>,
    k: int,
    finish: Seq<bool>,
    j: int,
)
    requires
        0 <= k <= order.len(),
        order.no_duplicates(),
        finish.len() == allocation.len(),
        forall|l: int|
            0 <= l < k ==> 0 <= #[trigger] order[l] < allocation.len() && finish[order[l]],
    ensures
        held_by_first(allocation, order, k, j) <= held_by_finished(
            allocation,
            finish,
            allocation.len() as int,
            j,
        ),
    decreases k,
{
    let n = allocation.len() as int;
    if k > 0 {
        let i = order[k - 1];
        let rest = finish.update(i, false);
        assert forall|l: int| 0 <= l < k - 1 implies 0 <= #[trigger] order[l] < n
            && rest[order[l]] by {
            assert(order[l] != order[k - 1]);
        }
        lemma_first_are_finished(allocation, order, k - 1, rest, j);
        lemma_finish_one(allocation, rest, n, i, j);
        assert(rest.update(i, true) =~= finish);
    } else {
        lemma_finish_bound(allocation, finish, n, j);
    }
}

/// Where no unfinished thread can go on, there is no safe order.
proof fn lemma_stuck(
    allocation: Seq<Seq<usize>>,
    available: Seq<usize>,
    need: Seq<Seq<usize>>,
    m: int,
    finish: Seq<bool>,
    work: Seq<usize>,
    order: Seq<int>,
    left: int,
)
    requires
        finish.len() == allocation.len(),
        m <= work.len(),
        0 <= left < finish.len(),
        !finish[left],
        forall|j: int|
            0 <= j < m ==> #[trigger] work[j] == available[j] + held_by_finished(
                allocation,
                finish,
                allocation.len() as int,
                j,
            ),
        forall|i: int|
            0 <= i < finish.len() && !finish[i] ==> exists|j: int|
                0 <= j < m && #[trigger] need[i][j] > work[j],
    ensures
        !safe_order(allocation, available, need, m, order),
{
    let n = allocation.len() as int;
    if safe_order(allocation, available, need, m, order) {
        assert(exists|k: int| 0 <= k < n && #[trigger] order[k] == left) by {
            lemma_order_hits(order, n, left);
        }
        let k0 = choose|k: int| 0 <= k < n && #[trigger] order[k] == left;
        let k = lemma_first_unfinished(order, finish, k0);
        let i = order[k];
        let j = choose|j: int| 0 <= j < m && #[trigger] need[i][j] > work[j];
        lemma_first_are_finished(allocation, order, k, finish, j);
        assert(need[order[k]][j] <= available[j] + held_by_first(allocation, order, k, j));
        assert(work[j] == available[j] + held_by_finished(allocation, finish, n, j));
    }
}

/// The first unfinished thread of an order, at or before position `k`.
proof fn lemma_first_unfinished(order: Seq<int>, finish: Seq<bool>, k: int) -> (r: int)
    requires
        0 <= k < order.len(),
        forall|l: int| 0 <= l < order.len() ==> 0 <= #[trigger] order[l] < finish.len(),
        !finish[order[k]],
    ensures
        0 <= r <= k,
        !finish[order[r]],
        forall|l: int| 0 <= l < r ==> finish[#[trigger] order[l]],
    decreases k,
{
    if exists|l: int| 0 <= l < k && !finish[#[trigger] order[l]] {
        let l = choose|l: int| 0 <= l < k && !finish[#[trigger] order[l]];
        lemma_first_unfinished(order, finish, l)
    } else {
        k
    }
}

/// An order of all threads holds each of them.
proof fn lemma_order_hits(order: Seq<int>, n: int, i: int)
    requires
        order.len() == n,
        order.no_duplicates(),
        forall|k: int| 0 <= k < n ==> 0 <= #[trigger] order[k] < n,
        0 <= i < n,
    ensures
        exists|k: int| 0 <= k < n && #[trigger] order[k] == i,
{
    if forall|k: int| 0 <= k < n ==> #[trigger] order[k] != i {
        let all = vstd::set_lib::set_int_range(0, n);
        vstd::set_lib::lemma_int_range(0, n);
        let s = order.to_set();
        order.unique_seq_to_set();
        assert(s.subset_of(all.remove(i))) by {
            assert forall|x: int| s.contains(x) implies all.remove(i).contains(x) by {
                let k = choose|k: int| 0 <= k < n && order[k] == x;
                assert(0 <= order[k] < n);
            }
        }
        vstd::set_lib::lemma_len_subset(s, all.remove(i));
        assert(false);
    }
}

/// Whether the state is safe: each thread can get what it still needs, if they
/// go one after the other in some order and hand back what they hold.
pub fn is_safe(
    allocation: &Vec<Vec<usize>>,
    available: &Vec<usize>,
    need: &Vec<Vec<usize>>,
) -> (r: bool)
    requires
        well_shaped(rows(allocation@), available@, rows(need@)),
    ensures
        r == safe(rows(allocation@), available@, rows(need@)),
{
    let ghost al = rows(allocation@);
    let ghost nd = rows(need@);
    let n: usize = allocation.len();
    if n == 0 {
        assert(safe_order(
            al,
            available@,
            nd,
            resources(al),
            Seq::<int>::empty(),
        ));
        return true;
    }
    let m: usize = allocation[0].len();
    let mut work: Vec<usize> = Vec::new();
    let mut w: usize = 0;
    while w < available.len()
        invariant
            w <= available@.len(),
            work@ =~= available@.subrange(0, w as int),
        decreases available@.len() - w,
    {
        work.push(available[w]);
        w += 1;
    }
    assert(work@ =~= available@);
    let mut finish: Vec<bool> = Vec::new();
    let mut f: usize = 0;
    while f < n
        invariant
            f <= n,
            finish@.len() == f,
            forall|i: int| 0 <= i < f ==> !finish@[i],
        decreases n - f,
    {
        finish.push(false);
        f += 1;
    }
    let ghost mut order = Seq::<int>::empty();
    proof {
        assert forall|j: int| 0 <= j < m implies #[trigger] work@[j] == available@[j]
            + held_by_finished(al, finish@, n as int, j) by {
            lemma_none_finished(al, finish@, n as int, j);
        }
    }
    let mut done: usize = 0;
    loop
        invariant
            al == rows(allocation@),
            nd == rows(need@),
            n == al.len(),
            n > 0,
            m == resources(al),
            well_shaped(al, available@, nd),
            finish@.len() == n,
            work@.len() == available@.len(),
            done == order.len(),
            done <= n,
            order.no_duplicates(),
            forall|k: int| 0 <= k < order.len() ==> 0 <= #[trigger] order[k] < n,
            forall|k: int| 0 <= k < order.len() ==> finish@[#[trigger] order[k]],
            forall|i: int|
                0 <= i < n && #[trigger] finish@[i] ==> exists|k: int|
                    0 <= k < order.len() && #[trigger] order[k] == i,
            forall|j: int|
                0 <= j < m ==> #[trigger] work@[j] == available@[j] + held_by_finished(
                    al,
                    finish@,
                    n as int,
                    j,
                ),
            forall|j: int|
                0 <= j < m ==> #[trigger] work@[j] == available@[j] + held_by_first(
                    al,
                    order,
                    order.len() as int,
                    j,
                ),
            forall|k: int, j: int|
                0 <= k < order.len() && 0 <= j < m ==> #[trigger] nd[order[k]][j]
                    <= available@[j] + #[trigger] held_by_first(al, order, k, j),
        decreases n - done,
    {
        match find_ready(&finish, need, &work, m) {
            Some(idx) => {
                let ghost before = work@;
                let mut j: usize = 0;
                while j < m
                    invariant
                        j <= m,
                        idx < n,
                        al == rows(allocation@),
                        nd == rows(need@),
                        n == al.len(),
                        m == resources(al),
                        well_shaped(al, available@, nd),
                        finish@.len() == n,
                        !finish@[idx as int],
                        work@.len() == before.len(),
                        before.len() == available@.len(),
                        forall|x: int|
                            0 <= x < m ==> #[trigger] before[x] == available@[x]
                                + held_by_finished(al, finish@, n as int, x),
                        forall|x: int|
                            0 <= x < m ==> #[trigger] work@[x] == if x < j {
                                before[x] + al[idx as int][x]
                            } else {
                                before[x] as int
                            },
                    decreases m - j,
                {
                    proof {
                        let all = finish@.update(idx as int, true);
                        lemma_finish_one(al, finish@, n as int, idx as int, j as int);
                        lemma_finish_bound(al, all, n as int, j as int);
                        assert(available@[j as int] + held_by_all(
                            al,
                            n as int,
                            j as int,
                        ) <= usize::MAX);
                    }
                    let sum: usize = work[j] + allocation[idx][j];
                    work.set(j, sum);
                    j += 1;
                }
                let ghost finish0 = finish@;
                let ghost order0 = order;
                finish.set(idx, true);
                proof {
                    order = order0.push(idx as int);
                    assert forall|k: int| 0 <= k < order0.len() implies #[trigger] order0[k]
                        != idx by {
                        assert(finish0[order0[k]]);
                    }
                    assert forall|i: int| 0 <= i < n && #[trigger] finish@[i] implies exists|k: int|
                        0 <= k < order.len() && #[trigger] order[k] == i by {
                        if i == idx {
                            assert(order[order0.len() as int] == i);
                        } else {
                            assert(finish0[i]);
                            let k = choose|k: int| 0 <= k < order0.len() && #[trigger] order0[k] == i;
                            assert(order[k] == i);
                        }
                    }
                    assert forall|x: int| 0 <= x < m implies #[trigger] work@[x] == available@[x]
                        + held_by_finished(al, finish@, n as int, x) by {
                        lemma_finish_one(al, finish0, n as int, idx as int, x);
                        assert(before[x] == available@[x] + held_by_finished(
                            al,
                            finish0,
                            n as int,
                            x,
                        ));
                    }
                    assert forall|x: int| 0 <= x < m implies #[trigger] work@[x] == available@[x]
                        + held_by_first(al, order, order.len() as int, x) by {
                        lemma_first_same(al, order0, order, order0.len() as int, x);
                        assert(before[x] == available@[x] + held_by_first(
                            al,
                            order0,
                            order0.len() as int,
                            x,
                        ));
                    }
                    assert forall|k: int, x: int|
                        0 <= k < order.len() && 0 <= x < m implies #[trigger] nd[order[k]][x]
                        <= available@[x] + #[trigger] held_by_first(al, order, k, x) by {
                        lemma_first_same(al, order0, order, k, x);
                        if k < order0.len() {
                            assert(order[k] == order0[k]);
                            assert(nd[order0[k]][x] <= available@[x] + held_by_first(
                                al,
                                order0,
                                k,
                                x,
                            ));
                        } else {
                            assert(nd[idx as int][x] <= before[x]);
                            assert(before[x] == available@[x] + held_by_first(
                                al,
                                order0,
                                k,
                                x,
                            ));
                        }
                    }
                    assert(done < n) by {
                        if done == n {
                            lemma_order_hits(order0, n as int, idx as int);
                        }
                    }
                }
                done += 1;
            },
            None => {
                let mut i: usize = 0;
                while i < n
                    invariant
                        i <= n,
                        finish@.len() == n,
                        forall|k: int| 0 <= k < i ==> finish@[k],
                        al == rows(allocation@),
                        nd == rows(need@),
                        n == al.len(),
                        m == resources(al),
                        m <= work@.len(),
                        forall|j: int|
                            0 <= j < m ==> #[trigger] work@[j] == available@[j]
                                + held_by_finished(al, finish@, n as int, j),
                        forall|k: int|
                            0 <= k < n && !finish@[k] ==> exists|j: int|
                                0 <= j < m && #[trigger] nd[k][j] > work@[j],
                    decreases n - i,
                {
                    if !finish[i] {
                        proof {
                            if safe(al, available@, nd) {
                                let order = choose|order: Seq<int>|
                                    safe_order(
                                        al,
                                        available@,
                                        nd,
                                        resources(al),
                                        order,
                                    );
                                lemma_stuck(
                                    al,
                                    available@,
                                    nd,
                                    m as int,
                                    finish@,
                                    work@,
                                    order,
                                    i as int,
                                );
                            }
                        }
                        return false;
                    }
                    i += 1;
                }
                proof {
                    lemma_all_in_order(order, finish@, n as int);
                    assert(safe_order(al, available@, nd, m as int, order));
                }
                return true;
            },
        }
    }
}

/// An order that holds every thread has all of them.
proof fn lemma_all_in_order(order: Seq<int>, finish: Seq<bool>, n: int)
    requires
        0 <= n,
        order.no_duplicates(),
        finish.len() == n,
        forall|k: int| 0 <= k < order.len() ==> 0 <= #[trigger] order[k] < n,
        forall|i: int| 0 <= i < n ==> #[trigger] finish[i],
        forall|i: int|
            0 <= i < n && #[trigger] finish[i] ==> exists|k: int|
                0 <= k < order.len() && #[trigger] order[k] == i,
    ensures
        order.len() == n,
{
    let all = vstd::set_lib::set_int_range(0, n);
    vstd::set_lib::lemma_int_range(0, n);
    let s = order.to_set();
    order.unique_seq_to_set();
    assert forall|x: int| s.contains(x) == all.contains(x) by {
        if all.contains(x) {
            assert(finish[x]);
            let k = choose|k: int| 0 <= k < order.len() && #[trigger] order[k] == x;
            assert(order.contains(order[k]));
        }
        if s.contains(x) {
            let k = choose|k: int| 0 <= k < order.len() && order[k] == x;
            assert(0 <= order[k] < n);
        }
    }
    assert(s =~= all);
}

/// What the first threads hold depends on them alone.
proof fn lemma_first_same(
    allocation: Seq<Seq<usize>>,
    o1: Seq<int>,
    o2: Seq<int>,
    k: int,
    j: int,
)
    requires
        k <= o1.len(),
        k <= o2.len(),
        forall|l: int| 0 <= l < k ==> o1[l] == o2[l],
    ensures
        held_by_first(allocation, o1, k, j) == held_by_first(allocation, o2, k, j),
    decreases k,
{
    if k > 0 {
        lemma_first_same(allocation, o1, o2, k - 1, j);
    }
}

/// The first unfinished thread that needs no more than `work`.
fn find_ready(
    finish: &Vec<bool>,
    need: &Vec<Vec<usize>>,
    work: &Vec<usize>,
    m: usize,
) -> (r: Option<usize>)
    requires
        finish@.len() <= need@.len(),
        m <= work@.len(),
        forall|i: int| 0 <= i < finish@.len() ==> m <= (#[trigger] rows(need@)[i]).len(),
    ensures
        match r {
            Some(i) => {
                &&& i < finish@.len()
                &&& !finish@[i as int]
                &&& forall|j: int| 0 <= j < m ==> #[trigger] rows(need@)[i as int][j] <= work@[j]
            },
            None => forall|i: int|
                0 <= i < finish@.len() && !finish@[i] ==> exists|j: int|
                    0 <= j < m && #[trigger] rows(need@)[i][j] > work@[j],
        },
{
    let mut i: usize = 0;
    while i < finish.len()
        invariant
            i <= finish@.len(),
            finish@.len() <= need@.len(),
            m <= work@.len(),
            forall|i: int| 0 <= i < finish@.len() ==> m <= (#[trigger] rows(need@)[i]).len(),
            forall|k: int|
                0 <= k < i && !finish@[k] ==> exists|j: int|
                    0 <= j < m && #[trigger] rows(need@)[k][j] > work@[j],
        decreases finish@.len() - i,
    {
        if !finish[i] {
            let mut all: bool = true;
            assert(rows(need@)[i as int] == need@[i as int]@);
            let mut j: usize = 0;
            while j < m
                invariant
                    j <= m,
                    i < finish@.len(),
                    finish@.len() <= need@.len(),
                    m <= work@.len(),
                    m <= need@[i as int]@.len(),
                    all ==> forall|x: int| 0 <= x < j ==> #[trigger] rows(need@)[i as int][x] <= work@[x],
                    !all ==> exists|x: int|
                        0 <= x < m && #[trigger] rows(need@)[i as int][x] > work@[x],
                decreases m - j,
            {
                if need[i][j] > work[j] {
                    assert(rows(need@)[i as int][j as int] > work@[j as int]);
                    all = false;
                }
                j += 1;
            }
            if all {
                return Some(i);
            }
        }
        i += 1;
    }
    None
}

} // verus!
