//! Deadlock avoidance by the banker's safety test.
//!
//! Resources of one kind (mutexes or semaphores) are described by three
//! tables: `available[j]` free units of resource `j`, `allocation[i][j]`
//! units of `j` that thread `i` holds, and `need[i][j]` units of `j` that
//! thread `i` still waits for.  Rows may be shorter than `available`: a
//! missing entry counts as zero.
//!
//! A state is *safe* when the threads can be ordered so that each one, in
//! turn, can get everything it waits for from what is free plus what the
//! threads before it gave back.  `is_safe_state` decides this by the usual
//! greedy search, and its contract states the result as that existence.

use vstd::prelude::*;
use vstd::set_lib::*;

verus! {

/// The rows of a matrix of counters, each as a sequence.
pub open spec fn rows(m: Seq<Vec<usize>>) -> Seq<Seq<usize>> {
    m.map_values(|r: Vec<usize>| r@)
}

/// Entry `(i, j)` of a ragged matrix; an entry past the end of its row is zero.
pub open spec fn entry(m: Seq<Seq<usize>>, i: int, j: int) -> int {
    if 0 <= j < m[i].len() {
        m[i][j] as int
    } else {
        0
    }
}

/// What the threads `i < k` that lie in `done` hold of resource `j`.
pub open spec fn released(alloc: Seq<Seq<usize>>, done: Set<int>, j: int, k: nat) -> int
    decreases k,
{
    if k == 0 {
        0
    } else {
        released(alloc, done, j, (k - 1) as nat) + if done.contains(k - 1) {
            entry(alloc, k - 1, j)
        } else {
            0
        }
    }
}

/// Units of resource `j` at hand once the threads in `done` have finished
/// and given back all they hold.
pub open spec fn work_after(
    avail: Seq<usize>,
    alloc: Seq<Seq<usize>>,
    done: Set<int>,
    j: int,
) -> int {
    avail[j] + released(alloc, done, j, alloc.len())
}

/// Thread `i` gets all it waits for once the threads in `done` have finished.
pub open spec fn can_finish(
    avail: Seq<usize>,
    alloc: Seq<Seq<usize>>,
    need: Seq<Seq<usize>>,
    done: Set<int>,
    i: int,
) -> bool {
    forall|j: int| 0 <= j < avail.len() ==> #[trigger] entry(need, i, j) <= work_after(avail, alloc, done, j)
}

/// `order` lists distinct threads, each of which can finish after the ones before it.
pub open spec fn finishes_in_order(
    avail: Seq<usize>,
    alloc: Seq<Seq<usize>>,
    need: Seq<Seq<usize>>,
    order: Seq<int>,
) -> bool {
    &&& order.no_duplicates()
    &&& forall|k: int| 0 <= k < order.len() ==> 0 <= #[trigger] order[k] < alloc.len()
    &&& forall|k: int|
        0 <= k < order.len() ==> can_finish(avail, alloc, need, order.take(k).to_set(), #[trigger] order[k])
}

/// A safe sequence: every thread appears, once, and each can finish after the ones before it.
pub open spec fn is_safe_sequence(
    avail: Seq<usize>,
    alloc: Seq<Seq<usize>>,
    need: Seq<Seq<usize>>,
    order: Seq<int>,
) -> bool {
    &&& finishes_in_order(avail, alloc, need, order)
    &&& forall|i: int| 0 <= i < alloc.len() ==> #[trigger] order.contains(i)
}

/// The state is safe: some safe sequence exists.
pub open spec fn is_safe(avail: Seq<usize>, alloc: Seq<Seq<usize>>, need: Seq<Seq<usize>>) -> bool {
    exists|order: Seq<int>| is_safe_sequence(avail, alloc, need, order)
}

/// For every resource, what is free plus all that is held fits in a `usize`.
pub open spec fn columns_fit(avail: Seq<usize>, alloc: Seq<Seq<usize>>) -> bool {
    forall|j: int| 0 <= j < avail.len() ==> #[trigger] work_after(avail, alloc, Set::full(), j) <= usize::MAX
}

proof fn lemma_released_empty(alloc: Seq<Seq<usize>>, j: int, k: nat)
    ensures
        released(alloc, Set::empty(), j, k) == 0,
    decreases k,
{
    if k > 0 {
        lemma_released_empty(alloc, j, (k - 1) as nat);
    }
}

proof fn lemma_released_mono(alloc: Seq<Seq<usize>>, d1: Set<int>, d2: Set<int>, j: int, k: nat)
    requires
        d1.subset_of(d2),
    ensures
        0 <= released(alloc, d1, j, k) <= released(alloc, d2, j, k),
    decreases k,
{
    if k > 0 {
        lemma_released_mono(alloc, d1, d2, j, (k - 1) as nat);
    }
}

proof fn lemma_released_insert(alloc: Seq<Seq<usize>>, d: Set<int>, x: int, j: int, k: nat)
    requires
        !d.contains(x),
        0 <= x,
    ensures
        released(alloc, d.insert(x), j, k) == released(alloc, d, j, k) + if x < k {
            entry(alloc, x, j)
        } else {
            0
        },
    decreases k,
{
    if k > 0 {
        lemma_released_insert(alloc, d, x, j, (k - 1) as nat);
    }
}

/// Replacing row `i` of `alloc` changes what the threads in `done` give
/// back by the difference of that row's entries.
pub proof fn lemma_released_update_row(
    alloc: Seq<Seq<usize>>,
    done: Set<int>,
    i: int,
    row: Seq<usize>,
    j: int,
    k: nat,
)
    requires
        0 <= i < alloc.len(),
        k <= alloc.len(),
    ensures
        released(alloc.update(i, row), done, j, k) == released(alloc, done, j, k) + if i < k
            && done.contains(i) {
            entry(alloc.update(i, row), i, j) - entry(alloc, i, j)
        } else {
            0
        },
    decreases k,
{
    if k > 0 {
        lemma_released_update_row(alloc, done, i, row, j, (k - 1) as nat);
    }
}

/// All that the threads hold of resource `j` is at least what thread `i` holds of it.
pub proof fn lemma_released_covers_entry(alloc: Seq<Seq<usize>>, i: int, j: int)
    requires
        0 <= i < alloc.len(),
    ensures
        entry(alloc, i, j) <= released(alloc, Set::full(), j, alloc.len()),
{
    lemma_released_empty(alloc, j, alloc.len());
    lemma_released_insert(alloc, Set::empty(), i, j, alloc.len());
    lemma_released_mono(alloc, Set::<int>::empty().insert(i), Set::full(), j, alloc.len());
}

proof fn lemma_can_finish_mono(
    avail: Seq<usize>,
    alloc: Seq<Seq<usize>>,
    need: Seq<Seq<usize>>,
    d1: Set<int>,
    d2: Set<int>,
    i: int,
)
    requires
        d1.subset_of(d2),
        can_finish(avail, alloc, need, d1, i),
    ensures
        can_finish(avail, alloc, need, d2, i),
{
    assert forall|j: int| 0 <= j < avail.len() implies #[trigger] entry(need, i, j) <= work_after(
        avail,
        alloc,
        d2,
        j,
    ) by {
        lemma_released_mono(alloc, d1, d2, j, alloc.len());
    }
}

/// A list of distinct numbers below `n` has at most `n` items.
proof fn lemma_distinct_below_len(s: Seq<int>, n: nat)
    requires
        s.no_duplicates(),
        forall|k: int| 0 <= k < s.len() ==> 0 <= #[trigger] s[k] < n,
    ensures
        s.len() <= n,
{
    s.unique_seq_to_set();
    lemma_int_range(0, n as int);
    assert(s.to_set().subset_of(set_int_range(0, n as int)));
    lemma_len_subset(s.to_set(), set_int_range(0, n as int));
}

/// Appending a thread that can finish after `order` keeps the order valid.
proof fn lemma_push_finishing(
    avail: Seq<usize>,
    alloc: Seq<Seq<usize>>,
    need: Seq<Seq<usize>>,
    order: Seq<int>,
    i: int,
)
    requires
        finishes_in_order(avail, alloc, need, order),
        !order.contains(i),
        0 <= i < alloc.len(),
        can_finish(avail, alloc, need, order.to_set(), i),
    ensures
        finishes_in_order(avail, alloc, need, order.push(i)),
        order.push(i).to_set() == order.to_set().insert(i),
        order.push(i).len() <= alloc.len(),
{
    let o2 = order.push(i);
    assert(o2.to_set() =~= order.to_set().insert(i)) by {
        order.lemma_push_to_set_commute(i);
    }
    assert forall|k: int| 0 <= k < o2.len() implies can_finish(
        avail,
        alloc,
        need,
        o2.take(k).to_set(),
        #[trigger] o2[k],
    ) by {
        if k < order.len() {
            assert(o2.take(k) =~= order.take(k));
        } else {
            assert(o2.take(k) =~= order);
        }
    }
    assert(o2.no_duplicates()) by {
        assert forall|a: int, b: int| 0 <= a < o2.len() && 0 <= b < o2.len() && a != b implies o2[a]
            != o2[b] by {
            if a < order.len() && b < order.len() {
            } else if a < order.len() {
                assert(order.contains(o2[a]));
            } else {
                assert(order.contains(o2[b]));
            }
        }
    }
    lemma_distinct_below_len(o2, alloc.len());
}

/// Under the same hypothesis as below, every prefix of a safe sequence lies in `done`.
proof fn lemma_closed_set_holds_prefix(
    avail: Seq<usize>,
    alloc: Seq<Seq<usize>>,
    need: Seq<Seq<usize>>,
    done: Set<int>,
    order: Seq<int>,
    k: int,
)
    requires
        is_safe_sequence(avail, alloc, need, order),
        forall|i: int|
            0 <= i < alloc.len() && !done.contains(i) ==> !can_finish(avail, alloc, need, done, i),
        0 <= k <= order.len(),
    ensures
        order.take(k).to_set().subset_of(done),
    decreases k,
{
    if k == 0 {
        assert(order.take(0).to_set() =~= Set::empty());
    } else {
        lemma_closed_set_holds_prefix(avail, alloc, need, done, order, k - 1);
        let x = order[k - 1];
        assert(can_finish(avail, alloc, need, order.take(k - 1).to_set(), x));
        lemma_can_finish_mono(avail, alloc, need, order.take(k - 1).to_set(), done, x);
        assert(done.contains(x));
        assert(order.take(k) =~= order.take(k - 1).push(x));
        order.take(k - 1).lemma_push_to_set_commute(x);
    }
}

/// If no thread outside `done` can finish after `done`, every safe
/// sequence lies inside `done`: all threads are in it.
proof fn lemma_closed_set_holds_all(
    avail: Seq<usize>,
    alloc: Seq<Seq<usize>>,
    need: Seq<Seq<usize>>,
    done: Set<int>,
    order: Seq<int>,
)
    requires
        is_safe_sequence(avail, alloc, need, order),
        forall|i: int|
            0 <= i < alloc.len() && !done.contains(i) ==> !can_finish(avail, alloc, need, done, i),
    ensures
        forall|i: int| 0 <= i < alloc.len() ==> done.contains(i),
{
    lemma_closed_set_holds_prefix(avail, alloc, need, done, order, order.len() as int);
    assert(order.take(order.len() as int) =~= order);
    assert forall|i: int| 0 <= i < alloc.len() implies done.contains(i) by {
        assert(order.contains(i));
        assert(order.to_set().contains(i));
    }
}

/// Decides whether the state is safe.
///
/// Starting from what is free, it repeatedly lets finish any thread whose
/// need is covered, taking back what that thread holds, until no more
/// thread can finish; the state is safe when every thread finished.
#[verifier::loop_isolation(false)]
pub fn is_safe_state(available: &Vec<usize>, allocation: &Vec<Vec<usize>>, need: &Vec<Vec<usize>>) -> (safe:
    bool)
    requires
        need@.len() == allocation@.len(),
        columns_fit(available@, rows(allocation@)),
    ensures
        safe == is_safe(available@, rows(allocation@), rows(need@)),
{
    let ghost av = available@;
    let ghost al = rows(allocation@);
    let ghost ne = rows(need@);
    let n = allocation.len();
    let m = available.len();
    let mut work: Vec<usize> = Vec::new();
    let mut t: usize = 0;
    while t < m
        invariant
            t <= m,
            work@.len() == t,
            forall|j: int| 0 <= j < t ==> work@[j] == available@[j],
        decreases m - t,
    {
        work.push(available[t]);
        t = t + 1;
    }
    let mut finish: Vec<bool> = Vec::new();
    t = 0;
    while t < n
        invariant
            t <= n,
            finish@.len() == t,
            forall|i: int| 0 <= i < t ==> !finish@[i],
        decreases n - t,
    {
        finish.push(false);
        t = t + 1;
    }
    let ghost mut order: Seq<int> = Seq::empty();
    proof {
        assert forall|j: int| 0 <= j < m implies work@[j] == work_after(av, al, order.to_set(), j) by {
            assert(order.to_set() =~= Set::empty());
            lemma_released_empty(al, j, n as nat);
        }
    }
    loop
        invariant
            work@.len() == m,
            finish@.len() == n,
            finishes_in_order(av, al, ne, order),
            order.len() <= n,
            forall|i: int| 0 <= i < n ==> (finish@[i] <==> order.contains(i)),
            forall|j: int| 0 <= j < m ==> work@[j] == work_after(av, al, order.to_set(), j),
        decreases n - order.len(),
    {
        let ghost start = order;
        let mut found = false;
        let mut i: usize = 0;
        while i < n
            invariant
                i <= n,
                work@.len() == m,
                finish@.len() == n,
                finishes_in_order(av, al, ne, order),
                order.len() <= n,
                forall|ii: int| 0 <= ii < n ==> (finish@[ii] <==> order.contains(ii)),
                forall|j: int| 0 <= j < m ==> work@[j] == work_after(av, al, order.to_set(), j),
                found ==> order.len() > start.len(),
                !found ==> order == start,
                !found ==> forall|ii: int|
                    0 <= ii < i ==> finish@[ii] || !can_finish(av, al, ne, order.to_set(), ii),
            decreases n - i,
        {
            if !finish[i] {
                let mut ok = true;
                let mut j: usize = 0;
                while j < m && ok
                    invariant
                        j <= m,
                        ok ==> forall|jj: int| 0 <= jj < j ==> entry(ne, i as int, jj) <= work@[jj],
                        !ok ==> exists|jj: int| 0 <= jj < m && entry(ne, i as int, jj) > work@[jj],
                    decreases m - j + if ok { 1int } else { 0int },
                {
                    let need_ij = if j < need[i].len() {
                        need[i][j]
                    } else {
                        0
                    };
                    if need_ij > work[j] {
                        ok = false;
                    } else {
                        j = j + 1;
                    }
                }
                proof {
                    if ok {
                        assert(can_finish(av, al, ne, order.to_set(), i as int));
                    } else {
                        let jj = choose|jj: int| 0 <= jj < m && entry(ne, i as int, jj) > work@[jj];
                        assert(!(entry(ne, i as int, jj) <= work_after(av, al, order.to_set(), jj)));
                    }
                }
                if ok {
                    let ghost done = order.to_set();
                    let ghost done2 = done.insert(i as int);
                    assert(!done.contains(i as int));
                    let mut j: usize = 0;
                    while j < m
                        invariant
                            j <= m,
                            work@.len() == m,
                            forall|jj: int| 0 <= jj < j ==> work@[jj] == work_after(av, al, done2, jj),
                            forall|jj: int| j <= jj < m ==> work@[jj] == work_after(av, al, done, jj),
                        decreases m - j,
                    {
                        let alloc_ij = if j < allocation[i].len() {
                            allocation[i][j]
                        } else {
                            0
                        };
                        proof {
                            lemma_released_insert(al, done, i as int, j as int, n as nat);
                            lemma_released_mono(al, done2, Set::full(), j as int, n as nat);
                            assert(work_after(av, al, Set::full(), j as int) <= usize::MAX);
                        }
                        let w = work[j] + alloc_ij;
                        work.set(j, w);
                        j = j + 1;
                    }
                    finish.set(i, true);
                    proof {
                        let prev = order;
                        lemma_push_finishing(av, al, ne, order, i as int);
                        order = order.push(i as int);
                        assert forall|ii: int| 0 <= ii < n implies (finish@[ii] <==> order.contains(
                            ii,
                        )) by {
                            assert(order.to_set().contains(ii) <==> order.contains(ii));
                            assert(prev.to_set().contains(ii) <==> prev.contains(ii));
                        }
                    }
                    found = true;
                }
            }
            i = i + 1;
        }
        if !found {
            break ;
        }
    }
    let mut all = true;
    let mut i: usize = 0;
    while i < n
        invariant
            i <= n,
            all <==> forall|ii: int| 0 <= ii < i ==> finish@[ii],
        decreases n - i,
    {
        all = all && finish[i];
        i = i + 1;
    }
    proof {
        if all {
            assert(is_safe_sequence(av, al, ne, order));
        } else {
            let i0 = choose|ii: int| 0 <= ii < n && !finish@[ii];
            if is_safe(av, al, ne) {
                let s = choose|s: Seq<int>| is_safe_sequence(av, al, ne, s);
                assert forall|ii: int|
                    0 <= ii < al.len() && !order.to_set().contains(ii) implies !can_finish(
                    av,
                    al,
                    ne,
                    order.to_set(),
                    ii,
                ) by {
                    assert(!order.contains(ii));
                }
                lemma_closed_set_holds_all(av, al, ne, order.to_set(), s);
                assert(order.to_set().contains(i0));
            }
        }
    }
    all
}

/// Whether, for every resource, what is free plus all that is held fits in a `usize`.
pub fn check_columns_fit(available: &Vec<usize>, allocation: &Vec<Vec<usize>>) -> (r: bool)
    ensures
        r == columns_fit(available@, rows(allocation@)),
{
    let ghost al = rows(allocation@);
    let n = allocation.len();
    let mut j: usize = 0;
    while j < available.len()
        invariant
            j <= available@.len(),
            n == allocation@.len(),
            al == rows(allocation@),
            forall|jj: int| 0 <= jj < j ==> #[trigger] work_after(available@, al, Set::full(), jj) <= usize::MAX,
        decreases available@.len() - j,
    {
        let mut total: usize = available[j];
        let mut i: usize = 0;
        while i < n
            invariant
                i <= n,
                n == allocation@.len(),
                al == rows(allocation@),
                j < available@.len(),
                total == available@[j as int] + released(al, Set::full(), j as int, i as nat),
            decreases n - i,
        {
            let a = if j < allocation[i].len() {
                allocation[i][j]
            } else {
                0
            };
            if a > usize::MAX - total {
                proof {
                    assert(a == entry(al, i as int, j as int));
                    assert(Set::<int>::full().contains(i as int));
                    assert(released(al, Set::full(), j as int, (i + 1) as nat) == released(
                        al,
                        Set::full(),
                        j as int,
                        i as nat,
                    ) + entry(al, i as int, j as int));
                    lemma_released_prefix_mono(al, j as int, (i + 1) as nat, n as nat);
                    assert(work_after(available@, al, Set::full(), j as int) > usize::MAX);
                }
                return false;
            }
            total = total + a;
            i = i + 1;
        }
        j = j + 1;
    }
    true
}

/// What all threads give back grows with the number of threads counted.
proof fn lemma_released_prefix_mono(alloc: Seq<Seq<usize>>, j: int, k1: nat, k2: nat)
    requires
        k1 <= k2,
    ensures
        released(alloc, Set::full(), j, k1) <= released(alloc, Set::full(), j, k2),
    decreases k2,
{
    if k1 < k2 {
        lemma_released_prefix_mono(alloc, j, k1, (k2 - 1) as nat);
    }
}

} // verus!
