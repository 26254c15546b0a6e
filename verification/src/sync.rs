//! Synchronisation system calls of a process: mutexes, semaphores and
//! condition variables, with deadlock detection.
//!
//! The objects themselves block and wake threads; that work is done by
//! the caller once a call here has answered `0`.  What is decided here is
//! which slot a new object takes, the bookkeeping of what each thread holds
//! and waits for, and whether a request is refused as a deadlock.

use vstd::prelude::*;
use crate::resource::{grow_rows, pad_rows, pad_to, ResourceTable, TableModel};

verus! {

/// The two kinds of mutex a process may create.
#[derive(PartialEq, Eq, Structural, Clone, Copy, Debug)]
pub enum MutexKind {
    /// Waits by yielding the processor in a loop.
    Spin,
    /// Waits by blocking on a queue.
    Blocking,
}

/// A semaphore, created with `res_count` units.
#[derive(PartialEq, Eq, Structural, Clone, Copy, Debug)]
pub struct Semaphore {
    pub res_count: usize,
}

/// A condition variable.
#[derive(PartialEq, Eq, Structural, Clone, Copy, Debug)]
pub struct Condvar {}

/// The synchronisation state of a process.
pub struct ProcessSync {
    /// Mutex slots; `None` is a free slot.
    pub mutex_list: Vec<Option<MutexKind>>,
    /// Semaphore slots; `None` is a free slot.
    pub semaphore_list: Vec<Option<Semaphore>>,
    /// Condition variable slots; `None` is a free slot.
    pub condvar_list: Vec<Option<Condvar>>,
    /// Bookkeeping of the mutexes, indexed by mutex id.
    pub mutexes: ResourceTable,
    /// Bookkeeping of the semaphores, indexed by semaphore id.
    pub semaphores: ResourceTable,
    /// Whether requests that would deadlock are refused.
    pub deadlock_detect_enabled: bool,
}

/// Index of the first free slot of `list`, or its length when all are taken.
pub open spec fn is_first_free<T>(list: Seq<Option<T>>, id: int) -> bool {
    &&& 0 <= id <= list.len()
    &&& forall|k: int| 0 <= k < id ==> #[trigger] list[k] is Some
    &&& id < list.len() ==> list[id] is None
}

/// `list` with `item` placed in slot `id`, appended when `id` is its length.
pub open spec fn place<T>(list: Seq<Option<T>>, id: int, item: T) -> Seq<Option<T>> {
    if id < list.len() {
        list.update(id, Some(item))
    } else {
        list.push(Some(item))
    }
}

/// Slot `id` of `list` holds an object.
pub open spec fn slot_used<T>(list: Seq<Option<T>>, id: int) -> bool {
    0 <= id < list.len() && list[id] is Some
}

/// Finds the first free slot of `list`.
fn first_free<T>(list: &Vec<Option<T>>) -> (id: usize)
    ensures
        is_first_free(list@, id as int),
{
    let mut i: usize = 0;
    while i < list.len()
        invariant
            i <= list@.len(),
            forall|k: int| 0 <= k < i ==> #[trigger] list@[k] is Some,
        decreases list@.len() - i,
    {
        if list[i].is_none() {
            return i;
        }
        i = i + 1;
    }
    i
}

/// Places `item` in slot `id` of `list`, or appends it when `id` is its length.
fn place_at<T>(list: &mut Vec<Option<T>>, id: usize, item: T)
    requires
        id <= old(list)@.len(),
    ensures
        final(list)@ == place(old(list)@, id as int, item),
{
    if id < list.len() {
        list.set(id, Some(item));
    } else {
        list.push(Some(item));
    }
}

/// Lengthens `v` with zeros to `len` entries when it is shorter.
fn pad_with_zeros(v: &mut Vec<usize>, len: usize)
    ensures
        final(v)@ == pad_to(old(v)@, len as nat),
{
    if v.len() < len {
        let ghost v0 = v@;
        while v.len() < len
            invariant
                v0.len() <= v@.len() <= len,
                v@.subrange(0, v0.len() as int) == v0,
                forall|k: int| v0.len() <= k < v@.len() ==> v@[k] == 0,
            decreases len - v@.len(),
        {
            v.push(0);
        }
        assert(v@ =~= pad_to(v0, len as nat));
    }
}

/// Appends empty rows to both matrices of `t` until each has more than `tid` rows.
fn grow_table_rows(t: &mut ResourceTable, tid: usize)
    requires
        old(t).model().wf(),
        tid < usize::MAX,
    ensures
        final(t).model().available == old(t).model().available,
        final(t).model().allocation == grow_rows(old(t).model().allocation, (tid + 1) as nat),
        final(t).model().need == grow_rows(old(t).model().need, (tid + 1) as nat),
        final(t).model().wf(),
{
    let ghost m0 = t.model();
    while t.allocation.len() <= tid
        invariant
            t.model().available == m0.available,
            m0.allocation.len() <= t.allocation@.len(),
            m0.allocation.len() <= tid ==> t.allocation@.len() <= tid + 1,
            m0.allocation.len() > tid ==> t.allocation@.len() == m0.allocation.len(),
            t.need@.len() == t.allocation@.len(),
            m0.wf(),
            forall|k: int|
                0 <= k < m0.allocation.len() ==> #[trigger] t.allocation@[k]@ == m0.allocation[k],
            forall|k: int| 0 <= k < m0.need.len() ==> #[trigger] t.need@[k]@ == m0.need[k],
            forall|k: int|
                m0.allocation.len() <= k < t.allocation@.len() ==> #[trigger] t.allocation@[k]@
                    == Seq::<usize>::empty(),
            forall|k: int|
                m0.need.len() <= k < t.need@.len() ==> #[trigger] t.need@[k]@ == Seq::<usize>::empty(),
        decreases tid + 1 - t.allocation@.len(),
    {
        t.allocation.push(Vec::new());
        t.need.push(Vec::new());
        assert(t.allocation@[t.allocation@.len() - 1]@ =~= Seq::<usize>::empty());
        assert(t.need@[t.need@.len() - 1]@ =~= Seq::<usize>::empty());
    }
    assert(t.model().allocation =~= grow_rows(m0.allocation, (tid + 1) as nat));
    assert(t.model().need =~= grow_rows(m0.need, (tid + 1) as nat));
}

/// Pads every row of `m` with zeros to `len` entries.
fn pad_all_rows(m: &mut Vec<Vec<usize>>, len: usize)
    ensures
        crate::banker::rows(final(m)@) == pad_rows(crate::banker::rows(old(m)@), len as nat),
{
    let ghost m0 = crate::banker::rows(m@);
    let mut i: usize = 0;
    while i < m.len()
        invariant
            i <= m@.len(),
            m@.len() == m0.len(),
            forall|k: int| 0 <= k < i ==> #[trigger] m@[k]@ == pad_to(m0[k], len as nat),
            forall|k: int| i <= k < m@.len() ==> #[trigger] m@[k]@ == m0[k],
        decreases m@.len() - i,
    {
        pad_with_zeros(&mut m[i], len);
        i = i + 1;
    }
    assert(crate::banker::rows(m@) =~= pad_rows(m0, len as nat));
}

/// Lengthens thread `tid`'s rows with as many zeros as its `allocation`
/// row lacks to reach `len` entries.
fn extend_thread_rows(t: &mut ResourceTable, tid: usize, len: usize)
    requires
        old(t).model().wf(),
        tid < old(t).model().allocation.len(),
    ensures
        ({
            let t0 = old(t).model();
            let extra = if t0.allocation[tid as int].len() < len {
                len - t0.allocation[tid as int].len()
            } else {
                0
            };
            let zeros = Seq::new(extra as nat, |_k: int| 0usize);
            final(t).model() == (TableModel {
                available: t0.available,
                allocation: t0.allocation.update(tid as int, t0.allocation[tid as int] + zeros),
                need: t0.need.update(tid as int, t0.need[tid as int] + zeros),
            })
        }),
{
    let ghost t0 = t.model();
    let ghost extra: int = if t0.allocation[tid as int].len() < len {
        len - t0.allocation[tid as int].len()
    } else {
        0
    };
    let mut i = t.allocation[tid].len();
    let ghost a0 = t0.allocation[tid as int];
    let ghost n0 = t0.need[tid as int];
    while i < len
        invariant
            t.allocation@.len() == t0.allocation.len(),
            t.need@.len() == t0.need.len(),
            t.model().available == t0.available,
            tid < t0.allocation.len(),
            t0.wf(),
            a0.len() <= i,
            i <= len || i == a0.len(),
            t.allocation@[tid as int]@ == a0 + Seq::new(
                (i - a0.len()) as nat,
                |_k: int| 0usize,
            ),
            t.need@[tid as int]@ == n0 + Seq::new((i - a0.len()) as nat, |_k: int| 0usize),
            forall|k: int|
                0 <= k < t0.allocation.len() && k != tid ==> #[trigger] t.allocation@[k]@
                    == t0.allocation[k],
            forall|k: int|
                0 <= k < t0.need.len() && k != tid ==> #[trigger] t.need@[k]@ == t0.need[k],
        decreases len - i,
    {
        t.allocation[tid].push(0);
        t.need[tid].push(0);
        assert(t.allocation@[tid as int]@ =~= a0 + Seq::new(
            (i + 1 - a0.len()) as nat,
            |_k: int| 0usize,
        ));
        assert(t.need@[tid as int]@ =~= n0 + Seq::new(
            (i + 1 - a0.len()) as nat,
            |_k: int| 0usize,
        ));
        i = i + 1;
    }
    assert(t.model().allocation =~= t0.allocation.update(
        tid as int,
        a0 + Seq::new(extra as nat, |_k: int| 0usize),
    ));
    assert(t.model().need =~= t0.need.update(
        tid as int,
        n0 + Seq::new(extra as nat, |_k: int| 0usize),
    ));
}

impl ProcessSync {
    /// The state of a new process: no objects, no bookkeeping, detection off.
    pub fn new() -> (p: Self)
        ensures
            p.mutex_list@.len() == 0,
            p.semaphore_list@.len() == 0,
            p.condvar_list@.len() == 0,
            p.mutexes.model() == (TableModel {
                available: Seq::empty(),
                allocation: Seq::empty(),
                need: Seq::empty(),
            }),
            p.semaphores.model() == p.mutexes.model(),
            !p.deadlock_detect_enabled,
            p.wf(),
    {
        ProcessSync {
            mutex_list: Vec::new(),
            semaphore_list: Vec::new(),
            condvar_list: Vec::new(),
            mutexes: ResourceTable::new(),
            semaphores: ResourceTable::new(),
            deadlock_detect_enabled: false,
        }
    }

    /// Both tables have one `allocation` and one `need` row per thread seen.
    pub open spec fn wf(&self) -> bool {
        &&& self.mutexes.model().wf()
        &&& self.semaphores.model().wf()
        &&& self.semaphores.model().allocation.len() == self.mutexes.model().allocation.len()
    }

    /// No mutex slot is free, and every mutex id has a free count and an
    /// entry in every thread's rows of the mutex table.
    pub open spec fn mutex_ids_covered(&self) -> bool {
        let t = self.mutexes.model();
        let n = self.mutex_list@.len();
        &&& forall|k: int| 0 <= k < n ==> #[trigger] self.mutex_list@[k] is Some
        &&& t.available.len() >= n
        &&& forall|i: int|
            0 <= i < t.allocation.len() ==> #[trigger] t.allocation[i].len() >= n && t.need[i].len() >= n
    }

    /// Nothing but the mutexes and their table differs between `self` and `other`.
    pub open spec fn same_but_mutexes(&self, other: &Self) -> bool {
        &&& self.semaphore_list@ == other.semaphore_list@
        &&& self.condvar_list@ == other.condvar_list@
        &&& self.deadlock_detect_enabled == other.deadlock_detect_enabled
    }

    /// Nothing but the semaphores and their table differs between `self` and `other`.
    pub open spec fn same_but_semaphores(&self, other: &Self) -> bool {
        &&& self.mutex_list@ == other.mutex_list@
        &&& self.condvar_list@ == other.condvar_list@
        &&& self.deadlock_detect_enabled == other.deadlock_detect_enabled
        &&& self.mutexes.model() == other.mutexes.model()
    }
}

/// Creates a mutex for thread `tid`, spinning or blocking, and answers its id.
///
/// The mutex takes the first free slot.  Both tables get a row for every
/// thread up to `tid`; every row of the mutex table, and the free counts,
/// are padded with zeros to cover the new id, and the new mutex is free.
pub fn sys_mutex_create(p: &mut ProcessSync, tid: usize, blocking: bool) -> (r: isize)
    requires
        old(p).wf(),
        old(p).mutex_list@.len() < isize::MAX,
        tid < usize::MAX,
    ensures
        final(p).wf(),
        is_first_free(old(p).mutex_list@, r as int),
        final(p).mutex_list@ == place(
            old(p).mutex_list@,
            r as int,
            if blocking {
                MutexKind::Blocking
            } else {
                MutexKind::Spin
            },
        ),
        final(p).mutexes.model() == (TableModel {
            available: pad_to(old(p).mutexes.model().available, (r + 1) as nat).update(r as int, 1),
            allocation: pad_rows(
                grow_rows(old(p).mutexes.model().allocation, (tid + 1) as nat),
                (r + 1) as nat,
            ),
            need: pad_rows(grow_rows(old(p).mutexes.model().need, (tid + 1) as nat), (r + 1) as nat),
        }),
        final(p).semaphores.model() == (TableModel {
            available: old(p).semaphores.model().available,
            allocation: grow_rows(old(p).semaphores.model().allocation, (tid + 1) as nat),
            need: grow_rows(old(p).semaphores.model().need, (tid + 1) as nat),
        }),
        final(p).same_but_mutexes(old(p)),
        old(p).mutex_ids_covered() ==> final(p).mutex_ids_covered(),
{
    let kind = if !blocking {
        MutexKind::Spin
    } else {
        MutexKind::Blocking
    };
    let id = first_free(&p.mutex_list);
    place_at(&mut p.mutex_list, id, kind);
    grow_table_rows(&mut p.mutexes, tid);
    grow_table_rows(&mut p.semaphores, tid);
    pad_all_rows(&mut p.mutexes.allocation, id + 1);
    pad_all_rows(&mut p.mutexes.need, id + 1);
    pad_with_zeros(&mut p.mutexes.available, id + 1);
    p.mutexes.available.set(id, 1);
    proof {
        if old(p).mutex_ids_covered() {
            let n = p.mutex_list@.len();
            let t = p.mutexes.model();
            assert(id == old(p).mutex_list@.len());
            assert forall|k: int| 0 <= k < n implies #[trigger] p.mutex_list@[k] is Some by {
                if k < id {
                    assert(old(p).mutex_list@[k] is Some);
                }
            }
            assert forall|i: int| 0 <= i < t.allocation.len() implies #[trigger] t.allocation[i].len() >= n
                && t.need[i].len() >= n by {
                let g = grow_rows(old(p).mutexes.model().allocation, (tid + 1) as nat);
                let gn = grow_rows(old(p).mutexes.model().need, (tid + 1) as nat);
                assert(t.allocation[i] == pad_to(g[i], (id + 1) as nat));
                assert(t.need[i] == pad_to(gn[i], (id + 1) as nat));
                if i < old(p).mutexes.model().allocation.len() {
                    assert(g[i] == old(p).mutexes.model().allocation[i]);
                    assert(gn[i] == old(p).mutexes.model().need[i]);
                }
            }
        }
    }
    id as isize
}

/// Thread `tid` locks mutex `mutex_id`.
///
/// Answers `DEADLOCK` when the request is refused (see
/// `TableModel::request`); otherwise `0`, after which the caller locks the
/// mutex, waiting for it if it is held.
pub fn sys_mutex_lock(p: &mut ProcessSync, tid: usize, mutex_id: usize) -> (r: isize)
    requires
        slot_used(old(p).mutex_list@, mutex_id as int),
        old(p).mutexes.model().request_defined(tid as int, mutex_id as int),
    ensures
        (r, final(p).mutexes.model()) == old(p).mutexes.model().request(
            tid as int,
            mutex_id as int,
            old(p).deadlock_detect_enabled,
        ),
        final(p).mutex_list@ == old(p).mutex_list@,
        final(p).semaphores.model() == old(p).semaphores.model(),
        final(p).same_but_mutexes(old(p)),
{
    let detect = p.deadlock_detect_enabled;
    p.mutexes.request(tid, mutex_id, detect)
}

/// Thread `tid` unlocks mutex `mutex_id`: it gives its unit back and
/// answers `0`, after which the caller unlocks the mutex.
pub fn sys_mutex_unlock(p: &mut ProcessSync, tid: usize, mutex_id: usize) -> (r: isize)
    requires
        slot_used(old(p).mutex_list@, mutex_id as int),
        old(p).mutexes.model().release_defined(tid as int, mutex_id as int),
    ensures
        r == 0,
        final(p).mutexes.model() == old(p).mutexes.model().release(tid as int, mutex_id as int),
        final(p).mutex_list@ == old(p).mutex_list@,
        final(p).semaphores.model() == old(p).semaphores.model(),
        final(p).same_but_mutexes(old(p)),
{
    p.mutexes.release(tid, mutex_id);
    0
}

/// Creates a semaphore of `res_count` units for thread `tid` and answers its id.
///
/// The semaphore takes the first free slot.  Thread `tid`'s rows of the
/// semaphore table are lengthened with as many zeros as its `allocation`
/// row lacks to reach `res_count` entries; the free count of the new id is
/// `res_count`.
pub fn sys_semaphore_create(p: &mut ProcessSync, tid: usize, res_count: usize) -> (r: isize)
    requires
        old(p).wf(),
        old(p).semaphore_list@.len() < isize::MAX,
        tid < old(p).semaphores.model().allocation.len(),
    ensures
        final(p).wf(),
        is_first_free(old(p).semaphore_list@, r as int),
        final(p).semaphore_list@ == place(
            old(p).semaphore_list@,
            r as int,
            Semaphore { res_count },
        ),
        ({
            let t0 = old(p).semaphores.model();
            let extra = if t0.allocation[tid as int].len() < res_count {
                res_count - t0.allocation[tid as int].len()
            } else {
                0
            };
            let zeros = Seq::new(extra as nat, |_k: int| 0usize);
            final(p).semaphores.model() == (TableModel {
                available: pad_to(t0.available, (r + 1) as nat).update(r as int, res_count),
                allocation: t0.allocation.update(tid as int, t0.allocation[tid as int] + zeros),
                need: t0.need.update(tid as int, t0.need[tid as int] + zeros),
            })
        }),
        final(p).same_but_semaphores(old(p)),
{
    let id = first_free(&p.semaphore_list);
    place_at(&mut p.semaphore_list, id, Semaphore { res_count });
    extend_thread_rows(&mut p.semaphores, tid, res_count);
    if p.semaphores.available.len() > id {
        p.semaphores.available.set(id, res_count);
    } else {
        pad_with_zeros(&mut p.semaphores.available, id + 1);
        p.semaphores.available.set(id, res_count);
    }
    id as isize
}

/// Thread `tid` ups semaphore `sem_id`: it gives one unit back and answers
/// `0`, after which the caller ups the semaphore.
pub fn sys_semaphore_up(p: &mut ProcessSync, tid: usize, sem_id: usize) -> (r: isize)
    requires
        slot_used(old(p).semaphore_list@, sem_id as int),
        old(p).semaphores.model().release_defined(tid as int, sem_id as int),
    ensures
        r == 0,
        final(p).semaphores.model() == old(p).semaphores.model().release(tid as int, sem_id as int),
        final(p).semaphore_list@ == old(p).semaphore_list@,
        final(p).same_but_semaphores(old(p)),
{
    p.semaphores.release(tid, sem_id);
    0
}

/// Thread `tid` downs semaphore `sem_id`.
///
/// Answers `DEADLOCK` when the request is refused (see
/// `TableModel::request`); otherwise `0`, after which the caller downs the
/// semaphore, waiting if it has no unit.
pub fn sys_semaphore_down(p: &mut ProcessSync, tid: usize, sem_id: usize) -> (r: isize)
    requires
        slot_used(old(p).semaphore_list@, sem_id as int),
        old(p).semaphores.model().request_defined(tid as int, sem_id as int),
    ensures
        (r, final(p).semaphores.model()) == old(p).semaphores.model().request(
            tid as int,
            sem_id as int,
            old(p).deadlock_detect_enabled,
        ),
        final(p).semaphore_list@ == old(p).semaphore_list@,
        final(p).same_but_semaphores(old(p)),
{
    let detect = p.deadlock_detect_enabled;
    p.semaphores.request(tid, sem_id, detect)
}

/// Creates a condition variable in the first free slot and answers its id.
pub fn sys_condvar_create(p: &mut ProcessSync) -> (r: isize)
    requires
        old(p).condvar_list@.len() < isize::MAX,
    ensures
        is_first_free(old(p).condvar_list@, r as int),
        final(p).condvar_list@ == place(old(p).condvar_list@, r as int, Condvar {  }),
        final(p).mutex_list@ == old(p).mutex_list@,
        final(p).semaphore_list@ == old(p).semaphore_list@,
        final(p).mutexes.model() == old(p).mutexes.model(),
        final(p).semaphores.model() == old(p).semaphores.model(),
        final(p).deadlock_detect_enabled == old(p).deadlock_detect_enabled,
{
    let id = first_free(&p.condvar_list);
    place_at(&mut p.condvar_list, id, Condvar {  });
    id as isize
}

/// Signals condition variable `condvar_id`: answers `0`, after which the
/// caller wakes one waiter.  The bookkeeping does not change.
pub fn sys_condvar_signal(p: &ProcessSync, condvar_id: usize) -> (r: isize)
    requires
        slot_used(p.condvar_list@, condvar_id as int),
    ensures
        r == 0,
{
    0
}

/// Waits on condition variable `condvar_id`, releasing mutex `mutex_id`:
/// answers `0`, after which the caller does the wait.  The bookkeeping does
/// not change.
pub fn sys_condvar_wait(p: &ProcessSync, condvar_id: usize, mutex_id: usize) -> (r: isize)
    requires
        slot_used(p.condvar_list@, condvar_id as int),
        slot_used(p.mutex_list@, mutex_id as int),
    ensures
        r == 0,
{
    0
}

/// Turns deadlock detection on for any nonzero `enabled`, off for zero; answers `0`.
pub fn sys_enable_deadlock_detect(p: &mut ProcessSync, enabled: usize) -> (r: isize)
    ensures
        r == 0,
        final(p).deadlock_detect_enabled == (enabled != 0),
        final(p).mutex_list@ == old(p).mutex_list@,
        final(p).semaphore_list@ == old(p).semaphore_list@,
        final(p).condvar_list@ == old(p).condvar_list@,
        final(p).mutexes.model() == old(p).mutexes.model(),
        final(p).semaphores.model() == old(p).semaphores.model(),
{
    p.deadlock_detect_enabled = enabled != 0;
    0
}

/// Puts the current thread to sleep for `ms` milliseconds from `now_ms`:
/// answers the time at which it is to be woken, and `0`, the call's answer
/// once it wakes.
pub fn sys_sleep(now_ms: usize, ms: usize) -> (r: (usize, isize))
    requires
        now_ms + ms <= usize::MAX,
    ensures
        r.0 == now_ms + ms,
        r.1 == 0,
{
    (now_ms + ms, 0)
}

} // verus!
