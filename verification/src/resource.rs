//! The bookkeeping of one kind of lockable resource (mutexes, or
//! semaphores): what is free, what each thread holds, what each thread
//! waits for; and the two operations on it, request and release.

use vstd::prelude::*;
use crate::banker::{
    check_columns_fit, columns_fit, is_safe, lemma_released_covers_entry, is_safe_state, lemma_released_update_row, rows, work_after,
};

verus! {

/// Error answered to a request that would leave the resources unsafe.
pub const DEADLOCK: isize = -0xdead;

/// What a thread holds and waits for, per resource, with what is free.
pub struct ResourceTable {
    /// Free units of each resource.
    pub available: Vec<usize>,
    /// `allocation[tid][id]`: units of resource `id` that thread `tid` holds.
    pub allocation: Vec<Vec<usize>>,
    /// `need[tid][id]`: units of resource `id` that thread `tid` waits for.
    pub need: Vec<Vec<usize>>,
}

/// A resource table seen as sequences.
pub ghost struct TableModel {
    pub available: Seq<usize>,
    pub allocation: Seq<Seq<usize>>,
    pub need: Seq<Seq<usize>>,
}

/// Matrix `m` with entry `(i, j)` replaced by `v`.
pub open spec fn update2(m: Seq<Seq<usize>>, i: int, j: int, v: usize) -> Seq<Seq<usize>> {
    m.update(i, m[i].update(j, v))
}

/// `row` lengthened with zeros to `len` entries, or left as it is when long enough.
pub open spec fn pad_to(row: Seq<usize>, len: nat) -> Seq<usize> {
    if row.len() < len {
        row + Seq::new((len - row.len()) as nat, |_k: int| 0usize)
    } else {
        row
    }
}

/// `m` lengthened with empty rows to `len` rows, or left as it is when long enough.
pub open spec fn grow_rows(m: Seq<Seq<usize>>, len: nat) -> Seq<Seq<usize>> {
    if m.len() < len {
        m + Seq::new((len - m.len()) as nat, |_k: int| Seq::<usize>::empty())
    } else {
        m
    }
}

/// Every row of `m` padded with zeros to `len` entries.
pub open spec fn pad_rows(m: Seq<Seq<usize>>, len: nat) -> Seq<Seq<usize>> {
    m.map_values(|r: Seq<usize>| pad_to(r, len))
}

impl TableModel {
    /// A table is well formed when it has a `need` row for each `allocation` row.
    pub open spec fn wf(self) -> bool {
        self.need.len() == self.allocation.len()
    }

    /// The request of one unit of `id` by `tid` is defined: the entries it
    /// reads and writes exist, and no counter it touches overflows.
    pub open spec fn request_defined(self, tid: int, id: int) -> bool {
        &&& self.wf()
        &&& 0 <= tid < self.allocation.len()
        &&& 0 <= id < self.available.len()
        &&& self.available[id] >= 1 ==> {
            &&& id < self.allocation[tid].len()
            &&& self.allocation[tid][id] < usize::MAX
        }
        &&& self.available[id] == 0 ==> {
            &&& id < self.need[tid].len()
            &&& self.need[tid][id] < usize::MAX
            &&& columns_fit(self.available, self.allocation)
        }
    }

    /// The state of a request of one unit of `id` by thread `tid`, once it waits.
    pub open spec fn waiting(self, tid: int, id: int) -> TableModel {
        TableModel {
            need: update2(self.need, tid, id, (self.need[tid][id] + 1) as usize),
            ..self
        }
    }

    /// Thread `tid` asks for one unit of resource `id`.
    ///
    /// A free unit is handed over at once.  Otherwise the thread is recorded
    /// as waiting for it; when deadlock detection is on and that state is
    /// not safe, the request is refused with `DEADLOCK` and nothing changes.
    /// The answer is `0` otherwise.
    pub open spec fn request(self, tid: int, id: int, detect: bool) -> (isize, TableModel) {
        if self.available[id] >= 1 {
            (
                0,
                TableModel {
                    available: self.available.update(id, (self.available[id] - 1) as usize),
                    allocation: update2(
                        self.allocation,
                        tid,
                        id,
                        (self.allocation[tid][id] + 1) as usize,
                    ),
                    need: self.need,
                },
            )
        } else {
            let w = self.waiting(tid, id);
            if detect && !is_safe(w.available, w.allocation, w.need) {
                (DEADLOCK, self)
            } else {
                (0, w)
            }
        }
    }

    /// The release of one unit of `id` by `tid` is defined.
    pub open spec fn release_defined(self, tid: int, id: int) -> bool {
        &&& 0 <= id < self.available.len()
        &&& self.available[id] < usize::MAX
        &&& 0 <= tid < self.allocation.len()
        &&& id < self.allocation[tid].len()
        &&& self.allocation[tid][id] >= 1
    }

    /// Thread `tid` gives back one unit of resource `id`.
    pub open spec fn release(self, tid: int, id: int) -> TableModel {
        TableModel {
            available: self.available.update(id, (self.available[id] + 1) as usize),
            allocation: update2(self.allocation, tid, id, (self.allocation[tid][id] - 1) as usize),
            need: self.need,
        }
    }

    /// All units of resource `j`: the free ones and the held ones.
    pub open spec fn total(self, j: int) -> int {
        work_after(self.available, self.allocation, Set::full(), j)
    }
}

impl ResourceTable {
    /// The table as sequences.
    pub open spec fn model(&self) -> TableModel {
        TableModel {
            available: self.available@,
            allocation: rows(self.allocation@),
            need: rows(self.need@),
        }
    }

    /// An empty table.
    pub fn new() -> (t: Self)
        ensures
            t.model().available == Seq::<usize>::empty(),
            t.model().allocation == Seq::<Seq<usize>>::empty(),
            t.model().need == Seq::<Seq<usize>>::empty(),
    {
        let t = ResourceTable { available: Vec::new(), allocation: Vec::new(), need: Vec::new() };
        assert(t.model().allocation =~= Seq::<Seq<usize>>::empty());
        assert(t.model().need =~= Seq::<Seq<usize>>::empty());
        t
    }

    /// Whether the request of one unit of `id` by `tid` is defined.
    pub fn request_is_defined(&self, tid: usize, id: usize) -> (r: bool)
        ensures
            r == self.model().request_defined(tid as int, id as int),
    {
        if self.need.len() != self.allocation.len() || tid >= self.allocation.len() || id
            >= self.available.len() {
            return false;
        }
        if self.available[id] >= 1 {
            id < self.allocation[tid].len() && self.allocation[tid][id] < usize::MAX
        } else {
            id < self.need[tid].len() && self.need[tid][id] < usize::MAX && check_columns_fit(
                &self.available,
                &self.allocation,
            )
        }
    }

    /// Whether the release of one unit of `id` by `tid` is defined.
    pub fn release_is_defined(&self, tid: usize, id: usize) -> (r: bool)
        ensures
            r == self.model().release_defined(tid as int, id as int),
    {
        id < self.available.len() && self.available[id] < usize::MAX && tid < self.allocation.len()
            && id < self.allocation[tid].len() && self.allocation[tid][id] >= 1
    }

    /// Thread `tid` asks for one unit of resource `id`; see `TableModel::request`.
    pub fn request(&mut self, tid: usize, id: usize, detect: bool) -> (r: isize)
        requires
            old(self).model().request_defined(tid as int, id as int),
        ensures
            (r, final(self).model()) == old(self).model().request(tid as int, id as int, detect),
    {
        let ghost m0 = self.model();
        if self.available[id] >= 1 {
            self.available[id] = self.available[id] - 1;
            let a = self.allocation[tid][id] + 1;
            self.allocation[tid][id] = a;
            assert(self.model().allocation =~= update2(m0.allocation, tid as int, id as int, a));
            assert(self.model() == m0.request(tid as int, id as int, detect).1);
            0
        } else {
            let before = self.need[tid][id];
            self.need[tid][id] = before + 1;
            assert(self.model().need =~= m0.waiting(tid as int, id as int).need);
            assert(self.model() == m0.waiting(tid as int, id as int));
            let safe = is_safe_state(&self.available, &self.allocation, &self.need);
            if detect && !safe {
                self.need[tid][id] = before;
                assert(self.need@[tid as int]@ =~= m0.need[tid as int]);
                assert(self.model().need =~= m0.need);
                assert(self.model() == m0);
                DEADLOCK
            } else {
                0
            }
        }
    }

    /// Thread `tid` gives back one unit of resource `id`; see `TableModel::release`.
    pub fn release(&mut self, tid: usize, id: usize)
        requires
            old(self).model().release_defined(tid as int, id as int),
        ensures
            final(self).model() == old(self).model().release(tid as int, id as int),
    {
        let ghost m0 = self.model();
        self.available[id] = self.available[id] + 1;
        let a = self.allocation[tid][id] - 1;
        self.allocation[tid][id] = a;
        assert(self.model().allocation =~= update2(m0.allocation, tid as int, id as int, a));
    }
}


/// A unit handed over at once and then given back leaves the table as it was.
pub proof fn lemma_grant_then_release_restores(t: TableModel, tid: int, id: int, detect: bool)
    requires
        t.request_defined(tid, id),
        t.available[id] >= 1,
    ensures
        t.request(tid, id, detect).1.release_defined(tid, id),
        t.request(tid, id, detect).1.release(tid, id) == t,
{
    let t1 = t.request(tid, id, detect).1;
    let t2 = t1.release(tid, id);
    assert(t2.available =~= t.available);
    assert(t2.allocation[tid] =~= t.allocation[tid]);
    assert(t2.allocation =~= t.allocation);
}

/// A request never creates nor destroys units: for every resource, what
/// is free plus what is held stays the same.
pub proof fn lemma_request_keeps_totals(t: TableModel, tid: int, id: int, detect: bool, j: int)
    requires
        t.request_defined(tid, id),
        0 <= j < t.available.len(),
    ensures
        t.request(tid, id, detect).1.total(j) == t.total(j),
        t.request(tid, id, detect).1.available.len() == t.available.len(),
{
    if t.available[id] >= 1 {
        let row = t.allocation[tid].update(id, (t.allocation[tid][id] + 1) as usize);
        lemma_released_update_row(t.allocation, Set::full(), tid, row, j, t.allocation.len());
    }
}

/// A release never creates nor destroys units either.
pub proof fn lemma_release_keeps_totals(t: TableModel, tid: int, id: int, j: int)
    requires
        t.release_defined(tid, id),
        0 <= j < t.available.len(),
    ensures
        t.release(tid, id).total(j) == t.total(j),
        t.release(tid, id).available.len() == t.available.len(),
{
    let row = t.allocation[tid].update(id, (t.allocation[tid][id] - 1) as usize);
    lemma_released_update_row(t.allocation, Set::full(), tid, row, j, t.allocation.len());
}

/// A refused request changes nothing, and is refused only when detection
/// is on, no unit is free, and waiting would leave the table unsafe.
pub proof fn lemma_refusal(t: TableModel, tid: int, id: int, detect: bool)
    requires
        t.request_defined(tid, id),
        t.request(tid, id, detect).0 == DEADLOCK,
    ensures
        t.request(tid, id, detect).1 == t,
        detect,
        t.available[id] == 0,
        !is_safe(t.waiting(tid, id).available, t.waiting(tid, id).allocation, t.waiting(tid, id).need),
{
}

/// With detection on, a request that has to wait is accepted only into a safe table.
pub proof fn lemma_accepted_wait_is_safe(t: TableModel, tid: int, id: int)
    requires
        t.request_defined(tid, id),
        t.available[id] == 0,
        t.request(tid, id, true).0 == 0,
    ensures
        ({
            let t1 = t.request(tid, id, true).1;
            is_safe(t1.available, t1.allocation, t1.need)
        }),
{
}

/// Every resource has exactly one unit, free or held.
pub open spec fn single_units(t: TableModel) -> bool {
    forall|j: int| 0 <= j < t.available.len() ==> #[trigger] t.total(j) == 1
}

/// When every resource has one unit in all, as every mutex does, a request
/// is defined as soon as the entries it touches exist and the waiting
/// count it may raise is below the largest `usize`; and every resource
/// still has one unit in all afterwards.
pub proof fn lemma_single_units_kept(t: TableModel, tid: int, id: int, detect: bool)
    requires
        t.wf(),
        single_units(t),
        0 <= tid < t.allocation.len(),
        0 <= id < t.available.len(),
        t.available[id] >= 1 ==> id < t.allocation[tid].len(),
        t.available[id] == 0 ==> id < t.need[tid].len() && t.need[tid][id] < usize::MAX,
    ensures
        t.request_defined(tid, id),
        single_units(t.request(tid, id, detect).1),
{
    assert(columns_fit(t.available, t.allocation)) by {
        assert forall|j: int| 0 <= j < t.available.len() implies #[trigger] work_after(
            t.available,
            t.allocation,
            Set::full(),
            j,
        ) <= usize::MAX by {
            assert(t.total(j) == 1);
        }
    }
    if t.available[id] >= 1 {
        lemma_released_covers_entry(t.allocation, tid, id);
        assert(t.total(id) == 1);
    }
    let t1 = t.request(tid, id, detect).1;
    assert forall|j: int| 0 <= j < t1.available.len() implies #[trigger] t1.total(j) == 1 by {
        lemma_request_keeps_totals(t, tid, id, detect, j);
        assert(t.total(j) == 1);
    }
}

} // verus!
