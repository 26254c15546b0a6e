//! Allocation of physical page frames: a stack of recycled frames on top
//! of a range never handed out yet.

use vstd::prelude::*;
use crate::mm::{ppn_span, PhysPageNum};

verus! {

/// Frames `current..end` have never been handed out; `recycled` holds
/// frames handed out and given back.
pub struct StackFrameAllocator {
    pub current: u64,
    pub end: u64,
    pub recycled: Vec<u64>,
}

impl StackFrameAllocator {
    /// The allocator's counters agree: recycled frames were handed out
    /// once, and appear once.
    pub open spec fn wf(&self) -> bool {
        &&& self.current <= self.end
        &&& self.end <= ppn_span()
        &&& self.recycled@.no_duplicates()
        &&& forall|i: int| 0 <= i < self.recycled@.len() ==> #[trigger] self.recycled@[i] < self.current
    }

    /// The frames that are not free: below `current` and not recycled.
    pub open spec fn in_use(&self) -> Set<int> {
        Set::new(|p: int| 0 <= p < self.current && !self.recycled@.contains(p as u64))
    }

    /// How many frames can still be handed out.
    pub open spec fn free_count(&self) -> int {
        (self.end - self.current) + self.recycled@.len()
    }

    /// An allocator handing out the frames `start..end`.
    pub fn new(start: u64, end: u64) -> (a: StackFrameAllocator)
        requires
            start <= end,
            end <= ppn_span(),
        ensures
            a.wf(),
            a.current == start,
            a.end == end,
            a.recycled@ == Seq::<u64>::empty(),
            a.free_count() == end - start,
    {
        StackFrameAllocator { current: start, end, recycled: Vec::new() }
    }

    /// Whether the allocator's counters agree; see `wf`.
    pub fn check_wf(&self) -> (r: bool)
        ensures
            r == self.wf(),
    {
        if self.current > self.end || self.end > 0x1000_0000_0000u64 {
            return false;
        }
        let n = self.recycled.len();
        let mut i: usize = 0;
        while i < n
            invariant
                i <= n,
                n == self.recycled@.len(),
                forall|a: int| 0 <= a < i ==> #[trigger] self.recycled@[a] < self.current,
                forall|a: int, b: int|
                    0 <= a < i && 0 <= b < n && a != b ==> self.recycled@[a] != self.recycled@[b],
            decreases n - i,
        {
            if self.recycled[i] >= self.current {
                return false;
            }
            let mut j: usize = 0;
            while j < n
                invariant
                    j <= n,
                    i < n,
                    n == self.recycled@.len(),
                    forall|b: int| 0 <= b < j && b != i ==> self.recycled@[i as int] != self.recycled@[b],
                decreases n - j,
            {
                if j != i && self.recycled[j] == self.recycled[i] {
                    return false;
                }
                j = j + 1;
            }
            i = i + 1;
        }
        true
    }

    /// Whether at least `n` frames can still be handed out.
    pub fn has_free_frames(&self, n: usize) -> (r: bool)
        requires
            self.wf(),
        ensures
            r == (self.free_count() >= n),
    {
        let k = self.recycled.len();
        if k >= n {
            true
        } else {
            ((n - k) as u64) <= self.end - self.current
        }
    }

    /// Hands out a free frame: the last one given back, or else the next
    /// one never handed out; `None` when there is none.
    pub fn frame_alloc(&mut self) -> (f: Option<PhysPageNum>)
        requires
            old(self).wf(),
        ensures
            final(self).wf(),
            match f {
                Some(p) => {
                    &&& old(self).free_count() > 0
                    &&& !old(self).in_use().contains(p.0 as int)
                    &&& final(self).in_use() == old(self).in_use().insert(p.0 as int)
                    &&& final(self).free_count() == old(self).free_count() - 1
                    &&& final(self).end == old(self).end
                    &&& p.0 < ppn_span()
                },
                None => {
                    &&& old(self).free_count() == 0
                    &&& final(self).current == old(self).current
                    &&& final(self).end == old(self).end
                    &&& final(self).recycled@ == old(self).recycled@
                },
            },
    {
        let ghost r0 = self.recycled@;
        if let Some(ppn) = self.recycled.pop() {
            proof {
                assert(r0 == self.recycled@.push(ppn));
                assert(r0[r0.len() - 1] == ppn);
                assert(!self.recycled@.contains(ppn)) by {
                    if self.recycled@.contains(ppn) {
                        let k = choose|k: int| 0 <= k < self.recycled@.len() && self.recycled@[k] == ppn;
                        assert(r0[k] == r0[r0.len() - 1]);
                    }
                }
                assert forall|q: u64| #[trigger] r0.contains(q) <==> self.recycled@.contains(q) || q == ppn by {
                    if r0.contains(q) && q != ppn {
                        let k = choose|k: int| 0 <= k < r0.len() && r0[k] == q;
                        assert(self.recycled@[k] == q);
                    }
                    if self.recycled@.contains(q) {
                        let k = choose|k: int| 0 <= k < self.recycled@.len() && self.recycled@[k] == q;
                        assert(r0[k] == q);
                    }
                }
                assert(self.in_use() =~= old(self).in_use().insert(ppn as int));
                assert(self.recycled@.no_duplicates());
            }
            Some(PhysPageNum(ppn))
        } else if self.current == self.end {
            None
        } else {
            self.current = self.current + 1;
            proof {
                assert(!r0.contains((self.current - 1) as u64));
                assert(self.in_use() =~= old(self).in_use().insert(self.current - 1));
            }
            Some(PhysPageNum(self.current - 1))
        }
    }

    /// Gives back frame `ppn`, which must be in use.
    pub fn frame_dealloc(&mut self, ppn: PhysPageNum)
        requires
            old(self).wf(),
            old(self).in_use().contains(ppn.0 as int),
        ensures
            final(self).wf(),
            final(self).in_use() == old(self).in_use().remove(ppn.0 as int),
            final(self).free_count() == old(self).free_count() + 1,
            final(self).end == old(self).end,
    {
        let ghost r0 = self.recycled@;
        self.recycled.push(ppn.0);
        proof {
            assert(self.recycled@[r0.len() as int] == ppn.0);
            assert forall|q: u64| #[trigger] self.recycled@.contains(q) <==> r0.contains(q) || q == ppn.0 by {
                if self.recycled@.contains(q) && q != ppn.0 {
                    let k = choose|k: int| 0 <= k < self.recycled@.len() && self.recycled@[k] == q;
                    assert(r0[k] == q);
                }
                if r0.contains(q) {
                    let k = choose|k: int| 0 <= k < r0.len() && r0[k] == q;
                    assert(self.recycled@[k] == q);
                }
            }
            assert(self.in_use() =~= old(self).in_use().remove(ppn.0 as int));
        }
    }
}

} // verus!
