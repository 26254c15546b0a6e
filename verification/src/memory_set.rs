//! The areas of a task's address space: ranges of virtual pages with
//! their access permissions.

use vstd::prelude::*;
use crate::frame_allocator::StackFrameAllocator;
use crate::mm::{
    has_flag, page_ceil, page_floor, pte_flags, pte_ppn, PTEFlags, PageTable, PageTableEntry,
    VirtAddr, VirtPageNum,
};

verus! {

/// Access permissions of an area.
#[derive(Clone, Copy, PartialEq, Eq, Structural, Debug)]
pub struct MapPermission {
    pub bits: u8,
}

impl MapPermission {
    /// Readable.
    pub const R: u8 = 0x02;
    /// Writable.
    pub const W: u8 = 0x04;
    /// Executable.
    pub const X: u8 = 0x08;
    /// Accessible in user mode.
    pub const U: u8 = 0x10;
}

/// How an area's pages get their frames.
#[derive(Clone, Copy, PartialEq, Eq, Structural, Debug)]
pub enum MapType {
    /// Each page is the frame of the same number.
    Identical,
    /// Each page gets a frame of its own.
    Framed,
}

/// A range of virtual pages, `l` included, `r` excluded.
#[derive(Clone, Copy, PartialEq, Eq, Structural, Debug)]
pub struct VPNRange {
    pub l: VirtPageNum,
    pub r: VirtPageNum,
}

impl VPNRange {
    /// The first page of the range.
    pub fn get_start(&self) -> (p: VirtPageNum)
        ensures
            p == self.l,
    {
        self.l
    }

    /// The page just past the range.
    pub fn get_end(&self) -> (p: VirtPageNum)
        ensures
            p == self.r,
    {
        self.r
    }
}

/// An area of an address space.
#[derive(Clone, Copy, PartialEq, Eq, Structural, Debug)]
pub struct MapArea {
    pub vpn_range: VPNRange,
    pub map_type: MapType,
    pub map_perm: MapPermission,
}

impl MapArea {
    /// The area of the pages from the one holding `start_va` up to the one
    /// at or above `end_va`.
    pub fn new(start_va: VirtAddr, end_va: VirtAddr, map_type: MapType, map_perm: MapPermission) -> (a:
        MapArea)
        ensures
            a.vpn_range.l.0 == page_floor(start_va.0 as int),
            a.vpn_range.r.0 == page_ceil(end_va.0 as int),
            a.map_type == map_type,
            a.map_perm == map_perm,
    {
        MapArea {
            vpn_range: VPNRange { l: start_va.floor(), r: end_va.ceil() },
            map_type,
            map_perm,
        }
    }
}

/// Area `a` shares a page with the pages from `start` up to `end`.
pub open spec fn overlaps(a: MapArea, start: int, end: int) -> bool {
    !(a.vpn_range.r.0 <= start || a.vpn_range.l.0 >= end)
}

/// Area `a` covers exactly the pages from `start` up to `end`.
pub open spec fn covers_exactly(a: MapArea, start: int, end: int) -> bool {
    a.vpn_range.l.0 == start && a.vpn_range.r.0 == end
}

/// No two areas share a page.
pub open spec fn areas_disjoint(areas: Seq<MapArea>) -> bool {
    forall|i: int, j: int|
        0 <= i < areas.len() && 0 <= j < areas.len() && i != j ==> !overlaps(
            #[trigger] areas[i],
            #[trigger] areas[j].vpn_range.l.0 as int,
            areas[j].vpn_range.r.0 as int,
        )
}

/// `idx` is the first area that covers exactly the pages from `start` up to `end`.
pub open spec fn is_first_exact(areas: Seq<MapArea>, start: int, end: int, idx: int) -> bool {
    &&& 0 <= idx < areas.len()
    &&& covers_exactly(areas[idx], start, end)
    &&& forall|k: int| 0 <= k < idx ==> !covers_exactly(#[trigger] areas[k], start, end)
}

/// Some area covers exactly the pages from `start` up to `end`.
pub open spec fn has_exact(areas: Seq<MapArea>, start: int, end: int) -> bool {
    exists|k: int| 0 <= k < areas.len() && covers_exactly(#[trigger] areas[k], start, end)
}

/// Page `vpn` has a valid entry in `pt`.
pub open spec fn valid_at(pt: Map<usize, PageTableEntry>, vpn: usize) -> bool {
    pt.contains_key(vpn) && has_flag(pte_flags(pt[vpn].bits), PTEFlags::V)
}

/// The frame that the entry of page `vpn` in `pt` names.
pub open spec fn frame_of(pt: Map<usize, PageTableEntry>, vpn: usize) -> int {
    pte_ppn(pt[vpn].bits)
}

/// Area `a` holds page `vpn`.
pub open spec fn area_has(a: MapArea, vpn: usize) -> bool {
    a.vpn_range.l.0 <= vpn < a.vpn_range.r.0
}

/// `pt1` has the same entries as `pt0` outside the pages `l..r`.
pub open spec fn agree_outside(
    pt0: Map<usize, PageTableEntry>,
    pt1: Map<usize, PageTableEntry>,
    l: int,
    r: int,
) -> bool {
    forall|vpn: usize|
        !(l <= vpn < r) ==> (#[trigger] pt1.contains_key(vpn) <==> pt0.contains_key(vpn)) && (
        pt0.contains_key(vpn) ==> pt1[vpn] == pt0[vpn])
}

/// Every valid entry names a frame in use, and no two valid entries name the same frame.
pub open spec fn frames_owned(pt: Map<usize, PageTableEntry>, in_use: Set<int>) -> bool {
    &&& forall|vpn: usize| #[trigger] valid_at(pt, vpn) ==> in_use.contains(frame_of(pt, vpn))
    &&& forall|v1: usize, v2: usize|
        #[trigger] valid_at(pt, v1) && #[trigger] valid_at(pt, v2) && v1 != v2 ==> frame_of(pt, v1)
            != frame_of(pt, v2)
}

/// From `pt0` and frames `in0` to `pt1` and `in1`, the pages `l..r` got
/// valid entries with `flags`, each naming a frame that was free, and
/// those frames, and no others, became in use.
pub open spec fn maps_fresh(
    pt0: Map<usize, PageTableEntry>,
    pt1: Map<usize, PageTableEntry>,
    in0: Set<int>,
    in1: Set<int>,
    l: int,
    r: int,
    flags: u8,
) -> bool {
    &&& agree_outside(pt0, pt1, l, r)
    &&& forall|vpn: usize|
        l <= vpn < r ==> #[trigger] valid_at(pt1, vpn) && pte_flags(pt1[vpn].bits) == flags
            && !in0.contains(frame_of(pt1, vpn))
    &&& forall|p: int|
        #[trigger] in1.contains(p) <==> in0.contains(p) || exists|vpn: usize|
            l <= vpn < r && #[trigger] frame_of(pt1, vpn) == p
}

/// From `pt0` and frames `in0` to `pt1` and `in1`, the entries of the
/// pages `l..r` were cleared, and the frames their valid entries named,
/// and no others, became free.
pub open spec fn unmaps(
    pt0: Map<usize, PageTableEntry>,
    pt1: Map<usize, PageTableEntry>,
    in0: Set<int>,
    in1: Set<int>,
    l: int,
    r: int,
) -> bool {
    &&& agree_outside(pt0, pt1, l, r)
    &&& forall|vpn: usize| l <= vpn < r ==> #[trigger] pt1.contains_key(vpn) && pt1[vpn].bits == 0
    &&& forall|p: int|
        #[trigger] in1.contains(p) <==> in0.contains(p) && !exists|vpn: usize|
            l <= vpn < r && valid_at(pt0, vpn) && #[trigger] frame_of(pt0, vpn) == p
}

/// The page table `pt` maps exactly the pages of `a`, no page lies in two
/// areas, and the frames behind valid entries are in `in_use`, each behind
/// one page.
pub open spec fn space_wf(a: Seq<MapArea>, pt: Map<usize, PageTableEntry>, in_use: Set<int>) -> bool {
    &&& forall|vpn: usize|
        #[trigger] valid_at(pt, vpn) ==> exists|i: int| 0 <= i < a.len() && #[trigger] area_has(a[i], vpn)
    &&& forall|i: int, vpn: usize| 0 <= i < a.len() && #[trigger] area_has(a[i], vpn) ==> valid_at(pt, vpn)
    &&& forall|i: int, j: int, vpn: usize|
        #![trigger area_has(a[i], vpn), area_has(a[j], vpn)]
        0 <= i < a.len() && 0 <= j < a.len() && i != j && area_has(a[i], vpn) ==> !area_has(a[j], vpn)
    &&& frames_owned(pt, in_use)
}

/// Number of pages from `l` up to `r`.
pub open spec fn page_count(l: int, r: int) -> int {
    if r > l {
        r - l
    } else {
        0
    }
}

/// The areas of an address space and the page table that maps them.
pub struct MemorySet {
    pub page_table: PageTable,
    pub areas: Vec<MapArea>,
}

impl MemorySet {
    /// See `space_wf`.
    pub open spec fn wf(&self, in_use: Set<int>) -> bool {
        space_wf(self.areas@, self.page_table@, in_use)
    }

    /// An address space with no area and an empty page table.
    pub fn new_bare() -> (ms: MemorySet)
        ensures
            ms.areas@ == Seq::<MapArea>::empty(),
            ms.page_table@ == Map::<usize, PageTableEntry>::empty(),
            forall|in_use: Set<int>| ms.wf(in_use),
    {
        MemorySet { page_table: PageTable::new(), areas: Vec::new() }
    }

    /// Adds the framed area from `start_va` to `end_va` with `permission`,
    /// mapping each of its pages to a frame of its own from `frames`.
    #[verifier::loop_isolation(false)]
    pub fn insert_framed_area(
        &mut self,
        frames: &mut StackFrameAllocator,
        start_va: VirtAddr,
        end_va: VirtAddr,
        permission: MapPermission,
    )
        requires
            old(frames).wf(),
            old(self).wf(old(frames).in_use()),
            forall|vpn: usize|
                page_floor(start_va.0 as int) <= vpn < page_ceil(end_va.0 as int) ==> !valid_at(
                    old(self).page_table@,
                    vpn,
                ),
            old(frames).free_count() >= page_ceil(end_va.0 as int) - page_floor(start_va.0 as int),
        ensures
            final(frames).wf(),
            final(self).wf(final(frames).in_use()),
            final(self).areas@ == old(self).areas@.push(
                MapArea {
                    vpn_range: VPNRange {
                        l: VirtPageNum(page_floor(start_va.0 as int) as usize),
                        r: VirtPageNum(page_ceil(end_va.0 as int) as usize),
                    },
                    map_type: MapType::Framed,
                    map_perm: permission,
                },
            ),
            maps_fresh(
                old(self).page_table@,
                final(self).page_table@,
                old(frames).in_use(),
                final(frames).in_use(),
                page_floor(start_va.0 as int),
                page_ceil(end_va.0 as int),
                permission.bits | PTEFlags::V,
            ),
            final(frames).free_count() == old(frames).free_count() - page_count(
                page_floor(start_va.0 as int),
                page_ceil(end_va.0 as int),
            ),
            final(frames).end == old(frames).end,
    {
        let area = MapArea::new(start_va, end_va, MapType::Framed, permission);
        let l = area.vpn_range.l.0;
        let r = area.vpn_range.r.0;
        let flags = PTEFlags { bits: permission.bits };
        let ghost pt0 = self.page_table@;
        let ghost in0 = frames.in_use();
        let ghost fl = (permission.bits | PTEFlags::V) as u8;
        assert(has_flag(fl, PTEFlags::V)) by {
            let b = permission.bits;
            assert((b | 1u8) & 1u8 == 1u8) by (bit_vector);
        }
        let mut vpn: usize = l;
        proof {
            assert forall|p: int| #[trigger] in0.contains(p) <==> in0.contains(p) || exists|v: usize|
                l <= v < vpn && #[trigger] frame_of(pt0, v) == p by {}
        }
        while vpn < r
            invariant
                l <= vpn,
                vpn <= r || vpn == l,
                frames.wf(),
                frames.free_count() >= r - vpn,
                frames.free_count() == old(frames).free_count() - (vpn - l),
                frames.end == old(frames).end,
                self.areas@ == old(self).areas@,
                maps_fresh(pt0, self.page_table@, in0, frames.in_use(), l as int, vpn as int, fl),
                frames_owned(self.page_table@, frames.in_use()),
            decreases r - vpn,
        {
            let ghost pt1 = self.page_table@;
            let ghost in1 = frames.in_use();
            let f = frames.frame_alloc();
            let frame = f.unwrap();
            assert(!valid_at(pt0, vpn));
            assert(pt1.contains_key(vpn) == pt0.contains_key(vpn));
            assert(!valid_at(pt1, vpn));
            self.page_table.map(VirtPageNum(vpn), frame, flags);
            proof {
                let pt2 = self.page_table@;
                let in2 = frames.in_use();
                assert(valid_at(pt2, vpn));
                assert(frame_of(pt2, vpn) == frame.0);
                assert forall|v: usize| #[trigger] valid_at(pt2, v) implies in2.contains(frame_of(pt2, v)) by {
                    if v != vpn {
                        assert(valid_at(pt1, v));
                    }
                }
                assert forall|v1: usize, v2: usize|
                    #[trigger] valid_at(pt2, v1) && #[trigger] valid_at(pt2, v2) && v1 != v2 implies frame_of(pt2, v1)
                        != frame_of(pt2, v2) by {
                    if v1 != vpn {
                        assert(valid_at(pt1, v1));
                    }
                    if v2 != vpn {
                        assert(valid_at(pt1, v2));
                    }
                }
                assert forall|v: usize|
                    l <= v < vpn + 1 implies #[trigger] valid_at(pt2, v) && pte_flags(pt2[v].bits) == fl
                        && !in0.contains(frame_of(pt2, v)) by {
                    if v != vpn {
                        assert(valid_at(pt1, v));
                    }
                }
                assert forall|p: int| #[trigger] in2.contains(p) <==> in0.contains(p) || exists|v: usize|
                    l <= v < vpn + 1 && #[trigger] frame_of(pt2, v) == p by {
                    if in1.contains(p) && !in0.contains(p) {
                        let v = choose|v: usize| l <= v < vpn && #[trigger] frame_of(pt1, v) == p;
                        assert(valid_at(pt1, v));
                        assert(frame_of(pt2, v) == p);
                    }
                    if p == frame.0 {
                        assert(frame_of(pt2, vpn) == p);
                    }
                    if exists|v: usize| l <= v < vpn + 1 && #[trigger] frame_of(pt2, v) == p {
                        let v = choose|v: usize| l <= v < vpn + 1 && #[trigger] frame_of(pt2, v) == p;
                        if v != vpn {
                            assert(valid_at(pt1, v));
                            assert(frame_of(pt1, v) == p);
                        }
                    }
                }
            }
            vpn = vpn + 1;
        }
        let ghost pt1 = self.page_table@;
        let ghost in1 = frames.in_use();
        self.areas.push(area);
        proof {
            let a = self.areas@;
            let a0 = old(self).areas@;
            let n = a0.len();
            assert(a[n as int] == area);
            assert forall|v: usize| #[trigger] valid_at(pt1, v) implies exists|i: int|
                0 <= i < a.len() && #[trigger] area_has(a[i], v) by {
                if l <= v < r {
                    assert(area_has(a[n as int], v));
                } else {
                    assert(valid_at(pt0, v));
                    let i = choose|i: int| 0 <= i < a0.len() && #[trigger] area_has(a0[i], v);
                    assert(a[i] == a0[i]);
                }
            }
            assert forall|i: int, v: usize| 0 <= i < a.len() && #[trigger] area_has(a[i], v) implies valid_at(pt1, v) by {
                if i < n {
                    assert(a[i] == a0[i]);
                    assert(valid_at(pt0, v));
                    assert(!(l <= v < vpn));
                    assert(pt1.contains_key(v) == pt0.contains_key(v));
                }
            }
            assert forall|i: int, j: int, v: usize|
                #![trigger area_has(a[i], v), area_has(a[j], v)]
                0 <= i < a.len() && 0 <= j < a.len() && i != j && area_has(a[i], v) implies !area_has(a[j], v) by {
                if i < n && j < n {
                    assert(a[i] == a0[i] && a[j] == a0[j]);
                } else if i < n {
                    assert(a[i] == a0[i]);
                    assert(valid_at(pt0, v));
                } else {
                    assert(a[j] == a0[j]);
                    if area_has(a[j], v) {
                        assert(valid_at(pt0, v));
                    }
                }
            }
        }
    }

    /// Removes the first area that covers exactly the pages of `start_va`
    /// up to `end_va`, unmapping its pages and giving their frames back to
    /// `frames`; answers whether there was one.
    #[verifier::loop_isolation(false)]
    pub fn delete(&mut self, frames: &mut StackFrameAllocator, start_va: VirtAddr, end_va: VirtAddr) -> (found: bool)
        requires
            old(frames).wf(),
            old(self).wf(old(frames).in_use()),
        ensures
            final(frames).wf(),
            final(self).wf(final(frames).in_use()),
            ({
                let s = page_floor(start_va.0 as int);
                let e = page_ceil(end_va.0 as int);
                &&& found == has_exact(old(self).areas@, s, e)
                &&& found ==> exists|idx: int|
                    is_first_exact(old(self).areas@, s, e, idx) && final(self).areas@ == old(
                        self,
                    ).areas@.remove(idx)
                &&& found ==> unmaps(
                    old(self).page_table@,
                    final(self).page_table@,
                    old(frames).in_use(),
                    final(frames).in_use(),
                    s,
                    e,
                )
                &&& found ==> final(frames).free_count() == old(frames).free_count() + page_count(s, e)
                &&& !found ==> final(self).areas@ == old(self).areas@
                    && final(self).page_table@ == old(self).page_table@
                    && final(frames).in_use() == old(frames).in_use()
                    && final(frames).free_count() == old(frames).free_count()
            }),
            final(frames).end == old(frames).end,
    {
        let start_vpn = start_va.floor();
        let end_vpn = end_va.ceil();
        let ghost pt0 = self.page_table@;
        let ghost in0 = frames.in_use();
        let ghost a0 = self.areas@;
        let mut i: usize = 0;
        while i < self.areas.len()
            invariant
                i <= self.areas@.len(),
                self.areas@ == a0,
                forall|k: int|
                    0 <= k < i ==> !covers_exactly(
                        #[trigger] self.areas@[k],
                        start_vpn.0 as int,
                        end_vpn.0 as int,
                    ),
            decreases self.areas@.len() - i,
        {
            let rg = self.areas[i].vpn_range;
            if rg.get_start().0 == start_vpn.0 && rg.get_end().0 == end_vpn.0 {
                break;
            }
            i = i + 1;
        }
        if i == self.areas.len() {
            return false;
        }
        {
                let s = start_vpn.0;
                let e = end_vpn.0;
                assert(is_first_exact(a0, s as int, e as int, i as int));
                assert forall|v: usize| s <= v < e implies valid_at(pt0, v) by {
                    assert(area_has(a0[i as int], v));
                }
                let mut vpn: usize = s;
                proof {
                    assert forall|p: int| #[trigger] in0.contains(p) <==> in0.contains(p) && !exists|v: usize|
                        s <= v < vpn && valid_at(pt0, v) && #[trigger] frame_of(pt0, v) == p by {}
                }
                while vpn < e
                    invariant
                        s <= vpn,
                        vpn <= e || vpn == s,
                        frames.wf(),
                        frames.free_count() == old(frames).free_count() + (vpn - s),
                        frames.end == old(frames).end,
                        self.areas@ == a0,
                        unmaps(pt0, self.page_table@, in0, frames.in_use(), s as int, vpn as int),
                    decreases e - vpn,
                {
                    let ghost pt1 = self.page_table@;
                    let ghost in1 = frames.in_use();
                    assert(valid_at(pt0, vpn));
                    assert(pt1.contains_key(vpn) == pt0.contains_key(vpn));
                    let pte = self.page_table.translate(VirtPageNum(vpn)).unwrap();
                    assert(pt1[vpn] == pt0[vpn]);
                    assert(in1.contains(frame_of(pt0, vpn))) by {
                        assert(valid_at(pt0, vpn));
                        assert(in0.contains(frame_of(pt0, vpn)));
                        if exists|v: usize| s <= v < vpn && valid_at(pt0, v) && #[trigger] frame_of(pt0, v)
                            == frame_of(pt0, vpn) {
                            let v = choose|v: usize|
                                s <= v < vpn && valid_at(pt0, v) && #[trigger] frame_of(pt0, v) == frame_of(
                                    pt0,
                                    vpn,
                                );
                            assert(valid_at(pt0, v) && valid_at(pt0, vpn));
                        }
                    }
                    let ppn = pte.ppn();
                    frames.frame_dealloc(ppn);
                    self.page_table.unmap(VirtPageNum(vpn));
                    proof {
                        let pt2 = self.page_table@;
                        let in2 = frames.in_use();
                        assert(pt2 == pt1.insert(vpn, PageTableEntry { bits: 0 }));
                        assert forall|v: usize|
                            !(s <= v < vpn + 1) implies (#[trigger] pt2.contains_key(v) <==> pt0.contains_key(v))
                                && (pt0.contains_key(v) ==> pt2[v] == pt0[v]) by {
                            assert(pt1.contains_key(v) <==> pt0.contains_key(v));
                        }
                        assert forall|v: usize| s <= v < vpn + 1 implies #[trigger] pt2.contains_key(v)
                            && pt2[v].bits == 0 by {
                            if v != vpn {
                                assert(pt1.contains_key(v));
                            }
                        }
                        assert forall|p: int| #[trigger] in2.contains(p) <==> in0.contains(p) && !exists|v: usize|
                            s <= v < vpn + 1 && valid_at(pt0, v) && #[trigger] frame_of(pt0, v) == p by {
                            if exists|v: usize| s <= v < vpn + 1 && valid_at(pt0, v) && #[trigger] frame_of(pt0, v) == p {
                                let v = choose|v: usize|
                                    s <= v < vpn + 1 && valid_at(pt0, v) && #[trigger] frame_of(pt0, v) == p;
                                if v != vpn {
                                    assert(!in1.contains(p));
                                }
                            }
                            if p == frame_of(pt0, vpn) {
                                assert(s <= vpn < vpn + 1 && valid_at(pt0, vpn));
                            }
                        }
                    }
                    vpn = vpn + 1;
                }
                let ghost pt1 = self.page_table@;
                let ghost in1 = frames.in_use();
                self.areas.remove(i);
                proof {
                    let a = self.areas@;
                    let ii = i as int;
                    assert forall|v: usize| #[trigger] valid_at(pt1, v) implies exists|k: int|
                        0 <= k < a.len() && #[trigger] area_has(a[k], v) by {
                        if s <= v < e {
                            assert(!has_flag(pte_flags(0u64), PTEFlags::V)) by {
                                assert(0u8 & 1u8 == 0u8) by (bit_vector);
                            }
                        } else {
                            assert(valid_at(pt0, v));
                            let k = choose|k: int| 0 <= k < a0.len() && #[trigger] area_has(a0[k], v);
                            assert(k != ii);
                            if k < ii {
                                assert(a[k] == a0[k]);
                            } else {
                                assert(a[k - 1] == a0[k]);
                            }
                        }
                    }
                    assert forall|k: int, v: usize| 0 <= k < a.len() && #[trigger] area_has(a[k], v) implies valid_at(pt1, v) by {
                        let k0 = if k < ii { k } else { k + 1 };
                        assert(a[k] == a0[k0]);
                        assert(valid_at(pt0, v));
                        assert(!area_has(a0[ii], v));
                        assert(!(s <= v < vpn));
                        assert(pt1.contains_key(v) == pt0.contains_key(v));
                    }
                    assert forall|k: int, j: int, v: usize|
                        #![trigger area_has(a[k], v), area_has(a[j], v)]
                        0 <= k < a.len() && 0 <= j < a.len() && k != j && area_has(a[k], v) implies !area_has(a[j], v) by {
                        let k0 = if k < ii { k } else { k + 1 };
                        let j0 = if j < ii { j } else { j + 1 };
                        assert(a[k] == a0[k0] && a[j] == a0[j0]);
                    }
                    assert forall|v: usize| #[trigger] valid_at(pt1, v) implies in1.contains(frame_of(pt1, v)) by {
                        if s <= v < e {
                            assert(0u8 & 1u8 == 0u8) by (bit_vector);
                        } else {
                            assert(valid_at(pt0, v));
                            assert(in0.contains(frame_of(pt0, v)));
                            if exists|w: usize| s <= w < e && valid_at(pt0, w) && #[trigger] frame_of(pt0, w)
                                == frame_of(pt0, v) {
                                let w = choose|w: usize|
                                    s <= w < e && valid_at(pt0, w) && #[trigger] frame_of(pt0, w) == frame_of(pt0, v);
                                assert(valid_at(pt0, w) && valid_at(pt0, v));
                            }
                        }
                    }
                    assert forall|v1: usize, v2: usize|
                        #[trigger] valid_at(pt1, v1) && #[trigger] valid_at(pt1, v2) && v1 != v2 implies frame_of(pt1, v1)
                            != frame_of(pt1, v2) by {
                        assert(0u8 & 1u8 == 0u8) by (bit_vector);
                        if !(s <= v1 < e) && !(s <= v2 < e) {
                            assert(valid_at(pt0, v1) && valid_at(pt0, v2));
                        }
                    }
                }
                true
        }
    }
}

} // verus!
