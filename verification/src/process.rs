//! Process management system calls: exit, yield, time, tracing, memory
//! mapping and the program break.
//!
//! Reading and writing user memory, reading the clock and switching tasks
//! are the caller's work: the calls here decide what is to be done, and
//! where, and answer what the system call answers.

use vstd::prelude::*;
use crate::frame_allocator::StackFrameAllocator;
use crate::memory_set::{
    area_has, areas_disjoint, covers_exactly, frame_of, has_exact, is_first_exact, maps_fresh, page_count,
    overlaps, space_wf, unmaps, valid_at, MapArea, MapPermission, MapType, MemorySet, VPNRange,
};
use crate::mm::{
    has_flag, vpn_of, is_user_readable, is_user_writable, page_ceil, page_floor, phys_of, sv39_span, translate_ptr,
    user_access, va_of, PTEFlags, PageTable, PageTableEntry, VirtAddr, VirtPageNum, PAGE_SIZE,
};
use crate::task::{TaskManager, TaskStatus, MAX_SYSCALL_NUM};

verus! {

/// A time: seconds and microseconds.
#[derive(Clone, Copy, PartialEq, Eq, Structural, Debug)]
pub struct TimeVal {
    pub sec: usize,
    pub usec: usize,
}

impl TimeVal {
    /// The time `us` microseconds after the clock's start.
    pub fn from_us(us: usize) -> (t: TimeVal)
        ensures
            t.sec == us / 1_000_000,
            t.usec == us % 1_000_000,
            t.sec * 1_000_000 + t.usec == us,
            t.usec < 1_000_000,
    {
        TimeVal { sec: us / 1_000_000, usec: us % 1_000_000 }
    }
}

/// Bytes a `TimeVal` takes in user memory: two 64-bit words, seconds first.
pub const TIMEVAL_SIZE: usize = 16;

/// `256` to the power `k`.
pub open spec fn pow256(k: nat) -> int
    decreases k,
{
    if k == 0 {
        1
    } else {
        pow256((k - 1) as nat) * 256
    }
}

/// Byte `k` of `x`, least significant first.
pub open spec fn le_byte(x: int, k: nat) -> u8 {
    ((x / pow256(k)) % 256) as u8
}

/// Byte `k` of `t` as it lies in user memory: the little-endian bytes of
/// the seconds, then those of the microseconds.
pub open spec fn timeval_byte(t: TimeVal, k: int) -> u8 {
    if k < 8 {
        le_byte(t.sec as int, k as nat)
    } else {
        le_byte(t.usec as int, (k - 8) as nat)
    }
}

/// Every byte of a `TimeVal` at user address `ts` lies on a page that user
/// mode may write (there may be two such pages).
pub open spec fn time_buffer_writable(pt: Map<usize, PageTableEntry>, ts: usize) -> bool {
    &&& ts + TIMEVAL_SIZE - 1 <= usize::MAX
    &&& forall|k: int|
        0 <= k < TIMEVAL_SIZE ==> #[trigger] user_access(pt, (ts + k) as usize, PTEFlags::U | PTEFlags::W)
}

/// What `sys_get_time` asks of its caller.
#[derive(Clone, Debug)]
pub enum GetTimeAction {
    /// The user buffer is not writable: the call answers `-1`.
    Fault,
    /// Write each byte at its physical address; the call answers `0`.
    Write { stores: Vec<(u64, u8)> },
}

impl GetTimeAction {
    /// What the system call answers once the action is done.
    pub fn answer(&self) -> (r: isize)
        ensures
            r == (if *self is Fault {
                -1isize
            } else {
                0isize
            }),
    {
        match self {
            GetTimeAction::Fault => -1,
            GetTimeAction::Write { .. } => 0,
        }
    }
}

proof fn lemma_pow256_positive(k: nat)
    ensures
        pow256(k) > 0,
    decreases k,
{
    if k > 0 {
        lemma_pow256_positive((k - 1) as nat);
    }
}

/// Appends the eight little-endian bytes of `x` to `out`.
fn push_le_bytes(out: &mut Vec<u8>, x: usize)
    ensures
        final(out)@.len() == old(out)@.len() + 8,
        final(out)@.subrange(0, old(out)@.len() as int) == old(out)@,
        forall|k: int| 0 <= k < 8 ==> #[trigger] final(out)@[old(out)@.len() + k] == le_byte(x as int, k as nat),
{
    let ghost n0 = out@.len();
    let mut v: usize = x;
    let mut k: usize = 0;
    while k < 8
        invariant
            k <= 8,
            out@.len() == n0 + k,
            out@.subrange(0, n0 as int) == old(out)@,
            n0 == old(out)@.len(),
            v as int == x as int / pow256(k as nat),
            forall|kk: int| 0 <= kk < k ==> #[trigger] out@[n0 + kk] == le_byte(x as int, kk as nat),
        decreases 8 - k,
    {
        proof {
            lemma_pow256_positive(k as nat);
            vstd::arithmetic::div_mod::lemma_div_denominator(x as int, pow256(k as nat), 256);
        }
        out.push((v % 256) as u8);
        v = v / 256;
        k = k + 1;
        assert(out@.subrange(0, n0 as int) =~= old(out)@);
    }
}

/// The bytes of `t` as they lie in user memory.
pub fn timeval_bytes(t: TimeVal) -> (b: Vec<u8>)
    ensures
        b@.len() == TIMEVAL_SIZE,
        forall|k: int| 0 <= k < TIMEVAL_SIZE ==> #[trigger] b@[k] == timeval_byte(t, k),
{
    let mut b: Vec<u8> = Vec::new();
    push_le_bytes(&mut b, t.sec);
    let ghost b8 = b@;
    push_le_bytes(&mut b, t.usec);
    assert forall|k: int| 0 <= k < TIMEVAL_SIZE implies #[trigger] b@[k] == timeval_byte(t, k) by {
        if k < 8 {
            assert(b@[k] == b@.subrange(0, 8)[k]);
            assert(b8[0 + k] == le_byte(t.sec as int, k as nat));
        } else {
            assert(b@[8 + (k - 8)] == le_byte(t.usec as int, (k - 8) as nat));
        }
    }
    b
}

/// What `sys_trace` asks of its caller.
#[derive(Clone, Copy, PartialEq, Eq, Structural, Debug)]
pub enum TraceAction {
    /// The call answers this at once.
    Answer(isize),
    /// Read the byte at physical address `pa`; the call answers it.
    Load { pa: u64 },
    /// Write `byte` at physical address `pa`; the call answers `0`.
    Store { pa: u64, byte: u8 },
}

/// The current task exits; the caller then switches to another task.
pub fn sys_exit(tm: &mut TaskManager, _exit_code: i32)
    requires
        old(tm).has_current(),
    ensures
        final(tm).current_task == old(tm).current_task,
        final(tm).tasks@ == old(tm).tasks@.update(
            old(tm).current_task as int,
            crate::task::TaskControlBlock {
                task_status: TaskStatus::Exited,
                ..old(tm).tasks@[old(tm).current_task as int]
            },
        ),
{
    tm.set_current_status(TaskStatus::Exited);
}

/// The current task gives up the processor: it becomes ready and the call
/// answers `0`; the caller then switches to another task.
pub fn sys_yield(tm: &mut TaskManager) -> (r: isize)
    requires
        old(tm).has_current(),
    ensures
        r == 0,
        final(tm).current_task == old(tm).current_task,
        final(tm).tasks@ == old(tm).tasks@.update(
            old(tm).current_task as int,
            crate::task::TaskControlBlock {
                task_status: TaskStatus::Ready,
                ..old(tm).tasks@[old(tm).current_task as int]
            },
        ),
{
    tm.set_current_status(TaskStatus::Ready);
    0
}

/// Writes the time `us` microseconds into the user buffer at `ts`.
///
/// The buffer may cross a page boundary: the call fails unless every byte
/// of it lies on a page that user mode may write, and each byte goes to
/// the physical address that its own user address translates to.
pub fn sys_get_time(page_table: &PageTable, ts: usize, us: usize) -> (a: GetTimeAction)
    ensures
        !time_buffer_writable(page_table@, ts) ==> a is Fault,
        time_buffer_writable(page_table@, ts) ==> (a matches GetTimeAction::Write { stores } && stores@.len()
            == TIMEVAL_SIZE && forall|k: int|
            0 <= k < TIMEVAL_SIZE ==> #[trigger] stores@[k] == (
                phys_of(page_table@, (ts + k) as usize) as u64,
                timeval_byte(TimeVal { sec: us / 1_000_000, usec: us % 1_000_000 }, k),
            )),
{
    if ts > usize::MAX - (TIMEVAL_SIZE - 1) {
        return GetTimeAction::Fault;
    }
    let mut k: usize = 0;
    while k < TIMEVAL_SIZE
        invariant
            k <= TIMEVAL_SIZE,
            ts + TIMEVAL_SIZE - 1 <= usize::MAX,
            forall|kk: int|
                0 <= kk < k ==> #[trigger] user_access(
                    page_table@,
                    (ts + kk) as usize,
                    PTEFlags::U | PTEFlags::W,
                ),
        decreases TIMEVAL_SIZE - k,
    {
        if !is_user_writable(page_table, ts + k) {
            return GetTimeAction::Fault;
        }
        k = k + 1;
    }
    let bytes = timeval_bytes(TimeVal::from_us(us));
    let mut stores: Vec<(u64, u8)> = Vec::new();
    let mut k: usize = 0;
    while k < TIMEVAL_SIZE
        invariant
            k <= TIMEVAL_SIZE,
            ts + TIMEVAL_SIZE - 1 <= usize::MAX,
            time_buffer_writable(page_table@, ts),
            bytes@.len() == TIMEVAL_SIZE,
            forall|kk: int|
                0 <= kk < TIMEVAL_SIZE ==> #[trigger] bytes@[kk] == timeval_byte(
                    TimeVal { sec: us / 1_000_000, usec: us % 1_000_000 },
                    kk,
                ),
            stores@.len() == k,
            forall|kk: int|
                0 <= kk < k ==> #[trigger] stores@[kk] == (
                    phys_of(page_table@, (ts + kk) as usize) as u64,
                    timeval_byte(TimeVal { sec: us / 1_000_000, usec: us % 1_000_000 }, kk),
                ),
        decreases TIMEVAL_SIZE - k,
    {
        assert(user_access(page_table@, (ts + k as int) as usize, PTEFlags::U | PTEFlags::W));
        let pa = translate_ptr(page_table, ts + k);
        stores.push((pa, bytes[k]));
        k = k + 1;
    }
    GetTimeAction::Write { stores }
}

/// The action of a trace request, as `sys_trace` decides it.
pub open spec fn trace_spec(
    tm: &TaskManager,
    pt: Map<usize, PageTableEntry>,
    trace_request: usize,
    id: usize,
    data: usize,
) -> TraceAction {
    if trace_request == 0 {
        if user_access(pt, id, PTEFlags::U | PTEFlags::R) {
            TraceAction::Load { pa: phys_of(pt, id) as u64 }
        } else {
            TraceAction::Answer(-1isize)
        }
    } else if trace_request == 1 {
        if user_access(pt, id, PTEFlags::U | PTEFlags::W) {
            TraceAction::Store { pa: phys_of(pt, id) as u64, byte: data as u8 }
        } else {
            TraceAction::Answer(-1isize)
        }
    } else if trace_request == 2 {
        TraceAction::Answer(tm.count_of(id as int) as isize)
    } else {
        TraceAction::Answer(-1isize)
    }
}

/// Tracing: request `0` reads the user byte at address `id`, request `1`
/// writes the low byte of `data` there, request `2` answers how often the
/// current task made system call `id`; any other request answers `-1`.
/// A read or write of a page that user mode may not read, or write,
/// answers `-1`.
pub fn sys_trace(tm: &TaskManager, page_table: &PageTable, trace_request: usize, id: usize, data: usize) -> (a:
    TraceAction)
    requires
        trace_request == 2 ==> tm.has_current() && id < MAX_SYSCALL_NUM,
    ensures
        a == trace_spec(tm, page_table@, trace_request, id, data),
        trace_request == 1 && user_access(page_table@, id, PTEFlags::U | PTEFlags::W) ==> (a matches TraceAction::Store {
            pa,
            byte,
        } && byte as int == data as int % 256 && pa as int == phys_of(page_table@, id)),
        trace_request == 1 && !user_access(page_table@, id, PTEFlags::U | PTEFlags::W) ==> a
            == TraceAction::Answer(-1isize),
        trace_request == 0 && user_access(page_table@, id, PTEFlags::U | PTEFlags::R) ==> (a matches TraceAction::Load {
            pa,
        } && pa as int == phys_of(page_table@, id)),
{
    proof {
        lemma_trace_store_low_byte(tm, page_table@, id, data);
        lemma_trace_load(tm, page_table@, id, data);
    }
    match trace_request {
        0 => {
            if !is_user_readable(page_table, id) {
                return TraceAction::Answer(-1);
            }
            let pa = translate_ptr(page_table, id);
            TraceAction::Load { pa }
        },
        1 => {
            if !is_user_writable(page_table, id) {
                return TraceAction::Answer(-1);
            }
            let pa = translate_ptr(page_table, id);
            TraceAction::Store { pa, byte: data as u8 }
        },
        2 => {
            let task_id = crate::task::current_task_id(tm);
            let count = tm.tasks[task_id].inner.syscall_count[id];
            TraceAction::Answer(count as isize)
        },
        _ => TraceAction::Answer(-1),
    }
}

/// The arguments of `sys_mmap` are acceptable: a nonempty length, a
/// page-aligned start, and a protection of read, write and execute bits,
/// at least one of them.
pub open spec fn mmap_args_ok(start: usize, len: usize, prot: usize) -> bool {
    &&& len != 0
    &&& start as int % PAGE_SIZE as int == 0
    &&& prot < 8
    &&& prot != 0
}

/// The area `sys_mmap` adds: the pages from `start` up to `start + len`,
/// framed, accessible in user mode with the bits of `prot` as read, write
/// and execute permissions.
pub open spec fn mmap_area(start: usize, len: usize, prot: usize) -> MapArea {
    MapArea {
        vpn_range: VPNRange {
            l: VirtPageNum(page_floor(va_of(start)) as usize),
            r: VirtPageNum(page_ceil(va_of((start + len) as usize)) as usize),
        },
        map_type: MapType::Framed,
        map_perm: MapPermission { bits: (0x10 + 2 * prot) as u8 },
    }
}

/// What `sys_mmap` answers, and the areas it leaves.
pub open spec fn mmap_spec(areas: Seq<MapArea>, start: usize, len: usize, prot: usize) -> (isize, Seq<MapArea>) {
    let a = mmap_area(start, len, prot);
    if !mmap_args_ok(start, len, prot) || exists|i: int|
        0 <= i < areas.len() && overlaps(
            #[trigger] areas[i],
            a.vpn_range.l.0 as int,
            a.vpn_range.r.0 as int,
        ) {
        (-1isize, areas)
    } else {
        (0isize, areas.push(a))
    }
}

/// First page of the range that `sys_mmap` and `sys_munmap` work on.
pub open spec fn first_page(start: usize) -> int {
    page_floor(va_of(start))
}

/// The page just past the range that `sys_mmap` and `sys_munmap` work on.
pub open spec fn end_page(start: usize, len: usize) -> int {
    page_ceil(va_of((start + len) as usize))
}

/// Whether `sys_mmap` accepts its arguments, and if so how many pages it maps.
#[verifier::loop_isolation(false)]
pub fn mmap_accepts(memory_set: &MemorySet, start: usize, len: usize, prot: usize) -> (r: Option<usize>)
    requires
        mmap_args_ok(start, len, prot) ==> start + len <= usize::MAX,
    ensures
        r is Some <==> mmap_spec(memory_set.areas@, start, len, prot).0 == 0,
        r matches Some(n) ==> n == (if end_page(start, len) > first_page(start) {
            end_page(start, len) - first_page(start)
        } else {
            0
        }),
{
    if len == 0 {
        return None;
    }
    if start % PAGE_SIZE != 0 {
        return None;
    }
    assert((prot & !0b111usize != 0) == (prot >= 8)) by (bit_vector);
    if prot & !0b111 != 0 {
        return None;
    }
    if prot == 0 {
        return None;
    }
    let end = start + len;
    let start_vpn = VirtAddr::from_usize(start).floor();
    let end_vpn = VirtAddr::from_usize(end).ceil();
    let ghost a = mmap_area(start, len, prot);
    let mut i: usize = 0;
    while i < memory_set.areas.len()
        invariant
            i <= memory_set.areas@.len(),
            start_vpn.0 == a.vpn_range.l.0,
            end_vpn.0 == a.vpn_range.r.0,
            forall|k: int|
                0 <= k < i ==> !overlaps(
                    #[trigger] memory_set.areas@[k],
                    a.vpn_range.l.0 as int,
                    a.vpn_range.r.0 as int,
                ),
        decreases memory_set.areas@.len() - i,
    {
        let area = memory_set.areas[i];
        if !(area.vpn_range.get_end().0 <= start_vpn.0 || area.vpn_range.get_start().0 >= end_vpn.0) {
            assert(overlaps(memory_set.areas@[i as int], a.vpn_range.l.0 as int, a.vpn_range.r.0 as int));
            return None;
        }
        i = i + 1;
    }
    if end_vpn.0 > start_vpn.0 {
        Some(end_vpn.0 - start_vpn.0)
    } else {
        Some(0)
    }
}

/// Maps `len` bytes at `start` with protection `prot` into the current
/// task's address space; answers `0`, or `-1` for unacceptable arguments
/// or a range that shares a page with an existing area.  On success each
/// page of the new area is mapped to a frame of its own, taken from
/// `frames`, with the area's permissions and the valid bit.
#[verifier::loop_isolation(false)]
pub fn sys_mmap(
    memory_set: &mut MemorySet,
    frames: &mut StackFrameAllocator,
    start: usize,
    len: usize,
    prot: usize,
) -> (r: isize)
    requires
        old(frames).wf(),
        old(memory_set).wf(old(frames).in_use()),
        mmap_args_ok(start, len, prot) ==> start + len <= usize::MAX,
        mmap_spec(old(memory_set).areas@, start, len, prot).0 == 0 ==> old(frames).free_count()
            >= end_page(start, len) - first_page(start),
    ensures
        final(frames).wf(),
        final(memory_set).wf(final(frames).in_use()),
        (r, final(memory_set).areas@) == mmap_spec(old(memory_set).areas@, start, len, prot),
        r == 0 ==> maps_fresh(
            old(memory_set).page_table@,
            final(memory_set).page_table@,
            old(frames).in_use(),
            final(frames).in_use(),
            first_page(start),
            end_page(start, len),
            mmap_area(start, len, prot).map_perm.bits | PTEFlags::V,
        ),
        r == 0 ==> final(frames).free_count() == old(frames).free_count() - page_count(
            first_page(start),
            end_page(start, len),
        ),
        r != 0 ==> final(memory_set).page_table@ == old(memory_set).page_table@
            && final(frames).in_use() == old(frames).in_use()
            && final(frames).free_count() == old(frames).free_count(),
        final(frames).end == old(frames).end,
        r == 0 ==> forall|va: usize|
            first_page(start) <= vpn_of(va) < end_page(start, len) ==> {
                &&& user_access(final(memory_set).page_table@, va, PTEFlags::U)
                &&& user_access(final(memory_set).page_table@, va, PTEFlags::R) == (prot & 1 != 0)
                &&& user_access(final(memory_set).page_table@, va, PTEFlags::W) == (prot & 2 != 0)
                &&& user_access(final(memory_set).page_table@, va, PTEFlags::X) == (prot & 4 != 0)
            },
{
    if mmap_accepts(memory_set, start, len, prot).is_none() {
        return -1;
    }
    let ghost a = mmap_area(start, len, prot);
    let r_bit: u8 = if prot & 0b001 != 0 {
        MapPermission::R
    } else {
        0
    };
    let w_bit: u8 = if prot & 0b010 != 0 {
        MapPermission::W
    } else {
        0
    };
    let x_bit: u8 = if prot & 0b100 != 0 {
        MapPermission::X
    } else {
        0
    };
    let perm: u8 = MapPermission::U | r_bit | w_bit | x_bit;
    assert(perm == (0x10 + 2 * prot) as u8) by (bit_vector)
        requires
            prot < 8,
            r_bit == (if prot & 1 != 0 {
                2u8
            } else {
                0u8
            }),
            w_bit == (if prot & 2 != 0 {
                4u8
            } else {
                0u8
            }),
            x_bit == (if prot & 4 != 0 {
                8u8
            } else {
                0u8
            }),
            perm == 0x10u8 | r_bit | w_bit | x_bit,
    ;
    let end = start + len;
    proof {
        let pt = memory_set.page_table@;
        let ar = memory_set.areas@;
        assert forall|v: usize|
            a.vpn_range.l.0 <= v < a.vpn_range.r.0 implies !valid_at(pt, v) by {
            if valid_at(pt, v) {
                let k = choose|k: int| 0 <= k < ar.len() && #[trigger] area_has(ar[k], v);
                assert(overlaps(ar[k], a.vpn_range.l.0 as int, a.vpn_range.r.0 as int));
            }
        }
    }
    memory_set.insert_framed_area(
        frames,
        VirtAddr::from_usize(start),
        VirtAddr::from_usize(end),
        MapPermission { bits: perm },
    );
    assert(memory_set.areas@ =~= old(memory_set).areas@.push(a));
    proof {
        assert forall|va: usize| first_page(start) <= vpn_of(va) < end_page(start, len) implies {
            &&& user_access(memory_set.page_table@, va, PTEFlags::U)
            &&& user_access(memory_set.page_table@, va, PTEFlags::R) == (prot & 1 != 0)
            &&& user_access(memory_set.page_table@, va, PTEFlags::W) == (prot & 2 != 0)
            &&& user_access(memory_set.page_table@, va, PTEFlags::X) == (prot & 4 != 0)
        } by {
            lemma_mmap_page_access(
                old(memory_set).page_table@,
                memory_set.page_table@,
                old(frames).in_use(),
                frames.in_use(),
                start,
                len,
                prot,
                va,
            );
        }
    }
    0
}

/// What `sys_munmap` answers, and the areas it leaves.
pub open spec fn munmap_spec(areas: Seq<MapArea>, start: usize, len: usize) -> (isize, Seq<MapArea>) {
    let s = page_floor(va_of(start));
    let e = page_ceil(va_of((start + len) as usize));
    if len == 0 || start as int % PAGE_SIZE as int != 0 || !has_exact(areas, s, e) {
        (-1isize, areas)
    } else {
        (0isize, areas.remove(choose|idx: int| is_first_exact(areas, s, e, idx)))
    }
}

proof fn lemma_first_exact_unique(areas: Seq<MapArea>, s: int, e: int, i: int, j: int)
    requires
        is_first_exact(areas, s, e, i),
        is_first_exact(areas, s, e, j),
    ensures
        i == j,
{
    if i < j {
        assert(!covers_exactly(areas[i], s, e));
    }
    if j < i {
        assert(!covers_exactly(areas[j], s, e));
    }
}

/// Unmaps the area that covers exactly the pages of the `len` bytes at
/// `start` from the current task's address space; answers `0`, or `-1`
/// for an empty length, an unaligned start, or no such area.  On success
/// the entries of the area's pages are cleared and their frames go back
/// to `frames`.
pub fn sys_munmap(memory_set: &mut MemorySet, frames: &mut StackFrameAllocator, start: usize, len: usize) -> (r:
    isize)
    requires
        old(frames).wf(),
        old(memory_set).wf(old(frames).in_use()),
        len != 0 && start as int % PAGE_SIZE as int == 0 ==> start + len <= usize::MAX,
    ensures
        final(frames).wf(),
        final(memory_set).wf(final(frames).in_use()),
        (r, final(memory_set).areas@) == munmap_spec(old(memory_set).areas@, start, len),
        r == 0 ==> unmaps(
            old(memory_set).page_table@,
            final(memory_set).page_table@,
            old(frames).in_use(),
            final(frames).in_use(),
            first_page(start),
            end_page(start, len),
        ),
        r == 0 ==> final(frames).free_count() == old(frames).free_count() + page_count(
            first_page(start),
            end_page(start, len),
        ),
        r != 0 ==> final(memory_set).page_table@ == old(memory_set).page_table@
            && final(frames).in_use() == old(frames).in_use()
            && final(frames).free_count() == old(frames).free_count(),
        final(frames).end == old(frames).end,
        start as int % PAGE_SIZE as int != 0 || len == 0 ==> r == -1 && final(memory_set).areas@ == old(
            memory_set,
        ).areas@,
{
    proof {
        lemma_munmap_refuses_bad_start(old(memory_set).areas@, start, len);
    }
    if len == 0 {
        return -1;
    }
    if start % PAGE_SIZE != 0 {
        return -1;
    }
    let end = start + len;
    let found = memory_set.delete(frames, VirtAddr::from_usize(start), VirtAddr::from_usize(end));
    proof {
        let s = page_floor(va_of(start));
        let e = page_ceil(va_of(end));
        if found {
            let idx = choose|idx: int|
                is_first_exact(old(memory_set).areas@, s, e, idx) && memory_set.areas@ == old(
                    memory_set,
                ).areas@.remove(idx);
            let c = choose|idx: int| is_first_exact(old(memory_set).areas@, s, e, idx);
            lemma_first_exact_unique(old(memory_set).areas@, s, e, idx, c);
        }
    }
    if found {
        0
    } else {
        -1
    }
}

/// Moves the program break: `old_brk` is the break before the change, or
/// `None` when the change was refused.  Answers the old break, or `-1`.
pub fn sys_sbrk(old_brk: Option<usize>) -> (r: isize)
    ensures
        r == match old_brk {
            Some(b) => b as isize,
            None => -1isize,
        },
{
    if let Some(b) = old_brk {
        b as isize
    } else {
        -1
    }
}

/// A successful `sys_mmap` keeps the areas pairwise disjoint.
pub proof fn lemma_mmap_keeps_areas_disjoint(areas: Seq<MapArea>, start: usize, len: usize, prot: usize)
    requires
        areas_disjoint(areas),
    ensures
        areas_disjoint(mmap_spec(areas, start, len, prot).1),
{
    let a = mmap_area(start, len, prot);
    let res = mmap_spec(areas, start, len, prot);
    if res.0 == 0 {
        let n = res.1;
        assert forall|i: int, j: int|
            0 <= i < n.len() && 0 <= j < n.len() && i != j implies !overlaps(
            #[trigger] n[i],
            #[trigger] n[j].vpn_range.l.0 as int,
            n[j].vpn_range.r.0 as int,
        ) by {
            if i == areas.len() {
                assert(!overlaps(areas[j], a.vpn_range.l.0 as int, a.vpn_range.r.0 as int));
            } else if j == areas.len() {
                assert(!overlaps(areas[i], a.vpn_range.l.0 as int, a.vpn_range.r.0 as int));
            } else {
                assert(n[i] == areas[i] && n[j] == areas[j]);
            }
        }
    }
}

/// An area that covers the range exactly implies a first such area.
proof fn lemma_first_exact_exists(areas: Seq<MapArea>, s: int, e: int, w: int)
    requires
        0 <= w < areas.len(),
        covers_exactly(areas[w], s, e),
    ensures
        exists|idx: int| is_first_exact(areas, s, e, idx),
    decreases w,
{
    if exists|k: int| 0 <= k < w && covers_exactly(#[trigger] areas[k], s, e) {
        let k = choose|k: int| 0 <= k < w && covers_exactly(#[trigger] areas[k], s, e);
        lemma_first_exact_exists(areas, s, e, k);
    } else {
        assert(is_first_exact(areas, s, e, w));
    }
}

/// `sys_munmap` keeps the areas pairwise disjoint.
pub proof fn lemma_munmap_keeps_areas_disjoint(areas: Seq<MapArea>, start: usize, len: usize)
    requires
        areas_disjoint(areas),
    ensures
        areas_disjoint(munmap_spec(areas, start, len).1),
{
    let res = munmap_spec(areas, start, len);
    if res.0 == 0 {
        let s = page_floor(va_of(start));
        let e = page_ceil(va_of((start + len) as usize));
        let w = choose|k: int| 0 <= k < areas.len() && covers_exactly(#[trigger] areas[k], s, e);
        lemma_first_exact_exists(areas, s, e, w);
        let idx = choose|idx: int| is_first_exact(areas, s, e, idx);
        let n = res.1;
        assert forall|i: int, j: int|
            0 <= i < n.len() && 0 <= j < n.len() && i != j implies !overlaps(
            #[trigger] n[i],
            #[trigger] n[j].vpn_range.l.0 as int,
            n[j].vpn_range.r.0 as int,
        ) by {
            let i0 = if i < idx {
                i
            } else {
                i + 1
            };
            let j0 = if j < idx {
                j
            } else {
                j + 1
            };
            assert(n[i] == areas[i0] && n[j] == areas[j0]);
        }
    }
}

/// When the SV39 address of `start` plus `len` does not pass the end of
/// the SV39 space, the SV39 address of `start + len` is that sum.
proof fn lemma_va_of_shift(start: usize, len: usize)
    requires
        va_of(start) + len < sv39_span(),
        start + len <= usize::MAX,
    ensures
        va_of((start + len) as usize) == va_of(start) + len,
{
    let m = sv39_span();
    vstd::arithmetic::div_mod::lemma_add_mod_noop(start as int, len as int, m);
    vstd::arithmetic::div_mod::lemma_small_mod(len as nat, m as nat);
    vstd::arithmetic::div_mod::lemma_small_mod((start as int % m + len) as nat, m as nat);
}

/// Unmapping right after a successful mapping of the same bytes, inside
/// an SV39 address range that does not wrap, gives back the areas as they
/// were before.
pub proof fn lemma_mmap_then_munmap(areas: Seq<MapArea>, start: usize, len: usize, prot: usize)
    requires
        va_of(start) + len < sv39_span(),
        start + len <= usize::MAX,
        mmap_spec(areas, start, len, prot).0 == 0,
    ensures
        munmap_spec(mmap_spec(areas, start, len, prot).1, start, len) == (0isize, areas),
{
    let a = mmap_area(start, len, prot);
    let n = areas.push(a);
    let s = page_floor(va_of(start));
    let e = page_ceil(va_of((start + len) as usize));
    lemma_va_of_shift(start, len);
    assert(s < e);
    assert(a.vpn_range.l.0 == s && a.vpn_range.r.0 == e);
    assert(covers_exactly(n[areas.len() as int], s, e));
    assert forall|k: int| 0 <= k < areas.len() implies !covers_exactly(#[trigger] n[k], s, e) by {
        assert(n[k] == areas[k]);
        assert(!overlaps(areas[k], s, e));
    }
    assert(is_first_exact(n, s, e, areas.len() as int));
    assert(has_exact(n, s, e));
    let c = choose|idx: int| is_first_exact(n, s, e, idx);
    lemma_first_exact_unique(n, s, e, c, areas.len() as int);
    assert(n.remove(areas.len() as int) =~= areas);
}

/// The valid entries of a page table.
pub open spec fn valid_entries(pt: Map<usize, PageTableEntry>) -> Map<usize, PageTableEntry> {
    Map::new(|v: usize| valid_at(pt, v), |v: usize| pt[v])
}

/// Unmapping right after a successful mapping of the same bytes, inside
/// an SV39 address range that does not wrap, gives back the areas, the valid page table
/// entries and the frames in use as they were before.
pub proof fn lemma_mmap_then_munmap_restores_space(
    areas0: Seq<MapArea>,
    pt0: Map<usize, PageTableEntry>,
    in0: Set<int>,
    pt1: Map<usize, PageTableEntry>,
    in1: Set<int>,
    pt2: Map<usize, PageTableEntry>,
    in2: Set<int>,
    start: usize,
    len: usize,
    prot: usize,
)
    requires
        space_wf(areas0, pt0, in0),
        va_of(start) + len < sv39_span(),
        start + len <= usize::MAX,
        mmap_spec(areas0, start, len, prot).0 == 0,
        maps_fresh(
            pt0,
            pt1,
            in0,
            in1,
            first_page(start),
            end_page(start, len),
            mmap_area(start, len, prot).map_perm.bits | PTEFlags::V,
        ),
        unmaps(pt1, pt2, in1, in2, first_page(start), end_page(start, len)),
    ensures
        munmap_spec(mmap_spec(areas0, start, len, prot).1, start, len) == (0isize, areas0),
        valid_entries(pt2) == valid_entries(pt0),
        in2 == in0,
{
    lemma_mmap_then_munmap(areas0, start, len, prot);
    let s = first_page(start);
    let e = end_page(start, len);
    let a = mmap_area(start, len, prot);
    assert(a.vpn_range.l.0 == s && a.vpn_range.r.0 == e);
    assert(0u8 & 1u8 == 0u8) by (bit_vector);
    assert forall|v: usize| s <= v < e implies !valid_at(pt0, v) by {
        if valid_at(pt0, v) {
            let k = choose|k: int| 0 <= k < areas0.len() && #[trigger] area_has(areas0[k], v);
            assert(overlaps(areas0[k], s, e));
        }
    }
    assert forall|v: usize| #[trigger] valid_at(pt2, v) <==> valid_at(pt0, v) by {
        if s <= v < e {
            assert(pt2.contains_key(v) && pt2[v].bits == 0);
        } else {
            assert(pt2.contains_key(v) <==> pt1.contains_key(v));
            assert(pt1.contains_key(v) <==> pt0.contains_key(v));
        }
    }
    assert forall|v: usize| valid_at(pt2, v) implies pt2[v] == pt0[v] by {
        assert(!(s <= v < e));
        assert(pt2.contains_key(v) <==> pt1.contains_key(v));
        assert(pt1.contains_key(v) <==> pt0.contains_key(v));
    }
    assert(valid_entries(pt2) =~= valid_entries(pt0));
    assert forall|p: int| #[trigger] in2.contains(p) <==> in0.contains(p) by {
        if in0.contains(p) {
            assert(in1.contains(p));
            if exists|v: usize| s <= v < e && valid_at(pt1, v) && #[trigger] frame_of(pt1, v) == p {
                let v = choose|v: usize| s <= v < e && valid_at(pt1, v) && #[trigger] frame_of(pt1, v) == p;
                assert(!in0.contains(frame_of(pt1, v)));
            }
        }
        if in2.contains(p) && !in0.contains(p) {
            assert(in1.contains(p));
            let v = choose|v: usize| s <= v < e && #[trigger] frame_of(pt1, v) == p;
            assert(valid_at(pt1, v));
        }
    }
    assert(in2 =~= in0);
}

/// Counting a system call and then asking for its count with request `2`
/// of `sys_trace` answers the count before, plus one.
pub proof fn lemma_count_then_trace(
    before: &TaskManager,
    after: &TaskManager,
    pt: Map<usize, PageTableEntry>,
    id: usize,
    data: usize,
)
    requires
        before.has_current(),
        id < MAX_SYSCALL_NUM,
        after.current_task == before.current_task,
        after.tasks@.len() == before.tasks@.len(),
        after.count_of(id as int) == before.count_of(id as int) + 1,
    ensures
        trace_spec(after, pt, 2, id, data) == TraceAction::Answer(
            (before.count_of(id as int) + 1) as isize,
        ),
{
}

/// Request `1` of `sys_trace` on a user-writable address stores the low
/// byte of `data` at the address's physical translation.
pub proof fn lemma_trace_store_low_byte(
    tm: &TaskManager,
    pt: Map<usize, PageTableEntry>,
    id: usize,
    data: usize,
)
    ensures
        user_access(pt, id, PTEFlags::U | PTEFlags::W) ==> (trace_spec(tm, pt, 1, id, data) matches TraceAction::Store {
            pa,
            byte,
        } && byte as int == data as int % 256 && pa as int == phys_of(pt, id)),
        !user_access(pt, id, PTEFlags::U | PTEFlags::W) ==> trace_spec(tm, pt, 1, id, data)
            == TraceAction::Answer(-1isize),
{
    assert((data as u8) as int == data as int % 256) by {
        assert(data as u8 == (data % 256) as u8) by (bit_vector);
    }
    if user_access(pt, id, PTEFlags::U | PTEFlags::W) {
        lemma_phys_of_bound(pt, id);
    }
}

/// Request `0` of `sys_trace` on a user-readable address loads from the
/// address's physical translation.
pub proof fn lemma_trace_load(tm: &TaskManager, pt: Map<usize, PageTableEntry>, id: usize, data: usize)
    ensures
        user_access(pt, id, PTEFlags::U | PTEFlags::R) ==> (trace_spec(tm, pt, 0, id, data) matches TraceAction::Load {
            pa,
        } && pa as int == phys_of(pt, id)),
        !user_access(pt, id, PTEFlags::U | PTEFlags::R) ==> trace_spec(tm, pt, 0, id, data)
            == TraceAction::Answer(-1isize),
{
    if user_access(pt, id, PTEFlags::U | PTEFlags::R) {
        lemma_phys_of_bound(pt, id);
    }
}

/// A physical address fits in 56 bits.
proof fn lemma_phys_of_bound(pt: Map<usize, PageTableEntry>, va: usize)
    ensures
        0 <= phys_of(pt, va) < 0x100_0000_0000_0000,
{
    let p = crate::mm::pte_ppn(pt[vpn_of(va) as usize].bits);
    assert(0 <= p < 0x1000_0000_0000);
    assert(p * 4096 <= 0xfff_ffff_ffff * 4096) by (nonlinear_arith)
        requires
            0 <= p < 0x1000_0000_0000,
    ;
}

/// `sys_munmap` refuses an unaligned start, or an empty length, and leaves the areas.
pub proof fn lemma_munmap_refuses_bad_start(areas: Seq<MapArea>, start: usize, len: usize)
    ensures
        start as int % PAGE_SIZE as int != 0 || len == 0 ==> munmap_spec(areas, start, len) == (
            -1isize,
            areas,
        ),
{
}

/// The permission `sys_mmap` gives its new area: user always, and read,
/// write and execute exactly as bits `0`, `1` and `2` of `prot` say.
pub proof fn lemma_mmap_permission(areas: Seq<MapArea>, start: usize, len: usize, prot: usize)
    requires
        mmap_spec(areas, start, len, prot).0 == 0,
    ensures
        ({
            let b = mmap_spec(areas, start, len, prot).1.last().map_perm.bits;
            &&& has_flag(b, MapPermission::U)
            &&& has_flag(b, MapPermission::R) == (prot & 1 != 0)
            &&& has_flag(b, MapPermission::W) == (prot & 2 != 0)
            &&& has_flag(b, MapPermission::X) == (prot & 4 != 0)
            &&& b & 0xe1u8 == 0
        }),
{
    let b = mmap_spec(areas, start, len, prot).1.last().map_perm.bits;
    assert(b == (0x10 + 2 * prot) as u8);
    assert(prot < 8);
    assert(prot < 8 && b == (0x10 + 2 * prot) as u8 ==> {
        &&& b & 0x10u8 == 0x10u8
        &&& (b & 0x02u8 == 0x02u8) == (prot & 1 != 0)
        &&& (b & 0x04u8 == 0x04u8) == (prot & 2 != 0)
        &&& (b & 0x08u8 == 0x08u8) == (prot & 4 != 0)
        &&& b & 0xe1u8 == 0
    }) by (bit_vector);
}

/// After a successful `sys_mmap`, every address of the new pages is user
/// accessible, readable exactly when bit `0` of `prot` is set, writable
/// exactly when bit `1` is, and executable exactly when bit `2` is.
pub proof fn lemma_mmap_page_access(
    pt0: Map<usize, PageTableEntry>,
    pt1: Map<usize, PageTableEntry>,
    in0: Set<int>,
    in1: Set<int>,
    start: usize,
    len: usize,
    prot: usize,
    va: usize,
)
    requires
        mmap_args_ok(start, len, prot),
        maps_fresh(
            pt0,
            pt1,
            in0,
            in1,
            first_page(start),
            end_page(start, len),
            mmap_area(start, len, prot).map_perm.bits | PTEFlags::V,
        ),
        first_page(start) <= vpn_of(va) < end_page(start, len),
    ensures
        user_access(pt1, va, PTEFlags::U),
        user_access(pt1, va, PTEFlags::R) == (prot & 1 != 0),
        user_access(pt1, va, PTEFlags::W) == (prot & 2 != 0),
        user_access(pt1, va, PTEFlags::X) == (prot & 4 != 0),
{
    let v = vpn_of(va) as usize;
    assert(valid_at(pt1, v));
    let f = crate::mm::pte_flags(pt1[v].bits);
    let b = mmap_area(start, len, prot).map_perm.bits;
    assert(b == (0x10 + 2 * prot) as u8);
    assert(f == b | 1u8);
    assert(prot < 8 && b == (0x10 + 2 * prot) as u8 && f == b | 1u8 ==> {
        &&& f & 0x10u8 == 0x10u8
        &&& (f & 0x02u8 == 0x02u8) == (prot & 1 != 0)
        &&& (f & 0x04u8 == 0x04u8) == (prot & 2 != 0)
        &&& (f & 0x08u8 == 0x08u8) == (prot & 4 != 0)
    }) by (bit_vector);
}

} // verus!
