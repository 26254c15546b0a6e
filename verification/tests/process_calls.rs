use lib::mm::{PTEFlags, PageTable, PhysPageNum, VirtPageNum};
use lib::process::{
    sys_exit, sys_get_time, sys_sbrk, sys_trace, sys_yield, timeval_bytes, GetTimeAction, TimeVal,
    TraceAction,
};
use lib::task::{current_task_id, TaskControlBlock, TaskManager, TaskStatus, TaskContext};

fn manager() -> TaskManager {
    let mut t0 = TaskControlBlock::zero_init();
    t0.task_status = TaskStatus::Running;
    let t1 = TaskControlBlock::zero_init();
    TaskManager { tasks: vec![t0, t1], current_task: 0 }
}

fn table() -> PageTable {
    let mut pt = PageTable::new();
    pt.map(VirtPageNum(0x10), PhysPageNum(0x80400), PTEFlags { bits: PTEFlags::U | PTEFlags::R | PTEFlags::W });
    pt.map(VirtPageNum(0x11), PhysPageNum(0x80401), PTEFlags { bits: PTEFlags::U | PTEFlags::R });
    pt
}

#[test]
fn zero_init_task() {
    let t = TaskControlBlock::zero_init();
    assert_eq!(t.task_status, TaskStatus::UnInit);
    assert_eq!(t.task_cx.ra, 0);
    assert_eq!(t.task_cx.sp, 0);
    assert_eq!(t.task_cx.s, [0; 12]);
    assert!(t.inner.syscall_count.iter().all(|&c| c == 0));
    let cx = TaskContext::zero_init();
    assert_eq!(cx.s, [0; 12]);
}

#[test]
fn current_task_and_status_changes() {
    let mut tm = manager();
    assert_eq!(current_task_id(&tm), 0);
    assert_eq!(sys_yield(&mut tm), 0);
    assert_eq!(tm.tasks[0].task_status, TaskStatus::Ready);
    tm.current_task = 1;
    assert_eq!(current_task_id(&tm), 1);
    sys_exit(&mut tm, 3);
    assert_eq!(tm.tasks[1].task_status, TaskStatus::Exited);
    assert_eq!(tm.tasks[0].task_status, TaskStatus::Ready);
}

#[test]
fn time_split() {
    let t = TimeVal::from_us(3_250_017);
    assert_eq!(t, TimeVal { sec: 3, usec: 250_017 });
    assert_eq!(TimeVal::from_us(999_999), TimeVal { sec: 0, usec: 999_999 });
}

fn le16(sec: usize, usec: usize) -> Vec<u8> {
    let mut v = (sec as u64).to_le_bytes().to_vec();
    v.extend_from_slice(&(usec as u64).to_le_bytes());
    v
}

#[test]
fn timeval_layout() {
    assert_eq!(timeval_bytes(TimeVal { sec: 0x0102, usec: 0x0a0b0c }), le16(0x0102, 0x0a0b0c));
}

#[test]
fn get_time_writes_through_translation() {
    let pt = table();
    let a = sys_get_time(&pt, 0x10_010, 5_000_001);
    assert_eq!(a.answer(), 0);
    match a {
        GetTimeAction::Write { stores } => {
            let bytes = le16(5, 1);
            assert_eq!(stores.len(), 16);
            for k in 0..16 {
                assert_eq!(stores[k], (0x8040_0010 + k as u64, bytes[k]));
            }
        }
        GetTimeAction::Fault => panic!("expected a write"),
    }
    let b = sys_get_time(&pt, 0x11_010, 5_000_001);
    assert!(matches!(b, GetTimeAction::Fault));
    assert_eq!(b.answer(), -1);
    assert!(matches!(sys_get_time(&pt, 0x50_000, 1), GetTimeAction::Fault));
}

#[test]
fn get_time_split_across_pages() {
    let mut pt = PageTable::new();
    pt.map(VirtPageNum(1), PhysPageNum(5), PTEFlags { bits: PTEFlags::U | PTEFlags::W });
    pt.map(VirtPageNum(2), PhysPageNum(9), PTEFlags { bits: PTEFlags::U | PTEFlags::W });
    let bytes = le16(7, 250);
    match sys_get_time(&pt, 0x1ff8, 7_000_250) {
        GetTimeAction::Write { stores } => {
            for k in 0..8 {
                assert_eq!(stores[k], (0x5ff8 + k as u64, bytes[k]));
            }
            for k in 8..16 {
                assert_eq!(stores[k], (0x9000 + (k as u64 - 8), bytes[k]));
            }
        }
        GetTimeAction::Fault => panic!("expected a write"),
    }
    // the second page is not writable: the whole call fails
    let mut pt2 = PageTable::new();
    pt2.map(VirtPageNum(1), PhysPageNum(5), PTEFlags { bits: PTEFlags::U | PTEFlags::W });
    pt2.map(VirtPageNum(2), PhysPageNum(9), PTEFlags { bits: PTEFlags::U | PTEFlags::R });
    assert!(matches!(sys_get_time(&pt2, 0x1ff8, 1), GetTimeAction::Fault));
    assert!(matches!(sys_get_time(&pt2, 0x1ff0, 1), GetTimeAction::Write { .. }));
    assert!(matches!(sys_get_time(&pt2, usize::MAX - 8, 1), GetTimeAction::Fault));
}

#[test]
fn trace_reads_and_writes() {
    let tm = manager();
    let pt = table();
    assert_eq!(sys_trace(&tm, &pt, 0, 0x11_005, 0), TraceAction::Load { pa: 0x8040_1005 });
    assert_eq!(sys_trace(&tm, &pt, 0, 0x12_005, 0), TraceAction::Answer(-1));
    assert_eq!(sys_trace(&tm, &pt, 1, 0x10_007, 0x1ff), TraceAction::Store { pa: 0x8040_0007, byte: 0xff });
    assert_eq!(sys_trace(&tm, &pt, 1, 0x11_007, 1), TraceAction::Answer(-1));
    assert_eq!(sys_trace(&tm, &pt, 3, 0x10_007, 1), TraceAction::Answer(-1));
}

#[test]
fn trace_counts_syscalls() {
    let mut tm = manager();
    let pt = table();
    assert_eq!(sys_trace(&tm, &pt, 2, 169, 0), TraceAction::Answer(0));
    tm.count_syscall(169);
    tm.count_syscall(169);
    tm.count_syscall(64);
    assert_eq!(sys_trace(&tm, &pt, 2, 169, 0), TraceAction::Answer(2));
    assert_eq!(sys_trace(&tm, &pt, 2, 64, 0), TraceAction::Answer(1));
    tm.current_task = 1;
    assert_eq!(sys_trace(&tm, &pt, 2, 169, 0), TraceAction::Answer(0));
}

#[test]
fn sbrk_answers_old_break() {
    assert_eq!(sys_sbrk(Some(0x1_0000)), 0x1_0000);
    assert_eq!(sys_sbrk(None), -1);
}
