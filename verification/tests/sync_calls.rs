use lib::banker::is_safe_state;
use lib::resource::{ResourceTable, DEADLOCK};
use lib::sync::{
    sys_condvar_create, sys_condvar_signal, sys_condvar_wait, sys_enable_deadlock_detect,
    sys_mutex_create, sys_mutex_lock, sys_mutex_unlock, sys_semaphore_create, sys_semaphore_down,
    sys_semaphore_up, sys_sleep, MutexKind, ProcessSync, Semaphore,
};

#[test]
fn mutex_create_takes_first_free_slot() {
    let mut p = ProcessSync::new();
    assert_eq!(sys_mutex_create(&mut p, 0, false), 0);
    assert_eq!(sys_mutex_create(&mut p, 0, true), 1);
    assert_eq!(p.mutex_list, vec![Some(MutexKind::Spin), Some(MutexKind::Blocking)]);
    p.mutex_list[0] = None;
    assert_eq!(sys_mutex_create(&mut p, 0, true), 0);
    assert_eq!(p.mutex_list[0], Some(MutexKind::Blocking));
    assert_eq!(p.mutexes.available, vec![1, 1]);
}

#[test]
fn mutex_create_grows_rows_up_to_creator() {
    let mut p = ProcessSync::new();
    assert_eq!(sys_mutex_create(&mut p, 2, true), 0);
    assert_eq!(p.mutexes.allocation, vec![vec![0], vec![0], vec![0]]);
    assert_eq!(p.mutexes.need, vec![vec![0], vec![0], vec![0]]);
    assert_eq!(p.semaphores.allocation, vec![Vec::<usize>::new(), Vec::new(), Vec::new()]);
    assert_eq!(sys_mutex_create(&mut p, 0, true), 1);
    assert_eq!(p.mutexes.allocation, vec![vec![0, 0], vec![0, 0], vec![0, 0]]);
    assert_eq!(p.mutexes.available, vec![1, 1]);
}

#[test]
fn lock_and_unlock_move_the_unit() {
    let mut p = ProcessSync::new();
    let m = sys_mutex_create(&mut p, 1, true) as usize;
    assert_eq!(sys_mutex_lock(&mut p, 1, m), 0);
    assert_eq!(p.mutexes.available[m], 0);
    assert_eq!(p.mutexes.allocation[1][m], 1);
    assert_eq!(sys_mutex_unlock(&mut p, 1, m), 0);
    assert_eq!(p.mutexes.available[m], 1);
    assert_eq!(p.mutexes.allocation[1][m], 0);
}

fn two_threads_two_mutexes(detect: usize) -> ProcessSync {
    let mut p = ProcessSync::new();
    assert_eq!(sys_enable_deadlock_detect(&mut p, detect), 0);
    assert_eq!(sys_mutex_create(&mut p, 1, true), 0);
    assert_eq!(sys_mutex_create(&mut p, 1, true), 1);
    assert_eq!(sys_mutex_lock(&mut p, 0, 0), 0);
    assert_eq!(sys_mutex_lock(&mut p, 1, 1), 0);
    // thread 0 waits for mutex 1: thread 1 can still finish, so this is safe
    assert_eq!(sys_mutex_lock(&mut p, 0, 1), 0);
    assert_eq!(p.mutexes.need[0][1], 1);
    p
}

#[test]
fn deadlocking_lock_is_refused_with_detection() {
    let mut p = two_threads_two_mutexes(1);
    assert_eq!(sys_mutex_lock(&mut p, 1, 0), DEADLOCK);
    assert_eq!(sys_mutex_lock(&mut p, 1, 0), -0xdead);
    assert_eq!(p.mutexes.need, vec![vec![0, 1], vec![0, 0]]);
    assert_eq!(p.mutexes.allocation, vec![vec![1, 0], vec![0, 1]]);
    assert_eq!(p.mutexes.available, vec![0, 0]);
}

#[test]
fn deadlocking_lock_waits_without_detection() {
    let mut p = two_threads_two_mutexes(0);
    assert!(!p.deadlock_detect_enabled);
    assert_eq!(sys_mutex_lock(&mut p, 1, 0), 0);
    assert_eq!(p.mutexes.need, vec![vec![0, 1], vec![1, 0]]);
}

#[test]
fn detection_flag_follows_argument() {
    let mut p = ProcessSync::new();
    assert_eq!(sys_enable_deadlock_detect(&mut p, 7), 0);
    assert!(p.deadlock_detect_enabled);
    assert_eq!(sys_enable_deadlock_detect(&mut p, 0), 0);
    assert!(!p.deadlock_detect_enabled);
}

#[test]
fn semaphore_create_pads_creator_rows() {
    let mut p = ProcessSync::new();
    sys_mutex_create(&mut p, 1, false);
    assert_eq!(sys_semaphore_create(&mut p, 1, 3), 0);
    assert_eq!(p.semaphore_list, vec![Some(Semaphore { res_count: 3 })]);
    assert_eq!(p.semaphores.allocation[1], vec![0, 0, 0]);
    assert_eq!(p.semaphores.need[1], vec![0, 0, 0]);
    assert_eq!(p.semaphores.allocation[0], Vec::<usize>::new());
    assert_eq!(p.semaphores.available, vec![3]);
    assert_eq!(sys_semaphore_create(&mut p, 1, 2), 1);
    assert_eq!(p.semaphores.allocation[1], vec![0, 0, 0]);
    assert_eq!(p.semaphores.available, vec![3, 2]);
}

#[test]
fn semaphore_down_and_up() {
    let mut p = ProcessSync::new();
    sys_mutex_create(&mut p, 0, false);
    let s = sys_semaphore_create(&mut p, 0, 1) as usize;
    assert_eq!(sys_semaphore_down(&mut p, 0, s), 0);
    assert_eq!(p.semaphores.available[s], 0);
    assert_eq!(p.semaphores.allocation[0][s], 1);
    assert_eq!(sys_semaphore_up(&mut p, 0, s), 0);
    assert_eq!(p.semaphores.available[s], 1);
    assert_eq!(p.semaphores.allocation[0][s], 0);
}

#[test]
fn semaphore_wait_on_itself_is_refused() {
    let mut p = ProcessSync::new();
    sys_mutex_create(&mut p, 0, false);
    sys_enable_deadlock_detect(&mut p, 1);
    let s = sys_semaphore_create(&mut p, 0, 1) as usize;
    assert_eq!(sys_semaphore_down(&mut p, 0, s), 0);
    // the only thread waits for a unit that only it holds
    assert_eq!(sys_semaphore_down(&mut p, 0, s), DEADLOCK);
    assert_eq!(p.semaphores.need[0][s], 0);
}

#[test]
fn condvars_take_slots() {
    let mut p = ProcessSync::new();
    assert_eq!(sys_condvar_create(&mut p), 0);
    assert_eq!(sys_condvar_create(&mut p), 1);
    sys_mutex_create(&mut p, 0, true);
    assert_eq!(sys_condvar_signal(&p, 1), 0);
    assert_eq!(sys_condvar_wait(&p, 0, 0), 0);
    p.condvar_list[0] = None;
    assert_eq!(sys_condvar_create(&mut p), 0);
}

#[test]
fn sleep_deadline() {
    assert_eq!(sys_sleep(1000, 250), (1250, 0));
}

fn table(avail: Vec<usize>, alloc: Vec<Vec<usize>>, need: Vec<Vec<usize>>) -> ResourceTable {
    ResourceTable { available: avail, allocation: alloc, need }
}

#[test]
fn safety_of_textbook_state() {
    // five threads, three resources: safe by the order 1, 3, 4, 0, 2
    let t = table(
        vec![3, 3, 2],
        vec![vec![0, 1, 0], vec![2, 0, 0], vec![3, 0, 2], vec![2, 1, 1], vec![0, 0, 2]],
        vec![vec![7, 4, 3], vec![1, 2, 2], vec![6, 0, 0], vec![0, 1, 1], vec![4, 3, 1]],
    );
    assert!(is_safe_state(&t.available, &t.allocation, &t.need));
    let u = table(
        vec![0, 0, 0],
        vec![vec![0, 1, 0], vec![2, 0, 0], vec![3, 0, 2], vec![2, 1, 1], vec![0, 0, 2]],
        vec![vec![7, 4, 3], vec![1, 2, 2], vec![6, 0, 0], vec![0, 1, 1], vec![4, 3, 1]],
    );
    assert!(!is_safe_state(&u.available, &u.allocation, &u.need));
}

#[test]
fn safety_with_ragged_rows() {
    // missing entries count as zero
    let t = table(vec![1, 0], vec![vec![], vec![0, 1]], vec![vec![0, 1], vec![1]]);
    assert!(is_safe_state(&t.available, &t.allocation, &t.need));
    let u = table(vec![0, 0], vec![vec![1], vec![0, 1]], vec![vec![0, 1], vec![1]]);
    assert!(!is_safe_state(&u.available, &u.allocation, &u.need));
    let empty = table(vec![], vec![], vec![]);
    assert!(is_safe_state(&empty.available, &empty.allocation, &empty.need));
}

#[test]
fn table_request_and_release() {
    let mut t = table(vec![1], vec![vec![0], vec![0]], vec![vec![0], vec![0]]);
    assert_eq!(t.request(0, 0, true), 0);
    assert_eq!(t.request(1, 0, true), 0);
    assert_eq!(t.need, vec![vec![0], vec![1]]);
    t.release(0, 0);
    assert_eq!(t.available, vec![1]);
    assert_eq!(t.allocation, vec![vec![0], vec![0]]);
}
