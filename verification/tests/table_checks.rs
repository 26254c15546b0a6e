use lib::banker::check_columns_fit;
use lib::resource::{ResourceTable, DEADLOCK};

fn table(avail: Vec<usize>, alloc: Vec<Vec<usize>>, need: Vec<Vec<usize>>) -> ResourceTable {
    ResourceTable { available: avail, allocation: alloc, need }
}

fn total(t: &ResourceTable, j: usize) -> usize {
    t.available[j] + t.allocation.iter().map(|r| if j < r.len() { r[j] } else { 0 }).sum::<usize>()
}

#[test]
fn column_fit_check() {
    assert!(check_columns_fit(&vec![1, 2], &vec![vec![3], vec![4, 5]]));
    assert!(check_columns_fit(&vec![usize::MAX], &vec![vec![0], vec![]]));
    assert!(!check_columns_fit(&vec![usize::MAX], &vec![vec![0], vec![1]]));
    assert!(!check_columns_fit(&vec![0, 1], &vec![vec![0, usize::MAX], vec![]]));
}

#[test]
fn request_definedness() {
    let t = table(vec![1, 0], vec![vec![0, 0], vec![0]], vec![vec![0, 0], vec![0]]);
    assert!(t.request_is_defined(0, 0));
    assert!(t.request_is_defined(0, 1));
    // thread 1's need row has no entry for resource 1
    assert!(!t.request_is_defined(1, 1));
    assert!(!t.request_is_defined(2, 0));
    assert!(!t.request_is_defined(0, 2));
    let bad_rows = table(vec![1], vec![vec![0]], vec![]);
    assert!(!bad_rows.request_is_defined(0, 0));
}

#[test]
fn release_definedness() {
    let t = table(vec![0, usize::MAX], vec![vec![1, 1], vec![0]], vec![vec![0, 0], vec![0]]);
    assert!(t.release_is_defined(0, 0));
    assert!(!t.release_is_defined(0, 1));
    assert!(!t.release_is_defined(1, 0));
    assert!(!t.release_is_defined(1, 1));
}

#[test]
fn grant_then_release_restores_and_keeps_totals() {
    let mut t = table(vec![2, 1], vec![vec![1, 0], vec![0, 0]], vec![vec![0, 0], vec![0, 0]]);
    let before = (t.available.clone(), t.allocation.clone(), t.need.clone());
    assert_eq!(t.request(1, 0, true), 0);
    assert_eq!(total(&t, 0), 3);
    assert_eq!(total(&t, 1), 1);
    t.release(1, 0);
    assert_eq!((t.available.clone(), t.allocation.clone(), t.need.clone()), before);
}

#[test]
fn refusal_changes_nothing() {
    // each thread holds what the other waits for
    let mut t = table(vec![0, 0], vec![vec![1, 0], vec![0, 1]], vec![vec![0, 1], vec![0, 0]]);
    assert_eq!(t.request(1, 0, true), DEADLOCK);
    assert_eq!(t.need, vec![vec![0, 1], vec![0, 0]]);
    assert_eq!(t.request(1, 0, false), 0);
    assert_eq!(t.need, vec![vec![0, 1], vec![1, 0]]);
}

#[test]
fn single_unit_mutexes_stay_single() {
    let mut t = table(vec![1, 0], vec![vec![0, 1], vec![0, 0]], vec![vec![0, 0], vec![0, 0]]);
    assert_eq!(t.request(1, 0, true), 0);
    assert_eq!((total(&t, 0), total(&t, 1)), (1, 1));
    assert_eq!(t.request(0, 0, false), 0);
    assert_eq!((total(&t, 0), total(&t, 1)), (1, 1));
}
