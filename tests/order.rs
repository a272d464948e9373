use task_dag::order::{contains_task, ready_order, Readiness};

#[test]
fn ready_order_on_a_chain() {
    let deps = vec![vec![1], vec![2], vec![]];
    assert_eq!(ready_order(&deps), Ok(vec![2, 1, 0]));
}

#[test]
fn ready_order_reports_a_cycle() {
    let deps = vec![vec![], vec![0, 2], vec![1]];
    let c = ready_order(&deps).unwrap_err();
    let mut sorted = c.clone();
    sorted.sort();
    assert_eq!(sorted, vec![1, 2]);
}

#[test]
fn completing_unlocks_in_index_order() {
    let deps = vec![vec![], vec![0], vec![0], vec![1, 2]];
    let mut r = Readiness::new(&deps);
    assert_eq!(r.queue, vec![0]);
    assert_eq!(r.pop(&deps), Some(0));
    r.complete(&deps, 0);
    assert_eq!(r.queue, vec![0, 1, 2]);
    assert_eq!(r.remaining, vec![0, 0, 0, 2]);
    assert_eq!(r.pop(&deps), Some(1));
    r.complete(&deps, 1);
    assert_eq!(r.remaining[3], 1);
    assert_eq!(r.pop(&deps), Some(2));
    r.complete(&deps, 2);
    assert_eq!(r.queue, vec![0, 1, 2, 3]);
    assert_eq!(r.pop(&deps), Some(3));
    assert_eq!(r.pop(&deps), None);
}

#[test]
fn contains_task_finds_entries() {
    assert!(contains_task(&vec![3, 5], 5));
    assert!(!contains_task(&vec![3, 5], 4));
}
