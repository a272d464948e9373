use task_dag::graph::{GraphError, Task, DAG};
use task_dag::scheduler::{FailurePolicy, RunStatus, Scheduler, TaskStatus};

fn ids(list: &[&str]) -> Vec<String> {
    list.iter().map(|s| s.to_string()).collect()
}

fn graph(spec: &[(&str, &[&str])]) -> DAG {
    let mut g = DAG::new();
    for (id, deps) in spec {
        let t = Task::new(&format!("task {}", id), id, &format!("run {}", id), ids(deps));
        g.add_task(t).unwrap();
    }
    g
}

fn diamond() -> DAG {
    graph(&[("A", &[]), ("B", &["A"]), ("C", &["A"]), ("D", &["B", "C"])])
}

fn log_ids(s: &Scheduler, log: &[usize]) -> Vec<String> {
    log.iter().map(|&i| s.task(i).id.clone()).collect()
}

/// Runs the step interface, failing the tasks named in `failing`.
fn drive(s: &mut Scheduler, failing: &[&str]) -> Vec<String> {
    let mut log = Vec::new();
    while let Some(u) = s.next_task() {
        let id = s.task(u).id.clone();
        let ok = !failing.contains(&id.as_str());
        log.push(id);
        s.record(u, ok);
    }
    log
}

#[test]
fn three_tasks_run_root_first() {
    let g = graph(&[("abc", &[]), ("efg", &["abc"]), ("hig", &["abc"])]);
    let mut s = Scheduler::new(g, FailurePolicy::AbortRemaining).unwrap();
    let log = s.run();
    assert_eq!(log_ids(&s, &log), ids(&["abc", "efg", "hig"]));
    assert_eq!(s.run_status(), RunStatus::Completed);
}

#[test]
fn every_task_runs_once_after_its_dependencies() {
    let g = graph(&[
        ("e", &["c", "d"]),
        ("c", &["a"]),
        ("a", &[]),
        ("d", &["a", "b"]),
        ("b", &[]),
        ("f", &[]),
    ]);
    let mut s = Scheduler::new(g, FailurePolicy::AbortRemaining).unwrap();
    let order = s.run();
    let log = log_ids(&s, &order);
    assert_eq!(log.len(), 6);
    for id in ["a", "b", "c", "d", "e", "f"] {
        assert_eq!(log.iter().filter(|x| x.as_str() == id).count(), 1);
    }
    let at = |id: &str| log.iter().position(|x| x == id).unwrap();
    assert!(at("a") < at("c"));
    assert!(at("a") < at("d") && at("b") < at("d"));
    assert!(at("c") < at("e") && at("d") < at("e"));
    for i in 0..6 {
        assert_eq!(s.status(i), TaskStatus::Completed);
    }
}

#[test]
fn validate_twice_gives_same_result() {
    let ok = diamond();
    assert_eq!(ok.validate(), Ok(()));
    assert_eq!(ok.validate(), ok.validate());
    let bad = graph(&[("A", &["X"])]);
    assert_eq!(bad.validate(), bad.validate());
    let cyc = graph(&[("A", &["B"]), ("B", &["A"])]);
    assert_eq!(cyc.validate(), cyc.validate());
}

#[test]
fn two_task_cycle_is_reported_and_refused() {
    let g = graph(&[("A", &["B"]), ("B", &["A"])]);
    match g.validate() {
        Err(GraphError::CyclicDependency(path)) => {
            assert_eq!(path.len(), 2);
            assert!(path.contains(&"A".to_string()));
            assert!(path.contains(&"B".to_string()));
        }
        other => panic!("expected a cycle, got {:?}", other),
    }
    assert!(matches!(
        Scheduler::new(g, FailurePolicy::AbortRemaining),
        Err(GraphError::CyclicDependency(_))
    ));
}

#[test]
fn self_dependency_is_a_cycle() {
    let g = graph(&[("A", &[]), ("B", &["B"])]);
    assert_eq!(g.validate(), Err(GraphError::CyclicDependency(ids(&["B"]))));
}

#[test]
fn cycle_behind_a_root_is_found() {
    let g = graph(&[("R", &[]), ("X", &["R", "Z"]), ("Y", &["X"]), ("Z", &["Y"])]);
    match g.validate() {
        Err(GraphError::CyclicDependency(mut path)) => {
            path.sort();
            assert_eq!(path, ids(&["X", "Y", "Z"]));
        }
        other => panic!("expected a cycle, got {:?}", other),
    }
}

#[test]
fn dangling_dependency_names_the_missing_id() {
    let g = graph(&[("A", &[]), ("B", &["A", "ghost"])]);
    assert_eq!(
        g.validate(),
        Err(GraphError::DanglingDependency("B".to_string(), "ghost".to_string()))
    );
    assert!(matches!(
        Scheduler::new(g, FailurePolicy::SkipDependents),
        Err(GraphError::DanglingDependency(_, _))
    ));
}

#[test]
fn first_dangling_dependency_is_reported_before_a_cycle() {
    let g = graph(&[("A", &["B"]), ("B", &["A", "m1"]), ("C", &["m2"])]);
    assert_eq!(
        g.validate(),
        Err(GraphError::DanglingDependency("B".to_string(), "m1".to_string()))
    );
}

#[test]
fn roots_run_before_their_common_dependent() {
    let g = graph(&[("A", &[]), ("B", &[]), ("C", &["A", "B"])]);
    let mut s = Scheduler::new(g, FailurePolicy::AbortRemaining).unwrap();
    let log = s.run();
    assert_eq!(log_ids(&s, &log), ids(&["A", "B", "C"]));
}

#[test]
fn ready_tasks_run_level_by_level() {
    let g = graph(&[("A", &[]), ("A1", &["A"]), ("B", &[]), ("A2", &["A1"]), ("B1", &["B"])]);
    let mut s = Scheduler::new(g, FailurePolicy::AbortRemaining).unwrap();
    let log = s.run();
    assert_eq!(log_ids(&s, &log), ids(&["A", "B", "A1", "B1", "A2"]));
}

#[test]
fn diamond_join_runs_last_and_count_reaches_zero() {
    let mut s = Scheduler::new(diamond(), FailurePolicy::AbortRemaining).unwrap();
    assert_eq!(s.remaining_count(3), 2);
    let a = s.next_task().unwrap();
    assert_eq!(s.task(a).id, "A");
    s.record(a, true);
    let b = s.next_task().unwrap();
    assert_eq!(s.task(b).id, "B");
    s.record(b, true);
    assert_eq!(s.remaining_count(3), 1);
    assert_eq!(s.status(3), TaskStatus::Pending);
    let c = s.next_task().unwrap();
    assert_eq!(s.task(c).id, "C");
    s.record(c, true);
    assert_eq!(s.remaining_count(3), 0);
    let d = s.next_task().unwrap();
    assert_eq!(s.task(d).id, "D");
    assert_eq!(s.status(d), TaskStatus::Running);
    s.record(d, true);
    assert_eq!(s.next_task(), None);
    assert_eq!(s.remaining_count(3), 0);
    assert_eq!(s.run_status(), RunStatus::Completed);
}

#[test]
fn diamond_run_order() {
    let mut s = Scheduler::new(diamond(), FailurePolicy::SkipDependents).unwrap();
    let log = s.run();
    assert_eq!(log_ids(&s, &log), ids(&["A", "B", "C", "D"]));
}

#[test]
fn failure_under_abort_remaining_stops_the_run() {
    let mut s = Scheduler::new(diamond(), FailurePolicy::AbortRemaining).unwrap();
    let log = drive(&mut s, &["B"]);
    assert_eq!(log, ids(&["A", "B"]));
    assert_eq!(s.status(0), TaskStatus::Completed);
    assert_eq!(s.status(1), TaskStatus::Failed);
    assert_eq!(s.status(2), TaskStatus::NeverRan);
    assert_eq!(s.status(3), TaskStatus::NeverRan);
    assert_eq!(s.run_status(), RunStatus::Failed);
}

#[test]
fn failure_under_skip_dependents_keeps_independent_tasks() {
    let mut s = Scheduler::new(diamond(), FailurePolicy::SkipDependents).unwrap();
    let log = drive(&mut s, &["B"]);
    assert_eq!(log, ids(&["A", "B", "C"]));
    assert_eq!(s.status(1), TaskStatus::Failed);
    assert_eq!(s.status(2), TaskStatus::Completed);
    assert_eq!(s.status(3), TaskStatus::Skipped);
    assert_eq!(s.remaining_count(3), 1);
    assert_eq!(s.run_status(), RunStatus::Failed);
}

#[test]
fn cancel_stops_before_next_dequeue() {
    let mut s = Scheduler::new(diamond(), FailurePolicy::AbortRemaining).unwrap();
    let a = s.next_task().unwrap();
    s.cancel();
    assert_eq!(s.run_status(), RunStatus::Running);
    s.record(a, true);
    assert_eq!(s.next_task(), None);
    assert_eq!(s.status(0), TaskStatus::Completed);
    for t in 1..4 {
        assert_eq!(s.status(t), TaskStatus::Cancelled);
    }
    assert_eq!(s.run_status(), RunStatus::Aborted);
}

#[test]
fn next_task_waits_for_the_running_task() {
    let mut s = Scheduler::new(graph(&[("A", &[]), ("B", &[])]), FailurePolicy::AbortRemaining).unwrap();
    let a = s.next_task().unwrap();
    assert_eq!(s.next_task(), None);
    s.record(a, true);
    assert_eq!(s.next_task(), Some(1));
}

#[test]
fn empty_graph_runs_nothing() {
    let mut s = Scheduler::new(DAG::new(), FailurePolicy::AbortRemaining).unwrap();
    assert_eq!(s.len(), 0);
    assert!(s.run().is_empty());
    assert_eq!(s.run_status(), RunStatus::Completed);
}

#[test]
fn repeated_dependency_counts_once() {
    let g = graph(&[("A", &[]), ("B", &["A", "A"])]);
    let mut s = Scheduler::new(g, FailurePolicy::AbortRemaining).unwrap();
    assert_eq!(s.remaining_count(1), 1);
    let log = s.run();
    assert_eq!(log, vec![0, 1]);
}
