use task_dag::graph::{GraphError, Task, DAG};

#[test]
fn task_new_keeps_its_fields() {
    let t = Task::new("build", "b1", "make all", vec!["a".to_string()]);
    assert_eq!(t.name, "build");
    assert_eq!(t.id, "b1");
    assert_eq!(t.command, "make all");
    assert_eq!(t.dependencies, vec!["a".to_string()]);
}

#[test]
fn duplicate_id_is_refused() {
    let mut g = DAG::new();
    assert_eq!(g.add_task(Task::new("one", "x", "c1", vec![])), Ok(()));
    assert_eq!(
        g.add_task(Task::new("two", "x", "c2", vec![])),
        Err(GraphError::DuplicateTaskId("x".to_string()))
    );
    assert_eq!(g.len(), 1);
    assert_eq!(g.get_task("x").unwrap().name, "one");
}

#[test]
fn get_task_finds_by_id() {
    let mut g = DAG::new();
    g.add_task(Task::new("one", "x", "c1", vec![])).unwrap();
    g.add_task(Task::new("two", "y", "c2", vec!["x".to_string()])).unwrap();
    assert_eq!(g.get_task("y").unwrap().command, "c2");
    assert_eq!(g.position(&"y".to_string()), Some(1));
    assert_eq!(g.position(&"z".to_string()), None);
}

#[test]
fn get_task_unknown_id() {
    let g = DAG::new();
    assert!(matches!(g.get_task("nope"), Err(GraphError::UnknownTaskId(s)) if s == "nope"));
}

#[test]
fn resolve_gives_positions_once_each() {
    let mut g = DAG::new();
    g.add_task(Task::new("a", "a", "", vec![])).unwrap();
    g.add_task(Task::new("b", "b", "", vec![])).unwrap();
    g.add_task(Task::new("c", "c", "", vec!["b".to_string(), "a".to_string(), "b".to_string()])).unwrap();
    assert_eq!(g.resolve(), Ok(vec![vec![], vec![], vec![1, 0]]));
}
