//! Tasks and the graph that holds them, keyed by id.
use vstd::prelude::*;

use crate::order::{
    contains_task, deps_wf, is_acyclic, is_cycle, is_topo_order, lemma_cycle_not_acyclic,
    ready_order, table,
};

verus! {

/// A unit of work: an id unique in its graph, a display name, an opaque
/// command handed to whatever executes it, and the ids it waits on.
#[derive(Debug, Clone)]
pub struct Task {
    pub name: String,
    pub id: String,
    pub command: String,
    pub dependencies: Vec<String>,
}

/// What a graph can be refused for.
#[derive(Debug, Clone, PartialEq, Eq)]
pub enum GraphError {
    /// A task with this id is already in the graph.
    DuplicateTaskId(String),
    /// No task has this id.
    UnknownTaskId(String),
    /// The task (first) depends on an id (second) that no task has.
    DanglingDependency(String, String),
    /// Each task of the path depends on the next, and the last on the first.
    CyclicDependency(Vec<String>),
}

/// The ids that a task waits on.
pub open spec fn dep_ids(t: Task) -> Seq<Seq<char>> {
    t.dependencies@.map_values(|s: String| s@)
}

/// On an acyclic graph, every table of its dependency relation is acyclic.
pub proof fn lemma_resolved_acyclic(g: DAG, tbl: Seq<Seq<usize>>)
    requires
        g.resolves(tbl),
        g.is_acyclic(),
    ensures
        is_acyclic(tbl),
{
    let t2 = choose|t2: Seq<Seq<usize>>| g.resolves(t2) && is_acyclic(t2);
    let o = choose|o: Seq<usize>| is_topo_order(t2, o);
    assert forall|i: int, k: int|
        0 <= i < o.len() && 0 <= k < tbl[o[i] as int].len() implies #[trigger] o.take(i).contains(
        #[trigger] tbl[o[i] as int][k],
    ) by {
        let x = tbl[o[i] as int][k];
        assert(o[i] < tbl.len());
        assert(x < tbl.len());
        assert(tbl[o[i] as int].contains((x as int) as usize));
        assert(g.depends(o[i] as int, x as int));
        assert(t2[o[i] as int].contains((x as int) as usize));
        let k2 = choose|k2: int| 0 <= k2 < t2[o[i] as int].len() && t2[o[i] as int][k2] == x;
        assert(o.take(i).contains(t2[o[i] as int][k2]));
    }
    assert(is_topo_order(tbl, o));
}

/// Two validation results agree: both succeed, both report the same
/// dangling dependency by the same ids, or both report a cycle.
pub open spec fn same_outcome(r1: Result<(), GraphError>, r2: Result<(), GraphError>) -> bool {
    match (r1, r2) {
        (Ok(_), Ok(_)) => true,
        (
            Err(GraphError::DanglingDependency(t1, d1)),
            Err(GraphError::DanglingDependency(t2, d2)),
        ) => t1@ == t2@ && d1@ == d2@,
        (Err(GraphError::CyclicDependency(_)), Err(GraphError::CyclicDependency(_))) => true,
        _ => false,
    }
}

/// Validating an unchanged graph twice gives the same outcome: what
/// `validate` returns is fixed by the graph alone, up to which cycle a cyclic
/// graph is reported with.
pub proof fn lemma_validate_twice(g: DAG, r1: Result<(), GraphError>, r2: Result<(), GraphError>)
    requires
        g.validation(r1),
        g.validation(r2),
    ensures
        same_outcome(r1, r2),
{
    if g.has_dangling() {
        let e1 = r1.get_Err_0();
        let e2 = r2.get_Err_0();
        let (i1, k1) = choose|i: int, k: int|
            #[trigger] g.first_dangling(i, k) && (e1 matches GraphError::DanglingDependency(t, d) && t@
                == g.ids()[i] && d@ == dep_ids(g.tasks@[i])[k]);
        let (i2, k2) = choose|i: int, k: int|
            #[trigger] g.first_dangling(i, k) && (e2 matches GraphError::DanglingDependency(t, d) && t@
                == g.ids()[i] && d@ == dep_ids(g.tasks@[i])[k]);
        if i1 < i2 {
            assert(!g.dangling(i1, k1));
        } else if i2 < i1 {
            assert(!g.dangling(i2, k2));
        } else if k1 < k2 {
            assert(!g.dangling(i1, k1));
        } else if k2 < k1 {
            assert(!g.dangling(i2, k2));
        }
    }
}

impl Task {
    pub fn new(name: &str, id: &str, command: &str, dependencies: Vec<String>) -> (r: Task)
        ensures
            r.name@ == name@,
            r.id@ == id@,
            r.command@ == command@,
            r.dependencies@ == dependencies@,
    {
        Task {
            name: name.to_owned(),
            id: id.to_owned(),
            command: command.to_owned(),
            dependencies,
        }
    }
}

/// The set of tasks of a run, in the order they were added.
pub struct DAG {
    pub tasks: Vec<Task>,
}

impl DAG {
    /// The ids of the tasks, in insertion order.
    pub open spec fn ids(&self) -> Seq<Seq<char>> {
        self.tasks@.map_values(|t: Task| t.id@)
    }

    /// No two tasks share an id.
    pub open spec fn wf(&self) -> bool {
        self.ids().no_duplicates()
    }

    /// Task `i` declares a dependency on task `j`.
    pub open spec fn depends(&self, i: int, j: int) -> bool {
        dep_ids(self.tasks@[i]).contains(self.ids()[j])
    }

    /// Dependency `k` of task `i` names no task of the graph.
    pub open spec fn dangling(&self, i: int, k: int) -> bool {
        !self.ids().contains(dep_ids(self.tasks@[i])[k])
    }

    /// Some dependency of some task names no task of the graph.
    pub open spec fn has_dangling(&self) -> bool {
        exists|i: int, k: int|
            0 <= i < self.tasks@.len() && 0 <= k < dep_ids(self.tasks@[i]).len() && self.dangling(
                i,
                k,
            )
    }

    /// `tbl` is the dependency relation of the graph over task positions.
    pub open spec fn resolves(&self, tbl: Seq<Seq<usize>>) -> bool {
        &&& tbl.len() == self.tasks@.len()
        &&& deps_wf(tbl)
        &&& forall|i: int, j: int|
            0 <= i < tbl.len() && 0 <= j < tbl.len() ==> (#[trigger] tbl[i].contains(j as usize)
                <==> self.depends(i, j))
    }

    /// The dependency relation over task positions has no cycle.
    pub open spec fn is_acyclic(&self) -> bool {
        exists|tbl: Seq<Seq<usize>>| self.resolves(tbl) && is_acyclic(tbl)
    }

    /// The ids of `path` form a cycle of the graph: each is the id of a task
    /// that depends on the next one, and the last depends on the first.
    pub open spec fn is_id_cycle(&self, path: Seq<Seq<char>>) -> bool {
        exists|c: Seq<usize>|
            {
                &&& c.len() == path.len()
                &&& c.len() > 0
                &&& forall|a: int| 0 <= a < c.len() ==> (#[trigger] c[a]) < self.tasks@.len()
                &&& forall|a: int| 0 <= a < c.len() ==> self.ids()[#[trigger] c[a] as int] == path[a]
                &&& forall|a: int|
                    0 <= a < c.len() - 1 ==> #[trigger] self.depends(c[a] as int, c[a + 1] as int)
                &&& self.depends(c.last() as int, c[0] as int)
            }
    }

    pub fn new() -> (r: DAG)
        ensures
            r.wf(),
            r.tasks@.len() == 0,
    {
        DAG { tasks: Vec::new() }
    }

    pub fn len(&self) -> (r: usize)
        ensures
            r == self.tasks@.len(),
    {
        self.tasks.len()
    }

    /// The position of the task with id `id`, if there is one.
    pub fn position(&self, id: &String) -> (r: Option<usize>)
        requires
            self.wf(),
        ensures
            r matches Some(i) ==> i < self.tasks@.len() && self.ids()[i as int] == id@,
            r is None <==> !self.ids().contains(id@),
    {
        let mut i: usize = 0;
        while i < self.tasks.len()
            invariant
                i <= self.tasks@.len(),
                forall|j: int| 0 <= j < i ==> self.ids()[j] != id@,
            decreases self.tasks@.len() - i,
        {
            if self.tasks[i].id == *id {
                proof {
                    assert(self.ids()[i as int] == id@);
                }
                return Some(i);
            }
            i = i + 1;
        }
        proof {
            if self.ids().contains(id@) {
                let j = choose|j: int| 0 <= j < self.ids().len() && self.ids()[j] == id@;
                assert(self.ids()[j] != id@);
            }
        }
        None
    }

    /// Adds `task`, unless a task with its id is already in the graph.
    pub fn add_task(&mut self, task: Task) -> (r: Result<(), GraphError>)
        requires
            old(self).wf(),
        ensures
            final(self).wf(),
            r is Ok <==> !old(self).ids().contains(task.id@),
            r is Ok ==> final(self).tasks@ == old(self).tasks@.push(task),
            r matches Err(e) ==> e matches GraphError::DuplicateTaskId(id) && id@ == task.id@
                && final(self).tasks@ == old(self).tasks@,
    {
        match self.position(&task.id) {
            Some(_) => Err(GraphError::DuplicateTaskId(task.id)),
            None => {
                let ghost old_ids = self.ids();
                self.tasks.push(task);
                proof {
                    assert(self.ids() == old_ids.push(task.id@));
                }
                Ok(())
            },
        }
    }

    /// The task with id `id`.
    pub fn get_task(&self, id: &str) -> (r: Result<&Task, GraphError>)
        requires
            self.wf(),
        ensures
            r is Ok <==> self.ids().contains(id@),
            r matches Ok(t) ==> t.id@ == id@ && self.tasks@.contains(*t),
            r matches Err(e) ==> e matches GraphError::UnknownTaskId(s) && s@ == id@,
    {
        let key = id.to_owned();
        match self.position(&key) {
            Some(i) => Ok(&self.tasks[i]),
            None => Err(GraphError::UnknownTaskId(key)),
        }
    }

    /// Dependency `k` of task `i` is the first that names no task: none of
    /// an earlier task, nor an earlier one of task `i`, does.
    pub open spec fn first_dangling(&self, i: int, k: int) -> bool {
        &&& 0 <= i < self.tasks@.len()
        &&& 0 <= k < dep_ids(self.tasks@[i]).len()
        &&& self.dangling(i, k)
        &&& forall|i2: int, k2: int|
            0 <= i2 < i && 0 <= k2 < dep_ids(self.tasks@[i2]).len() ==> !#[trigger] self.dangling(
                i2,
                k2,
            )
        &&& forall|k2: int| 0 <= k2 < k ==> !#[trigger] self.dangling(i, k2)
    }

    /// `e` reports the first dangling dependency, by the ids of the task and
    /// of what it names.
    pub open spec fn reports_first_dangling(&self, e: GraphError) -> bool {
        match e {
            GraphError::DanglingDependency(t, d) => exists|i: int, k: int|
                #[trigger] self.first_dangling(i, k) && t@ == self.ids()[i] && d@ == dep_ids(
                    self.tasks@[i],
                )[k],
            _ => false,
        }
    }

    /// What `validate` returns: success exactly on a graph without dangling
    /// dependencies or cycles; else the first dangling dependency; else a
    /// cycle, by its ids.
    pub open spec fn validation(&self, r: Result<(), GraphError>) -> bool {
        match r {
            Ok(_) => !self.has_dangling() && self.is_acyclic(),
            Err(e) => if self.has_dangling() {
                self.reports_first_dangling(e)
            } else {
                &&& !self.is_acyclic()
                &&& match e {
                    GraphError::CyclicDependency(path) => self.is_id_cycle(
                        path@.map_values(|s: String| s@),
                    ),
                    _ => false,
                }
            },
        }
    }

    /// The positions that the dependencies of task `i` name, once each.
    fn resolve_row(&self, i: usize) -> (r: Result<Vec<usize>, GraphError>)
        requires
            self.wf(),
            i < self.tasks@.len(),
        ensures
            r matches Ok(row) ==> {
                &&& row@.no_duplicates()
                &&& forall|a: int| 0 <= a < row@.len() ==> (#[trigger] row@[a]) < self.tasks@.len()
                &&& forall|j: int|
                    0 <= j < self.tasks@.len() ==> (#[trigger] row@.contains(j as usize)
                        <==> self.depends(i as int, j))
            },
            r is Ok <==> forall|k: int|
                0 <= k < dep_ids(self.tasks@[i as int]).len() ==> !#[trigger] self.dangling(
                    i as int,
                    k,
                ),
            r matches Err(e) ==> exists|k: int|
                {
                    &&& 0 <= k < dep_ids(self.tasks@[i as int]).len()
                    &&& self.dangling(i as int, k)
                    &&& forall|k2: int| 0 <= k2 < k ==> !#[trigger] self.dangling(i as int, k2)
                    &&& e matches GraphError::DanglingDependency(t, d) && t@ == self.ids()[i as int]
                        && d@ == dep_ids(self.tasks@[i as int])[k]
                },
    {
        let task = &self.tasks[i];
        let ghost ds = dep_ids(*task);
        let n = self.tasks.len();
        let mut row: Vec<usize> = Vec::new();
        let mut k: usize = 0;
        while k < task.dependencies.len()
            invariant
                self.wf(),
                n == self.tasks@.len(),
                i < n,
                *task == self.tasks@[i as int],
                ds == dep_ids(*task),
                k <= ds.len(),
                row@.no_duplicates(),
                forall|a: int|
                    0 <= a < row@.len() ==> (#[trigger] row@[a]) < n && ds.contains(
                        self.ids()[row@[a] as int],
                    ),
                forall|k2: int|
                    #![trigger ds[k2]]
                    0 <= k2 < k ==> exists|a: int|
                        0 <= a < row@.len() && self.ids()[#[trigger] row@[a] as int] == ds[k2],
                forall|k2: int| 0 <= k2 < k ==> !#[trigger] self.dangling(i as int, k2),
            decreases ds.len() - k,
        {
            match self.position(&task.dependencies[k]) {
                None => {
                    proof {
                        assert(ds[k as int] == task.dependencies@[k as int]@);
                        assert(self.dangling(i as int, k as int));
                    }
                    return Err(
                        GraphError::DanglingDependency(
                            task.id.clone(),
                            task.dependencies[k].clone(),
                        ),
                    );
                },
                Some(j) => {
                    proof {
                        assert(ds[k as int] == task.dependencies@[k as int]@);
                        assert(ds.contains(self.ids()[j as int])) by {
                            assert(ds[k as int] == self.ids()[j as int]);
                        }
                    }
                    let ghost r0 = row@;
                    if !contains_task(&row, j) {
                        row.push(j);
                        proof {
                            assert(row@[row@.len() - 1] == j);
                            assert forall|a: int, b: int|
                                0 <= a < row@.len() && 0 <= b < row@.len() && a != b implies row@[a]
                                != row@[b] by {
                                if a < r0.len() && b < r0.len() {
                                    assert(r0[a] == row@[a] && r0[b] == row@[b]);
                                } else if a < r0.len() {
                                    assert(r0[a] == row@[a]);
                                } else if b < r0.len() {
                                    assert(r0[b] == row@[b]);
                                }
                            }
                            assert forall|k2: int| #![trigger ds[k2]] 0 <= k2 < k implies exists|a: int|
                                0 <= a < row@.len() && self.ids()[#[trigger] row@[a] as int]
                                    == ds[k2] by {
                                let a = choose|a: int|
                                    0 <= a < r0.len() && self.ids()[#[trigger] r0[a] as int] == ds[k2];
                                assert(row@[a] == r0[a]);
                            }
                        }
                    } else {
                        proof {
                            let a = choose|a: int| 0 <= a < row@.len() && row@[a] == j;
                            assert(self.ids()[row@[a] as int] == ds[k as int]);
                        }
                    }
                    proof {
                        assert(!self.dangling(i as int, k as int));
                        if row@ != r0 {
                            assert(self.ids()[row@[row@.len() - 1] as int] == ds[k as int]);
                        }
                    }
                },
            }
            k = k + 1;
        }
        proof {
            assert forall|j: int| 0 <= j < n implies (#[trigger] row@.contains(j as usize)
                <==> self.depends(i as int, j)) by {
                if row@.contains(j as usize) {
                    let a = choose|a: int| 0 <= a < row@.len() && row@[a] == j as usize;
                    assert(ds.contains(self.ids()[row@[a] as int]));
                }
                if self.depends(i as int, j) {
                    let k2 = choose|k2: int| 0 <= k2 < ds.len() && ds[k2] == self.ids()[j];
                    let a = choose|a: int|
                        0 <= a < row@.len() && self.ids()[#[trigger] row@[a] as int] == ds[k2];
                    assert(self.ids()[row@[a] as int] == self.ids()[j]);
                    assert(row@[a] == j as usize);
                }
            }
        }
        Ok(row)
    }

    /// The dependency table over task positions, each list without repeats;
    /// or the first dangling dependency.
    pub fn resolve(&self) -> (r: Result<Vec<Vec<usize>>, GraphError>)
        requires
            self.wf(),
        ensures
            r is Ok <==> !self.has_dangling(),
            r matches Ok(deps) ==> self.resolves(table(&deps)),
            r matches Err(e) ==> self.has_dangling() && self.reports_first_dangling(e),
    {
        let n = self.tasks.len();
        let mut out: Vec<Vec<usize>> = Vec::new();
        let mut i: usize = 0;
        while i < n
            invariant
                self.wf(),
                n == self.tasks@.len(),
                i <= n,
                out@.len() == i,
                forall|i2: int, k2: int|
                    0 <= i2 < i && 0 <= k2 < dep_ids(self.tasks@[i2]).len() ==> !#[trigger] self.dangling(
                        i2,
                        k2,
                    ),
                forall|i2: int|
                    #![trigger out@[i2]]
                    0 <= i2 < i ==> {
                        &&& out@[i2]@.no_duplicates()
                        &&& forall|a: int| 0 <= a < out@[i2]@.len() ==> (#[trigger] out@[i2]@[a]) < n
                        &&& forall|j: int|
                            0 <= j < n ==> (#[trigger] out@[i2]@.contains(j as usize) <==> self.depends(
                                i2,
                                j,
                            ))
                    },
            decreases n - i,
        {
            match self.resolve_row(i) {
                Err(e) => {
                    proof {
                        let k = choose|k: int|
                            {
                                &&& 0 <= k < dep_ids(self.tasks@[i as int]).len()
                                &&& self.dangling(i as int, k)
                                &&& forall|k2: int| 0 <= k2 < k ==> !#[trigger] self.dangling(i as int, k2)
                                &&& e matches GraphError::DanglingDependency(t, d) && t@ == self.ids()[i as int]
                                    && d@ == dep_ids(self.tasks@[i as int])[k]
                            };
                        assert(self.first_dangling(i as int, k));
                    }
                    return Err(e);
                },
                Ok(row) => {
                    out.push(row);
                },
            }
            i = i + 1;
        }
        proof {
            let tbl = table(&out);
            assert forall|t: int, k: int| 0 <= t < tbl.len() && 0 <= k < tbl[t].len() implies (
            #[trigger] tbl[t][k]) < tbl.len() by {
                assert(tbl[t] == out@[t]@);
            }
            assert forall|t: int| 0 <= t < tbl.len() implies (#[trigger] tbl[t]).no_duplicates() by {
                assert(tbl[t] == out@[t]@);
            }
            assert forall|t: int, j: int| 0 <= t < tbl.len() && 0 <= j < tbl.len() implies (
            #[trigger] tbl[t].contains(j as usize) <==> self.depends(t, j)) by {
                assert(tbl[t] == out@[t]@);
            }
        }
        Ok(out)
    }

    /// Checks that every dependency names a task of the graph and that the
    /// dependency relation has no cycle.
    pub fn validate(&self) -> (r: Result<(), GraphError>)
        requires
            self.wf(),
        ensures
            self.validation(r),
    {
        let deps = match self.resolve() {
            Err(e) => {
                return Err(e);
            },
            Ok(d) => d,
        };
        let ghost tbl = table(&deps);
        match ready_order(&deps) {
            Ok(_) => Ok(()),
            Err(c) => {
                let mut path: Vec<String> = Vec::new();
                let mut a: usize = 0;
                while a < c.len()
                    invariant
                        is_cycle(tbl, c@),
                        self.resolves(tbl),
                        a <= c@.len(),
                        path@.len() == a,
                        forall|b: int| 0 <= b < a ==> (#[trigger] path@[b])@ == self.ids()[c@[b] as int],
                    decreases c@.len() - a,
                {
                    path.push(self.tasks[c[a]].id.clone());
                    a = a + 1;
                }
                proof {
                    let pv = path@.map_values(|s: String| s@);
                    let cs = c@;
                    assert forall|b: int| 0 <= b < cs.len() implies self.ids()[#[trigger] cs[b] as int] == pv[b] by {
                        assert(path@[b]@ == self.ids()[cs[b] as int]);
                    }
                    assert forall|b: int| 0 <= b < cs.len() - 1 implies #[trigger] self.depends(cs[b] as int, cs[b + 1] as int) by {
                        assert(tbl[cs[b] as int].contains(cs[b + 1]));
                        assert(cs[b] < tbl.len() && cs[b + 1] < tbl.len());
                        assert(tbl[cs[b] as int].contains((cs[b + 1] as int) as usize));
                    }
                    assert(tbl[cs.last() as int].contains(cs[0]));
                    assert(cs[cs.len() - 1] < tbl.len() && cs[0] < tbl.len());
                    assert(tbl[cs.last() as int].contains((cs[0] as int) as usize));
                    assert(self.depends(cs.last() as int, cs[0] as int));
                    assert(pv.len() == cs.len());
                    assert(self.is_id_cycle(pv));
                    assert(!self.is_acyclic()) by {
                        if self.is_acyclic() {
                            let t2 = choose|t2: Seq<Seq<usize>>| self.resolves(t2) && is_acyclic(t2);
                            assert forall|b: int| 0 <= b < cs.len() - 1 implies #[trigger] t2[cs[b] as int].contains(cs[b + 1]) by {
                                assert(self.depends(cs[b] as int, cs[b + 1] as int));
                                assert(t2[cs[b] as int].contains((cs[b + 1] as int) as usize));
                            }
                            assert(self.depends(cs.last() as int, cs[0] as int));
                            assert(t2[cs.last() as int].contains((cs[0] as int) as usize));
                            assert(is_cycle(t2, cs));
                            lemma_cycle_not_acyclic(t2, cs);
                        }
                    }
                }
                Err(GraphError::CyclicDependency(path))
            },
        }
    }
}

} // verus!
