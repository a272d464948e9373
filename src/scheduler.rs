//! The scheduler: runs the tasks of a validated graph one at a time, each
//! after all its dependencies, taking ready tasks in FIFO order.
use vstd::prelude::*;

use crate::graph::{lemma_resolved_acyclic, GraphError, Task, DAG};
use crate::order::{
    fifo_queue, lemma_fifo_queue_stable, marks, is_acyclic, lemma_distinct_below, lemma_pending_zero, lemma_take_grow, is_topo_order, pending, roots, table, unlocked, Readiness,
};

verus! {

/// What happens to the rest of a run when a task fails.
#[derive(Clone, Copy, Debug, PartialEq, Eq, Structural)]
pub enum FailurePolicy {
    /// Stop handing out tasks; whatever has not started never runs.
    AbortRemaining,
    /// Keep running what does not wait on the failed task; what does is
    /// skipped.
    SkipDependents,
}

/// Where a task stands in a run.
#[derive(Clone, Copy, Debug, PartialEq, Eq, Structural)]
pub enum TaskStatus {
    /// Not started, and the run may still start it.
    Pending,
    /// Handed out and not yet reported back.
    Running,
    Completed,
    Failed,
    /// The run ended without it, as it waited on a task that failed.
    Skipped,
    /// The run was cancelled before it started.
    Cancelled,
    /// The run was aborted by a failure before it started.
    NeverRan,
}

/// Why a run stopped handing out tasks early.
#[derive(Clone, Copy, Debug, PartialEq, Eq, Structural)]
pub enum Stop {
    /// Tasks are still handed out as they become ready.
    Continuing,
    Aborted,
    Cancelled,
}

/// The state of a run as a whole.
#[derive(Clone, Copy, Debug, PartialEq, Eq, Structural)]
pub enum RunStatus {
    Running,
    Completed,
    Failed,
    Aborted,
}

/// One run over a validated task graph.
pub struct Scheduler {
    pub dag: DAG,
    /// The dependency table over task positions.
    pub deps: Vec<Vec<usize>>,
    pub ready: Readiness,
    /// For each task, whether it failed.
    pub failed: Vec<bool>,
    /// The task handed out and not yet reported back.
    pub running: Option<usize>,
    pub stop: Stop,
    pub any_failed: bool,
    pub policy: FailurePolicy,
}

impl Scheduler {
    pub open spec fn n(&self) -> nat {
        self.deps@.len()
    }

    pub open spec fn tbl(&self) -> Seq<Seq<usize>> {
        table(&self.deps)
    }

    /// Task `t` has been handed out.
    pub open spec fn started(&self, t: int) -> bool {
        self.ready.queue@.take(self.ready.head as int).contains(t as usize)
    }

    pub open spec fn wf(&self) -> bool {
        let n = self.n();
        &&& n <= usize::MAX
        &&& self.dag.wf()
        &&& self.dag.tasks@.len() == n
        &&& self.dag.resolves(self.tbl())
        &&& is_acyclic(self.tbl())
        &&& self.ready.wf(self.tbl())
        &&& self.failed@.len() == n
        &&& forall|t: int|
            #![trigger self.failed@[t]]
            #![trigger self.ready.done@[t]]
            0 <= t < n ==> {
                &&& self.ready.done@[t] ==> !self.failed@[t]
                &&& self.failed@[t] ==> self.started(t)
                &&& self.failed@[t] ==> self.any_failed
            }
        &&& forall|t: int|
            0 <= t < n && #[trigger] self.started(t) ==> self.ready.done@[t] || self.failed@[t]
                || self.running == Some(t as usize)
        &&& self.running matches Some(u) ==> {
            &&& u < n
            &&& self.started(u as int)
            &&& !self.ready.done@[u as int]
            &&& !self.failed@[u as int]
        }
        &&& self.stop == Stop::Aborted ==> self.any_failed
    }

    /// No task is out, and none will be handed out any more.
    pub open spec fn finished(&self) -> bool {
        &&& self.running is None
        &&& self.stop != Stop::Continuing || self.ready.head >= self.ready.queue@.len()
    }

    /// The status of task `t`.
    pub open spec fn status_of(&self, t: int) -> TaskStatus {
        if self.ready.done@[t] {
            TaskStatus::Completed
        } else if self.failed@[t] {
            TaskStatus::Failed
        } else if self.running == Some(t as usize) {
            TaskStatus::Running
        } else if self.stop == Stop::Cancelled {
            TaskStatus::Cancelled
        } else if self.stop == Stop::Aborted {
            TaskStatus::NeverRan
        } else if self.finished() {
            TaskStatus::Skipped
        } else {
            TaskStatus::Pending
        }
    }

    /// The status of the run.
    pub open spec fn run_status_of(&self) -> RunStatus {
        if !self.finished() {
            RunStatus::Running
        } else if self.stop == Stop::Cancelled {
            RunStatus::Aborted
        } else if self.any_failed {
            RunStatus::Failed
        } else {
            RunStatus::Completed
        }
    }

    /// A run that has not started yet.
    pub open spec fn fresh(&self) -> bool {
        &&& self.ready.head == 0
        &&& self.ready.queue@ == roots(self.tbl(), self.n() as int)
        &&& self.running is None
        &&& self.stop == Stop::Continuing
        &&& !self.any_failed
        &&& forall|t: int| 0 <= t < self.n() ==> !(#[trigger] self.ready.done@[t])
        &&& forall|t: int| 0 <= t < self.n() ==> !(#[trigger] self.failed@[t])
    }

    /// A run over `dag`, which must pass validation; the tasks without
    /// dependencies are ready, in insertion order.
    pub fn new(dag: DAG, policy: FailurePolicy) -> (r: Result<Scheduler, GraphError>)
        requires
            dag.wf(),
        ensures
            r is Ok <==> dag.validation(Ok(())),
            r matches Err(e) ==> dag.validation(Err(e)),
            r matches Ok(s) ==> s.wf() && s.fresh() && s.dag == dag && s.policy == policy,
    {
        match dag.validate() {
            Err(e) => Err(e),
            Ok(()) => {
                match dag.resolve() {
                    Err(e) => Err(e),
                    Ok(deps) => {
                        proof {
                            lemma_resolved_acyclic(dag, table(&deps));
                        }
                        let ready = Readiness::new(&deps);
                        let n = deps.len();
                        let mut failed: Vec<bool> = Vec::new();
                        let mut i: usize = 0;
                        while i < n
                            invariant
                                i <= n,
                                failed@.len() == i,
                                forall|t: int| 0 <= t < i ==> !(#[trigger] failed@[t]),
                            decreases n - i,
                        {
                            failed.push(false);
                            i = i + 1;
                        }
                        let s = Scheduler {
                            dag,
                            deps,
                            ready,
                            failed,
                            running: None,
                            stop: Stop::Continuing,
                            any_failed: false,
                            policy,
                        };
                        proof {
                            assert forall|t: int| 0 <= t < s.n() && #[trigger] s.started(t) implies s.ready.done@[t]
                                || s.failed@[t] || s.running == Some(t as usize) by {
                                assert(s.ready.queue@.take(0).len() == 0);
                            }
                        }
                        Ok(s)
                    },
                }
            },
        }
    }

    pub fn len(&self) -> (r: usize)
        requires
            self.wf(),
        ensures
            r == self.n(),
    {
        self.deps.len()
    }

    /// The task at position `t`.
    pub fn task(&self, t: usize) -> (r: &Task)
        requires
            self.wf(),
            t < self.n(),
        ensures
            *r == self.dag.tasks@[t as int],
    {
        &self.dag.tasks[t]
    }

    /// How many dependencies of task `t` have not completed.
    pub fn remaining_count(&self, t: usize) -> (r: usize)
        requires
            self.wf(),
            t < self.n(),
        ensures
            r == pending(self.tbl()[t as int], self.ready.done@),
    {
        self.ready.remaining[t]
    }

    /// The status of task `t`.
    pub fn status(&self, t: usize) -> (r: TaskStatus)
        requires
            self.wf(),
            t < self.n(),
        ensures
            r == self.status_of(t as int),
    {
        if self.ready.done[t] {
            TaskStatus::Completed
        } else if self.failed[t] {
            TaskStatus::Failed
        } else if self.running == Some(t) {
            TaskStatus::Running
        } else if self.stop == Stop::Cancelled {
            TaskStatus::Cancelled
        } else if self.stop == Stop::Aborted {
            TaskStatus::NeverRan
        } else if self.is_finished() {
            TaskStatus::Skipped
        } else {
            TaskStatus::Pending
        }
    }

    /// Whether the run has ended.
    pub fn is_finished(&self) -> (r: bool)
        requires
            self.wf(),
        ensures
            r == self.finished(),
    {
        self.running.is_none() && (self.stop != Stop::Continuing || self.ready.head >= self.ready.queue.len())
    }

    /// The status of the run.
    pub fn run_status(&self) -> (r: RunStatus)
        requires
            self.wf(),
        ensures
            r == self.run_status_of(),
    {
        if !self.is_finished() {
            RunStatus::Running
        } else if self.stop == Stop::Cancelled {
            RunStatus::Aborted
        } else if self.any_failed {
            RunStatus::Failed
        } else {
            RunStatus::Completed
        }
    }

    /// Hands out the front of the readiness queue, unless a task is out, the
    /// run has stopped, or nothing is ready.
    pub fn next_task(&mut self) -> (r: Option<usize>)
        requires
            old(self).wf(),
        ensures
            final(self).wf(),
            r == if old(self).running is None && old(self).stop == Stop::Continuing && old(self).ready.head
                < old(self).ready.queue@.len() {
                Some(old(self).ready.queue@[old(self).ready.head as int])
            } else {
                None::<usize>
            },
            r is Some ==> final(self).ready.head == old(self).ready.head + 1 && final(self).running == r,
            r is None ==> final(self).ready.head == old(self).ready.head && final(self).running == old(
                self,
            ).running,
            final(self).ready.queue@ == old(self).ready.queue@,
            final(self).ready.done@ == old(self).ready.done@,
            final(self).ready.remaining@ == old(self).ready.remaining@,
            final(self).failed@ == old(self).failed@,
            final(self).stop == old(self).stop,
            final(self).any_failed == old(self).any_failed,
            final(self).policy == old(self).policy,
            final(self).dag == old(self).dag,
            final(self).deps@ == old(self).deps@,
    {
        if self.running.is_some() || self.stop != Stop::Continuing {
            return None;
        }
        let ghost q = self.ready.queue@;
        let ghost h = self.ready.head as int;
        let r = self.ready.pop(&self.deps);
        match r {
            Some(u) => {
                self.running = Some(u);
                proof {
                    assert(q.take(h + 1) == q.take(h).push(u));
                    assert(q.take(h + 1)[h] == u);
                    assert(self.started(u as int));
                    assert(!self.ready.done@[u as int]) by {
                        if q.take(h).contains(u) {
                            let j = choose|j: int| 0 <= j < h && q.take(h)[j] == u;
                            assert(q[j] == q[h]);
                        }
                    }
                    assert forall|t: int| 0 <= t < self.n() && #[trigger] self.started(t) implies self.ready.done@[t]
                        || self.failed@[t] || self.running == Some(t as usize) by {
                        if t != u {
                            let q1 = q.take(h + 1);
                            let j = choose|j: int| 0 <= j < q1.len() && q1[j] == t as usize;
                            assert(q1[h] == u);
                            assert((t as usize) as int == t);
                            assert(j < h);
                            assert(q.take(h)[j] == t as usize);
                            assert(old(self).started(t));
                        }
                    }
                }
            },
            None => {},
        }
        proof {
            assert forall|t: int|
                #![trigger self.failed@[t]]
                #![trigger self.ready.done@[t]]
                0 <= t < self.n() && old(self).started(t) implies self.started(t) by {
                lemma_take_grow(q, h, self.ready.head as int, t as usize);
            }
            assert forall|t: int| 0 <= t < self.n() && #[trigger] self.started(t) implies self.ready.done@[t]
                || self.failed@[t] || self.running == Some(t as usize) by {
                if r is None {
                    assert(old(self).started(t));
                }
            }
        }
        r
    }

    /// Reports that the task handed out, `u`, succeeded: it completes, and
    /// the tasks left waiting on nothing join the back of the queue.
    pub fn complete_task(&mut self, u: usize)
        requires
            old(self).wf(),
            old(self).running == Some(u),
        ensures
            final(self).wf(),
            final(self).running is None,
            final(self).ready.head == old(self).ready.head,
            final(self).ready.done@ == old(self).ready.done@.update(u as int, true),
            final(self).ready.queue@ == old(self).ready.queue@ + unlocked(
                old(self).tbl(),
                final(self).ready.done@,
                u,
                old(self).n() as int,
            ),
            final(self).failed@ == old(self).failed@,
            final(self).stop == old(self).stop,
            final(self).any_failed == old(self).any_failed,
            final(self).policy == old(self).policy,
            final(self).dag == old(self).dag,
            final(self).deps@ == old(self).deps@,
    {
        let ghost q = self.ready.queue@;
        let ghost h = self.ready.head as int;
        self.ready.complete(&self.deps, u);
        self.running = None;
        proof {
            assert(self.ready.queue@.take(h) == q.take(h));
            assert forall|t: int| 0 <= t < self.n() && #[trigger] self.started(t) implies self.ready.done@[t]
                || self.failed@[t] || self.running == Some(t as usize) by {
                assert(old(self).started(t));
                assert((t as usize) as int == t);
                if old(self).running == Some(t as usize) {
                    assert(t == u);
                }
            }
            assert forall|t: int| 0 <= t < self.n() && #[trigger] self.failed@[t] implies self.started(t) by {
                assert(old(self).started(t));
            }
        }
    }

    /// Reports that the task handed out, `u`, failed. Its dependents are
    /// never unlocked; under `AbortRemaining` the run stops.
    pub fn fail_task(&mut self, u: usize)
        requires
            old(self).wf(),
            old(self).running == Some(u),
        ensures
            final(self).wf(),
            final(self).running is None,
            final(self).failed@ == old(self).failed@.update(u as int, true),
            final(self).any_failed,
            final(self).stop == if old(self).policy == FailurePolicy::AbortRemaining && old(self).stop
                == Stop::Continuing {
                Stop::Aborted
            } else {
                old(self).stop
            },
            final(self).ready == old(self).ready,
            final(self).policy == old(self).policy,
            final(self).dag == old(self).dag,
            final(self).deps@ == old(self).deps@,
    {
        self.failed.set(u, true);
        self.running = None;
        self.any_failed = true;
        if self.policy == FailurePolicy::AbortRemaining && self.stop == Stop::Continuing {
            self.stop = Stop::Aborted;
        }
        proof {
            assert forall|t: int| 0 <= t < self.n() && #[trigger] self.started(t) implies self.ready.done@[t]
                || self.failed@[t] || self.running == Some(t as usize) by {
                assert(old(self).started(t));
                assert((t as usize) as int == t);
                if old(self).running == Some(t as usize) {
                    assert(t == u);
                }
            }
        }
    }

    /// Reports the outcome of the task handed out, `u`.
    pub fn record(&mut self, u: usize, succeeded: bool)
        requires
            old(self).wf(),
            old(self).running == Some(u),
        ensures
            final(self).wf(),
            final(self).running is None,
            succeeded ==> final(self).status_of(u as int) == TaskStatus::Completed,
            !succeeded ==> final(self).status_of(u as int) == TaskStatus::Failed,
            forall|t: int|
                0 <= t < old(self).n() && t != u ==> (#[trigger] final(self).ready.done@[t]) == old(
                    self,
                ).ready.done@[t] && final(self).failed@[t] == old(self).failed@[t],
    {
        if succeeded {
            self.complete_task(u);
        } else {
            self.fail_task(u);
        }
    }

    /// Cancels the run: no task is handed out any more, and those not
    /// started end as cancelled. A task already out may still report back.
    pub fn cancel(&mut self)
        requires
            old(self).wf(),
        ensures
            final(self).wf(),
            final(self).stop == Stop::Cancelled,
            final(self).ready == old(self).ready,
            final(self).failed@ == old(self).failed@,
            final(self).running == old(self).running,
            final(self).any_failed == old(self).any_failed,
            final(self).dag == old(self).dag,
            final(self).deps@ == old(self).deps@,
    {
        self.stop = Stop::Cancelled;
        proof {
            assert forall|t: int| 0 <= t < self.n() && #[trigger] self.started(t) implies self.ready.done@[t]
                || self.failed@[t] || self.running == Some(t as usize) by {
                assert(old(self).started(t));
            }
            assert forall|t: int| 0 <= t < self.n() && #[trigger] self.failed@[t] implies self.started(t) by {
                assert(old(self).started(t) == self.started(t));
            }
        }
    }

    /// Runs every task, each succeeding, and returns the order they ran in.
    /// Each task runs exactly once, after all the tasks it depends on.
    pub fn run(&mut self) -> (r: Vec<usize>)
        requires
            old(self).wf(),
            old(self).fresh(),
        ensures
            final(self).wf(),
            is_topo_order(final(self).tbl(), r@),
            r@ == fifo_queue(final(self).tbl(), final(self).n()),
            r@ == final(self).ready.queue@,
            final(self).deps@ == old(self).deps@,
            final(self).dag == old(self).dag,
            forall|t: int| 0 <= t < final(self).n() ==> #[trigger] final(self).status_of(t) == TaskStatus::Completed,
            final(self).run_status_of() == RunStatus::Completed,
    {
        let mut log: Vec<usize> = Vec::new();
        proof {
            assert(self.ready.queue@.take(0) =~= log@);
            assert(self.ready.done@ =~= marks(self.n(), self.ready.queue@, 0));
        }
        while self.ready.head < self.ready.queue.len()
            invariant
                self.wf(),
                self.deps@ == old(self).deps@,
                self.dag == old(self).dag,
                self.stop == Stop::Continuing,
                !self.any_failed,
                self.running is None,
                forall|t: int| 0 <= t < self.n() ==> !(#[trigger] self.failed@[t]),
                log@ == self.ready.queue@.take(self.ready.head as int),
                self.ready.queue@ == fifo_queue(self.tbl(), self.ready.head as nat),
                self.ready.done@ == marks(self.n(), self.ready.queue@, self.ready.head as int),
            decreases self.n() - self.ready.head,
        {
            proof {
                lemma_distinct_below(self.ready.queue@, self.n() as usize);
            }
            let ghost h = self.ready.head as int;
            let ghost q0 = self.ready.queue@;
            let ghost d0 = self.ready.done@;
            if let Some(u) = self.next_task() {
                log.push(u);
                proof {
                    let n = self.n();
                    assert(q0.take(h + 1) =~= q0.take(h).push(u));
                    assert forall|t: int| 0 <= t < n implies d0.update(u as int, true)[t] == marks(n, q0, h + 1)[t] by {
                        if t != u {
                            if q0.take(h + 1).contains(t as usize) {
                                let q1 = q0.take(h + 1);
                                let j = choose|j: int| 0 <= j < q1.len() && q1[j] == t as usize;
                                assert(q1[h] == u);
                                assert(j < h);
                                assert(q0.take(h)[j] == t as usize);
                            }
                            if q0.take(h).contains(t as usize) {
                                let j = choose|j: int| 0 <= j < h && q0.take(h)[j] == t as usize;
                                assert(q0.take(h + 1)[j] == t as usize);
                            }
                        } else {
                            assert(q0.take(h + 1)[h] == u);
                        }
                    }
                    assert(d0.update(u as int, true) =~= marks(n, q0, h + 1));
                }
                self.complete_task(u);
                proof {
                    let n = self.n();
                    let q = self.ready.queue@;
                    assert(q.take(h + 1) =~= q.take(h).push(u));
                    assert(q.take(h + 1) == q0.take(h + 1));
                    assert(marks(n, q, h + 1) =~= marks(n, q0, h + 1));
                    assert(fifo_queue(self.tbl(), (h + 1) as nat) == q);
                }
            }
        }
        proof {
            lemma_distinct_below(self.ready.queue@, self.n() as usize);
            lemma_fifo_queue_stable(self.tbl(), self.ready.head as nat, (self.n() - self.ready.head) as nat);
            let o = choose|o: Seq<usize>| is_topo_order(self.tbl(), o);
            lemma_all_done(*self, o, o.len() as int);
            assert forall|t: int| 0 <= t < self.n() implies #[trigger] self.ready.done@[t] by {
                assert(o.contains(t as usize));
                let j = choose|j: int| 0 <= j < o.len() && o[j] == t as usize;
                assert(self.ready.done@[o[j] as int]);
            }
            assert(self.ready.queue@.take(self.ready.head as int) == self.ready.queue@);
            assert forall|t: usize| t < self.n() implies #[trigger] self.ready.queue@.contains(t) by {
                assert(self.ready.done@[t as int]);
            }
            assert forall|t: int| 0 <= t < self.n() implies #[trigger] self.status_of(t) == TaskStatus::Completed by {
                assert(self.ready.done@[t]);
            }
        }
        log
    }
}

/// When nothing failed, nothing is out and the queue is exhausted, every
/// task among the first `i` of a topological order has completed.
proof fn lemma_all_done(s: Scheduler, o: Seq<usize>, i: int)
    requires
        s.wf(),
        is_topo_order(s.tbl(), o),
        s.ready.head == s.ready.queue@.len(),
        s.running is None,
        forall|t: int| 0 <= t < s.n() ==> !(#[trigger] s.failed@[t]),
        0 <= i <= o.len(),
    ensures
        forall|j: int| 0 <= j < i ==> #[trigger] s.ready.done@[o[j] as int],
    decreases i,
{
    if i > 0 {
        lemma_all_done(s, o, i - 1);
        let x = o[i - 1];
        let ds = s.tbl()[x as int];
        assert forall|k: int| 0 <= k < ds.len() implies #[trigger] s.ready.done@[ds[k] as int] by {
            assert(o.take(i - 1).contains(s.tbl()[o[i - 1] as int][k]));
            let ot = o.take(i - 1);
            let j = choose|j: int| 0 <= j < ot.len() && ot[j] == ds[k];
            assert(o[j] == ds[k]);
        }
        lemma_pending_zero(ds, s.ready.done@);
        assert(s.ready.remaining@[x as int] == 0);
        assert(s.ready.queued@[x as int]);
        assert(s.ready.queue@.take(s.ready.head as int) == s.ready.queue@);
        assert(s.started(x as int));
        assert(!s.failed@[x as int]);
    }
}

} // verus!
