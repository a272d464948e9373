//! Readiness propagation over a dependency graph whose tasks are numbered
//! `0..n`: entry `t` of the dependency table lists the tasks that `t` waits on.
use vstd::prelude::*;
use vstd::set_lib::{lemma_int_range, lemma_len_subset, set_int_range};

verus! {

/// The dependency table of `deps` as a sequence of sequences.
pub open spec fn table(deps: &Vec<Vec<usize>>) -> Seq<Seq<usize>> {
    deps@.map_values(|v: Vec<usize>| v@)
}

/// Every list names tasks of the table only, and names each at most once.
pub open spec fn deps_wf(deps: Seq<Seq<usize>>) -> bool {
    &&& forall|t: int| 0 <= t < deps.len() ==> (#[trigger] deps[t]).no_duplicates()
    &&& forall|t: int, k: int|
        0 <= t < deps.len() && 0 <= k < deps[t].len() ==> (#[trigger] deps[t][k]) < deps.len()
}

/// The number of entries of `ds` whose task is not yet marked in `done`.
pub open spec fn pending(ds: Seq<usize>, done: Seq<bool>) -> nat
    decreases ds.len(),
{
    if ds.len() == 0 {
        0
    } else {
        pending(ds.drop_last(), done) + if done[ds.last() as int] {
            0nat
        } else {
            1nat
        }
    }
}

/// `order` runs every task of the table exactly once, and each task only
/// after all the tasks it depends on.
pub open spec fn is_topo_order(deps: Seq<Seq<usize>>, order: Seq<usize>) -> bool {
    &&& order.no_duplicates()
    &&& forall|i: int| 0 <= i < order.len() ==> (#[trigger] order[i]) < deps.len()
    &&& forall|t: usize| t < deps.len() ==> #[trigger] order.contains(t)
    &&& forall|i: int, k: int|
        0 <= i < order.len() && 0 <= k < deps[order[i] as int].len() ==> #[trigger] order.take(
            i,
        ).contains(#[trigger] deps[order[i] as int][k])
}

/// The dependency relation has no cycle: some order runs each task after
/// its dependencies.
pub open spec fn is_acyclic(deps: Seq<Seq<usize>>) -> bool {
    exists|order: Seq<usize>| is_topo_order(deps, order)
}

/// `c` is a cycle: each task of it depends on the next one, and the last on
/// the first.
pub open spec fn is_cycle(deps: Seq<Seq<usize>>, c: Seq<usize>) -> bool {
    &&& c.len() > 0
    &&& c.no_duplicates()
    &&& forall|i: int| 0 <= i < c.len() ==> (#[trigger] c[i]) < deps.len()
    &&& forall|i: int| 0 <= i < c.len() - 1 ==> #[trigger] deps[c[i] as int].contains(c[i + 1])
    &&& deps[c.last() as int].contains(c[0])
}

/// The tasks below `m` that depend on `u` and have no dependency left open
/// once `u` is done, in index order.
pub open spec fn unlocked(deps: Seq<Seq<usize>>, done: Seq<bool>, u: usize, m: int) -> Seq<usize>
    decreases m,
{
    if m <= 0 {
        Seq::empty()
    } else {
        let t = m - 1;
        unlocked(deps, done, u, t) + if deps[t].contains(u) && pending(deps[t], done) == 0 {
            seq![t as usize]
        } else {
            Seq::empty()
        }
    }
}

/// The tasks below `m` without dependencies, in index order.
pub open spec fn roots(deps: Seq<Seq<usize>>, m: int) -> Seq<usize>
    decreases m,
{
    if m <= 0 {
        Seq::empty()
    } else {
        roots(deps, m - 1) + if deps[m - 1].len() == 0 {
            seq![(m - 1) as usize]
        } else {
            Seq::empty()
        }
    }
}

/// Marks the tasks among the first `h` entries of `q`.
pub open spec fn marks(n: nat, q: Seq<usize>, h: int) -> Seq<bool> {
    Seq::new(n, |t: int| q.take(h).contains(t as usize))
}

/// The readiness queue after the first `s` tasks taken from it have
/// completed: it starts with the roots in index order, and each completion
/// appends what it unlocks, in index order.
pub open spec fn fifo_queue(deps: Seq<Seq<usize>>, s: nat) -> Seq<usize>
    decreases s,
{
    if s == 0 {
        roots(deps, deps.len() as int)
    } else {
        let q = fifo_queue(deps, (s - 1) as nat);
        if s - 1 < q.len() {
            q + unlocked(deps, marks(deps.len(), q, s as int), q[s - 1], deps.len() as int)
        } else {
            q
        }
    }
}

/// Once every task taken from the queue has completed and nothing is left
/// in it, the queue no longer changes.
pub proof fn lemma_fifo_queue_stable(deps: Seq<Seq<usize>>, s: nat, k: nat)
    requires
        fifo_queue(deps, s).len() <= s,
    ensures
        fifo_queue(deps, s + k) == fifo_queue(deps, s),
    decreases k,
{
    if k > 0 {
        lemma_fifo_queue_stable(deps, s, (k - 1) as nat);
        assert(fifo_queue(deps, s + k) == fifo_queue(deps, (s + k - 1) as nat));
    }
}

proof fn lemma_pending_update(ds: Seq<usize>, done: Seq<bool>, u: usize)
    requires
        ds.no_duplicates(),
        u < done.len(),
        forall|k: int| 0 <= k < ds.len() ==> (#[trigger] ds[k]) < done.len(),
    ensures
        pending(ds, done.update(u as int, true)) == pending(ds, done) - if ds.contains(u)
            && !done[u as int] {
            1int
        } else {
            0int
        },
    decreases ds.len(),
{
    if ds.len() > 0 {
        let init = ds.drop_last();
        assert(init.no_duplicates());
        assert forall|k: int| 0 <= k < init.len() implies (#[trigger] init[k]) < done.len() by {
            assert(init[k] == ds[k]);
        }
        assert(ds[ds.len() - 1] < done.len());
        lemma_pending_update(init, done, u);
        let nd = done.update(u as int, true);
        assert(pending(ds, nd) == pending(init, nd) + if nd[ds.last() as int] {
            0nat
        } else {
            1nat
        });
        assert(pending(ds, done) == pending(init, done) + if done[ds.last() as int] {
            0nat
        } else {
            1nat
        });
        if ds.last() == u {
            assert(!init.contains(u)) by {
                if init.contains(u) {
                    let j = choose|j: int| 0 <= j < init.len() && init[j] == u;
                    assert(ds[j] == ds[ds.len() - 1]);
                }
            }
        }
        assert(ds.contains(u) <==> (init.contains(u) || ds.last() == u)) by {
            if ds.contains(u) && ds.last() != u {
                let j = choose|j: int| 0 <= j < ds.len() && ds[j] == u;
                assert(init[j] == u);
            }
            if init.contains(u) {
                let j = choose|j: int| 0 <= j < init.len() && init[j] == u;
                assert(ds[j] == u);
            }
            if ds.last() == u {
                assert(ds[ds.len() - 1] == u);
            }
        }
    }
}

pub proof fn lemma_pending_zero(ds: Seq<usize>, done: Seq<bool>)
    ensures
        pending(ds, done) == 0 <==> forall|k: int| 0 <= k < ds.len() ==> #[trigger] done[ds[k] as int],
    decreases ds.len(),
{
    if ds.len() > 0 {
        let init = ds.drop_last();
        lemma_pending_zero(init, done);
        if pending(ds, done) == 0 {
            assert forall|k: int| 0 <= k < ds.len() implies #[trigger] done[ds[k] as int] by {
                if k < ds.len() - 1 {
                    assert(init[k] == ds[k]);
                }
            }
        }
        if forall|k: int| 0 <= k < ds.len() ==> #[trigger] done[ds[k] as int] {
            assert forall|k: int| 0 <= k < init.len() implies #[trigger] done[init[k] as int] by {
                assert(init[k] == ds[k]);
            }
            assert(done[ds[ds.len() - 1] as int]);
        }
    }
}

proof fn lemma_pending_none_done(ds: Seq<usize>, done: Seq<bool>)
    requires
        forall|k: int| 0 <= k < ds.len() ==> !(#[trigger] done[ds[k] as int]),
    ensures
        pending(ds, done) == ds.len(),
    decreases ds.len(),
{
    if ds.len() > 0 {
        let init = ds.drop_last();
        assert forall|k: int| 0 <= k < init.len() implies !(#[trigger] done[init[k] as int]) by {
            assert(init[k] == ds[k]);
        }
        lemma_pending_none_done(init, done);
        assert(!done[ds[ds.len() - 1] as int]);
    }
}

/// A sequence of distinct numbers below `n` has at most `n` entries.
pub proof fn lemma_distinct_below(s: Seq<usize>, n: usize)
    requires
        s.no_duplicates(),
        forall|i: int| 0 <= i < s.len() ==> (#[trigger] s[i]) < n,
    ensures
        s.len() <= n,
{
    let m = s.map_values(|x: usize| x as int);
    assert(m.no_duplicates()) by {
        assert forall|i: int, j: int| 0 <= i < m.len() && 0 <= j < m.len() && i != j implies m[i]
            != m[j] by {
            assert(s[i] != s[j]);
        }
    }
    m.unique_seq_to_set();
    assert(m.to_set().subset_of(set_int_range(0, n as int))) by {
        assert forall|x: int| m.to_set().contains(x) implies set_int_range(0, n as int).contains(
            x,
        ) by {
            let i = choose|i: int| 0 <= i < m.len() && m[i] == x;
            assert(s[i] < n);
        }
    }
    lemma_int_range(0, n as int);
    lemma_len_subset(m.to_set(), set_int_range(0, n as int));
}

/// The position of `x` in `order`.
spec fn pos(order: Seq<usize>, x: usize) -> int {
    choose|j: int| 0 <= j < order.len() && order[j] == x
}

proof fn lemma_dep_earlier(deps: Seq<Seq<usize>>, order: Seq<usize>, a: usize, b: usize)
    requires
        deps_wf(deps),
        is_topo_order(deps, order),
        a < deps.len(),
        deps[a as int].contains(b),
    ensures
        0 <= pos(order, b) < pos(order, a) < order.len(),
        order[pos(order, a)] == a,
        order[pos(order, b)] == b,
{
    assert(order.contains(a));
    let i = pos(order, a);
    let k = choose|k: int| 0 <= k < deps[a as int].len() && deps[a as int][k] == b;
    assert(order.take(i).contains(deps[order[i] as int][k]));
    let j = choose|j: int| 0 <= j < i && order.take(i)[j] == b;
    assert(order[j] == b);
    assert(order.contains(b));
    let p = pos(order, b);
    assert(order[p] == order[j]);
}

proof fn lemma_cycle_descends(deps: Seq<Seq<usize>>, c: Seq<usize>, order: Seq<usize>, i: int)
    requires
        deps_wf(deps),
        is_cycle(deps, c),
        is_topo_order(deps, order),
        0 <= i < c.len(),
    ensures
        pos(order, c[i]) + i <= pos(order, c[0]),
    decreases i,
{
    if i > 0 {
        lemma_cycle_descends(deps, c, order, i - 1);
        let j = i - 1;
        assert(deps[c[j] as int].contains(c[j + 1]));
        lemma_dep_earlier(deps, order, c[i - 1], c[i]);
    } else {
        assert(order.contains(c[0]));
    }
}

/// A graph with a cycle is not acyclic: along the cycle the positions in
/// any topological order would have to fall forever.
pub proof fn lemma_cycle_not_acyclic(deps: Seq<Seq<usize>>, c: Seq<usize>)
    requires
        deps_wf(deps),
        is_cycle(deps, c),
    ensures
        !is_acyclic(deps),
{
    if is_acyclic(deps) {
        let order = choose|order: Seq<usize>| is_topo_order(deps, order);
        lemma_cycle_descends(deps, c, order, c.len() - 1);
        lemma_dep_earlier(deps, order, c.last(), c[0]);
    }
}

pub proof fn lemma_take_grow(s: Seq<usize>, a: int, b: int, x: usize)
    requires
        0 <= a <= b <= s.len(),
        s.take(a).contains(x),
    ensures
        s.take(b).contains(x),
{
    let j = choose|j: int| 0 <= j < a && s.take(a)[j] == x;
    assert(s.take(b)[j] == x);
}

/// Whether `x` is one of the entries of `ds`.
pub fn contains_task(ds: &Vec<usize>, x: usize) -> (r: bool)
    ensures
        r == ds@.contains(x),
{
    let mut i: usize = 0;
    while i < ds.len()
        invariant
            i <= ds@.len(),
            forall|j: int| 0 <= j < i ==> ds@[j] != x,
        decreases ds@.len() - i,
    {
        if ds[i] == x {
            return true;
        }
        i = i + 1;
    }
    false
}

/// The runtime state of readiness propagation over one dependency table:
/// how many dependencies each task still waits on, and the readiness queue.
pub struct Readiness {
    /// For each task, how many of its dependencies have not completed.
    pub remaining: Vec<usize>,
    /// Every task that has become ready, in the order it became ready.
    pub queue: Vec<usize>,
    /// The tasks `queue[..head]` have been handed out.
    pub head: usize,
    /// For each task, whether it is in `queue`.
    pub queued: Vec<bool>,
    /// For each task, whether it has completed.
    pub done: Vec<bool>,
}

impl Readiness {
    pub open spec fn wf(&self, deps: Seq<Seq<usize>>) -> bool {
        let n = deps.len();
        &&& deps_wf(deps)
        &&& self.remaining@.len() == n
        &&& self.queued@.len() == n
        &&& self.done@.len() == n
        &&& self.head <= self.queue@.len()
        &&& self.queue@.no_duplicates()
        &&& forall|i: int| 0 <= i < self.queue@.len() ==> (#[trigger] self.queue@[i]) < n
        &&& forall|t: int|
            #![trigger self.remaining@[t]]
            #![trigger self.queued@[t]]
            0 <= t < n ==> {
                &&& self.remaining@[t] == pending(deps[t], self.done@)
                &&& self.queued@[t] == self.queue@.contains(t as usize)
                &&& self.queued@[t] == (self.remaining@[t] == 0)
            }
        &&& forall|t: int|
            0 <= t < n && #[trigger] self.done@[t] ==> self.queue@.take(self.head as int).contains(
                t as usize,
            )
        &&& forall|i: int, k: int|
            0 <= i < self.queue@.len() && 0 <= k < deps[self.queue@[i] as int].len()
                ==> #[trigger] self.queue@.take(i).contains(#[trigger] deps[self.queue@[i] as int][k])
    }

    /// The initial state: nothing has completed, and the tasks without
    /// dependencies are ready, in index order.
    pub fn new(deps: &Vec<Vec<usize>>) -> (r: Readiness)
        requires
            deps_wf(table(deps)),
        ensures
            r.wf(table(deps)),
            r.head == 0,
            r.queue@ == roots(table(deps), deps@.len() as int),
            forall|t: int| 0 <= t < deps@.len() ==> !(#[trigger] r.done@[t]),
    {
        let ghost tbl = table(deps);
        let n = deps.len();
        let mut remaining: Vec<usize> = Vec::new();
        let mut queued: Vec<bool> = Vec::new();
        let mut done: Vec<bool> = Vec::new();
        let mut queue: Vec<usize> = Vec::new();
        let mut t: usize = 0;
        while t < n
            invariant
                n == deps@.len(),
                tbl == table(deps),
                t <= n,
                remaining@.len() == t,
                queued@.len() == t,
                done@.len() == t,
                forall|j: int|
                    #![trigger remaining@[j]]
                    #![trigger queued@[j]]
                    #![trigger done@[j]]
                    0 <= j < t ==> {
                        &&& remaining@[j] == tbl[j].len()
                        &&& !done@[j]
                        &&& queued@[j] == (tbl[j].len() == 0)
                        &&& queued@[j] == queue@.contains(j as usize)
                    },
                queue@ == roots(tbl, t as int),
                queue@.no_duplicates(),
                forall|i: int| 0 <= i < queue@.len() ==> (#[trigger] queue@[i]) < t,
                forall|i: int| 0 <= i < queue@.len() ==> tbl[(#[trigger] queue@[i]) as int].len() == 0,
            decreases n - t,
        {
            let len = deps[t].len();
            let ghost q0 = queue@;
            let ghost u0 = queued@;
            remaining.push(len);
            done.push(false);
            if len == 0 {
                queue.push(t);
                queued.push(true);
            } else {
                queued.push(false);
            }
            proof {
                assert forall|j: int| 0 <= j < t implies queued@[j] == queue@.contains(j as usize) by {
                    if queue@.contains(j as usize) && j != t {
                        let i = choose|i: int| 0 <= i < queue@.len() && queue@[i] == j as usize;
                        if i == queue@.len() - 1 && len == 0 {
                        } else {
                            assert(queue@[i] < t);
                        }
                    }
                    if queued@[j] {
                        assert(u0[j]);
                        assert(q0.contains(j as usize));
                        let i = choose|i: int| 0 <= i < q0.len() && q0[i] == j as usize;
                        assert(queue@[i] == j as usize);
                    }
                }
                if len == 0 {
                    assert(queue@[queue@.len() - 1] == t);
                } else {
                    assert forall|i: int| 0 <= i < queue@.len() implies queue@[i] != t by {}
                }
            }
            t = t + 1;
        }
        proof {
            assert forall|j: int| 0 <= j < n implies pending(tbl[j], done@) == tbl[j].len() by {
                assert forall|k: int| 0 <= k < tbl[j].len() implies !(#[trigger] done@[tbl[j][k] as int]) by {
                    assert(tbl[j][k] < n);
                }
                lemma_pending_none_done(tbl[j], done@);
            }
        }
        let r = Readiness { remaining, queue, head: 0, queued, done };
        assert(r.wf(tbl));
        r
    }

    /// Hands out the front of the readiness queue, if there is one.
    pub fn pop(&mut self, deps: &Vec<Vec<usize>>) -> (r: Option<usize>)
        requires
            old(self).wf(table(deps)),
        ensures
            final(self).wf(table(deps)),
            final(self).queue@ == old(self).queue@,
            final(self).done@ == old(self).done@,
            final(self).remaining@ == old(self).remaining@,
            old(self).head < old(self).queue@.len() ==> r == Some(old(self).queue@[old(self).head as int])
                && final(self).head == old(self).head + 1,
            old(self).head >= old(self).queue@.len() ==> r is None && final(self).head == old(self).head,
    {
        if self.head < self.queue.len() {
            let u = self.queue[self.head];
            proof {
                assert forall|t: int|
                    0 <= t < deps@.len() && #[trigger] self.done@[t] implies self.queue@.take(
                        self.head + 1,
                    ).contains(t as usize) by {
                    lemma_take_grow(self.queue@, self.head as int, self.head + 1, t as usize);
                }
            }
            self.head = self.head + 1;
            Some(u)
        } else {
            None
        }
    }

    /// Marks the handed-out task `u` completed: each task that depends on
    /// `u` waits on one dependency less, and those left waiting on none join
    /// the back of the readiness queue, in index order.
    pub fn complete(&mut self, deps: &Vec<Vec<usize>>, u: usize)
        requires
            old(self).wf(table(deps)),
            u < deps@.len(),
            !old(self).done@[u as int],
            old(self).queue@.take(old(self).head as int).contains(u),
        ensures
            final(self).wf(table(deps)),
            final(self).head == old(self).head,
            final(self).done@ == old(self).done@.update(u as int, true),
            final(self).queue@ == old(self).queue@ + unlocked(
                table(deps),
                final(self).done@,
                u,
                deps@.len() as int,
            ),
    {
        let ghost tbl = table(deps);
        let ghost old_done = self.done@;
        let ghost old_rem = self.remaining@;
        let ghost old_queued = self.queued@;
        let ghost old_queue = self.queue@;
        let n = deps.len();
        self.done.set(u, true);
        let ghost nd = self.done@;
        proof {
            assert forall|t: int| 0 <= t < n && #[trigger] nd[t] implies self.queue@.take(
                self.head as int,
            ).contains(t as usize) by {
                if t != u {
                    assert(old_done[t]);
                }
            }
        }
        let mut t: usize = 0;
        while t < n
            invariant
                n == deps@.len(),
                tbl == table(deps),
                deps_wf(tbl),
                u < n,
                t <= n,
                nd == old_done.update(u as int, true),
                self.done@ == nd,
                self.head == old(self).head,
                self.head <= old_queue.len(),
                self.remaining@.len() == n,
                self.queued@.len() == n,
                old_rem.len() == n,
                old_queued.len() == n,
                old_done.len() == n,
                !old_done[u as int],
                forall|j: int|
                    #![trigger self.remaining@[j]]
                    #![trigger self.queued@[j]]
                    0 <= j < n ==> {
                        &&& old_rem[j] == pending(tbl[j], old_done)
                        &&& old_queued[j] == old_queue.contains(j as usize)
                        &&& old_queued[j] == (old_rem[j] == 0)
                        &&& self.queued@[j] == self.queue@.contains(j as usize)
                        &&& j < t ==> self.remaining@[j] == pending(tbl[j], nd)
                        &&& j < t ==> self.queued@[j] == (self.remaining@[j] == 0)
                        &&& j >= t ==> self.remaining@[j] == old_rem[j]
                        &&& j >= t ==> self.queued@[j] == old_queued[j]
                    },
                self.queue@ == old_queue + unlocked(tbl, nd, u, t as int),
                self.queue@.no_duplicates(),
                forall|i: int| 0 <= i < self.queue@.len() ==> (#[trigger] self.queue@[i]) < n,
                forall|j: int|
                    0 <= j < n && #[trigger] nd[j] ==> self.queue@.take(self.head as int).contains(
                        j as usize,
                    ),
                forall|i: int, k: int|
                    0 <= i < self.queue@.len() && 0 <= k < tbl[self.queue@[i] as int].len()
                        ==> #[trigger] self.queue@.take(i).contains(
                        #[trigger] tbl[self.queue@[i] as int][k],
                    ),
            decreases n - t,
        {
            let ghost q0 = self.queue@;
            let ghost r0 = self.remaining@;
            let ghost u0 = self.queued@;
            proof {
                assert(tbl[t as int] == deps@[t as int]@);
                lemma_pending_update(tbl[t as int], old_done, u);
                assert(r0[t as int] == old_rem[t as int]);
            }
            if contains_task(&deps[t], u) {
                let c = self.remaining[t] - 1;
                self.remaining.set(t, c);
                if c == 0 {
                    proof {
                        assert(!old_queue.contains(t));
                        assert(!q0.contains(t)) by {
                            if q0.contains(t) {
                                let i = choose|i: int| 0 <= i < q0.len() && q0[i] == t;
                                if i >= old_queue.len() {
                                    assert(u0[t as int]);
                                }
                                assert(old_queue[i] == t);
                            }
                        }
                        lemma_pending_zero(tbl[t as int], nd);
                        assert forall|k: int| 0 <= k < tbl[t as int].len() implies q0.take(
                            q0.len() as int,
                        ).contains(#[trigger] tbl[t as int][k]) by {
                            let d = tbl[t as int][k];
                            assert(nd[d as int]);
                            lemma_take_grow(q0, self.head as int, q0.len() as int, d);
                        }
                    }
                    self.queue.push(t);
                    self.queued.set(t, true);
                    proof {
                        let q = self.queue@;
                        assert(q0.take(q0.len() as int) == q.take(q0.len() as int));
                        assert forall|j: int| 0 <= j < n implies (#[trigger] self.queued@[j])
                            == q.contains(j as usize) by {
                            if j != t {
                                assert(u0[j] == self.queued@[j]);
                                if q.contains(j as usize) {
                                    let i = choose|i: int| 0 <= i < q.len() && q[i] == j as usize;
                                    assert(q0[i] == j);
                                }
                                if q0.contains(j as usize) {
                                    let i = choose|i: int| 0 <= i < q0.len() && q0[i] == j as usize;
                                    assert(q[i] == j);
                                }
                            } else {
                                assert(q[q.len() - 1] == t);
                            }
                        }
                        assert forall|i: int, k: int|
                            0 <= i < q.len() && 0 <= k < tbl[q[i] as int].len() implies #[trigger] q.take(
                                i,
                            ).contains(#[trigger] tbl[q[i] as int][k]) by {
                            if i < q0.len() {
                                assert(q0[i] == q[i]);
                                assert(q0.take(i).contains(tbl[q0[i] as int][k]));
                                assert(q0.take(i) == q.take(i));
                            } else {
                                assert(q.take(i) == q0.take(q0.len() as int));
                            }
                        }
                        assert forall|j: int|
                            0 <= j < n && #[trigger] nd[j] implies q.take(self.head as int).contains(
                                j as usize,
                            ) by {
                            assert(q0.take(self.head as int) == q.take(self.head as int));
                        }
                    }
                }
            }
            proof {
                assert(unlocked(tbl, nd, u, t + 1) == unlocked(tbl, nd, u, t as int) + if tbl[t as int].contains(u)
                    && pending(tbl[t as int], nd) == 0 {
                    seq![t]
                } else {
                    Seq::empty()
                });
                if !tbl[t as int].contains(u) || pending(tbl[t as int], nd) != 0 {
                    assert(self.queue@ == q0);
                    assert(q0 + Seq::<usize>::empty() == q0);
                }
                assert forall|j: int| 0 <= j < n implies {
                    &&& old_rem[j] == pending(tbl[j], old_done)
                    &&& old_queued[j] == old_queue.contains(j as usize)
                    &&& old_queued[j] == (old_rem[j] == 0)
                    &&& self.queued@[j] == self.queue@.contains(j as usize)
                    &&& j < t + 1 ==> self.remaining@[j] == pending(tbl[j], nd)
                    &&& j < t + 1 ==> self.queued@[j] == (self.remaining@[j] == 0)
                    &&& j >= t + 1 ==> self.remaining@[j] == old_rem[j]
                    &&& j >= t + 1 ==> self.queued@[j] == old_queued[j]
                } by {
                    assert(r0[j] == r0[j]);
                    assert(u0[j] == u0[j]);
                    if j != t {
                        assert(self.remaining@[j] == r0[j]);
                    }
                    if self.queue@ == q0 {
                        assert(self.queued@[j] == u0[j]);
                    }
                }
            }
            t = t + 1;
        }
    }
}

/// The index of an entry of `ds` that names a task not marked in `flags`;
/// one exists.
fn first_unmarked(ds: &Vec<usize>, flags: &Vec<bool>) -> (k: usize)
    requires
        exists|k: int| 0 <= k < ds@.len() && ds@[k] < flags@.len() && !flags@[ds@[k] as int],
        forall|k: int| 0 <= k < ds@.len() ==> (#[trigger] ds@[k]) < flags@.len(),
    ensures
        k < ds@.len(),
        !flags@[ds@[k as int] as int],
{
    let mut i: usize = 0;
    while i < ds.len()
        invariant
            i <= ds@.len(),
            forall|j: int| 0 <= j < i ==> flags@[(#[trigger] ds@[j]) as int],
            exists|k: int| 0 <= k < ds@.len() && ds@[k] < flags@.len() && !flags@[ds@[k] as int],
            forall|k: int| 0 <= k < ds@.len() ==> (#[trigger] ds@[k]) < flags@.len(),
        decreases ds@.len() - i,
    {
        if !flags[ds[i]] {
            return i;
        }
        i = i + 1;
    }
    proof {
        let k = choose|k: int| 0 <= k < ds@.len() && ds@[k] < flags@.len() && !flags@[ds@[k] as int];
        assert(flags@[ds@[k] as int]);
    }
    0
}

/// Runs readiness propagation to its end, every task succeeding. On an
/// acyclic table the result is the order in which the tasks became ready;
/// otherwise it is a cycle among the tasks that never did.
#[verifier::rlimit(60)]
#[verifier::spinoff_prover]
pub fn ready_order(deps: &Vec<Vec<usize>>) -> (r: Result<Vec<usize>, Vec<usize>>)
    requires
        deps_wf(table(deps)),
    ensures
        r is Ok <==> is_acyclic(table(deps)),
        r matches Ok(order) ==> is_topo_order(table(deps), order@) && order@ == fifo_queue(
            table(deps),
            deps@.len(),
        ),
        r matches Err(c) ==> is_cycle(table(deps), c@),
{
    let ghost tbl = table(deps);
    let n = deps.len();
    let mut rd = Readiness::new(deps);
    while rd.head < rd.queue.len()
        invariant
            rd.wf(tbl),
            tbl == table(deps),
            n == deps@.len(),
            forall|t: int|
                0 <= t < n ==> (#[trigger] rd.done@[t] <==> rd.queue@.take(rd.head as int).contains(
                    t as usize,
                )),
            rd.queue@ == fifo_queue(tbl, rd.head as nat),
        decreases n - rd.head,
    {
        proof {
            lemma_distinct_below(rd.queue@, n);
        }
        let ghost h = rd.head as int;
        let ghost d0 = rd.done@;
        let ghost q0 = rd.queue@;
        let u = match rd.pop(deps) {
            Some(u) => u,
            None => 0,
        };
        proof {
            assert(q0.take(h + 1) == q0.take(h).push(u));
            assert(q0.take(h + 1)[h] == u);
            assert(rd.queue@.take(rd.head as int).contains(u));
            assert(!rd.done@[u as int]) by {
                if q0.take(h).contains(u) {
                    let j = choose|j: int| 0 <= j < h && q0.take(h)[j] == u;
                    assert(q0[j] == q0[h]);
                }
            }
        }
        proof {
            assert forall|t: int| 0 <= t < n implies d0.update(u as int, true)[t] == marks(n as nat, q0, h + 1)[t] by {
                if t != u {
                    if q0.take(h + 1).contains(t as usize) {
                        let q1 = q0.take(h + 1);
                        let j = choose|j: int| 0 <= j < q1.len() && q1[j] == t as usize;
                        assert(q1[h] == u);
                        assert(j < h);
                        assert(q0.take(h)[j] == t as usize);
                    }
                    if q0.take(h).contains(t as usize) {
                        let j = choose|j: int| 0 <= j < h && q0.take(h)[j] == t as usize;
                        assert(q0.take(h + 1)[j] == t as usize);
                    }
                } else {
                    assert(q0.take(h + 1)[h] == u);
                }
            }
            assert(d0.update(u as int, true) =~= marks(n as nat, q0, h + 1));
        }
        rd.complete(deps, u);
        proof {
            let q = rd.queue@;
            assert(q.take(h) == q0.take(h));
            assert(q.take(h + 1) == q0.take(h + 1));
            assert(fifo_queue(tbl, (h + 1) as nat) == q);
            assert forall|t: int| 0 <= t < n implies (#[trigger] rd.done@[t] <==> q.take(
                rd.head as int,
            ).contains(t as usize)) by {
                if t != u {
                    assert(d0[t] == rd.done@[t]);
                    if q0.take(h + 1).contains(t as usize) {
                        let q1 = q0.take(h + 1);
                        let j = choose|j: int| 0 <= j < q1.len() && q1[j] == t as usize;
                        assert(q0.take(h)[j] == t as usize);
                    }
                    if q0.take(h).contains(t as usize) {
                        let j = choose|j: int| 0 <= j < h && q0.take(h)[j] == t as usize;
                        assert(q0.take(h + 1)[j] == t as usize);
                    }
                } else {
                    assert(q0.take(h + 1)[h] == u);
                }
            }
        }
    }
    proof {
        assert(rd.queue@.take(rd.head as int) == rd.queue@);
    }
    proof {
        assert forall|x: int| 0 <= x < n implies (#[trigger] rd.done@[x] <==> rd.queued@[x]) by {
            assert(rd.remaining@[x] == rd.remaining@[x]);
        }
    }
    let mut t: usize = 0;
    while t < n && rd.queued[t]
        invariant
            rd.wf(tbl),
            tbl == table(deps),
            n == deps@.len(),
            t <= n,
            forall|j: int| 0 <= j < t ==> #[trigger] rd.queued@[j],
        decreases n - t,
    {
        t = t + 1;
    }
    if t == n {
        proof {
            lemma_distinct_below(rd.queue@, n);
            lemma_fifo_queue_stable(tbl, rd.head as nat, (n - rd.head) as nat);
            assert forall|j: usize| j < n implies #[trigger] rd.queue@.contains(j) by {
                assert(rd.queued@[j as int]);
            }
            assert(rd.queue@.take(rd.queue@.len() as int) == rd.queue@);
            assert(is_topo_order(tbl, rd.queue@));
        }
        return Ok(rd.queue);
    }
    proof {
        assert(!rd.queued@[t as int]);
    }
    let mut walk: Vec<usize> = Vec::new();
    walk.push(t);
    let mut on_walk: Vec<bool> = Vec::new();
    let mut j: usize = 0;
    while j < n
        invariant
            j <= n,
            on_walk@.len() == j,
            forall|i: int| 0 <= i < j ==> (#[trigger] on_walk@[i]) == (i == t),
        decreases n - j,
    {
        on_walk.push(j == t);
        j = j + 1;
    }
    proof {
        assert forall|x: usize| x < n implies (#[trigger] on_walk@[x as int]) == walk@.contains(x) by {
            if x == t {
                assert(walk@[0] == t);
            }
        }
    }
    loop
        invariant
            rd.wf(tbl),
            tbl == table(deps),
            n == deps@.len(),
            forall|x: int| 0 <= x < n ==> (#[trigger] rd.done@[x] <==> rd.queued@[x]),
            walk@.len() >= 1,
            walk@.no_duplicates(),
            forall|i: int| 0 <= i < walk@.len() ==> (#[trigger] walk@[i]) < n,
            forall|i: int| 0 <= i < walk@.len() ==> !rd.queued@[(#[trigger] walk@[i]) as int],
            forall|i: int|
                0 <= i < walk@.len() - 1 ==> #[trigger] tbl[walk@[i] as int].contains(walk@[i + 1]),
            on_walk@.len() == n,
            forall|x: usize| x < n ==> (#[trigger] on_walk@[x as int]) == walk@.contains(x),
        decreases n - walk@.len(),
    {
        proof {
            lemma_distinct_below(walk@, n);
        }
        let cur = walk[walk.len() - 1];
        proof {
            let w = walk@.len() - 1;
            assert(!rd.queued@[walk@[w] as int]);
            assert(rd.remaining@[cur as int] != 0);
            lemma_pending_zero(tbl[cur as int], rd.done@);
            let k = choose|k: int| 0 <= k < tbl[cur as int].len() && !rd.done@[tbl[cur as int][k] as int];
            assert(tbl[cur as int][k] < n);
            assert(tbl[cur as int] == deps@[cur as int]@);
        }
        let k = first_unmarked(&deps[cur], &rd.queued);
        let d = deps[cur][k];
        proof {
            assert(tbl[cur as int] == deps@[cur as int]@);
            assert(tbl[cur as int][k as int] == d);
            assert(tbl[cur as int].contains(d));
        }
        if on_walk[d] {
            let mut p: usize = 0;
            while walk[p] != d
                invariant
                    0 <= p < walk@.len(),
                    walk@.len() <= n,
                    walk@.contains(d),
                    forall|i: int| 0 <= i < p ==> walk@[i] != d,
                decreases walk@.len() - p,
            {
                p = p + 1;
                proof {
                    if p == walk@.len() {
                        let i = choose|i: int| 0 <= i < walk@.len() && walk@[i] == d;
                        assert(walk@[i] != d);
                    }
                }
            }
            let mut c: Vec<usize> = Vec::new();
            let mut i: usize = p;
            while i < walk.len()
                invariant
                    p <= i <= walk@.len(),
                    c@ == walk@.subrange(p as int, i as int),
                decreases walk@.len() - i,
            {
                c.push(walk[i]);
                i = i + 1;
            }
            proof {
                let cs = c@;
                assert(cs == walk@.subrange(p as int, walk@.len() as int));
                assert forall|a: int| 0 <= a < cs.len() - 1 implies #[trigger] tbl[cs[a] as int].contains(
                    cs[a + 1],
                ) by {
                    assert(cs[a] == walk@[p + a]);
                    assert(cs[a + 1] == walk@[p + a + 1]);
                }
                assert(cs.last() == cur);
                assert(cs[0] == d);
                assert(is_cycle(tbl, cs));
                lemma_cycle_not_acyclic(tbl, cs);
            }
            return Err(c);
        }
        let ghost w0 = walk@;
        let ghost ow = on_walk@;
        walk.push(d);
        on_walk.set(d, true);
        proof {
            assert(!rd.queued@[d as int]);
            let w = walk@;
            assert(w.drop_last() == w0);
            assert(!w0.contains(d)) by {
                assert(!ow[d as int]);
            }
            assert(w.no_duplicates()) by {
                assert forall|a: int, b: int| 0 <= a < w.len() && 0 <= b < w.len() && a != b implies w[a] != w[b] by {
                    if a == w.len() - 1 {
                        assert(w0[b] == w[b]);
                    } else if b == w.len() - 1 {
                        assert(w0[a] == w[a]);
                    } else {
                        assert(w0[a] == w[a] && w0[b] == w[b]);
                    }
                }
            }
            assert forall|i: int| 0 <= i < w.len() - 1 implies #[trigger] tbl[w[i] as int].contains(
                w[i + 1],
            ) by {
                if i == w.len() - 2 {
                    assert(w[i] == cur);
                }
            }
            assert forall|x: usize| x < n implies (#[trigger] on_walk@[x as int]) == w.contains(x) by {
                if x == d {
                    assert(w[w.len() - 1] == d);
                } else {
                    assert(ow[x as int] == on_walk@[x as int]);
                    if w.contains(x) {
                        let i = choose|i: int| 0 <= i < w.len() && w[i] == x;
                        assert(w.drop_last()[i] == x);
                    }
                    if w.drop_last().contains(x) {
                        let i = choose|i: int| 0 <= i < w.len() - 1 && w.drop_last()[i] == x;
                        assert(w[i] == x);
                    }
                }
            }
            lemma_distinct_below(w, n);
        }
    }
}

} // verus!
