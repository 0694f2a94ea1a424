use vstd::prelude::*;
use crate::config::ProcessState;
use crate::config::RestartStrategy;
use crate::config::SupervisorConfig;
use crate::record::ProcessRecord;
use crate::record::pruned;
use crate::record::prune_times;

verus! {

/// One dependency-graph entry: the processes that `process` depends on.
pub struct DepEntry {
    /// The dependent process.
    pub process: String,
    /// The processes it depends on, in declaration order.
    pub depends_on: Vec<String>,
}

/// The supervision engine: the process registry, the configuration, and the
/// dependency graph. The host owns one instance behind its own mutual
/// exclusion; every operation here runs to completion on the exclusive value.
pub struct Supervisor {
    /// The registry: one record per registered name, in registration order.
    /// Records are never removed.
    pub processes: Vec<ProcessRecord>,
    /// Configuration, never changed after construction.
    pub config: SupervisorConfig,
    /// The dependency graph, one entry per dependent process.
    pub dependencies: Vec<DepEntry>,
}

/// No two records carry the same name.
pub open spec fn unique_names(procs: Seq<ProcessRecord>) -> bool {
    forall|i: int, j: int|
        0 <= i < j < procs.len() ==> (#[trigger] procs[i]).name@ != (#[trigger] procs[j]).name@
}

/// Some record carries this name.
pub open spec fn has_name(procs: Seq<ProcessRecord>, name: Seq<char>) -> bool {
    exists|i: int| 0 <= i < procs.len() && (#[trigger] procs[i]).name@ == name
}

/// The index of the record carrying this name; meaningful under
/// `unique_names` and `has_name`.
pub open spec fn idx_of(procs: Seq<ProcessRecord>, name: Seq<char>) -> int {
    choose|i: int| 0 <= i < procs.len() && (#[trigger] procs[i]).name@ == name
}

/// The registered names, in registration order.
pub open spec fn names(procs: Seq<ProcessRecord>) -> Seq<Seq<char>> {
    procs.map_values(|r: ProcessRecord| r.name@)
}

/// The names a list of strings reads as, in order.
pub open spec fn views(ss: Seq<String>) -> Seq<Seq<char>> {
    ss.map_values(|s: String| s@)
}

/// Some element of the list reads as this name.
pub open spec fn list_has(ss: Seq<String>, x: Seq<char>) -> bool {
    exists|j: int| 0 <= j < ss.len() && (#[trigger] ss[j])@ == x
}

/// The graph records that `p` depends on `d`.
pub open spec fn dep_recorded(deps: Seq<DepEntry>, p: Seq<char>, d: Seq<char>) -> bool {
    exists|i: int|
        0 <= i < deps.len() && (#[trigger] deps[i]).process@ == p && list_has(
            deps[i].depends_on@,
            d,
        )
}

/// No two dependency entries carry the same dependent process.
pub open spec fn dep_keys_unique(deps: Seq<DepEntry>) -> bool {
    forall|i: int, j: int|
        0 <= i < j < deps.len() ==> (#[trigger] deps[i]).process@ != (#[trigger] deps[j]).process@
}

/// The direct dependents of `failed`, in graph order: every process whose
/// entry lists `failed` among the processes it depends on.
pub open spec fn dependents_of(deps: Seq<DepEntry>, failed: Seq<char>) -> Seq<Seq<char>>
    decreases deps.len(),
{
    if deps.len() == 0 {
        Seq::empty()
    } else if list_has(deps.last().depends_on@, failed) {
        dependents_of(deps.drop_last(), failed).push(deps.last().process@)
    } else {
        dependents_of(deps.drop_last(), failed)
    }
}

/// The names and handles of the records currently holding a handle, in
/// registry order: the processes a monitor has to poll.
pub open spec fn handled(procs: Seq<ProcessRecord>) -> Seq<(Seq<char>, u64)>
    decreases procs.len(),
{
    if procs.len() == 0 {
        Seq::empty()
    } else if procs.last().handle is Some {
        handled(procs.drop_last()).push((procs.last().name@, procs.last().handle->0))
    } else {
        handled(procs.drop_last())
    }
}

/// The restart set for one observed failure, as the configured strategy
/// computes it.
pub open spec fn restart_set_spec(s: Supervisor, failed: Seq<char>) -> Seq<Seq<char>> {
    match s.config.restart_strategy {
        RestartStrategy::OneForOne => seq![failed],
        RestartStrategy::OneForAll => names(s.processes@),
        RestartStrategy::RestForOne => seq![failed] + dependents_of(s.dependencies@, failed),
    }
}

/// Every record Stopped in `a` is still there, under the same name, and
/// still Stopped in `b`: the terminal state survives any operation.
pub open spec fn preserves_stopped(a: Supervisor, b: Supervisor) -> bool {
    forall|i: int|
        0 <= i < a.processes@.len() && (#[trigger] a.processes@[i]).state is Stopped ==> i
            < b.processes@.len() && b.processes@[i].name@ == a.processes@[i].name@
            && b.processes@[i].state is Stopped
}

/// Under unique names, the record found at `i` is the record of its name.
pub proof fn lemma_idx_unique(procs: Seq<ProcessRecord>, i: int, name: Seq<char>)
    requires
        unique_names(procs),
        0 <= i < procs.len(),
        procs[i].name@ == name,
    ensures
        has_name(procs, name),
        idx_of(procs, name) == i,
{
    assert(has_name(procs, name));
    let k = idx_of(procs, name);
    if k != i {
        if k < i {
            assert(procs[k].name@ != procs[i].name@);
        } else {
            assert(procs[i].name@ != procs[k].name@);
        }
    }
}

/// Finds the record carrying this name.
fn lookup(procs: &Vec<ProcessRecord>, name: &String) -> (r: Option<usize>)
    ensures
        match r {
            Some(i) => i < procs@.len() && procs@[i as int].name@ == name@,
            None => !has_name(procs@, name@),
        },
{
    let mut i: usize = 0;
    while i < procs.len()
        invariant
            i <= procs@.len(),
            forall|j: int| 0 <= j < i ==> (#[trigger] procs@[j]).name@ != name@,
        decreases procs@.len() - i,
    {
        if procs[i].name == *name {
            return Some(i);
        }
        i += 1;
    }
    None
}

/// Finds the dependency entry of this dependent process.
fn dep_lookup(deps: &Vec<DepEntry>, name: &String) -> (r: Option<usize>)
    ensures
        match r {
            Some(i) => i < deps@.len() && deps@[i as int].process@ == name@,
            None => forall|j: int| 0 <= j < deps@.len() ==> (#[trigger] deps@[j]).process@ != name@,
        },
{
    let mut i: usize = 0;
    while i < deps.len()
        invariant
            i <= deps@.len(),
            forall|j: int| 0 <= j < i ==> (#[trigger] deps@[j]).process@ != name@,
        decreases deps@.len() - i,
    {
        if deps[i].process == *name {
            return Some(i);
        }
        i += 1;
    }
    None
}

/// Whether some element of the list equals this name.
fn list_contains(ss: &Vec<String>, x: &String) -> (r: bool)
    ensures
        r == list_has(ss@, x@),
{
    let mut i: usize = 0;
    while i < ss.len()
        invariant
            i <= ss@.len(),
            forall|j: int| 0 <= j < i ==> (#[trigger] ss@[j])@ != x@,
        decreases ss@.len() - i,
    {
        if ss[i] == *x {
            return true;
        }
        i += 1;
    }
    false
}

impl Supervisor {
    /// The registry is well formed: names are unique, every record's handle
    /// matches its state, and dependency entries have unique keys.
    pub open spec fn wf(self) -> bool {
        &&& unique_names(self.processes@)
        &&& forall|i: int| 0 <= i < self.processes@.len() ==> (#[trigger] self.processes@[i]).wf()
        &&& dep_keys_unique(self.dependencies@)
    }

    /// Creates a supervisor with the given configuration and an empty
    /// registry and dependency graph.
    pub fn new(config: SupervisorConfig) -> (s: Supervisor)
        ensures
            s.wf(),
            s.processes@.len() == 0,
            s.dependencies@.len() == 0,
            s.config == config,
    {
        Supervisor { processes: Vec::new(), config, dependencies: Vec::new() }
    }

    /// Registers a new process under this name, already started by the host:
    /// `handle` is the liveness token of its first instance. The record
    /// starts Running with an empty restart history. A name already
    /// registered is rejected and nothing changes.
    pub fn add_process(&mut self, name: String, handle: u64) -> (added: bool)
        requires
            old(self).wf(),
        ensures
            final(self).wf(),
            final(self).config == old(self).config,
            final(self).dependencies == old(self).dependencies,
            added == !has_name(old(self).processes@, name@),
            !added ==> *final(self) == *old(self),
            added ==> {
                let procs1 = final(self).processes@;
                &&& procs1.len() == old(self).processes@.len() + 1
                &&& procs1.take(old(self).processes@.len() as int) == old(self).processes@
                &&& procs1.last().name@ == name@
                &&& procs1.last().handle == Some(handle)
                &&& procs1.last().restart_times@.len() == 0
                &&& procs1.last().state is Running
            },
            preserves_stopped(*old(self), *final(self)),
    {
        if lookup(&self.processes, &name).is_some() {
            return false;
        }
        let rec = ProcessRecord {
            name,
            handle: Some(handle),
            restart_times: Vec::new(),
            state: ProcessState::Running,
        };
        self.processes.push(rec);
        proof {
            let procs0 = old(self).processes@;
            let procs1 = self.processes@;
            assert(procs1.take(procs0.len() as int) =~= procs0);
            assert forall|i: int, j: int| 0 <= i < j < procs1.len() implies (
            #[trigger] procs1[i]).name@ != (#[trigger] procs1[j]).name@ by {
                if j == procs0.len() as int {
                    assert(!has_name(procs0, procs1[j].name@));
                    assert(procs0[i].name@ != procs1[j].name@);
                }
            }
        }
        true
    }

    /// Forces the named process to the terminal Stopped state from whatever
    /// state it is in, dropping its handle without replacement; its restart
    /// history is kept. Returns whether the name was registered.
    pub fn stop_process(&mut self, name: &String) -> (found: bool)
        requires
            old(self).wf(),
        ensures
            final(self).wf(),
            final(self).config == old(self).config,
            final(self).dependencies == old(self).dependencies,
            final(self).processes@.len() == old(self).processes@.len(),
            found == has_name(old(self).processes@, name@),
            !found ==> *final(self) == *old(self),
            found ==> {
                let i = idx_of(old(self).processes@, name@);
                let r0 = old(self).processes@[i];
                let r1 = final(self).processes@[i];
                &&& final(self).processes@ == old(self).processes@.update(i, r1)
                &&& r1.name == r0.name
                &&& r1.restart_times == r0.restart_times
                &&& r1.state is Stopped
                &&& r1.handle is None
            },
            preserves_stopped(*old(self), *final(self)),
    {
        match lookup(&self.processes, name) {
            Some(i) => {
                proof {
                    lemma_idx_unique(self.processes@, i as int, name@);
                }
                let rec = &mut self.processes[i];
                rec.state = ProcessState::Stopped;
                rec.handle = None;
                proof {
                    assert(self.processes@ =~= old(self).processes@.update(
                        i as int,
                        self.processes@[i as int],
                    ));
                }
                true
            },
            None => false,
        }
    }

    /// Records that the monitor observed the named process's handle
    /// finished. A Running record moves to Failed, loses its handle, and has
    /// its restart history pruned to the sliding window ending at `now`; the
    /// result says whether the pruned count is still below the ceiling. A
    /// record in any other state, or an unknown name, is left untouched and
    /// reported ineligible.
    pub fn observe_failure(&mut self, name: &String, now: u64) -> (eligible: bool)
        requires
            old(self).wf(),
        ensures
            final(self).wf(),
            final(self).config == old(self).config,
            final(self).dependencies == old(self).dependencies,
            final(self).processes@.len() == old(self).processes@.len(),
            !has_name(old(self).processes@, name@) ==> *final(self) == *old(self) && !eligible,
            has_name(old(self).processes@, name@) ==> {
                let i = idx_of(old(self).processes@, name@);
                let r0 = old(self).processes@[i];
                let r1 = final(self).processes@[i];
                &&& final(self).processes@ == old(self).processes@.update(i, r1)
                &&& if r0.state is Running {
                    let kept = pruned(r0.restart_times@, now, old(self).config.max_time_ms);
                    &&& r1.name == r0.name
                    &&& r1.handle is None
                    &&& r1.restart_times@ == kept
                    &&& (eligible <==> kept.len() < old(self).config.max_restarts)
                    &&& r1.state == (if eligible {
                        ProcessState::Failed
                    } else {
                        ProcessState::Stopped
                    })
                } else {
                    r1 == r0 && !eligible
                }
            },
            preserves_stopped(*old(self), *final(self)),
    {
        match lookup(&self.processes, name) {
            Some(i) => {
                proof {
                    lemma_idx_unique(self.processes@, i as int, name@);
                }
                if self.processes[i].state == ProcessState::Running {
                    let kept = prune_times(
                        &self.processes[i].restart_times,
                        now,
                        self.config.max_time_ms,
                    );
                    let eligible = kept.len() < self.config.max_restarts;
                    let rec = &mut self.processes[i];
                    rec.handle = None;
                    rec.restart_times = kept;
                    rec.state = if eligible {
                        ProcessState::Failed
                    } else {
                        ProcessState::Stopped
                    };
                    proof {
                        assert(self.processes@ =~= old(self).processes@.update(
                            i as int,
                            self.processes@[i as int],
                        ));
                    }
                    eligible
                } else {
                    proof {
                        assert(self.processes@ =~= old(self).processes@.update(
                            i as int,
                            self.processes@[i as int],
                        ));
                    }
                    false
                }
            },
            None => false,
        }
    }

    /// Marks the named process Restarting, ahead of the host invoking its
    /// factory. Allowed from any state but the terminal Stopped; the old
    /// handle, if any, is dropped. Returns whether the restart may proceed.
    pub fn begin_restart(&mut self, name: &String) -> (go: bool)
        requires
            old(self).wf(),
        ensures
            final(self).wf(),
            final(self).config == old(self).config,
            final(self).dependencies == old(self).dependencies,
            final(self).processes@.len() == old(self).processes@.len(),
            go == (has_name(old(self).processes@, name@) && !(old(self).processes@[idx_of(
                old(self).processes@,
                name@,
            )].state is Stopped)),
            !go ==> *final(self) == *old(self),
            go ==> {
                let i = idx_of(old(self).processes@, name@);
                let r0 = old(self).processes@[i];
                let r1 = final(self).processes@[i];
                &&& final(self).processes@ == old(self).processes@.update(i, r1)
                &&& r1.name == r0.name
                &&& r1.restart_times == r0.restart_times
                &&& r1.state is Restarting
                &&& r1.handle is None
            },
            preserves_stopped(*old(self), *final(self)),
    {
        match lookup(&self.processes, name) {
            Some(i) => {
                proof {
                    lemma_idx_unique(self.processes@, i as int, name@);
                }
                if self.processes[i].state == ProcessState::Stopped {
                    false
                } else {
                    let rec = &mut self.processes[i];
                    rec.state = ProcessState::Restarting;
                    rec.handle = None;
                    proof {
                        assert(self.processes@ =~= old(self).processes@.update(
                            i as int,
                            self.processes@[i as int],
                        ));
                    }
                    true
                }
            },
            None => false,
        }
    }

    /// Installs the fresh instance the host's factory produced: the named
    /// process, if still Restarting, gains the new handle, appends `now` to
    /// its restart history, and moves back to Running. Any other state —
    /// for instance Stopped by a concurrent stop that won the race — leaves
    /// the record untouched, so a lost race never corrupts it. Returns
    /// whether the restart was applied.
    pub fn complete_restart(&mut self, name: &String, handle: u64, now: u64) -> (done: bool)
        requires
            old(self).wf(),
        ensures
            final(self).wf(),
            final(self).config == old(self).config,
            final(self).dependencies == old(self).dependencies,
            final(self).processes@.len() == old(self).processes@.len(),
            done == (has_name(old(self).processes@, name@) && old(self).processes@[idx_of(
                old(self).processes@,
                name@,
            )].state is Restarting),
            !done ==> *final(self) == *old(self),
            done ==> {
                let i = idx_of(old(self).processes@, name@);
                let r0 = old(self).processes@[i];
                let r1 = final(self).processes@[i];
                &&& final(self).processes@ == old(self).processes@.update(i, r1)
                &&& r1.name == r0.name
                &&& r1.restart_times@ == r0.restart_times@.push(now)
                &&& r1.state is Running
                &&& r1.handle == Some(handle)
            },
            preserves_stopped(*old(self), *final(self)),
    {
        match lookup(&self.processes, name) {
            Some(i) => {
                proof {
                    lemma_idx_unique(self.processes@, i as int, name@);
                }
                if self.processes[i].state == ProcessState::Restarting {
                    let rec = &mut self.processes[i];
                    rec.state = ProcessState::Running;
                    rec.handle = Some(handle);
                    rec.restart_times.push(now);
                    proof {
                        assert(self.processes@ =~= old(self).processes@.update(
                            i as int,
                            self.processes@[i as int],
                        ));
                    }
                    true
                } else {
                    false
                }
            },
            None => false,
        }
    }

    /// Declares that `process` depends on `depends_on`. Purely additive: no
    /// validation against registered names, and restart decisions read the
    /// graph as it stands. Afterwards the graph records exactly the old
    /// pairs plus this one.
    pub fn add_dependency(&mut self, process: String, depends_on: String)
        requires
            old(self).wf(),
        ensures
            final(self).wf(),
            final(self).processes == old(self).processes,
            final(self).config == old(self).config,
            forall|p: Seq<char>, d: Seq<char>|
                #[trigger] dep_recorded(final(self).dependencies@, p, d) <==> (dep_recorded(
                    old(self).dependencies@,
                    p,
                    d,
                ) || (p == process@ && d == depends_on@)),
            preserves_stopped(*old(self), *final(self)),
    {
        let ghost deps0 = self.dependencies@;
        let ghost pname = process@;
        let ghost dname = depends_on@;
        match dep_lookup(&self.dependencies, &process) {
            Some(k) => {
                let entry = &mut self.dependencies[k];
                entry.depends_on.push(depends_on);
                proof {
                    let deps1 = self.dependencies@;
                    let ki = k as int;
                    assert(deps1 =~= deps0.update(ki, deps1[ki]));
                    assert(deps1[ki].process == deps0[ki].process);
                    assert(deps1[ki].depends_on@ == deps0[ki].depends_on@.push(
                        deps1[ki].depends_on@.last(),
                    ));
                    assert(deps1[ki].depends_on@.last()@ == dname);
                    assert forall|p: Seq<char>, d: Seq<char>| #[trigger] dep_recorded(deps1, p, d)
                        <==> (dep_recorded(deps0, p, d) || (p == pname && d == dname)) by {
                        if dep_recorded(deps1, p, d) {
                            let i = choose|i: int|
                                0 <= i < deps1.len() && (#[trigger] deps1[i]).process@ == p
                                    && list_has(deps1[i].depends_on@, d);
                            if i != ki {
                                assert(deps1[i] == deps0[i]);
                                assert(dep_recorded(deps0, p, d));
                            } else {
                                assert(p == pname);
                                let j = choose|j: int|
                                    0 <= j < deps1[ki].depends_on@.len() && (#[trigger] deps1[
                                    ki].depends_on@[j])@ == d;
                                if j < deps0[ki].depends_on@.len() {
                                    assert(deps0[ki].depends_on@[j]@ == d);
                                    assert(list_has(deps0[ki].depends_on@, d));
                                    assert(dep_recorded(deps0, p, d));
                                } else {
                                    assert(d == dname);
                                }
                            }
                        }
                        if dep_recorded(deps0, p, d) {
                            let i = choose|i: int|
                                0 <= i < deps0.len() && (#[trigger] deps0[i]).process@ == p
                                    && list_has(deps0[i].depends_on@, d);
                            if i != ki {
                                assert(deps1[i] == deps0[i]);
                                assert(deps1[i].process@ == p && list_has(deps1[i].depends_on@, d));
                                assert(dep_recorded(deps1, p, d));
                            } else {
                                let j = choose|j: int|
                                    0 <= j < deps0[ki].depends_on@.len() && (#[trigger] deps0[
                                    ki].depends_on@[j])@ == d;
                                assert(deps1[ki].depends_on@[j]@ == d);
                                assert(list_has(deps1[ki].depends_on@, d));
                                assert(dep_recorded(deps1, p, d));
                            }
                        }
                        if p == pname && d == dname {
                            let m = deps1[ki].depends_on@.len() - 1;
                            assert(deps1[ki].depends_on@[m]@ == d);
                            assert(list_has(deps1[ki].depends_on@, d));
                            assert(deps1[ki].process@ == p);
                            assert(dep_recorded(deps1, p, d));
                        }
                    }
                }
            },
            None => {
                let mut ds: Vec<String> = Vec::new();
                ds.push(depends_on);
                let entry = DepEntry { process, depends_on: ds };
                self.dependencies.push(entry);
                proof {
                    let deps1 = self.dependencies@;
                    let ki = deps0.len() as int;
                    assert(deps1[ki].process@ == pname);
                    assert(deps1[ki].depends_on@.len() == 1);
                    assert(deps1[ki].depends_on@[0]@ == dname);
                    assert forall|i: int, j: int| 0 <= i < j < deps1.len() implies (
                    #[trigger] deps1[i]).process@ != (#[trigger] deps1[j]).process@ by {
                        if j == ki {
                            assert(deps0[i].process@ != pname);
                        }
                    }
                    assert forall|p: Seq<char>, d: Seq<char>| #[trigger] dep_recorded(deps1, p, d)
                        <==> (dep_recorded(deps0, p, d) || (p == pname && d == dname)) by {
                        if dep_recorded(deps1, p, d) {
                            let i = choose|i: int|
                                0 <= i < deps1.len() && (#[trigger] deps1[i]).process@ == p
                                    && list_has(deps1[i].depends_on@, d);
                            if i != ki {
                                assert(deps1[i] == deps0[i]);
                                assert(dep_recorded(deps0, p, d));
                            } else {
                                let j = choose|j: int|
                                    0 <= j < deps1[ki].depends_on@.len() && (#[trigger] deps1[
                                    ki].depends_on@[j])@ == d;
                                assert(j == 0);
                                assert(d == dname);
                            }
                        }
                        if dep_recorded(deps0, p, d) {
                            let i = choose|i: int|
                                0 <= i < deps0.len() && (#[trigger] deps0[i]).process@ == p
                                    && list_has(deps0[i].depends_on@, d);
                            assert(deps1[i] == deps0[i]);
                            assert(deps1[i].process@ == p && list_has(deps1[i].depends_on@, d));
                            assert(dep_recorded(deps1, p, d));
                        }
                        if p == pname && d == dname {
                            assert(list_has(deps1[ki].depends_on@, d));
                            assert(dep_recorded(deps1, p, d));
                        }
                    }
                }
            },
        }
    }

    /// The set of process names to attempt to restart for one observed
    /// failure, as the configured strategy directs: the failed process alone
    /// (OneForOne), every registered process (OneForAll), or the failed
    /// process followed by its direct dependents (RestForOne).
    pub fn restart_set(&self, failed: &String) -> (r: Vec<String>)
        requires
            self.wf(),
        ensures
            views(r@) == restart_set_spec(*self, failed@),
    {
        match self.config.restart_strategy {
            RestartStrategy::OneForOne => {
                let mut r: Vec<String> = Vec::new();
                r.push(failed.clone());
                proof {
                    assert(views(r@) =~= seq![failed@]);
                }
                r
            },
            RestartStrategy::OneForAll => {
                let mut r: Vec<String> = Vec::new();
                let mut i: usize = 0;
                while i < self.processes.len()
                    invariant
                        i <= self.processes@.len(),
                        r@.len() == i,
                        forall|j: int|
                            0 <= j < i ==> (#[trigger] r@[j])@ == self.processes@[j].name@,
                    decreases self.processes@.len() - i,
                {
                    r.push(self.processes[i].name.clone());
                    i += 1;
                }
                proof {
                    assert(views(r@) =~= names(self.processes@));
                }
                r
            },
            RestartStrategy::RestForOne => {
                let mut r: Vec<String> = Vec::new();
                r.push(failed.clone());
                proof {
                    assert(views(r@) =~= seq![failed@] + dependents_of(
                        self.dependencies@.take(0),
                        failed@,
                    ));
                }
                let mut i: usize = 0;
                while i < self.dependencies.len()
                    invariant
                        i <= self.dependencies@.len(),
                        views(r@) == seq![failed@] + dependents_of(
                            self.dependencies@.take(i as int),
                            failed@,
                        ),
                    decreases self.dependencies@.len() - i,
                {
                    let ghost deps = self.dependencies@;
                    let ghost t0 = deps.take(i as int);
                    let ghost t1 = deps.take(i as int + 1);
                    proof {
                        assert(t1.drop_last() =~= t0);
                        assert(t1.last() == deps[i as int]);
                    }
                    if list_contains(&self.dependencies[i].depends_on, failed) {
                        proof {
                            assert(dependents_of(t1, failed@) == dependents_of(t0, failed@).push(
                                deps[i as int].process@,
                            ));
                        }
                        let ghost prev = r@;
                        r.push(self.dependencies[i].process.clone());
                        proof {
                            assert(r@ == prev.push(deps[i as int].process));
                            assert(views(r@) =~= views(prev).push(deps[i as int].process@));
                            assert((seq![failed@] + dependents_of(t0, failed@)).push(
                                deps[i as int].process@,
                            ) =~= seq![failed@] + dependents_of(t1, failed@));
                            assert(views(r@) =~= seq![failed@] + dependents_of(t1, failed@));
                        }
                    } else {
                        proof {
                            assert(dependents_of(t1, failed@) == dependents_of(t0, failed@));
                            assert(views(r@) =~= seq![failed@] + dependents_of(
                                t1,
                                failed@,
                            ));
                        }
                    }
                    i += 1;
                }
                proof {
                    assert(self.dependencies@.take(self.dependencies@.len() as int)
                        =~= self.dependencies@);
                }
                r
            },
        }
    }

    /// The names and handles the monitor has to poll this tick: every
    /// record currently holding a handle, in registry order.
    pub fn running_handles(&self) -> (r: Vec<(String, u64)>)
        requires
            self.wf(),
        ensures
            r@.map_values(|p: (String, u64)| (p.0@, p.1)) == handled(self.processes@),
    {
        let mut r: Vec<(String, u64)> = Vec::new();
        proof {
            assert(r@.map_values(|p: (String, u64)| (p.0@, p.1)) =~= handled(
                self.processes@.take(0),
            ));
        }
        let mut i: usize = 0;
        while i < self.processes.len()
            invariant
                self.wf(),
                i <= self.processes@.len(),
                r@.map_values(|p: (String, u64)| (p.0@, p.1)) == handled(
                    self.processes@.take(i as int),
                ),
            decreases self.processes@.len() - i,
        {
            let ghost procs = self.processes@;
            let ghost t0 = procs.take(i as int);
            let ghost t1 = procs.take(i as int + 1);
            proof {
                assert(t1.drop_last() =~= t0);
                assert(t1.last() == procs[i as int]);
            }
            match self.processes[i].handle {
                Some(token) => {
                    proof {
                        assert(handled(t1) == handled(t0).push((procs[i as int].name@, token)));
                    }
                    let ghost prev = r@;
                    let name = self.processes[i].name.clone();
                    r.push((name, token));
                    proof {
                        assert(r@ == prev.push((r@.last().0, token)));
                        assert(r@.last().0@ == procs[i as int].name@);
                        assert(r@.map_values(|p: (String, u64)| (p.0@, p.1)) =~= handled(t0).push(
                            (procs[i as int].name@, token),
                        ));
                    }
                },
                None => {
                    proof {
                        assert(handled(t1) == handled(t0));
                    }
                },
            }
            i += 1;
        }
        proof {
            assert(self.processes@.take(self.processes@.len() as int) =~= self.processes@);
        }
        r
    }

    /// The current state of the named process, or None for a name never
    /// registered.
    pub fn get_process_state(&self, name: &String) -> (r: Option<ProcessState>)
        requires
            self.wf(),
        ensures
            r is Some <==> has_name(self.processes@, name@),
            has_name(self.processes@, name@) ==> r == Some(
                self.processes@[idx_of(self.processes@, name@)].state,
            ),
    {
        match lookup(&self.processes, name) {
            Some(i) => {
                proof {
                    lemma_idx_unique(self.processes@, i as int, name@);
                }
                Some(self.processes[i].state)
            },
            None => None,
        }
    }
}

} // verus!
