use vstd::prelude::*;
use crate::engine::DepEntry;
use crate::engine::Supervisor;
use crate::engine::dep_recorded;
use crate::engine::dependents_of;
use crate::engine::has_name;
use crate::engine::list_has;
use crate::engine::names;
use crate::engine::preserves_stopped;
use crate::engine::restart_set_spec;
use crate::record::in_window;
use crate::record::pruned;
use crate::record::window_pred;

verus! {

/// In every well-formed registry, a Running record holds its handle and a
/// record in any other state — Failed, Restarting or Stopped — holds none.
pub proof fn lemma_running_has_handle(s: Supervisor, i: int)
    requires
        s.wf(),
        0 <= i < s.processes@.len(),
    ensures
        s.processes@[i].state is Running ==> s.processes@[i].handle is Some,
        !(s.processes@[i].state is Running) ==> s.processes@[i].handle is None,
{
    assert(s.processes@[i].wf());
}

/// Under OneForOne, the restart set for any failure is the failed process
/// alone, whatever the dependency graph holds; together with the frame
/// conditions of the registry operations, no other record is touched.
pub proof fn lemma_one_for_one_set(s: Supervisor, failed: Seq<char>)
    requires
        s.config.restart_strategy is OneForOne,
    ensures
        restart_set_spec(s, failed) == seq![failed],
        forall|n: Seq<char>| restart_set_spec(s, failed).contains(n) <==> n == failed,
{
    assert forall|n: Seq<char>| restart_set_spec(s, failed).contains(n) <==> n == failed by {
        if restart_set_spec(s, failed).contains(n) {
            let i = choose|i: int|
                0 <= i < restart_set_spec(s, failed).len() && restart_set_spec(s, failed)[i] == n;
            assert(i == 0);
        }
        if n == failed {
            assert(restart_set_spec(s, failed)[0] == n);
        }
    }
}

/// Under OneForAll, the restart set for any failure holds exactly the
/// registered names: every registered process is targeted, related by
/// dependency or not.
pub proof fn lemma_one_for_all_set(s: Supervisor, failed: Seq<char>, n: Seq<char>)
    requires
        s.config.restart_strategy is OneForAll,
    ensures
        restart_set_spec(s, failed) == names(s.processes@),
        restart_set_spec(s, failed).contains(n) <==> has_name(s.processes@, n),
{
    let procs = s.processes@;
    if names(procs).contains(n) {
        let i = choose|i: int| 0 <= i < names(procs).len() && names(procs)[i] == n;
        assert(procs[i].name@ == n);
        assert(has_name(procs, n));
    }
    if has_name(procs, n) {
        let i = choose|i: int| 0 <= i < procs.len() && (#[trigger] procs[i]).name@ == n;
        assert(names(procs)[i] == n);
        assert(names(procs).contains(n));
    }
}

/// The direct dependents derived from the graph are exactly the processes
/// the graph records as depending on the failed one.
proof fn lemma_dependents_of_recorded(deps: Seq<DepEntry>, failed: Seq<char>, n: Seq<char>)
    ensures
        dependents_of(deps, failed).contains(n) <==> dep_recorded(deps, n, failed),
    decreases deps.len(),
{
    if deps.len() == 0 {
    } else {
        let head = deps.drop_last();
        lemma_dependents_of_recorded(head, failed, n);
        let whole = dependents_of(deps, failed);
        let rest = dependents_of(head, failed);
        if whole.contains(n) {
            let i = choose|i: int| 0 <= i < whole.len() && whole[i] == n;
            if list_has(deps.last().depends_on@, failed) && i == whole.len() - 1 {
                assert(deps[deps.len() - 1].process@ == n);
                assert(dep_recorded(deps, n, failed));
            } else {
                assert(rest[i] == n);
                assert(rest.contains(n));
                let k = choose|k: int|
                    0 <= k < head.len() && (#[trigger] head[k]).process@ == n && list_has(
                        head[k].depends_on@,
                        failed,
                    );
                assert(deps[k] == head[k]);
                assert(dep_recorded(deps, n, failed));
            }
        }
        if dep_recorded(deps, n, failed) {
            let k = choose|k: int|
                0 <= k < deps.len() && (#[trigger] deps[k]).process@ == n && list_has(
                    deps[k].depends_on@,
                    failed,
                );
            if k == deps.len() - 1 {
                assert(whole.last() == n);
                assert(whole.contains(n));
            } else {
                assert(head[k] == deps[k]);
                assert(dep_recorded(head, n, failed));
                let i = choose|i: int| 0 <= i < rest.len() && rest[i] == n;
                assert(whole[i] == n);
                assert(whole.contains(n));
            }
        }
    }
}

/// Under RestForOne, the restart set for a failure of `failed` begins with
/// `failed` itself and holds exactly `failed` together with every process
/// the graph records as depending on it — a single-level fan-out, never a
/// transitive closure; a process with no dependency on `failed` is not in
/// the set.
pub proof fn lemma_rest_for_one_set(s: Supervisor, failed: Seq<char>, n: Seq<char>)
    requires
        s.config.restart_strategy is RestForOne,
    ensures
        restart_set_spec(s, failed)[0] == failed,
        restart_set_spec(s, failed).contains(n) <==> (n == failed || dep_recorded(
            s.dependencies@,
            n,
            failed,
        )),
{
    let whole = restart_set_spec(s, failed);
    let tail = dependents_of(s.dependencies@, failed);
    lemma_dependents_of_recorded(s.dependencies@, failed, n);
    if whole.contains(n) {
        let i = choose|i: int| 0 <= i < whole.len() && whole[i] == n;
        if i > 0 {
            assert(tail[i - 1] == n);
            assert(tail.contains(n));
        }
    }
    if n == failed {
        assert(whole[0] == n);
        assert(whole.contains(n));
    }
    if dep_recorded(s.dependencies@, n, failed) {
        let i = choose|i: int| 0 <= i < tail.len() && tail[i] == n;
        assert(whole[i + 1] == n);
        assert(whole.contains(n));
    }
}

/// The terminal state is preserved across any chain of registry
/// operations: each operation ensures `preserves_stopped` from its old to
/// its new state, and the relation composes, so a process once Stopped —
/// by the rate limiter or by a manual stop — is never reported Running
/// again.
pub proof fn lemma_stopped_is_terminal(a: Supervisor, b: Supervisor, c: Supervisor)
    requires
        preserves_stopped(a, b),
        preserves_stopped(b, c),
    ensures
        preserves_stopped(a, c),
{
    assert forall|i: int|
        0 <= i < a.processes@.len() && (#[trigger] a.processes@[i]).state is Stopped implies i
        < c.processes@.len() && c.processes@[i].name@ == a.processes@[i].name@
        && c.processes@[i].state is Stopped by {
        assert(b.processes@[i].state is Stopped);
    }
}

/// Every timestamp kept by the sliding window lies inside it, and a
/// history holding a timestamp that has aged out of the window shrinks
/// strictly when pruned: a process whose earliest restart has aged out
/// counts fewer restarts than it has recorded, so its budget recovers.
pub proof fn lemma_aged_entry_leaves_window(times: Seq<u64>, now: u64, window: u64, i: int)
    requires
        0 <= i < times.len(),
        !in_window(times[i], now, window),
    ensures
        pruned(times, now, window).len() < times.len(),
        forall|j: int|
            0 <= j < pruned(times, now, window).len() ==> in_window(
                #[trigger] pruned(times, now, window)[j],
                now,
                window,
            ),
    decreases times.len(),
{
    reveal(Seq::filter);
    times.lemma_filter_len(window_pred(now, window));
    assert forall|j: int| 0 <= j < pruned(times, now, window).len() implies in_window(
        #[trigger] pruned(times, now, window)[j],
        now,
        window,
    ) by {
        times.lemma_filter_pred(window_pred(now, window), j);
    }
    if i == times.len() - 1 {
        times.drop_last().lemma_filter_len(window_pred(now, window));
        assert(pruned(times, now, window) == pruned(times.drop_last(), now, window));
    } else {
        lemma_aged_entry_leaves_window(times.drop_last(), now, window, i);
        assert(times.drop_last()[i] == times[i]);
    }
}

/// A process whose recorded restarts have reached the ceiling, but whose
/// earliest restart has aged out of the window by the time it next fails,
/// counts fewer restarts than the ceiling once pruned — so it is still
/// eligible to restart.
pub proof fn lemma_window_slides(times: Seq<u64>, now: u64, window: u64, ceiling: usize)
    requires
        times.len() == ceiling,
        ceiling > 0,
        !in_window(times[0], now, window),
    ensures
        pruned(times, now, window).len() < ceiling,
{
    lemma_aged_entry_leaves_window(times, now, window, 0);
}

} // verus!
