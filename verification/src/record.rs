use vstd::prelude::*;
use crate::config::ProcessState;

verus! {

/// One supervised process as the registry tracks it.
pub struct ProcessRecord {
    /// Unique name, stable for the record's lifetime in the registry.
    pub name: String,
    /// Opaque liveness token of the running instance, assigned by the host;
    /// present exactly while the record is Running.
    pub handle: Option<u64>,
    /// Restart timestamps in milliseconds, oldest first, pruned to the
    /// sliding window whenever a failure of this process is evaluated.
    pub restart_times: Vec<u64>,
    /// Current lifecycle state.
    pub state: ProcessState,
}

impl ProcessRecord {
    /// A record is well formed when its handle is present exactly in the
    /// Running state.
    pub open spec fn wf(self) -> bool {
        self.handle is Some <==> self.state is Running
    }
}

/// A timestamp lies inside the sliding window of width `window` ending at
/// `now`. A timestamp later than `now` is treated as recent.
pub open spec fn in_window(t: u64, now: u64, window: u64) -> bool {
    now - t < window
}

/// The window test as one closure value, so that contracts and loop
/// invariants speak of the same predicate.
pub open spec fn window_pred(now: u64, window: u64) -> spec_fn(u64) -> bool {
    |t: u64| in_window(t, now, window)
}

/// A restart history pruned to the sliding window of width `window` ending
/// at `now`, order preserved.
pub open spec fn pruned(times: Seq<u64>, now: u64, window: u64) -> Seq<u64> {
    times.filter(window_pred(now, window))
}

/// Keeps exactly the timestamps still inside the sliding window.
pub fn prune_times(times: &Vec<u64>, now: u64, window: u64) -> (kept: Vec<u64>)
    ensures
        kept@ == pruned(times@, now, window),
{
    let mut kept: Vec<u64> = Vec::new();
    let mut i: usize = 0;
    while i < times.len()
        invariant
            i <= times@.len(),
            kept@ == pruned(times@.take(i as int), now, window),
        decreases times@.len() - i,
    {
        let t = times[i];
        proof {
            reveal(Seq::filter);
            assert(times@.take(i + 1).drop_last() =~= times@.take(i as int));
            assert(times@.take(i + 1).last() == t);
        }
        if t > now || now - t < window {
            kept.push(t);
        }
        i += 1;
    }
    proof {
        assert(times@.take(times@.len() as int) =~= times@);
    }
    kept
}

} // verus!
