use vstd::prelude::*;

verus! {

/// Policy choosing which processes to restart in response to one failure.
#[derive(Clone, Copy, Debug, PartialEq, Eq, Structural)]
pub enum RestartStrategy {
    /// Restart only the failed process.
    OneForOne,
    /// Restart every registered process when any one fails.
    OneForAll,
    /// Restart the failed process and its direct dependents.
    RestForOne,
}

/// Lifecycle state of a supervised process.
#[derive(Clone, Copy, Debug, PartialEq, Eq, Structural)]
pub enum ProcessState {
    /// The process is running.
    Running,
    /// The process has been observed terminated and awaits a restart decision.
    Failed,
    /// A restart was decided; the new instance has not been handed back yet.
    Restarting,
    /// Terminal: the process will never be restarted again.
    Stopped,
}

/// Supervisor configuration, immutable for the supervisor's lifetime.
#[derive(Clone, Copy, Debug, PartialEq, Eq, Structural)]
pub struct SupervisorConfig {
    /// Ceiling on the number of restarts counted inside the sliding window.
    pub max_restarts: usize,
    /// Width of the sliding window over which restarts are counted, in
    /// milliseconds.
    pub max_time_ms: u64,
    /// Strategy applied when a failure is observed.
    pub restart_strategy: RestartStrategy,
}

impl Default for SupervisorConfig {
    /// Three restarts within a five-second window, one-for-one.
    fn default() -> (c: SupervisorConfig)
        ensures
            c.max_restarts == 3,
            c.max_time_ms == 5000,
            c.restart_strategy is OneForOne,
    {
        SupervisorConfig {
            max_restarts: 3,
            max_time_ms: 5000,
            restart_strategy: RestartStrategy::OneForOne,
        }
    }
}

} // verus!
