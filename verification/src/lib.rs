//! An Erlang/OTP-style supervision engine: a registry of independently
//! restartable processes, a dependency graph between them, restart-strategy
//! decision logic, and a sliding-window restart-rate limiter.
//!
//! The library is the decision core: every state transition of the registry is
//! a verified operation over plain values (milliseconds as `u64`, liveness
//! handles as opaque `u64` tokens). A host runs the monitoring loop around it:
//! it polls real handles, invokes process factories, and feeds observations
//! and fresh handles back into these operations.

pub mod config;
pub mod engine;
pub mod laws;
pub mod record;

pub use config::ProcessState;
pub use config::RestartStrategy;
pub use config::SupervisorConfig;
pub use engine::Supervisor;
pub use record::ProcessRecord;
