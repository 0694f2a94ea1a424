use supervisor::ProcessState;
use supervisor::RestartStrategy;
use supervisor::Supervisor;
use supervisor::SupervisorConfig;

fn config(strategy: RestartStrategy, max_restarts: usize, max_time_ms: u64) -> SupervisorConfig {
    SupervisorConfig { max_restarts, max_time_ms, restart_strategy: strategy }
}

#[test]
fn default_config_values() {
    let c = SupervisorConfig::default();
    assert_eq!(c.max_restarts, 3);
    assert_eq!(c.max_time_ms, 5000);
    assert_eq!(c.restart_strategy, RestartStrategy::OneForOne);
}

#[test]
fn add_process_starts_running() {
    let mut sup = Supervisor::new(SupervisorConfig::default());
    assert!(sup.add_process("worker".to_string(), 1));
    assert_eq!(
        sup.get_process_state(&"worker".to_string()),
        Some(ProcessState::Running)
    );
    assert_eq!(sup.get_process_state(&"other".to_string()), None);
}

#[test]
fn duplicate_registration_rejected() {
    let mut sup = Supervisor::new(SupervisorConfig::default());
    assert!(sup.add_process("worker".to_string(), 1));
    assert!(!sup.add_process("worker".to_string(), 2));
    assert_eq!(sup.processes.len(), 1);
    assert_eq!(sup.processes[0].handle, Some(1));
}

#[test]
fn handle_present_exactly_while_running() {
    let mut sup = Supervisor::new(SupervisorConfig::default());
    sup.add_process("w".to_string(), 9);
    let w = "w".to_string();
    assert_eq!(sup.processes[0].state, ProcessState::Running);
    assert_eq!(sup.processes[0].handle, Some(9));

    assert!(sup.observe_failure(&w, 100));
    assert_eq!(sup.processes[0].state, ProcessState::Failed);
    assert_eq!(sup.processes[0].handle, None);

    assert!(sup.begin_restart(&w));
    assert_eq!(sup.processes[0].state, ProcessState::Restarting);
    assert_eq!(sup.processes[0].handle, None);
    assert_eq!(sup.get_process_state(&w), Some(ProcessState::Restarting));

    assert!(sup.complete_restart(&w, 10, 100));
    assert_eq!(sup.processes[0].state, ProcessState::Running);
    assert_eq!(sup.processes[0].handle, Some(10));

    assert!(sup.stop_process(&w));
    assert_eq!(sup.processes[0].state, ProcessState::Stopped);
    assert_eq!(sup.processes[0].handle, None);
}

#[test]
fn stop_process_is_immediate_and_permanent() {
    let mut sup = Supervisor::new(SupervisorConfig::default());
    sup.add_process("w".to_string(), 1);
    let w = "w".to_string();
    assert!(sup.stop_process(&w));
    assert_eq!(sup.get_process_state(&w), Some(ProcessState::Stopped));

    // Later monitor activity never brings it back.
    assert!(!sup.observe_failure(&w, 50));
    assert_eq!(sup.get_process_state(&w), Some(ProcessState::Stopped));
    assert!(!sup.begin_restart(&w));
    assert!(!sup.complete_restart(&w, 2, 60));
    assert_eq!(sup.get_process_state(&w), Some(ProcessState::Stopped));

    // Stopping an unknown name reports that it does not exist.
    assert!(!sup.stop_process(&"ghost".to_string()));
}

#[test]
fn one_for_one_touches_only_the_failed_process() {
    let mut sup = Supervisor::new(config(RestartStrategy::OneForOne, 3, 5000));
    sup.add_process("a".to_string(), 1);
    sup.add_process("b".to_string(), 2);
    let a = "a".to_string();

    let set = sup.restart_set(&a);
    assert_eq!(set, vec!["a".to_string()]);

    assert!(sup.observe_failure(&a, 10));
    for name in &set {
        if sup.begin_restart(name) {
            assert!(sup.complete_restart(name, 3, 10));
        }
    }
    // A restarted and with one history entry; B untouched.
    assert_eq!(sup.get_process_state(&a), Some(ProcessState::Running));
    assert_eq!(sup.processes[0].restart_times, vec![10]);
    assert_eq!(sup.processes[1].state, ProcessState::Running);
    assert_eq!(sup.processes[1].handle, Some(2));
    assert_eq!(sup.processes[1].restart_times.len(), 0);
}

#[test]
fn one_for_all_restarts_every_process() {
    let mut sup = Supervisor::new(config(RestartStrategy::OneForAll, 3, 5000));
    sup.add_process("a".to_string(), 1);
    sup.add_process("b".to_string(), 2);
    sup.add_process("c".to_string(), 3);
    let b = "b".to_string();

    let set = sup.restart_set(&b);
    assert_eq!(
        set,
        vec!["a".to_string(), "b".to_string(), "c".to_string()]
    );

    assert!(sup.observe_failure(&b, 20));
    let mut fresh = 10;
    for name in &set {
        if sup.begin_restart(name) {
            assert!(sup.complete_restart(name, fresh, 20));
            fresh += 1;
        }
    }
    for i in 0..3 {
        assert_eq!(sup.processes[i].state, ProcessState::Running);
        assert_eq!(sup.processes[i].restart_times, vec![20]);
    }
}

#[test]
fn rest_for_one_restarts_direct_dependents() {
    let mut sup = Supervisor::new(config(RestartStrategy::RestForOne, 3, 5000));
    sup.add_process("a".to_string(), 1);
    sup.add_process("b".to_string(), 2);
    sup.add_process("c".to_string(), 3);
    // b depends on a; c is unrelated.
    sup.add_dependency("b".to_string(), "a".to_string());
    let a = "a".to_string();

    let set = sup.restart_set(&a);
    assert_eq!(set, vec!["a".to_string(), "b".to_string()]);

    assert!(sup.observe_failure(&a, 30));
    let mut fresh = 10;
    for name in &set {
        if sup.begin_restart(name) {
            assert!(sup.complete_restart(name, fresh, 30));
            fresh += 1;
        }
    }
    // A and B each show exactly one new history entry; C shows zero.
    assert_eq!(sup.processes[0].restart_times, vec![30]);
    assert_eq!(sup.processes[1].restart_times, vec![30]);
    assert_eq!(sup.processes[2].restart_times.len(), 0);
    assert_eq!(sup.processes[2].state, ProcessState::Running);
}

#[test]
fn rest_for_one_is_single_level() {
    let mut sup = Supervisor::new(config(RestartStrategy::RestForOne, 3, 5000));
    sup.add_process("a".to_string(), 1);
    sup.add_process("b".to_string(), 2);
    sup.add_process("c".to_string(), 3);
    // c depends on b, b depends on a: a failure of a fans out to b only.
    sup.add_dependency("c".to_string(), "b".to_string());
    sup.add_dependency("b".to_string(), "a".to_string());
    let set = sup.restart_set(&"a".to_string());
    assert_eq!(set, vec!["a".to_string(), "b".to_string()]);
}

#[test]
fn dependency_on_unregistered_name_is_tolerated() {
    let mut sup = Supervisor::new(config(RestartStrategy::RestForOne, 3, 5000));
    sup.add_process("a".to_string(), 1);
    // "phantom" is never registered, yet may appear in the graph.
    sup.add_dependency("phantom".to_string(), "a".to_string());
    let set = sup.restart_set(&"a".to_string());
    assert_eq!(set, vec!["a".to_string(), "phantom".to_string()]);
    // Applying the set skips the unregistered name silently.
    assert!(!sup.begin_restart(&"phantom".to_string()));
    assert_eq!(sup.get_process_state(&"phantom".to_string()), None);
}

#[test]
fn rate_limit_scenario_three_then_stop() {
    // maxRestarts 3 inside a 5 s window, one-for-one.
    let mut sup = Supervisor::new(config(RestartStrategy::OneForOne, 3, 5000));
    sup.add_process("x".to_string(), 1);
    let x = "x".to_string();

    // Three failures at t = 0 s, 1 s, 2 s: each one restarts.
    let mut fresh = 10;
    for now in [0u64, 1000, 2000] {
        assert!(sup.observe_failure(&x, now));
        assert!(sup.begin_restart(&x));
        assert!(sup.complete_restart(&x, fresh, now));
        fresh += 1;
        assert_eq!(sup.get_process_state(&x), Some(ProcessState::Running));
    }
    assert_eq!(sup.processes[0].restart_times, vec![0, 1000, 2000]);

    // The fourth failure at t = 3 s exhausts the budget: Stopped, for good.
    assert!(!sup.observe_failure(&x, 3000));
    assert_eq!(sup.get_process_state(&x), Some(ProcessState::Stopped));
    assert!(!sup.begin_restart(&x));
    assert!(!sup.observe_failure(&x, 4000));
    assert_eq!(sup.get_process_state(&x), Some(ProcessState::Stopped));
}

#[test]
fn sliding_window_lets_old_failures_age_out() {
    // One restart per 5 s window.
    let mut sup = Supervisor::new(config(RestartStrategy::OneForOne, 1, 5000));
    sup.add_process("x".to_string(), 1);
    let x = "x".to_string();

    assert!(sup.observe_failure(&x, 0));
    assert!(sup.begin_restart(&x));
    assert!(sup.complete_restart(&x, 2, 0));
    assert_eq!(sup.processes[0].restart_times, vec![0]);

    // A second failure at t = 6 s: the restart at t = 0 has aged out of the
    // window, so the process is still eligible.
    assert!(sup.observe_failure(&x, 6000));
    assert!(sup.begin_restart(&x));
    assert!(sup.complete_restart(&x, 3, 6000));
    assert_eq!(sup.get_process_state(&x), Some(ProcessState::Running));
    assert_eq!(sup.processes[0].restart_times, vec![6000]);
}

#[test]
fn rate_limit_denies_within_window() {
    let mut sup = Supervisor::new(config(RestartStrategy::OneForOne, 1, 5000));
    sup.add_process("x".to_string(), 1);
    let x = "x".to_string();

    assert!(sup.observe_failure(&x, 0));
    assert!(sup.begin_restart(&x));
    assert!(sup.complete_restart(&x, 2, 0));

    // A second failure at t = 1 s still sees the restart at t = 0 inside the
    // window: the budget of one is spent, so the process stops.
    assert!(!sup.observe_failure(&x, 1000));
    assert_eq!(sup.get_process_state(&x), Some(ProcessState::Stopped));
}

#[test]
fn budgets_are_independent_per_process() {
    // Under OneForAll every process is restarted on any failure, but each
    // restart draws on the restarted process's own window only.
    let mut sup = Supervisor::new(config(RestartStrategy::OneForAll, 2, 5000));
    sup.add_process("a".to_string(), 1);
    sup.add_process("b".to_string(), 2);
    let a = "a".to_string();

    let mut fresh = 10;
    for now in [0u64, 1000] {
        assert!(sup.observe_failure(&a, now));
        for name in sup.restart_set(&a) {
            if sup.begin_restart(&name) {
                assert!(sup.complete_restart(&name, fresh, now));
                fresh += 1;
            }
        }
    }
    // Both have two entries; both still within their own ceiling of two.
    assert_eq!(sup.processes[0].restart_times, vec![0, 1000]);
    assert_eq!(sup.processes[1].restart_times, vec![0, 1000]);
    assert_eq!(sup.get_process_state(&a), Some(ProcessState::Running));
    assert_eq!(sup.get_process_state(&"b".to_string()), Some(ProcessState::Running));
}

#[test]
fn stop_wins_race_against_restart() {
    // A stop that lands between the restart decision and the factory's
    // hand-back leaves the process Stopped; the late hand-back is dropped.
    let mut sup = Supervisor::new(SupervisorConfig::default());
    sup.add_process("w".to_string(), 1);
    let w = "w".to_string();
    assert!(sup.observe_failure(&w, 10));
    assert!(sup.begin_restart(&w));
    assert!(sup.stop_process(&w));
    assert!(!sup.complete_restart(&w, 2, 10));
    assert_eq!(sup.get_process_state(&w), Some(ProcessState::Stopped));
    assert_eq!(sup.processes[0].handle, None);
}

#[test]
fn running_handles_lists_only_held_handles() {
    let mut sup = Supervisor::new(SupervisorConfig::default());
    sup.add_process("a".to_string(), 1);
    sup.add_process("b".to_string(), 2);
    sup.add_process("c".to_string(), 3);
    sup.stop_process(&"b".to_string());
    let polled = sup.running_handles();
    assert_eq!(polled, vec![("a".to_string(), 1), ("c".to_string(), 3)]);
}

#[test]
fn observe_failure_only_acts_on_running() {
    let mut sup = Supervisor::new(SupervisorConfig::default());
    sup.add_process("w".to_string(), 1);
    let w = "w".to_string();
    assert!(!sup.observe_failure(&"ghost".to_string(), 5));
    assert!(sup.observe_failure(&w, 5));
    // Already Failed: a second observation changes nothing.
    assert!(!sup.observe_failure(&w, 6));
    assert_eq!(sup.get_process_state(&w), Some(ProcessState::Failed));
}
