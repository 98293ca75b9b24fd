//! Daemon lifecycle decisions: start, stop, reload.

use roost::serve::daemon::{
    reload_daemon_decision, start_daemon_decision, stop_daemon_decision, DaemonError, DaemonState,
    StartDecision, StopDecision,
};

fn state(pid: u32) -> DaemonState {
    DaemonState { pid, project_path: None, started_at: "2025-01-01T00:00:00Z".to_string() }
}

#[test]
fn start_refuses_live_daemon() {
    match start_daemon_decision(&Some(state(42)), true) {
        StartDecision::AlreadyRunning(pid) => assert_eq!(pid, 42),
        other => panic!("expected AlreadyRunning, got {:?}", other),
    }
    assert!(matches!(start_daemon_decision(&Some(state(42)), false), StartDecision::ClearStaleAndStart));
    assert!(matches!(start_daemon_decision(&None, false), StartDecision::Start));
}

#[test]
fn stop_is_idempotent_on_not_running() {
    assert!(matches!(stop_daemon_decision(&None, false), StopDecision::NotRunning));
    assert!(matches!(stop_daemon_decision(&Some(state(9)), false), StopDecision::ClearStale));
    match stop_daemon_decision(&Some(state(9)), true) {
        StopDecision::Terminate(pid) => assert_eq!(pid, 9),
        other => panic!("expected Terminate, got {:?}", other),
    }
}

#[test]
fn reload_when_not_running_fails_gracefully() {
    let err = reload_daemon_decision(&None, false).unwrap_err();
    assert!(err.message().to_lowercase().contains("not running"));

    let err = reload_daemon_decision(&Some(state(9)), false).unwrap_err();
    assert_eq!(err, DaemonError::StaleCleared);
    assert!(err.message().to_lowercase().contains("not running"));

    assert_eq!(reload_daemon_decision(&Some(state(9)), true), Ok(9));
}
