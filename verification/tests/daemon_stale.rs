//! Stale PID clears state.

use roost::serve::daemon::{daemon_status, DaemonState};

#[test]
fn stale_pid_clears_state() {
    // State with a PID that does not exist (99999999): the liveness
    // probe reports dead, status reports nothing, the file is cleared.
    let state = DaemonState::from_json_str(
        "{\"pid\":99999999,\"project_path\":null,\"started_at\":\"2025-01-01T00:00:00Z\"}",
    )
    .unwrap();
    assert_eq!(state.pid, 99999999);

    let (report, clear) = daemon_status(Some(state), false);
    assert!(report.is_none(), "stale PID should clear state");
    assert!(clear, "stale state should be cleared");
}

#[test]
fn live_pid_reports_state() {
    let state = DaemonState {
        pid: 1234,
        project_path: None,
        started_at: "2025-01-01T00:00:00Z".to_string(),
    };
    let (report, clear) = daemon_status(Some(state), true);
    assert_eq!(report.unwrap().pid, 1234);
    assert!(!clear);
}
