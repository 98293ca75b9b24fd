//! config add consults the daemon status and reloads a live daemon.

use roost::serve::daemon::{daemon_status, reload_daemon_decision, DaemonState};

#[test]
fn config_add_checks_daemon_status() {
    // When a daemon is recorded and live, a config edit reloads it.
    let state = DaemonState {
        pid: 77,
        project_path: None,
        started_at: "2025-01-01T00:00:00Z".to_string(),
    };
    let (report, _clear) = daemon_status(Some(state), true);
    let running = report.is_some();
    assert!(running, "config add triggers reload when daemon running");
    assert_eq!(reload_daemon_decision(&report, true), Ok(77));
}
