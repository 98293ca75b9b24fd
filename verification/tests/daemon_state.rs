//! Daemon state: the status decision and the daemon.json text.

use roost::serve::daemon::{daemon_status, DaemonState};

#[test]
fn daemon_status_none_when_no_file() {
    let (report, clear) = daemon_status(None, false);
    assert!(report.is_none());
    assert!(!clear);
}

#[test]
fn daemon_json_roundtrip() {
    let state = DaemonState {
        pid: 4242,
        project_path: Some("/work/project".to_string()),
        started_at: "2025-01-01T00:00:00Z".to_string(),
    };
    let text = state.to_json_string();
    let back = DaemonState::from_json_str(&text).unwrap();
    assert_eq!(back.pid, 4242);
    assert_eq!(back.project_path, Some("/work/project".to_string()));
    assert_eq!(back.started_at, "2025-01-01T00:00:00Z");
}

#[test]
fn daemon_json_roundtrip_without_project() {
    let state = DaemonState {
        pid: 7,
        project_path: None,
        started_at: "2025-06-30T12:00:00Z".to_string(),
    };
    let text = state.to_json_string();
    assert_eq!(text, "{\"pid\":7,\"project_path\":null,\"started_at\":\"2025-06-30T12:00:00Z\"}");
    let back = DaemonState::from_json_str(&text).unwrap();
    assert_eq!(back.pid, 7);
    assert_eq!(back.project_path, None);
}

#[test]
fn daemon_json_accepts_pretty_layout() {
    let pretty = "{\n  \"pid\": 4242,\n  \"project_path\": \"/work/my project\",\n  \"started_at\": \"2025-01-01T00:00:00Z\"\n}";
    let state = DaemonState::from_json_str(pretty).unwrap();
    assert_eq!(state.pid, 4242);
    // whitespace inside the quoted path is preserved
    assert_eq!(state.project_path, Some("/work/my project".to_string()));
    assert_eq!(state.started_at, "2025-01-01T00:00:00Z");
}

#[test]
fn daemon_json_rejects_garbage() {
    assert!(DaemonState::from_json_str("").is_none());
    assert!(DaemonState::from_json_str("{\"pid\":abc,\"project_path\":null}").is_none());
}
