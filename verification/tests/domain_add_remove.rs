//! Registry add/remove flow with a file-backed hosts editor double.

use roost::config::Config;
use roost::platform::{HostsEditor, PlatformError};
use std::sync::Mutex;

/// A hosts editor over an in-memory file, using the library's content
/// transforms, as the file-backed editor in the application does.
struct MemHostsEditor {
    content: Mutex<String>,
}

impl MemHostsEditor {
    fn new(initial: &str) -> Self {
        Self { content: Mutex::new(initial.to_string()) }
    }

    fn content(&self) -> String {
        self.content.lock().unwrap().clone()
    }
}

impl HostsEditor for MemHostsEditor {
    fn add_domain(&self, domain: &str) -> Result<(), PlatformError> {
        let mut c = self.content.lock().unwrap();
        *c = roost::hosts::hosts_content_add(&c, domain);
        Ok(())
    }

    fn remove_domain(&self, domain: &str) -> Result<(), PlatformError> {
        let mut c = self.content.lock().unwrap();
        *c = roost::hosts::hosts_content_remove(&c, domain);
        Ok(())
    }

    fn has_domain(&self, domain: &str) -> Result<bool, PlatformError> {
        Ok(roost::hosts::domain_in_hosts_content(&self.content.lock().unwrap(), domain))
    }
}

/// An editor that always fails, to observe the no-partial-state rule.
struct FailingEditor;

impl HostsEditor for FailingEditor {
    fn add_domain(&self, _domain: &str) -> Result<(), PlatformError> {
        Err(PlatformError { detail: "user cancelled".to_string() })
    }

    fn remove_domain(&self, _domain: &str) -> Result<(), PlatformError> {
        Err(PlatformError { detail: "user cancelled".to_string() })
    }

    fn has_domain(&self, _domain: &str) -> Result<bool, PlatformError> {
        Ok(false)
    }
}

#[test]
fn add_remove_domain_full_flow() {
    let mut config = Config::new();
    let editor = MemHostsEditor::new("");

    roost::domain::validate_domain("api.test", false).unwrap();
    let ca = roost::domain::effective_default_ca(&mut config);
    assert_eq!(ca, "default");
    roost::domain::require_ca(true, &ca).unwrap();
    roost::domain::add_domain(&mut config, "api.test", &ca, true, Some(&editor)).unwrap();

    assert!(config.contains_domain("api.test"));
    let hosts = editor.content();
    assert!(hosts.contains("127.0.0.1\tapi.test"));
    assert!(hosts.contains("::1\tapi.test"));

    roost::domain::remove_domain(&mut config, "api.test", Some(&editor)).unwrap();
    assert!(!config.contains_domain("api.test"));
    assert!(!editor.content().contains("api.test"));
}

#[test]
fn failed_hosts_edit_leaves_registry_unchanged() {
    let mut config = Config::new();
    let err = roost::domain::add_domain(
        &mut config,
        "api.test",
        "default",
        true,
        Some(&FailingEditor),
    )
    .unwrap_err();
    assert!(err.message().contains("hosts"));
    assert!(!config.contains_domain("api.test"));
}

#[test]
fn add_domain_rejects_missing_ca() {
    let mut config = roost::config::Config::new();
    let err = roost::domain::add_domain(
        &mut config,
        "api.test",
        "ghost",
        false,
        Some(&FailingEditor),
    )
    .unwrap_err();
    assert!(err.message().contains("ghost"));
    assert!(!config.contains_domain("api.test"));
}

#[test]
fn require_ca_rejects_missing_ca() {
    let err = roost::domain::require_ca(false, "ghost").unwrap_err();
    assert!(err.message().contains("ghost"));
    assert!(err.message().contains("does not exist"));
}
