//! Happy path over the in-memory pieces: fresh state, create the
//! default CA, validate, issue, register, map the hosts lines.

use roost::config::Config;
use roost::platform::{HostsEditor, PlatformError};
use std::sync::Mutex;

struct MemHosts {
    content: Mutex<String>,
}

impl HostsEditor for MemHosts {
    fn add_domain(&self, domain: &str) -> Result<(), PlatformError> {
        let mut c = self.content.lock().unwrap();
        *c = roost::hosts::hosts_content_add(&c, domain);
        Ok(())
    }

    fn remove_domain(&self, domain: &str) -> Result<(), PlatformError> {
        let mut c = self.content.lock().unwrap();
        *c = roost::hosts::hosts_content_remove(&c, domain);
        Ok(())
    }

    fn has_domain(&self, domain: &str) -> Result<bool, PlatformError> {
        Ok(roost::hosts::domain_in_hosts_content(&self.content.lock().unwrap(), domain))
    }
}

#[test]
fn e2e_happy_path() {
    // fresh store
    let mut config = Config::new();
    let editor = MemHosts { content: Mutex::new(String::new()) };

    // create CA "default"
    let (ca_pem, ca_key_pem) = roost::ca::create_ca("default").unwrap();

    // validate the domain
    roost::domain::validate_domain("api.example.test", false).unwrap();

    // issue a wildcard leaf
    let now = roost::cert::now_unix_ts();
    let issued = roost::cert::ensure_cert_valid(
        "api.example.test",
        &ca_pem,
        &ca_key_pem,
        false,
        None,
        now,
    )
    .unwrap();
    let (leaf_pem, leaf_key) = issued.unwrap();
    assert!(!leaf_pem.is_empty());
    assert!(!leaf_key.is_empty());

    // register
    let ca = roost::domain::effective_default_ca(&mut config);
    roost::domain::require_ca(true, &ca).unwrap();
    roost::domain::add_domain(&mut config, "api.example.test", &ca, true, Some(&editor)).unwrap();

    // the registry records the CA
    assert_eq!(config.domain_ca("api.example.test"), Some("default".to_string()));

    // both hosts lines are present
    let hosts = editor.content.lock().unwrap().clone();
    assert!(hosts.contains("127.0.0.1\tapi.example.test"));
    assert!(hosts.contains("::1\tapi.example.test"));

    // the persisted config names the binding
    let text = config.to_toml_string();
    assert!(text.contains("\"api.example.test\" = \"default\""));
    let reloaded = Config::from_toml_str(&text).unwrap();
    assert_eq!(reloaded.domain_ca("api.example.test"), Some("default".to_string()));
}

#[test]
fn init_idempotent() {
    // A second initialisation does not overwrite the existing CA: the
    // decision to create is taken only when the CA is absent.
    let mut config = Config::new();
    let first = roost::domain::effective_default_ca(&mut config);
    assert_eq!(first, "default");
    let ca_exists_after_first = true;
    // second run: the CA already exists, so nothing is regenerated
    let second = roost::domain::effective_default_ca(&mut config);
    assert_eq!(second, "default");
    assert!(roost::domain::require_ca(ca_exists_after_first, &second).is_ok());
}
