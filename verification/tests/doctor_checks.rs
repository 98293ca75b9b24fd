//! Doctor check outcomes over gathered facts.

use roost::doctor::{run_checks, DomainFacts};
use roost::serve::config::MappingSource;

fn healthy_fact() -> DomainFacts {
    DomainFacts {
        domain: "api.test".to_string(),
        source: MappingSource::Project,
        in_hosts: Some(true),
        registered_ca: Some("default".to_string()),
        cert_file: true,
        key_file: true,
        cert_readable: true,
        expired: false,
        ca_installed: Some(true),
    }
}

#[test]
fn healthy_domain_passes_all_checks() {
    let r = run_checks(&vec!["default".to_string()], &vec![healthy_fact()]);
    assert_eq!(r.len(), 4);
    assert!(r.iter().all(|c| c.ok));
    assert!(r[3].message.contains("default"));
}

#[test]
fn missing_pieces_fail_their_checks() {
    let mut fact = healthy_fact();
    fact.in_hosts = Some(false);
    fact.expired = true;
    fact.ca_installed = Some(false);
    let r = run_checks(&Vec::new(), &vec![fact]);
    assert!(!r[0].ok, "no CA present");
    assert!(!r[1].ok, "not in hosts");
    assert!(!r[2].ok, "expired cert");
    assert!(!r[3].ok, "CA not installed");
}

#[test]
fn unregistered_mapping_is_reported() {
    let mut fact = healthy_fact();
    fact.registered_ca = None;
    let r = run_checks(&vec!["default".to_string()], &vec![fact]);
    assert_eq!(r.len(), 3);
    assert!(!r[2].ok);
    assert!(r[2].message.contains("not registered"));
}

#[test]
fn no_mappings_is_a_passing_note() {
    let r = run_checks(&vec!["default".to_string()], &Vec::new());
    assert_eq!(r.len(), 2);
    assert!(r[0].ok);
    assert!(r[1].ok);
}
