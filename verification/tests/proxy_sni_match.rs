//! SNI resolution: exact match per domain, with normalization.

use roost::serve::proxy::CertResolver;

#[test]
fn sni_resolver_picks_cert_by_domain() {
    let resolver =
        CertResolver::build(&vec!["api.test".to_string(), "app.test".to_string()]).unwrap();
    assert_eq!(resolver.resolve(Some("api.test")), Some(0));
    assert_eq!(resolver.resolve(Some("app.test")), Some(1));
    assert_eq!(resolver.resolve(Some("other.test")), None);
    assert_eq!(resolver.resolve(None), None);
}

#[test]
fn sni_resolution_is_case_insensitive() {
    let resolver = CertResolver::build(&vec!["API.Test".to_string()]).unwrap();
    assert_eq!(resolver.resolve(Some("api.test")), Some(0));
    assert_eq!(resolver.resolve(Some("Api.TEST")), Some(0));
}

#[test]
fn sni_with_port_falls_back_to_host() {
    let resolver = CertResolver::build(&vec!["api.test".to_string()]).unwrap();
    assert_eq!(resolver.resolve(Some("api.test:8443")), Some(0));
    assert_eq!(resolver.resolve(Some("  api.test  ")), Some(0));
}

#[test]
fn sni_localhost_gets_no_cert() {
    let resolver = CertResolver::build(&vec!["api.test".to_string()]).unwrap();
    assert_eq!(resolver.resolve(Some("localhost")), None);
    assert_eq!(resolver.resolve(Some("127.0.0.1")), None);
    assert_eq!(resolver.resolve(Some("::1")), None);
    assert_eq!(resolver.resolve(Some("")), None);
    assert_eq!(resolver.resolve(Some("   ")), None);
}

#[test]
fn resolver_refuses_empty_table() {
    assert!(CertResolver::build(&Vec::new()).is_err());
}
