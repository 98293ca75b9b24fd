//! Domain validation: allowlist, --allow override, invalid hostnames,
//! reject localhost.

use roost::domain;

#[test]
fn allowlist_tld_passes() {
    domain::validate_domain("api.example.local", false).unwrap();
    domain::validate_domain("app.test", false).unwrap();
}

#[test]
fn non_allowlist_tld_fails() {
    let err = domain::validate_domain("api.example.com", false).unwrap_err();
    assert!(err.message().contains("allowlist"));
}

#[test]
fn allow_override_permits_any_tld() {
    domain::validate_domain("api.example.com", true).unwrap();
}

#[test]
fn invalid_hostname_fails() {
    assert!(domain::validate_hostname("").is_err());
    assert!(domain::validate_hostname("..").is_err());
    assert!(domain::validate_hostname("bad..domain").is_err());
}

#[test]
fn reject_bare_localhost() {
    let err = domain::validate_hostname("localhost").unwrap_err();
    assert!(err.message().to_lowercase().contains("localhost"));
}

#[test]
fn hyphen_edges_and_bad_chars_fail() {
    assert!(domain::validate_hostname("-bad.test").is_err());
    assert!(domain::validate_hostname("bad-.test").is_err());
    assert!(domain::validate_hostname("ba d.test").is_err());
    assert!(domain::validate_hostname("under_score.test").is_err());
    assert!(domain::validate_hostname("ok-name.test").is_ok());
}

#[test]
fn tld_check_is_case_insensitive() {
    domain::validate_domain("api.example.TEST", false).unwrap();
}
