//! All allowlisted TLDs pass.

use roost::domain;

#[test]
fn all_tlds_pass() {
    for tld in domain::tld_allowlist() {
        let domain = format!("api.example.{}", tld);
        domain::validate_domain(&domain, false).unwrap();
    }
}
