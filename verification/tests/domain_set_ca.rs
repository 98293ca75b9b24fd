//! set-ca rebinds the domain and a fresh leaf differs from the old.

use roost::config::Config;

#[test]
fn set_ca_re_signs_cert() {
    let (default_pem, default_key) = roost::ca::create_ca("default").unwrap();
    let (custom_pem, custom_key) = roost::ca::create_ca("custom").unwrap();

    let mut config = Config::new();
    config.default_ca = "default".to_string();
    config.insert_domain("api.test".to_string(), "default".to_string());
    let (cert_before, _) =
        roost::cert::generate_domain_cert("api.test", &default_pem, &default_key, false).unwrap();

    roost::domain::set_ca(&mut config, "api.test", "custom", true).unwrap();
    assert_eq!(config.domain_ca("api.test"), Some("custom".to_string()));

    // rebinding always re-signs: the new leaf differs from the old
    let (cert_after, _) =
        roost::cert::generate_domain_cert("api.test", &custom_pem, &custom_key, false).unwrap();
    assert_ne!(cert_before, cert_after, "cert should change when CA changes");
}

#[test]
fn set_ca_rejects_unknown_domain_and_ca() {
    let mut config = Config::new();
    let err = roost::domain::set_ca(&mut config, "api.test", "custom", true).unwrap_err();
    assert!(err.message().contains("api.test"));
    assert!(err.message().contains("not found"));

    config.insert_domain("api.test".to_string(), "default".to_string());
    let err = roost::domain::set_ca(&mut config, "api.test", "ghost", false).unwrap_err();
    assert!(err.message().contains("ghost"));
    assert_eq!(config.domain_ca("api.test"), Some("default".to_string()));
}
