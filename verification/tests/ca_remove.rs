//! CA remove: succeeds when unused, fails when a domain uses it.

use roost::config::Config;

#[test]
fn remove_unused_ca_succeeds() {
    let mut config = Config::new();
    config.insert_domain("api.test".to_string(), "other".to_string());
    assert!(roost::ca::remove_ca(&config, "toremove").is_ok());
}

#[test]
fn remove_ca_with_domain_fails() {
    let mut config = Config::new();
    config.default_ca = "inuse".to_string();
    config.insert_domain("api.test".to_string(), "inuse".to_string());

    let err = roost::ca::remove_ca(&config, "inuse").unwrap_err();
    let msg = err.message();
    assert!(msg.contains("api.test"));
    assert!(msg.contains("inuse"));
}

#[test]
fn ca_common_name_formats_the_name() {
    assert_eq!(roost::ca::ca_common_name("default"), "Roost CA (default)");
}

#[test]
fn sort_names_orders_listing() {
    let sorted = roost::ca::sort_names(vec!["default".to_string(), "custom".to_string()]);
    assert_eq!(sorted, vec!["custom".to_string(), "default".to_string()]);
}
