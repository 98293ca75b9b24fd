//! Config save/load roundtrip through the file text.

use roost::config::Config;

#[test]
fn config_roundtrip() {
    let mut config = Config::new();
    config.default_ca = "default".to_string();
    config.insert_domain("api.example.local".to_string(), "default".to_string());
    config.insert_domain("app.test".to_string(), "custom".to_string());

    let text = config.to_toml_string();
    let loaded = Config::from_toml_str(&text).unwrap();
    assert_eq!(loaded.default_ca, "default");
    assert_eq!(loaded.domain_ca("api.example.local"), Some("default".to_string()));
    assert_eq!(loaded.domain_ca("app.test"), Some("custom".to_string()));
    assert_eq!(loaded.domain_ca("missing.test"), None);
}

#[test]
fn config_roundtrip_is_exact() {
    let mut config = Config::new();
    config.default_ca = "main".to_string();
    config.insert_domain("a.test".to_string(), "main".to_string());
    let text = config.to_toml_string();
    let loaded = Config::from_toml_str(&text).unwrap();
    assert_eq!(loaded.to_toml_string(), text);
}

#[test]
fn empty_config_roundtrip() {
    let config = Config::new();
    let text = config.to_toml_string();
    let loaded = Config::from_toml_str(&text).unwrap();
    assert_eq!(loaded.default_ca, "");
    assert!(!loaded.contains_domain("a.test"));
}

#[test]
fn config_accepts_indented_layout() {
    let text = "default_ca = \"main\"\n\n[domains]\n  \"a.test\" = \"main\"  \n";
    let cfg = Config::from_toml_str(text).unwrap();
    assert_eq!(cfg.default_ca, "main");
    assert_eq!(cfg.domain_ca("a.test"), Some("main".to_string()));
}

#[test]
fn config_rejects_garbage() {
    assert!(Config::from_toml_str("what is this").is_err());
    let err = Config::from_toml_str("default_ca = unquoted").unwrap_err();
    assert!(err.message().contains("malformed"));
}

#[test]
fn insert_replaces_previous_entry() {
    let mut config = Config::new();
    config.insert_domain("api.test".to_string(), "one".to_string());
    config.insert_domain("api.test".to_string(), "two".to_string());
    assert_eq!(config.domain_ca("api.test"), Some("two".to_string()));
    config.remove_domain_entry("api.test");
    assert_eq!(config.domain_ca("api.test"), None);
}
