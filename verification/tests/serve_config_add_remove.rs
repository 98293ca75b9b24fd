//! Add/remove mappings, ports editing, and the .roostrc text format.

use roost::serve::config::ServeConfig;

#[test]
fn add_remove_mappings() {
    let mut cfg = ServeConfig::default();
    cfg.add("api.test".into(), 5001);
    cfg.add("app.test".into(), 3000);
    let text = cfg.to_toml_string();

    let loaded = ServeConfig::from_toml_str(&text).unwrap();
    let list = loaded.list();
    assert_eq!(list.len(), 2);
    assert!(list.iter().any(|(d, p)| *d == "api.test" && *p == 5001));
    assert!(list.iter().any(|(d, p)| *d == "app.test" && *p == 3000));

    let mut cfg2 = ServeConfig::from_toml_str(&text).unwrap();
    cfg2.remove("api.test");
    let text2 = cfg2.to_toml_string();

    let loaded2 = ServeConfig::from_toml_str(&text2).unwrap();
    let list2 = loaded2.list();
    assert_eq!(list2.len(), 1);
    assert_eq!(list2[0].0, "app.test");
    assert_eq!(list2[0].1, 3000);
}

#[test]
fn add_same_domain_replaces() {
    let mut cfg = ServeConfig::default();
    cfg.add("api.test".into(), 5001);
    cfg.add("api.test".into(), 5002);
    assert_eq!(cfg.list().len(), 1);
    assert_eq!(cfg.list()[0].0, "api.test");
    assert_eq!(cfg.list()[0].1, 5002);
}

#[test]
fn serve_toml_roundtrip() {
    let mut cfg = ServeConfig::default();
    cfg.add("api.test".into(), 5001);
    cfg.add("app.test".into(), 3000);
    cfg.ports_set(vec![443, 80, 443]);
    let text = cfg.to_toml_string();
    let loaded = ServeConfig::from_toml_str(&text).unwrap();
    assert_eq!(loaded.list().len(), 2);
    assert_eq!(loaded.list()[0].0, "api.test");
    assert_eq!(loaded.list()[1].0, "app.test");
    assert_eq!(loaded.ports, vec![80, 443]);
    // a second save emits the identical file
    assert_eq!(loaded.to_toml_string(), text);
}

#[test]
fn serve_toml_rejects_garbage() {
    assert!(ServeConfig::from_toml_str("nonsense").is_err());
    assert!(ServeConfig::from_toml_str("[serve]\nports = [99999999]\n").is_err());
    // an empty file is an empty config
    let empty = ServeConfig::from_toml_str("").unwrap();
    assert_eq!(empty.list().len(), 0);
    assert_eq!(empty.ports.len(), 0);
}

#[test]
fn serve_toml_accepts_indented_and_inline_layouts() {
    // the indented multi-line layout
    let indented =
        "[serve]\nmappings = [\n  { domain = \"global.test\", port = 4000 },\n]\nports = []\n";
    let cfg = ServeConfig::from_toml_str(indented).unwrap();
    assert_eq!(cfg.list().len(), 1);
    assert_eq!(cfg.list()[0].0, "global.test");
    assert_eq!(cfg.list()[0].1, 4000);

    // the inline single-line array with spaced ports
    let inline = "[serve]\nmappings = [ { domain = \"api.test\", port = 5001 }, { domain = \"app.test\", port = 3000 } ]\nports = [ 80, 443 ]\n";
    let cfg = ServeConfig::from_toml_str(inline).unwrap();
    assert_eq!(cfg.list().len(), 2);
    assert_eq!(cfg.list()[0].0, "api.test");
    assert_eq!(cfg.list()[0].1, 5001);
    assert_eq!(cfg.list()[1].0, "app.test");
    assert_eq!(cfg.list()[1].1, 3000);
    assert_eq!(cfg.ports, vec![80, 443]);

    // an empty inline array
    let empty = "[serve]\nmappings = []\n";
    let cfg = ServeConfig::from_toml_str(empty).unwrap();
    assert_eq!(cfg.list().len(), 0);
}

#[test]
fn add_then_remove_restores_file() {
    let mut cfg = ServeConfig::default();
    cfg.add("app.test".into(), 3000);
    cfg.ports_set(vec![443]);
    let before = cfg.to_toml_string();

    cfg.add("api.test".into(), 5001);
    cfg.remove("api.test");
    let after = cfg.to_toml_string();
    assert_eq!(before, after);
}

#[test]
fn ports_edit_rules() {
    let mut cfg = ServeConfig::default();
    assert_eq!(cfg.ports_list(), vec![80, 443]);

    // removing from an unconfigured list materializes the defaults first
    cfg.ports_remove(80);
    assert_eq!(cfg.ports, vec![443]);

    cfg.ports_add(8443);
    assert_eq!(cfg.ports, vec![443, 8443]);

    // adding a port already effective leaves the list unchanged
    cfg.ports_add(443);
    assert_eq!(cfg.ports, vec![443, 8443]);

    cfg.ports_set(vec![443, 80, 80]);
    assert_eq!(cfg.ports, vec![80, 443]);
}
