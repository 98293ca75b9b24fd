//! Store paths resolve under the base directory.

use roost::config::RoostPaths;

#[test]
fn paths_resolve_under_base() {
    let base = "/tmp/roost-base";
    let paths = RoostPaths::for_test(base);

    assert_eq!(paths.config_dir, base);
    assert!(paths.config_file.ends_with("config.toml"));
    assert!(paths.ca_dir.ends_with("ca"));
    assert!(paths.certs_dir.ends_with("certs"));
    assert!(paths.roostrc_global.ends_with(".roostrc"));

    assert!(paths.config_file.starts_with(base));
    assert!(paths.ca_dir.starts_with(base));
    assert!(paths.certs_dir.starts_with(base));
}

#[test]
fn derived_paths_are_exact() {
    let paths = RoostPaths::for_test("/data");
    assert_eq!(paths.config_file, "/data/config.toml");
    assert_eq!(paths.ca_dir, "/data/ca");
    assert_eq!(paths.certs_dir, "/data/certs");
    assert_eq!(paths.roostrc_global, "/data/.roostrc");
    assert_eq!(paths.daemon_json_path(), "/data/daemon.json");
    assert_eq!(roost::ca::ca_pem_path(&paths, "default"), "/data/ca/default/ca.pem");
    assert_eq!(roost::ca::ca_key_path(&paths, "default"), "/data/ca/default/ca-key.pem");
    let (cert, key) = roost::domain::get_cert_paths(&paths, "api.test");
    assert_eq!(cert, "/data/certs/api.test.pem");
    assert_eq!(key, "/data/certs/api.test-key.pem");
    assert_eq!(roost::cli::serve_config_path(&paths, "/work", false), "/work/.roostrc");
    assert_eq!(roost::cli::serve_config_path(&paths, "/work", true), "/data/.roostrc");
    assert_eq!(roost::cli::project_roostrc_path("/work"), "/work/.roostrc");
}
