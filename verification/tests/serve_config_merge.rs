//! Project overrides global on domain conflict.

use roost::serve::config::{merge_configs, merge_configs_with_source, Mapping, MappingSource, ServeConfig};

#[test]
fn project_overrides_global_on_conflict() {
    let mut global = ServeConfig::default();
    global.add("api.test".into(), 5000);
    global.add("app.test".into(), 3000);

    let mut project = ServeConfig::default();
    project.add("api.test".into(), 5001); // same domain, different port

    let merged = merge_configs(&project, &global);
    assert_eq!(merged.get("api.test"), Some(5001), "project overrides global");
    assert_eq!(merged.get("app.test"), Some(3000), "global retained where no conflict");
}

#[test]
fn merge_with_source_shows_project_wins() {
    let mut global = ServeConfig::default();
    global.add("api.test".into(), 5000);

    let mut project = ServeConfig::default();
    project.add("api.test".into(), 5001);

    let merged = merge_configs_with_source(&project, &global);
    let api = merged.iter().find(|m| m.domain == "api.test").unwrap();
    assert_eq!(api.port, 5001);
    assert_eq!(api.source, MappingSource::Project);
}

#[test]
fn merge_with_source_shows_global_when_no_project() {
    let mut global = ServeConfig::default();
    global.add("api.test".into(), 5000);

    let project = ServeConfig::default();

    let merged = merge_configs_with_source(&project, &global);
    let api = merged.iter().find(|m| m.domain == "api.test").unwrap();
    assert_eq!(api.port, 5000);
    assert_eq!(api.source, MappingSource::Global);
}

#[test]
fn merge_scenario_map_and_sources() {
    let mut global = ServeConfig::default();
    global.add("api.test".into(), 5000);
    global.add("app.test".into(), 3000);
    let mut project = ServeConfig::default();
    project.add("api.test".into(), 5001);

    let merged = merge_configs(&project, &global);
    assert_eq!(merged.len(), 2);
    assert_eq!(merged.get("api.test"), Some(5001));
    assert_eq!(merged.get("app.test"), Some(3000));
    assert_eq!(merged.get("other.test"), None);

    let tagged = merge_configs_with_source(&project, &global);
    assert_eq!(tagged.len(), 2);
    // sorted by domain: api.test before app.test
    assert_eq!(tagged[0].domain, "api.test");
    assert_eq!(tagged[0].source, MappingSource::Project);
    assert_eq!(tagged[1].domain, "app.test");
    assert_eq!(tagged[1].source, MappingSource::Global);
}

#[test]
fn merge_drops_empty_domains_and_collapses_duplicates() {
    // hand-built lists with an empty domain and a duplicate, as a
    // file could hold them
    let project = ServeConfig {
        mappings: vec![
            Mapping { domain: "".to_string(), port: 5 },
            Mapping { domain: "api.test".to_string(), port: 5000 },
            Mapping { domain: "api.test".to_string(), port: 5001 },
        ],
        ports: Vec::new(),
    };
    let global = ServeConfig {
        mappings: vec![
            Mapping { domain: "api.test".to_string(), port: 4000 },
            Mapping { domain: "".to_string(), port: 9 },
            Mapping { domain: "app.test".to_string(), port: 3000 },
        ],
        ports: Vec::new(),
    };
    let merged = merge_configs(&project, &global);
    assert_eq!(merged.len(), 2, "empty domains dropped, one entry per domain");
    assert_eq!(merged.get("api.test"), Some(5001), "latest project entry wins");
    assert_eq!(merged.get("app.test"), Some(3000));
    assert_eq!(merged.get(""), None);

    let tagged = merge_configs_with_source(&project, &global);
    assert_eq!(tagged.len(), 2);
    assert!(tagged.iter().all(|m| !m.domain.is_empty()));
}

#[test]
fn merge_ports_unions_effective_sets() {
    let mut project = ServeConfig::default();
    project.ports_set(vec![8443, 443]);
    let global = ServeConfig::default(); // defaults 80, 443
    let merged = roost::serve::config::merge_ports(&project, &global);
    assert_eq!(merged, vec![80, 443, 8443]);

    let both_empty = roost::serve::config::merge_ports(
        &ServeConfig::default(),
        &ServeConfig::default(),
    );
    assert_eq!(both_empty, vec![80, 443]);
}
