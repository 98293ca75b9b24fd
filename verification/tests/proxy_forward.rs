//! Host parsing, backend choice, request planning, redirects and
//! listener selection.

use roost::serve::config::ServeConfig;
use roost::serve::proxy::{
    listener_plan, parse_host, plan_request, redirect_location, ListenerKind, RequestPlan,
};

#[test]
fn host_header_with_bracketed_ipv6_parses() {
    let (host, port) = parse_host("[::1]:8443");
    assert_eq!(host, "[::1]");
    assert_eq!(port, Some(8443));
}

#[test]
fn host_header_forms_parse() {
    assert_eq!(parse_host("api.test"), ("api.test".to_string(), None));
    assert_eq!(parse_host("API.Test:5173"), ("api.test".to_string(), Some(5173)));
    assert_eq!(parse_host("api.test."), ("api.test".to_string(), None));
    assert_eq!(parse_host(" api.test:443 "), ("api.test".to_string(), Some(443)));
    assert_eq!(parse_host("api.test:notaport"), ("api.test:notaport".to_string(), None));
    assert_eq!(parse_host("[::1]"), ("[::1]".to_string(), None));
}

fn merged() -> roost::serve::config::MergedConfig {
    let mut project = ServeConfig::default();
    project.add("api.test".to_string(), 5001);
    let mut global = ServeConfig::default();
    global.add("App.Test".to_string(), 3000);
    roost::serve::config::merge_configs(&project, &global)
}

#[test]
fn plan_forwards_mapped_domain() {
    let m = merged();
    match plan_request(Some("api.test"), None, Some("/x?y=1"), "10.0.0.9:55555", &m, true) {
        RequestPlan::Forward(f) => {
            assert_eq!(f.backend_port, 5001);
            assert_eq!(f.uri, "http://localhost:5001/x?y=1");
            assert_eq!(f.forwarded_for, "10.0.0.9:55555");
            assert_eq!(f.forwarded_proto, "https");
            assert_eq!(f.forwarded_host, "api.test");
        },
        other => panic!("expected Forward, got {:?}", other),
    }
}

#[test]
fn plan_passes_explicit_non_443_port_through() {
    let m = merged();
    match plan_request(Some("api.test:5173"), None, None, "10.0.0.9:1", &m, false) {
        RequestPlan::Forward(f) => {
            assert_eq!(f.backend_port, 5173);
            assert_eq!(f.uri, "http://localhost:5173/");
            assert_eq!(f.forwarded_proto, "http");
        },
        other => panic!("expected Forward, got {:?}", other),
    }
}

#[test]
fn plan_maps_port_443_through_the_table() {
    let m = merged();
    match plan_request(Some("api.test:443"), None, Some("/"), "10.0.0.9:1", &m, true) {
        RequestPlan::Forward(f) => assert_eq!(f.backend_port, 5001),
        other => panic!("expected Forward, got {:?}", other),
    }
}

#[test]
fn plan_finds_mixed_case_mapping() {
    let m = merged();
    // stored as "App.Test"; the host normalizes to app.test and the
    // case-insensitive fallback finds it
    match plan_request(Some("app.test"), None, None, "10.0.0.9:1", &m, true) {
        RequestPlan::Forward(f) => assert_eq!(f.backend_port, 3000),
        other => panic!("expected Forward, got {:?}", other),
    }
}

#[test]
fn plan_rejects_unknown_and_missing_host() {
    let m = merged();
    assert!(matches!(
        plan_request(Some("nope.test"), None, None, "10.0.0.9:1", &m, true),
        RequestPlan::UnknownDomain
    ));
    assert!(matches!(
        plan_request(None, None, None, "10.0.0.9:1", &m, true),
        RequestPlan::MissingHost
    ));
    // the request-URI authority stands in for a missing header
    assert!(matches!(
        plan_request(None, Some("api.test"), None, "10.0.0.9:1", &m, true),
        RequestPlan::Forward(_)
    ));
}

#[test]
fn redirect_location_strips_port_and_keeps_path() {
    assert_eq!(redirect_location(Some("api.test:80"), Some("/a?b=c")), "https://api.test/a?b=c");
    assert_eq!(redirect_location(Some("api.test"), None), "https://api.test/");
    assert_eq!(redirect_location(None, Some("/x")), "https://localhost/x");
    // a bracketed IPv6 host keeps its brackets and loses only the port
    assert_eq!(redirect_location(Some("[::1]:8443"), Some("/x")), "https://[::1]/x");
    assert_eq!(redirect_location(Some("[::1]"), Some("/x")), "https://[::1]/x");
    // text after the colon that is not a port is not stripped
    assert_eq!(redirect_location(Some("api.test:x"), None), "https://api.test:x/");
}

#[test]
fn port_80_alone_activates_no_redirect() {
    let plan = listener_plan(&vec![80]);
    assert!(plan.is_empty(), "port 80 without 443 binds nothing");

    let plan = listener_plan(&vec![80, 443]);
    assert!(plan.contains(&(80, ListenerKind::Redirect)));
    assert!(plan.contains(&(443, ListenerKind::TlsAndSniff)));

    let plan = listener_plan(&vec![8443]);
    assert_eq!(plan, vec![(8443, ListenerKind::TlsAndSniff)]);
}

#[test]
fn tls_sniff_matches_handshake_byte() {
    assert!(roost::serve::proxy::is_tls_first_byte(0x16));
    assert!(!roost::serve::proxy::is_tls_first_byte(b'G'));
}
