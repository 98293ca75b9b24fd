//! Add/remove domain in hosts content; 127.0.0.1 and ::1 lines.

use roost::hosts::{domain_in_hosts_content, hosts_content_add, hosts_content_remove};

#[test]
fn add_remove_domain_in_temp_hosts() {
    let content = "127.0.0.1\tlocalhost\n";

    let added = hosts_content_add(content, "api.test");
    assert!(added.contains("127.0.0.1\tapi.test"));
    assert!(added.contains("::1\tapi.test"));
    assert!(domain_in_hosts_content(&added, "api.test"));

    let removed = hosts_content_remove(&added, "api.test");
    assert!(!removed.contains("api.test"));
    assert!(removed.contains("localhost"));
}

#[test]
fn hosts_add_twice_yields_same_file() {
    let content = "127.0.0.1\tlocalhost\n";
    let once = hosts_content_add(content, "api.test");
    let twice = hosts_content_add(&once, "api.test");
    assert_eq!(once, twice);
}

#[test]
fn hosts_add_from_empty() {
    let added = hosts_content_add("", "app.test");
    assert_eq!(added, "127.0.0.1\tapp.test\n::1\tapp.test\n");
}
