//! cert_expires_within_days true/false for near/far expiry, and the
//! renewal decision.

#[test]
fn cert_expires_within_days_near_expiry() {
    let (ca_pem, ca_key_pem) = roost::ca::create_ca("default").unwrap();
    let (cert_pem, _key_pem) =
        roost::cert::generate_domain_cert("api.test", &ca_pem, &ca_key_pem, true).unwrap();

    // Huge threshold (1M days): cert expires within that -> true
    let expires_soon = roost::cert::cert_expires_within_days(&cert_pem, 1_000_000).unwrap();
    assert!(expires_soon);
}

#[test]
fn cert_expires_within_days_far_expiry() {
    let (ca_pem, ca_key_pem) = roost::ca::create_ca("default").unwrap();
    let (cert_pem, _key_pem) =
        roost::cert::generate_domain_cert("api.test", &ca_pem, &ca_key_pem, true).unwrap();

    // 5 days threshold: the default validity reaches far beyond -> false
    let expires_soon = roost::cert::cert_expires_within_days(&cert_pem, 5).unwrap();
    assert!(!expires_soon);
}

#[test]
fn expiry_check_rejects_garbage() {
    let err = roost::cert::cert_expires_within_days(b"not a pem", 30).unwrap_err();
    assert_eq!(err, roost::cert::CertError::Parse);
}

#[test]
fn renewal_regenerates_short_lived_leaf() {
    let (ca_pem, ca_key_pem) = roost::ca::create_ca("default").unwrap();
    let (short_pem, _key) = roost::cert::generate_domain_cert_with_validity(
        "api.test",
        &ca_pem,
        &ca_key_pem,
        false,
        5,
    )
    .unwrap();
    assert!(roost::cert::cert_expires_within_days(&short_pem, 30).unwrap());

    let now = roost::cert::now_unix_ts();
    let renewed = roost::cert::ensure_cert_valid(
        "api.test",
        &ca_pem,
        &ca_key_pem,
        false,
        Some(&short_pem),
        now,
    )
    .unwrap();
    let (new_pem, new_key) = renewed.expect("a short-lived leaf must be regenerated");
    assert_ne!(new_pem, short_pem, "regenerated cert must differ from the 5-day one");
    assert!(!new_key.is_empty());
    assert!(!roost::cert::cert_expires_within_days(&new_pem, 30).unwrap());
}

#[test]
fn renewal_keeps_long_lived_leaf() {
    let (ca_pem, ca_key_pem) = roost::ca::create_ca("default").unwrap();
    let (cert_pem, _key) =
        roost::cert::generate_domain_cert("api.test", &ca_pem, &ca_key_pem, false).unwrap();
    let now = roost::cert::now_unix_ts();
    let kept = roost::cert::ensure_cert_valid(
        "api.test",
        &ca_pem,
        &ca_key_pem,
        false,
        Some(&cert_pem),
        now,
    )
    .unwrap();
    assert!(kept.is_none(), "a far-from-expiry leaf is kept");
}

#[test]
fn ensure_cert_valid_creates_when_missing() {
    let (ca_pem, ca_key_pem) = roost::ca::create_ca("default").unwrap();
    let now = roost::cert::now_unix_ts();
    let made =
        roost::cert::ensure_cert_valid("newdomain.test", &ca_pem, &ca_key_pem, false, None, now)
            .unwrap();
    let (cert, key) = made.expect("a missing leaf must be issued");
    assert!(!cert.is_empty());
    assert!(!key.is_empty());
}
