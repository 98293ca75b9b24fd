//! Cert SANs: wildcard has domain+*.domain, exact has only domain.

use x509_parser::extensions::GeneralName;
use x509_parser::prelude::FromDer;

fn get_sans(cert_pem: &[u8]) -> Vec<String> {
    let mut cursor = std::io::Cursor::new(cert_pem);
    let cert_der = rustls_pemfile::certs(&mut cursor)
        .next()
        .and_then(|r| r.ok())
        .unwrap();
    let (_, x509) =
        x509_parser::prelude::X509Certificate::from_der(cert_der.as_ref()).unwrap();
    let mut sans = Vec::new();
    if let Ok(Some(ext)) = x509.subject_alternative_name() {
        for name in ext.value.general_names.iter() {
            if let GeneralName::DNSName(s) = name {
                sans.push(s.to_string());
            }
        }
    }
    sans.sort();
    sans
}

#[test]
fn wildcard_cert_has_both_domain_and_star() {
    let (ca_pem, ca_key_pem) = roost::ca::create_ca("default").unwrap();

    let (cert_pem, _key_pem) =
        roost::cert::generate_domain_cert("api.example.local", &ca_pem, &ca_key_pem, false)
            .unwrap();

    let sans = get_sans(&cert_pem);
    assert_eq!(sans, vec!["*.api.example.local", "api.example.local"]);
}

#[test]
fn exact_cert_has_only_domain() {
    let (ca_pem, ca_key_pem) = roost::ca::create_ca("default").unwrap();

    let (cert_pem, _key_pem) =
        roost::cert::generate_domain_cert("api.test", &ca_pem, &ca_key_pem, true).unwrap();

    let sans = get_sans(&cert_pem);
    assert_eq!(sans, vec!["api.test"]);
}

#[test]
fn leaf_san_list_matches_policy() {
    let exact = roost::cert::leaf_san_list("api.test", true);
    assert_eq!(exact, vec!["api.test".to_string()]);
    let wild = roost::cert::leaf_san_list("api.test", false);
    assert_eq!(wild, vec!["api.test".to_string(), "*.api.test".to_string()]);
}

#[test]
fn ca_pem_looks_like_a_certificate() {
    let (ca_pem, key_pem) = roost::ca::create_ca("testca").unwrap();
    let ca_text = String::from_utf8(ca_pem).unwrap();
    let key_text = String::from_utf8(key_pem).unwrap();
    assert!(ca_text.contains("-----BEGIN CERTIFICATE-----"));
    assert!(ca_text.contains("-----END CERTIFICATE-----"));
    assert!(key_text.contains("-----BEGIN") && key_text.contains("-----END"));
}
