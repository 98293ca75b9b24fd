//! Leaf certificates: SAN policy, issuance and expiry rules.
//!
//! Signing calls rcgen and expiry reading calls rustls-pemfile and
//! x509-parser, each behind a trusted wrapper; the PEM files
//! themselves are read and written by the application crate.

use vstd::prelude::*;

use x509_parser::prelude::FromDer;

verus! {

/// Why a certificate operation failed.
#[derive(Debug, Clone, PartialEq, Eq)]
pub enum CertError {
    /// Key generation or signing failed.
    Signing,
    /// The PEM or X.509 structure could not be read.
    Parse,
}

impl CertError {
    /// One-line diagnostic for the failure.
    pub fn message(&self) -> (r: String) {
        match self {
            CertError::Signing => String::from_str("certificate signing failed"),
            CertError::Parse => String::from_str("could not parse certificate"),
        }
    }
}

/// The subject alternative names of a leaf: the domain alone in exact
/// mode, the domain and its wildcard otherwise.
pub fn leaf_san_list(domain: &str, exact: bool) -> (r: Vec<String>)
    ensures
        exact ==> r.deep_view() == seq![domain@],
        !exact ==> r.deep_view() == seq![domain@, "*."@ + domain@],
{
    let mut v: Vec<String> = Vec::new();
    v.push(String::from_str(domain));
    if !exact {
        v.push(String::from_str("*.").concat(domain));
        proof {
            assert(v.deep_view() =~= seq![domain@, "*."@ + domain@]);
        }
    } else {
        proof {
            assert(v.deep_view() =~= seq![domain@]);
        }
    }
    v
}

/// The `notAfter` instant of the first certificate in a PEM block, as
/// Unix seconds; a pure function of the bytes.
pub uninterp spec fn cert_not_after(pem: Seq<u8>) -> int;

/// Whether the bytes decode to a PEM block holding a well-formed
/// X.509 certificate; a pure function of the bytes.
pub uninterp spec fn cert_parses(pem: Seq<u8>) -> bool;

/// The subject alternative names of the first certificate in a PEM
/// block, in order, each rendered as text; a pure function of the
/// bytes.
pub uninterp spec fn cert_sans(pem: Seq<u8>) -> Seq<Seq<char>>;

/// The subject common name of the first certificate in a PEM block;
/// a pure function of the bytes.
pub uninterp spec fn cert_cn(pem: Seq<u8>) -> Seq<char>;

/// Whether the first certificate in a PEM block is a CA certificate
/// whose key usages are certificate signing and CRL signing; a pure
/// function of the bytes.
pub uninterp spec fn cert_is_signing_ca(pem: Seq<u8>) -> bool;

/// rcgen's certificate type, opaque to the verifier; it carries the
/// reconstructed issuer between the two signing steps.
#[verifier::external_type_specification]
#[verifier::external_body]
pub struct ExCertificate(rcgen::Certificate);

/// rcgen's key-pair type, opaque to the verifier.
#[verifier::external_type_specification]
#[verifier::external_body]
pub struct ExKeyPair(rcgen::KeyPair);

/// Relies on std's `String::from_utf8`: it succeeds exactly on valid
/// UTF-8 bytes.
#[verifier::external_body]
fn bytes_to_string(b: &[u8]) -> (r: Option<String>)
    ensures
        r is Some <==> vstd::utf8::valid_utf8(b@),
{
    String::from_utf8(b.to_vec()).ok()
}

/// Relies on rcgen: `CertificateParams::from_ca_cert_pem` and
/// `KeyPair::from_pem` read the CA material and `self_signed`
/// reconstructs the issuer certificate.
#[verifier::external_body]
fn parse_issuer(ca_pem: &str, ca_key_pem: &str) -> Result<
    (rcgen::Certificate, rcgen::KeyPair),
    rcgen::Error,
> {
    let params = rcgen::CertificateParams::from_ca_cert_pem(ca_pem)?;
    let key = rcgen::KeyPair::from_pem(ca_key_pem)?;
    let cert = params.self_signed(&key)?;
    Ok((cert, key))
}

/// Relies on rcgen: `KeyPair::generate` draws a fresh subject key,
/// `CertificateParams::new` stores exactly the given subject
/// alternative names, the common name is pushed onto a fresh
/// distinguished name, `IsCa::NoCa` leaves the leaf a non-CA, and
/// `signed_by` writes all of that into the signed certificate.
/// Without an override, rcgen's default `not_after` is
/// 4096-01-01 00:00 UTC, Unix second 67090118400; with
/// `validity_days`, `not_after` moves to now plus that many days
/// (time's saturating `OffsetDateTime` addition, which never panics).
/// Both results are rendered as PEM.
#[verifier::external_body]
fn sign_leaf(
    sans: &Vec<String>,
    cn: &str,
    issuer: &rcgen::Certificate,
    issuer_key: &rcgen::KeyPair,
    validity_days: Option<u32>,
) -> (r: Result<(Vec<u8>, Vec<u8>), rcgen::Error>)
    ensures
        r is Ok ==> cert_parses((r->Ok_0).0@) && cert_sans((r->Ok_0).0@) == sans.deep_view()
            && cert_cn((r->Ok_0).0@) == cn@ && !cert_is_signing_ca((r->Ok_0).0@),
        validity_days is None && r is Ok ==> cert_not_after((r->Ok_0).0@) == 67090118400,
{
    let subject_key = rcgen::KeyPair::generate()?;
    let mut params = rcgen::CertificateParams::new(sans.clone())?;
    params.distinguished_name = rcgen::DistinguishedName::new();
    params.distinguished_name.push(rcgen::DnType::CommonName, cn.to_string());
    params.is_ca = rcgen::IsCa::NoCa;
    if let Some(days) = validity_days {
        params.not_after = time::OffsetDateTime::now_utc().saturating_add(
            time::Duration::days(days as i64),
        );
    }
    let cert = params.signed_by(&subject_key, issuer, issuer_key)?;
    Ok((cert.pem().into_bytes(), subject_key.serialize_pem().into_bytes()))
}

/// Issue one leaf: decode the CA material, reconstruct the issuer and
/// sign the given names.
fn issue_leaf(
    sans: &Vec<String>,
    cn: &str,
    ca_pem: &[u8],
    ca_key_pem: &[u8],
    validity_days: Option<u32>,
) -> (r: Result<(Vec<u8>, Vec<u8>), CertError>)
    ensures
        r == Err::<(Vec<u8>, Vec<u8>), CertError>(CertError::Parse) <==> !vstd::utf8::valid_utf8(
            ca_pem@,
        ) || !vstd::utf8::valid_utf8(ca_key_pem@),
        r is Err ==> r->Err_0 is Parse || r->Err_0 is Signing,
        r is Ok ==> cert_parses((r->Ok_0).0@) && cert_sans((r->Ok_0).0@) == sans.deep_view()
            && cert_cn((r->Ok_0).0@) == cn@ && !cert_is_signing_ca((r->Ok_0).0@),
        validity_days is None && r is Ok ==> cert_not_after((r->Ok_0).0@) == 67090118400,
{
    let ca_str = match bytes_to_string(ca_pem) {
        Some(s) => s,
        None => {
            return Err(CertError::Parse);
        },
    };
    let key_str = match bytes_to_string(ca_key_pem) {
        Some(s) => s,
        None => {
            return Err(CertError::Parse);
        },
    };
    let (issuer, issuer_key) = match parse_issuer(ca_str.as_str(), key_str.as_str()) {
        Ok(pair) => pair,
        Err(_) => {
            return Err(CertError::Signing);
        },
    };
    match sign_leaf(sans, cn, &issuer, &issuer_key, validity_days) {
        Ok(pair) => Ok(pair),
        Err(_) => Err(CertError::Signing),
    }
}

/// Generate a leaf for the domain, signed by the given CA material:
/// the issued certificate's SANs are `{domain, *.domain}`, or
/// `{domain}` in exact mode, its common name is the domain, it is not
/// a CA, and its expiry is rcgen's default, the first day of 4096.
pub fn generate_domain_cert(domain: &str, ca_pem: &[u8], ca_key_pem: &[u8], exact: bool) -> (r:
    Result<(Vec<u8>, Vec<u8>), CertError>)
    ensures
        r == Err::<(Vec<u8>, Vec<u8>), CertError>(CertError::Parse) <==> !vstd::utf8::valid_utf8(
            ca_pem@,
        ) || !vstd::utf8::valid_utf8(ca_key_pem@),
        r is Err ==> r->Err_0 is Parse || r->Err_0 is Signing,
        r is Ok ==> cert_parses((r->Ok_0).0@) && cert_cn((r->Ok_0).0@) == domain@
            && !cert_is_signing_ca((r->Ok_0).0@),
        r is Ok && exact ==> cert_sans((r->Ok_0).0@) == seq![domain@],
        r is Ok && !exact ==> cert_sans((r->Ok_0).0@) == seq![domain@, "*."@ + domain@],
        r is Ok ==> cert_not_after((r->Ok_0).0@) == 67090118400,
{
    let sans = leaf_san_list(domain, exact);
    issue_leaf(&sans, domain, ca_pem, ca_key_pem, None)
}

/// Generate a leaf whose validity ends `validity_days` from now; used
/// to exercise renewal.  SANs, common name and the non-CA constraint
/// are as in `generate_domain_cert`; the expiry depends on the clock
/// and carries no further claim.
pub fn generate_domain_cert_with_validity(
    domain: &str,
    ca_pem: &[u8],
    ca_key_pem: &[u8],
    exact: bool,
    validity_days: u32,
) -> (r: Result<(Vec<u8>, Vec<u8>), CertError>)
    ensures
        r == Err::<(Vec<u8>, Vec<u8>), CertError>(CertError::Parse) <==> !vstd::utf8::valid_utf8(
            ca_pem@,
        ) || !vstd::utf8::valid_utf8(ca_key_pem@),
        r is Err ==> r->Err_0 is Parse || r->Err_0 is Signing,
        r is Ok ==> cert_parses((r->Ok_0).0@) && cert_cn((r->Ok_0).0@) == domain@
            && !cert_is_signing_ca((r->Ok_0).0@),
        r is Ok && exact ==> cert_sans((r->Ok_0).0@) == seq![domain@],
        r is Ok && !exact ==> cert_sans((r->Ok_0).0@) == seq![domain@, "*."@ + domain@],
{
    let sans = leaf_san_list(domain, exact);
    issue_leaf(&sans, domain, ca_pem, ca_key_pem, Some(validity_days))
}

/// Relies on rustls-pemfile's `certs` to decode the first PEM
/// certificate block and on x509-parser's `X509Certificate::from_der`
/// and `Validity::not_after` to read its expiry; both parses and the
/// result depend on the bytes alone.
#[verifier::external_body]
fn read_not_after(pem: &[u8]) -> (r: Option<i64>)
    ensures
        r is Some <==> cert_parses(pem@),
        r is Some ==> r->0 == cert_not_after(pem@),
{
    let der = rustls_pemfile::certs(&mut &pem[..]).next().and_then(|c| c.ok())?;
    let (_, cert) = x509_parser::certificate::X509Certificate::from_der(der.as_ref()).ok()?;
    Some(cert.validity().not_after.timestamp())
}

/// Relies on time's `OffsetDateTime::now_utc`: the current Unix
/// timestamp; a fresh reading on every call.
#[verifier::external_body]
pub fn now_unix_ts() -> i64 {
    time::OffsetDateTime::now_utc().unix_timestamp()
}

/// Whether the certificate expires within `days` of the instant
/// `now_ts`, comparing in UTC seconds.
pub fn expires_within_at(pem: &[u8], now_ts: i64, days: u32) -> (r: Result<bool, CertError>)
    ensures
        r is Ok <==> cert_parses(pem@),
        r is Ok && now_ts + days * 86400 <= i64::MAX ==> r->Ok_0 == (cert_not_after(pem@) < now_ts
            + days * 86400),
        r is Ok && now_ts + days * 86400 > i64::MAX ==> r->Ok_0,
        r is Err ==> r->Err_0 == CertError::Parse,
{
    let not_after = match read_not_after(pem) {
        Some(ts) => ts,
        None => {
            return Err(CertError::Parse);
        },
    };
    let span: i64 = (days as i64) * 86400;
    match now_ts.checked_add(span) {
        Some(threshold) => Ok(not_after < threshold),
        None => Ok(true),
    }
}

/// Whether the certificate expires within `days` of now; it fails
/// exactly when the bytes do not parse as a certificate.
pub fn cert_expires_within_days(pem: &[u8], days: u32) -> (r: Result<bool, CertError>)
    ensures
        r is Ok <==> cert_parses(pem@),
        r is Err ==> r->Err_0 == CertError::Parse,
{
    let now = now_unix_ts();
    expires_within_at(pem, now, days)
}

/// The renewal threshold: leaves are renewed within 30 days of expiry.
pub fn renewal_threshold_days() -> (r: u32)
    ensures
        r == 30,
{
    30
}

/// Ensure a valid leaf exists for the domain as of the instant
/// `now_ts`: issue a fresh pair when no leaf is given or the given one
/// expires within 30 days, else keep the existing files.  A kept leaf
/// is provably good for more than 30 days past `now_ts`; the caller
/// saves a returned pair.
pub fn ensure_cert_valid(
    domain: &str,
    ca_pem: &[u8],
    ca_key_pem: &[u8],
    exact: bool,
    existing_leaf: Option<&Vec<u8>>,
    now_ts: i64,
) -> (r: Result<Option<(Vec<u8>, Vec<u8>)>, CertError>)
    requires
        now_ts + 30 * 86400 <= i64::MAX,
    ensures
        existing_leaf is None && r is Ok ==> r->Ok_0 is Some,
        r is Ok && r->Ok_0 is None ==> existing_leaf is Some && cert_not_after(
            existing_leaf->0@,
        ) >= now_ts + 30 * 86400,
        existing_leaf is Some && cert_parses(existing_leaf->0@) && cert_not_after(
            existing_leaf->0@,
        ) >= now_ts + 30 * 86400 ==> r == Ok::<Option<(Vec<u8>, Vec<u8>)>, CertError>(None),
        existing_leaf is Some && !cert_parses(existing_leaf->0@) ==> r == Err::<
            Option<(Vec<u8>, Vec<u8>)>,
            CertError,
        >(CertError::Parse),
        r is Ok && r->Ok_0 is Some ==> cert_not_after(((r->Ok_0)->0).0@) == 67090118400,
        r is Ok && r->Ok_0 is Some && now_ts + 30 * 86400 <= 67090118400 ==> cert_not_after(
            ((r->Ok_0)->0).0@,
        ) >= now_ts + 30 * 86400,
{
    let regen = match existing_leaf {
        None => true,
        Some(pem) => expires_within_at(pem.as_slice(), now_ts, renewal_threshold_days())?,
    };
    if regen {
        match generate_domain_cert(domain, ca_pem, ca_key_pem, exact) {
            Ok(pair) => Ok(Some(pair)),
            Err(e) => Err(e),
        }
    } else {
        Ok(None)
    }
}

} // verus!
