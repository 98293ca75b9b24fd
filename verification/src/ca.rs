//! CA creation, naming and removal rules.
//!
//! Key generation and signing call into rcgen behind trusted wrappers;
//! reading and writing the CA files is I/O and lives in the
//! application crate.

use vstd::prelude::*;

use crate::config::{Config, RoostPaths};

verus! {

/// rcgen's error type, opaque to the verifier.
#[verifier::external_type_specification]
#[verifier::external_body]
pub struct ExRcgenError(rcgen::Error);

/// Why a CA operation failed.
#[derive(Debug, Clone, PartialEq, Eq)]
pub enum CaError {
    /// Key generation or signing failed.
    Crypto,
    /// A registered domain still references the CA.
    InUse { domain: String, ca: String },
}

impl CaError {
    /// One-line diagnostic; an in-use failure names both the CA and
    /// one offending domain.
    pub fn message(&self) -> (r: String)
        ensures
            self is InUse ==> r@ == "cannot remove CA '"@ + self->InUse_ca@ + "': domain '"@
                + self->InUse_domain@ + "' uses it"@,
    {
        match self {
            CaError::Crypto => String::from_str("CA key generation or signing failed"),
            CaError::InUse { domain, ca } => String::from_str("cannot remove CA '").concat(
                ca.as_str(),
            ).concat("': domain '").concat(domain.as_str()).concat("' uses it"),
        }
    }
}

/// The distinguished common name of a CA: `Roost CA (<name>)`.
pub fn ca_common_name(name: &str) -> (r: String)
    ensures
        r@ == "Roost CA ("@ + name@ + ")"@,
{
    String::from_str("Roost CA (").concat(name).concat(")")
}

/// Relies on rcgen: `KeyPair::generate`, `CertificateParams::default`
/// and `self_signed` build a fresh self-signed certificate whose
/// distinguished name carries the given common name, marked a CA with
/// key usages certificate signing and CRL signing; `Certificate::pem`
/// and `KeyPair::serialize_pem` render both as PEM.
#[verifier::external_body]
fn make_ca(cn: &str) -> (r: Result<(Vec<u8>, Vec<u8>), rcgen::Error>)
    ensures
        r is Ok ==> crate::cert::cert_parses((r->Ok_0).0@) && crate::cert::cert_cn((r->Ok_0).0@)
            == cn@ && crate::cert::cert_is_signing_ca((r->Ok_0).0@),
{
    let key_pair = rcgen::KeyPair::generate()?;
    let mut params = rcgen::CertificateParams::default();
    params.distinguished_name = rcgen::DistinguishedName::new();
    params.distinguished_name.push(rcgen::DnType::CommonName, cn.to_string());
    params.is_ca = rcgen::IsCa::Ca(rcgen::BasicConstraints::Unconstrained);
    params.key_usages = vec![rcgen::KeyUsagePurpose::KeyCertSign, rcgen::KeyUsagePurpose::CrlSign];
    let cert = params.self_signed(&key_pair)?;
    Ok((cert.pem().into_bytes(), key_pair.serialize_pem().into_bytes()))
}

/// Create the key material of a new CA with the given name: a
/// self-signed CA certificate PEM — its common name is
/// `Roost CA (<name>)`, its key usages certificate and CRL signing —
/// and its private key PEM.  Writing the two files under
/// `<data>/ca/<name>/` is the caller's task; key generation can
/// genuinely fail, and that is the only failure.
pub fn create_ca(name: &str) -> (r: Result<(Vec<u8>, Vec<u8>), CaError>)
    ensures
        r is Err ==> r->Err_0 is Crypto,
        r is Ok ==> crate::cert::cert_parses((r->Ok_0).0@) && crate::cert::cert_cn((r->Ok_0).0@)
            == "Roost CA ("@ + name@ + ")"@ && crate::cert::cert_is_signing_ca((r->Ok_0).0@),
{
    let cn = ca_common_name(name);
    match make_ca(cn.as_str()) {
        Ok(pair) => Ok(pair),
        Err(_) => Err(CaError::Crypto),
    }
}

/// Check that no registered domain references the CA; on success the
/// caller may delete the CA directory.
#[verifier::loop_isolation(false)]
pub fn remove_ca(config: &Config, name: &str) -> (r: Result<(), CaError>)
    ensures
        r is Ok <==> forall|j: int|
            0 <= j < config.domains@.len() ==> (#[trigger] config.domains@[j]).ca@ != name@,
        r is Err ==> r->Err_0 is InUse && (r->Err_0)->InUse_ca@ == name@ && exists|j: int|
            0 <= j < config.domains@.len() && (#[trigger] config.domains@[j]).ca@ == name@
                && config.domains@[j].domain@ == (r->Err_0)->InUse_domain@,
{
    let es = &config.domains;
    let n = es.len();
    let mut i: usize = 0;
    while i < n
        invariant
            n == es@.len(),
            i <= n,
            forall|j: int| 0 <= j < i ==> (#[trigger] es@[j]).ca@ != name@,
        decreases n - i,
    {
        if crate::text::str_eq(es[i].ca.as_str(), name) {
            return Err(
                CaError::InUse { domain: es[i].domain.clone(), ca: String::from_str(name) },
            );
        }
        i += 1;
    }
    Ok(())
}

/// The directory of a named CA.
pub fn ca_dir_path(paths: &RoostPaths, name: &str) -> (r: String)
    ensures
        r@ == paths.ca_dir@ + "/"@ + name@,
{
    paths.ca_dir.clone().concat("/").concat(name)
}

/// The certificate file of a named CA.
pub fn ca_pem_path(paths: &RoostPaths, name: &str) -> (r: String)
    ensures
        r@ == paths.ca_dir@ + "/"@ + name@ + "/ca.pem"@,
{
    ca_dir_path(paths, name).concat("/ca.pem")
}

/// The private-key file of a named CA.
pub fn ca_key_path(paths: &RoostPaths, name: &str) -> (r: String)
    ensures
        r@ == paths.ca_dir@ + "/"@ + name@ + "/ca-key.pem"@,
{
    ca_dir_path(paths, name).concat("/ca-key.pem")
}

/// Sort CA names for listing.
#[verifier::loop_isolation(false)]
pub fn sort_names(v: Vec<String>) -> (r: Vec<String>)
    ensures
        r@.len() == v@.len(),
        forall|i: int, j: int|
            0 <= i < j < r@.len() ==> !crate::text::seq_lt(#[trigger] r@[j]@, #[trigger] r@[i]@),
        forall|x: String| r@.contains(x) <==> v@.contains(x),
{
    broadcast use vstd::seq_lib::group_to_multiset_ensures;

    let n = v.len();
    let mut pairs: Vec<(String, bool)> = Vec::new();
    let mut i: usize = 0;
    while i < n
        invariant
            n == v@.len(),
            i <= n,
            pairs@.len() == i,
            forall|k: int| 0 <= k < i ==> #[trigger] pairs@[k] == (v@[k], true),
        decreases n - i,
    {
        pairs.push((v[i].clone(), true));
        proof {
            assert(v[i as int] == v@[i as int]);
        }
        i += 1;
    }
    let ghost pairs_view = pairs@;
    let sorted = crate::text::sort_by_key(pairs);
    let sn = sorted.len();
    let mut out: Vec<String> = Vec::new();
    let mut k: usize = 0;
    while k < sn
        invariant
            k <= sn,
            out@.len() == k,
            forall|j: int| 0 <= j < k ==> #[trigger] out@[j] == sorted@[j].0,
        decreases sn - k,
    {
        out.push(sorted[k].0.clone());
        k += 1;
    }
    proof {
        pairs_view.to_multiset_ensures();
        sorted@.to_multiset_ensures();
        assert(sorted@.to_multiset().len() == pairs_view.to_multiset().len());
        assert forall|x: String| out@.contains(x) implies v@.contains(x) by {
            let j = choose|j: int| 0 <= j < out@.len() && out@[j] == x;
            assert(sorted@.contains(sorted@[j]));
            assert(sorted@.to_multiset().count(sorted@[j]) > 0);
            assert(pairs_view.contains(sorted@[j]));
            let m = choose|m: int| 0 <= m < pairs_view.len() && pairs_view[m] == sorted@[j];
            assert(v@[m] == x);
        }
        assert forall|x: String| v@.contains(x) implies out@.contains(x) by {
            let m = choose|m: int| 0 <= m < v@.len() && v@[m] == x;
            assert(pairs_view[m] == (x, true));
            assert(pairs_view.contains(pairs_view[m]));
            assert(pairs_view.to_multiset().count(pairs_view[m]) > 0);
            assert(sorted@.contains(pairs_view[m]));
            let j = choose|j: int| 0 <= j < sorted@.len() && sorted@[j] == pairs_view[m];
            assert(out@[j] == x);
        }
    }
    out
}

} // verus!
