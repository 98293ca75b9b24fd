//! Doctor: health checks over facts the application gathered from the
//! store, the hosts file and the trust store.

use vstd::prelude::*;

use crate::serve::config::MappingSource;

verus! {

/// Result of a single check.
#[derive(Debug, Clone)]
pub struct CheckResult {
    pub ok: bool,
    pub message: String,
}

/// What the application observed about one merged domain.
#[derive(Debug, Clone)]
pub struct DomainFacts {
    pub domain: String,
    pub source: MappingSource,
    /// Whether the hosts file maps the domain; `None` when the hosts
    /// file could not be read.
    pub in_hosts: Option<bool>,
    /// The CA the registry records for the domain, if registered.
    pub registered_ca: Option<String>,
    /// Whether the leaf certificate file exists.
    pub cert_file: bool,
    /// Whether the leaf key file exists.
    pub key_file: bool,
    /// Whether both leaf files could be read.
    pub cert_readable: bool,
    /// Whether the leaf certificate is already expired.
    pub expired: bool,
    /// Whether the domain's CA is installed in the trust store;
    /// `None` when the store could not be queried.
    pub ca_installed: Option<bool>,
}

impl DomainFacts {
    /// The leaf is present, readable and not expired.
    pub open spec fn cert_ok(self) -> bool {
        self.cert_file && self.key_file && self.cert_readable && !self.expired
    }
}

/// The `[domain] (source)` prefix of a check message.
fn fact_prefix(fact: &DomainFacts) -> (r: String) {
    let src = match fact.source {
        MappingSource::Project => "project",
        MappingSource::Global => "global",
    };
    String::from_str("[").concat(fact.domain.as_str()).concat("] (").concat(src).concat(") ")
}

/// The three checks for one domain: hosts mapping, certificate, and
/// trust-store installation; an unregistered domain gets a single
/// failing registration check after the hosts check.
fn check_domain(fact: &DomainFacts) -> (r: Vec<CheckResult>)
    ensures
        2 <= r@.len() <= 3,
        r@[0].ok == (fact.in_hosts == Some(true)),
        fact.registered_ca is None ==> r@.len() == 2 && !r@[1].ok,
        fact.registered_ca is Some ==> r@.len() == 3 && r@[1].ok == fact.cert_ok() && r@[2].ok == (
        fact.ca_installed == Some(true)),
{
    let mut out: Vec<CheckResult> = Vec::new();
    let hosts_ok = match fact.in_hosts {
        Some(true) => true,
        _ => false,
    };
    let hosts_msg = if hosts_ok {
        fact_prefix(fact).concat("in hosts file")
    } else {
        fact_prefix(fact).concat("not in hosts file; add the domain to repair")
    };
    out.push(CheckResult { ok: hosts_ok, message: hosts_msg });
    match &fact.registered_ca {
        None => {
            out.push(
                CheckResult {
                    ok: false,
                    message: fact_prefix(fact).concat("mapped but not registered"),
                },
            );
        },
        Some(ca) => {
            let cert_ok = fact.cert_file && fact.key_file && fact.cert_readable && !fact.expired;
            let cert_msg = if !fact.cert_file {
                fact_prefix(fact).concat("missing cert")
            } else if !fact.key_file {
                fact_prefix(fact).concat("missing key")
            } else if !fact.cert_readable {
                fact_prefix(fact).concat("invalid cert/key")
            } else if fact.expired {
                fact_prefix(fact).concat("cert expired")
            } else {
                fact_prefix(fact).concat("cert and key valid")
            };
            out.push(CheckResult { ok: cert_ok, message: cert_msg });
            let trust_ok = match fact.ca_installed {
                Some(true) => true,
                _ => false,
            };
            let trust_msg = if trust_ok {
                fact_prefix(fact).concat("CA '").concat(ca.as_str()).concat("' installed")
            } else {
                fact_prefix(fact).concat("CA '").concat(ca.as_str()).concat("' not installed")
            };
            out.push(CheckResult { ok: trust_ok, message: trust_msg });
        },
    }
    out
}

/// Run all checks: one for the CA inventory, then the per-domain
/// checks; with no mappings a single passing note follows.
#[verifier::loop_isolation(false)]
pub fn run_checks(cas: &Vec<String>, facts: &Vec<DomainFacts>) -> (r: Vec<CheckResult>)
    ensures
        r@.len() >= 2,
        r@[0].ok == (cas@.len() > 0),
        facts@.len() == 0 ==> r@.len() == 2 && r@[1].ok,
{
    let mut out: Vec<CheckResult> = Vec::new();
    if cas.len() == 0 {
        out.push(
            CheckResult {
                ok: false,
                message: String::from_str("No CA found. Create one to get started."),
            },
        );
    } else {
        out.push(
            CheckResult { ok: true, message: String::from_str("Found at least one CA.") },
        );
    }
    if facts.len() == 0 {
        out.push(
            CheckResult {
                ok: true,
                message: String::from_str("No domain mappings configured."),
            },
        );
        return out;
    }
    let n = facts.len();
    let mut i: usize = 0;
    while i < n
        invariant
            i <= n,
            out@.len() >= 1,
            out@[0].ok == (cas@.len() > 0),
            i > 0 ==> out@.len() >= 3,
        decreases n - i,
    {
        let mut block = check_domain(&facts[i]);
        let ghost first = out@[0];
        let ghost base = out@.len();
        let m = block.len();
        let mut k: usize = 0;
        while k < m
            invariant
                k <= m,
                out@.len() == base + k,
                base >= 1,
                out@[0] == first,
            decreases m - k,
        {
            let item = CheckResult { ok: block[k].ok, message: block[k].message.clone() };
            out.push(item);
            k += 1;
        }
        i += 1;
    }
    proof {
        assert(out@.len() >= 3);
    }
    out
}

} // verus!
