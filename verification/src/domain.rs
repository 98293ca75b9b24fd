//! Domain validation, registration and rebinding.

use vstd::prelude::*;

use crate::config::{entries_view, Config};
use crate::text::{ascii_lowercase, lower_seq, split_seq, split_str, str_eq};

verus! {

/// Characters a hostname label may contain.
pub open spec fn is_hostname_char(c: char) -> bool {
    ('a' <= c && c <= 'z') || ('A' <= c && c <= 'Z') || ('0' <= c && c <= '9') || c == '-'
}

/// Two dots in a row somewhere in the name.
pub open spec fn has_consecutive_dots(s: Seq<char>) -> bool {
    exists|i: int| 0 <= i && i + 1 < s.len() && s[i] == '.' && #[trigger] s[i + 1] == '.'
}

/// A label is non-empty, made of hostname characters, and does not
/// start or end with a hyphen.
pub open spec fn valid_label(l: Seq<char>) -> bool {
    &&& l.len() > 0
    &&& (forall|i: int| 0 <= i < l.len() ==> is_hostname_char(#[trigger] l[i]))
    &&& l[0] != '-'
    &&& l[l.len() - 1] != '-'
}

/// Why a domain name was rejected.
#[derive(Debug, Clone, PartialEq, Eq)]
pub enum DomainError {
    EmptyHostname,
    ConsecutiveDots,
    BareLocalhost,
    EmptyLabel,
    IllegalChar(char),
    HyphenEdge,
    DisallowedTld(String),
}

impl DomainError {
    /// One-line diagnostic for the failure; a rejected TLD names the
    /// allowlist, and the bare-localhost refusal names localhost.
    pub fn message(&self) -> (r: String)
        ensures
            self is EmptyHostname ==> r@ == "empty hostname"@,
            self is ConsecutiveDots ==> r@ == "invalid hostname: consecutive dots"@,
            self is BareLocalhost ==> r@ == "bare localhost not allowed"@,
            self is EmptyLabel ==> r@ == "invalid hostname: empty label"@,
            self is IllegalChar ==> r@ == "invalid hostname: illegal character"@,
            self is HyphenEdge ==> r@ == "invalid hostname: label cannot start/end with hyphen"@,
            self is DisallowedTld ==> r@ == "TLD ."@ + self->DisallowedTld_0@
                + " not in allowlist; use --allow to override"@,
    {
        match self {
            DomainError::EmptyHostname => String::from_str("empty hostname"),
            DomainError::ConsecutiveDots => String::from_str("invalid hostname: consecutive dots"),
            DomainError::BareLocalhost => String::from_str("bare localhost not allowed"),
            DomainError::EmptyLabel => String::from_str("invalid hostname: empty label"),
            DomainError::IllegalChar(_) => String::from_str("invalid hostname: illegal character"),
            DomainError::HyphenEdge => String::from_str(
                "invalid hostname: label cannot start/end with hyphen",
            ),
            DomainError::DisallowedTld(tld) => String::from_str("TLD .").concat(
                tld.as_str(),
            ).concat(" not in allowlist; use --allow to override"),
        }
    }
}

/// The developer-safe top-level domains accepted without `--allow`.
pub open spec fn allowed_tld(t: Seq<char>) -> bool {
    ||| t == "test"@
    ||| t == "example"@
    ||| t == "invalid"@
    ||| t == "localhost"@
    ||| t == "local"@
    ||| t == "internal"@
    ||| t == "lan"@
    ||| t == "home"@
    ||| t == "localdomain"@
    ||| t == "corp"@
    ||| t == "private"@
    ||| t == "docker"@
    ||| t == "dev"@
}

/// The allowlisted top-level domains, in their canonical order.
pub fn tld_allowlist() -> (r: Vec<String>)
    ensures
        r.deep_view() == seq![
            "test"@,
            "example"@,
            "invalid"@,
            "localhost"@,
            "local"@,
            "internal"@,
            "lan"@,
            "home"@,
            "localdomain"@,
            "corp"@,
            "private"@,
            "docker"@,
            "dev"@,
        ],
        forall|i: int| 0 <= i < r.deep_view().len() ==> allowed_tld(#[trigger] r.deep_view()[i]),
{
    let mut v: Vec<String> = Vec::new();
    v.push(String::from_str("test"));
    v.push(String::from_str("example"));
    v.push(String::from_str("invalid"));
    v.push(String::from_str("localhost"));
    v.push(String::from_str("local"));
    v.push(String::from_str("internal"));
    v.push(String::from_str("lan"));
    v.push(String::from_str("home"));
    v.push(String::from_str("localdomain"));
    v.push(String::from_str("corp"));
    v.push(String::from_str("private"));
    v.push(String::from_str("docker"));
    v.push(String::from_str("dev"));
    proof {
        assert(v.deep_view() =~= seq![
            "test"@,
            "example"@,
            "invalid"@,
            "localhost"@,
            "local"@,
            "internal"@,
            "lan"@,
            "home"@,
            "localdomain"@,
            "corp"@,
            "private"@,
            "docker"@,
            "dev"@,
        ]);
    }
    v
}

/// Hostname well-formedness: ASCII labels of alphanumerics and `-`,
/// no empty or hyphen-edged label, no consecutive dots, and not the
/// bare name `localhost`.
pub open spec fn hostname_ok(s: Seq<char>) -> bool {
    &&& s.len() > 0
    &&& !has_consecutive_dots(s)
    &&& s != "localhost"@
    &&& forall|k: int|
        0 <= k < split_seq(s, '.').len() ==> valid_label(#[trigger] split_seq(s, '.')[k])
}

/// Validate hostname format.
#[verifier::loop_isolation(false)]
pub fn validate_hostname(domain: &str) -> (r: Result<(), DomainError>)
    ensures
        r is Ok <==> hostname_ok(domain@),
        r == Err::<(), DomainError>(DomainError::EmptyHostname) <==> domain@.len() == 0,
        r == Err::<(), DomainError>(DomainError::ConsecutiveDots) <==> domain@.len() > 0
            && has_consecutive_dots(domain@),
        r == Err::<(), DomainError>(DomainError::BareLocalhost) <==> domain@.len() > 0
            && !has_consecutive_dots(domain@) && domain@ == "localhost"@,
        r is Err && r->Err_0 is EmptyLabel ==> exists|k: int|
            0 <= k < split_seq(domain@, '.').len() && #[trigger] split_seq(domain@, '.')[k].len()
                == 0,
        r is Err && r->Err_0 is IllegalChar ==> exists|k: int, j: int|
            0 <= k < split_seq(domain@, '.').len() && 0 <= j < split_seq(domain@, '.')[k].len()
                && !is_hostname_char(#[trigger] split_seq(domain@, '.')[k][j]),
        r is Err && r->Err_0 is HyphenEdge ==> exists|k: int|
            0 <= k < split_seq(domain@, '.').len() && !valid_label(
                #[trigger] split_seq(domain@, '.')[k],
            ),
        !(r is Err && r->Err_0 is DisallowedTld),
{
    let n = domain.unicode_len();
    if n == 0 {
        return Err(DomainError::EmptyHostname);
    }
    let mut i: usize = 0;
    while i + 1 < n
        invariant
            n == domain@.len(),
            i < n,
            forall|j: int| 0 <= j < i ==> !(domain@[j] == '.' && #[trigger] domain@[j + 1] == '.'),
        decreases n - i,
    {
        if domain.get_char(i) == '.' && domain.get_char(i + 1) == '.' {
            return Err(DomainError::ConsecutiveDots);
        }
        i += 1;
    }
    proof {
        assert(!has_consecutive_dots(domain@));
    }
    if str_eq(domain, "localhost") {
        return Err(DomainError::BareLocalhost);
    }
    let labels = split_str(domain, '.');
    let mut k: usize = 0;
    while k < labels.len()
        invariant
            labels.deep_view() == split_seq(domain@, '.'),
            k <= labels.len(),
            forall|t: int| 0 <= t < k ==> valid_label(#[trigger] labels.deep_view()[t]),
        decreases labels.len() - k,
    {
        let label = &labels[k];
        proof {
            assert(labels.deep_view()[k as int] == labels@[k as int]@);
        }
        let m = label.as_str().unicode_len();
        if m == 0 {
            return Err(DomainError::EmptyLabel);
        }
        let mut j: usize = 0;
        while j < m
            invariant
                m == label@.len(),
                j <= m,
                labels.deep_view() == split_seq(domain@, '.'),
                0 <= k < labels.deep_view().len(),
                label@ == labels.deep_view()[k as int],
                forall|t: int| 0 <= t < j ==> is_hostname_char(#[trigger] label@[t]),
            decreases m - j,
        {
            let c = label.as_str().get_char(j);
            let legal = ('a' <= c && c <= 'z') || ('A' <= c && c <= 'Z') || ('0' <= c && c <= '9')
                || c == '-';
            if !legal {
                return Err(DomainError::IllegalChar(c));
            }
            j += 1;
        }
        if label.as_str().get_char(0) == '-' || label.as_str().get_char(m - 1) == '-' {
            return Err(DomainError::HyphenEdge);
        }
        proof {
            assert(valid_label(labels.deep_view()[k as int]));
        }
        k += 1;
    }
    Ok(())
}

/// Validate a domain against the TLD allowlist; `allow_any_tld` skips
/// the allowlist and keeps only the hostname checks.
pub fn validate_domain(domain: &str, allow_any_tld: bool) -> (r: Result<(), DomainError>)
    ensures
        allow_any_tld ==> (r is Ok <==> hostname_ok(domain@)),
        !allow_any_tld ==> (r is Ok <==> hostname_ok(domain@) && allowed_tld(
            lower_seq(split_seq(domain@, '.').last()),
        )),
        r is Err && r->Err_0 is DisallowedTld ==> !allowed_tld(
            lower_seq(split_seq(domain@, '.').last()),
        ),
{
    if allow_any_tld {
        return validate_hostname(domain);
    }
    let parts = split_str(domain, '.');
    proof {
        crate::text::lemma_split_nonempty(domain@, '.');
    }
    let last = &parts[parts.len() - 1];
    let tld = ascii_lowercase(last.as_str());
    let t = tld.as_str();
    let listed = str_eq(t, "test") || str_eq(t, "example") || str_eq(t, "invalid") || str_eq(
        t,
        "localhost",
    ) || str_eq(t, "local") || str_eq(t, "internal") || str_eq(t, "lan") || str_eq(t, "home")
        || str_eq(t, "localdomain") || str_eq(t, "corp") || str_eq(t, "private") || str_eq(
        t,
        "docker",
    ) || str_eq(t, "dev");
    if !listed {
        return Err(DomainError::DisallowedTld(tld));
    }
    validate_hostname(domain)
}

// ---------------------------------------------------------------------------
// The registry: add, remove, rebind
// ---------------------------------------------------------------------------

/// Why a registry operation failed.
#[derive(Debug, Clone, PartialEq, Eq)]
pub enum RegistryError {
    /// The named CA has no key material on disk.
    UnknownCa(String),
    /// The domain is not registered.
    UnknownDomain(String),
    /// The hosts-file editor reported a failure.
    Hosts(crate::platform::PlatformError),
}

impl RegistryError {
    /// One-line diagnostic for the failure.
    pub fn message(&self) -> (r: String) {
        match self {
            RegistryError::UnknownCa(name) => String::from_str("CA '").concat(
                name.as_str(),
            ).concat("' does not exist; create it first"),
            RegistryError::UnknownDomain(d) => String::from_str("domain '").concat(
                d.as_str(),
            ).concat("' not found"),
            RegistryError::Hosts(e) => String::from_str("hosts file update failed: ").concat(
                e.detail.as_str(),
            ),
        }
    }
}

/// The CA new domains are signed with: the configured default, set to
/// `default` when none is configured yet.
pub fn effective_default_ca(config: &mut Config) -> (r: String)
    ensures
        final(config).domains@ == old(config).domains@,
        final(config).default_ca@ == r@,
        old(config).default_ca@.len() == 0 ==> r@ == "default"@,
        old(config).default_ca@.len() > 0 ==> r@ == old(config).default_ca@,
{
    if config.default_ca.as_str().unicode_len() == 0 {
        config.default_ca = String::from_str("default");
    }
    config.default_ca.clone()
}

/// Refuse to register against a CA whose key material is absent.
pub fn require_ca(ca_exists: bool, ca_name: &str) -> (r: Result<(), RegistryError>)
    ensures
        r is Ok <==> ca_exists,
        r is Err ==> r->Err_0 == RegistryError::UnknownCa(r->Err_0->UnknownCa_0)
            && r->Err_0->UnknownCa_0@ == ca_name@,
{
    if ca_exists {
        Ok(())
    } else {
        Err(RegistryError::UnknownCa(String::from_str(ca_name)))
    }
}

/// Register a domain under a CA.  Registration is refused while the
/// CA's key material is absent, so every recorded binding names an
/// existing CA.  The hosts file is updated before the registry so
/// that a failed edit leaves no half-registered state: on any error
/// the configuration is unchanged.
pub fn add_domain<E: crate::platform::HostsEditor>(
    config: &mut Config,
    domain: &str,
    ca_name: &str,
    ca_exists: bool,
    editor: Option<&E>,
) -> (r: Result<(), RegistryError>)
    ensures
        r is Ok ==> ca_exists && final(config).default_ca@ == old(config).default_ca@
            && entries_view(final(config).domains@) == crate::config::upsert(
            entries_view(old(config).domains@),
            domain@,
            ca_name@,
        ) && final(config).domains_map() == old(config).domains_map().insert(domain@, ca_name@)
            && (old(config).wf() ==> final(config).wf()),
        ca_exists && editor is None ==> r is Ok,
        !ca_exists ==> r == Err::<(), RegistryError>(
            RegistryError::UnknownCa(r->Err_0->UnknownCa_0),
        ) && r->Err_0->UnknownCa_0@ == ca_name@,
        r is Err ==> *final(config) == *old(config) && (r->Err_0 is Hosts || r->Err_0
            is UnknownCa),
{
    if !ca_exists {
        return Err(RegistryError::UnknownCa(String::from_str(ca_name)));
    }
    if let Some(e) = editor {
        match e.add_domain(domain) {
            Ok(()) => (),
            Err(pe) => {
                return Err(RegistryError::Hosts(pe));
            },
        }
    }
    config.insert_domain(String::from_str(domain), String::from_str(ca_name));
    Ok(())
}

/// Drop a domain from the registry and the hosts file.  The entry is
/// removed even when the hosts edit fails; deleting the leaf files is
/// the caller's best-effort task.
pub fn remove_domain<E: crate::platform::HostsEditor>(
    config: &mut Config,
    domain: &str,
    editor: Option<&E>,
) -> (r: Result<(), RegistryError>)
    ensures
        final(config).default_ca@ == old(config).default_ca@,
        final(config).domains_map() == old(config).domains_map().remove(domain@),
        old(config).wf() ==> final(config).wf(),
        editor is None ==> r is Ok,
        r is Err ==> r->Err_0 is Hosts,
{
    config.remove_domain_entry(domain);
    if let Some(e) = editor {
        match e.remove_domain(domain) {
            Ok(()) => (),
            Err(pe) => {
                return Err(RegistryError::Hosts(pe));
            },
        }
    }
    Ok(())
}

/// Rebind a registered domain to another existing CA; the caller then
/// regenerates the leaf unconditionally.
pub fn set_ca(config: &mut Config, domain: &str, ca_name: &str, ca_exists: bool) -> (r: Result<
    (),
    RegistryError,
>)
    ensures
        r is Ok <==> old(config).domains_map().contains_key(domain@) && ca_exists,
        r is Ok ==> final(config).default_ca@ == old(config).default_ca@
            && final(config).domains_map() == old(config).domains_map().insert(domain@, ca_name@)
            && (old(config).wf() ==> final(config).wf()),
        r is Err ==> *final(config) == *old(config),
        !old(config).domains_map().contains_key(domain@) ==> r == Err::<(), RegistryError>(
            RegistryError::UnknownDomain(r->Err_0->UnknownDomain_0),
        ) && r->Err_0->UnknownDomain_0@ == domain@,
        old(config).domains_map().contains_key(domain@) && !ca_exists ==> r == Err::<
            (),
            RegistryError,
        >(RegistryError::UnknownCa(r->Err_0->UnknownCa_0)) && r->Err_0->UnknownCa_0@ == ca_name@,
{
    if !config.contains_domain(domain) {
        return Err(RegistryError::UnknownDomain(String::from_str(domain)));
    }
    if !ca_exists {
        return Err(RegistryError::UnknownCa(String::from_str(ca_name)));
    }
    config.insert_domain(String::from_str(domain), String::from_str(ca_name));
    Ok(())
}

/// The leaf certificate and key paths for a domain; never touches
/// disk.
pub fn get_cert_paths(paths: &crate::config::RoostPaths, domain: &str) -> (r: (String, String))
    ensures
        r.0@ == paths.certs_dir@ + "/"@ + domain@ + ".pem"@,
        r.1@ == paths.certs_dir@ + "/"@ + domain@ + "-key.pem"@,
{
    let base = paths.certs_dir.clone().concat("/").concat(domain);
    (base.clone().concat(".pem"), base.concat("-key.pem"))
}

} // verus!
