//! Proxy rules: SNI-keyed certificate resolution, protocol sniffing,
//! host-header parsing, backend choice and request rewriting.
//!
//! Sockets, TLS termination and HTTP transport live in the application
//! crate; every decision they need is computed here.

use vstd::prelude::*;

use crate::serve::config::{mappings_view, MergedConfig};
use crate::config::map_of;
use crate::text::{
    ascii_lowercase, find_idx, lemma_find_idx, lower_char, lower_seq, str_eq, trim_spec, trim_str,
    dec_str, u64_to_string,
};

verus! {

/// The first byte of a TLS handshake record.
pub fn is_tls_first_byte(b: u8) -> (r: bool)
    ensures
        r == (b == 22),
{
    b == 0x16
}

// ---------------------------------------------------------------------------
// SNI resolution
// ---------------------------------------------------------------------------

/// SNI names never served: localhost has no leaf by design.
pub open spec fn unsupported_sni(s: Seq<char>) -> bool {
    s == "localhost"@ || s == "127.0.0.1"@ || s == "::1"@
}

/// SNI-keyed table from lower-cased domain to an index into the
/// caller's certificate list.
#[derive(Debug)]
pub struct CertResolver {
    pub entries: Vec<(String, usize)>,
}

/// What a resolver looks up for one normalized name.
pub open spec fn table_lookup(m: Map<Seq<char>, usize>, name: Seq<char>) -> Option<usize> {
    if m.contains_key(name) {
        Some(m[name])
    } else {
        None
    }
}

/// The full resolution rule for a server name.
pub open spec fn resolve_spec(m: Map<Seq<char>, usize>, sni: Option<Seq<char>>) -> Option<usize> {
    match sni {
        None => None,
        Some(raw) => {
            let s = trim_spec(raw);
            if s.len() == 0 {
                None
            } else if unsupported_sni(lower_seq(s)) {
                None
            } else if table_lookup(m, lower_seq(s)) is Some {
                table_lookup(m, lower_seq(s))
            } else if find_idx(s, ':') < s.len() {
                let head = trim_spec(s.take(find_idx(s, ':')));
                if head.len() > 0 {
                    table_lookup(m, lower_seq(head))
                } else {
                    None
                }
            } else {
                None
            }
        },
    }
}

impl CertResolver {
    /// The table as a map; the earliest entry for a name wins.
    pub open spec fn view_map(self) -> Map<Seq<char>, usize> {
        map_of(self.entries@.map_values(|e: (String, usize)| (e.0@, e.1)))
    }

    /// Every stored key is already lower-cased.
    pub open spec fn wf(self) -> bool {
        forall|i: int|
            0 <= i < self.entries@.len() ==> (#[trigger] self.entries@[i]).0@ == lower_seq(
                self.entries@[i].0@,
            )
    }

    /// Build the table from the domains whose key material loaded, in
    /// order; fails when no certificate is available at all.
    #[verifier::loop_isolation(false)]
    pub fn build(domains: &Vec<String>) -> (r: Result<CertResolver, ()>)
        ensures
            r is Ok <==> domains@.len() > 0,
            r is Ok ==> (r->Ok_0).wf() && (r->Ok_0).entries@.len() == domains@.len() && forall|
                i: int,
            |
                0 <= i < domains@.len() ==> (#[trigger] (r->Ok_0).entries@[i]).1 == i as usize && (
                r->Ok_0).entries@[i].0@ == lower_seq(domains@[i]@),
    {
        if domains.len() == 0 {
            return Err(());
        }
        let mut entries: Vec<(String, usize)> = Vec::new();
        let n = domains.len();
        let mut i: usize = 0;
        while i < n
            invariant
                i <= n,
                entries@.len() == i,
                forall|k: int|
                    0 <= k < i ==> (#[trigger] entries@[k]).1 == k as usize && entries@[k].0@
                        == lower_seq(domains@[k]@),
            decreases n - i,
        {
            let low = ascii_lowercase(domains[i].as_str());
            entries.push((low, i));
            i += 1;
        }
        proof {
            assert forall|k: int|
                0 <= k < entries@.len() implies (#[trigger] entries@[k]).0@ == lower_seq(
                entries@[k].0@,
            ) by {
                lemma_lower_idempotent(domains@[k]@);
            }
        }
        Ok(CertResolver { entries })
    }

    /// Look one normalized name up; first matching entry wins.
    #[verifier::loop_isolation(false)]
    fn lookup(&self, name: &str) -> (r: Option<usize>)
        ensures
            r == table_lookup(self.view_map(), name@),
    {
        let es = &self.entries;
        let n = es.len();
        let mut i: usize = 0;
        while i < n
            invariant
                i <= n,
                forall|j: int| 0 <= j < i ==> (#[trigger] es@[j]).0@ != name@,
            decreases n - i,
        {
            if str_eq(es[i].0.as_str(), name) {
                proof {
                    let mv = es@.map_values(|e: (String, usize)| (e.0@, e.1));
                    assert(mv[i as int] == (es@[i as int].0@, es@[i as int].1));
                    assert forall|j: int| 0 <= j < i implies (#[trigger] mv[j]).0 != mv[
                        i as int
                    ].0 by {
                        assert(mv[j] == (es@[j].0@, es@[j].1));
                    }
                    crate::config::lemma_map_of_first(mv, i as int);
                }
                return Some(es[i].1);
            }
            i += 1;
        }
        proof {
            let mv = es@.map_values(|e: (String, usize)| (e.0@, e.1));
            assert forall|j: int| 0 <= j < mv.len() implies (#[trigger] mv[j]).0 != name@ by {
                assert(mv[j] == (es@[j].0@, es@[j].1));
            }
            crate::config::lemma_map_of_contains(mv, name@);
        }
        None
    }

    /// Resolve a client's server name to a certificate index.
    ///
    /// No certificate is returned for an absent or blank name, or for
    /// `localhost`, `127.0.0.1` or `::1`; a name carrying a port is
    /// retried as its host part.
    pub fn resolve(&self, sni: Option<&str>) -> (r: Option<usize>)
        ensures
            r == resolve_spec(self.view_map(), match sni {
                Some(s) => Some(s@),
                None => None,
            }),
            sni is Some && unsupported_sni(lower_seq(trim_spec(sni->0@))) ==> r is None,
    {
        let raw = match sni {
            Some(s) => s,
            None => {
                return None;
            },
        };
        let s = trim_str(raw);
        let n = s.as_str().unicode_len();
        if n == 0 {
            return None;
        }
        let low = ascii_lowercase(s.as_str());
        if str_eq(low.as_str(), "localhost") || str_eq(low.as_str(), "127.0.0.1") || str_eq(
            low.as_str(),
            "::1",
        ) {
            return None;
        }
        if let Some(hit) = self.lookup(low.as_str()) {
            return Some(hit);
        }
        proof {
            lemma_find_idx(s@, ':');
        }
        match crate::text::find_char(s.as_str(), ':') {
            Some(c) => {
                let head_raw = crate::text::substring(s.as_str(), 0, c);
                proof {
                    assert(head_raw@ =~= s@.take(find_idx(s@, ':')));
                }
                let head = trim_str(head_raw.as_str());
                if head.as_str().unicode_len() > 0 {
                    let low_head = ascii_lowercase(head.as_str());
                    self.lookup(low_head.as_str())
                } else {
                    None
                }
            },
            None => None,
        }
    }
}

/// Whether a request asks for a websocket upgrade: the Connection
/// header mentions `upgrade` and the Upgrade header equals
/// `websocket`, both case-insensitively.
pub open spec fn websocket_upgrade_spec(conn: Option<Seq<char>>, up: Option<Seq<char>>) -> bool {
    &&& match conn {
        Some(c) => crate::text::contains_seq(lower_seq(c), "upgrade"@),
        None => false,
    }
    &&& match up {
        Some(u) => lower_seq(u) == "websocket"@,
        None => false,
    }
}

/// Decide whether to capture the upgrade future before forwarding.
pub fn is_websocket_upgrade(connection: Option<&str>, upgrade: Option<&str>) -> (r: bool)
    ensures
        r == websocket_upgrade_spec(
            match connection {
                Some(c) => Some(c@),
                None => None,
            },
            match upgrade {
                Some(u) => Some(u@),
                None => None,
            },
        ),
{
    let conn_ok = match connection {
        Some(c) => {
            let low = ascii_lowercase(c);
            crate::text::contains_str(low.as_str(), "upgrade")
        },
        None => false,
    };
    let up_ok = match upgrade {
        Some(u) => {
            let low = ascii_lowercase(u);
            str_eq(low.as_str(), "websocket")
        },
        None => false,
    };
    conn_ok && up_ok
}

// ---------------------------------------------------------------------------
// Host-header parsing
// ---------------------------------------------------------------------------

/// Index of the last occurrence of `c`, or -1 when absent.
pub open spec fn rfind_idx(s: Seq<char>, c: char) -> int
    decreases s.len(),
{
    if s.len() == 0 {
        -1
    } else if s.last() == c {
        s.len() - 1
    } else {
        rfind_idx(s.drop_last(), c)
    }
}

pub proof fn lemma_rfind_idx(s: Seq<char>, c: char)
    ensures
        -1 <= rfind_idx(s, c) < s.len(),
        rfind_idx(s, c) >= 0 ==> s[rfind_idx(s, c)] == c,
        forall|j: int| rfind_idx(s, c) < j < s.len() ==> s[j] != c,
    decreases s.len(),
{
    if s.len() > 0 && s.last() != c {
        lemma_rfind_idx(s.drop_last(), c);
        assert forall|j: int| rfind_idx(s, c) < j < s.len() implies s[j] != c by {
            if j < s.len() - 1 {
                assert(s[j] == s.drop_last()[j]);
            }
        }
    }
}

/// Last position of `c` in `s`, if any.
#[verifier::loop_isolation(false)]
pub fn rfind_char(s: &str, c: char) -> (r: Option<usize>)
    ensures
        rfind_idx(s@, c) >= 0 ==> r == Some(rfind_idx(s@, c) as usize),
        rfind_idx(s@, c) < 0 ==> r is None,
{
    proof {
        lemma_rfind_idx(s@, c);
    }
    let n = s.unicode_len();
    let mut b: usize = n;
    while b > 0
        invariant
            b <= n,
            forall|j: int| b <= j < n ==> s@[j] != c,
        decreases b,
    {
        if s.get_char(b - 1) == c {
            proof {
                assert(s@[b - 1] == c);
                if rfind_idx(s@, c) > b - 1 {
                    assert(s@[rfind_idx(s@, c)] != c);
                }
                assert(rfind_idx(s@, c) == b - 1);
            }
            return Some(b - 1);
        }
        b -= 1;
    }
    proof {
        if rfind_idx(s@, c) >= 0 {
            assert(s@[rfind_idx(s@, c)] == c);
        }
    }
    None
}

/// A digit string that fits a port number.
pub open spec fn port_val(s: Seq<char>) -> Option<u16> {
    if s.len() > 0 && crate::text::all_digits(s) && crate::text::dec_val(s) <= u16::MAX {
        Some(crate::text::dec_val(s) as u16)
    } else {
        None
    }
}

/// Parse `host` or `host:port` with bracketed IPv6 literals honored:
/// one trailing dot is stripped, whitespace trimmed, the host is
/// lower-cased, and the port read when present and valid.
pub open spec fn parse_host_spec(raw: Seq<char>) -> (Seq<char>, Option<u16>) {
    let s0 = if raw.len() > 0 && raw.last() == '.' {
        raw.drop_last()
    } else {
        raw
    };
    let s = trim_spec(s0);
    let b = find_idx(s, '[');
    if b < s.len() {
        let e_rel = find_idx(s.skip(b), ']');
        if e_rel < s.len() - b {
            let end = b + e_rel + 1;
            if end < s.len() && s[end] == ':' {
                (lower_seq(s.take(end)), port_val(s.skip(end + 1)))
            } else {
                (lower_seq(s), None)
            }
        } else {
            (lower_seq(s), None)
        }
    } else {
        let r = rfind_idx(s, ':');
        if r >= 0 {
            match port_val(s.skip(r + 1)) {
                Some(p) => (lower_seq(s.take(r)), Some(p)),
                None => (lower_seq(s), None),
            }
        } else {
            (lower_seq(s), None)
        }
    }
}

/// Parse `host` or `host:port` into the normalized domain and an
/// optional explicit port.
#[verifier::loop_isolation(false)]
pub fn parse_host(raw: &str) -> (r: (String, Option<u16>))
    ensures
        (r.0@, r.1) == parse_host_spec(raw@),
{
    let n0 = raw.unicode_len();
    let stripped = if n0 > 0 && raw.get_char(n0 - 1) == '.' {
        let t = crate::text::substring(raw, 0, n0 - 1);
        proof {
            assert(t@ =~= raw@.drop_last());
        }
        t
    } else {
        String::from_str(raw)
    };
    let s = trim_str(stripped.as_str());
    let n = s.as_str().unicode_len();
    proof {
        lemma_find_idx(s@, '[');
    }
    if let Some(b) = crate::text::find_char(s.as_str(), '[') {
        let after = crate::text::substring(s.as_str(), b, n);
        proof {
            assert(after@ =~= s@.skip(b as int));
            lemma_find_idx(after@, ']');
        }
        if let Some(e_rel) = crate::text::find_char(after.as_str(), ']') {
            let end = b + e_rel + 1;
            if end < n && s.as_str().get_char(end) == ':' {
                let host = crate::text::substring(s.as_str(), 0, end);
                let pstr = crate::text::substring(s.as_str(), end + 1, n);
                proof {
                    assert(host@ =~= s@.take(end as int));
                    assert(pstr@ =~= s@.skip(end + 1 as int));
                }
                let port = crate::text::parse_u16(pstr.as_str());
                return (ascii_lowercase(host.as_str()), port);
            }
            return (ascii_lowercase(s.as_str()), None);
        }
        return (ascii_lowercase(s.as_str()), None);
    }
    proof {
        lemma_rfind_idx(s@, ':');
    }
    if let Some(rp) = rfind_char(s.as_str(), ':') {
        let pstr = crate::text::substring(s.as_str(), rp + 1, n);
        proof {
            assert(pstr@ =~= s@.skip(rp + 1 as int));
        }
        match crate::text::parse_u16(pstr.as_str()) {
            Some(p) => {
                let host = crate::text::substring(s.as_str(), 0, rp);
                proof {
                    assert(host@ =~= s@.take(rp as int));
                }
                return (ascii_lowercase(host.as_str()), Some(p));
            },
            None => {
                return (ascii_lowercase(s.as_str()), None);
            },
        }
    }
    (ascii_lowercase(s.as_str()), None)
}

// ---------------------------------------------------------------------------
// Backend choice and request rewriting
// ---------------------------------------------------------------------------

/// First mapping whose lower-cased domain equals `dl`.
pub open spec fn find_ci(entries: Seq<(Seq<char>, u16)>, dl: Seq<char>) -> Option<u16>
    decreases entries.len(),
{
    if entries.len() == 0 {
        None
    } else if lower_seq(entries[0].0) == dl {
        Some(entries[0].1)
    } else {
        find_ci(entries.drop_first(), dl)
    }
}

/// Exact lookup, then a case-insensitive linear fallback.
pub open spec fn lookup_backend(entries: Seq<(Seq<char>, u16)>, d: Seq<char>) -> Option<u16> {
    if map_of(entries).contains_key(d) {
        Some(map_of(entries)[d])
    } else {
        find_ci(entries, lower_seq(d))
    }
}

/// The backend port for a parsed host: an explicit port other than
/// 443 passes through; otherwise the merged mappings decide.
pub open spec fn choose_port(
    entries: Seq<(Seq<char>, u16)>,
    d: Seq<char>,
    ep: Option<u16>,
) -> Option<u16> {
    match ep {
        Some(p) => if p != 443 {
            Some(p)
        } else {
            lookup_backend(entries, d)
        },
        None => lookup_backend(entries, d),
    }
}

/// Case-insensitive fallback lookup.
#[verifier::loop_isolation(false)]
fn get_ci(m: &MergedConfig, domain_lower: &str) -> (r: Option<u16>)
    ensures
        r == find_ci(mappings_view(m.entries@), domain_lower@),
{
    let es = &m.entries;
    let n = es.len();
    let mut i: usize = 0;
    proof {
        assert(mappings_view(es@).skip(0) =~= mappings_view(es@));
    }
    while i < n
        invariant
            i <= n,
            find_ci(mappings_view(es@), domain_lower@) == find_ci(
                mappings_view(es@).skip(i as int),
                domain_lower@,
            ),
        decreases n - i,
    {
        let low = ascii_lowercase(es[i].domain.as_str());
        proof {
            let mv = mappings_view(es@);
            assert(mv.skip(i as int)[0] == (es@[i as int].domain@, es@[i as int].port));
            assert(mv.skip(i as int).drop_first() =~= mv.skip(i + 1 as int));
        }
        if str_eq(low.as_str(), domain_lower) {
            return Some(es[i].port);
        }
        i += 1;
    }
    proof {
        assert(mappings_view(es@).skip(n as int).len() == 0);
    }
    None
}

/// Exact lookup then case-insensitive fallback.
fn lookup_backend_exec(m: &MergedConfig, domain: &str) -> (r: Option<u16>)
    ensures
        r == lookup_backend(mappings_view(m.entries@), domain@),
{
    match m.get(domain) {
        Some(p) => Some(p),
        None => {
            let low = ascii_lowercase(domain);
            get_ci(m, low.as_str())
        },
    }
}

/// The `http://localhost:<port>` request target with its path.
pub open spec fn backend_uri_text(port: u16, pq: Seq<char>) -> Seq<char> {
    seq!['h', 't', 't', 'p', ':', '/', '/', 'l', 'o', 'c', 'a', 'l', 'h', 'o', 's', 't', ':']
        + dec_str(port as nat) + pq
}

/// What the proxy must do with one inbound request.
#[derive(Debug)]
pub enum RequestPlan {
    /// No host header and no request-URI authority: answer 400.
    MissingHost,
    /// No mapping matches the host: answer 400.
    UnknownDomain,
    /// Rewrite and forward to the backend.
    Forward(ForwardPlan),
}

/// The rewrite for a forwarded request.
#[derive(Debug)]
pub struct ForwardPlan {
    pub backend_port: u16,
    /// The new request target, `http://localhost:<port><path>`.
    pub uri: String,
    /// `X-Forwarded-For`: the remote peer.
    pub forwarded_for: String,
    /// `X-Forwarded-Proto`: `https` when the request came in over TLS.
    pub forwarded_proto: String,
    /// `X-Forwarded-Host`: the normalized original domain.
    pub forwarded_host: String,
}

/// Plan one inbound request: extract the target host, choose the
/// backend port, and compute the rewritten target and forwarding
/// headers.  The original `Host` header is left untouched.
#[verifier::loop_isolation(false)]
pub fn plan_request(
    host_header: Option<&str>,
    uri_authority: Option<&str>,
    path_and_query: Option<&str>,
    remote_addr: &str,
    mappings: &MergedConfig,
    is_tls: bool,
) -> (r: RequestPlan)
    ensures
        ({
            let raw: Option<Seq<char>> = match host_header {
                Some(h) => Some(h@),
                None => match uri_authority {
                    Some(a) => Some(a@),
                    None => None,
                },
            };
            let pq: Seq<char> = match path_and_query {
                Some(p) => p@,
                None => "/"@,
            };
            match raw {
                None => r is MissingHost,
                Some(hr) => {
                    let (d, ep) = parse_host_spec(hr);
                    match choose_port(mappings_view(mappings.entries@), d, ep) {
                        None => r is UnknownDomain,
                        Some(p) => r is Forward && {
                            let f = r->Forward_0;
                            &&& f.backend_port == p
                            &&& f.uri@ == backend_uri_text(p, pq)
                            &&& f.forwarded_for@ == remote_addr@
                            &&& f.forwarded_proto@ == (if is_tls {
                                "https"@
                            } else {
                                "http"@
                            })
                            &&& f.forwarded_host@ == d
                        },
                    }
                },
            }
        }),
{
    let raw = match host_header {
        Some(h) => h,
        None => match uri_authority {
            Some(a) => a,
            None => {
                return RequestPlan::MissingHost;
            },
        },
    };
    let (domain, explicit_port) = parse_host(raw);
    let port = match explicit_port {
        Some(p) => {
            if p != 443 {
                Some(p)
            } else {
                lookup_backend_exec(mappings, domain.as_str())
            }
        },
        None => lookup_backend_exec(mappings, domain.as_str()),
    };
    let port = match port {
        Some(p) => p,
        None => {
            return RequestPlan::UnknownDomain;
        },
    };
    let mut uri = String::from_str("http://localhost:");
    let digits = u64_to_string(port as u64);
    crate::text::append_str(&mut uri, digits.as_str());
    match path_and_query {
        Some(p) => {
            crate::text::append_str(&mut uri, p);
        },
        None => {
            crate::text::append_str(&mut uri, "/");
        },
    }
    let proto = if is_tls {
        String::from_str("https")
    } else {
        String::from_str("http")
    };
    proof {
        reveal_strlit("http://localhost:");
        assert("http://localhost:"@ =~= seq![
            'h',
            't',
            't',
            'p',
            ':',
            '/',
            '/',
            'l',
            'o',
            'c',
            'a',
            'l',
            'h',
            'o',
            's',
            't',
            ':',
        ]);
    }
    RequestPlan::Forward(
        ForwardPlan {
            backend_port: port,
            uri,
            forwarded_for: String::from_str(remote_addr),
            forwarded_proto: proto,
            forwarded_host: domain,
        },
    )
}

// ---------------------------------------------------------------------------
// Listeners and the HTTP→HTTPS redirect
// ---------------------------------------------------------------------------

/// What a bound port serves.
#[derive(Debug, Clone, Copy, PartialEq, Eq, Structural)]
pub enum ListenerKind {
    /// Port 80 with 443 also configured: permanent redirect to HTTPS.
    Redirect,
    /// TLS with a plaintext sniff fallback.
    TlsAndSniff,
}

/// Decide what to bind for each configured port.  Port 80 serves the
/// redirect only when 443 is also present; port 80 without 443 binds
/// nothing.
#[verifier::loop_isolation(false)]
pub fn listener_plan(ports: &Vec<u16>) -> (r: Vec<(u16, ListenerKind)>)
    ensures
        forall|k: int|
            0 <= k < r@.len() ==> ((#[trigger] r@[k]).1 is Redirect ==> r@[k].0 == 80
                && ports@.contains(80u16) && ports@.contains(443u16)) && (r@[k].1 is TlsAndSniff
                ==> r@[k].0 != 80 && ports@.contains(r@[k].0)),
        forall|p: u16|
            p != 80 && ports@.contains(p) ==> r@.contains((p, ListenerKind::TlsAndSniff)),
        ports@.contains(80u16) && ports@.contains(443u16) ==> r@.contains(
            (80u16, ListenerKind::Redirect),
        ),
        !ports@.contains(443u16) ==> forall|k: int|
            0 <= k < r@.len() ==> !((#[trigger] r@[k]).1 is Redirect),
{
    let has_443 = crate::serve::config::contains_port(ports, 443);
    let mut out: Vec<(u16, ListenerKind)> = Vec::new();
    let n = ports.len();
    let mut i: usize = 0;
    while i < n
        invariant
            i <= n,
            forall|k: int|
                0 <= k < out@.len() ==> ((#[trigger] out@[k]).1 is Redirect ==> out@[k].0 == 80
                    && ports@.contains(80u16) && ports@.contains(443u16)) && (out@[k].1
                    is TlsAndSniff ==> out@[k].0 != 80 && ports@.contains(out@[k].0)),
            forall|j: int|
                0 <= j < i && ports@[j] != 80 ==> out@.contains(
                    (ports@[j], ListenerKind::TlsAndSniff),
                ),
            forall|j: int|
                0 <= j < i && ports@[j] == 80 && ports@.contains(443u16) ==> out@.contains(
                    (80u16, ListenerKind::Redirect),
                ),
        decreases n - i,
    {
        let p = ports[i];
        let ghost prev = out@;
        proof {
            assert(ports@.contains(ports@[i as int]));
        }
        if p == 80 && has_443 {
            out.push((80, ListenerKind::Redirect));
        } else if p != 80 {
            out.push((p, ListenerKind::TlsAndSniff));
        }
        proof {
            assert(forall|e: (u16, ListenerKind)|
                prev.contains(e) ==> out@.contains(e)) by {
                assert(forall|k: int|
                    0 <= k < prev.len() ==> out@[k] == prev[k]);
            }
            if p == 80 && has_443 {
                assert(out@[out@.len() - 1] == (80u16, ListenerKind::Redirect));
                assert(out@.contains((80u16, ListenerKind::Redirect)));
            } else if p != 80 {
                assert(out@[out@.len() - 1] == (p, ListenerKind::TlsAndSniff));
                assert(out@.contains((p, ListenerKind::TlsAndSniff)));
            }
        }
        i += 1;
    }
    proof {
        assert forall|p: u16|
            p != 80 && ports@.contains(p) implies out@.contains(
            (p, ListenerKind::TlsAndSniff),
        ) by {
            let j = choose|j: int| 0 <= j < ports@.len() && ports@[j] == p;
        }
        if ports@.contains(80u16) && ports@.contains(443u16) {
            let j = choose|j: int| 0 <= j < ports@.len() && ports@[j] == 80u16;
        }
    }
    out
}

/// The host with any port stripped: a bracketed IPv6 literal keeps
/// its brackets and loses a port after the closing bracket; otherwise
/// a trailing `:<digits>` is dropped only when it is a port number.
pub open spec fn strip_port_spec(s: Seq<char>) -> Seq<char> {
    let b = find_idx(s, '[');
    if b < s.len() {
        let e_rel = find_idx(s.skip(b), ']');
        if e_rel < s.len() - b {
            let end = b + e_rel + 1;
            if end < s.len() && s[end] == ':' {
                s.take(end)
            } else {
                s
            }
        } else {
            s
        }
    } else {
        let r = rfind_idx(s, ':');
        if r >= 0 && port_val(s.skip(r + 1)) is Some {
            s.take(r)
        } else {
            s
        }
    }
}

/// Strip any port from a trimmed host.
#[verifier::loop_isolation(false)]
fn strip_port(s: &str) -> (r: String)
    ensures
        r@ == strip_port_spec(s@),
{
    let n = s.unicode_len();
    proof {
        lemma_find_idx(s@, '[');
    }
    if let Some(b) = crate::text::find_char(s, '[') {
        let after = crate::text::substring(s, b, n);
        proof {
            assert(after@ =~= s@.skip(b as int));
            lemma_find_idx(after@, ']');
        }
        if let Some(e_rel) = crate::text::find_char(after.as_str(), ']') {
            let end = b + e_rel + 1;
            if end < n && s.get_char(end) == ':' {
                let host = crate::text::substring(s, 0, end);
                proof {
                    assert(host@ =~= s@.take(end as int));
                }
                return host;
            }
            return String::from_str(s);
        }
        return String::from_str(s);
    }
    proof {
        lemma_rfind_idx(s@, ':');
    }
    if let Some(rp) = rfind_char(s, ':') {
        let pstr = crate::text::substring(s, rp + 1, n);
        proof {
            assert(pstr@ =~= s@.skip(rp + 1 as int));
        }
        if crate::text::parse_u16(pstr.as_str()).is_some() {
            let host = crate::text::substring(s, 0, rp);
            proof {
                assert(host@ =~= s@.take(rp as int));
            }
            return host;
        }
        return String::from_str(s);
    }
    String::from_str(s)
}

/// The `Location` for the HTTP→HTTPS redirect: the host keeps its
/// name but loses any port; the path and query are preserved.
pub open spec fn redirect_location_spec(hh: Option<Seq<char>>, pq: Option<Seq<char>>) -> Seq<
    char,
> {
    let hr = match hh {
        Some(h) => h,
        None => "localhost"@,
    };
    let host = strip_port_spec(trim_spec(hr));
    let path = match pq {
        Some(p) => p,
        None => "/"@,
    };
    seq!['h', 't', 't', 'p', 's', ':', '/', '/'] + host + path
}

/// Build the redirect `Location` from the request's host header and
/// path-and-query.
pub fn redirect_location(host_header: Option<&str>, path_and_query: Option<&str>) -> (r: String)
    ensures
        r@ == redirect_location_spec(
            match host_header {
                Some(h) => Some(h@),
                None => None,
            },
            match path_and_query {
                Some(p) => Some(p@),
                None => None,
            },
        ),
{
    let hr = match host_header {
        Some(h) => String::from_str(h),
        None => String::from_str("localhost"),
    };
    let trimmed = trim_str(hr.as_str());
    let host = strip_port(trimmed.as_str());
    let mut out = String::from_str("https://");
    crate::text::append_str(&mut out, host.as_str());
    match path_and_query {
        Some(p) => {
            crate::text::append_str(&mut out, p);
        },
        None => {
            crate::text::append_str(&mut out, "/");
        },
    }
    proof {
        reveal_strlit("https://");
        assert("https://"@ =~= seq!['h', 't', 't', 'p', 's', ':', '/', '/']);
    }
    out
}

/// Lower-casing is idempotent.
pub proof fn lemma_lower_idempotent(s: Seq<char>)
    ensures
        lower_seq(lower_seq(s)) == lower_seq(s),
{
    assert forall|i: int| 0 <= i < s.len() implies lower_char(lower_char(s[i])) == lower_char(
        s[i],
    ) by {
        let c = s[i];
        if 'A' <= c && c <= 'Z' {
            assert(lower_char(c) == ((c as u32 + 32) as u8) as char);
        }
    }
    assert(lower_seq(lower_seq(s)) =~= lower_seq(s));
}

/// Law: resolution is case-insensitive in the server name — two names
/// that agree after lower-casing resolve alike.
pub proof fn lemma_resolve_case_insensitive(
    m: Map<Seq<char>, usize>,
    s1: Seq<char>,
    s2: Seq<char>,
)
    requires
        lower_seq(s1) == lower_seq(s2),
    ensures
        resolve_spec(m, Some(s1)) == resolve_spec(m, Some(s2)),
{
    lemma_trim_lower(s1, s2);
    let t1 = trim_spec(s1);
    let t2 = trim_spec(s2);
    assert(lower_seq(t1) == lower_seq(t2));
    assert(t1.len() == t2.len());
    if t1.len() > 0 {
        lemma_find_colon_lower(t1, t2);
        lemma_find_idx(t1, ':');
        lemma_find_idx(t2, ':');
        let i = find_idx(t1, ':');
        assert(find_idx(t2, ':') == i);
        if i < t1.len() {
            assert(lower_seq(t1.take(i)) =~= lower_seq(t1).take(i));
            assert(lower_seq(t2.take(i)) =~= lower_seq(t2).take(i));
            lemma_trim_lower(t1.take(i), t2.take(i));
            let h1 = trim_spec(t1.take(i));
            let h2 = trim_spec(t2.take(i));
            assert(lower_seq(h1) == lower_seq(h2));
            assert(h1.len() == h2.len());
        }
    }
}

/// Equal lower-casings put the first colon in the same place.
proof fn lemma_find_colon_lower(t1: Seq<char>, t2: Seq<char>)
    requires
        lower_seq(t1) == lower_seq(t2),
    ensures
        find_idx(t1, ':') == find_idx(t2, ':'),
    decreases t1.len(),
{
    assert(lower_seq(t1).len() == t1.len());
    assert(lower_seq(t2).len() == t2.len());
    if t1.len() > 0 && t2.len() > 0 {
        assert(lower_seq(t1)[0] == lower_char(t1[0]));
        assert(lower_seq(t2)[0] == lower_char(t2[0]));
        lemma_lower_colon(t1[0]);
        lemma_lower_colon(t2[0]);
        if t1[0] != ':' && t2[0] != ':' {
            assert(lower_seq(t1.drop_first()) =~= lower_seq(t1).drop_first());
            assert(lower_seq(t2.drop_first()) =~= lower_seq(t2).drop_first());
            lemma_find_colon_lower(t1.drop_first(), t2.drop_first());
        }
    }
}

/// Lower-casing maps the colon to itself and nothing else to it.
proof fn lemma_lower_colon(c: char)
    ensures
        lower_char(c) == ':' <==> c == ':',
{
    if 'A' <= c && c <= 'Z' {
        assert(lower_char(c) as u32 == c as u32 + 32);
    }
}

/// Trimming commutes with lower-casing positions: names with equal
/// lower-casings trim to names with equal lower-casings.
proof fn lemma_trim_lower(s1: Seq<char>, s2: Seq<char>)
    requires
        lower_seq(s1) == lower_seq(s2),
    ensures
        lower_seq(trim_spec(s1)) == lower_seq(trim_spec(s2)),
        trim_spec(s1).len() == trim_spec(s2).len(),
    decreases s1.len() + s2.len(),
{
    lemma_trim_start_lower(s1, s2);
    let a1 = crate::text::trim_start_spec(s1);
    let a2 = crate::text::trim_start_spec(s2);
    lemma_trim_end_lower(a1, a2);
}

proof fn lemma_lower_space(c: char)
    ensures
        crate::text::is_space(lower_char(c)) <==> crate::text::is_space(c),
{
    if 'A' <= c && c <= 'Z' {
        assert(lower_char(c) as u32 == c as u32 + 32);
    }
}

proof fn lemma_trim_start_lower(s1: Seq<char>, s2: Seq<char>)
    requires
        lower_seq(s1) == lower_seq(s2),
    ensures
        lower_seq(crate::text::trim_start_spec(s1)) == lower_seq(crate::text::trim_start_spec(s2)),
    decreases s1.len(),
{
    if s1.len() > 0 && s2.len() > 0 {
        assert(lower_seq(s1)[0] == lower_char(s1[0]));
        assert(lower_seq(s2)[0] == lower_char(s2[0]));
        lemma_lower_space(s1[0]);
        lemma_lower_space(s2[0]);
        if crate::text::is_space(s1[0]) && crate::text::is_space(s2[0]) {
            assert(lower_seq(s1.drop_first()) =~= lower_seq(s1).drop_first());
            assert(lower_seq(s2.drop_first()) =~= lower_seq(s2).drop_first());
            lemma_trim_start_lower(s1.drop_first(), s2.drop_first());
        }
    }
}

proof fn lemma_trim_end_lower(s1: Seq<char>, s2: Seq<char>)
    requires
        lower_seq(s1) == lower_seq(s2),
    ensures
        lower_seq(crate::text::trim_end_spec(s1)) == lower_seq(crate::text::trim_end_spec(s2)),
        crate::text::trim_end_spec(s1).len() == crate::text::trim_end_spec(s2).len(),
    decreases s1.len(),
{
    if s1.len() > 0 && s2.len() > 0 {
        assert(lower_seq(s1).last() == lower_char(s1.last()));
        assert(lower_seq(s2).last() == lower_char(s2.last()));
        lemma_lower_space(s1.last());
        lemma_lower_space(s2.last());
        if crate::text::is_space(s1.last()) && crate::text::is_space(s2.last()) {
            assert(lower_seq(s1.drop_last()) =~= lower_seq(s1).drop_last());
            assert(lower_seq(s2.drop_last()) =~= lower_seq(s2).drop_last());
            lemma_trim_end_lower(s1.drop_last(), s2.drop_last());
        } else {
            assert(crate::text::trim_end_spec(s1) == s1 && crate::text::trim_end_spec(s2) == s2);
        }
    }
}

} // verus!
