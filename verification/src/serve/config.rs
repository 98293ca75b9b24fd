//! Serve config: domain→port mappings, listen ports and the
//! project/global merge.

use vstd::prelude::*;

use crate::config::{key_ne, lemma_map_of_contains, lemma_map_of_first, map_of, unique_keys, upsert};
use crate::text::str_eq;

verus! {

/// Which file a merged mapping came from.
#[derive(Debug, Clone, Copy, PartialEq, Eq, Structural)]
pub enum MappingSource {
    Project,
    Global,
}

/// Single mapping: domain -> port.
#[derive(Debug, Clone)]
pub struct Mapping {
    pub domain: String,
    pub port: u16,
}

/// View of mappings as (domain, port) pairs.
pub open spec fn mappings_view(ms: Seq<Mapping>) -> Seq<(Seq<char>, u16)> {
    ms.map_values(|m: Mapping| (m.domain@, m.port))
}

/// The ports used when none are configured.
pub open spec fn default_ports() -> Seq<u16> {
    seq![80u16, 443u16]
}

/// Strictly increasing, hence duplicate-free.
pub open spec fn sorted_unique(s: Seq<u16>) -> bool {
    forall|i: int, j: int| 0 <= i < j < s.len() ==> s[i] < s[j]
}

/// The set of ports a config listens on.
pub open spec fn effective_port_set(ports: Seq<u16>) -> Set<u16> {
    if ports.len() == 0 {
        default_ports().to_set()
    } else {
        ports.to_set()
    }
}

/// Serve config from a `.roostrc` file, project or global.
#[derive(Debug, Clone)]
pub struct ServeConfig {
    pub mappings: Vec<Mapping>,
    /// Ports to listen on; empty means the defaults 80 and 443.
    pub ports: Vec<u16>,
}

impl Default for ServeConfig {
    /// The empty serve config.
    fn default() -> (r: ServeConfig)
        ensures
            r.mappings@.len() == 0,
            r.ports@.len() == 0,
    {
        ServeConfig { mappings: Vec::new(), ports: Vec::new() }
    }
}

/// The mappings left after dropping every entry for `domain`.
#[verifier::loop_isolation(false)]
fn mappings_without(v: &Vec<Mapping>, domain: &str) -> (r: Vec<Mapping>)
    ensures
        mappings_view(r@) == mappings_view(v@).filter(key_ne(domain@)),
{
    let ghost pred = key_ne::<u16>(domain@);
    let mut kept: Vec<Mapping> = Vec::new();
    let n = v.len();
    let mut i: usize = 0;
    proof {
        reveal(Seq::filter);
        assert(mappings_view(v@).take(0) =~= Seq::<(Seq<char>, u16)>::empty());
        assert(mappings_view(kept@) =~= mappings_view(v@).take(0).filter(pred));
    }
    while i < n
        invariant
            i <= n,
            mappings_view(kept@) == mappings_view(v@).take(i as int).filter(pred),
        decreases n - i,
    {
        let ghost prefix = mappings_view(v@).take(i as int);
        let ghost prev_kept = mappings_view(kept@);
        let m = &v[i];
        proof {
            reveal(Seq::filter);
            let next = mappings_view(v@).take(i + 1 as int);
            assert(next.drop_last() =~= prefix);
            assert(next.last() == (m.domain@, m.port));
        }
        if !str_eq(m.domain.as_str(), domain) {
            kept.push(Mapping { domain: m.domain.clone(), port: m.port });
            proof {
                assert(mappings_view(kept@) =~= prev_kept.push((m.domain@, m.port)));
            }
        }
        i += 1;
    }
    proof {
        assert(mappings_view(v@).take(n as int) =~= mappings_view(v@));
    }
    kept
}

impl ServeConfig {
    /// The mappings as a map from domain to port; the earliest entry
    /// for a domain wins.
    pub open spec fn mappings_map(self) -> Map<Seq<char>, u16> {
        map_of(mappings_view(self.mappings@))
    }

    /// Add a mapping, dropping any previous entry for the domain first
    /// so the newest entry wins on disk.
    pub fn add(&mut self, domain: String, port: u16)
        ensures
            mappings_view(final(self).mappings@) == upsert(
                mappings_view(old(self).mappings@),
                domain@,
                port,
            ),
            final(self).mappings_map() == old(self).mappings_map().insert(domain@, port),
            final(self).ports@ == old(self).ports@,
    {
        proof {
            crate::config::lemma_map_of_upsert(mappings_view(old(self).mappings@), domain@, port);
        }
        let mut kept = mappings_without(&self.mappings, domain.as_str());
        let ghost d_view = domain@;
        let ghost kept_view = mappings_view(kept@);
        kept.push(Mapping { domain, port });
        proof {
            assert(mappings_view(kept@) =~= kept_view.push((d_view, port)));
        }
        self.mappings = kept;
    }

    /// Remove every mapping for a domain.
    pub fn remove(&mut self, domain: &str)
        ensures
            mappings_view(final(self).mappings@) == mappings_view(old(self).mappings@).filter(
                key_ne(domain@),
            ),
            final(self).mappings_map() == old(self).mappings_map().remove(domain@),
            final(self).ports@ == old(self).ports@,
    {
        proof {
            crate::config::lemma_map_of_filter_remove(mappings_view(old(self).mappings@), domain@);
        }
        let kept = mappings_without(&self.mappings, domain);
        self.mappings = kept;
    }

    /// The mappings as (domain, port) pairs, in file order.
    pub fn list(&self) -> (r: Vec<(String, u16)>)
        ensures
            r@.len() == self.mappings@.len(),
            forall|i: int|
                0 <= i < r@.len() ==> (#[trigger] r@[i]).0@ == self.mappings@[i].domain@
                    && r@[i].1 == self.mappings@[i].port,
    {
        let mut v: Vec<(String, u16)> = Vec::new();
        let n = self.mappings.len();
        let mut i: usize = 0;
        while i < n
            invariant
                n == self.mappings@.len(),
                i <= n,
                v@.len() == i,
                forall|k: int|
                    0 <= k < i ==> (#[trigger] v@[k]).0@ == self.mappings@[k].domain@ && v@[k].1
                        == self.mappings@[k].port,
            decreases n - i,
        {
            let m = &self.mappings[i];
            v.push((m.domain.clone(), m.port));
            i += 1;
        }
        v
    }

    /// Effective ports: the configured ports sorted and deduplicated,
    /// or the defaults 80 and 443 when none are configured.
    pub fn effective_ports(&self) -> (r: Vec<u16>)
        ensures
            sorted_unique(r@),
            r@.to_set() == effective_port_set(self.ports@),
            r@.len() > 0,
    {
        if self.ports.len() == 0 {
            let mut v: Vec<u16> = Vec::new();
            v.push(80);
            v.push(443);
            proof {
                assert(v@ =~= default_ports());
                assert(v@.to_set() == default_ports().to_set());
                vstd::seq_lib::lemma_seq_contains_after_push(seq![80u16], 443u16, 80u16);
                assert(default_ports().to_set().contains(80u16));
            }
            v
        } else {
            sorted_unique_of(&self.ports)
        }
    }

    /// Add a listen port; materializes the defaults first when none
    /// are configured.
    pub fn ports_add(&mut self, port: u16)
        ensures
            final(self).mappings@ == old(self).mappings@,
            effective_port_set(old(self).ports@).contains(port) ==> final(self).ports@ == old(
                self,
            ).ports@,
            !effective_port_set(old(self).ports@).contains(port) ==> sorted_unique(
                final(self).ports@,
            ) && final(self).ports@.to_set() == effective_port_set(old(self).ports@).insert(port),
    {
        let eff = self.effective_ports();
        if !contains_port(&eff, port) {
            let with = push_sorted_unique(eff, port);
            self.ports = with;
        }
    }

    /// Remove a listen port; an empty configured list materializes the
    /// defaults first, then removes.
    pub fn ports_remove(&mut self, port: u16)
        ensures
            final(self).mappings@ == old(self).mappings@,
            old(self).ports@.len() == 0 ==> final(self).ports@ == default_ports().filter(
                ne_port(port),
            ),
            old(self).ports@.len() > 0 ==> final(self).ports@ == old(self).ports@.filter(
                ne_port(port),
            ),
    {
        proof {
            reveal(Seq::filter);
        }
        if self.ports.len() == 0 {
            let mut v: Vec<u16> = Vec::new();
            if port != 80 {
                v.push(80);
            }
            if port != 443 {
                v.push(443);
            }
            proof {
                reveal(Seq::filter);
                let pred = ne_port(port);
                assert(default_ports().drop_last() =~= seq![80u16]);
                assert(seq![80u16].drop_last() =~= Seq::<u16>::empty());
                assert(Seq::<u16>::empty().filter(pred) =~= Seq::<u16>::empty());
                assert(seq![80u16].last() == 80u16);
                assert(seq![80u16].filter(pred) == if pred(80u16) {
                    Seq::<u16>::empty().filter(pred).push(80u16)
                } else {
                    Seq::<u16>::empty().filter(pred)
                });
                assert(default_ports().last() == 443u16);
                assert(default_ports().filter(pred) == if pred(443u16) {
                    seq![80u16].filter(pred).push(443u16)
                } else {
                    seq![80u16].filter(pred)
                });
                assert(v@ =~= default_ports().filter(pred));
            }
            self.ports = v;
        } else {
            let kept = ports_without(&self.ports, port);
            self.ports = kept;
        }
    }

    /// Replace the ports list entirely; the new list is sorted and
    /// deduplicated.
    pub fn ports_set(&mut self, ports: Vec<u16>)
        ensures
            final(self).mappings@ == old(self).mappings@,
            sorted_unique(final(self).ports@),
            final(self).ports@.to_set() == ports@.to_set(),
    {
        let v = sorted_unique_of(&ports);
        self.ports = v;
    }

    /// The effective listen ports.
    pub fn ports_list(&self) -> (r: Vec<u16>)
        ensures
            sorted_unique(r@),
            r@.to_set() == effective_port_set(self.ports@),
            r@.len() > 0,
    {
        self.effective_ports()
    }
}

/// The predicate keeping every port other than `port`.
pub open spec fn ne_port(port: u16) -> spec_fn(u16) -> bool {
    |p: u16| p != port
}

/// Whether the vector holds the port.
pub fn contains_port(v: &Vec<u16>, port: u16) -> (r: bool)
    ensures
        r == v@.to_set().contains(port),
{
    let n = v.len();
    let mut i: usize = 0;
    while i < n
        invariant
            n == v@.len(),
            i <= n,
            forall|j: int| 0 <= j < i ==> v@[j] != port,
        decreases n - i,
    {
        if v[i] == port {
            proof {
                assert(v@.contains(port));
            }
            return true;
        }
        i += 1;
    }
    proof {
        if v@.to_set().contains(port) {
            assert(v@.contains(port));
        }
    }
    false
}

/// The ports left after dropping `port`.
#[verifier::loop_isolation(false)]
fn ports_without(v: &Vec<u16>, port: u16) -> (r: Vec<u16>)
    ensures
        r@ == v@.filter(ne_port(port)),
{
    let ghost pred = ne_port(port);
    let mut kept: Vec<u16> = Vec::new();
    let n = v.len();
    let mut i: usize = 0;
    proof {
        reveal(Seq::filter);
        assert(kept@ =~= v@.take(0).filter(pred));
    }
    while i < n
        invariant
            i <= n,
            kept@ == v@.take(i as int).filter(pred),
        decreases n - i,
    {
        let p = v[i];
        proof {
            reveal(Seq::filter);
            assert(v@.take(i + 1 as int).drop_last() =~= v@.take(i as int));
            assert(v@.take(i + 1 as int).last() == v@[i as int]);
        }
        if p != port {
            kept.push(p);
        }
        i += 1;
    }
    proof {
        assert(v@.take(n as int) =~= v@);
    }
    kept
}

/// Insert a port into a sorted duplicate-free list, keeping it so.
#[verifier::loop_isolation(false)]
fn push_sorted_unique(v: Vec<u16>, port: u16) -> (r: Vec<u16>)
    requires
        sorted_unique(v@),
    ensures
        sorted_unique(r@),
        r@.to_set() == v@.to_set().insert(port),
{
    let mut out = v;
    let mut p: usize = 0;
    while p < out.len() && out[p] < port
        invariant
            p <= out@.len(),
            forall|k: int| 0 <= k < p ==> out@[k] < port,
        decreases out@.len() - p,
    {
        p += 1;
    }
    if p < out.len() && out[p] == port {
        proof {
            assert(out@.contains(port));
            assert(out@.to_set() =~= out@.to_set().insert(port));
        }
        return out;
    }
    let ghost prev = out@;
    out.insert(p, port);
    proof {
        assert(out@ =~= prev.take(p as int) + seq![port] + prev.skip(p as int));
        assert forall|i: int, j: int| 0 <= i < j < out@.len() implies out@[i] < out@[j] by {
            if i < p && j == p {
                assert(out@[i] == prev[i]);
            } else if i == p && j > p {
                assert(out@[j] == prev[j - 1]);
            } else if j < p {
                assert(out@[i] == prev[i] && out@[j] == prev[j]);
            } else if i < p && j > p {
                assert(out@[i] == prev[i] && out@[j] == prev[j - 1]);
            } else if i > p {
                assert(out@[i] == prev[i - 1] && out@[j] == prev[j - 1]);
            }
        }
        assert forall|x: u16| out@.to_set().contains(x) <==> prev.to_set().insert(
            port,
        ).contains(x) by {
            if out@.to_set().contains(x) {
                let k = choose|k: int| 0 <= k < out@.len() && out@[k] == x;
                if k < p {
                    assert(prev[k] == x);
                    assert(prev.contains(x));
                } else if k > p {
                    assert(prev[k - 1] == x);
                    assert(prev.contains(x));
                }
            }
            if x == port {
                assert(out@[p as int] == port);
                assert(out@.contains(x));
            } else if prev.to_set().contains(x) {
                let k = choose|k: int| 0 <= k < prev.len() && prev[k] == x;
                if k < p {
                    assert(out@[k] == x);
                } else {
                    assert(out@[k + 1] == x);
                }
                assert(out@.contains(x));
            }
        }
        assert(out@.to_set() =~= prev.to_set().insert(port));
    }
    out
}

/// Sort and deduplicate a list of ports.
fn sorted_unique_of(v: &Vec<u16>) -> (r: Vec<u16>)
    ensures
        sorted_unique(r@),
        r@.to_set() == v@.to_set(),
        v@.len() > 0 ==> r@.len() > 0,
{
    let mut out: Vec<u16> = Vec::new();
    let n = v.len();
    let mut i: usize = 0;
    proof {
        assert(out@.to_set() =~= v@.take(0).to_set());
    }
    while i < n
        invariant
            n == v@.len(),
            i <= n,
            sorted_unique(out@),
            out@.to_set() == v@.take(i as int).to_set(),
        decreases n - i,
    {
        let ghost before = out@;
        out = push_sorted_unique(out, v[i]);
        proof {
            assert(v@.take(i + 1 as int) =~= v@.take(i as int) + seq![v@[i as int]]);
            Seq::<u16>::lemma_to_set_insert_commutes(v@.take(i as int), v@[i as int]);
            assert(out@.to_set() =~= v@.take(i + 1 as int).to_set());
        }
        i += 1;
    }
    proof {
        assert(v@.take(n as int) =~= v@);
        if v@.len() > 0 {
            assert(v@.contains(v@[0]));
            assert(out@.to_set().contains(v@[0]));
            assert(out@.contains(v@[0]));
        }
    }
    out
}

/// Merge ports from project and global configs: the union of both
/// effective sets, sorted; the defaults when both are unconfigured.
pub fn merge_ports(project: &ServeConfig, global: &ServeConfig) -> (r: Vec<u16>)
    ensures
        sorted_unique(r@),
        r@.to_set() == effective_port_set(project.ports@).union(
            effective_port_set(global.ports@),
        ),
        r@.len() > 0,
{
    let mut out = project.effective_ports();
    let g = global.effective_ports();
    let n = g.len();
    let mut i: usize = 0;
    proof {
        assert(out@.to_set().union(g@.take(0).to_set()) =~= out@.to_set());
        assert(out@.to_set() == out@.to_set().union(g@.take(0).to_set()));
    }
    while i < n
        invariant
            n == g@.len(),
            i <= n,
            sorted_unique(out@),
            out@.to_set() == effective_port_set(project.ports@).union(g@.take(i as int).to_set()),
            out@.len() > 0,
        decreases n - i,
    {
        let ghost before = out@;
        out = push_sorted_unique(out, g[i]);
        proof {
            assert(g@.take(i + 1 as int) =~= g@.take(i as int) + seq![g@[i as int]]);
            Seq::<u16>::lemma_to_set_insert_commutes(g@.take(i as int), g@[i as int]);
            assert(out@.to_set() =~= effective_port_set(project.ports@).union(
                g@.take(i + 1 as int).to_set(),
            ));
            assert(before.to_set().contains(before[0]));
            assert(out@.to_set().contains(before[0]));
            assert(out@.contains(before[0]));
        }
        i += 1;
    }
    proof {
        assert(g@.take(n as int) =~= g@);
        assert(g@.to_set() == effective_port_set(global.ports@));
    }
    out
}

// ---------------------------------------------------------------------------
// The .roostrc text format
// ---------------------------------------------------------------------------

/// `[serve]`
pub open spec fn serve_header() -> Seq<char> {
    seq!['[', 's', 'e', 'r', 'v', 'e', ']']
}

/// `mappings = [`
pub open spec fn mappings_open() -> Seq<char> {
    seq!['m', 'a', 'p', 'p', 'i', 'n', 'g', 's', ' ', '=', ' ', '[']
}

/// `{ domain = "`
pub open spec fn mapping_prefix() -> Seq<char> {
    seq!['{', ' ', 'd', 'o', 'm', 'a', 'i', 'n', ' ', '=', ' ', '"']
}

/// `", port = `
pub open spec fn mapping_mid() -> Seq<char> {
    seq!['"', ',', ' ', 'p', 'o', 'r', 't', ' ', '=', ' ']
}

/// ` },`
pub open spec fn mapping_close() -> Seq<char> {
    seq![' ', '}', ',']
}

/// `ports = [`
pub open spec fn ports_prefix() -> Seq<char> {
    seq!['p', 'o', 'r', 't', 's', ' ', '=', ' ', '[']
}

/// One rendered mapping line.
pub open spec fn mapping_line(d: Seq<char>, p: u16) -> Seq<char> {
    mapping_prefix() + d + mapping_mid() + crate::text::dec_str(p as nat) + mapping_close()
}

/// The rendered port list, comma-and-space separated.
pub open spec fn ports_text(ps: Seq<u16>) -> Seq<char>
    decreases ps.len(),
{
    if ps.len() == 0 {
        Seq::empty()
    } else if ps.len() == 1 {
        crate::text::dec_str(ps[0] as nat)
    } else {
        crate::text::dec_str(ps[0] as nat) + seq![',', ' '] + ports_text(ps.drop_first())
    }
}

/// The rendered ports line.
pub open spec fn ports_line(ps: Seq<u16>) -> Seq<char> {
    ports_prefix() + ports_text(ps) + seq![']']
}

/// The lines of a rendered serve config.
pub open spec fn serve_lines(ms: Seq<(Seq<char>, u16)>, ps: Seq<u16>) -> Seq<Seq<char>> {
    seq![serve_header(), mappings_open()] + ms.map_values(
        |e: (Seq<char>, u16)| mapping_line(e.0, e.1),
    ) + seq![seq![']'], ports_line(ps)]
}

/// The rendered serve config file.
pub open spec fn serve_text(ms: Seq<(Seq<char>, u16)>, ps: Seq<u16>) -> Seq<char> {
    crate::text::lines_text(serve_lines(ms, ps))
}

pub open spec fn no_quote(s: Seq<char>) -> bool {
    forall|i: int| 0 <= i < s.len() ==> #[trigger] s[i] != '"'
}

/// Read one `{ domain = "D", port = N },` line.
pub open spec fn parse_mapping_line(line: Seq<char>) -> Option<(Seq<char>, u16)> {
    if line.len() >= 12 && line.take(12) == mapping_prefix() {
        let rest = line.skip(12);
        let i = crate::text::find_idx(rest, '"');
        if i < rest.len() {
            let d = rest.take(i);
            let after = rest.skip(i);
            if after.len() >= 13 && after.take(10) == mapping_mid() && after.subrange(
                after.len() - 3,
                after.len() as int,
            ) == mapping_close() {
                let digits = after.subrange(10, after.len() - 3);
                if digits.len() > 0 && crate::text::all_digits(digits) && crate::text::dec_val(
                    digits,
                ) <= u16::MAX {
                    Some((d, crate::text::dec_val(digits) as u16))
                } else {
                    None
                }
            } else {
                None
            }
        } else {
            None
        }
    } else {
        None
    }
}

/// Read a comma-separated list of port numbers.
#[via_fn]
proof fn parse_port_list_decreases(s: Seq<char>) {
    crate::text::lemma_find_idx(s, ',');
}

pub open spec fn parse_port_list(s: Seq<char>) -> Option<Seq<u16>>
    decreases s.len(),
    via parse_port_list_decreases
{
    if s.len() == 0 {
        Some(Seq::empty())
    } else {
        let i = crate::text::find_idx(s, ',');
        let t = crate::text::trim_spec(s.take(i));
        if t.len() > 0 && crate::text::all_digits(t) && crate::text::dec_val(t) <= u16::MAX {
            let v = crate::text::dec_val(t) as u16;
            if i < s.len() {
                match parse_port_list(s.skip(i + 1)) {
                    Some(rest) => Some(seq![v] + rest),
                    None => None,
                }
            } else {
                Some(seq![v])
            }
        } else {
            None
        }
    }
}

/// Read a `ports = [..]` line.
pub open spec fn parse_ports_line(line: Seq<char>) -> Option<Seq<u16>> {
    if line.len() >= 10 && line.take(9) == ports_prefix() && line.last() == ']' {
        parse_port_list(line.subrange(9, line.len() - 1))
    } else {
        None
    }
}

/// Read the items of an inline mappings array — `{ domain = "D",
/// port = N }` groups, comma-separated, up to the closing bracket —
/// dropping items with an empty domain.
#[via_fn]
proof fn parse_inline_items_decreases(s: Seq<char>) {
    crate::text::lemma_trim_len(s);
    let t = crate::text::trim_spec(s);
    if !(t == seq![']']) && t.len() >= 12 && t.take(12) == mapping_prefix() {
        let rest = t.skip(12);
        crate::text::lemma_find_idx(rest, '"');
        let i = crate::text::find_idx(rest, '"');
        if i < rest.len() {
            let after = rest.skip(i);
            if after.len() >= 10 && after.take(10) == mapping_mid() {
                let num_rest = after.skip(10);
                crate::text::lemma_find_idx(num_rest, '}');
                let j = crate::text::find_idx(num_rest, '}');
                if j < num_rest.len() {
                    crate::text::lemma_trim_len(num_rest.skip(j + 1));
                }
            }
        }
    }
}

pub open spec fn parse_inline_items(s: Seq<char>) -> Option<Seq<(Seq<char>, u16)>>
    decreases s.len(),
    via parse_inline_items_decreases
{
    let t = crate::text::trim_spec(s);
    if t == seq![']'] {
        Some(Seq::empty())
    } else if t.len() >= 12 && t.take(12) == mapping_prefix() {
        let rest = t.skip(12);
        let i = crate::text::find_idx(rest, '"');
        if i < rest.len() {
            let d = rest.take(i);
            let after = rest.skip(i);
            if after.len() >= 10 && after.take(10) == mapping_mid() {
                let num_rest = after.skip(10);
                let j = crate::text::find_idx(num_rest, '}');
                if j < num_rest.len() {
                    let digits = crate::text::trim_spec(num_rest.take(j));
                    if digits.len() > 0 && crate::text::all_digits(digits)
                        && crate::text::dec_val(digits) <= u16::MAX {
                        let v = crate::text::dec_val(digits) as u16;
                        let cont = crate::text::trim_spec(num_rest.skip(j + 1));
                        if cont.len() >= 1 && cont[0] == ',' {
                            match parse_inline_items(cont.skip(1)) {
                                Some(items) => if d.len() > 0 {
                                    Some(seq![(d, v)] + items)
                                } else {
                                    Some(items)
                                },
                                None => None,
                            }
                        } else if cont == seq![']'] {
                            if d.len() > 0 {
                                Some(seq![(d, v)])
                            } else {
                                Some(Seq::empty())
                            }
                        } else {
                            None
                        }
                    } else {
                        None
                    }
                } else {
                    None
                }
            } else {
                None
            }
        } else {
            None
        }
    } else {
        None
    }
}

/// Parser state: past `[serve]`, inside the mappings array, the
/// mappings read, and the ports line if seen.
pub type ServeParseState = (bool, bool, Seq<(Seq<char>, u16)>, Option<Seq<u16>>);

/// One line of a serve config changes the parser state.  Mappings with
/// an empty domain are dropped, as on load.
pub open spec fn serve_step(st: Option<ServeParseState>, line: Seq<char>) -> Option<
    ServeParseState,
> {
    match st {
        None => None,
        Some((seen, inm, ms, ports)) => {
            if line.len() == 0 {
                st
            } else if inm {
                if line == seq![']'] {
                    Some((seen, false, ms, ports))
                } else {
                    match parse_mapping_line(line) {
                        Some((d, p)) => if d.len() > 0 {
                            Some((seen, inm, ms.push((d, p)), ports))
                        } else {
                            st
                        },
                        None => None,
                    }
                }
            } else if line == serve_header() {
                Some((true, false, ms, ports))
            } else if !seen {
                None
            } else if line == mappings_open() {
                Some((seen, true, ms, ports))
            } else if line.len() >= 12 && line.take(12) == mappings_open() {
                match parse_inline_items(line.skip(12)) {
                    Some(items) => Some((seen, inm, ms + items, ports)),
                    None => None,
                }
            } else {
                match parse_ports_line(line) {
                    Some(pl) => if ports is None {
                        Some((seen, inm, ms, Some(pl)))
                    } else {
                        None
                    },
                    None => None,
                }
            }
        },
    }
}

/// Run the parser over the lines of a serve config.
pub open spec fn run_serve_lines(st: Option<ServeParseState>, lines: Seq<Seq<char>>) -> Option<
    ServeParseState,
>
    decreases lines.len(),
{
    if lines.len() == 0 {
        st
    } else {
        run_serve_lines(serve_step(st, lines[0]), lines.drop_first())
    }
}

/// Parse a whole serve config file: the mappings and ports read, with
/// no ports line meaning an empty port list.  Each line is trimmed of
/// surrounding whitespace first, so indentation is tolerated.
pub open spec fn parse_serve_text(s: Seq<char>) -> Option<(Seq<(Seq<char>, u16)>, Seq<u16>)> {
    match run_serve_lines(
        Some((false, false, Seq::empty(), None)),
        crate::text::trimmed_lines(s),
    ) {
        Some((seen, inm, ms, ports)) => Some(
            (
                ms,
                match ports {
                    Some(pl) => pl,
                    None => Seq::empty(),
                },
            ),
        ),
        None => None,
    }
}

pub proof fn lemma_run_serve_push(st: Option<ServeParseState>, lines: Seq<Seq<char>>, x: Seq<char>)
    ensures
        run_serve_lines(st, lines.push(x)) == serve_step(run_serve_lines(st, lines), x),
    decreases lines.len(),
{
    if lines.len() == 0 {
        assert(lines.push(x).drop_first() =~= Seq::<Seq<char>>::empty());
        assert(lines.push(x)[0] == x);
        assert(run_serve_lines(serve_step(st, x), Seq::<Seq<char>>::empty()) == serve_step(st, x));
    } else {
        assert(lines.push(x)[0] == lines[0]);
        assert(lines.push(x).drop_first() =~= lines.drop_first().push(x));
        lemma_run_serve_push(serve_step(st, lines[0]), lines.drop_first(), x);
    }
}

pub proof fn lemma_run_serve_append(
    st: Option<ServeParseState>,
    a: Seq<Seq<char>>,
    b: Seq<Seq<char>>,
)
    ensures
        run_serve_lines(st, a + b) == run_serve_lines(run_serve_lines(st, a), b),
    decreases a.len(),
{
    if a.len() == 0 {
        assert(a + b =~= b);
    } else {
        assert((a + b)[0] == a[0]);
        assert((a + b).drop_first() =~= a.drop_first() + b);
        lemma_run_serve_append(serve_step(st, a[0]), a.drop_first(), b);
    }
}

pub proof fn lemma_run_serve_none(lines: Seq<Seq<char>>)
    ensures
        run_serve_lines(None, lines) is None,
    decreases lines.len(),
{
    if lines.len() > 0 {
        lemma_run_serve_none(lines.drop_first());
    }
}

/// A rendered mapping line reads back as itself.
pub proof fn lemma_parse_mapping_inverse(d: Seq<char>, p: u16)
    requires
        crate::text::text_safe(d),
    ensures
        parse_mapping_line(mapping_line(d, p)) == Some((d, p)),
        mapping_line(d, p).len() > 0,
        mapping_line(d, p) != serve_header(),
        mapping_line(d, p) != seq![']'],
{
    let line = mapping_line(d, p);
    let digits = crate::text::dec_str(p as nat);
    crate::text::lemma_dec_str_digits(p as nat);
    crate::text::lemma_dec_val_dec_str(p as nat);
    assert(line.take(12) =~= mapping_prefix());
    let rest = line.skip(12);
    assert(rest =~= d + seq!['"'] + (seq![',', ' ', 'p', 'o', 'r', 't', ' ', '=', ' '] + digits
        + mapping_close()));
    crate::text::lemma_find_idx_concat(
        d,
        seq![',', ' ', 'p', 'o', 'r', 't', ' ', '=', ' '] + digits + mapping_close(),
        '"',
    );
    let i = crate::text::find_idx(rest, '"');
    assert(i == d.len());
    assert(rest.take(i) =~= d);
    let after = rest.skip(i);
    assert(after =~= mapping_mid() + digits + mapping_close());
    assert(after.len() == 13 + digits.len());
    assert(after.take(10) =~= mapping_mid());
    assert(after.subrange(after.len() - 3, after.len() as int) =~= mapping_close());
    assert(after.subrange(10, after.len() - 3) =~= digits);
    assert(line[0] == '{');
    assert(serve_header()[0] == '[');
    assert(line.len() > 1);
}

/// Spaces then digits trim to the digits.
proof fn lemma_trim_digits(pre: Seq<char>, digits: Seq<char>)
    requires
        forall|i: int| 0 <= i < pre.len() ==> #[trigger] pre[i] == ' ',
        crate::text::all_digits(digits),
        digits.len() > 0,
    ensures
        crate::text::trim_spec(pre + digits) == digits,
    decreases pre.len(),
{
    if pre.len() == 0 {
        assert(pre + digits =~= digits);
        assert(!crate::text::is_space(digits[0]));
        assert(crate::text::trim_start_spec(digits) == digits);
        assert(!crate::text::is_space(digits.last()));
        assert(crate::text::trim_end_spec(digits) == digits);
    } else {
        assert((pre + digits)[0] == ' ');
        assert((pre + digits).drop_first() =~= pre.drop_first() + digits);
        assert(forall|i: int|
            0 <= i < pre.drop_first().len() ==> #[trigger] pre.drop_first()[i] == ' ');
        lemma_trim_digits(pre.drop_first(), digits);
    }
}

/// A rendered port list reads back as itself, also under one leading
/// space.
pub proof fn lemma_parse_ports_inverse(ps: Seq<u16>, pre: Seq<char>)
    requires
        forall|i: int| 0 <= i < pre.len() ==> #[trigger] pre[i] == ' ',
        pre.len() <= 1,
        ps.len() > 0,
    ensures
        parse_port_list(pre + ports_text(ps)) == Some(ps),
    decreases ps.len(),
{
    let digits = crate::text::dec_str(ps[0] as nat);
    crate::text::lemma_dec_str_digits(ps[0] as nat);
    crate::text::lemma_dec_val_dec_str(ps[0] as nat);
    let s = pre + ports_text(ps);
    if ps.len() == 1 {
        assert(s =~= pre + digits);
        assert(forall|j: int| 0 <= j < s.len() ==> s[j] != ',');
        crate::text::lemma_find_idx_absent(s, ',');
        assert(s.take(s.len() as int) =~= s);
        lemma_trim_digits(pre, digits);
        assert(seq![ps[0]] =~= ps);
    } else {
        assert(s =~= (pre + digits) + seq![','] + (seq![' '] + ports_text(ps.drop_first())));
        assert(forall|j: int| 0 <= j < (pre + digits).len() ==> (pre + digits)[j] != ',');
        crate::text::lemma_find_idx_concat(
            pre + digits,
            seq![' '] + ports_text(ps.drop_first()),
            ',',
        );
        let i = crate::text::find_idx(s, ',');
        assert(i == pre.len() + digits.len());
        assert(s.take(i) =~= pre + digits);
        lemma_trim_digits(pre, digits);
        assert(s.skip(i + 1) =~= seq![' '] + ports_text(ps.drop_first()));
        lemma_parse_ports_inverse(ps.drop_first(), seq![' ']);
        assert(seq![ps[0]] + ps.drop_first() =~= ps);
    }
}

/// A rendered ports line reads back as itself.
pub proof fn lemma_parse_ports_line_inverse(ps: Seq<u16>)
    ensures
        parse_ports_line(ports_line(ps)) == Some(ps),
        ports_line(ps).len() > 0,
        ports_line(ps) != serve_header(),
        ports_line(ps) != mappings_open(),
    decreases ps.len(),
{
    let line = ports_line(ps);
    assert(line.take(9) =~= ports_prefix());
    assert(line.last() == ']');
    assert(line.subrange(9, line.len() - 1) =~= ports_text(ps));
    if ps.len() == 0 {
        assert(ports_text(ps) =~= Seq::<char>::empty());
        assert(parse_port_list(Seq::<char>::empty()) == Some(Seq::<u16>::empty()));
    } else {
        lemma_parse_ports_inverse(ps, Seq::empty());
        assert(Seq::<char>::empty() + ports_text(ps) =~= ports_text(ps));
    }
    assert(line[0] == 'p');
    assert(serve_header()[0] == '[');
    assert(mappings_open()[0] == 'm');
}

/// All lines of a rendered serve config are newline-free.
pub proof fn lemma_serve_lines_safe(ms: Seq<(Seq<char>, u16)>, ps: Seq<u16>)
    requires
        forall|k: int| 0 <= k < ms.len() ==> crate::text::text_safe((#[trigger] ms[k]).0),
    ensures
        forall|k: int, j: int|
            0 <= k < serve_lines(ms, ps).len() && 0 <= j < serve_lines(ms, ps)[k].len()
                ==> #[trigger] serve_lines(ms, ps)[k][j] != '\n',
{
    let lines = serve_lines(ms, ps);
    lemma_ports_text_safe(ps);
    assert forall|k: int, j: int|
        0 <= k < lines.len() && 0 <= j < lines[k].len() implies #[trigger] lines[k][j] != '\n' by {
        if 2 <= k < 2 + ms.len() {
            assert(lines[k] == mapping_line(ms[k - 2].0, ms[k - 2].1));
            crate::text::lemma_dec_str_digits(ms[k - 2].1 as nat);
        } else if k == 2 + ms.len() + 1 {
            assert(lines[k] == ports_line(ps));
        }
    }
}

proof fn lemma_ports_text_safe(ps: Seq<u16>)
    ensures
        forall|j: int| 0 <= j < ports_text(ps).len() ==> #[trigger] ports_text(ps)[j] != '\n',
    decreases ps.len(),
{
    if ps.len() > 0 {
        let digits = crate::text::dec_str(ps[0] as nat);
        crate::text::lemma_dec_str_digits(ps[0] as nat);
        assert(forall|j: int|
            0 <= j < digits.len() ==> crate::text::is_digit(#[trigger] digits[j]));
        if ps.len() == 1 {
            assert forall|j: int|
                0 <= j < ports_text(ps).len() implies #[trigger] ports_text(ps)[j] != '\n' by {
                assert(crate::text::is_digit(digits[j]));
            }
        } else {
            lemma_ports_text_safe(ps.drop_first());
            assert forall|j: int|
                0 <= j < ports_text(ps).len() implies #[trigger] ports_text(ps)[j] != '\n' by {
                if j < digits.len() {
                    assert(crate::text::is_digit(digits[j]));
                } else if j >= digits.len() + 2 {
                    assert(ports_text(ps)[j] == ports_text(ps.drop_first())[j - digits.len() - 2]);
                }
            }
        }
    }
}

/// Mapping lines append mappings one by one.
pub proof fn lemma_run_mapping_lines(
    acc: Seq<(Seq<char>, u16)>,
    ms: Seq<(Seq<char>, u16)>,
    ports: Option<Seq<u16>>,
)
    requires
        forall|k: int|
            0 <= k < ms.len() ==> crate::text::text_safe((#[trigger] ms[k]).0) && ms[k].0.len()
                > 0,
    ensures
        run_serve_lines(
            Some((true, true, acc, ports)),
            ms.map_values(|e: (Seq<char>, u16)| mapping_line(e.0, e.1)),
        ) == Some((true, true, acc + ms, ports)),
    decreases ms.len(),
{
    let lines = ms.map_values(|e: (Seq<char>, u16)| mapping_line(e.0, e.1));
    if ms.len() == 0 {
        assert(acc + ms =~= acc);
    } else {
        let (d, p) = ms[0];
        lemma_parse_mapping_inverse(d, p);
        assert(lines[0] == mapping_line(d, p));
        assert(serve_step(Some((true, true, acc, ports)), lines[0]) == Some(
            (true, true, acc.push((d, p)), ports),
        ));
        assert(lines.drop_first() =~= ms.drop_first().map_values(
            |e: (Seq<char>, u16)| mapping_line(e.0, e.1),
        ));
        assert(forall|k: int|
            0 <= k < ms.drop_first().len() ==> (#[trigger] ms.drop_first()[k]) == ms[k + 1]);
        lemma_run_mapping_lines(acc.push((d, p)), ms.drop_first(), ports);
        assert(acc.push((d, p)) + ms.drop_first() =~= acc + ms);
    }
}

/// Law: reading back a rendered serve config yields the mappings and
/// ports it was rendered from.
pub proof fn lemma_serve_roundtrip(ms: Seq<(Seq<char>, u16)>, ps: Seq<u16>)
    requires
        forall|k: int|
            0 <= k < ms.len() ==> crate::text::text_safe((#[trigger] ms[k]).0) && ms[k].0.len()
                > 0,
    ensures
        parse_serve_text(serve_text(ms, ps)) == Some((ms, ps)),
{
    let lines = serve_lines(ms, ps);
    let entry_lines = ms.map_values(|e: (Seq<char>, u16)| mapping_line(e.0, e.1));
    lemma_serve_lines_safe(ms, ps);
    crate::text::lemma_split_lines_text(lines);
    assert(crate::text::split_seq(serve_text(ms, ps), '\n') == lines.push(Seq::empty()));
    let pieces = lines.push(Seq::<char>::empty());
    assert forall|k: int|
        0 <= k < pieces.len() implies crate::text::trim_spec(#[trigger] pieces[k])
        == pieces[k] by {
        if k < lines.len() {
            if k == 0 {
                assert(pieces[k] == serve_header());
            } else if k == 1 {
                assert(pieces[k] == mappings_open());
            } else if k < 2 + ms.len() {
                assert(pieces[k] == mapping_line(ms[k - 2].0, ms[k - 2].1));
                assert(mapping_line(ms[k - 2].0, ms[k - 2].1)[0] == '{');
                assert(mapping_line(ms[k - 2].0, ms[k - 2].1).last() == ',');
            } else if k == 2 + ms.len() {
                assert(pieces[k] =~= seq![']']);
            } else {
                assert(pieces[k] == ports_line(ps));
                assert(ports_line(ps)[0] == 'p');
                assert(ports_line(ps).last() == ']');
            }
        } else {
            assert(pieces[k] =~= Seq::<char>::empty());
        }
        crate::text::lemma_trim_id(pieces[k]);
    }
    assert(crate::text::trimmed_lines(serve_text(ms, ps)) =~= pieces);
    let init: Option<ServeParseState> = Some(
        (false, false, Seq::<(Seq<char>, u16)>::empty(), None),
    );
    let prefix = seq![serve_header(), mappings_open()];
    let suffix = seq![seq![']'], ports_line(ps), Seq::<char>::empty()];
    assert(lines.push(Seq::empty()) =~= prefix + (entry_lines + suffix));
    lemma_run_serve_append(init, prefix, entry_lines + suffix);
    assert(prefix[0] == serve_header());
    assert(prefix.drop_first() =~= seq![mappings_open()]);
    assert(seq![mappings_open()][0] == mappings_open());
    assert(seq![mappings_open()].drop_first() =~= Seq::<Seq<char>>::empty());
    let st1 = serve_step(init, serve_header());
    assert(serve_header().len() > 0);
    assert(mappings_open().len() > 0);
    assert(mappings_open() != serve_header());
    let st2 = serve_step(st1, mappings_open());
    assert(st2 == Some((true, true, Seq::<(Seq<char>, u16)>::empty(), None::<Seq<u16>>)));
    assert(run_serve_lines(init, prefix) == run_serve_lines(st1, prefix.drop_first()));
    assert(run_serve_lines(st1, prefix.drop_first()) == run_serve_lines(
        st2,
        Seq::<Seq<char>>::empty(),
    ));
    lemma_run_serve_append(st2, entry_lines, suffix);
    lemma_run_mapping_lines(Seq::empty(), ms, None);
    let st3 = run_serve_lines(st2, entry_lines);
    assert(st3 == Some((true, true, Seq::<(Seq<char>, u16)>::empty() + ms, None::<Seq<u16>>)));
    assert(Seq::<(Seq<char>, u16)>::empty() + ms =~= ms);
    let st4 = serve_step(st3, seq![']']);
    assert(seq![']'].len() == 1);
    assert(st4 == Some((true, false, ms, None::<Seq<u16>>)));
    lemma_parse_ports_line_inverse(ps);
    let st5 = serve_step(st4, ports_line(ps));
    assert(ports_line(ps) != seq![']']) by {
        assert(ports_line(ps)[0] == 'p');
    }
    assert(st5 == Some((true, false, ms, Some(ps))));
    let st6 = serve_step(st5, Seq::<char>::empty());
    assert(suffix[0] == seq![']']);
    assert(suffix.drop_first() =~= seq![ports_line(ps), Seq::<char>::empty()]);
    assert(suffix.drop_first()[0] == ports_line(ps));
    assert(suffix.drop_first().drop_first() =~= seq![Seq::<char>::empty()]);
    assert(seq![Seq::<char>::empty()][0] == Seq::<char>::empty());
    assert(seq![Seq::<char>::empty()].drop_first() =~= Seq::<Seq<char>>::empty());
    assert(run_serve_lines(st3, suffix) == run_serve_lines(st4, suffix.drop_first()));
    assert(run_serve_lines(st4, suffix.drop_first()) == run_serve_lines(
        st5,
        suffix.drop_first().drop_first(),
    ));
    assert(run_serve_lines(st5, suffix.drop_first().drop_first()) == run_serve_lines(
        st6,
        Seq::<Seq<char>>::empty(),
    ));
    assert(st6 == st5);
}

/// Rendering one more port appends a separator and its digits.
pub proof fn lemma_ports_text_push(ps: Seq<u16>, x: u16)
    requires
        ps.len() >= 1,
    ensures
        ports_text(ps.push(x)) == ports_text(ps) + seq![',', ' '] + crate::text::dec_str(x as nat),
    decreases ps.len(),
{
    if ps.len() == 1 {
        assert(ps.push(x).drop_first() =~= seq![x]);
        assert(ps.push(x)[0] == ps[0]);
        assert(seq![x][0] == x);
        assert(ports_text(seq![x]) == crate::text::dec_str(x as nat));
        assert(ports_text(ps.push(x)) =~= ports_text(ps) + seq![',', ' ']
            + crate::text::dec_str(x as nat));
    } else {
        assert(ps.push(x)[0] == ps[0]);
        assert(ps.push(x).drop_first() =~= ps.drop_first().push(x));
        lemma_ports_text_push(ps.drop_first(), x);
        assert(ports_text(ps.push(x)) =~= ports_text(ps) + seq![',', ' ']
            + crate::text::dec_str(x as nat));
    }
}

/// Read one `{ domain = "D", port = N },` line.
fn parse_mapping_exec(line: &str) -> (r: Option<(String, u16)>)
    ensures
        r is Some <==> parse_mapping_line(line@) is Some,
        r is Some ==> ((r->0).0@, (r->0).1) == parse_mapping_line(line@)->0,
{
    let n = line.unicode_len();
    if n < 12 {
        return None;
    }
    let pre = crate::text::substring(line, 0, 12);
    proof {
        reveal_strlit("{ domain = \"");
        assert("{ domain = \""@ =~= mapping_prefix());
        assert(pre@ =~= line@.take(12));
    }
    if !crate::text::str_eq(pre.as_str(), "{ domain = \"") {
        return None;
    }
    let rest = crate::text::substring(line, 12, n);
    proof {
        assert(rest@ =~= line@.skip(12));
        crate::text::lemma_find_idx(rest@, '"');
    }
    let i = match crate::text::find_char(rest.as_str(), '"') {
        Some(i) => i,
        None => {
            return None;
        },
    };
    let d = crate::text::substring(rest.as_str(), 0, i);
    let m = rest.as_str().unicode_len();
    let after = crate::text::substring(rest.as_str(), i, m);
    proof {
        assert(d@ =~= rest@.take(i as int));
        assert(after@ =~= rest@.skip(i as int));
    }
    let alen = after.as_str().unicode_len();
    if alen < 13 {
        return None;
    }
    let mid = crate::text::substring(after.as_str(), 0, 10);
    let close = crate::text::substring(after.as_str(), alen - 3, alen);
    proof {
        reveal_strlit("\", port = ");
        reveal_strlit(" },");
        assert("\", port = "@ =~= mapping_mid());
        assert(" },"@ =~= mapping_close());
        assert(mid@ =~= after@.take(10));
        assert(close@ =~= after@.subrange(after@.len() - 3, after@.len() as int));
    }
    if !crate::text::str_eq(mid.as_str(), "\", port = ") {
        return None;
    }
    if !crate::text::str_eq(close.as_str(), " },") {
        return None;
    }
    let digits = crate::text::substring(after.as_str(), 10, alen - 3);
    proof {
        assert(digits@ =~= after@.subrange(10, after@.len() - 3));
    }
    match crate::text::parse_u16(digits.as_str()) {
        Some(p) => Some((d, p)),
        None => None,
    }
}

/// Read a comma-separated port list.
fn parse_port_list_exec(s: &str) -> (r: Option<Vec<u16>>)
    ensures
        r is Some <==> parse_port_list(s@) is Some,
        r is Some ==> (r->0)@ == parse_port_list(s@)->0,
    decreases s@.len(),
{
    let n = s.unicode_len();
    if n == 0 {
        let empty: Vec<u16> = Vec::new();
        proof {
            assert(empty@ =~= Seq::<u16>::empty());
        }
        return Some(empty);
    }
    proof {
        crate::text::lemma_find_idx(s@, ',');
    }
    match crate::text::find_char(s, ',') {
        Some(i) => {
            let piece = crate::text::substring(s, 0, i);
            proof {
                assert(piece@ =~= s@.take(i as int));
            }
            let t = crate::text::trim_str(piece.as_str());
            let v = match crate::text::parse_u16(t.as_str()) {
                Some(v) => v,
                None => {
                    return None;
                },
            };
            let rest = crate::text::substring(s, i + 1, n);
            proof {
                assert(rest@ =~= s@.skip(i + 1 as int));
            }
            match parse_port_list_exec(rest.as_str()) {
                Some(tail) => {
                    let mut out: Vec<u16> = Vec::new();
                    out.push(v);
                    let ghost tail_view = tail@;
                    let mut tail = tail;
                    let tn = tail.len();
                    let mut k: usize = 0;
                    while k < tn
                        invariant
                            tn == tail@.len(),
                            tail@ == tail_view,
                            k <= tn,
                            out@ == seq![v].add(tail_view.take(k as int)),
                        decreases tn - k,
                    {
                        out.push(tail[k]);
                        proof {
                            assert(out@ =~= seq![v].add(tail_view.take(k + 1 as int)));
                        }
                        k += 1;
                    }
                    proof {
                        assert(tail_view.take(tn as int) =~= tail_view);
                        assert(out@ =~= seq![v] + tail_view);
                    }
                    Some(out)
                },
                None => None,
            }
        },
        None => {
            let t = crate::text::trim_str(s);
            proof {
                assert(s@.take(crate::text::find_idx(s@, ',')) =~= s@);
            }
            match crate::text::parse_u16(t.as_str()) {
                Some(v) => {
                    let mut out: Vec<u16> = Vec::new();
                    out.push(v);
                    proof {
                        assert(out@ =~= seq![v]);
                    }
                    Some(out)
                },
                None => None,
            }
        },
    }
}

/// Read a `ports = [..]` line.
fn parse_ports_line_exec(line: &str) -> (r: Option<Vec<u16>>)
    ensures
        r is Some <==> parse_ports_line(line@) is Some,
        r is Some ==> (r->0)@ == parse_ports_line(line@)->0,
{
    let n = line.unicode_len();
    if n < 10 {
        return None;
    }
    let pre = crate::text::substring(line, 0, 9);
    proof {
        reveal_strlit("ports = [");
        assert("ports = ["@ =~= ports_prefix());
        assert(pre@ =~= line@.take(9));
    }
    if !crate::text::str_eq(pre.as_str(), "ports = [") {
        return None;
    }
    if line.get_char(n - 1) != ']' {
        return None;
    }
    let mid = crate::text::substring(line, 9, n - 1);
    proof {
        assert(mid@ =~= line@.subrange(9, line@.len() - 1));
    }
    parse_port_list_exec(mid.as_str())
}

/// Read the items of an inline mappings array.
#[verifier::loop_isolation(false)]
fn parse_inline_exec(s: &str) -> (r: Option<Vec<Mapping>>)
    ensures
        r is Some <==> parse_inline_items(s@) is Some,
        r is Some ==> mappings_view((r->0)@) == parse_inline_items(s@)->0,
    decreases s@.len(),
{
    proof {
        crate::text::lemma_trim_len(s@);
    }
    let t = crate::text::trim_str(s);
    proof {
        reveal_strlit("]");
        assert("]"@ =~= seq![']']);
    }
    if crate::text::str_eq(t.as_str(), "]") {
        let empty: Vec<Mapping> = Vec::new();
        proof {
            assert(mappings_view(empty@) =~= Seq::<(Seq<char>, u16)>::empty());
        }
        return Some(empty);
    }
    let tn = t.as_str().unicode_len();
    if tn < 12 {
        return None;
    }
    let pre = crate::text::substring(t.as_str(), 0, 12);
    proof {
        reveal_strlit("{ domain = \"");
        assert("{ domain = \""@ =~= mapping_prefix());
        assert(pre@ =~= t@.take(12));
    }
    if !crate::text::str_eq(pre.as_str(), "{ domain = \"") {
        return None;
    }
    let rest = crate::text::substring(t.as_str(), 12, tn);
    proof {
        assert(rest@ =~= t@.skip(12));
        crate::text::lemma_find_idx(rest@, '"');
    }
    let i = match crate::text::find_char(rest.as_str(), '"') {
        Some(i) => i,
        None => {
            return None;
        },
    };
    let d = crate::text::substring(rest.as_str(), 0, i);
    let m = rest.as_str().unicode_len();
    let after = crate::text::substring(rest.as_str(), i, m);
    proof {
        assert(d@ =~= rest@.take(i as int));
        assert(after@ =~= rest@.skip(i as int));
    }
    let alen = after.as_str().unicode_len();
    if alen < 10 {
        return None;
    }
    let mid = crate::text::substring(after.as_str(), 0, 10);
    proof {
        reveal_strlit("\", port = ");
        assert("\", port = "@ =~= mapping_mid());
        assert(mid@ =~= after@.take(10));
    }
    if !crate::text::str_eq(mid.as_str(), "\", port = ") {
        return None;
    }
    let num_rest = crate::text::substring(after.as_str(), 10, alen);
    proof {
        assert(num_rest@ =~= after@.skip(10));
        crate::text::lemma_find_idx(num_rest@, '}');
    }
    let j = match crate::text::find_char(num_rest.as_str(), '}') {
        Some(j) => j,
        None => {
            return None;
        },
    };
    let digits_raw = crate::text::substring(num_rest.as_str(), 0, j);
    let digits = crate::text::trim_str(digits_raw.as_str());
    proof {
        assert(digits_raw@ =~= num_rest@.take(j as int));
    }
    let v = match crate::text::parse_u16(digits.as_str()) {
        Some(v) => v,
        None => {
            return None;
        },
    };
    let nlen = num_rest.as_str().unicode_len();
    let cont_raw = crate::text::substring(num_rest.as_str(), j + 1, nlen);
    let cont = crate::text::trim_str(cont_raw.as_str());
    proof {
        assert(cont_raw@ =~= num_rest@.skip(j + 1 as int));
        crate::text::lemma_trim_len(cont_raw@);
    }
    let clen = cont.as_str().unicode_len();
    if clen >= 1 && cont.as_str().get_char(0) == ',' {
        let tail = crate::text::substring(cont.as_str(), 1, clen);
        proof {
            assert(tail@ =~= cont@.skip(1));
        }
        match parse_inline_exec(tail.as_str()) {
            Some(items) => {
                let mut out: Vec<Mapping> = Vec::new();
                let keep = d.as_str().unicode_len() > 0;
                if keep {
                    out.push(Mapping { domain: d, port: v });
                }
                let ghost base = mappings_view(out@);
                let ni = items.len();
                let mut k: usize = 0;
                proof {
                    assert(mappings_view(items@).take(0) =~= Seq::<(Seq<char>, u16)>::empty());
                    assert(mappings_view(out@) =~= base + mappings_view(items@).take(0));
                }
                while k < ni
                    invariant
                        k <= ni,
                        mappings_view(out@) == base + mappings_view(items@).take(k as int),
                    decreases ni - k,
                {
                    let ghost prev = mappings_view(out@);
                    let it = &items[k];
                    out.push(Mapping { domain: it.domain.clone(), port: it.port });
                    proof {
                        assert(mappings_view(out@) =~= prev.push((it.domain@, it.port)));
                        assert(mappings_view(items@).take(k + 1 as int) =~= mappings_view(
                            items@,
                        ).take(k as int).push((it.domain@, it.port)));
                    }
                    k += 1;
                }
                proof {
                    assert(mappings_view(items@).take(ni as int) =~= mappings_view(items@));
                    if keep {
                        assert(mappings_view(out@) =~= seq![(d@, v)] + mappings_view(items@));
                    } else {
                        assert(base =~= Seq::<(Seq<char>, u16)>::empty());
                        assert(mappings_view(out@) =~= mappings_view(items@));
                    }
                }
                Some(out)
            },
            None => None,
        }
    } else if crate::text::str_eq(cont.as_str(), "]") {
        let mut out: Vec<Mapping> = Vec::new();
        if d.as_str().unicode_len() > 0 {
            out.push(Mapping { domain: d, port: v });
            proof {
                assert(mappings_view(out@) =~= seq![(out@[0].domain@, out@[0].port)]);
            }
        } else {
            proof {
                assert(mappings_view(out@) =~= Seq::<(Seq<char>, u16)>::empty());
            }
        }
        Some(out)
    } else {
        None
    }
}

impl ServeConfig {
    /// Whether every domain fits the file format: the emitter does not
    /// escape, so quotes and newlines are refused rather than written.
    #[verifier::loop_isolation(false)]
    pub fn toml_encodable(&self) -> (r: bool)
        ensures
            r == forall|k: int|
                0 <= k < self.mappings@.len() ==> crate::text::text_safe(
                    (#[trigger] self.mappings@[k]).domain@,
                ),
    {
        let n = self.mappings.len();
        let mut i: usize = 0;
        while i < n
            invariant
                i <= n,
                forall|k: int|
                    0 <= k < i ==> crate::text::text_safe((#[trigger] self.mappings@[k]).domain@),
            decreases n - i,
        {
            if !crate::text::is_text_safe(self.mappings[i].domain.as_str()) {
                return false;
            }
            i += 1;
        }
        true
    }

    /// Render the serve config as its file text.  Domains must be free
    /// of quotes and newlines — see `toml_encodable`; the round-trip
    /// law covers exactly these.
    #[verifier::loop_isolation(false)]
    pub fn to_toml_string(&self) -> (r: String)
        requires
            forall|k: int|
                0 <= k < self.mappings@.len() ==> crate::text::text_safe(
                    (#[trigger] self.mappings@[k]).domain@,
                ),
        ensures
            r@ == serve_text(mappings_view(self.mappings@), self.ports@),
    {
        let ghost ms = mappings_view(self.mappings@);
        let ghost prefix = seq![serve_header(), mappings_open()];
        let mut out = String::new();
        crate::text::append_str(&mut out, "[serve]\nmappings = [\n");
        proof {
            reveal_strlit("[serve]\nmappings = [\n");
            assert("[serve]\nmappings = [\n"@ =~= serve_header() + seq!['\n'] + mappings_open()
                + seq!['\n']);
            assert(prefix[0] == serve_header());
            assert(prefix.drop_first() =~= seq![mappings_open()]);
            assert(seq![mappings_open()][0] == mappings_open());
            assert(seq![mappings_open()].drop_first() =~= Seq::<Seq<char>>::empty());
            assert(crate::text::lines_text(Seq::<Seq<char>>::empty()) == Seq::<char>::empty());
            assert(crate::text::lines_text(seq![mappings_open()]) =~= mappings_open() + seq![
                '\n',
            ]);
            assert(out@ =~= crate::text::lines_text(prefix));
            assert(ms.take(0).map_values(|e: (Seq<char>, u16)| mapping_line(e.0, e.1)) =~= Seq::<
                Seq<char>,
            >::empty());
            assert(prefix + Seq::<Seq<char>>::empty() =~= prefix);
        }
        let n = self.mappings.len();
        let mut i: usize = 0;
        while i < n
            invariant
                i <= n,
                out@ == crate::text::lines_text(
                    prefix + ms.take(i as int).map_values(
                        |e: (Seq<char>, u16)| mapping_line(e.0, e.1),
                    ),
                ),
            decreases n - i,
        {
            let m = &self.mappings[i];
            let ghost before = prefix + ms.take(i as int).map_values(
                |e: (Seq<char>, u16)| mapping_line(e.0, e.1),
            );
            crate::text::append_str(&mut out, "{ domain = \"");
            crate::text::append_str(&mut out, m.domain.as_str());
            crate::text::append_str(&mut out, "\", port = ");
            let digits = crate::text::u64_to_string(m.port as u64);
            crate::text::append_str(&mut out, digits.as_str());
            crate::text::append_str(&mut out, " },\n");
            proof {
                reveal_strlit("{ domain = \"");
                reveal_strlit("\", port = ");
                reveal_strlit(" },\n");
                assert("{ domain = \""@ =~= mapping_prefix());
                assert("\", port = "@ =~= mapping_mid());
                assert(" },\n"@ =~= mapping_close() + seq!['\n']);
                crate::text::lemma_lines_text_push(before, mapping_line(m.domain@, m.port));
                assert(ms[i as int] == (m.domain@, m.port));
                assert(out@ =~= crate::text::lines_text(
                    before.push(mapping_line(m.domain@, m.port)),
                ));
                assert(before.push(mapping_line(m.domain@, m.port)) =~= prefix + ms.take(
                    i + 1 as int,
                ).map_values(|e: (Seq<char>, u16)| mapping_line(e.0, e.1)));
            }
            i += 1;
        }
        let ghost entry_lines = ms.map_values(|e: (Seq<char>, u16)| mapping_line(e.0, e.1));
        proof {
            assert(ms.take(n as int) =~= ms);
        }
        crate::text::append_str(&mut out, "]\nports = [");
        proof {
            reveal_strlit("]\nports = [");
            assert("]\nports = ["@ =~= seq![']'] + seq!['\n'] + ports_prefix());
        }
        let pn = self.ports.len();
        let mut k: usize = 0;
        proof {
            assert(self.ports@.take(0) =~= Seq::<u16>::empty());
            assert(ports_text(self.ports@.take(0)) == Seq::<char>::empty());
        }
        while k < pn
            invariant
                k <= pn,
                out@ == crate::text::lines_text(prefix + entry_lines) + seq![']'] + seq!['\n']
                    + ports_prefix() + ports_text(self.ports@.take(k as int)),
            decreases pn - k,
        {
            if k > 0 {
                crate::text::append_str(&mut out, ", ");
            }
            let digits = crate::text::u64_to_string(self.ports[k] as u64);
            crate::text::append_str(&mut out, digits.as_str());
            proof {
                reveal_strlit(", ");
                assert(", "@ =~= seq![',', ' ']);
                assert(self.ports@.take(k + 1 as int) =~= self.ports@.take(k as int).push(
                    self.ports@[k as int],
                ));
                if k > 0 {
                    lemma_ports_text_push(self.ports@.take(k as int), self.ports@[k as int]);
                } else {
                    assert(self.ports@.take(1) =~= seq![self.ports@[0]]);
                    assert(seq![self.ports@[0]][0] == self.ports@[0]);
                    assert(ports_text(self.ports@.take(1)) == crate::text::dec_str(
                        self.ports@[0] as nat,
                    ));
                }
            }
            k += 1;
        }
        crate::text::append_str(&mut out, "]\n");
        proof {
            reveal_strlit("]\n");
            assert("]\n"@ =~= seq![']', '\n']);
            assert(self.ports@.take(pn as int) =~= self.ports@);
            let lines = serve_lines(ms, self.ports@);
            assert(lines =~= (prefix + entry_lines).push(seq![']']).push(
                ports_line(self.ports@),
            ));
            crate::text::lemma_lines_text_push(
                (prefix + entry_lines).push(seq![']']),
                ports_line(self.ports@),
            );
            crate::text::lemma_lines_text_push(prefix + entry_lines, seq![']']);
            assert(out@ =~= crate::text::lines_text(lines));
        }
        out
    }

    /// Parse a serve config from file text; mappings with an empty
    /// domain are dropped, and no ports line means no configured ports.
    #[verifier::loop_isolation(false)]
    pub fn from_toml_str(s: &str) -> (r: Result<ServeConfig, crate::config::ConfigParseError>)
        ensures
            parse_serve_text(s@) is Some <==> r is Ok,
            r is Ok ==> mappings_view((r->Ok_0).mappings@) == (parse_serve_text(s@)->0).0 && (
            r->Ok_0).ports@ == (parse_serve_text(s@)->0).1,
    {
        let lines = crate::text::split_str(s, '\n');
        let ghost lv = crate::text::trimmed_lines(s@);
        let ghost init: Option<ServeParseState> = Some(
            (false, false, Seq::<(Seq<char>, u16)>::empty(), None),
        );
        let mut seen = false;
        let mut inm = false;
        let mut mappings: Vec<Mapping> = Vec::new();
        let mut ports: Option<Vec<u16>> = None;
        let n = lines.len();
        let mut k: usize = 0;
        proof {
            assert(lv.take(0) =~= Seq::<Seq<char>>::empty());
            assert(mappings_view(mappings@) =~= Seq::<(Seq<char>, u16)>::empty());
        }
        while k < n
            invariant
                k <= n,
                run_serve_lines(init, lv.take(k as int)) == Some(
                    (seen, inm, mappings_view(mappings@), ports.deep_view()),
                ),
            decreases n - k,
        {
            let ghost st = Some((seen, inm, mappings_view(mappings@), ports.deep_view()));
            let line = crate::text::trim_str(lines[k].as_str());
            proof {
                assert(crate::text::split_seq(s@, '\n')[k as int] == lines@[k as int]@);
                assert(line@ == lv[k as int]);
                assert(lv.take(k + 1 as int) =~= lv.take(k as int).push(lv[k as int]));
                lemma_run_serve_push(init, lv.take(k as int), lv[k as int]);
                reveal_strlit("[serve]");
                reveal_strlit("mappings = [");
                reveal_strlit("]");
                assert("[serve]"@ =~= serve_header());
                assert("mappings = ["@ =~= mappings_open());
                assert("]"@ =~= seq![']']);
            }
            let m = line.as_str().unicode_len();
            if m == 0 {
            } else if inm {
                if crate::text::str_eq(line.as_str(), "]") {
                    inm = false;
                } else {
                    match parse_mapping_exec(line.as_str()) {
                        Some((d, p)) => {
                            if d.as_str().unicode_len() > 0 {
                                let ghost prev = mappings_view(mappings@);
                                let ghost dv = d@;
                                mappings.push(Mapping { domain: d, port: p });
                                proof {
                                    assert(mappings_view(mappings@) =~= prev.push((dv, p)));
                                }
                            }
                        },
                        None => {
                            proof {
                                lemma_serve_fail(init, lv, k as int);
                            }
                            return Err(crate::config::ConfigParseError::Malformed);
                        },
                    }
                }
            } else if crate::text::str_eq(line.as_str(), "[serve]") {
                seen = true;
                inm = false;
            } else if !seen {
                proof {
                    lemma_serve_fail(init, lv, k as int);
                }
                return Err(crate::config::ConfigParseError::Malformed);
            } else if crate::text::str_eq(line.as_str(), "mappings = [") {
                inm = true;
            } else if m >= 12 && {
                let head = crate::text::substring(line.as_str(), 0, 12);
                proof {
                    assert(head@ =~= line@.take(12));
                }
                crate::text::str_eq(head.as_str(), "mappings = [")
            } {
                let tail = crate::text::substring(line.as_str(), 12, m);
                proof {
                    assert(tail@ =~= line@.skip(12));
                }
                match parse_inline_exec(tail.as_str()) {
                    Some(items) => {
                        let ghost base = mappings_view(mappings@);
                        let ni = items.len();
                        let mut t: usize = 0;
                        proof {
                            assert(mappings_view(items@).take(0) =~= Seq::<(
                                Seq<char>,
                                u16,
                            )>::empty());
                            assert(mappings_view(mappings@) =~= base + mappings_view(
                                items@,
                            ).take(0));
                        }
                        while t < ni
                            invariant
                                t <= ni,
                                mappings_view(mappings@) == base + mappings_view(items@).take(
                                    t as int,
                                ),
                            decreases ni - t,
                        {
                            let ghost prev = mappings_view(mappings@);
                            let it = &items[t];
                            mappings.push(Mapping { domain: it.domain.clone(), port: it.port });
                            proof {
                                assert(mappings_view(mappings@) =~= prev.push(
                                    (it.domain@, it.port),
                                ));
                                assert(mappings_view(items@).take(t + 1 as int) =~= mappings_view(
                                    items@,
                                ).take(t as int).push((it.domain@, it.port)));
                            }
                            t += 1;
                        }
                        proof {
                            assert(mappings_view(items@).take(ni as int) =~= mappings_view(
                                items@,
                            ));
                        }
                    },
                    None => {
                        proof {
                            lemma_serve_fail(init, lv, k as int);
                        }
                        return Err(crate::config::ConfigParseError::Malformed);
                    },
                }
            } else {
                match parse_ports_line_exec(line.as_str()) {
                    Some(pl) => {
                        if ports.is_none() {
                            ports = Some(pl);
                        } else {
                            proof {
                                lemma_serve_fail(init, lv, k as int);
                            }
                            return Err(crate::config::ConfigParseError::Malformed);
                        }
                    },
                    None => {
                        proof {
                            lemma_serve_fail(init, lv, k as int);
                        }
                        return Err(crate::config::ConfigParseError::Malformed);
                    },
                }
            }
            k += 1;
        }
        proof {
            assert(lv.take(n as int) =~= lv);
        }
        let ports_vec = match ports {
            Some(pl) => pl,
            None => Vec::new(),
        };
        proof {
            assert(ports_vec@ == (parse_serve_text(s@)->0).1);
        }
        Ok(ServeConfig { mappings, ports: ports_vec })
    }
}

/// A failed parse stays failed over the remaining lines.
proof fn lemma_serve_fail(init: Option<ServeParseState>, lv: Seq<Seq<char>>, k: int)
    requires
        0 <= k < lv.len(),
        run_serve_lines(init, lv.take(k + 1)) is None,
    ensures
        run_serve_lines(init, lv) is None,
{
    assert(lv =~= lv.take(k + 1) + lv.skip(k + 1));
    lemma_run_serve_append(init, lv.take(k + 1), lv.skip(k + 1));
    lemma_run_serve_none(lv.skip(k + 1));
}

// ---------------------------------------------------------------------------
// Merging project and global configs
// ---------------------------------------------------------------------------

/// The predicate keeping global entries whose domain the project does
/// not map.
pub open spec fn not_in_keys(pv: Seq<(Seq<char>, u16)>) -> spec_fn((Seq<char>, u16)) -> bool {
    |e: (Seq<char>, u16)| !map_of(pv).contains_key(e.0)
}

/// Flatten one entry list for merging: entries with an empty domain
/// are dropped and, of several entries for one domain, the latest
/// wins.
pub open spec fn dedup_entries(es: Seq<(Seq<char>, u16)>) -> Seq<(Seq<char>, u16)>
    decreases es.len(),
{
    if es.len() == 0 {
        Seq::empty()
    } else if es.last().0.len() == 0 {
        dedup_entries(es.drop_last())
    } else {
        upsert(dedup_entries(es.drop_last()), es.last().0, es.last().1)
    }
}

/// The global entries that survive the merge: empty domains and
/// domains the project maps are dropped; of several entries for one
/// domain, the latest wins.
pub open spec fn global_additions(
    pv: Seq<(Seq<char>, u16)>,
    gv: Seq<(Seq<char>, u16)>,
) -> Seq<(Seq<char>, u16)>
    decreases gv.len(),
{
    if gv.len() == 0 {
        Seq::empty()
    } else {
        let prev = global_additions(pv, gv.drop_last());
        let e = gv.last();
        if e.0.len() == 0 || map_of(pv).contains_key(e.0) {
            prev
        } else {
            upsert(prev, e.0, e.1)
        }
    }
}

/// The merged entry list: the flattened project entries, then the
/// surviving global entries.
pub open spec fn merged_entries(
    pv: Seq<(Seq<char>, u16)>,
    gv: Seq<(Seq<char>, u16)>,
) -> Seq<(Seq<char>, u16)> {
    dedup_entries(pv) + global_additions(pv, gv)
}

/// The merged table as a map.
pub open spec fn merged_map(pv: Seq<(Seq<char>, u16)>, gv: Seq<(Seq<char>, u16)>) -> Map<
    Seq<char>,
    u16,
> {
    map_of(merged_entries(pv, gv))
}

/// Concatenation overlays the first list's map over the second's.
pub proof fn lemma_map_of_concat(a: Seq<(Seq<char>, u16)>, b: Seq<(Seq<char>, u16)>)
    ensures
        map_of(a + b) == map_of(b).union_prefer_right(map_of(a)),
    decreases a.len(),
{
    if a.len() == 0 {
        assert(a + b =~= b);
        assert(map_of(b).union_prefer_right(map_of(a)) =~= map_of(b));
    } else {
        assert((a + b)[0] == a[0]);
        assert((a + b).drop_first() =~= a.drop_first() + b);
        lemma_map_of_concat(a.drop_first(), b);
        assert(map_of(a + b) == map_of(b).union_prefer_right(map_of(a.drop_first())).insert(
            a[0].0,
            a[0].1,
        ));
        assert(map_of(b).union_prefer_right(map_of(a.drop_first())).insert(a[0].0, a[0].1)
            =~= map_of(b).union_prefer_right(map_of(a.drop_first()).insert(a[0].0, a[0].1)));
    }
}

/// Filtering global entries to unmapped domains keeps exactly those
/// domains' values.
pub proof fn lemma_map_of_filter_not_in(
    pv: Seq<(Seq<char>, u16)>,
    gv: Seq<(Seq<char>, u16)>,
    d: Seq<char>,
)
    ensures
        !map_of(pv).contains_key(d) ==> (map_of(gv.filter(not_in_keys(pv))).contains_key(d)
            <==> map_of(gv).contains_key(d)),
        !map_of(pv).contains_key(d) && map_of(gv).contains_key(d) ==> map_of(
            gv.filter(not_in_keys(pv)),
        )[d] == map_of(gv)[d],
        map_of(pv).contains_key(d) ==> !map_of(gv.filter(not_in_keys(pv))).contains_key(d),
    decreases gv.len(),
{
    let pred = not_in_keys(pv);
    reveal(Seq::filter);
    if gv.len() == 0 {
        assert(Seq::<(Seq<char>, u16)>::empty().filter(pred) =~= Seq::<(Seq<char>, u16)>::empty());
    } else {
        lemma_map_of_filter_not_in(pv, gv.drop_first(), d);
        assert(gv =~= seq![gv[0]] + gv.drop_first());
        Seq::filter_distributes_over_add(seq![gv[0]], gv.drop_first(), pred);
        assert(seq![gv[0]].drop_last() =~= Seq::<(Seq<char>, u16)>::empty());
        assert(Seq::<(Seq<char>, u16)>::empty().filter(pred) =~= Seq::<(Seq<char>, u16)>::empty());
        if pred(gv[0]) {
            assert(seq![gv[0]].filter(pred) =~= seq![gv[0]]);
            assert(gv.filter(pred) =~= seq![gv[0]] + gv.drop_first().filter(pred));
            assert(gv.filter(pred).drop_first() =~= gv.drop_first().filter(pred));
            assert(gv.filter(pred)[0] == gv[0]);
            assert(map_of(gv.filter(pred)) == map_of(gv.drop_first().filter(pred)).insert(
                gv[0].0,
                gv[0].1,
            ));
        } else {
            assert(seq![gv[0]].filter(pred) =~= Seq::<(Seq<char>, u16)>::empty());
            assert(gv.filter(pred) =~= gv.drop_first().filter(pred));
        }
    }
}

/// Flattened entries have pairwise-distinct non-empty domains, all
/// drawn from the input.
pub proof fn lemma_dedup_entries_props(es: Seq<(Seq<char>, u16)>)
    ensures
        unique_keys(dedup_entries(es)),
        forall|k: int|
            0 <= k < dedup_entries(es).len() ==> (#[trigger] dedup_entries(es)[k]).0.len() > 0
                && map_of(es).contains_key(dedup_entries(es)[k].0),
    decreases es.len(),
{
    if es.len() > 0 {
        lemma_dedup_entries_props(es.drop_last());
        lemma_map_of_contains(es, es.last().0);
        assert forall|d: Seq<char>|
            map_of(es.drop_last()).contains_key(d) implies map_of(es).contains_key(d) by {
            lemma_map_of_contains(es.drop_last(), d);
            lemma_map_of_contains(es, d);
            let j = choose|j: int| 0 <= j < es.drop_last().len() && (#[trigger] es.drop_last()[j]).0
                == d;
            assert(es[j].0 == d);
        }
        let e = es.last();
        if e.0.len() > 0 {
            let prev = dedup_entries(es.drop_last());
            crate::config::lemma_upsert_unique(prev, e.0, e.1);
            let up = upsert(prev, e.0, e.1);
            let f = prev.filter(key_ne(e.0));
            assert forall|k: int|
                0 <= k < up.len() implies (#[trigger] up[k]).0.len() > 0 && map_of(
                es,
            ).contains_key(up[k].0) by {
                if k < f.len() {
                    assert(up[k] == f[k]);
                    assert(f.contains(f[k]));
                    prev.lemma_filter_contains_rev(key_ne(e.0), f[k]);
                    let j = choose|j: int| 0 <= j < prev.len() && prev[j] == f[k];
                    assert(prev[j].0.len() > 0 && map_of(es.drop_last()).contains_key(prev[j].0));
                } else {
                    assert(up[k] == (e.0, e.1));
                    assert(exists|j: int| 0 <= j < es.len() && (#[trigger] es[j]).0 == e.0) by {
                        assert(es[es.len() - 1].0 == e.0);
                    }
                }
            }
        }
    }
}

/// The surviving global entries have pairwise-distinct non-empty
/// domains, none of which the project maps.
pub proof fn lemma_global_additions_props(pv: Seq<(Seq<char>, u16)>, gv: Seq<(Seq<char>, u16)>)
    ensures
        unique_keys(global_additions(pv, gv)),
        forall|k: int|
            0 <= k < global_additions(pv, gv).len() ==> (#[trigger] global_additions(pv, gv)[k]).0.len()
                > 0 && !map_of(pv).contains_key(global_additions(pv, gv)[k].0),
    decreases gv.len(),
{
    if gv.len() > 0 {
        lemma_global_additions_props(pv, gv.drop_last());
        let prev = global_additions(pv, gv.drop_last());
        let e = gv.last();
        if !(e.0.len() == 0 || map_of(pv).contains_key(e.0)) {
            crate::config::lemma_upsert_unique(prev, e.0, e.1);
            let up = upsert(prev, e.0, e.1);
            let f = prev.filter(key_ne(e.0));
            assert forall|k: int|
                0 <= k < up.len() implies (#[trigger] up[k]).0.len() > 0 && !map_of(
                pv,
            ).contains_key(up[k].0) by {
                if k < f.len() {
                    assert(up[k] == f[k]);
                    assert(f.contains(f[k]));
                    prev.lemma_filter_contains_rev(key_ne(e.0), f[k]);
                    let j = choose|j: int| 0 <= j < prev.len() && prev[j] == f[k];
                    assert(prev[j].0.len() > 0 && !map_of(pv).contains_key(prev[j].0));
                } else {
                    assert(up[k] == (e.0, e.1));
                }
            }
        }
    }
}

/// On entry lists with pairwise-distinct non-empty domains — what the
/// editing operations maintain — flattening changes nothing.
pub proof fn lemma_dedup_id(es: Seq<(Seq<char>, u16)>)
    requires
        unique_keys(es),
        forall|k: int| 0 <= k < es.len() ==> (#[trigger] es[k]).0.len() > 0,
    ensures
        dedup_entries(es) == es,
    decreases es.len(),
{
    if es.len() > 0 {
        assert(forall|k: int|
            0 <= k < es.drop_last().len() ==> (#[trigger] es.drop_last()[k]) == es[k]);
        lemma_dedup_id(es.drop_last());
        let e = es.last();
        assert(e.0.len() > 0);
        assert(forall|j: int|
            0 <= j < es.drop_last().len() ==> (#[trigger] es.drop_last()[j]).0 != e.0);
        crate::config::lemma_filter_id_keys(es.drop_last(), e.0);
        assert(dedup_entries(es) =~= es);
    }
}

/// On such lists the surviving global entries are exactly the filter
/// to unmapped domains.
pub proof fn lemma_additions_filter(pv: Seq<(Seq<char>, u16)>, gv: Seq<(Seq<char>, u16)>)
    requires
        unique_keys(gv),
        forall|k: int| 0 <= k < gv.len() ==> (#[trigger] gv[k]).0.len() > 0,
    ensures
        global_additions(pv, gv) == gv.filter(not_in_keys(pv)),
    decreases gv.len(),
{
    let pred = not_in_keys(pv);
    reveal(Seq::filter);
    if gv.len() == 0 {
        assert(global_additions(pv, gv) =~= gv.filter(pred));
    } else {
        assert(forall|k: int|
            0 <= k < gv.drop_last().len() ==> (#[trigger] gv.drop_last()[k]) == gv[k]);
        lemma_additions_filter(pv, gv.drop_last());
        let prev = gv.drop_last().filter(pred);
        let e = gv.last();
        assert(e.0.len() > 0);
        if map_of(pv).contains_key(e.0) {
            assert(!pred(e));
            assert(global_additions(pv, gv) =~= gv.filter(pred));
        } else {
            assert(pred(e));
            assert forall|j: int| 0 <= j < prev.len() implies (#[trigger] prev[j]).0 != e.0 by {
                assert(prev.contains(prev[j]));
                gv.drop_last().lemma_filter_contains_rev(pred, prev[j]);
                let i = choose|i: int|
                    0 <= i < gv.drop_last().len() && gv.drop_last()[i] == prev[j];
                assert(gv[i].0 != gv[gv.len() - 1].0);
            }
            crate::config::lemma_filter_id_keys(prev, e.0);
            assert(upsert(prev, e.0, e.1) =~= prev.push(e));
            assert(global_additions(pv, gv) =~= gv.filter(pred));
        }
    }
}

/// Law: over well-formed configs — pairwise-distinct, non-empty
/// domains, as the editing operations maintain — the merged table
/// takes the project's port where the project maps the domain, else
/// the global's; it maps nothing else.
pub proof fn lemma_merge_project_wins(
    pv: Seq<(Seq<char>, u16)>,
    gv: Seq<(Seq<char>, u16)>,
    d: Seq<char>,
)
    requires
        unique_keys(pv),
        unique_keys(gv),
        forall|k: int| 0 <= k < pv.len() ==> (#[trigger] pv[k]).0.len() > 0,
        forall|k: int| 0 <= k < gv.len() ==> (#[trigger] gv[k]).0.len() > 0,
    ensures
        map_of(pv).contains_key(d) ==> merged_map(pv, gv).contains_key(d) && merged_map(pv, gv)[d]
            == map_of(pv)[d],
        !map_of(pv).contains_key(d) && map_of(gv).contains_key(d) ==> merged_map(
            pv,
            gv,
        ).contains_key(d) && merged_map(pv, gv)[d] == map_of(gv)[d],
        merged_map(pv, gv).contains_key(d) ==> map_of(pv).contains_key(d) || map_of(
            gv,
        ).contains_key(d),
{
    lemma_dedup_id(pv);
    lemma_additions_filter(pv, gv);
    lemma_map_of_concat(pv, gv.filter(not_in_keys(pv)));
    lemma_map_of_filter_not_in(pv, gv, d);
}

/// The flattened merged table, keyed by domain.
#[derive(Debug, Clone)]
pub struct MergedConfig {
    pub entries: Vec<Mapping>,
}

/// Whether some mapping uses the domain.
fn mappings_contain(v: &Vec<Mapping>, domain: &str) -> (r: bool)
    ensures
        r == map_of(mappings_view(v@)).contains_key(domain@),
{
    let n = v.len();
    let mut i: usize = 0;
    while i < n
        invariant
            n == v@.len(),
            i <= n,
            forall|j: int| 0 <= j < i ==> (#[trigger] v@[j]).domain@ != domain@,
        decreases n - i,
    {
        if str_eq(v[i].domain.as_str(), domain) {
            proof {
                let mv = mappings_view(v@);
                assert(mv[i as int] == (v@[i as int].domain@, v@[i as int].port));
                lemma_map_of_contains(mv, domain@);
            }
            return true;
        }
        i += 1;
    }
    proof {
        let mv = mappings_view(v@);
        assert forall|j: int| 0 <= j < mv.len() implies (#[trigger] mv[j]).0 != domain@ by {
            assert(mv[j] == (v@[j].domain@, v@[j].port));
        }
        lemma_map_of_contains(mv, domain@);
    }
    false
}

/// Insert a mapping, dropping any previous entry for the domain.
fn upsert_mapping(v: &mut Vec<Mapping>, domain: &str, port: u16)
    ensures
        mappings_view(final(v)@) == upsert(mappings_view(old(v)@), domain@, port),
{
    let mut kept = mappings_without(v, domain);
    let ghost kv = mappings_view(kept@);
    kept.push(Mapping { domain: String::from_str(domain), port });
    proof {
        assert(mappings_view(kept@) =~= kv.push((domain@, port)));
    }
    *v = kept;
}

/// The two halves of a merge: the flattened project entries and the
/// surviving global entries.
#[verifier::loop_isolation(false)]
fn merge_parts(project: &ServeConfig, global: &ServeConfig) -> (r: (Vec<Mapping>, Vec<Mapping>))
    ensures
        mappings_view(r.0@) == dedup_entries(mappings_view(project.mappings@)),
        mappings_view(r.1@) == global_additions(
            mappings_view(project.mappings@),
            mappings_view(global.mappings@),
        ),
{
    let ghost pv = mappings_view(project.mappings@);
    let ghost gv = mappings_view(global.mappings@);
    let mut part1: Vec<Mapping> = Vec::new();
    proof {
        assert(pv.take(0) =~= Seq::<(Seq<char>, u16)>::empty());
        assert(mappings_view(part1@) =~= dedup_entries(pv.take(0)));
    }
    let n = project.mappings.len();
    let mut i: usize = 0;
    while i < n
        invariant
            i <= n,
            mappings_view(part1@) == dedup_entries(pv.take(i as int)),
        decreases n - i,
    {
        let m = &project.mappings[i];
        proof {
            let next = pv.take(i + 1 as int);
            assert(next.drop_last() =~= pv.take(i as int));
            assert(next.last() == (m.domain@, m.port));
        }
        if m.domain.as_str().unicode_len() > 0 {
            upsert_mapping(&mut part1, m.domain.as_str(), m.port);
        }
        i += 1;
    }
    proof {
        assert(pv.take(n as int) =~= pv);
    }
    let mut part2: Vec<Mapping> = Vec::new();
    proof {
        assert(gv.take(0) =~= Seq::<(Seq<char>, u16)>::empty());
        assert(mappings_view(part2@) =~= global_additions(pv, gv.take(0)));
    }
    let gn = global.mappings.len();
    let mut k: usize = 0;
    while k < gn
        invariant
            k <= gn,
            mappings_view(part2@) == global_additions(pv, gv.take(k as int)),
        decreases gn - k,
    {
        let m = &global.mappings[k];
        proof {
            let next = gv.take(k + 1 as int);
            assert(next.drop_last() =~= gv.take(k as int));
            assert(next.last() == (m.domain@, m.port));
        }
        if m.domain.as_str().unicode_len() > 0 && !mappings_contain(
            &project.mappings,
            m.domain.as_str(),
        ) {
            upsert_mapping(&mut part2, m.domain.as_str(), m.port);
        }
        k += 1;
    }
    proof {
        assert(gv.take(gn as int) =~= gv);
    }
    (part1, part2)
}

impl MergedConfig {
    /// The table as a map from domain to port.
    pub open spec fn view_map(self) -> Map<Seq<char>, u16> {
        map_of(mappings_view(self.entries@))
    }

    /// The backend port for a domain, if mapped.
    #[verifier::loop_isolation(false)]
    pub fn get(&self, domain: &str) -> (r: Option<u16>)
        ensures
            r is Some <==> self.view_map().contains_key(domain@),
            r is Some ==> r->0 == self.view_map()[domain@],
    {
        let es = &self.entries;
        let n = es.len();
        let mut i: usize = 0;
        while i < n
            invariant
                i <= n,
                forall|j: int| 0 <= j < i ==> (#[trigger] es@[j]).domain@ != domain@,
            decreases n - i,
        {
            if str_eq(es[i].domain.as_str(), domain) {
                proof {
                    let mv = mappings_view(es@);
                    assert(mv[i as int] == (es@[i as int].domain@, es@[i as int].port));
                    assert forall|j: int| 0 <= j < i implies (#[trigger] mv[j]).0 != mv[
                        i as int
                    ].0 by {
                        assert(mv[j] == (es@[j].domain@, es@[j].port));
                    }
                    lemma_map_of_first(mv, i as int);
                }
                return Some(es[i].port);
            }
            i += 1;
        }
        proof {
            let mv = mappings_view(es@);
            assert forall|j: int| 0 <= j < mv.len() implies (#[trigger] mv[j]).0 != domain@ by {
                assert(mv[j] == (es@[j].domain@, es@[j].port));
            }
            lemma_map_of_contains(mv, domain@);
        }
        None
    }

    /// How many domains the table maps.
    pub fn len(&self) -> (r: usize)
        ensures
            r == self.entries@.len(),
    {
        self.entries.len()
    }

    /// Whether the table maps no domain at all.
    pub fn is_empty(&self) -> (r: bool)
        ensures
            r == (self.entries@.len() == 0),
    {
        self.entries.len() == 0
    }
}

/// Merge project and global configs; the project wins on conflict,
/// empty-domain mappings are dropped, and each domain appears once.
#[verifier::loop_isolation(false)]
pub fn merge_configs(project: &ServeConfig, global: &ServeConfig) -> (r: MergedConfig)
    ensures
        mappings_view(r.entries@) == merged_entries(
            mappings_view(project.mappings@),
            mappings_view(global.mappings@),
        ),
        r.view_map() == merged_map(
            mappings_view(project.mappings@),
            mappings_view(global.mappings@),
        ),
        unique_keys(mappings_view(r.entries@)),
        forall|k: int| 0 <= k < r.entries@.len() ==> (#[trigger] r.entries@[k]).domain@.len() > 0,
{
    let ghost pv = mappings_view(project.mappings@);
    let ghost gv = mappings_view(global.mappings@);
    let (part1, part2) = merge_parts(project, global);
    let mut entries = part1;
    let ghost base = mappings_view(entries@);
    let ghost p2v = mappings_view(part2@);
    proof {
        assert(p2v.take(0) =~= Seq::<(Seq<char>, u16)>::empty());
        assert(mappings_view(entries@) =~= base + p2v.take(0));
    }
    let m2 = part2.len();
    let mut k: usize = 0;
    while k < m2
        invariant
            k <= m2,
            mappings_view(entries@) == base + p2v.take(k as int),
        decreases m2 - k,
    {
        let ghost prev = mappings_view(entries@);
        let m = &part2[k];
        entries.push(Mapping { domain: m.domain.clone(), port: m.port });
        proof {
            assert(mappings_view(entries@) =~= prev.push((m.domain@, m.port)));
            assert(p2v.take(k + 1 as int) =~= p2v.take(k as int).push(p2v[k as int]));
            assert(p2v[k as int] == (m.domain@, m.port));
        }
        k += 1;
    }
    proof {
        assert(p2v.take(m2 as int) =~= p2v);
        lemma_dedup_entries_props(pv);
        lemma_global_additions_props(pv, gv);
        let me = merged_entries(pv, gv);
        let dl = dedup_entries(pv).len() as int;
        assert forall|i: int, j: int|
            0 <= i < j < me.len() implies (#[trigger] me[i]).0 != (#[trigger] me[j]).0 by {
            if j < dl {
                assert(me[i] == dedup_entries(pv)[i] && me[j] == dedup_entries(pv)[j]);
            } else if i >= dl {
                assert(me[i] == global_additions(pv, gv)[i - dl] && me[j] == global_additions(
                    pv,
                    gv,
                )[j - dl]);
            } else {
                assert(me[i] == dedup_entries(pv)[i]);
                assert(me[j] == global_additions(pv, gv)[j - dl]);
                assert(map_of(pv).contains_key(me[i].0));
                assert(!map_of(pv).contains_key(me[j].0));
            }
        }
        assert forall|k2: int|
            0 <= k2 < entries@.len() implies (#[trigger] entries@[k2]).domain@.len() > 0 by {
            assert(mappings_view(entries@)[k2] == (entries@[k2].domain@, entries@[k2].port));
            if k2 < dl {
                assert(me[k2] == dedup_entries(pv)[k2]);
            } else {
                assert(me[k2] == global_additions(pv, gv)[k2 - dl]);
            }
        }
    }
    MergedConfig { entries }
}

/// Merged mapping with source for list output.
#[derive(Debug, Clone)]
pub struct MergedMapping {
    pub domain: String,
    pub port: u16,
    pub source: MappingSource,
}

/// View of merged mappings as (domain, (port, source)).
pub open spec fn merged_with_source_view(ms: Seq<MergedMapping>) -> Seq<
    (Seq<char>, (u16, MappingSource)),
> {
    ms.map_values(|m: MergedMapping| (m.domain@, (m.port, m.source)))
}

/// The tagged merged entries before sorting: flattened project entries
/// tagged `Project`, surviving global entries tagged `Global`.
pub open spec fn merged_tagged(
    pv: Seq<(Seq<char>, u16)>,
    gv: Seq<(Seq<char>, u16)>,
) -> Seq<(Seq<char>, (u16, MappingSource))> {
    dedup_entries(pv).map_values(|e: (Seq<char>, u16)| (e.0, (e.1, MappingSource::Project)))
        + global_additions(pv, gv).map_values(
        |e: (Seq<char>, u16)| (e.0, (e.1, MappingSource::Global)),
    )
}

/// Merge with the winning source tagged, sorted by domain.
#[verifier::loop_isolation(false)]
pub fn merge_configs_with_source(project: &ServeConfig, global: &ServeConfig) -> (r: Vec<
    MergedMapping,
>)
    ensures
        merged_with_source_view(r@).to_multiset() == merged_tagged(
            mappings_view(project.mappings@),
            mappings_view(global.mappings@),
        ).to_multiset(),
        forall|i: int, j: int|
            0 <= i < j < r@.len() ==> !crate::text::seq_lt(
                (#[trigger] r@[j]).domain@,
                (#[trigger] r@[i]).domain@,
            ),
{
    let ghost pv = mappings_view(project.mappings@);
    let ghost gv = mappings_view(global.mappings@);
    let (part1, part2) = merge_parts(project, global);
    let ghost p1v = mappings_view(part1@);
    let ghost p2v = mappings_view(part2@);
    let mut tagged: Vec<(String, (u16, MappingSource))> = Vec::new();
    let n1 = part1.len();
    let mut i: usize = 0;
    while i < n1
        invariant
            i <= n1,
            tagged@.len() == i,
            forall|j: int|
                0 <= j < i ==> ((#[trigger] tagged@[j]).0@, tagged@[j].1) == merged_tagged(
                    pv,
                    gv,
                )[j],
        decreases n1 - i,
    {
        let m = &part1[i];
        proof {
            assert(p1v[i as int] == (m.domain@, m.port));
            assert(merged_tagged(pv, gv)[i as int] == (p1v[i as int].0, (
                p1v[i as int].1,
                MappingSource::Project,
            )));
        }
        tagged.push((m.domain.clone(), (m.port, MappingSource::Project)));
        i += 1;
    }
    let n2 = part2.len();
    let mut k: usize = 0;
    while k < n2
        invariant
            k <= n2,
            tagged@.len() == n1 + k,
            forall|j: int|
                0 <= j < n1 + k ==> ((#[trigger] tagged@[j]).0@, tagged@[j].1) == merged_tagged(
                    pv,
                    gv,
                )[j],
        decreases n2 - k,
    {
        let m = &part2[k];
        proof {
            assert(p2v[k as int] == (m.domain@, m.port));
            assert(merged_tagged(pv, gv)[n1 + k] == (p2v[k as int].0, (
                p2v[k as int].1,
                MappingSource::Global,
            )));
        }
        tagged.push((m.domain.clone(), (m.port, MappingSource::Global)));
        k += 1;
    }
    let ghost tagged_view = tagged@;
    let sorted = crate::text::sort_by_key(tagged);
    let sn = sorted.len();
    let mut out: Vec<MergedMapping> = Vec::new();
    let mut j: usize = 0;
    while j < sn
        invariant
            j <= sn,
            out@.len() == j,
            forall|t: int|
                0 <= t < j ==> ((#[trigger] out@[t]).domain@, (out@[t].port, out@[t].source))
                    == (sorted@[t].0@, sorted@[t].1),
        decreases sn - j,
    {
        let e = &sorted[j];
        out.push(MergedMapping { domain: e.0.clone(), port: e.1.0, source: e.1.1 });
        j += 1;
    }
    proof {
        let f = |p: (String, (u16, MappingSource))| (p.0@, p.1);
        assert(merged_with_source_view(out@) =~= sorted@.map_values(f));
        assert(merged_tagged(pv, gv) =~= tagged_view.map_values(f));
        crate::text::lemma_multiset_map_values(sorted@, tagged_view, f);
        assert forall|a: int, b: int|
            0 <= a < b < out@.len() implies !crate::text::seq_lt(
            (#[trigger] out@[b]).domain@,
            (#[trigger] out@[a]).domain@,
        ) by {
            assert(out@[a].domain@ == sorted@[a].0@ && out@[b].domain@ == sorted@[b].0@);
        }
    }
    out
}

// ---------------------------------------------------------------------------
// Laws about adding and removing mappings
// ---------------------------------------------------------------------------

/// Law: adding a mapping for a fresh domain and then removing it
/// leaves the mappings exactly as they were; ports are untouched by
/// both operations.
pub proof fn lemma_add_then_remove(ms: Seq<(Seq<char>, u16)>, d: Seq<char>, port: u16)
    requires
        !map_of(ms).contains_key(d),
    ensures
        upsert(ms, d, port).filter(key_ne(d)) == ms,
{
    reveal(Seq::filter);
    lemma_map_of_contains(ms, d);
    assert(forall|j: int| 0 <= j < ms.len() ==> (#[trigger] ms[j]).0 != d);
    crate::config::lemma_filter_id_keys(ms, d);
    let added = upsert(ms, d, port);
    assert(added =~= ms.push((d, port)));
    assert(added.drop_last() =~= ms);
    assert(!key_ne::<u16>(d)((d, port)));
    assert(added.filter(key_ne(d)) == ms.filter(key_ne(d)));
}

/// Law: after adding a fresh mapping and removing it again, the saved
/// file is the one saved before.
pub proof fn lemma_add_then_remove_file(
    ms: Seq<(Seq<char>, u16)>,
    ps: Seq<u16>,
    d: Seq<char>,
    port: u16,
)
    requires
        !map_of(ms).contains_key(d),
    ensures
        serve_text(upsert(ms, d, port).filter(key_ne(d)), ps) == serve_text(ms, ps),
{
    lemma_add_then_remove(ms, d, port);
}

} // verus!
