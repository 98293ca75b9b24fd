//! Main configuration: store paths, the `default_ca`/domains record and
//! its on-disk text format.

use vstd::prelude::*;

use crate::text::str_eq;

verus! {

// ---------------------------------------------------------------------------
// Store paths
// ---------------------------------------------------------------------------

/// Paths of the data store, derived from one base directory.
#[derive(Debug, Clone)]
pub struct RoostPaths {
    pub config_dir: String,
    pub config_file: String,
    pub ca_dir: String,
    pub certs_dir: String,
    pub roostrc_global: String,
}

impl RoostPaths {
    /// Whether every path is the base directory plus its fixed suffix.
    pub open spec fn wf(self) -> bool {
        &&& self.config_file@ == self.config_dir@ + "/config.toml"@
        &&& self.ca_dir@ == self.config_dir@ + "/ca"@
        &&& self.certs_dir@ == self.config_dir@ + "/certs"@
        &&& self.roostrc_global@ == self.config_dir@ + "/.roostrc"@
    }

    /// Build paths from a base directory.
    pub fn from_base(base: String) -> (r: RoostPaths)
        ensures
            r.wf(),
            r.config_dir@ == base@,
    {
        let config_file = base.clone().concat("/config.toml");
        let ca_dir = base.clone().concat("/ca");
        let certs_dir = base.clone().concat("/certs");
        let roostrc_global = base.clone().concat("/.roostrc");
        RoostPaths { config_dir: base, config_file, ca_dir, certs_dir, roostrc_global }
    }

    /// Paths rooted at a test directory.
    pub fn for_test(base: &str) -> (r: RoostPaths)
        ensures
            r.wf(),
            r.config_dir@ == base@,
    {
        RoostPaths::from_base(String::from_str(base))
    }

    /// Path of the daemon state file.
    pub fn daemon_json_path(&self) -> (r: String)
        ensures
            r@ == self.config_dir@ + "/daemon.json"@,
    {
        self.config_dir.clone().concat("/daemon.json")
    }
}

// ---------------------------------------------------------------------------
// The main configuration record
// ---------------------------------------------------------------------------

/// One registered domain and the CA that signs its leaf.
#[derive(Debug)]
pub struct DomainEntry {
    pub domain: String,
    pub ca: String,
}

/// View of a list of entries as (domain, ca) character sequences.
pub open spec fn entries_view(es: Seq<DomainEntry>) -> Seq<(Seq<char>, Seq<char>)> {
    es.map_values(|e: DomainEntry| (e.domain@, e.ca@))
}

/// Entries as a map; the earliest entry for a key wins.
pub open spec fn map_of<V>(es: Seq<(Seq<char>, V)>) -> Map<Seq<char>, V>
    decreases es.len(),
{
    if es.len() == 0 {
        Map::empty()
    } else {
        map_of(es.drop_first()).insert(es[0].0, es[0].1)
    }
}

/// The predicate keeping every entry whose key differs from `d`.
pub open spec fn key_ne<V>(d: Seq<char>) -> spec_fn((Seq<char>, V)) -> bool {
    |p: (Seq<char>, V)| p.0 != d
}

/// Replace any entry for `d` by one final `(d, c)` entry.
pub open spec fn upsert<V>(es: Seq<(Seq<char>, V)>, d: Seq<char>, c: V) -> Seq<(Seq<char>, V)> {
    es.filter(key_ne(d)).push((d, c))
}

pub proof fn lemma_map_of_contains<V>(es: Seq<(Seq<char>, V)>, d: Seq<char>)
    ensures
        map_of(es).contains_key(d) <==> exists|j: int| 0 <= j < es.len() && (#[trigger] es[j]).0
            == d,
    decreases es.len(),
{
    if es.len() > 0 {
        lemma_map_of_contains(es.drop_first(), d);
        if es[0].0 == d {
        } else if map_of(es).contains_key(d) {
            let j = choose|j: int|
                0 <= j < es.drop_first().len() && (#[trigger] es.drop_first()[j]).0 == d;
            assert(es[j + 1].0 == d);
        } else {
            assert(forall|j: int|
                1 <= j < es.len() ==> (#[trigger] es[j]).0 == es.drop_first()[j - 1].0);
        }
    }
}

/// The first entry for a key gives the map's value.
pub proof fn lemma_map_of_first<V>(es: Seq<(Seq<char>, V)>, i: int)
    requires
        0 <= i < es.len(),
        forall|j: int| 0 <= j < i ==> (#[trigger] es[j]).0 != es[i].0,
    ensures
        map_of(es).contains_key(es[i].0),
        map_of(es)[es[i].0] == es[i].1,
    decreases es.len(),
{
    if i == 0 {
    } else {
        assert(forall|j: int|
            0 <= j < i - 1 ==> (#[trigger] es.drop_first()[j]).0 == es[j + 1].0);
        lemma_map_of_first(es.drop_first(), i - 1);
        assert(es.drop_first()[i - 1] == es[i]);
        assert(es[0].0 != es[i].0);
    }
}

/// Filtering a key out removes it from the map and touches nothing else.
pub proof fn lemma_map_of_filter_remove<V>(es: Seq<(Seq<char>, V)>, d: Seq<char>)
    ensures
        map_of(es.filter(key_ne(d))) == map_of(es).remove(d),
    decreases es.len(),
{
    let pred = key_ne::<V>(d);
    reveal(Seq::filter);
    if es.len() == 0 {
        assert(Seq::<(Seq<char>, V)>::empty().filter(pred) =~= Seq::<(Seq<char>, V)>::empty());
        assert(map_of(es.filter(pred)) =~= map_of(es).remove(d));
    } else {
        lemma_map_of_filter_remove(es.drop_first(), d);
        assert(es =~= seq![es[0]] + es.drop_first());
        Seq::filter_distributes_over_add(seq![es[0]], es.drop_first(), pred);
        assert(seq![es[0]].drop_last() =~= Seq::<(Seq<char>, V)>::empty());
        assert(Seq::<(Seq<char>, V)>::empty().filter(pred) =~= Seq::<(Seq<char>, V)>::empty());
        if pred(es[0]) {
            assert(seq![es[0]].filter(pred) =~= seq![es[0]]);
            assert(es.filter(pred) =~= seq![es[0]] + es.drop_first().filter(pred));
            assert(es.filter(pred).drop_first() =~= es.drop_first().filter(pred));
            assert(map_of(es.filter(pred)) == map_of(es.drop_first().filter(pred)).insert(
                es[0].0,
                es[0].1,
            ));
            assert(map_of(es.filter(pred)) =~= map_of(es).remove(d));
        } else {
            assert(seq![es[0]].filter(pred) =~= Seq::<(Seq<char>, V)>::empty());
            assert(es.filter(pred) =~= es.drop_first().filter(pred));
            assert(es[0].0 == d);
            assert(map_of(es.filter(pred)) =~= map_of(es).remove(d));
        }
    }
}

/// A final entry for a fresh key shows up as an insertion.
pub proof fn lemma_map_of_push_fresh<V>(es: Seq<(Seq<char>, V)>, d: Seq<char>, c: V)
    requires
        forall|j: int| 0 <= j < es.len() ==> (#[trigger] es[j]).0 != d,
    ensures
        map_of(es.push((d, c))) == map_of(es).insert(d, c),
    decreases es.len(),
{
    if es.len() == 0 {
        assert(es.push((d, c)).drop_first() =~= Seq::<(Seq<char>, V)>::empty());
        assert(es.push((d, c))[0] == (d, c));
        assert(map_of(es.push((d, c))) == map_of(Seq::<(Seq<char>, V)>::empty()).insert(d, c));
        assert(map_of(es.push((d, c))) =~= map_of(es).insert(d, c));
    } else {
        assert(forall|j: int|
            0 <= j < es.drop_first().len() ==> (#[trigger] es.drop_first()[j]).0 == es[j + 1].0);
        lemma_map_of_push_fresh(es.drop_first(), d, c);
        assert(es.push((d, c)).drop_first() =~= es.drop_first().push((d, c)));
        assert(es.push((d, c))[0] == es[0]);
        assert(es[0].0 != d);
        let m1 = map_of(es.drop_first());
        assert(map_of(es.push((d, c))) == m1.insert(d, c).insert(es[0].0, es[0].1));
        assert(map_of(es) == m1.insert(es[0].0, es[0].1));
        assert(m1.insert(d, c).insert(es[0].0, es[0].1) =~= m1.insert(es[0].0, es[0].1).insert(
            d,
            c,
        ));
    }
}

/// Upserting a key inserts it into the map.
pub proof fn lemma_map_of_upsert<V>(es: Seq<(Seq<char>, V)>, d: Seq<char>, c: V)
    ensures
        map_of(upsert(es, d, c)) == map_of(es).insert(d, c),
{
    let pred = key_ne::<V>(d);
    lemma_map_of_filter_remove(es, d);
    es.filter_lemma(pred);
    lemma_map_of_push_fresh(es.filter(pred), d, c);
    assert(map_of(upsert(es, d, c)) =~= map_of(es).insert(d, c));
}

/// The main configuration: the default CA name and the registry of
/// domains with the CA that signs each.
#[derive(Debug)]
pub struct Config {
    pub default_ca: String,
    pub domains: Vec<DomainEntry>,
}

/// Pairwise-distinct domain keys.
pub open spec fn unique_keys<V>(es: Seq<(Seq<char>, V)>) -> bool {
    forall|i: int, j: int| 0 <= i < j < es.len() ==> (#[trigger] es[i]).0 != (#[trigger] es[j]).0
}

pub proof fn lemma_filter_keeps_unique<V>(
    es: Seq<(Seq<char>, V)>,
    pred: spec_fn((Seq<char>, V)) -> bool,
)
    requires
        unique_keys(es),
    ensures
        unique_keys(es.filter(pred)),
    decreases es.len(),
{
    reveal(Seq::filter);
    if es.len() > 0 {
        assert(unique_keys(es.drop_last()));
        lemma_filter_keeps_unique(es.drop_last(), pred);
        let sub = es.drop_last().filter(pred);
        if pred(es.last()) {
            assert forall|i: int| 0 <= i < sub.len() implies (#[trigger] sub[i]).0 != es.last().0
                by {
                assert(sub.contains(sub[i]));
                es.drop_last().lemma_filter_contains_rev(pred, sub[i]);
                let j = choose|j: int| 0 <= j < es.drop_last().len() && es.drop_last()[j] == sub[i];
                assert(es[j] == sub[i]);
                assert(es[j].0 != es[es.len() - 1].0);
            }
            assert(es.filter(pred) == sub.push(es.last()));
            assert forall|i: int, j: int|
                0 <= i < j < es.filter(pred).len() implies (#[trigger] es.filter(pred)[i]).0 != (
                #[trigger] es.filter(pred)[j]).0 by {
                if j < sub.len() {
                    assert(es.filter(pred)[i] == sub[i] && es.filter(pred)[j] == sub[j]);
                } else {
                    assert(es.filter(pred)[i] == sub[i] && es.filter(pred)[j] == es.last());
                }
            }
        }
    }
}

/// Upserting keeps the keys pairwise distinct.
pub proof fn lemma_upsert_unique<V>(es: Seq<(Seq<char>, V)>, d: Seq<char>, c: V)
    requires
        unique_keys(es),
    ensures
        unique_keys(upsert(es, d, c)),
{
    let pred = key_ne::<V>(d);
    lemma_filter_keeps_unique(es, pred);
    let f = es.filter(pred);
    let r = upsert(es, d, c);
    assert forall|i: int, j: int|
        0 <= i < j < r.len() implies (#[trigger] r[i]).0 != (#[trigger] r[j]).0 by {
        if j < f.len() {
            assert(r[i] == f[i] && r[j] == f[j]);
        } else {
            es.lemma_filter_pred(pred, i);
            assert(r[i] == f[i] && r[j] == (d, c));
        }
    }
}

/// The entries left after dropping every entry for `domain`.
#[verifier::loop_isolation(false)]
fn retained_without(v: &Vec<DomainEntry>, domain: &str) -> (r: Vec<DomainEntry>)
    ensures
        entries_view(r@) == entries_view(v@).filter(key_ne(domain@)),
{
    let ghost pred = key_ne(domain@);
    let mut kept: Vec<DomainEntry> = Vec::new();
    let n = v.len();
    let mut i: usize = 0;
    proof {
        reveal(Seq::filter);
        assert(entries_view(v@).take(0) =~= Seq::<(Seq<char>, Seq<char>)>::empty());
        assert(entries_view(kept@) =~= entries_view(v@).take(0).filter(pred));
    }
    while i < n
        invariant
            i <= n,
            entries_view(kept@) == entries_view(v@).take(i as int).filter(pred),
        decreases n - i,
    {
        let ghost prefix = entries_view(v@).take(i as int);
        let ghost prev_kept = entries_view(kept@);
        let e = &v[i];
        proof {
            reveal(Seq::filter);
            let next = entries_view(v@).take(i + 1 as int);
            assert(next.drop_last() =~= prefix);
            assert(next.last() == (e.domain@, e.ca@));
        }
        if !str_eq(e.domain.as_str(), domain) {
            kept.push(DomainEntry { domain: e.domain.clone(), ca: e.ca.clone() });
            proof {
                assert(entries_view(kept@) =~= prev_kept.push((e.domain@, e.ca@)));
            }
        }
        i += 1;
    }
    proof {
        assert(entries_view(v@).take(n as int) =~= entries_view(v@));
    }
    kept
}

impl Config {
    /// The registry as a map from domain to CA name.
    pub open spec fn domains_map(self) -> Map<Seq<char>, Seq<char>> {
        map_of(entries_view(self.domains@))
    }

    /// No domain is listed twice.
    pub open spec fn wf(self) -> bool {
        unique_keys(entries_view(self.domains@))
    }

    /// The empty configuration.
    pub fn new() -> (r: Config)
        ensures
            r.default_ca@ == Seq::<char>::empty(),
            r.domains@.len() == 0,
            r.wf(),
            r.domains_map() == Map::<Seq<char>, Seq<char>>::empty(),
    {
        let r = Config { default_ca: String::new(), domains: Vec::new() };
        proof {
            assert(entries_view(r.domains@) =~= Seq::<(Seq<char>, Seq<char>)>::empty());
        }
        r
    }

    /// The CA recorded for a domain, if registered.
    #[verifier::loop_isolation(false)]
    pub fn domain_ca(&self, domain: &str) -> (r: Option<String>)
        ensures
            r is Some <==> self.domains_map().contains_key(domain@),
            r is Some ==> r->0@ == self.domains_map()[domain@],
    {
        let es = &self.domains;
        let n = es.len();
        let mut i: usize = 0;
        while i < n
            invariant
                i <= n,
                forall|j: int| 0 <= j < i ==> (#[trigger] es@[j]).domain@ != domain@,
            decreases n - i,
        {
            if str_eq(es[i].domain.as_str(), domain) {
                proof {
                    let ev = entries_view(es@);
                    assert(ev[i as int] == (es@[i as int].domain@, es@[i as int].ca@));
                    assert forall|j: int| 0 <= j < i implies (#[trigger] ev[j]).0 != ev[
                        i as int
                    ].0 by {
                        assert(ev[j] == (es@[j].domain@, es@[j].ca@));
                    }
                    lemma_map_of_first(ev, i as int);
                }
                return Some(es[i].ca.clone());
            }
            i += 1;
        }
        proof {
            let ev = entries_view(es@);
            assert forall|j: int| 0 <= j < ev.len() implies (#[trigger] ev[j]).0 != domain@ by {
                assert(ev[j] == (es@[j].domain@, es@[j].ca@));
            }
            lemma_map_of_contains(ev, domain@);
        }
        None
    }

    /// Whether a domain is registered.
    pub fn contains_domain(&self, domain: &str) -> (r: bool)
        ensures
            r == self.domains_map().contains_key(domain@),
    {
        self.domain_ca(domain).is_some()
    }

    /// Register a domain with its CA, replacing any previous entry.
    pub fn insert_domain(&mut self, domain: String, ca: String)
        ensures
            final(self).default_ca@ == old(self).default_ca@,
            entries_view(final(self).domains@) == upsert(
                entries_view(old(self).domains@),
                domain@,
                ca@,
            ),
            final(self).domains_map() == old(self).domains_map().insert(domain@, ca@),
            old(self).wf() ==> final(self).wf(),
    {
        proof {
            lemma_map_of_upsert(entries_view(old(self).domains@), domain@, ca@);
            if old(self).wf() {
                lemma_upsert_unique(entries_view(old(self).domains@), domain@, ca@);
            }
        }
        let mut kept = retained_without(&self.domains, domain.as_str());
        let ghost d_view = domain@;
        let ghost c_view = ca@;
        let ghost kept_view = entries_view(kept@);
        kept.push(DomainEntry { domain, ca });
        proof {
            assert(entries_view(kept@) =~= kept_view.push((d_view, c_view)));
        }
        self.domains = kept;
    }

    /// Drop a domain from the registry.
    pub fn remove_domain_entry(&mut self, domain: &str)
        ensures
            final(self).default_ca@ == old(self).default_ca@,
            entries_view(final(self).domains@) == entries_view(old(self).domains@).filter(
                key_ne(domain@),
            ),
            final(self).domains_map() == old(self).domains_map().remove(domain@),
            old(self).wf() ==> final(self).wf(),
    {
        proof {
            lemma_map_of_filter_remove(entries_view(old(self).domains@), domain@);
            if old(self).wf() {
                lemma_filter_keeps_unique(entries_view(old(self).domains@), key_ne(domain@));
            }
        }
        let kept = retained_without(&self.domains, domain);
        self.domains = kept;
    }
}

// ---------------------------------------------------------------------------
// The config file text format
// ---------------------------------------------------------------------------

/// The text before the default CA name: `default_ca = "`.
pub open spec fn dca_prefix() -> Seq<char> {
    seq!['d', 'e', 'f', 'a', 'u', 'l', 't', '_', 'c', 'a', ' ', '=', ' ', '"']
}

/// The section header `[domains]`.
pub open spec fn domains_header() -> Seq<char> {
    seq!['[', 'd', 'o', 'm', 'a', 'i', 'n', 's', ']']
}

pub open spec fn dca_line(v: Seq<char>) -> Seq<char> {
    dca_prefix() + v + seq!['"']
}

pub open spec fn entry_line(d: Seq<char>, c: Seq<char>) -> Seq<char> {
    crate::text::quoted(d) + seq![' ', '=', ' '] + crate::text::quoted(c)
}

/// The lines of the rendered config file.
pub open spec fn config_lines(
    dca: Seq<char>,
    es: Seq<(Seq<char>, Seq<char>)>,
) -> Seq<Seq<char>> {
    seq![dca_line(dca), Seq::<char>::empty(), domains_header()] + es.map_values(
        |p: (Seq<char>, Seq<char>)| entry_line(p.0, p.1),
    )
}

/// The rendered config file.
pub open spec fn config_text(dca: Seq<char>, es: Seq<(Seq<char>, Seq<char>)>) -> Seq<char> {
    crate::text::lines_text(config_lines(dca, es))
}

pub open spec fn no_quote(s: Seq<char>) -> bool {
    forall|i: int| 0 <= i < s.len() ==> #[trigger] s[i] != '"'
}

/// Read a `default_ca = "..."` line.
pub open spec fn parse_dca_line(line: Seq<char>) -> Option<Seq<char>> {
    if line.len() >= 15 && line.take(14) == dca_prefix() && line.last() == '"' && no_quote(
        line.subrange(14, line.len() - 1),
    ) {
        Some(line.subrange(14, line.len() - 1))
    } else {
        None
    }
}

/// Read a `"domain" = "ca"` line.
pub open spec fn parse_entry_line(line: Seq<char>) -> Option<(Seq<char>, Seq<char>)> {
    if line.len() >= 1 && line[0] == '"' {
        let rest = line.skip(1);
        let i = crate::text::find_idx(rest, '"');
        if i < rest.len() {
            let d = rest.take(i);
            let after = rest.skip(i + 1);
            if after.len() >= 5 && after.take(4) == seq![' ', '=', ' ', '"'] && after.last() == '"'
                && no_quote(after.subrange(4, after.len() - 1)) {
                Some((d, after.subrange(4, after.len() - 1)))
            } else {
                None
            }
        } else {
            None
        }
    } else {
        None
    }
}

/// Parser state: the default CA seen so far, whether `[domains]` has
/// been passed, and the entries read.
pub type CfgState = (Option<Seq<char>>, bool, Seq<(Seq<char>, Seq<char>)>);

/// One line of the config file changes the parser state.
pub open spec fn config_step(st: Option<CfgState>, line: Seq<char>) -> Option<CfgState> {
    match st {
        None => None,
        Some((dca, ind, es)) => {
            if line.len() == 0 {
                st
            } else if line == domains_header() {
                Some((dca, true, es))
            } else if !ind && dca is None && parse_dca_line(line) is Some {
                Some((Some(parse_dca_line(line)->0), ind, es))
            } else if ind && parse_entry_line(line) is Some {
                let (d, c) = parse_entry_line(line)->0;
                Some((dca, ind, upsert(es, d, c)))
            } else {
                None
            }
        },
    }
}

/// Run the parser over a sequence of lines.
pub open spec fn run_config_lines(st: Option<CfgState>, lines: Seq<Seq<char>>) -> Option<CfgState>
    decreases lines.len(),
{
    if lines.len() == 0 {
        st
    } else {
        run_config_lines(config_step(st, lines[0]), lines.drop_first())
    }
}

/// Parse a whole config file; each line is trimmed of surrounding
/// whitespace first, so indentation is tolerated.
pub open spec fn parse_config_text(s: Seq<char>) -> Option<(Seq<char>, Seq<(Seq<char>, Seq<char>)>)> {
    match run_config_lines(
        Some((None, false, Seq::empty())),
        crate::text::trimmed_lines(s),
    ) {
        Some((dca, ind, es)) => Some(
            (
                match dca {
                    Some(v) => v,
                    None => Seq::empty(),
                },
                es,
            ),
        ),
        None => None,
    }
}

pub proof fn lemma_run_config_push(st: Option<CfgState>, lines: Seq<Seq<char>>, x: Seq<char>)
    ensures
        run_config_lines(st, lines.push(x)) == config_step(run_config_lines(st, lines), x),
    decreases lines.len(),
{
    if lines.len() == 0 {
        assert(lines.push(x).drop_first() =~= Seq::<Seq<char>>::empty());
        assert(lines.push(x)[0] == x);
        assert(run_config_lines(config_step(st, x), Seq::<Seq<char>>::empty()) == config_step(
            st,
            x,
        ));
    } else {
        assert(lines.push(x)[0] == lines[0]);
        assert(lines.push(x).drop_first() =~= lines.drop_first().push(x));
        lemma_run_config_push(config_step(st, lines[0]), lines.drop_first(), x);
    }
}

pub proof fn lemma_run_config_append(st: Option<CfgState>, a: Seq<Seq<char>>, b: Seq<Seq<char>>)
    ensures
        run_config_lines(st, a + b) == run_config_lines(run_config_lines(st, a), b),
    decreases a.len(),
{
    if a.len() == 0 {
        assert(a + b =~= b);
    } else {
        assert((a + b)[0] == a[0]);
        assert((a + b).drop_first() =~= a.drop_first() + b);
        lemma_run_config_append(config_step(st, a[0]), a.drop_first(), b);
    }
}

/// A failed state stays failed.
pub proof fn lemma_run_config_none(lines: Seq<Seq<char>>)
    ensures
        run_config_lines(None, lines) is None,
    decreases lines.len(),
{
    if lines.len() > 0 {
        lemma_run_config_none(lines.drop_first());
    }
}

/// Rendering a default CA line reads back as itself.
pub proof fn lemma_parse_dca_inverse(v: Seq<char>)
    requires
        crate::text::text_safe(v),
    ensures
        parse_dca_line(dca_line(v)) == Some(v),
        dca_line(v).len() > 0,
        dca_line(v) != domains_header(),
{
    let line = dca_line(v);
    assert(line.len() == 15 + v.len());
    assert(line.take(14) =~= dca_prefix());
    assert(line.last() == '"');
    assert(line.subrange(14, line.len() - 1) =~= v);
    assert(line[0] == 'd');
    assert(domains_header()[0] == '[');
}

/// Rendering an entry line reads back as itself.
pub proof fn lemma_parse_entry_inverse(d: Seq<char>, c: Seq<char>)
    requires
        crate::text::text_safe(d),
        crate::text::text_safe(c),
    ensures
        parse_entry_line(entry_line(d, c)) == Some((d, c)),
        entry_line(d, c).len() > 0,
        entry_line(d, c) != domains_header(),
{
    let line = entry_line(d, c);
    assert(line[0] == '"');
    assert(domains_header()[0] == '[');
    let rest = line.skip(1);
    let mid = seq!['"', ' ', '=', ' ', '"'];
    assert(rest =~= d + seq!['"'] + (seq![' ', '=', ' ', '"'] + c + seq!['"']));
    crate::text::lemma_find_idx_concat(d, seq![' ', '=', ' ', '"'] + c + seq!['"'], '"');
    let i = crate::text::find_idx(rest, '"');
    assert(i == d.len());
    assert(rest.take(i) =~= d);
    let after = rest.skip(i + 1);
    assert(after =~= seq![' ', '=', ' ', '"'] + c + seq!['"']);
    assert(after.len() == 5 + c.len());
    assert(after.take(4) =~= seq![' ', '=', ' ', '"']);
    assert(after.last() == '"');
    assert(after.subrange(4, after.len() - 1) =~= c);
}

/// All lines of a rendered config are newline-free.
pub proof fn lemma_config_lines_safe(dca: Seq<char>, es: Seq<(Seq<char>, Seq<char>)>)
    requires
        crate::text::text_safe(dca),
        forall|k: int|
            0 <= k < es.len() ==> crate::text::text_safe((#[trigger] es[k]).0)
                && crate::text::text_safe(es[k].1),
    ensures
        forall|k: int, j: int|
            0 <= k < config_lines(dca, es).len() && 0 <= j < config_lines(dca, es)[k].len()
                ==> #[trigger] config_lines(dca, es)[k][j] != '\n',
{
    let lines = config_lines(dca, es);
    assert forall|k: int, j: int|
        0 <= k < lines.len() && 0 <= j < lines[k].len() implies #[trigger] lines[k][j]
        != '\n' by {
        if k >= 3 {
            assert(lines[k] == entry_line(es[k - 3].0, es[k - 3].1));
        }
    }
}

/// Filtering out an absent key changes nothing.
pub proof fn lemma_filter_id_keys<V>(acc: Seq<(Seq<char>, V)>, d: Seq<char>)
    requires
        forall|a: int| 0 <= a < acc.len() ==> (#[trigger] acc[a]).0 != d,
    ensures
        acc.filter(key_ne(d)) == acc,
    decreases acc.len(),
{
    reveal(Seq::filter);
    if acc.len() > 0 {
        assert(forall|a: int|
            0 <= a < acc.drop_last().len() ==> (#[trigger] acc.drop_last()[a]).0 == acc[a].0);
        lemma_filter_id_keys(acc.drop_last(), d);
        assert(key_ne(d)(acc.last()));
        assert(acc.filter(key_ne(d)) =~= acc.drop_last().push(acc.last()));
        assert(acc.drop_last().push(acc.last()) =~= acc);
    }
}

/// Entry lines append entries one by one.
pub proof fn lemma_run_entry_lines(
    dca: Option<Seq<char>>,
    acc: Seq<(Seq<char>, Seq<char>)>,
    es: Seq<(Seq<char>, Seq<char>)>,
)
    requires
        forall|k: int|
            0 <= k < es.len() ==> crate::text::text_safe((#[trigger] es[k]).0)
                && crate::text::text_safe(es[k].1),
        forall|k: int, a: int|
            0 <= k < es.len() && 0 <= a < acc.len() ==> (#[trigger] acc[a]).0 != (
            #[trigger] es[k]).0,
        unique_keys(es),
    ensures
        run_config_lines(
            Some((dca, true, acc)),
            es.map_values(|p: (Seq<char>, Seq<char>)| entry_line(p.0, p.1)),
        ) == Some((dca, true, acc + es)),
    decreases es.len(),
{
    let lines = es.map_values(|p: (Seq<char>, Seq<char>)| entry_line(p.0, p.1));
    if es.len() == 0 {
        assert(acc + es =~= acc);
    } else {
        let (d, c) = es[0];
        lemma_parse_entry_inverse(d, c);
        assert(lines[0] == entry_line(d, c));
        reveal(Seq::filter);
        lemma_filter_id_keys(acc, d);
        assert(config_step(Some((dca, true, acc)), lines[0]) == Some(
            (dca, true, acc.push((d, c))),
        ));
        assert(lines.drop_first() =~= es.drop_first().map_values(
            |p: (Seq<char>, Seq<char>)| entry_line(p.0, p.1),
        ));
        assert(forall|k: int|
            0 <= k < es.drop_first().len() ==> (#[trigger] es.drop_first()[k]) == es[k + 1]);
        assert(forall|k: int, a: int|
            0 <= k < es.drop_first().len() && 0 <= a < acc.push((d, c)).len() ==> (
            #[trigger] acc.push((d, c))[a]).0 != (#[trigger] es.drop_first()[k]).0);
        assert(unique_keys(es.drop_first()));
        lemma_run_entry_lines(dca, acc.push((d, c)), es.drop_first());
        assert(acc.push((d, c)) + es.drop_first() =~= acc + es);
    }
}

/// Reading back a rendered configuration yields the configuration.
pub proof fn lemma_config_roundtrip(dca: Seq<char>, es: Seq<(Seq<char>, Seq<char>)>)
    requires
        crate::text::text_safe(dca),
        forall|k: int|
            0 <= k < es.len() ==> crate::text::text_safe((#[trigger] es[k]).0)
                && crate::text::text_safe(es[k].1),
        unique_keys(es),
    ensures
        parse_config_text(config_text(dca, es)) == Some((dca, es)),
{
    let lines = config_lines(dca, es);
    let entry_lines = es.map_values(|p: (Seq<char>, Seq<char>)| entry_line(p.0, p.1));
    lemma_config_lines_safe(dca, es);
    crate::text::lemma_split_lines_text(lines);
    assert(crate::text::split_seq(config_text(dca, es), '\n') == lines.push(Seq::empty()));
    let pieces = lines.push(Seq::<char>::empty());
    assert forall|k: int|
        0 <= k < pieces.len() implies crate::text::trim_spec(#[trigger] pieces[k])
        == pieces[k] by {
        if k < lines.len() {
            if k == 0 {
                assert(pieces[k] == dca_line(dca));
                assert(dca_line(dca)[0] == 'd');
                assert(dca_line(dca).last() == '"');
            } else if k == 1 {
                assert(pieces[k] =~= Seq::<char>::empty());
            } else if k == 2 {
                assert(pieces[k] == domains_header());
            } else {
                assert(pieces[k] == entry_line(es[k - 3].0, es[k - 3].1));
                assert(entry_line(es[k - 3].0, es[k - 3].1)[0] == '"');
                assert(entry_line(es[k - 3].0, es[k - 3].1).last() == '"');
            }
        } else {
            assert(pieces[k] =~= Seq::<char>::empty());
        }
        crate::text::lemma_trim_id(pieces[k]);
    }
    assert(crate::text::trimmed_lines(config_text(dca, es)) =~= pieces);
    let init: Option<CfgState> = Some((None, false, Seq::empty()));
    let prefix = seq![dca_line(dca), Seq::<char>::empty(), domains_header()];
    assert(lines.push(Seq::empty()) =~= prefix + (entry_lines + seq![Seq::<char>::empty()]));
    lemma_run_config_append(init, prefix, entry_lines + seq![Seq::<char>::empty()]);
    lemma_parse_dca_inverse(dca);
    assert(prefix.drop_first() =~= seq![Seq::<char>::empty(), domains_header()]);
    assert(prefix.drop_first().drop_first() =~= seq![domains_header()]);
    assert(seq![domains_header()].drop_first() =~= Seq::<Seq<char>>::empty());
    let st1 = config_step(init, dca_line(dca));
    assert(st1 == Some((Some(dca), false, Seq::<(Seq<char>, Seq<char>)>::empty())));
    let st2 = config_step(st1, Seq::empty());
    let st3 = config_step(st2, domains_header());
    assert(st3 == Some((Some(dca), true, Seq::<(Seq<char>, Seq<char>)>::empty())));
    assert(prefix[0] == dca_line(dca));
    assert(run_config_lines(init, prefix) == run_config_lines(st1, prefix.drop_first()));
    assert(prefix.drop_first()[0] == Seq::<char>::empty());
    assert(run_config_lines(st1, prefix.drop_first()) == run_config_lines(
        st2,
        prefix.drop_first().drop_first(),
    ));
    assert(prefix.drop_first().drop_first()[0] == domains_header());
    assert(run_config_lines(st2, prefix.drop_first().drop_first()) == run_config_lines(
        st3,
        Seq::<Seq<char>>::empty(),
    ));
    assert(run_config_lines(init, prefix) == st3);
    lemma_run_config_append(st3, entry_lines, seq![Seq::<char>::empty()]);
    assert(forall|k: int, a: int|
        0 <= k < es.len() && 0 <= a < Seq::<(Seq<char>, Seq<char>)>::empty().len() ==> (
        #[trigger] Seq::<(Seq<char>, Seq<char>)>::empty()[a]).0 != (#[trigger] es[k]).0);
    lemma_run_entry_lines(Some(dca), Seq::empty(), es);
    let st4 = run_config_lines(st3, entry_lines);
    assert(st4 == Some((Some(dca), true, Seq::<(Seq<char>, Seq<char>)>::empty() + es)));
    assert(Seq::<(Seq<char>, Seq<char>)>::empty() + es =~= es);
    assert(seq![Seq::<char>::empty()].drop_first() =~= Seq::<Seq<char>>::empty());
    assert(seq![Seq::<char>::empty()][0] == Seq::<char>::empty());
    assert(config_step(st4, Seq::<char>::empty()) == st4);
    assert(run_config_lines(st4, seq![Seq::<char>::empty()]) == run_config_lines(
        st4,
        Seq::<Seq<char>>::empty(),
    ));
    assert(run_config_lines(st4, seq![Seq::<char>::empty()]) == st4);
}

/// Why a config file was rejected.
#[derive(Debug, Clone, PartialEq, Eq)]
pub enum ConfigParseError {
    Malformed,
}

impl ConfigParseError {
    /// One-line diagnostic for the failure.
    pub fn message(&self) -> (r: String) {
        String::from_str("malformed config file")
    }
}

/// Read one `default_ca = "..."` line.
fn parse_dca_exec(line: &str) -> (r: Option<String>)
    ensures
        r is Some <==> parse_dca_line(line@) is Some,
        r is Some ==> r->0@ == parse_dca_line(line@)->0,
{
    let n = line.unicode_len();
    if n < 15 {
        return None;
    }
    let pre = crate::text::substring(line, 0, 14);
    proof {
        reveal_strlit("default_ca = \"");
        assert("default_ca = \""@ =~= dca_prefix());
    }
    if !str_eq(pre.as_str(), "default_ca = \"") {
        return None;
    }
    if line.get_char(n - 1) != '"' {
        return None;
    }
    let v = crate::text::substring(line, 14, n - 1);
    match crate::text::find_char(v.as_str(), '"') {
        Some(_) => {
            proof {
                crate::text::lemma_find_idx(v@, '"');
                assert(!no_quote(line@.subrange(14, line@.len() - 1)));
            }
            None
        },
        None => {
            proof {
                crate::text::lemma_find_idx(v@, '"');
                assert(no_quote(line@.subrange(14, line@.len() - 1)));
            }
            Some(v)
        },
    }
}

/// Read one `"domain" = "ca"` line.
fn parse_entry_exec(line: &str) -> (r: Option<(String, String)>)
    ensures
        r is Some <==> parse_entry_line(line@) is Some,
        r is Some ==> ((r->0).0@, (r->0).1@) == parse_entry_line(line@)->0,
{
    let n = line.unicode_len();
    if n < 1 || line.get_char(0) != '"' {
        return None;
    }
    let rest = crate::text::substring(line, 1, n);
    proof {
        assert(rest@ =~= line@.skip(1));
        crate::text::lemma_find_idx(rest@, '"');
    }
    let i = match crate::text::find_char(rest.as_str(), '"') {
        Some(i) => i,
        None => {
            return None;
        },
    };
    let d = crate::text::substring(rest.as_str(), 0, i);
    let m = rest.as_str().unicode_len();
    let after = crate::text::substring(rest.as_str(), i + 1, m);
    proof {
        assert(d@ =~= rest@.take(i as int));
        assert(after@ =~= rest@.skip(i + 1 as int));
    }
    let alen = after.as_str().unicode_len();
    if alen < 5 {
        return None;
    }
    let mid = crate::text::substring(after.as_str(), 0, 4);
    proof {
        reveal_strlit("\" = \"");
        assert("\" = \""@ =~= seq!['"', ' ', '=', ' ', '"']);
        assert(mid@ =~= after@.take(4));
    }
    let ghost mid4 = seq![' ', '=', ' ', '"'];
    proof {
        assert("\" = \""@.skip(1) =~= mid4);
    }
    if !(after.as_str().get_char(0) == ' ' && after.as_str().get_char(1) == '='
        && after.as_str().get_char(2) == ' ' && after.as_str().get_char(3) == '"') {
        proof {
            assert(after@.take(4) != mid4);
        }
        return None;
    }
    proof {
        assert(after@.take(4) =~= mid4);
    }
    if after.as_str().get_char(alen - 1) != '"' {
        return None;
    }
    let c = crate::text::substring(after.as_str(), 4, alen - 1);
    proof {
        assert(c@ =~= after@.subrange(4, after@.len() - 1));
        crate::text::lemma_find_idx(c@, '"');
    }
    match crate::text::find_char(c.as_str(), '"') {
        Some(_) => {
            proof {
                assert(!no_quote(after@.subrange(4, after@.len() - 1)));
            }
            None
        },
        None => {
            proof {
                assert(no_quote(after@.subrange(4, after@.len() - 1)));
            }
            Some((d, c))
        },
    }
}

impl Config {
    /// Whether every name fits the file format: the emitter does not
    /// escape, so quotes and newlines are refused rather than written.
    #[verifier::loop_isolation(false)]
    pub fn toml_encodable(&self) -> (r: bool)
        ensures
            r == (crate::text::text_safe(self.default_ca@) && forall|k: int|
                0 <= k < self.domains@.len() ==> crate::text::text_safe(
                    (#[trigger] self.domains@[k]).domain@,
                ) && crate::text::text_safe(self.domains@[k].ca@)),
    {
        if !crate::text::is_text_safe(self.default_ca.as_str()) {
            return false;
        }
        let n = self.domains.len();
        let mut i: usize = 0;
        while i < n
            invariant
                i <= n,
                forall|k: int|
                    0 <= k < i ==> crate::text::text_safe((#[trigger] self.domains@[k]).domain@)
                        && crate::text::text_safe(self.domains@[k].ca@),
            decreases n - i,
        {
            let e = &self.domains[i];
            if !crate::text::is_text_safe(e.domain.as_str()) || !crate::text::is_text_safe(
                e.ca.as_str(),
            ) {
                return false;
            }
            i += 1;
        }
        true
    }

    /// Render the configuration as its file text.  Names must be free
    /// of quotes and newlines — see `toml_encodable`; the round-trip
    /// law covers exactly these.
    #[verifier::loop_isolation(false)]
    pub fn to_toml_string(&self) -> (r: String)
        requires
            crate::text::text_safe(self.default_ca@),
            forall|k: int|
                0 <= k < self.domains@.len() ==> crate::text::text_safe(
                    (#[trigger] self.domains@[k]).domain@,
                ) && crate::text::text_safe(self.domains@[k].ca@),
        ensures
            r@ == config_text(self.default_ca@, entries_view(self.domains@)),
    {
        let ghost dca = self.default_ca@;
        let ghost es = entries_view(self.domains@);
        let ghost prefix = seq![dca_line(dca), Seq::<char>::empty(), domains_header()];
        let mut out = String::new();
        crate::text::append_str(&mut out, "default_ca = \"");
        crate::text::append_str(&mut out, self.default_ca.as_str());
        crate::text::append_str(&mut out, "\"\n\n[domains]\n");
        proof {
            reveal_strlit("default_ca = \"");
            reveal_strlit("\"\n\n[domains]\n");
            assert("default_ca = \""@ =~= dca_prefix());
            assert("\"\n\n[domains]\n"@ =~= seq!['"', '\n', '\n'] + domains_header() + seq![
                '\n',
            ]);
            assert(prefix.drop_first() =~= seq![Seq::<char>::empty(), domains_header()]);
            assert(prefix.drop_first().drop_first() =~= seq![domains_header()]);
            assert(seq![domains_header()].drop_first() =~= Seq::<Seq<char>>::empty());
            assert(prefix[0] == dca_line(dca));
            assert(prefix.drop_first()[0] == Seq::<char>::empty());
            assert(prefix.drop_first().drop_first()[0] == domains_header());
            assert(crate::text::lines_text(Seq::<Seq<char>>::empty()) == Seq::<char>::empty());
            assert(crate::text::lines_text(prefix.drop_first().drop_first()) =~= domains_header()
                + seq!['\n']);
            assert(crate::text::lines_text(prefix.drop_first()) =~= seq!['\n'] + domains_header()
                + seq!['\n']);
            assert(crate::text::lines_text(prefix) =~= dca_line(dca) + seq!['\n'] + seq![
                '\n',
            ] + domains_header() + seq!['\n']);
            assert(out@ =~= crate::text::lines_text(prefix));
            assert(es.take(0).map_values(|p: (Seq<char>, Seq<char>)| entry_line(p.0, p.1)) =~= Seq::<
                Seq<char>,
            >::empty());
            assert(prefix + Seq::<Seq<char>>::empty() =~= prefix);
        }
        let n = self.domains.len();
        let mut i: usize = 0;
        while i < n
            invariant
                i <= n,
                out@ == crate::text::lines_text(
                    prefix + es.take(i as int).map_values(
                        |p: (Seq<char>, Seq<char>)| entry_line(p.0, p.1),
                    ),
                ),
            decreases n - i,
        {
            let e = &self.domains[i];
            let ghost before = prefix + es.take(i as int).map_values(
                |p: (Seq<char>, Seq<char>)| entry_line(p.0, p.1),
            );
            crate::text::append_str(&mut out, "\"");
            crate::text::append_str(&mut out, e.domain.as_str());
            crate::text::append_str(&mut out, "\" = \"");
            crate::text::append_str(&mut out, e.ca.as_str());
            crate::text::append_str(&mut out, "\"\n");
            proof {
                reveal_strlit("\"");
                reveal_strlit("\" = \"");
                reveal_strlit("\"\n");
                assert("\""@ =~= seq!['"']);
                assert("\" = \""@ =~= seq!['"', ' ', '=', ' ', '"']);
                assert("\"\n"@ =~= seq!['"', '\n']);
                crate::text::lemma_lines_text_push(before, entry_line(e.domain@, e.ca@));
                assert(es[i as int] == (e.domain@, e.ca@));
                assert(out@ =~= crate::text::lines_text(before.push(entry_line(e.domain@, e.ca@))));
                assert(before.push(entry_line(e.domain@, e.ca@)) =~= prefix + es.take(
                    i + 1 as int,
                ).map_values(|p: (Seq<char>, Seq<char>)| entry_line(p.0, p.1)));
            }
            i += 1;
        }
        proof {
            assert(es.take(n as int) =~= es);
        }
        out
    }

    /// Parse a configuration from file text.
    #[verifier::loop_isolation(false)]
    pub fn from_toml_str(s: &str) -> (r: Result<Config, ConfigParseError>)
        ensures
            parse_config_text(s@) is Some <==> r is Ok,
            r is Ok ==> (r->Ok_0).default_ca@ == (parse_config_text(s@)->0).0 && entries_view(
                (r->Ok_0).domains@,
            ) == (parse_config_text(s@)->0).1 && (r->Ok_0).wf(),
    {
        let lines = crate::text::split_str(s, '\n');
        let ghost lv = crate::text::trimmed_lines(s@);
        let ghost init: Option<CfgState> = Some(
            (None, false, Seq::<(Seq<char>, Seq<char>)>::empty()),
        );
        let mut dca: Option<String> = None;
        let mut ind = false;
        let mut cfg = Config::new();
        let n = lines.len();
        let mut k: usize = 0;
        proof {
            assert(lv.take(0) =~= Seq::<Seq<char>>::empty());
        }
        while k < n
            invariant
                k <= n,
                run_config_lines(init, lv.take(k as int)) == Some(
                    (dca.deep_view(), ind, entries_view(cfg.domains@)),
                ),
                cfg.wf(),
                cfg.default_ca@ == Seq::<char>::empty(),
            decreases n - k,
        {
            let ghost st = Some((dca.deep_view(), ind, entries_view(cfg.domains@)));
            let line = crate::text::trim_str(lines[k].as_str());
            proof {
                assert(crate::text::split_seq(s@, '\n')[k as int] == lines@[k as int]@);
                assert(line@ == lv[k as int]);
                assert(lv.take(k + 1 as int) =~= lv.take(k as int).push(lv[k as int]));
                lemma_run_config_push(init, lv.take(k as int), lv[k as int]);
                reveal_strlit("[domains]");
                assert("[domains]"@ =~= domains_header());
            }
            let m = line.as_str().unicode_len();
            if m == 0 {
                proof {
                    assert(config_step(st, line@) == st);
                }
            } else if str_eq(line.as_str(), "[domains]") {
                ind = true;
            } else if !ind && dca.is_none() {
                match parse_dca_exec(line.as_str()) {
                    Some(v) => {
                        dca = Some(v);
                    },
                    None => {
                        proof {
                            assert(config_step(st, line@) is None);
                            assert(lv =~= lv.take(k + 1 as int) + lv.skip(k + 1 as int));
                            lemma_run_config_append(
                                init,
                                lv.take(k + 1 as int),
                                lv.skip(k + 1 as int),
                            );
                            lemma_run_config_none(lv.skip(k + 1 as int));
                        }
                        return Err(ConfigParseError::Malformed);
                    },
                }
            } else if ind {
                match parse_entry_exec(line.as_str()) {
                    Some((d, c)) => {
                        let ghost dv = d@;
                        let ghost cv = c@;
                        cfg.insert_domain(d, c);
                        proof {
                            assert(config_step(st, line@) == Some(
                                (dca.deep_view(), ind, entries_view(cfg.domains@)),
                            ));
                        }
                    },
                    None => {
                        proof {
                            assert(config_step(st, line@) is None);
                            assert(lv =~= lv.take(k + 1 as int) + lv.skip(k + 1 as int));
                            lemma_run_config_append(
                                init,
                                lv.take(k + 1 as int),
                                lv.skip(k + 1 as int),
                            );
                            lemma_run_config_none(lv.skip(k + 1 as int));
                        }
                        return Err(ConfigParseError::Malformed);
                    },
                }
            } else {
                proof {
                    assert(config_step(st, line@) is None);
                    assert(lv =~= lv.take(k + 1 as int) + lv.skip(k + 1 as int));
                    lemma_run_config_append(init, lv.take(k + 1 as int), lv.skip(k + 1 as int));
                    lemma_run_config_none(lv.skip(k + 1 as int));
                }
                return Err(ConfigParseError::Malformed);
            }
            k += 1;
        }
        proof {
            assert(lv.take(n as int) =~= lv);
        }
        let ghost dview = dca.deep_view();
        let ghost evs = entries_view(cfg.domains@);
        match dca {
            Some(v) => {
                cfg.default_ca = v;
                proof {
                    assert(dview == Some(cfg.default_ca@));
                }
            },
            None => {
                proof {
                    assert(dview is None);
                }
            },
        }
        proof {
            assert(entries_view(cfg.domains@) == evs);
            assert((parse_config_text(s@)->0).0 == cfg.default_ca@);
            assert((parse_config_text(s@)->0).1 == evs);
        }
        Ok(cfg)
    }
}

/// View of name pairs as character-sequence pairs.
pub open spec fn pairs_view(s: Seq<(String, String)>) -> Seq<(Seq<char>, Seq<char>)> {
    s.map_values(|p: (String, String)| (p.0@, p.1@))
}

/// Registered domains with their CA, sorted by domain: exactly the
/// registry's entries, as a permutation.
pub fn list_domains(config: &Config) -> (r: Vec<(String, String)>)
    ensures
        r@.len() == config.domains@.len(),
        pairs_view(r@).to_multiset() == entries_view(config.domains@).to_multiset(),
        config.wf() ==> forall|i: int|
            0 <= i < r@.len() ==> config.domains_map().contains_key((#[trigger] r@[i]).0@)
                && config.domains_map()[r@[i].0@] == r@[i].1@,
        crate::text::sorted_pairs(r@),
{
    let mut v: Vec<(String, String)> = Vec::new();
    let n = config.domains.len();
    let mut i: usize = 0;
    while i < n
        invariant
            n == config.domains@.len(),
            i <= n,
            v@.len() == i,
            forall|k: int|
                0 <= k < i ==> (#[trigger] v@[k]).0@ == config.domains@[k].domain@ && v@[k].1@
                    == config.domains@[k].ca@,
        decreases n - i,
    {
        let e = &config.domains[i];
        v.push((e.domain.clone(), e.ca.clone()));
        i += 1;
    }
    proof {
        if config.wf() {
            assert forall|k: int|
                0 <= k < v@.len() implies config.domains_map().contains_key(
                (#[trigger] v@[k]).0@,
            ) && config.domains_map()[v@[k].0@] == v@[k].1@ by {
                let ev = entries_view(config.domains@);
                assert(ev[k].0 == v@[k].0@ && ev[k].1 == v@[k].1@);
                assert(forall|j: int| 0 <= j < k ==> (#[trigger] ev[j]).0 != ev[k].0);
                lemma_map_of_first(ev, k);
            }
        }
    }
    let ghost vg = v@;
    let r = crate::text::sort_by_key(v);
    proof {
        vg.to_multiset_ensures();
        r@.to_multiset_ensures();
        let f = |p: (String, String)| (p.0@, p.1@);
        assert(pairs_view(r@) =~= r@.map_values(f));
        assert(vg.map_values(f) =~= entries_view(config.domains@));
        crate::text::lemma_multiset_map_values(r@, vg, f);
        if config.wf() {
            assert forall|i: int|
                0 <= i < r@.len() implies config.domains_map().contains_key(
                (#[trigger] r@[i]).0@,
            ) && config.domains_map()[r@[i].0@] == r@[i].1@ by {
                assert(r@.contains(r@[i]));
                assert(r@.to_multiset().count(r@[i]) > 0);
                assert(vg.contains(r@[i]));
                let k = choose|k: int| 0 <= k < vg.len() && vg[k] == r@[i];
                assert(config.domains_map().contains_key(vg[k].0@));
            }
        }
        assert(r@.to_multiset().len() == vg.to_multiset().len());
    }
    r
}

} // verus!
