//! Hosts-file content: the loopback mappings for a registered domain.
//!
//! These functions transform file *content*; reading and writing the
//! hosts file itself — with elevation where the platform needs it —
//! is done by the editor implementations in the application crate.

use vstd::prelude::*;

use crate::platform::{HostsEditor, PlatformError};
use crate::text::{
    contains_seq, contains_str, is_space, join_seq, occurs_at, split_seq, split_str,
    trim_end_spec, trim_end_str,
};

verus! {

/// The IPv4 loopback line for a domain: `127.0.0.1<TAB><domain>`.
pub open spec fn host_line_v4(domain: Seq<char>) -> Seq<char> {
    seq!['1', '2', '7', '.', '0', '.', '0', '.', '1', '\t'] + domain
}

/// The IPv6 loopback line for a domain: `::1<TAB><domain>`.
pub open spec fn host_line_v6(domain: Seq<char>) -> Seq<char> {
    seq![':', ':', '1', '\t'] + domain
}

/// Both literal loopback mappings occur in the content.
pub open spec fn hosts_has_spec(content: Seq<char>, domain: Seq<char>) -> bool {
    contains_seq(content, host_line_v4(domain)) && contains_seq(content, host_line_v6(domain))
}

/// The lines of a hosts file: newline-separated, with no piece for a
/// final trailing newline.
pub open spec fn content_lines(content: Seq<char>) -> Seq<Seq<char>> {
    let p = split_seq(content, '\n');
    if p.len() > 0 && p.last().len() == 0 {
        p.drop_last()
    } else {
        p
    }
}

/// What `add` writes when the mappings are absent: the old lines, the
/// two loopback lines, trailing whitespace dropped, one final newline.
pub open spec fn hosts_add_spec(content: Seq<char>, domain: Seq<char>) -> Seq<char> {
    if hosts_has_spec(content, domain) {
        content
    } else {
        trim_end_spec(
            join_seq(content_lines(content).push(host_line_v4(domain)).push(host_line_v6(domain)),
            '\n'),
        ) + seq!['\n']
    }
}

/// The filter keeping lines that do not mention the domain.
pub open spec fn keeps_line(domain: Seq<char>) -> spec_fn(Seq<char>) -> bool {
    |l: Seq<char>| !contains_seq(l, domain)
}

/// What `remove` writes: every line mentioning the domain dropped.
pub open spec fn hosts_remove_spec(content: Seq<char>, domain: Seq<char>) -> Seq<char> {
    join_seq(content_lines(content).filter(keeps_line(domain)), '\n')
}

/// Build the IPv4 loopback line.
pub fn v4_line(domain: &str) -> (r: String)
    ensures
        r@ == host_line_v4(domain@),
{
    let r = String::from_str("127.0.0.1\t").concat(domain);
    proof {
        reveal_strlit("127.0.0.1\t");
        assert("127.0.0.1\t"@ =~= seq!['1', '2', '7', '.', '0', '.', '0', '.', '1', '\t']);
    }
    r
}

/// Build the IPv6 loopback line.
pub fn v6_line(domain: &str) -> (r: String)
    ensures
        r@ == host_line_v6(domain@),
{
    let r = String::from_str("::1\t").concat(domain);
    proof {
        reveal_strlit("::1\t");
        assert("::1\t"@ =~= seq![':', ':', '1', '\t']);
    }
    r
}

/// Whether both loopback mappings for the domain are in the content.
pub fn domain_in_hosts_content(content: &str, domain: &str) -> (r: bool)
    ensures
        r == hosts_has_spec(content@, domain@),
{
    let l4 = v4_line(domain);
    let l6 = v6_line(domain);
    contains_str(content, l4.as_str()) && contains_str(content, l6.as_str())
}

/// The lines of the content, dropping the piece after a final newline.
#[verifier::loop_isolation(false)]
fn content_lines_exec(content: &str) -> (r: Vec<String>)
    ensures
        r.deep_view() == content_lines(content@),
{
    let mut pieces = split_str(content, '\n');
    proof {
        crate::text::lemma_split_nonempty(content@, '\n');
    }
    let np = pieces.len();
    if np > 0 && pieces[np - 1].as_str().unicode_len() == 0 {
        let _ = pieces.pop();
        proof {
            assert(pieces.deep_view() =~= split_seq(content@, '\n').drop_last());
        }
    }
    pieces
}

/// Join lines with newlines, no trailing newline.
#[verifier::loop_isolation(false)]
fn join_lines(lines: &Vec<String>) -> (r: String)
    ensures
        r@ == join_seq(lines.deep_view(), '\n'),
{
    let mut out = String::new();
    let n = lines.len();
    if n == 0 {
        return out;
    }
    crate::text::append_str(&mut out, lines[0].as_str());
    let mut i: usize = 1;
    proof {
        lemma_join_take(lines.deep_view(), 1);
        assert(lines.deep_view().take(1) =~= seq![lines.deep_view()[0]]);
        assert(join_seq(lines.deep_view().take(1), '\n') == lines.deep_view()[0]);
    }
    while i < n
        invariant
            1 <= i <= n,
            out@ == join_seq(lines.deep_view().take(i as int), '\n'),
        decreases n - i,
    {
        crate::text::append_str(&mut out, "\n");
        crate::text::append_str(&mut out, lines[i].as_str());
        proof {
            reveal_strlit("\n");
            assert("\n"@ =~= seq!['\n']);
            lemma_join_push(lines.deep_view().take(i as int), lines.deep_view()[i as int]);
            assert(lines.deep_view().take(i + 1 as int) =~= lines.deep_view().take(
                i as int,
            ).push(lines.deep_view()[i as int]));
        }
        i += 1;
    }
    proof {
        assert(lines.deep_view().take(n as int) =~= lines.deep_view());
    }
    out
}

/// Joining after a push appends a separator and the new line.
pub proof fn lemma_join_push(parts: Seq<Seq<char>>, x: Seq<char>)
    requires
        parts.len() >= 1,
    ensures
        join_seq(parts.push(x), '\n') == join_seq(parts, '\n') + seq!['\n'] + x,
    decreases parts.len(),
{
    if parts.len() == 1 {
        assert(parts.push(x).drop_first() =~= seq![x]);
        assert(parts.push(x)[0] == parts[0]);
        assert(join_seq(seq![x], '\n') == x);
        assert(join_seq(parts.push(x), '\n') =~= join_seq(parts, '\n') + seq!['\n'] + x);
    } else {
        assert(parts.push(x)[0] == parts[0]);
        assert(parts.push(x).drop_first() =~= parts.drop_first().push(x));
        lemma_join_push(parts.drop_first(), x);
        assert(join_seq(parts.push(x), '\n') =~= join_seq(parts, '\n') + seq!['\n'] + x);
    }
}

proof fn lemma_join_take(parts: Seq<Seq<char>>, k: int)
    requires
        0 < k <= parts.len(),
    ensures
        k == 1 ==> join_seq(parts.take(1), '\n') == parts[0],
{
    if k == 1 {
        assert(parts.take(1) =~= seq![parts[0]]);
    }
}

/// Add the two loopback mappings for a domain to hosts-file content;
/// already-mapped content is returned unchanged.
pub fn hosts_content_add(content: &str, domain: &str) -> (r: String)
    ensures
        r@ == hosts_add_spec(content@, domain@),
{
    if domain_in_hosts_content(content, domain) {
        return String::from_str(content);
    }
    let mut lines = content_lines_exec(content);
    let ghost base = lines.deep_view();
    lines.push(v4_line(domain));
    lines.push(v6_line(domain));
    proof {
        assert(lines.deep_view() =~= base.push(host_line_v4(domain@)).push(host_line_v6(domain@)));
    }
    let joined = join_lines(&lines);
    let mut out = trim_end_str(joined.as_str());
    crate::text::append_str(&mut out, "\n");
    proof {
        reveal_strlit("\n");
        assert("\n"@ =~= seq!['\n']);
    }
    out
}

/// Remove every line mentioning the domain from hosts-file content.
#[verifier::loop_isolation(false)]
pub fn hosts_content_remove(content: &str, domain: &str) -> (r: String)
    ensures
        r@ == hosts_remove_spec(content@, domain@),
{
    let ghost pred = keeps_line(domain@);
    let all = content_lines_exec(content);
    let mut kept: Vec<String> = Vec::new();
    let n = all.len();
    let mut i: usize = 0;
    proof {
        reveal(Seq::filter);
        assert(all.deep_view().take(0) =~= Seq::<Seq<char>>::empty());
        assert(kept.deep_view() =~= all.deep_view().take(0).filter(pred));
    }
    while i < n
        invariant
            i <= n,
            kept.deep_view() == all.deep_view().take(i as int).filter(pred),
        decreases n - i,
    {
        let ghost prev = kept.deep_view();
        let line = &all[i];
        proof {
            reveal(Seq::filter);
            let next = all.deep_view().take(i + 1 as int);
            assert(next.drop_last() =~= all.deep_view().take(i as int));
            assert(next.last() == all.deep_view()[i as int]);
            assert(all.deep_view()[i as int] == all@[i as int]@);
        }
        if !contains_str(line.as_str(), domain) {
            kept.push(line.clone());
            proof {
                assert(kept.deep_view() =~= prev.push(all@[i as int]@));
            }
        }
        i += 1;
    }
    proof {
        assert(all.deep_view().take(n as int) =~= all.deep_view());
    }
    join_lines(&kept)
}

/// A domain fit for a hosts line: non-empty, no whitespace.
pub open spec fn hosts_domain_ok(domain: Seq<char>) -> bool {
    domain.len() > 0 && forall|i: int| 0 <= i < domain.len() ==> !is_space(#[trigger] domain[i])
}

/// Law: adding the mappings twice writes the same file as adding them
/// once.
#[verifier::rlimit(60)]
pub proof fn lemma_hosts_add_idempotent(content: Seq<char>, domain: Seq<char>)
    requires
        hosts_domain_ok(domain),
    ensures
        hosts_add_spec(hosts_add_spec(content, domain), domain) == hosts_add_spec(content, domain),
{
    if !hosts_has_spec(content, domain) {
        let l4 = host_line_v4(domain);
        let l6 = host_line_v6(domain);
        let lines2 = content_lines(content).push(l4).push(l6);
        let j = join_seq(lines2, '\n');
        if content_lines(content).len() == 0 {
            assert(lines2 =~= seq![l4, l6]);
            assert(lines2[0] == l4);
            assert(lines2.drop_first() =~= seq![l6]);
            assert(seq![l6][0] == l6);
            assert(join_seq(seq![l6], '\n') == l6);
            assert(j =~= l4 + seq!['\n'] + l6);
        } else {
            lemma_join_push(content_lines(content).push(l4), l6);
            lemma_join_push(content_lines(content), l4);
            assert(j == join_seq(content_lines(content), '\n') + seq!['\n'] + l4 + seq!['\n']
                + l6);
        }
        assert(j.len() >= l4.len() + 1 + l6.len());
        assert(occurs_at(j, l6, j.len() - l6.len())) by {
            assert(j.subrange(j.len() - l6.len(), j.len() as int) =~= l6);
        }
        assert(occurs_at(j, l4, j.len() - l6.len() - 1 - l4.len())) by {
            assert(j.subrange(j.len() - l6.len() - 1 - l4.len(), j.len() - l6.len() - 1) =~= l4);
        }
        assert(j.last() == domain.last());
        assert(!is_space(j.last()));
        assert(trim_end_spec(j) == j);
        let r = j + seq!['\n'];
        assert(hosts_add_spec(content, domain) == r);
        assert(contains_seq(r, l4)) by {
            assert(r.subrange(j.len() - l6.len() - 1 - l4.len(), j.len() - l6.len() - 1) =~= l4);
            assert(occurs_at(r, l4, j.len() - l6.len() - 1 - l4.len()));
        }
        assert(contains_seq(r, l6)) by {
            assert(r.subrange(j.len() - l6.len(), j.len() as int) =~= l6);
            assert(occurs_at(r, l6, j.len() - l6.len()));
        }
        assert(hosts_has_spec(r, domain));
    }
}

/// Add a domain to the hosts file through the given editor.
pub fn add_domain_to_hosts<E: HostsEditor>(editor: &E, domain: &str) -> Result<(), PlatformError> {
    editor.add_domain(domain)
}

/// Remove a domain from the hosts file through the given editor.
pub fn remove_domain_from_hosts<E: HostsEditor>(editor: &E, domain: &str) -> Result<
    (),
    PlatformError,
> {
    editor.remove_domain(domain)
}

/// Whether the hosts file maps the domain, through the given editor.
pub fn domain_in_hosts<E: HostsEditor>(editor: &E, domain: &str) -> Result<bool, PlatformError> {
    editor.has_domain(domain)
}

} // verus!
