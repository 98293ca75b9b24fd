//! Daemon supervisor rules: the recorded state, its `daemon.json`
//! format, and the start/stop/status/reload decisions.
//!
//! Reading the state file, probing a PID and sending signals are I/O
//! and live in the application crate; every decision they feed is made
//! here.

use vstd::prelude::*;

use crate::text::{
    all_digits, dec_str, dec_val, find_idx, lemma_dec_str_digits, lemma_dec_val_dec_str,
    lemma_find_idx, lemma_find_idx_concat, quoted, text_safe, u64_to_string,
};

verus! {

/// Daemon state stored in `daemon.json`.
#[derive(Debug, Clone)]
pub struct DaemonState {
    pub pid: u32,
    pub project_path: Option<String>,
    pub started_at: String,
}

// ---------------------------------------------------------------------------
// The daemon.json text format
// ---------------------------------------------------------------------------

/// `{"pid":`
pub open spec fn pid_key() -> Seq<char> {
    seq!['{', '"', 'p', 'i', 'd', '"', ':']
}

/// `,"project_path":`
pub open spec fn project_key() -> Seq<char> {
    seq![',', '"', 'p', 'r', 'o', 'j', 'e', 'c', 't', '_', 'p', 'a', 't', 'h', '"', ':']
}

/// `,"started_at":`
pub open spec fn started_key() -> Seq<char> {
    seq![',', '"', 's', 't', 'a', 'r', 't', 'e', 'd', '_', 'a', 't', '"', ':']
}

/// `null`
pub open spec fn null_lit() -> Seq<char> {
    seq!['n', 'u', 'l', 'l']
}

/// The state file text for given fields.
pub open spec fn daemon_json(pid: u32, pp: Option<Seq<char>>, at: Seq<char>) -> Seq<char> {
    pid_key() + dec_str(pid as nat) + project_key() + (match pp {
        Some(p) => quoted(p),
        None => null_lit(),
    }) + started_key() + quoted(at) + seq!['}']
}

pub open spec fn no_quote(s: Seq<char>) -> bool {
    forall|i: int| 0 <= i < s.len() ==> #[trigger] s[i] != '"'
}

/// Read the digits of the PID: everything before the first comma.
pub open spec fn parse_daemon_json(s: Seq<char>) -> Option<(u32, Option<Seq<char>>, Seq<char>)> {
    if s.len() >= 7 && s.take(7) == pid_key() {
        let rest = s.skip(7);
        let i = find_idx(rest, ',');
        if 0 < i < rest.len() && all_digits(rest.take(i)) && dec_val(rest.take(i)) <= u32::MAX {
            let pid = dec_val(rest.take(i)) as u32;
            let after = rest.skip(i);
            parse_project_part(pid, after)
        } else {
            None
        }
    } else {
        None
    }
}

/// Read `,"project_path":` and its value, then hand on.
pub open spec fn parse_project_part(pid: u32, s: Seq<char>) -> Option<
    (u32, Option<Seq<char>>, Seq<char>),
> {
    if s.len() >= 16 && s.take(16) == project_key() {
        let v = s.skip(16);
        if v.len() >= 4 && v.take(4) == null_lit() {
            parse_started_part(pid, None, v.skip(4))
        } else if v.len() >= 2 && v[0] == '"' {
            let i = find_idx(v.skip(1), '"');
            if i < v.skip(1).len() {
                parse_started_part(pid, Some(v.skip(1).take(i)), v.skip(1).skip(i + 1))
            } else {
                None
            }
        } else {
            None
        }
    } else {
        None
    }
}

/// Parse a state file, tolerating whitespace outside quoted strings,
/// as a pretty-printed file holds it.
pub open spec fn parse_daemon_text(s: Seq<char>) -> Option<(u32, Option<Seq<char>>, Seq<char>)> {
    parse_daemon_json(crate::text::strip_unquoted_ws(s, false))
}

/// Read `,"started_at":"..."}` to the end.
pub open spec fn parse_started_part(pid: u32, pp: Option<Seq<char>>, s: Seq<char>) -> Option<
    (u32, Option<Seq<char>>, Seq<char>),
> {
    if s.len() >= 17 && s.take(14) == started_key() && s[14] == '"' && s.last() == '}' && s[
        s.len() - 2
    ] == '"' && no_quote(s.subrange(15, s.len() - 2)) {
        Some((pid, pp, s.subrange(15, s.len() - 2)))
    } else {
        None
    }
}

impl DaemonState {
    /// Whether the fields fit the file format: the emitter does not
    /// escape, so quotes and newlines are refused rather than written.
    pub fn json_encodable(&self) -> (r: bool)
        ensures
            r == ((match self.project_path {
                Some(p) => text_safe(p@),
                None => true,
            }) && text_safe(self.started_at@)),
    {
        let pp_ok = match &self.project_path {
            Some(p) => crate::text::is_text_safe(p.as_str()),
            None => true,
        };
        pp_ok && crate::text::is_text_safe(self.started_at.as_str())
    }

    /// Render the state as its file text.  The recorded strings must
    /// be free of quotes and newlines — see `json_encodable`; the
    /// round-trip law covers exactly these.
    pub fn to_json_string(&self) -> (r: String)
        requires
            match self.project_path {
                Some(p) => text_safe(p@),
                None => true,
            },
            text_safe(self.started_at@),
        ensures
            r@ == daemon_json(self.pid, self.project_path.deep_view(), self.started_at@),
    {
        let mut out = String::new();
        crate::text::append_str(&mut out, "{\"pid\":");
        let pid_digits = u64_to_string(self.pid as u64);
        crate::text::append_str(&mut out, pid_digits.as_str());
        crate::text::append_str(&mut out, ",\"project_path\":");
        match &self.project_path {
            Some(p) => {
                crate::text::append_str(&mut out, "\"");
                crate::text::append_str(&mut out, p.as_str());
                crate::text::append_str(&mut out, "\"");
            },
            None => {
                crate::text::append_str(&mut out, "null");
            },
        }
        crate::text::append_str(&mut out, ",\"started_at\":\"");
        crate::text::append_str(&mut out, self.started_at.as_str());
        crate::text::append_str(&mut out, "\"}");
        proof {
            reveal_strlit("{\"pid\":");
            reveal_strlit(",\"project_path\":");
            reveal_strlit("\"");
            reveal_strlit("null");
            reveal_strlit(",\"started_at\":\"");
            reveal_strlit("\"}");
            assert("{\"pid\":"@ =~= pid_key());
            assert(",\"project_path\":"@ =~= project_key());
            assert("null"@ =~= null_lit());
            assert(",\"started_at\":\""@ =~= started_key() + seq!['"']);
            assert("\"}"@ =~= seq!['"', '}']);
            assert(out@ =~= daemon_json(self.pid, self.project_path.deep_view(),
            self.started_at@));
        }
        out
    }

    /// Parse the state from its file text; whitespace outside quoted
    /// strings is ignored.
    pub fn from_json_str(s: &str) -> (r: Option<DaemonState>)
        ensures
            r is Some <==> parse_daemon_text(s@) is Some,
            r is Some ==> {
                let (pid, pp, at) = parse_daemon_text(s@)->0;
                r->0.pid == pid && r->0.project_path.deep_view() == pp && r->0.started_at@ == at
            },
    {
        let norm = crate::text::strip_unquoted(s);
        Self::parse_compact(norm.as_str())
    }

    /// Parse the compact form of the state file.
    #[verifier::loop_isolation(false)]
    fn parse_compact(s: &str) -> (r: Option<DaemonState>)
        ensures
            r is Some <==> parse_daemon_json(s@) is Some,
            r is Some ==> {
                let (pid, pp, at) = parse_daemon_json(s@)->0;
                r->0.pid == pid && r->0.project_path.deep_view() == pp && r->0.started_at@ == at
            },
    {
        let n = s.unicode_len();
        if n < 7 {
            return None;
        }
        let head = crate::text::substring(s, 0, 7);
        proof {
            reveal_strlit("{\"pid\":");
            assert("{\"pid\":"@ =~= pid_key());
        }
        if !crate::text::str_eq(head.as_str(), "{\"pid\":") {
            return None;
        }
        let rest = crate::text::substring(s, 7, n);
        proof {
            assert(rest@ =~= s@.skip(7));
            lemma_find_idx(rest@, ',');
        }
        let i = match crate::text::find_char(rest.as_str(), ',') {
            Some(i) => i,
            None => {
                return None;
            },
        };
        if i == 0 {
            return None;
        }
        let digits = crate::text::substring(rest.as_str(), 0, i);
        proof {
            assert(digits@ =~= rest@.take(i as int));
        }
        let pid = match crate::text::parse_u32(digits.as_str()) {
            Some(p) => p,
            None => {
                return None;
            },
        };
        let m = rest.as_str().unicode_len();
        let after = crate::text::substring(rest.as_str(), i, m);
        proof {
            assert(after@ =~= rest@.skip(i as int));
        }
        Self::parse_project_exec(pid, after.as_str())
    }

    /// Parse from `,"project_path":` onward.
    #[verifier::loop_isolation(false)]
    fn parse_project_exec(pid: u32, s: &str) -> (r: Option<DaemonState>)
        ensures
            r is Some <==> parse_project_part(pid, s@) is Some,
            r is Some ==> {
                let (p, pp, at) = parse_project_part(pid, s@)->0;
                r->0.pid == p && r->0.project_path.deep_view() == pp && r->0.started_at@ == at
            },
    {
        let n = s.unicode_len();
        if n < 16 {
            return None;
        }
        let head = crate::text::substring(s, 0, 16);
        proof {
            reveal_strlit(",\"project_path\":");
            assert(",\"project_path\":"@ =~= project_key());
        }
        if !crate::text::str_eq(head.as_str(), ",\"project_path\":") {
            return None;
        }
        let v = crate::text::substring(s, 16, n);
        proof {
            assert(v@ =~= s@.skip(16));
        }
        let vlen = v.as_str().unicode_len();
        if vlen >= 4 {
            let four = crate::text::substring(v.as_str(), 0, 4);
            proof {
                reveal_strlit("null");
                assert("null"@ =~= null_lit());
                assert(four@ =~= v@.take(4));
            }
            if crate::text::str_eq(four.as_str(), "null") {
                let tail = crate::text::substring(v.as_str(), 4, vlen);
                proof {
                    assert(tail@ =~= v@.skip(4));
                }
                return Self::parse_started_exec(pid, None, tail.as_str());
            }
        }
        if vlen < 2 || v.as_str().get_char(0) != '"' {
            proof {
                if v@.len() >= 4 && v@.take(4) == null_lit() {
                    assert(false);
                }
            }
            return None;
        }
        let inner = crate::text::substring(v.as_str(), 1, vlen);
        proof {
            assert(inner@ =~= v@.skip(1));
            lemma_find_idx(inner@, '"');
        }
        let i = match crate::text::find_char(inner.as_str(), '"') {
            Some(i) => i,
            None => {
                proof {
                    if v@.len() >= 4 && v@.take(4) == null_lit() {
                        assert(v@[0] == 'n');
                        assert(false);
                    }
                }
                return None;
            },
        };
        let pp = crate::text::substring(inner.as_str(), 0, i);
        let ilen = inner.as_str().unicode_len();
        let tail = crate::text::substring(inner.as_str(), i + 1, ilen);
        proof {
            assert(pp@ =~= v@.skip(1).take(i as int));
            assert(tail@ =~= v@.skip(1).skip(i + 1 as int));
            if v@.len() >= 4 && v@.take(4) == null_lit() {
                assert(v@[0] == 'n');
                assert(false);
            }
        }
        Self::parse_started_exec(pid, Some(pp), tail.as_str())
    }

    /// Parse from `,"started_at":` to the closing brace.
    #[verifier::loop_isolation(false)]
    fn parse_started_exec(pid: u32, pp: Option<String>, s: &str) -> (r: Option<DaemonState>)
        ensures
            r is Some <==> parse_started_part(pid, pp.deep_view(), s@) is Some,
            r is Some ==> {
                let (p, ppv, at) = parse_started_part(pid, pp.deep_view(), s@)->0;
                r->0.pid == p && r->0.project_path.deep_view() == ppv && r->0.started_at@ == at
            },
    {
        let n = s.unicode_len();
        if n < 17 {
            return None;
        }
        let head = crate::text::substring(s, 0, 14);
        proof {
            reveal_strlit(",\"started_at\":");
            assert(",\"started_at\":"@ =~= started_key());
        }
        if !crate::text::str_eq(head.as_str(), ",\"started_at\":") {
            return None;
        }
        if s.get_char(14) != '"' || s.get_char(n - 1) != '}' || s.get_char(n - 2) != '"' {
            return None;
        }
        let at = crate::text::substring(s, 15, n - 2);
        proof {
            assert(at@ =~= s@.subrange(15, s@.len() - 2));
            lemma_find_idx(at@, '"');
        }
        match crate::text::find_char(at.as_str(), '"') {
            Some(_) => {
                proof {
                    assert(!no_quote(s@.subrange(15, s@.len() - 2)));
                }
                None
            },
            None => {
                proof {
                    assert(no_quote(s@.subrange(15, s@.len() - 2)));
                }
                Some(DaemonState { pid, project_path: pp, started_at: at })
            },
        }
    }
}

/// The fixed key segments hold no whitespace, and their quotes are
/// balanced.
#[verifier::rlimit(100)]
proof fn lemma_keys_strip()
    ensures
        crate::text::strip_unquoted_ws(pid_key(), false) == pid_key(),
        crate::text::quote_flip(pid_key(), false) == false,
        crate::text::strip_unquoted_ws(project_key(), false) == project_key(),
        crate::text::quote_flip(project_key(), false) == false,
        crate::text::strip_unquoted_ws(started_key(), false) == started_key(),
        crate::text::quote_flip(started_key(), false) == false,
        crate::text::strip_unquoted_ws(null_lit(), false) == null_lit(),
        crate::text::quote_flip(null_lit(), false) == false,
{
    assert(crate::text::strip_unquoted_ws(pid_key(), false) =~= pid_key()
        && crate::text::quote_flip(pid_key(), false) == false) by {
        reveal_with_fuel(crate::text::quote_flip, 10);
        reveal_with_fuel(crate::text::strip_unquoted_ws, 10);
    }
    assert(crate::text::strip_unquoted_ws(project_key(), false) =~= project_key()
        && crate::text::quote_flip(project_key(), false) == false) by {
        reveal_with_fuel(crate::text::quote_flip, 20);
        reveal_with_fuel(crate::text::strip_unquoted_ws, 20);
    }
    assert(crate::text::strip_unquoted_ws(started_key(), false) =~= started_key()
        && crate::text::quote_flip(started_key(), false) == false) by {
        reveal_with_fuel(crate::text::quote_flip, 20);
        reveal_with_fuel(crate::text::strip_unquoted_ws, 20);
    }
    assert(crate::text::strip_unquoted_ws(null_lit(), false) =~= null_lit()
        && crate::text::quote_flip(null_lit(), false) == false) by {
        reveal_with_fuel(crate::text::quote_flip, 10);
        reveal_with_fuel(crate::text::strip_unquoted_ws, 10);
    }
}

/// A rendered state holds whitespace only inside its quoted values,
/// so stripping changes nothing.
#[verifier::rlimit(100)]
pub proof fn lemma_daemon_json_strip_id(pid: u32, pp: Option<Seq<char>>, at: Seq<char>)
    requires
        match pp {
            Some(p) => text_safe(p),
            None => true,
        },
        text_safe(at),
    ensures
        crate::text::strip_unquoted_ws(daemon_json(pid, pp, at), false) == daemon_json(
            pid,
            pp,
            at,
        ),
{
    lemma_keys_strip();
    let d = dec_str(pid as nat);
    lemma_dec_str_digits(pid as nat);
    assert forall|i: int| 0 <= i < d.len() implies !crate::text::is_space(#[trigger] d[i])
        && d[i] != '"' by {
        assert(crate::text::is_digit(d[i]));
    }
    let ppv = match pp {
        Some(p) => quoted(p),
        None => null_lit(),
    };
    let p2 = pid_key() + d;
    let p3 = p2 + project_key();
    let p4 = p3 + ppv;
    let p5 = p4 + started_key();
    let p6 = p5 + quoted(at);
    let s = daemon_json(pid, pp, at);
    assert(s =~= p6 + seq!['}']);
    crate::text::lemma_strip_nospace(d, false);
    crate::text::lemma_quote_flip_noquote(d, false);
    crate::text::lemma_strip_concat(pid_key(), d, false);
    crate::text::lemma_quote_flip_concat(pid_key(), d, false);
    assert(crate::text::strip_unquoted_ws(p2, false) =~= p2);
    assert(crate::text::quote_flip(p2, false) == false);
    assert(crate::text::strip_unquoted_ws(project_key(), false) =~= project_key());
    assert(crate::text::quote_flip(project_key(), false) == false);
    crate::text::lemma_strip_concat(p2, project_key(), false);
    crate::text::lemma_quote_flip_concat(p2, project_key(), false);
    assert(crate::text::strip_unquoted_ws(p3, false) =~= p3);
    assert(crate::text::quote_flip(p3, false) == false);
    match pp {
        Some(p) => {
            crate::text::lemma_strip_quoted(p);
        },
        None => {
        },
    }
    crate::text::lemma_strip_concat(p3, ppv, false);
    crate::text::lemma_quote_flip_concat(p3, ppv, false);
    assert(crate::text::strip_unquoted_ws(p4, false) =~= p4);
    assert(crate::text::quote_flip(p4, false) == false);
    crate::text::lemma_strip_concat(p4, started_key(), false);
    crate::text::lemma_quote_flip_concat(p4, started_key(), false);
    assert(crate::text::strip_unquoted_ws(p5, false) =~= p5);
    assert(crate::text::quote_flip(p5, false) == false);
    crate::text::lemma_strip_quoted(at);
    crate::text::lemma_strip_concat(p5, quoted(at), false);
    crate::text::lemma_quote_flip_concat(p5, quoted(at), false);
    assert(crate::text::strip_unquoted_ws(p6, false) =~= p6);
    assert(crate::text::quote_flip(p6, false) == false);
    crate::text::lemma_strip_single('}', false);
    crate::text::lemma_strip_concat(p6, seq!['}'], false);
    assert(crate::text::strip_unquoted_ws(s, false) =~= s);
}

/// Law: a rendered daemon state reads back as itself, under the
/// whitespace-tolerant reader too.
#[verifier::rlimit(60)]
pub proof fn lemma_daemon_json_roundtrip(pid: u32, pp: Option<Seq<char>>, at: Seq<char>)
    requires
        match pp {
            Some(p) => text_safe(p),
            None => true,
        },
        text_safe(at),
    ensures
        parse_daemon_json(daemon_json(pid, pp, at)) == Some((pid, pp, at)),
        parse_daemon_text(daemon_json(pid, pp, at)) == Some((pid, pp, at)),
{
    lemma_daemon_json_strip_id(pid, pp, at);
    let s = daemon_json(pid, pp, at);
    let d = dec_str(pid as nat);
    let ppv = match pp {
        Some(p) => quoted(p),
        None => null_lit(),
    };
    let t2 = started_key() + quoted(at) + seq!['}'];
    lemma_dec_str_digits(pid as nat);
    lemma_dec_val_dec_str(pid as nat);
    assert(s.take(7) =~= pid_key());
    let rest = s.skip(7);
    let t1 = project_key().drop_first() + ppv + t2;
    assert(rest =~= d + seq![','] + t1);
    lemma_find_idx_concat(d, t1, ',');
    let i = find_idx(rest, ',');
    assert(i == d.len());
    assert(0 < i < rest.len());
    assert(rest.take(i) =~= d);
    assert(dec_val(rest.take(i)) == pid);
    let after = rest.skip(i);
    assert(after =~= project_key() + ppv + t2);
    assert(after.take(16) =~= project_key());
    let v = after.skip(16);
    assert(v =~= ppv + t2);
    match pp {
        None => {
            assert(v.take(4) =~= null_lit());
            assert(v.skip(4) =~= t2);
            lemma_parse_started(pid, pp, at, t2);
        },
        Some(p) => {
            assert(v[0] == '"');
            if v.len() >= 4 && v.take(4) == null_lit() {
                assert(v.take(4)[0] == 'n');
                assert(false);
            }
            assert(v.len() >= 2);
            let inner = v.skip(1);
            assert(inner =~= p + seq!['"'] + (started_key() + quoted(at) + seq!['}']));
            lemma_find_idx_concat(p, started_key() + quoted(at) + seq!['}'], '"');
            let j = find_idx(inner, '"');
            assert(j == p.len());
            assert(j < inner.len());
            assert(inner.take(j) =~= p);
            assert(inner.skip(j + 1) =~= t2);
            lemma_parse_started(pid, pp, at, t2);
        },
    }
}

/// The started-at tail of a rendered state reads back as itself.
proof fn lemma_parse_started(pid: u32, pp: Option<Seq<char>>, at: Seq<char>, t: Seq<char>)
    requires
        text_safe(at),
        t == started_key() + quoted(at) + seq!['}'],
    ensures
        parse_started_part(pid, pp, t) == Some((pid, pp, at)),
{
    assert(t.len() == 17 + at.len());
    assert(t.take(14) =~= started_key());
    assert(t[14] == '"');
    assert(t.last() == '}');
    assert(t[t.len() - 2] == '"');
    assert(t.subrange(15, t.len() - 2) =~= at);
    assert(no_quote(t.subrange(15, t.len() - 2)));
}

// ---------------------------------------------------------------------------
// Lifecycle decisions
// ---------------------------------------------------------------------------

/// Why a daemon operation could not proceed.
#[derive(Debug, Clone, PartialEq, Eq)]
pub enum DaemonError {
    /// No daemon is recorded as running.
    NotRunning,
    /// A state file was found but its process is dead; the file is to
    /// be cleared.
    StaleCleared,
}

impl DaemonError {
    /// One-line diagnostic; either way the text holds "not running",
    /// as the exit-code rule asks.
    pub fn message(&self) -> (r: String)
        ensures
            self is NotRunning ==> r@ == "Daemon not running"@,
            self is StaleCleared ==> r@ == "Daemon not running (stale state cleared)"@,
    {
        match self {
            DaemonError::NotRunning => String::from_str("Daemon not running"),
            DaemonError::StaleCleared => String::from_str(
                "Daemon not running (stale state cleared)",
            ),
        }
    }
}

/// What `start` must do.
#[derive(Debug)]
pub enum StartDecision {
    /// Refuse: a live daemon already runs under this PID.
    AlreadyRunning(u32),
    /// Clear the stale state file, then spawn.
    ClearStaleAndStart,
    /// Spawn.
    Start,
}

/// Decide a `start` request from the recorded state and a liveness
/// probe of its PID.
pub fn start_daemon_decision(state: &Option<DaemonState>, alive: bool) -> (r: StartDecision)
    ensures
        r is AlreadyRunning <==> state is Some && alive,
        r is AlreadyRunning ==> r->0 == state->0.pid,
        r is ClearStaleAndStart <==> state is Some && !alive,
        r is Start <==> state is None,
{
    match state {
        Some(st) => {
            if alive {
                StartDecision::AlreadyRunning(st.pid)
            } else {
                StartDecision::ClearStaleAndStart
            }
        },
        None => StartDecision::Start,
    }
}

/// What `stop` must do.
#[derive(Debug)]
pub enum StopDecision {
    /// Nothing recorded; report "not running".
    NotRunning,
    /// Dead PID: clear the state file, report "not running".
    ClearStale,
    /// Send the graceful-terminate signal to the PID, then clear the
    /// state file.
    Terminate(u32),
}

/// Decide a `stop` request; idempotent on "not running".
pub fn stop_daemon_decision(state: &Option<DaemonState>, alive: bool) -> (r: StopDecision)
    ensures
        r is NotRunning <==> state is None,
        r is ClearStale <==> state is Some && !alive,
        r is Terminate <==> state is Some && alive,
        r is Terminate ==> r->0 == state->0.pid,
{
    match state {
        None => StopDecision::NotRunning,
        Some(st) => {
            if alive {
                StopDecision::Terminate(st.pid)
            } else {
                StopDecision::ClearStale
            }
        },
    }
}

/// Decide a `status` request: the state to report, and whether the
/// state file must be cleared.  The report is `None` whenever the
/// recorded PID is not live, and a stale file is always cleared.
pub fn daemon_status(state: Option<DaemonState>, alive: bool) -> (r: (Option<DaemonState>, bool))
    ensures
        r.0 is Some <==> state is Some && alive,
        r.0 is Some ==> r.0->0 == state->0,
        r.1 <==> state is Some && !alive,
{
    match state {
        None => (None, false),
        Some(st) => {
            if alive {
                (Some(st), false)
            } else {
                (None, true)
            }
        },
    }
}

/// Decide a `reload` request: the PID to signal, or the failure to
/// report; a stale state file is cleared by the caller.
pub fn reload_daemon_decision(state: &Option<DaemonState>, alive: bool) -> (r: Result<
    u32,
    DaemonError,
>)
    ensures
        r is Ok <==> state is Some && alive,
        r is Ok ==> r->Ok_0 == state->0.pid,
        state is None ==> r == Err::<u32, DaemonError>(DaemonError::NotRunning),
        state is Some && !alive ==> r == Err::<u32, DaemonError>(DaemonError::StaleCleared),
{
    match state {
        None => Err(DaemonError::NotRunning),
        Some(st) => {
            if alive {
                Ok(st.pid)
            } else {
                Err(DaemonError::StaleCleared)
            }
        },
    }
}

} // verus!
