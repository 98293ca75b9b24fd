//! Character-sequence helpers shared by the configuration formats,
//! hostname validation and the proxy's header parsing.

use vstd::prelude::*;

verus! {

// ---------------------------------------------------------------------------
// ASCII lower-casing
// ---------------------------------------------------------------------------

/// Lower-case a single character, ASCII range only.
pub open spec fn lower_char(c: char) -> char {
    if 'A' <= c && c <= 'Z' {
        ((c as u32 + 32) as u8) as char
    } else {
        c
    }
}

/// Lower-case every character of a sequence, ASCII range only.
pub open spec fn lower_seq(s: Seq<char>) -> Seq<char> {
    s.map_values(|c: char| lower_char(c))
}

/// Relies on std's `String::push`: appends exactly one character.
#[verifier::external_body]
pub fn push_char(s: &mut String, c: char)
    ensures
        final(s)@ == old(s)@.push(c),
{
    s.push(c);
}

/// Whether two slices hold the same characters, decided through
/// vstd's specified `String` equality.
pub fn str_eq(a: &str, b: &str) -> (r: bool)
    ensures
        r == (a@ == b@),
{
    let sa = String::from_str(a);
    let sb = String::from_str(b);
    sa == sb
}

/// ASCII lower-casing of a string slice.
pub fn ascii_lowercase(s: &str) -> (r: String)
    ensures
        r@ == lower_seq(s@),
{
    let n = s.unicode_len();
    let mut out = String::new();
    let mut i: usize = 0;
    while i < n
        invariant
            n == s@.len(),
            i <= n,
            out@ == lower_seq(s@.take(i as int)),
        decreases n - i,
    {
        let c = s.get_char(i);
        let lc: char = if 'A' <= c && c <= 'Z' {
            ((c as u32 + 32) as u8) as char
        } else {
            c
        };
        push_char(&mut out, lc);
        proof {
            assert(s@.take(i + 1 as int).drop_last() =~= s@.take(i as int));
            assert(out@ =~= lower_seq(s@.take(i + 1 as int)));
        }
        i += 1;
    }
    proof {
        assert(s@.take(n as int) =~= s@);
    }
    out
}

// ---------------------------------------------------------------------------
// Splitting on a separator character and joining back
// ---------------------------------------------------------------------------

/// Index of the first occurrence of `sep` in `s`, or `s.len()` when absent.
pub open spec fn find_idx(s: Seq<char>, sep: char) -> int
    decreases s.len(),
{
    if s.len() == 0 {
        0
    } else if s[0] == sep {
        0
    } else {
        1 + find_idx(s.drop_first(), sep)
    }
}

pub proof fn lemma_find_idx(s: Seq<char>, sep: char)
    ensures
        0 <= find_idx(s, sep) <= s.len(),
        forall|j: int| 0 <= j < find_idx(s, sep) ==> s[j] != sep,
        find_idx(s, sep) < s.len() ==> s[find_idx(s, sep)] == sep,
    decreases s.len(),
{
    if s.len() != 0 && s[0] != sep {
        lemma_find_idx(s.drop_first(), sep);
        assert forall|j: int| 0 <= j < find_idx(s, sep) implies s[j] != sep by {
            if j > 0 {
                assert(s[j] == s.drop_first()[j - 1]);
            }
        }
    }
}

/// `find_idx` over a sequence free of `sep` is the length.
pub proof fn lemma_find_idx_absent(s: Seq<char>, sep: char)
    requires
        forall|j: int| 0 <= j < s.len() ==> s[j] != sep,
    ensures
        find_idx(s, sep) == s.len(),
    decreases s.len(),
{
    if s.len() != 0 {
        assert(s[0] != sep);
        lemma_find_idx_absent(s.drop_first(), sep);
    }
}

/// `find_idx` of `a + [sep] + b` is `a.len()` when `a` is free of `sep`.
pub proof fn lemma_find_idx_concat(a: Seq<char>, b: Seq<char>, sep: char)
    requires
        forall|j: int| 0 <= j < a.len() ==> a[j] != sep,
    ensures
        find_idx(a + seq![sep] + b, sep) == a.len(),
    decreases a.len(),
{
    let s = a + seq![sep] + b;
    if a.len() == 0 {
        assert(s[0] == sep);
    } else {
        assert(s[0] == a[0]);
        assert(s.drop_first() =~= a.drop_first() + seq![sep] + b);
        lemma_find_idx_concat(a.drop_first(), b, sep);
    }
}

/// Split `s` at each occurrence of `sep`; n separators yield n + 1 pieces.
#[via_fn]
proof fn split_seq_decreases(s: Seq<char>, sep: char) {
    lemma_find_idx(s, sep);
}

pub open spec fn split_seq(s: Seq<char>, sep: char) -> Seq<Seq<char>>
    decreases s.len(),
    via split_seq_decreases
{
    let i = find_idx(s, sep);
    if i >= s.len() {
        seq![s]
    } else {
        seq![s.take(i)] + split_seq(s.skip(i + 1), sep)
    }
}

pub proof fn lemma_split_nonempty(s: Seq<char>, sep: char)
    ensures
        split_seq(s, sep).len() >= 1,
        forall|k: int, j: int|
            0 <= k < split_seq(s, sep).len() && 0 <= j < split_seq(s, sep)[k].len()
                ==> #[trigger] split_seq(s, sep)[k][j] != sep,
    decreases s.len(),
{
    lemma_find_idx(s, sep);
    let i = find_idx(s, sep);
    if i < s.len() {
        lemma_split_nonempty(s.skip(i + 1), sep);
    }
}

/// Join pieces with `sep` between consecutive pieces.
pub open spec fn join_seq(parts: Seq<Seq<char>>, sep: char) -> Seq<char>
    decreases parts.len(),
{
    if parts.len() == 0 {
        Seq::empty()
    } else if parts.len() == 1 {
        parts[0]
    } else {
        parts[0] + seq![sep] + join_seq(parts.drop_first(), sep)
    }
}

// ---------------------------------------------------------------------------
// Decimal numbers
// ---------------------------------------------------------------------------

/// The character for a single decimal digit.
pub open spec fn dec_digit(d: int) -> char {
    ((48 + d) as u8) as char
}

/// Decimal rendering of a natural number, most significant digit first.
pub open spec fn dec_str(n: nat) -> Seq<char>
    decreases n,
{
    if n < 10 {
        seq![dec_digit(n as int)]
    } else {
        dec_str(n / 10).push(dec_digit((n % 10) as int))
    }
}

pub open spec fn is_digit(c: char) -> bool {
    '0' <= c && c <= '9'
}

pub open spec fn digit_val(c: char) -> int {
    c as int - 48
}

pub open spec fn all_digits(s: Seq<char>) -> bool {
    forall|i: int| 0 <= i < s.len() ==> is_digit(#[trigger] s[i])
}

/// Numeric value of a digit string, 0 for the empty string.
pub open spec fn dec_val(s: Seq<char>) -> int
    decreases s.len(),
{
    if s.len() == 0 {
        0
    } else {
        dec_val(s.drop_last()) * 10 + digit_val(s.last())
    }
}

pub proof fn lemma_dec_str_digits(n: nat)
    ensures
        all_digits(dec_str(n)),
        dec_str(n).len() >= 1,
    decreases n,
{
    if n >= 10 {
        lemma_dec_str_digits(n / 10);
    }
}

/// Reading back a rendered number yields the number.
pub proof fn lemma_dec_val_dec_str(n: nat)
    ensures
        dec_val(dec_str(n)) == n,
    decreases n,
{
    if n < 10 {
        let s = dec_str(n);
        assert(s.len() == 1);
        assert(s.drop_last() =~= Seq::<char>::empty());
        assert(dec_val(s.drop_last()) == 0);
        assert(s.last() == dec_digit(n as int));
        assert(digit_val(dec_digit(n as int)) == n);
        assert(dec_val(s) == dec_val(s.drop_last()) * 10 + digit_val(s.last()));
    } else {
        let s = dec_str(n);
        lemma_dec_val_dec_str(n / 10);
        assert(s.drop_last() =~= dec_str(n / 10));
        assert(s.last() == dec_digit((n % 10) as int));
        assert(digit_val(dec_digit((n % 10) as int)) == n % 10);
        vstd::arithmetic::div_mod::lemma_fundamental_div_mod(n as int, 10);
        assert(dec_val(s) == dec_val(s.drop_last()) * 10 + digit_val(s.last()));
        assert(dec_val(s) == (n / 10) * 10 + (n % 10));
    }
}

pub proof fn lemma_dec_val_nonneg(s: Seq<char>)
    requires
        all_digits(s),
    ensures
        dec_val(s) >= 0,
    decreases s.len(),
{
    if s.len() > 0 {
        assert(all_digits(s.drop_last()));
        lemma_dec_val_nonneg(s.drop_last());
    }
}

/// The value of a digit string does not shrink as the string grows.
pub proof fn lemma_dec_val_prefix(s: Seq<char>, i: int)
    requires
        all_digits(s),
        0 <= i <= s.len(),
    ensures
        dec_val(s.take(i)) <= dec_val(s),
    decreases s.len() - i,
{
    if i < s.len() {
        let t = s.take(i + 1);
        assert(t.drop_last() =~= s.take(i));
        assert(all_digits(s.take(i)));
        lemma_dec_val_nonneg(s.take(i));
        assert(dec_val(t) == dec_val(s.take(i)) * 10 + digit_val(t.last()));
        assert(dec_val(s.take(i)) <= dec_val(t));
        lemma_dec_val_prefix(s, i + 1);
        assert(s.take(s.len() as int) =~= s);
    } else {
        assert(s.take(i) =~= s);
    }
}

fn digit_char(d: u8) -> (r: char)
    requires
        d < 10,
    ensures
        r == dec_digit(d as int),
{
    (48 + d) as char
}

/// Decimal rendering of an unsigned number.
pub fn u64_to_string(n: u64) -> (r: String)
    ensures
        r@ == dec_str(n as nat),
    decreases n,
{
    if n < 10 {
        let mut s = String::new();
        push_char(&mut s, digit_char(n as u8));
        proof {
            assert(s@ =~= dec_str(n as nat));
        }
        s
    } else {
        let mut s = u64_to_string(n / 10);
        push_char(&mut s, digit_char((n % 10) as u8));
        s
    }
}

/// Parse a decimal port number; `None` on empty input, a non-digit, or
/// a value above `u16::MAX`.
pub fn parse_u16(s: &str) -> (r: Option<u16>)
    ensures
        r is Some <==> s@.len() > 0 && all_digits(s@) && dec_val(s@) <= u16::MAX,
        r is Some ==> r->0 == dec_val(s@),
{
    let n = s.unicode_len();
    if n == 0 {
        return None;
    }
    let mut acc: u32 = 0;
    let mut i: usize = 0;
    while i < n
        invariant
            n == s@.len(),
            0 < n,
            i <= n,
            all_digits(s@.take(i as int)),
            acc == dec_val(s@.take(i as int)),
            acc <= u16::MAX,
        decreases n - i,
    {
        let c = s.get_char(i);
        if !('0' <= c && c <= '9') {
            return None;
        }
        let d: u32 = c as u32 - 48;
        acc = acc * 10 + d;
        proof {
            assert(s@.take(i + 1 as int).drop_last() =~= s@.take(i as int));
            assert(all_digits(s@.take(i + 1 as int)));
            assert(acc == dec_val(s@.take(i + 1 as int)));
        }
        i += 1;
        if acc > 65535 {
            proof {
                assert(s@.take(i as int).len() > 0);
                if all_digits(s@) {
                    lemma_dec_val_prefix(s@, i as int);
                }
            }
            return None;
        }
    }
    proof {
        assert(s@.take(n as int) =~= s@);
    }
    Some(acc as u16)
}

/// Parse a decimal process id; `None` on empty input, a non-digit, or
/// a value above `u32::MAX`.
pub fn parse_u32(s: &str) -> (r: Option<u32>)
    ensures
        r is Some <==> s@.len() > 0 && all_digits(s@) && dec_val(s@) <= u32::MAX,
        r is Some ==> r->0 == dec_val(s@),
{
    let n = s.unicode_len();
    if n == 0 {
        return None;
    }
    let mut acc: u64 = 0;
    let mut i: usize = 0;
    while i < n
        invariant
            n == s@.len(),
            0 < n,
            i <= n,
            all_digits(s@.take(i as int)),
            acc == dec_val(s@.take(i as int)),
            acc <= u32::MAX,
        decreases n - i,
    {
        let c = s.get_char(i);
        if !('0' <= c && c <= '9') {
            return None;
        }
        let d: u64 = c as u64 - 48;
        acc = acc * 10 + d;
        proof {
            assert(s@.take(i + 1 as int).drop_last() =~= s@.take(i as int));
            assert(all_digits(s@.take(i + 1 as int)));
            assert(acc == dec_val(s@.take(i + 1 as int)));
        }
        i += 1;
        if acc > 0xFFFF_FFFF {
            proof {
                assert(s@.take(i as int).len() > 0);
                if all_digits(s@) {
                    lemma_dec_val_prefix(s@, i as int);
                }
            }
            return None;
        }
    }
    proof {
        assert(s@.take(n as int) =~= s@);
    }
    Some(acc as u32)
}

// ---------------------------------------------------------------------------
// Searching
// ---------------------------------------------------------------------------

/// First position of `sep` in `s`, if any.
pub fn find_char(s: &str, sep: char) -> (r: Option<usize>)
    ensures
        find_idx(s@, sep) < s@.len() ==> r == Some(find_idx(s@, sep) as usize),
        find_idx(s@, sep) >= s@.len() ==> r is None,
{
    let n = s.unicode_len();
    let mut i: usize = 0;
    proof {
        lemma_find_idx(s@, sep);
    }
    while i < n
        invariant
            n == s@.len(),
            i <= n,
            forall|j: int| 0 <= j < i ==> s@[j] != sep,
            0 <= find_idx(s@, sep) <= s@.len(),
            forall|j: int| 0 <= j < find_idx(s@, sep) ==> s@[j] != sep,
            find_idx(s@, sep) < s@.len() ==> s@[find_idx(s@, sep)] == sep,
        decreases n - i,
    {
        if s.get_char(i) == sep {
            proof {
                assert(find_idx(s@, sep) == i);
            }
            return Some(i);
        }
        i += 1;
    }
    proof {
        lemma_find_idx_absent(s@, sep);
    }
    None
}

/// Whether `needle` occurs in `hay` starting at position `at`.
pub open spec fn occurs_at(hay: Seq<char>, needle: Seq<char>, at: int) -> bool {
    0 <= at && at + needle.len() <= hay.len() && hay.subrange(at, at + needle.len()) == needle
}

/// Whether `needle` occurs anywhere in `hay`.
pub open spec fn contains_seq(hay: Seq<char>, needle: Seq<char>) -> bool {
    exists|at: int| occurs_at(hay, needle, at)
}

/// Substring search.
pub fn contains_str(hay: &str, needle: &str) -> (r: bool)
    ensures
        r == contains_seq(hay@, needle@),
{
    let n = hay.unicode_len();
    let m = needle.unicode_len();
    if m > n {
        proof {
            assert(forall|at: int| !occurs_at(hay@, needle@, at));
        }
        return false;
    }
    let mut at: usize = 0;
    while at <= n - m
        invariant
            n == hay@.len(),
            m == needle@.len(),
            m <= n,
            at <= n - m + 1,
            forall|k: int| 0 <= k < at ==> !occurs_at(hay@, needle@, k),
        decreases n - at,
    {
        let mut j: usize = 0;
        let mut matched = true;
        while j < m && matched
            invariant
                n == hay@.len(),
                m == needle@.len(),
                at + m <= n,
                j <= m,
                matched <==> hay@.subrange(at as int, at + j as int) =~= needle@.take(j as int),
            decreases m - j,
        {
            proof {
                let a = hay@.subrange(at as int, at + j + 1 as int);
                let b = needle@.take(j + 1 as int);
                assert(a.drop_last() =~= hay@.subrange(at as int, at + j as int));
                assert(b.drop_last() =~= needle@.take(j as int));
                assert(a =~= a.drop_last().push(a.last()));
                assert(b =~= b.drop_last().push(b.last()));
            }
            if hay.get_char(at + j) != needle.get_char(j) {
                matched = false;
            }
            j += 1;
        }
        if matched {
            proof {
                assert(needle@.take(m as int) =~= needle@);
                assert(occurs_at(hay@, needle@, at as int));
            }
            return true;
        }
        proof {
            if occurs_at(hay@, needle@, at as int) {
                assert(hay@.subrange(at as int, at + m as int) == needle@);
                assert(hay@.subrange(at as int, at + j as int) =~= hay@.subrange(
                    at as int,
                    at + m as int,
                ).take(j as int));
                assert(hay@.subrange(at as int, at + j as int) =~= needle@.take(j as int));
                assert(false);
            }
        }
        at += 1;
    }
    proof {
        assert forall|k: int| !occurs_at(hay@, needle@, k) by {
            if occurs_at(hay@, needle@, k) {
                assert(0 <= k <= n - m);
            }
        }
    }
    false
}

// ---------------------------------------------------------------------------
// Trimming whitespace
// ---------------------------------------------------------------------------

/// ASCII whitespace.
pub open spec fn is_space(c: char) -> bool {
    c == ' ' || c == '\t' || c == '\n' || c == '\r'
}

pub open spec fn trim_start_spec(s: Seq<char>) -> Seq<char>
    decreases s.len(),
{
    if s.len() > 0 && is_space(s[0]) {
        trim_start_spec(s.drop_first())
    } else {
        s
    }
}

pub open spec fn trim_end_spec(s: Seq<char>) -> Seq<char>
    decreases s.len(),
{
    if s.len() > 0 && is_space(s.last()) {
        trim_end_spec(s.drop_last())
    } else {
        s
    }
}

/// Both ends trimmed of ASCII whitespace.
pub open spec fn trim_spec(s: Seq<char>) -> Seq<char> {
    trim_end_spec(trim_start_spec(s))
}

/// Trimming never lengthens.
pub proof fn lemma_trim_start_len(s: Seq<char>)
    ensures
        trim_start_spec(s).len() <= s.len(),
    decreases s.len(),
{
    if s.len() > 0 && is_space(s[0]) {
        lemma_trim_start_len(s.drop_first());
    }
}

pub proof fn lemma_trim_end_len(s: Seq<char>)
    ensures
        trim_end_spec(s).len() <= s.len(),
    decreases s.len(),
{
    if s.len() > 0 && is_space(s.last()) {
        lemma_trim_end_len(s.drop_last());
    }
}

pub proof fn lemma_trim_len(s: Seq<char>)
    ensures
        trim_spec(s).len() <= s.len(),
{
    lemma_trim_start_len(s);
    lemma_trim_end_len(trim_start_spec(s));
}

/// Trimming leaves a line alone when its ends are not whitespace.
pub proof fn lemma_trim_id(s: Seq<char>)
    requires
        s.len() == 0 || (!is_space(s[0]) && !is_space(s.last())),
    ensures
        trim_spec(s) == s,
{
    assert(trim_start_spec(s) == s);
    assert(trim_end_spec(s) == s);
}

/// Whether the character is ASCII whitespace.
pub fn space_char(c: char) -> (r: bool)
    ensures
        r == is_space(c),
{
    c == ' ' || c == '\t' || c == '\n' || c == '\r'
}

/// Drop trailing ASCII whitespace.
#[verifier::loop_isolation(false)]
pub fn trim_end_str(s: &str) -> (r: String)
    ensures
        r@ == trim_end_spec(s@),
{
    let n = s.unicode_len();
    let mut b: usize = n;
    proof {
        assert(s@.take(n as int) =~= s@);
    }
    while b > 0
        invariant
            b <= n,
            trim_end_spec(s@) == trim_end_spec(s@.take(b as int)),
        decreases b,
    {
        let c = s.get_char(b - 1);
        if !(c == ' ' || c == '\t' || c == '\n' || c == '\r') {
            proof {
                assert(s@.take(b as int).last() == c);
                assert(trim_end_spec(s@.take(b as int)) == s@.take(b as int));
            }
            return substring(s, 0, b);
        }
        proof {
            assert(s@.take(b as int).last() == c);
            assert(s@.take(b as int).drop_last() =~= s@.take(b - 1 as int));
        }
        b -= 1;
    }
    proof {
        assert(s@.take(0) =~= Seq::<char>::empty());
        assert(trim_end_spec(Seq::<char>::empty()) == Seq::<char>::empty());
    }
    String::new()
}

/// Trim ASCII whitespace from both ends.
#[verifier::loop_isolation(false)]
pub fn trim_str(s: &str) -> (r: String)
    ensures
        r@ == trim_spec(s@),
{
    let n = s.unicode_len();
    let mut a: usize = 0;
    proof {
        assert(s@.skip(0) =~= s@);
    }
    while a < n && space_char(s.get_char(a))
        invariant
            a <= n,
            trim_start_spec(s@) == trim_start_spec(s@.skip(a as int)),
        decreases n - a,
    {
        proof {
            assert(s@.skip(a as int)[0] == s@[a as int]);
            assert(s@.skip(a as int).drop_first() =~= s@.skip(a + 1 as int));
        }
        a += 1;
    }
    proof {
        if a >= n {
            assert(s@.skip(a as int).len() == 0);
            assert(trim_start_spec(s@) =~= s@.skip(a as int));
        } else {
            assert(s@.skip(a as int)[0] == s@[a as int]);
            assert(trim_start_spec(s@) == s@.skip(a as int));
        }
    }
    let tail = substring(s, a, n);
    proof {
        assert(tail@ =~= s@.skip(a as int));
    }
    trim_end_str(tail.as_str())
}

// ---------------------------------------------------------------------------
// Whitespace outside quoted strings
// ---------------------------------------------------------------------------

/// Whether reading `s` from the state `q0` ends inside a quoted
/// string: each double quote flips the state.
pub open spec fn quote_flip(s: Seq<char>, q0: bool) -> bool
    decreases s.len(),
{
    if s.len() == 0 {
        q0
    } else {
        quote_flip(s.drop_first(), if s[0] == '"' {
            !q0
        } else {
            q0
        })
    }
}

/// The text with ASCII whitespace outside quoted strings removed.
pub open spec fn strip_unquoted_ws(s: Seq<char>, q0: bool) -> Seq<char>
    decreases s.len(),
{
    if s.len() == 0 {
        Seq::empty()
    } else if !q0 && s[0] != '"' && is_space(s[0]) {
        strip_unquoted_ws(s.drop_first(), q0)
    } else {
        seq![s[0]] + strip_unquoted_ws(s.drop_first(), if s[0] == '"' {
            !q0
        } else {
            q0
        })
    }
}

/// One character's effect on the state and the kept text.
pub proof fn lemma_strip_single(c: char, q0: bool)
    ensures
        quote_flip(seq![c], q0) == (if c == '"' {
            !q0
        } else {
            q0
        }),
        strip_unquoted_ws(seq![c], q0) == (if !q0 && c != '"' && is_space(c) {
            Seq::<char>::empty()
        } else {
            seq![c]
        }),
{
    assert(seq![c].drop_first() =~= Seq::<char>::empty());
    assert(quote_flip(Seq::<char>::empty(), if c == '"' {
        !q0
    } else {
        q0
    }) == (if c == '"' {
        !q0
    } else {
        q0
    }));
    assert(strip_unquoted_ws(Seq::<char>::empty(), if c == '"' {
        !q0
    } else {
        q0
    }) =~= Seq::<char>::empty());
    if !(!q0 && c != '"' && is_space(c)) {
        assert(strip_unquoted_ws(seq![c], q0) =~= seq![c]);
    }
}

pub proof fn lemma_quote_flip_concat(a: Seq<char>, b: Seq<char>, q0: bool)
    ensures
        quote_flip(a + b, q0) == quote_flip(b, quote_flip(a, q0)),
    decreases a.len(),
{
    if a.len() == 0 {
        assert(a + b =~= b);
    } else {
        assert((a + b)[0] == a[0]);
        assert((a + b).drop_first() =~= a.drop_first() + b);
        lemma_quote_flip_concat(a.drop_first(), b, if a[0] == '"' {
            !q0
        } else {
            q0
        });
    }
}

pub proof fn lemma_strip_concat(a: Seq<char>, b: Seq<char>, q0: bool)
    ensures
        strip_unquoted_ws(a + b, q0) == strip_unquoted_ws(a, q0) + strip_unquoted_ws(
            b,
            quote_flip(a, q0),
        ),
    decreases a.len(),
{
    if a.len() == 0 {
        assert(a + b =~= b);
        assert(strip_unquoted_ws(a, q0) =~= Seq::<char>::empty());
        assert(strip_unquoted_ws(a + b, q0) =~= strip_unquoted_ws(a, q0) + strip_unquoted_ws(
            b,
            quote_flip(a, q0),
        ));
    } else {
        assert((a + b)[0] == a[0]);
        assert((a + b).drop_first() =~= a.drop_first() + b);
        lemma_strip_concat(a.drop_first(), b, if a[0] == '"' {
            !q0
        } else {
            q0
        });
        assert(strip_unquoted_ws(a + b, q0) =~= strip_unquoted_ws(a, q0) + strip_unquoted_ws(
            b,
            quote_flip(a, q0),
        ));
    }
}

/// A space-free segment is kept whole; without quotes the state is
/// unchanged.
pub proof fn lemma_strip_nospace(s: Seq<char>, q0: bool)
    requires
        forall|i: int| 0 <= i < s.len() ==> !is_space(#[trigger] s[i]),
    ensures
        strip_unquoted_ws(s, q0) == s,
    decreases s.len(),
{
    if s.len() > 0 {
        lemma_strip_nospace(s.drop_first(), if s[0] == '"' {
            !q0
        } else {
            q0
        });
        assert(strip_unquoted_ws(s, q0) =~= s);
    }
}

pub proof fn lemma_quote_flip_noquote(s: Seq<char>, q0: bool)
    requires
        forall|i: int| 0 <= i < s.len() ==> #[trigger] s[i] != '"',
    ensures
        quote_flip(s, q0) == q0,
    decreases s.len(),
{
    if s.len() > 0 {
        lemma_quote_flip_noquote(s.drop_first(), q0);
    }
}

/// Inside a quoted string every character is kept.
pub proof fn lemma_strip_inquote(s: Seq<char>)
    requires
        forall|i: int| 0 <= i < s.len() ==> #[trigger] s[i] != '"',
    ensures
        strip_unquoted_ws(s, true) == s,
        quote_flip(s, true),
    decreases s.len(),
{
    if s.len() > 0 {
        lemma_strip_inquote(s.drop_first());
        assert(strip_unquoted_ws(s, true) =~= s);
    }
}

/// A quoted segment with quote-free content is kept whole and leaves
/// the state outside a string.
pub proof fn lemma_strip_quoted(p: Seq<char>)
    requires
        forall|i: int| 0 <= i < p.len() ==> #[trigger] p[i] != '"',
    ensures
        strip_unquoted_ws(quoted(p), false) == quoted(p),
        quote_flip(quoted(p), false) == false,
{
    let q = quoted(p);
    assert(q[0] == '"');
    assert(q.drop_first() =~= p + seq!['"']);
    lemma_strip_inquote(p);
    lemma_quote_flip_noquote(p, true);
    lemma_strip_concat(p, seq!['"'], true);
    lemma_quote_flip_concat(p, seq!['"'], true);
    lemma_strip_single('"', true);
    assert(strip_unquoted_ws(q, false) =~= q);
    assert(quote_flip(q, false) == quote_flip(q.drop_first(), true));
}

/// Remove ASCII whitespace outside quoted strings.
#[verifier::loop_isolation(false)]
pub fn strip_unquoted(s: &str) -> (r: String)
    ensures
        r@ == strip_unquoted_ws(s@, false),
{
    let n = s.unicode_len();
    let mut out = String::new();
    let mut q = false;
    let mut i: usize = 0;
    proof {
        assert(s@.take(0) =~= Seq::<char>::empty());
        assert(out@ =~= strip_unquoted_ws(s@.take(0), false));
    }
    while i < n
        invariant
            i <= n,
            out@ == strip_unquoted_ws(s@.take(i as int), false),
            q == quote_flip(s@.take(i as int), false),
        decreases n - i,
    {
        let c = s.get_char(i);
        proof {
            let pre = s@.take(i as int);
            let next = s@.take(i + 1 as int);
            assert(next =~= pre + seq![c]);
            lemma_strip_concat(pre, seq![c], false);
            lemma_quote_flip_concat(pre, seq![c], false);
        }
        proof {
            lemma_strip_single(c, quote_flip(s@.take(i as int), false));
        }
        if c == '"' {
            push_char(&mut out, c);
            q = !q;
        } else if !q && (c == ' ' || c == '\t' || c == '\n' || c == '\r') {
        } else {
            push_char(&mut out, c);
        }
        i += 1;
    }
    proof {
        assert(s@.take(n as int) =~= s@);
    }
    out
}

// ---------------------------------------------------------------------------
// Lexicographic order and sorting by a string key
// ---------------------------------------------------------------------------

/// Strict lexicographic order on character sequences, by code point.
pub open spec fn seq_lt(a: Seq<char>, b: Seq<char>) -> bool
    decreases a.len(),
{
    if a.len() == 0 {
        b.len() > 0
    } else if b.len() == 0 {
        false
    } else if a[0] != b[0] {
        (a[0] as u32) < (b[0] as u32)
    } else {
        seq_lt(a.drop_first(), b.drop_first())
    }
}

pub proof fn lemma_seq_lt_asym(a: Seq<char>, b: Seq<char>)
    requires
        seq_lt(a, b),
    ensures
        !seq_lt(b, a),
    decreases a.len(),
{
    if a.len() != 0 && b.len() != 0 && a[0] == b[0] {
        lemma_seq_lt_asym(a.drop_first(), b.drop_first());
    }
}

pub proof fn lemma_seq_lt_trans(a: Seq<char>, b: Seq<char>, c: Seq<char>)
    requires
        seq_lt(a, b),
        seq_lt(b, c),
    ensures
        seq_lt(a, c),
    decreases a.len(),
{
    if a.len() != 0 && b.len() != 0 && c.len() != 0 && a[0] == b[0] && b[0] == c[0] {
        lemma_seq_lt_trans(a.drop_first(), b.drop_first(), c.drop_first());
    }
}

/// Strict lexicographic comparison of two slices.
pub fn str_lt(a: &str, b: &str) -> (r: bool)
    ensures
        r == seq_lt(a@, b@),
{
    let na = a.unicode_len();
    let nb = b.unicode_len();
    let mut i: usize = 0;
    proof {
        assert(a@.skip(0) =~= a@);
        assert(b@.skip(0) =~= b@);
    }
    while i < na && i < nb
        invariant
            na == a@.len(),
            nb == b@.len(),
            i <= na,
            i <= nb,
            forall|j: int| 0 <= j < i ==> a@[j] == b@[j],
            seq_lt(a@, b@) == seq_lt(a@.skip(i as int), b@.skip(i as int)),
        decreases na - i,
    {
        let ca = a.get_char(i);
        let cb = b.get_char(i);
        proof {
            assert(a@.skip(i as int)[0] == ca);
            assert(b@.skip(i as int)[0] == cb);
            assert(a@.skip(i as int).drop_first() =~= a@.skip(i + 1 as int));
            assert(b@.skip(i as int).drop_first() =~= b@.skip(i + 1 as int));
        }
        if ca != cb {
            return (ca as u32) < (cb as u32);
        }
        i += 1;
    }
    proof {
        if i >= na {
            assert(a@.skip(i as int).len() == 0);
        } else {
            assert(b@.skip(i as int).len() == 0);
        }
    }
    na < nb
}

/// Pairwise sortedness of `(key, value)` pairs by key.
pub open spec fn sorted_pairs<T>(s: Seq<(String, T)>) -> bool {
    forall|i: int, j: int|
        0 <= i < j < s.len() ==> !seq_lt((#[trigger] s[j]).0@, (#[trigger] s[i]).0@)
}

/// Insertion sort of `(key, value)` pairs by key.
pub fn sort_by_key<T>(v: Vec<(String, T)>) -> (r: Vec<(String, T)>)
    ensures
        r@.to_multiset() == v@.to_multiset(),
        sorted_pairs(r@),
{
    let mut rest = v;
    let mut out: Vec<(String, T)> = Vec::new();
    proof {
        broadcast use vstd::multiset::group_multiset_axioms;

        out@.to_multiset_ensures();
        vstd::multiset::lemma_multiset_empty_len::<(String, T)>(out@.to_multiset());
        assert(out@.to_multiset().len() == 0);
        assert(out@.to_multiset().add(rest@.to_multiset()) =~= v@.to_multiset());
    }
    while rest.len() > 0
        invariant
            out@.to_multiset().add(rest@.to_multiset()) == v@.to_multiset(),
            sorted_pairs(out@),
        decreases rest.len(),
    {
        let ghost old_rest = rest@;
        let ghost old_out = out@;
        let x = rest.remove(0);
        let ghost xg = x;
        proof {
            old_rest.to_multiset_ensures();
            assert(rest@ == old_rest.remove(0));
            assert(rest@.to_multiset() == old_rest.to_multiset().remove(xg));
        }
        let mut p: usize = 0;
        while p < out.len() && !str_lt(x.0.as_str(), out[p].0.as_str())
            invariant
                p <= out@.len(),
                forall|k: int| 0 <= k < p ==> !seq_lt(x.0@, (#[trigger] out@[k]).0@),
            decreases out@.len() - p,
        {
            p += 1;
        }
        proof {
            if p < out@.len() {
                lemma_seq_lt_asym(x.0@, out@[p as int].0@);
                assert forall|k: int| p <= k < out@.len() implies !seq_lt(
                    (#[trigger] out@[k]).0@,
                    x.0@,
                ) by {
                    if seq_lt(out@[k].0@, x.0@) {
                        lemma_seq_lt_trans(out@[k].0@, x.0@, out@[p as int].0@);
                    }
                }
            }
        }
        let ghost prev = out@;
        out.insert(p, x);
        proof {
            assert(out@ =~= prev.take(p as int) + seq![xg] + prev.skip(p as int));
            vstd::seq_lib::lemma_multiset_commutative(
                prev.take(p as int) + seq![xg],
                prev.skip(p as int),
            );
            vstd::seq_lib::lemma_multiset_commutative(prev.take(p as int), seq![xg]);
            vstd::seq_lib::lemma_multiset_commutative(prev.take(p as int), prev.skip(p as int));
            assert(prev.take(p as int) + prev.skip(p as int) =~= prev);
            seq![xg].to_multiset_ensures();
            assert(seq![xg] =~= Seq::<(String, T)>::empty().push(xg));
            Seq::<(String, T)>::empty().to_multiset_ensures();
            assert(seq![xg].to_multiset() =~= vstd::multiset::Multiset::<(
                String,
                T,
            )>::empty().insert(xg));
            assert(out@.to_multiset() =~= prev.to_multiset().insert(xg));
            assert(out@.to_multiset().add(rest@.to_multiset()) =~= v@.to_multiset());
            assert forall|i: int, j: int|
                0 <= i < j < out@.len() implies !seq_lt(
                (#[trigger] out@[j]).0@,
                (#[trigger] out@[i]).0@,
            ) by {
                if i < p && j == p {
                    assert(out@[i] == prev[i]);
                } else if i == p && j > p {
                    assert(out@[j] == prev[j - 1]);
                } else if j < p {
                    assert(out@[i] == prev[i] && out@[j] == prev[j]);
                } else if i < p && j > p {
                    assert(out@[i] == prev[i] && out@[j] == prev[j - 1]);
                } else if i > p {
                    assert(out@[i] == prev[i - 1] && out@[j] == prev[j - 1]);
                }
            }
        }
    }
    proof {
        broadcast use vstd::multiset::group_multiset_axioms;

        rest@.to_multiset_ensures();
        vstd::multiset::lemma_multiset_empty_len::<(String, T)>(rest@.to_multiset());
        assert(rest@.to_multiset().len() == 0);
        assert(out@.to_multiset() =~= v@.to_multiset());
    }
    out
}

/// Inserting an element anywhere adds it to the multiset.
pub proof fn lemma_multiset_insert_at<A>(s: Seq<A>, i: int, x: A)
    requires
        0 <= i <= s.len(),
    ensures
        s.insert(i, x).to_multiset() == s.to_multiset().insert(x),
{
    broadcast use vstd::multiset::group_multiset_axioms;

    assert(s.insert(i, x) =~= s.take(i) + seq![x] + s.skip(i));
    vstd::seq_lib::lemma_multiset_commutative(s.take(i) + seq![x], s.skip(i));
    vstd::seq_lib::lemma_multiset_commutative(s.take(i), seq![x]);
    vstd::seq_lib::lemma_multiset_commutative(s.take(i), s.skip(i));
    assert(s.take(i) + s.skip(i) =~= s);
    seq![x].to_multiset_ensures();
    assert(seq![x] =~= Seq::<A>::empty().push(x));
    Seq::<A>::empty().to_multiset_ensures();
    assert(seq![x].to_multiset() =~= vstd::multiset::Multiset::<A>::empty().insert(x));
    assert(s.insert(i, x).to_multiset() =~= s.to_multiset().insert(x));
}

/// Two lists with equal multisets keep equal multisets after mapping
/// each element.
pub proof fn lemma_multiset_map_values<A, B>(a: Seq<A>, b: Seq<A>, f: spec_fn(A) -> B)
    requires
        a.to_multiset() == b.to_multiset(),
    ensures
        a.map_values(f).to_multiset() == b.map_values(f).to_multiset(),
    decreases a.len(),
{
    broadcast use vstd::seq_lib::group_to_multiset_ensures;
    broadcast use vstd::multiset::group_multiset_axioms;

    if a.len() == 0 {
        a.to_multiset_ensures();
        b.to_multiset_ensures();
        vstd::multiset::lemma_multiset_empty_len(a.to_multiset());
        assert(b.len() == 0);
        assert(a.map_values(f) =~= Seq::<B>::empty());
        assert(b.map_values(f) =~= Seq::<B>::empty());
    } else {
        let x = a.last();
        a.to_multiset_ensures();
        b.to_multiset_ensures();
        assert(a.to_multiset().count(x) > 0);
        assert(b.to_multiset().count(x) > 0);
        assert(b.contains(x));
        let bi = choose|bi: int| 0 <= bi < b.len() && b[bi] == x;
        let a1 = a.drop_last();
        let b1 = b.remove(bi);
        assert(a =~= a1.push(x));
        assert(a1.push(x).to_multiset() == a1.to_multiset().insert(x));
        assert(b1.to_multiset() == b.to_multiset().remove(x));
        assert(a1.to_multiset() =~= b1.to_multiset());
        lemma_multiset_map_values(a1, b1, f);
        assert(a.map_values(f) =~= a1.map_values(f).push(f(x)));
        assert(a.map_values(f).to_multiset() == a1.map_values(f).to_multiset().insert(f(x)));
        assert(b.map_values(f) =~= b1.map_values(f).insert(bi, f(x)));
        lemma_multiset_insert_at(b1.map_values(f), bi, f(x));
        assert(b.map_values(f).to_multiset() =~= b1.map_values(f).to_multiset().insert(f(x)));
        assert(a.map_values(f).to_multiset() =~= b.map_values(f).to_multiset());
    }
}

// ---------------------------------------------------------------------------
// Line-oriented text
// ---------------------------------------------------------------------------

/// The text of a file made of `lines`, each terminated by a newline.
pub open spec fn lines_text(lines: Seq<Seq<char>>) -> Seq<char>
    decreases lines.len(),
{
    if lines.len() == 0 {
        Seq::empty()
    } else {
        lines[0] + seq!['\n'] + lines_text(lines.drop_first())
    }
}

pub proof fn lemma_lines_text_push(lines: Seq<Seq<char>>, x: Seq<char>)
    ensures
        lines_text(lines.push(x)) == lines_text(lines) + x + seq!['\n'],
    decreases lines.len(),
{
    if lines.len() == 0 {
        assert(lines.push(x).drop_first() =~= Seq::<Seq<char>>::empty());
        assert(lines.push(x)[0] == x);
        assert(lines_text(lines.push(x)) == x + seq!['\n'] + lines_text(
            Seq::<Seq<char>>::empty(),
        ));
        assert(lines_text(lines.push(x)) =~= x + seq!['\n']);
        assert(lines_text(lines) + x + seq!['\n'] =~= x + seq!['\n']);
    } else {
        assert(lines.push(x).drop_first() =~= lines.drop_first().push(x));
        lemma_lines_text_push(lines.drop_first(), x);
        assert(lines_text(lines.push(x)) =~= lines_text(lines) + x + seq!['\n']);
    }
}

/// The lines of a text, each trimmed of surrounding whitespace: what
/// the config parsers classify.
pub open spec fn trimmed_lines(s: Seq<char>) -> Seq<Seq<char>> {
    split_seq(s, '\n').map_values(|l: Seq<char>| trim_spec(l))
}

/// Splitting newline-terminated lines yields the lines plus one empty piece.
pub proof fn lemma_split_lines_text(lines: Seq<Seq<char>>)
    requires
        forall|k: int, j: int|
            0 <= k < lines.len() && 0 <= j < lines[k].len() ==> #[trigger] lines[k][j] != '\n',
    ensures
        split_seq(lines_text(lines), '\n') == lines.push(Seq::empty()),
    decreases lines.len(),
{
    if lines.len() == 0 {
        assert(lines_text(lines) =~= Seq::<char>::empty());
        assert(split_seq(Seq::empty(), '\n') =~= seq![Seq::<char>::empty()]);
        assert(lines.push(Seq::empty()) =~= seq![Seq::<char>::empty()]);
    } else {
        let text = lines_text(lines);
        let rest = lines_text(lines.drop_first());
        assert(text =~= lines[0] + seq!['\n'] + rest);
        lemma_find_idx_concat(lines[0], rest, '\n');
        let i = find_idx(text, '\n');
        assert(i == lines[0].len());
        assert(text.take(i) =~= lines[0]);
        assert(text.skip(i + 1) =~= rest);
        lemma_split_lines_text(lines.drop_first());
        assert(split_seq(text, '\n') =~= seq![lines[0]] + lines.drop_first().push(Seq::empty()));
        assert(seq![lines[0]] + lines.drop_first().push(Seq::empty()) =~= lines.push(Seq::empty()));
    }
}

/// A quoted string: the content between double quotes.
pub open spec fn quoted(s: Seq<char>) -> Seq<char> {
    seq!['"'] + s + seq!['"']
}

/// Text that may stand between quotes or on a single line of a config
/// file: no double quote and no newline.
pub open spec fn text_safe(s: Seq<char>) -> bool {
    forall|i: int| 0 <= i < s.len() ==> #[trigger] s[i] != '"' && s[i] != '\n'
}

/// Whether a slice is free of double quotes and newlines, so it can
/// stand between quotes or on one line of a config file.
pub fn is_text_safe(s: &str) -> (r: bool)
    ensures
        r == text_safe(s@),
{
    let n = s.unicode_len();
    let mut i: usize = 0;
    while i < n
        invariant
            n == s@.len(),
            i <= n,
            forall|j: int| 0 <= j < i ==> #[trigger] s@[j] != '"' && s@[j] != '\n',
        decreases n - i,
    {
        let c = s.get_char(i);
        if c == '"' || c == '\n' {
            return false;
        }
        i += 1;
    }
    true
}

/// Append `other` onto `s`.
pub fn append_str(s: &mut String, other: &str)
    ensures
        final(s)@ == old(s)@ + other@,
{
    s.append(other);
}

/// Substring of a slice by character positions, as an owned string.
pub fn substring(s: &str, from: usize, to: usize) -> (r: String)
    requires
        from <= to <= s@.len(),
    ensures
        r@ == s@.subrange(from as int, to as int),
{
    String::from_str(s.substring_char(from, to))
}

/// Split an ASCII-friendly slice at every occurrence of `sep`.
pub fn split_str(s: &str, sep: char) -> (r: Vec<String>)
    ensures
        r.deep_view() == split_seq(s@, sep),
{
    let n = s.unicode_len();
    let mut out: Vec<String> = Vec::new();
    let mut start: usize = 0;
    let mut i: usize = 0;
    proof {
        assert(s@.skip(0) =~= s@);
        assert(out.deep_view() =~= Seq::<Seq<char>>::empty());
    }
    while i < n
        invariant
            n == s@.len(),
            start <= i <= n,
            forall|j: int| start <= j < i ==> s@[j] != sep,
            out.deep_view() + split_seq(s@.skip(start as int), sep) =~= split_seq(s@, sep),
        decreases n - i,
    {
        let c = s.get_char(i);
        if c == sep {
            let piece = substring(s, start, i);
            proof {
                let tail = s@.skip(start as int);
                assert(tail =~= piece@ + seq![sep] + s@.skip(i + 1 as int));
                lemma_find_idx_concat(piece@, s@.skip(i + 1 as int), sep);
                assert(tail.take(piece@.len() as int) =~= piece@);
                assert(tail.skip(piece@.len() + 1 as int) =~= s@.skip(i + 1 as int));
                assert(split_seq(tail, sep) =~= seq![piece@] + split_seq(
                    s@.skip(i + 1 as int),
                    sep,
                ));
            }
            out.push(piece);
            proof {
                assert(out.deep_view() + split_seq(s@.skip(i + 1 as int), sep) =~= split_seq(
                    s@,
                    sep,
                ));
            }
            start = i + 1;
        }
        i += 1;
    }
    let piece = substring(s, start, n);
    proof {
        let tail = s@.skip(start as int);
        assert(tail =~= piece@);
        lemma_find_idx_absent(tail, sep);
        assert(split_seq(tail, sep) =~= seq![piece@]);
    }
    out.push(piece);
    proof {
        assert(out.deep_view() =~= split_seq(s@, sep));
    }
    out
}

} // verus!
