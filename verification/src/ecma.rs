//! The capability boundary of ECMAScript modules: egress matching, the
//! gatekeeper mode, the loopback's request parsing and call gates, and the
//! generated workerd configuration.

use vstd::prelude::*;
use vstd::string::*;
use crate::module::GatekeeperMode;
use vstd::slice::slice_subrange;
use crate::cps::{utf8_lossy, string_from_utf8_lossy};
use crate::text::{
    chars_of, chars_eq, string_from_chars, find, find_bytes, find_chars, rfind, rfind_char, sub_chars,
    is_digit, digits_value, strings, first_where, lemma_first_where_at, is_ws, is_ws_char, not_ws, ws,
    trimmed, trim_chars, trim_start_chars, starts_with, contains_str, decimal, decimal_chars,
    signed_decimal, signed_decimal_chars,
};
use crate::auth::denied_message;
use crate::module::ModuleManifest;
use crate::symbols::{unfer_symbol_names, is_kernel_symbol};

verus! {

// ---------------------------------------------------------------------------
// Hosts and ports.

/// Whether every character of `s` is an ASCII decimal digit.
pub open spec fn all_digits(s: Seq<char>) -> bool {
    forall|i: int| 0 <= i < s.len() ==> is_digit(#[trigger] s[i])
}

/// `host[:port]` split at its last `:`. The port counts only when it is a
/// non-empty run of digits whose value fits in a `u16`; otherwise the whole
/// input is the host and there is no port.
pub open spec fn host_port(hp: Seq<char>) -> (Seq<char>, Option<u16>) {
    match rfind(hp, ':') {
        Some(i) => {
            let port = hp.subrange(i + 1, hp.len() as int);
            if port.len() > 0 && all_digits(port) && digits_value(port) <= 65535 {
                (hp.subrange(0, i), Some(digits_value(port) as u16))
            } else {
                (hp, None)
            }
        },
        None => (hp, None),
    }
}

/// The value of a run of digits, or `None` once it exceeds `limit`.
fn digits_up_to(s: &Vec<char>, from: usize, limit: u64) -> (r: Option<u64>)
    requires
        from <= s.len(),
        all_digits(s@.subrange(from as int, s.len() as int)),
    ensures
        match r {
            Some(v) => v == digits_value(s@.subrange(from as int, s.len() as int)) && v <= limit,
            None => digits_value(s@.subrange(from as int, s.len() as int)) > limit,
        },
{
    let mut v: u64 = 0;
    let mut i = from;
    while i < s.len()
        invariant
            from <= i <= s.len(),
            all_digits(s@.subrange(from as int, s.len() as int)),
            v == digits_value(s@.subrange(from as int, i as int)),
            v <= limit,
        decreases s.len() - i,
    {
        let ghost prefix = s@.subrange(from as int, i as int);
        let ghost next = s@.subrange(from as int, i + 1);
        assert(next.drop_last() =~= prefix);
        assert(next.last() == s@[i as int]);
        assert(is_digit(s@.subrange(from as int, s.len() as int)[i - from]));
        let d = (s[i] as u32 - '0' as u32) as u64;
        let next_v = match v.checked_mul(10) {
            Some(m) => m.checked_add(d),
            None => None,
        };
        i = i + 1;
        let over = match next_v {
            Some(w) => { v = w; w > limit },
            None => true,
        };
        if over {
            proof {
                let whole = s@.subrange(from as int, s.len() as int);
                lemma_digits_grow(whole, i - from);
                assert(whole.subrange(0, i - from) =~= s@.subrange(from as int, i as int));
            }
            return None;
        }
    }
    assert(s@.subrange(from as int, i as int) =~= s@.subrange(from as int, s.len() as int));
    Some(v)
}

proof fn lemma_all_digits_push(t: Seq<char>, c: char)
    ensures
        all_digits(t.push(c)) == (all_digits(t) && is_digit(c)),
{
    if all_digits(t.push(c)) {
        assert forall|k: int| 0 <= k < t.len() implies is_digit(#[trigger] t[k]) by {
            assert(t.push(c)[k] == t[k]);
        }
        assert(t.push(c)[t.len() as int] == c);
    }
    if all_digits(t) && is_digit(c) {
        assert forall|k: int| 0 <= k < t.len() + 1 implies is_digit(#[trigger] t.push(c)[k]) by {
            if k < t.len() {
                assert(t.push(c)[k] == t[k]);
            }
        }
    }
}

/// The value of a run of digits is at least the value of any of its prefixes.
proof fn lemma_digits_grow(s: Seq<char>, k: int)
    requires
        0 <= k <= s.len(),
        all_digits(s),
    ensures
        digits_value(s.subrange(0, k)) <= digits_value(s),
    decreases s.len() - k,
{
    if k < s.len() {
        lemma_digits_grow(s, k + 1);
        let t = s.subrange(0, k + 1);
        assert(t.drop_last() =~= s.subrange(0, k));
        assert(is_digit(s[k]));
    } else {
        assert(s.subrange(0, k) =~= s);
    }
}

/// Splits `host[:port]`; see [`host_port`].
pub fn split_host_port(hostport: &str) -> (r: (String, Option<u16>))
    ensures
        r.0@ == host_port(hostport@).0,
        r.1 == host_port(hostport@).1,
{
    let s = chars_of(hostport);
    match rfind_char(&s, ':') {
        Some(i) => {
            let mut all = true;
            let mut j = i + 1;
            while j < s.len()
                invariant
                    i < s.len(),
                    i + 1 <= j <= s.len(),
                    all == all_digits(s@.subrange(i + 1, j as int)),
                decreases s.len() - j,
            {
                if !('0' <= s[j] && s[j] <= '9') {
                    all = false;
                }
                proof {
                    assert(s@.subrange(i + 1, j + 1) =~= s@.subrange(i + 1, j as int).push(s@[j as int]));
                    lemma_all_digits_push(s@.subrange(i + 1, j as int), s@[j as int]);
                }
                j = j + 1;
            }
            if i + 1 < s.len() && all {
                match digits_up_to(&s, i + 1, 65535) {
                    Some(p) => {
                        let host = string_from_chars(sub_chars(&s, 0, i).as_slice());
                        (host, Some(p as u16))
                    },
                    None => (hostport.to_owned(), None),
                }
            } else {
                (hostport.to_owned(), None)
            }
        },
        None => (hostport.to_owned(), None),
    }
}

/// Whether a grant `host[:port]` covers a requested `host[:port]`: the hosts
/// are equal, and a grant that names a port covers only a request for exactly
/// that port (a grant without a port covers every port of its host).
pub open spec fn grant_covers(grant: Seq<char>, request: Seq<char>) -> bool {
    let (gh, gp) = host_port(grant);
    let (rh, rp) = host_port(request);
    gh == rh && match gp {
        None => true,
        Some(a) => rp == Some(a),
    }
}

/// Whether egress to `host` is allowed by `allowlist`: exact host matching,
/// default deny (an empty host is never allowed).
pub open spec fn egress_permitted(host: Seq<char>, allowlist: Seq<Seq<char>>) -> bool {
    host.len() > 0 && exists|i: int| 0 <= i < allowlist.len() && grant_covers(#[trigger] allowlist[i], host)
}

/// Net-grant matching: whether egress to `host` (`host` or `host:port`) is on
/// the allowlist; see [`egress_permitted`].
pub fn egress_allowed(host: &str, allowlist: &[String]) -> (r: bool)
    ensures
        r == egress_permitted(host@, strings(allowlist@)),
{
    if host.unicode_len() == 0 {
        return false;
    }
    let (rh, rp) = split_host_port(host);
    let rhc = chars_of(rh.as_str());
    let mut i: usize = 0;
    while i < allowlist.len()
        invariant
            i <= allowlist.len(),
            host@.len() > 0,
            rhc@ == host_port(host@).0,
            rp == host_port(host@).1,
            forall|k: int| 0 <= k < i ==> !grant_covers(#[trigger] strings(allowlist@)[k], host@),
        decreases allowlist.len() - i,
    {
        let (gh, gp) = split_host_port(allowlist[i].as_str());
        let ghc = chars_of(gh.as_str());
        let ports_ok = match (gp, rp) {
            (None, _) => true,
            (Some(a), Some(b)) => a == b,
            (Some(_), None) => false,
        };
        assert(strings(allowlist@)[i as int] == allowlist@[i as int]@);
        if chars_eq(&ghc, &rhc) && ports_ok {
            return true;
        }
        i = i + 1;
    }
    false
}

/// The index of the first `/`, `?` or `#` in `s`, or its length.
pub open spec fn authority_end(s: Seq<char>) -> int
    decreases s.len(),
{
    if s.len() == 0 {
        0
    } else if s[0] == '/' || s[0] == '?' || s[0] == '#' {
        0
    } else {
        1 + authority_end(s.subrange(1, s.len() as int))
    }
}

/// The `host[:port]` of `scheme://host[:port][/path]`: what follows the first
/// `://` up to the first `/`, `?` or `#`; empty when there is no `://`.
pub open spec fn url_authority(url: Seq<char>) -> Seq<char> {
    match find(url, "://"@) {
        Some(i) => {
            let rest = url.subrange(i + 3, url.len() as int);
            rest.subrange(0, authority_end(rest))
        },
        None => seq![],
    }
}

proof fn lemma_authority_end(s: Seq<char>, k: int)
    requires
        0 <= k <= s.len(),
        forall|j: int| 0 <= j < k ==> !(s[j] == '/' || s[j] == '?' || s[j] == '#'),
    ensures
        k <= authority_end(s) <= s.len(),
        authority_end(s) == k + authority_end(s.subrange(k, s.len() as int)),
    decreases k,
{
    if k > 0 {
        let t = s.subrange(1, s.len() as int);
        assert forall|j: int| 0 <= j < k - 1 implies !(t[j] == '/' || t[j] == '?' || t[j] == '#') by {
            assert(t[j] == s[j + 1]);
        }
        lemma_authority_end(t, k - 1);
        assert(t.subrange(k - 1, t.len() as int) =~= s.subrange(k, s.len() as int));
    } else {
        assert(s.subrange(0, s.len() as int) =~= s);
        lemma_authority_end_bound(s);
    }
}

proof fn lemma_authority_end_bound(s: Seq<char>)
    ensures
        0 <= authority_end(s) <= s.len(),
    decreases s.len(),
{
    if s.len() > 0 && !(s[0] == '/' || s[0] == '?' || s[0] == '#') {
        lemma_authority_end_bound(s.subrange(1, s.len() as int));
    }
}

/// Extracts `host[:port]` from a URL; see [`url_authority`].
pub fn fetch_host(url: &str) -> (r: String)
    ensures
        r@ == url_authority(url@),
{
    let s = chars_of(url);
    let sep = chars_of("://");
    proof { reveal_strlit("://"); }
    match find_chars(&s, &sep) {
        Some(i) => {
            proof {
                crate::text::lemma_find_bounds(s@, sep@);
                assert(find(s@, sep@) == Some(i as int));
                assert(sep@.len() == 3);
                assert(i + 3 <= s.len());
            }
            let start = i + 3;
            let ghost rest = s@.subrange(start as int, s@.len() as int);
            let mut k = start;
            while k < s.len() && !(s[k] == '/' || s[k] == '?' || s[k] == '#')
                invariant
                    start <= k <= s.len(),
                    rest == s@.subrange(start as int, s@.len() as int),
                    forall|j: int| 0 <= j < k - start ==> !(rest[j] == '/' || rest[j] == '?' || rest[j] == '#'),
                decreases s.len() - k,
            {
                k = k + 1;
            }
            proof {
                lemma_authority_end(rest, k - start);
                if k < s.len() {
                    assert(rest.subrange(k - start, rest.len() as int)[0] == s@[k as int]);
                }
            }
            string_from_chars(sub_chars(&s, start, k).as_slice())
        },
        None => String::new(),
    }
}

/// Whether `host[:port]` names the loopback fixture host (`127.0.0.1`,
/// `localhost` or `::1`, compared after splitting off a port).
pub open spec fn loopback_host(host: Seq<char>) -> bool {
    let h = host_port(host).0;
    h == "127.0.0.1"@ || h == "localhost"@ || h == "::1"@
}

fn str_eq(a: &str, b: &str) -> (r: bool)
    ensures
        r == (a@ == b@),
{
    chars_eq(&chars_of(a), &chars_of(b))
}

/// Whether the offline fetch path may contact `host`; see [`loopback_host`].
pub fn is_loopback_host(host: &str) -> (r: bool)
    ensures
        r == loopback_host(host@),
{
    let (h, _) = split_host_port(host);
    str_eq(h.as_str(), "127.0.0.1") || str_eq(h.as_str(), "localhost") || str_eq(h.as_str(), "::1")
}

// ---------------------------------------------------------------------------
// The gatekeeper mode.

/// Whether `symbol` may submit a side effect under `mode`: only
/// `uk_action_submit` submits one, and only the `disabled` mode refuses it.
pub open spec fn side_effect_allowed(mode: GatekeeperMode, symbol: Seq<char>) -> bool {
    symbol != "uk_action_submit"@ || mode != GatekeeperMode::Disabled
}

/// Whether the gatekeeper mode lets `symbol` through; see [`side_effect_allowed`].
pub fn gatekeeper_mode_allows_side_effect(mode: GatekeeperMode, symbol: &str) -> (r: bool)
    ensures
        r == side_effect_allowed(mode, symbol@),
{
    if !str_eq(symbol, "uk_action_submit") {
        return true;
    }
    mode != GatekeeperMode::Disabled
}

// ---------------------------------------------------------------------------
// The workerd installation.

/// Where the workerd runtime lives: its binary and the directory that holds
/// `workerd.capnp`.
#[derive(Debug, Clone)]
pub struct WorkerdPaths {
    pub bin: String,
    pub import_dir: String,
}

impl WorkerdPaths {
    /// Path to the `workerd` binary.
    pub fn binary(&self) -> (r: &str)
        ensures
            r@ == self.bin@,
    {
        self.bin.as_str()
    }
}

// ---------------------------------------------------------------------------
// The loopback's HTTP request head.

/// The position of the blank line (`\r\n\r\n`) that ends an HTTP head.
pub open spec fn header_end(buf: Seq<u8>) -> Option<int> {
    find(buf, seq![13u8, 10u8, 13u8, 10u8])
}

/// Where the blank line that ends the request head starts; see [`header_end`].
pub fn find_header_end(buf: &[u8]) -> (r: Option<usize>)
    ensures
        r matches Some(i) ==> header_end(buf@) == Some(i as int),
        r is None ==> header_end(buf@) is None,
{
    let pat: Vec<u8> = vec![13u8, 10u8, 13u8, 10u8];
    proof { assert(pat@ =~= seq![13u8, 10u8, 13u8, 10u8]); }
    find_bytes(buf, pat.as_slice())
}

/// The index of the first `\n` in `b`, or its length.
pub open spec fn newline_at(b: Seq<u8>) -> int
    decreases b.len(),
{
    if b.len() == 0 {
        0
    } else if b[0] == 10 {
        0
    } else {
        1 + newline_at(b.subrange(1, b.len() as int))
    }
}

proof fn lemma_newline_at(b: Seq<u8>, k: int)
    requires
        0 <= k <= b.len(),
        forall|j: int| 0 <= j < k ==> b[j] != 10,
        k < b.len() ==> b[k] == 10,
    ensures
        newline_at(b) == k,
    decreases k,
{
    if k > 0 {
        let t = b.subrange(1, b.len() as int);
        assert forall|j: int| 0 <= j < k - 1 implies t[j] != 10 by {
            assert(t[j] == b[j + 1]);
        }
        if k - 1 < t.len() {
            assert(t[k - 1] == b[k]);
        }
        lemma_newline_at(t, k - 1);
    }
}

fn newline_index(b: &[u8]) -> (r: usize)
    ensures
        r == newline_at(b@),
        r <= b@.len(),
{
    let mut k: usize = 0;
    while k < b.len() && b[k] != 10
        invariant
            k <= b.len(),
            forall|j: int| 0 <= j < k ==> b@[j] != 10,
        decreases b.len() - k,
    {
        k = k + 1;
    }
    proof { lemma_newline_at(b@, k as int); }
    k
}

/// ASCII upper-case letters made lower-case; every other character kept.
pub open spec fn ascii_lower(s: Seq<char>) -> Seq<char> {
    s.map_values(|c: char| if 'A' <= c && c <= 'Z' { ((c as u32) + 32) as char } else { c })
}

fn ascii_lower_chars(s: &Vec<char>) -> (r: Vec<char>)
    ensures
        r@ == ascii_lower(s@),
{
    let mut r: Vec<char> = Vec::new();
    let mut i: usize = 0;
    while i < s.len()
        invariant
            i <= s.len(),
            r@ == ascii_lower(s@.subrange(0, i as int)),
        decreases s.len() - i,
    {
        let c = s[i];
        let l = if 'A' <= c && c <= 'Z' { char_from_ascii_upper(c) } else { c };
        r.push(l);
        proof {
            assert(s@.subrange(0, i + 1) =~= s@.subrange(0, i as int).push(c));
            assert(ascii_lower(s@.subrange(0, i + 1)) =~= ascii_lower(s@.subrange(0, i as int)).push(l));
        }
        i = i + 1;
    }
    proof { assert(s@.subrange(0, s.len() as int) =~= s@); }
    r
}

fn char_from_ascii_upper(c: char) -> (l: char)
    requires
        'A' <= c && c <= 'Z',
    ensures
        l == ((c as u32) + 32) as char,
{
    let n = (c as u32) + 32;
    let b = n as u8;
    assert(b == n);
    b as char
}

/// What `usize::from_str` accepts: an optional `+`, then one or more digits
/// whose value fits in a `usize`.
pub open spec fn parsed_usize(s: Seq<char>) -> Option<nat> {
    let d = if s.len() > 0 && s[0] == '+' { s.subrange(1, s.len() as int) } else { s };
    if d.len() > 0 && all_digits(d) && digits_value(d) <= usize::MAX {
        Some(digits_value(d))
    } else {
        None
    }
}

fn parse_usize(s: &Vec<char>) -> (r: Option<usize>)
    ensures
        match parsed_usize(s@) {
            Some(v) => r == Some(v as usize),
            None => r is None,
        },
{
    let from: usize = if s.len() > 0 && s[0] == '+' { 1 } else { 0 };
    proof {
        if from == 0 {
            assert(s@.subrange(0, s.len() as int) =~= s@);
        }
    }
    if from >= s.len() {
        return None;
    }
    let mut all = true;
    let mut j = from;
    while j < s.len()
        invariant
            from <= j <= s.len(),
            all == all_digits(s@.subrange(from as int, j as int)),
        decreases s.len() - j,
    {
        if !('0' <= s[j] && s[j] <= '9') {
            all = false;
        }
        proof {
            assert(s@.subrange(from as int, j + 1) =~= s@.subrange(from as int, j as int).push(s@[j as int]));
            lemma_all_digits_push(s@.subrange(from as int, j as int), s@[j as int]);
        }
        j = j + 1;
    }
    if !all {
        return None;
    }
    match digits_up_to(s, from, usize::MAX as u64) {
        Some(v) => Some(v as usize),
        None => None,
    }
}

/// The value a header line gives to `Content-Length`, if it is that header:
/// the line, decoded and lower-cased, starts with `content-length:`, and the
/// trimmed rest parses as a `usize` (0 when it does not).
pub open spec fn content_length_line(line: Seq<u8>) -> Option<nat> {
    let t = ascii_lower(utf8_lossy(line));
    if "content-length:"@.is_prefix_of(t) {
        Some(match parsed_usize(trimmed(t.subrange(15, t.len() as int))) {
            Some(v) => v,
            None => 0,
        })
    } else {
        None
    }
}

/// The `Content-Length` of a request head: the value of its last
/// `Content-Length` line, `prev` when there is none.
pub open spec fn content_length_from(b: Seq<u8>, prev: nat) -> nat
    decreases b.len(),
{
    let n = newline_at(b);
    if 0 <= n <= b.len() {
        let cur = match content_length_line(b.subrange(0, n)) {
            Some(v) => v,
            None => prev,
        };
        if n < b.len() {
            content_length_from(b.subrange(n + 1, b.len() as int), cur)
        } else {
            cur
        }
    } else {
        prev
    }
}

fn line_content_length(line: &[u8]) -> (r: Option<usize>)
    ensures
        match content_length_line(line@) {
            Some(v) => r == Some(v as usize),
            None => r is None,
        },
{
    let text = string_from_utf8_lossy(line);
    let t = ascii_lower_chars(&chars_of(text.as_str()));
    proof { reveal_strlit("content-length:"); }
    let t_str = string_from_chars(t.as_slice());
    if !starts_with(t_str.as_str(), "content-length:") {
        return None;
    }
    let rest = sub_chars(&t, 15, t.len());
    let v = trim_chars(&rest);
    match parse_usize(&v) {
        Some(n) => Some(n),
        None => Some(0),
    }
}

/// The `Content-Length` announced by a request head (0 when absent).
pub fn content_length(head: &[u8]) -> (r: usize)
    ensures
        r == content_length_from(head@, 0),
{
    let mut rest: &[u8] = head;
    let mut cur: usize = 0;
    loop
        invariant
            content_length_from(head@, 0) == content_length_from(rest@, cur as nat),
        decreases rest@.len(),
    {
        let n = newline_index(rest);
        let line = slice_subrange(rest, 0, n);
        match line_content_length(line) {
            Some(v) => { cur = v; },
            None => {},
        }
        if n < rest.len() {
            rest = slice_subrange(rest, n + 1, rest.len());
        } else {
            return cur;
        }
    }
}

/// The second white-space separated token of `s`.
pub open spec fn second_token(s: Seq<char>) -> Option<Seq<char>> {
    let s1 = s.subrange(first_where(s, not_ws()), s.len() as int);
    let rest = s1.subrange(first_where(s1, ws()), s1.len() as int);
    let s2 = rest.subrange(first_where(rest, not_ws()), rest.len() as int);
    if s2.len() == 0 {
        None
    } else {
        Some(s2.subrange(0, first_where(s2, ws())))
    }
}

fn skip_token(s: &Vec<char>) -> (r: Vec<char>)
    ensures
        r@ == s@.subrange(first_where(s@, ws()), s@.len() as int),
{
    let mut a: usize = 0;
    while a < s.len() && !is_ws_char(s[a])
        invariant
            a <= s.len(),
            forall|j: int| 0 <= j < a ==> !ws()(#[trigger] s@[j]),
        decreases s.len() - a,
    {
        a = a + 1;
    }
    proof { lemma_first_where_at(s@, ws(), a as int); }
    sub_chars(s, a, s.len())
}

fn second_token_chars(s: &Vec<char>) -> (r: Option<Vec<char>>)
    ensures
        match second_token(s@) {
            Some(t) => r matches Some(v) && v@ == t,
            None => r is None,
        },
{
    let s1 = trim_start_chars(s);
    let rest = skip_token(&s1);
    let s2 = trim_start_chars(&rest);
    if s2.len() == 0 {
        return None;
    }
    let mut e: usize = 0;
    while e < s2.len() && !is_ws_char(s2[e])
        invariant
            e <= s2.len(),
            forall|j: int| 0 <= j < e ==> !ws()(#[trigger] s2@[j]),
        decreases s2.len() - e,
    {
        e = e + 1;
    }
    proof { lemma_first_where_at(s2@, ws(), e as int); }
    Some(sub_chars(&s2, 0, e))
}

pub open spec fn not_slash() -> spec_fn(char) -> bool {
    |c: char| c != '/'
}

/// The kernel symbol a request targets: its request line (the first line of
/// the head, decoded) names the path `/kernel/<symbol>`, with any number of
/// leading `/`.
pub open spec fn request_symbol(head: Seq<u8>) -> Option<Seq<char>> {
    let line = utf8_lossy(head.subrange(0, newline_at(head)));
    match second_token(line) {
        Some(tok) => {
            let p = tok.subrange(first_where(tok, not_slash()), tok.len() as int);
            if "kernel/"@.is_prefix_of(p) {
                Some(p.subrange(7, p.len() as int))
            } else {
                None
            }
        },
        None => None,
    }
}

/// The kernel symbol named by the request line of `head`; see [`request_symbol`].
pub fn loopback_symbol(head: &[u8]) -> (r: Option<String>)
    ensures
        match request_symbol(head@) {
            Some(sym) => r matches Some(x) && x@ == sym,
            None => r is None,
        },
{
    let n = newline_index(head);
    let line = string_from_utf8_lossy(slice_subrange(head, 0, n));
    let tok = match second_token_chars(&chars_of(line.as_str())) {
        Some(t) => t,
        None => return None,
    };
    let mut a: usize = 0;
    while a < tok.len() && tok[a] == '/'
        invariant
            a <= tok.len(),
            forall|j: int| 0 <= j < a ==> !not_slash()(#[trigger] tok@[j]),
        decreases tok.len() - a,
    {
        a = a + 1;
    }
    proof { lemma_first_where_at(tok@, not_slash(), a as int); }
    let p = sub_chars(&tok, a, tok.len());
    let p_str = string_from_chars(p.as_slice());
    proof { reveal_strlit("kernel/"); }
    if !starts_with(p_str.as_str(), "kernel/") {
        return None;
    }
    Some(string_from_chars(sub_chars(&p, 7, p.len()).as_slice()))
}

/// The request body: the first `content_length` bytes of what followed the
/// head, decoded with invalid sequences replaced.
pub fn loopback_body(body: &[u8], content_length: usize) -> (r: String)
    ensures
        r@ == utf8_lossy(body@.subrange(0, if content_length < body@.len() { content_length as int } else { body@.len() as int })),
{
    let end = if content_length < body.len() { content_length } else { body.len() };
    string_from_utf8_lossy(slice_subrange(body, 0, end))
}

// ---------------------------------------------------------------------------
// The loopback's call gates.
//
// A call through the loopback passes, in order: the grant gate (the effects
// namespace for `uk_action_submit`, the net allowlist for `uk_fetch`, the
// kernel grants for every other symbol), the sensitive-forward latch for
// forward-mutating symbols, and the windowed meter for expensive symbols. The
// latch and the meter are kernel state: the host asks the kernel and feeds the
// answer back as an event, and [`loopback_step`] says what happens next.

/// The `code` of a loopback error: a number, or a `UK-…` string.
#[derive(Clone, Debug, PartialEq, Eq)]
pub enum ErrorCode {
    Number(u32),
    Text(String),
}

/// The error a loopback call is answered with (`{"error": {...}}`).
#[derive(Clone, Debug, PartialEq, Eq)]
pub struct LoopbackError {
    pub code: ErrorCode,
    pub name: Option<String>,
    pub message: String,
}

/// A call through the loopback, with the grants that bound its caller.
pub struct LoopbackCall {
    /// The acting principal: the module's name, or the sub-agent's id.
    pub principal: String,
    /// The kernel symbol called.
    pub symbol: String,
    /// The `effect` field of the first argument (empty when absent).
    pub effect: String,
    /// The `url` field of the first argument (empty when absent).
    pub url: String,
    /// The caller's kernel grants.
    pub kernel: Vec<String>,
    /// The caller's effect grants.
    pub effects: Vec<String>,
    /// The module's net allowlist.
    pub net: Vec<String>,
}

/// What the host learnt since the last step.
pub enum LoopbackEvent {
    /// The call arrived.
    Begin,
    /// The kernel's answer to whether the caller is sensitive-latched.
    Latched(bool),
    /// The kernel meter's decision: 0 admitted, 1 rate-limited, else over budget.
    Metered(i64),
}

/// What the host does next with a call.
pub enum LoopbackStep {
    /// Audit the attempt as failed with the error's message and answer with the error.
    Refuse(LoopbackError),
    /// Ask the kernel whether the caller is sensitive-latched.
    QueryLatch,
    /// Ask the kernel meter to charge the caller for this call.
    ConsumeMeter,
    /// Run the kernel call.
    Dispatch,
}

/// Where a loopback call stands after a step, without the refusal's text.
#[derive(Clone, Copy, Debug, PartialEq, Eq, Structural)]
pub enum Gate {
    Refused,
    AskLatch,
    ChargeMeter,
    Admitted,
}

impl LoopbackStep {
    pub open spec fn gate(self) -> Gate {
        match self {
            LoopbackStep::Refuse(_) => Gate::Refused,
            LoopbackStep::QueryLatch => Gate::AskLatch,
            LoopbackStep::ConsumeMeter => Gate::ChargeMeter,
            LoopbackStep::Dispatch => Gate::Admitted,
        }
    }
}

/// The forward-mutating symbols refused once the caller is sensitive-latched.
pub open spec fn sensitive_symbol(s: Seq<char>) -> bool {
    s == "uk_fetch"@ || s == "uk_agent_spawn"@ || s == "uk_blueprint_export"@ || s == "uk_action_submit"@
        || s == "uk_gate_approve"@ || s == "uk_cert_set_authority"@ || s == "uk_cert_mint"@
        || s == "uk_cert_transfer"@ || s == "uk_cert_burn"@ || s == "uk_auction_open"@
        || s == "uk_auction_bid"@ || s == "uk_auction_close"@
}

/// The expensive symbols that consume the caller's windowed budget.
pub open spec fn metered_symbol(s: Seq<char>) -> bool {
    s == "uk_evolve"@ || s == "uk_condition"@ || s == "uk_event_probability"@ || s == "uk_bayesian_update"@
        || s == "uk_belief_propagation"@ || s == "uk_ode_analyze"@
}

/// Whether `symbol` is refused to a sensitive-latched caller.
pub fn is_sensitive_symbol(symbol: &str) -> (r: bool)
    ensures
        r == sensitive_symbol(symbol@),
{
    str_eq(symbol, "uk_fetch") || str_eq(symbol, "uk_agent_spawn") || str_eq(symbol, "uk_blueprint_export")
        || str_eq(symbol, "uk_action_submit") || str_eq(symbol, "uk_gate_approve")
        || str_eq(symbol, "uk_cert_set_authority") || str_eq(symbol, "uk_cert_mint")
        || str_eq(symbol, "uk_cert_transfer") || str_eq(symbol, "uk_cert_burn")
        || str_eq(symbol, "uk_auction_open") || str_eq(symbol, "uk_auction_bid")
        || str_eq(symbol, "uk_auction_close")
}

/// Whether `symbol` is charged to the caller's windowed budget.
pub fn is_metered_symbol(symbol: &str) -> (r: bool)
    ensures
        r == metered_symbol(symbol@),
{
    str_eq(symbol, "uk_evolve") || str_eq(symbol, "uk_condition") || str_eq(symbol, "uk_event_probability")
        || str_eq(symbol, "uk_bayesian_update") || str_eq(symbol, "uk_belief_propagation")
        || str_eq(symbol, "uk_ode_analyze")
}

/// Why the grant gate refuses a call, if it does.
pub open spec fn grant_denial(
    principal: Seq<char>,
    symbol: Seq<char>,
    effect: Seq<char>,
    url: Seq<char>,
    kernel: Seq<Seq<char>>,
    effects: Seq<Seq<char>>,
    net: Seq<Seq<char>>,
) -> Option<Seq<char>> {
    if symbol == "uk_action_submit"@ {
        if effects.contains(effect) {
            None
        } else {
            Some("UK-4001: Authorization denied \u{2014} '"@ + principal + "' is not granted effect '"@ + effect + "'"@)
        }
    } else if symbol == "uk_fetch"@ {
        let host = url_authority(url);
        if host.len() == 0 {
            Some("UK-4001: uk_fetch requires a url with an explicit scheme://host"@)
        } else if !egress_permitted(host, net) {
            Some("UK-4001: Egress denied \u{2014} '"@ + principal + "' has no net grant for host '"@ + host + "'"@)
        } else {
            None
        }
    } else if kernel.contains(symbol) {
        None
    } else {
        Some(denied_message(principal, symbol))
    }
}

impl LoopbackCall {
    /// The grant gate's verdict on this call.
    pub open spec fn denial(&self) -> Option<Seq<char>> {
        grant_denial(self.principal@, self.symbol@, self.effect@, self.url@, strings(self.kernel@),
            strings(self.effects@), strings(self.net@))
    }
}

pub open spec fn latched_message(principal: Seq<char>, symbol: Seq<char>) -> Seq<char> {
    "UK-4701: '"@ + principal + "' is sensitive-latched and cannot "@ + symbol
}

pub open spec fn rate_limited_message(principal: Seq<char>) -> Seq<char> {
    "'"@ + principal + "' exceeded its windowed call-rate limit"@
}

pub open spec fn over_budget_message(principal: Seq<char>) -> Seq<char> {
    "'"@ + principal + "' exhausted its windowed budget"@
}

/// An error with a numeric code.
pub open spec fn numbered(e: LoopbackError, code: u32, name: Option<Seq<char>>, message: Seq<char>) -> bool {
    &&& e.code == ErrorCode::Number(code)
    &&& match (e.name, name) {
        (Some(n), Some(m)) => n@ == m,
        (None, None) => true,
        _ => false,
    }
    &&& e.message@ == message
}

/// An error with a `UK-…` text code.
pub open spec fn texted(e: LoopbackError, code: Seq<char>, name: Seq<char>, message: Seq<char>) -> bool {
    &&& e.code matches ErrorCode::Text(c) && c@ == code
    &&& e.name matches Some(n) && n@ == name
    &&& e.message@ == message
}

fn concat3(a: &str, b: &str, c: &str) -> (r: String)
    ensures
        r@ == a@ + b@ + c@,
{
    let mut m = String::from_str(a);
    m.append(b);
    m.append(c);
    m
}

fn concat5(a: &str, b: &str, c: &str, d: &str, e: &str) -> (r: String)
    ensures
        r@ == a@ + b@ + c@ + d@ + e@,
{
    let mut m = String::from_str(a);
    m.append(b);
    m.append(c);
    m.append(d);
    m.append(e);
    m
}

fn error_text(code: &str, name: &str, message: String) -> (e: LoopbackError)
    ensures
        texted(e, code@, name@, message@),
{
    LoopbackError { code: ErrorCode::Text(code.to_owned()), name: Some(name.to_owned()), message }
}

fn call_denied(message: String) -> (e: LoopbackError)
    ensures
        numbered(e, 4001, Some("CallDenied"@), message@),
{
    LoopbackError { code: ErrorCode::Number(4001), name: Some("CallDenied".to_owned()), message }
}

/// The grant gate; see [`grant_denial`].
pub fn grant_gate(call: &LoopbackCall) -> (r: Option<String>)
    ensures
        match call.denial() {
            Some(m) => r matches Some(x) && x@ == m,
            None => r is None,
        },
{
    let p = call.principal.as_str();
    let sym = call.symbol.as_str();
    if str_eq(sym, "uk_action_submit") {
        if contains_str(&call.effects, call.effect.as_str()) {
            None
        } else {
            Some(concat5("UK-4001: Authorization denied \u{2014} '", p, "' is not granted effect '", call.effect.as_str(), "'"))
        }
    } else if str_eq(sym, "uk_fetch") {
        let host = fetch_host(call.url.as_str());
        if host.unicode_len() == 0 {
            Some(String::from_str("UK-4001: uk_fetch requires a url with an explicit scheme://host"))
        } else if !egress_allowed(host.as_str(), call.net.as_slice()) {
            Some(concat5("UK-4001: Egress denied \u{2014} '", p, "' has no net grant for host '", host.as_str(), "'"))
        } else {
            None
        }
    } else if contains_str(&call.kernel, sym) {
        None
    } else {
        Some(concat5("UK-4001: Authorization denied \u{2014} '", p, "' is not granted '", sym, "'"))
    }
}

/// Where a call stands after `event`; see [`loopback_step`].
pub open spec fn next_gate(call: LoopbackCall, event: LoopbackEvent) -> Gate {
    match event {
        LoopbackEvent::Begin => if call.denial() is Some {
            Gate::Refused
        } else if sensitive_symbol(call.symbol@) {
            Gate::AskLatch
        } else if metered_symbol(call.symbol@) {
            Gate::ChargeMeter
        } else {
            Gate::Admitted
        },
        LoopbackEvent::Latched(latched) => if latched {
            Gate::Refused
        } else if metered_symbol(call.symbol@) {
            Gate::ChargeMeter
        } else {
            Gate::Admitted
        },
        LoopbackEvent::Metered(d) => if d == 0 {
            Gate::Admitted
        } else {
            Gate::Refused
        },
    }
}

/// The next step of a loopback call after `event`: refused by the grant gate
/// with a `CallDenied` (4001) error; for a sensitive symbol, the latch is asked
/// and a latched caller refused with `UK-4701`; for a metered symbol, the meter
/// is charged and a refusal answered with `UK-4601` (rate) or `UK-4602`
/// (budget); otherwise the call is dispatched.
pub fn loopback_step(call: &LoopbackCall, event: LoopbackEvent) -> (step: LoopbackStep)
    ensures
        step.gate() == next_gate(*call, event),
        event is Begin ==> match call.denial() {
            Some(m) => step matches LoopbackStep::Refuse(e) && numbered(e, 4001, Some("CallDenied"@), m),
            None => if sensitive_symbol(call.symbol@) {
                step is QueryLatch
            } else if metered_symbol(call.symbol@) {
                step is ConsumeMeter
            } else {
                step is Dispatch
            },
        },
        event matches LoopbackEvent::Latched(latched) ==> if latched {
            step matches LoopbackStep::Refuse(e)
                && texted(e, "UK-4701"@, "SensitiveLatched"@, latched_message(call.principal@, call.symbol@))
        } else if metered_symbol(call.symbol@) {
            step is ConsumeMeter
        } else {
            step is Dispatch
        },
        event matches LoopbackEvent::Metered(d) ==> if d == 0 {
            step is Dispatch
        } else if d == 1 {
            step matches LoopbackStep::Refuse(e)
                && texted(e, "UK-4601"@, "RateLimited"@, rate_limited_message(call.principal@))
        } else {
            step matches LoopbackStep::Refuse(e)
                && texted(e, "UK-4602"@, "BudgetExceeded"@, over_budget_message(call.principal@))
        },
{
    let p = call.principal.as_str();
    match event {
        LoopbackEvent::Begin => match grant_gate(call) {
            Some(m) => LoopbackStep::Refuse(call_denied(m)),
            None => if is_sensitive_symbol(call.symbol.as_str()) {
                LoopbackStep::QueryLatch
            } else if is_metered_symbol(call.symbol.as_str()) {
                LoopbackStep::ConsumeMeter
            } else {
                LoopbackStep::Dispatch
            },
        },
        LoopbackEvent::Latched(latched) => if latched {
            let m = concat3("UK-4701: '", p, "' is sensitive-latched and cannot ");
            let mut m = m;
            m.append(call.symbol.as_str());
            LoopbackStep::Refuse(error_text("UK-4701", "SensitiveLatched", m))
        } else if is_metered_symbol(call.symbol.as_str()) {
            LoopbackStep::ConsumeMeter
        } else {
            LoopbackStep::Dispatch
        },
        LoopbackEvent::Metered(d) => if d == 0 {
            LoopbackStep::Dispatch
        } else if d == 1 {
            LoopbackStep::Refuse(error_text("UK-4601", "RateLimited", concat3("'", p, "' exceeded its windowed call-rate limit")))
        } else {
            LoopbackStep::Refuse(error_text("UK-4602", "BudgetExceeded", concat3("'", p, "' exhausted its windowed budget")))
        },
    }
}

/// The refusal of a call by an agent handle that is unknown or stopped, and the
/// principal its attempt is audited under (`agent-<handle>`).
pub fn unknown_agent(handle: i64) -> (r: (LoopbackError, String))
    ensures
        numbered(r.0, 4001, Some("CallDenied"@), "agent handle "@ + signed_decimal(handle as int) + " is unknown or stopped"@),
        r.1@ == "agent-"@ + signed_decimal(handle as int),
{
    let h = string_from_chars(signed_decimal_chars(handle).as_slice());
    let m = concat3("agent handle ", h.as_str(), " is unknown or stopped");
    let mut principal = String::from_str("agent-");
    principal.append(h.as_str());
    (call_denied(m), principal)
}

/// The refusal of a side effect under the `disabled` gatekeeper mode (code 4004,
/// no name), and the detail of the security audit entry it leaves.
pub fn gatekeeper_refusal(module_name: &str, symbol: &str) -> (r: (LoopbackError, String))
    ensures
        numbered(r.0, 4004, None, "side effects disabled by gatekeeper mode for module '"@ + module_name@ + "'"@),
        r.1@ == "GATEKEEPER_DISABLED module='"@ + module_name@ + "' symbol='"@ + symbol@ + "'"@,
{
    let m = concat3("side effects disabled by gatekeeper mode for module '", module_name, "'");
    let detail = concat5("GATEKEEPER_DISABLED module='", module_name, "' symbol='", symbol, "'");
    (LoopbackError { code: ErrorCode::Number(4004), name: None, message: m }, detail)
}

/// The answer to a request whose path is not `/kernel/<symbol>` (code 4000).
pub fn bad_path_error() -> (e: LoopbackError)
    ensures
        numbered(e, 4000, None, "bad path"@),
{
    LoopbackError { code: ErrorCode::Number(4000), name: None, message: String::from_str("bad path") }
}

/// The answer to a request whose body is not a JSON array (code 4000).
pub fn bad_args_error() -> (e: LoopbackError)
    ensures
        numbered(e, 4000, None, "args must be a JSON array"@),
{
    LoopbackError { code: ErrorCode::Number(4000), name: None, message: String::from_str("args must be a JSON array") }
}

/// What `serde_json` reads of a loopback body: `None` when it is not a JSON
/// array, else the `effect` and `url` string fields of its first element
/// (each `None` when absent or not a string).
pub uninterp spec fn loopback_args_of(body: Seq<char>) -> Option<(Option<Seq<char>>, Option<Seq<char>>)>;

/// The view of an optional string.
pub open spec fn opt_chars(o: Option<String>) -> Option<Seq<char>> {
    match o {
        Some(s) => Some(s@),
        None => None,
    }
}

/// An optional field's text, empty when absent.
pub open spec fn opt_text(o: Option<Seq<char>>) -> Seq<char> {
    match o {
        Some(s) => s,
        None => Seq::empty(),
    }
}

/// `serde_json::from_str::<Vec<serde_json::Value>>` on the body, then the
/// `effect` and `url` string fields of the first element. Claimed: the result
/// is the named `loopback_args_of` of the body.
#[verifier::external_body]
fn parse_loopback_args(body: &str) -> (r: Option<(Option<String>, Option<String>)>)
    ensures
        r is None <==> loopback_args_of(body@) is None,
        r matches Some((e, u)) ==> loopback_args_of(body@) == Some((opt_chars(e), opt_chars(u))),
{
    match serde_json::from_str::<Vec<serde_json::Value>>(body) {
        Err(_) => None,
        Ok(args) => Some((
            args.first().and_then(|a| a.get("effect")).and_then(|v| v.as_str()).map(|s| s.to_string()),
            args.first().and_then(|a| a.get("url")).and_then(|v| v.as_str()).map(|s| s.to_string()),
        )),
    }
}

/// The fields of a loopback call's arguments that its gates read.
pub struct LoopbackArgs {
    /// The `effect` field of the first argument (empty when absent).
    pub effect: String,
    /// The `url` field of the first argument (empty when absent).
    pub url: String,
}

/// Reads a loopback call's body: a JSON array of arguments, else the 4000
/// error `args must be a JSON array`.
pub fn loopback_args(body: &str) -> (r: Result<LoopbackArgs, LoopbackError>)
    ensures
        match loopback_args_of(body@) {
            None => r matches Err(e) && numbered(e, 4000, None, "args must be a JSON array"@),
            Some((eff, url)) => r matches Ok(a) && a.effect@ == opt_text(eff) && a.url@ == opt_text(url),
        },
{
    match parse_loopback_args(body) {
        None => Err(bad_args_error()),
        Some((eff, url)) => {
            let effect = match eff {
                Some(e) => e,
                None => String::new(),
            };
            let url = match url {
                Some(u) => u,
                None => String::new(),
            };
            Ok(LoopbackArgs { effect, url })
        },
    }
}

impl LoopbackCall {
    /// The call of `symbol` by `principal` with the arguments `args`, bound by
    /// the caller's `kernel` and `effects` grants and the module's `net` allowlist.
    pub fn new(principal: String, symbol: String, args: LoopbackArgs, kernel: Vec<String>, effects: Vec<String>, net: Vec<String>) -> (c: Self)
        ensures
            c.principal == principal,
            c.symbol == symbol,
            c.effect == args.effect,
            c.url == args.url,
            c.kernel == kernel,
            c.effects == effects,
            c.net == net,
    {
        LoopbackCall { principal, symbol, effect: args.effect, url: args.url, kernel, effects, net }
    }
}

/// The 4004 answer to a kernel symbol the loopback has no marshaling for.
pub fn unmarshaled_symbol(symbol: &str) -> (r: (u32, String))
    ensures
        r.0 == 4004,
        r.1@ == "kernel symbol '"@ + symbol@ + "' has no loopback marshaling"@,
{
    (4004, concat3("kernel symbol '", symbol, "' has no loopback marshaling"))
}

/// The answer and audit detail of a kernel call that failed with `code`.
pub fn kernel_error(code: u32, message: &str) -> (r: (LoopbackError, String))
    ensures
        numbered(r.0, code, Some("KernelError"@), message@),
        r.1@ == "UK-"@ + decimal(code as nat) + ": "@ + message@,
{
    let c = string_from_chars(decimal_chars(code as u64).as_slice());
    let detail = concat3("UK-", c.as_str(), ": ");
    let mut detail = detail;
    detail.append(message);
    (LoopbackError { code: ErrorCode::Number(code), name: Some("KernelError".to_owned()), message: message.to_owned() }, detail)
}

/// The audit detail of a call the kernel served: a fetch records the explicit
/// allow and its target host; other symbols record none.
pub fn served_detail(call: &LoopbackCall) -> (r: Option<String>)
    ensures
        call.symbol@ == "uk_fetch"@ ==> (r matches Some(d) && d@ == "action=allow host='"@ + url_authority(call.url@) + "'"@),
        call.symbol@ != "uk_fetch"@ ==> r is None,
{
    if str_eq(call.symbol.as_str(), "uk_fetch") {
        let host = fetch_host(call.url.as_str());
        Some(concat3("action=allow host='", host.as_str(), "'"))
    } else {
        None
    }
}

/// The host the offline `uk_fetch` may contact for `url`: refused with 1001 when
/// the url names no host, and with 4004 when the host is not the loopback
/// fixture.
pub fn fetch_target(url: &str) -> (r: Result<String, (u32, String)>)
    ensures
        url_authority(url@).len() == 0 ==> (r matches Err((c, m)) && c == 1001 && m@ == "uk_fetch: missing url"@),
        url_authority(url@).len() > 0 && !loopback_host(url_authority(url@)) ==> (r matches Err((c, m)) && c == 4004
            && m@ == "uk_fetch "@ + url_authority(url@) + ": fetch egress restricted to loopback fixture (host '"@
                + url_authority(url@) + "')"@),
        url_authority(url@).len() > 0 && loopback_host(url_authority(url@)) ==> (r matches Ok(h) && h@ == url_authority(url@)),
{
    let host = fetch_host(url);
    if host.unicode_len() == 0 {
        return Err((1001, String::from_str("uk_fetch: missing url")));
    }
    if !is_loopback_host(host.as_str()) {
        let m = concat5("uk_fetch ", host.as_str(), ": fetch egress restricted to loopback fixture (host '", host.as_str(), "')");
        return Err((4004, m));
    }
    Ok(host)
}

// ---------------------------------------------------------------------------
// The generated workerd configuration and worker harness.

/// The `bindings` entries of the config: one per granted symbol that the
/// kernel registers, in grant order; other grants get no binding.
pub open spec fn binding_lines(grants: Seq<Seq<char>>) -> Seq<char>
    decreases grants.len(),
{
    if grants.len() == 0 {
        seq![]
    } else {
        binding_lines(grants.drop_last()) + if unfer_symbol_names().contains(grants.last()) {
            "         (name = \""@ + grants.last() + "\", service = \"kernel-loopback\"),\n"@
        } else {
            seq![]
        }
    }
}

/// One external service per net grant, `net-egress-<i>` for the `i`-th host.
pub open spec fn egress_lines(hosts: Seq<Seq<char>>) -> Seq<char>
    decreases hosts.len(),
{
    if hosts.len() == 0 {
        seq![]
    } else {
        egress_lines(hosts.drop_last()) + "    (name = \"net-egress-"@ + decimal((hosts.len() - 1) as nat)
            + "\", external = (address = \"http://"@ + hosts.last() + "\", http = ())),\n"@
    }
}

pub const CONFIG_HEAD: &'static str = "using Workerd = import \"/workerd/workerd.capnp\";\n\nconst config :Workerd.Config = (\n  services = [\n    (name = \"main\",\n     worker = (\n       compatibilityDate = \"2025-07-01\",\n       modules = [\n         (name = \"harness.mjs\", esModule = embed \"harness.mjs\"),\n         (name = \"module.js\", esModule = embed \"module.js\"),\n       ],\n       bindings = [\n";
pub const CONFIG_LOOPBACK: &'static str = "       ],\n     )),\n    (name = \"kernel-loopback\",\n     external = (address = \"unix:";
pub const CONFIG_SERVICES_END: &'static str = "\", http = ())),\n";
pub const CONFIG_SOCKETS: &'static str = "  ],\n  sockets = [\n    (name = \"main\", address = \"unix:";
pub const CONFIG_TAIL: &'static str = "\", http = (), service = \"main\"),\n  ],\n);\n";

/// The workerd `config.capnp` of a module: the worker with a binding per
/// granted kernel symbol, the kernel loopback service at `loopback_sock`, one
/// external service per net grant, and the main socket at `main_sock`.
pub open spec fn workerd_config(grants: Seq<Seq<char>>, net: Seq<Seq<char>>, loopback_sock: Seq<char>, main_sock: Seq<char>) -> Seq<char> {
    CONFIG_HEAD@ + binding_lines(grants) + CONFIG_LOOPBACK@ + loopback_sock + CONFIG_SERVICES_END@
        + egress_lines(net) + CONFIG_SOCKETS@ + main_sock + CONFIG_TAIL@
}

/// Generates the workerd configuration of `manifest`; see [`workerd_config`].
pub fn config_source(manifest: &ModuleManifest, loopback_sock: &str, main_sock: &str) -> (r: String)
    ensures
        r@ == workerd_config(strings(manifest.grants@), strings(manifest.net_grants@), loopback_sock@, main_sock@),
{
    let mut out = String::from_str(CONFIG_HEAD);
    let ghost g = strings(manifest.grants@);
    let mut i: usize = 0;
    while i < manifest.grants.len()
        invariant
            i <= manifest.grants.len(),
            g == strings(manifest.grants@),
            out@ == CONFIG_HEAD@ + binding_lines(g.subrange(0, i as int)),
        decreases manifest.grants.len() - i,
    {
        let sym = manifest.grants[i].as_str();
        proof {
            assert(g.subrange(0, i + 1).drop_last() =~= g.subrange(0, i as int));
            assert(g[i as int] == sym@);
        }
        if is_kernel_symbol(sym) {
            out.append("         (name = \"");
            out.append(sym);
            out.append("\", service = \"kernel-loopback\"),\n");
        }
        proof {
            assert(out@ =~= CONFIG_HEAD@ + binding_lines(g.subrange(0, i + 1)));
        }
        i = i + 1;
    }
    proof { assert(g.subrange(0, g.len() as int) =~= g); }
    out.append(CONFIG_LOOPBACK);
    out.append(loopback_sock);
    out.append(CONFIG_SERVICES_END);
    let ghost before = out@;
    let ghost n = strings(manifest.net_grants@);
    let mut j: usize = 0;
    while j < manifest.net_grants.len()
        invariant
            j <= manifest.net_grants.len(),
            n == strings(manifest.net_grants@),
            out@ == before + egress_lines(n.subrange(0, j as int)),
        decreases manifest.net_grants.len() - j,
    {
        let host = manifest.net_grants[j].as_str();
        let idx = string_from_chars(decimal_chars(j as u64).as_slice());
        proof {
            assert(n.subrange(0, j + 1).drop_last() =~= n.subrange(0, j as int));
            assert(n[j as int] == host@);
        }
        out.append("    (name = \"net-egress-");
        out.append(idx.as_str());
        out.append("\", external = (address = \"http://");
        out.append(host);
        out.append("\", http = ())),\n");
        proof {
            assert(out@ =~= before + egress_lines(n.subrange(0, j + 1)));
        }
        j = j + 1;
    }
    proof { assert(n.subrange(0, n.len() as int) =~= n); }
    out.append(CONFIG_SOCKETS);
    out.append(main_sock);
    out.append(CONFIG_TAIL);
    proof {
        assert(out@ =~= workerd_config(strings(manifest.grants@), strings(manifest.net_grants@), loopback_sock@, main_sock@));
    }
    out
}

/// The generated worker entry: dispatches `/unfer/call` to a named export of
/// the module and hands it a kernel object built only from its granted service
/// bindings.
pub const HARNESS_MJS: &'static str = r#"// Worker harness of the austral_cranelift_bridge module host.
import * as module from "./module.js";

// F5: the kernel capability object is built strictly from the granted service
// bindings — `env` keys are exactly the module's `[grants] kernel` symbols. An
// un-granted `uk_*`/`uz_*` name is simply ABSENT (not wrapped, not even stubbed),
// so a module cannot enumerate or probe the kernel's full symbol table. The
// host-side loopback re-validates every call (defense in depth); that is the
// only layer that emits UK-4001.
function makeKernel(env) {
  const kernel = {};
  for (const name of Object.keys(env)) {
    if (typeof name !== "string") continue;
    if (!(name.startsWith("uk_") || name.startsWith("uz_"))) continue;
    kernel[name] = async (...args) => {
      const res = await env[name].fetch("http://kernel-loopback/kernel/" + name, {
        method: "POST",
        headers: { "content-type": "application/json" },
        body: JSON.stringify(args),
      });
      const data = await res.json();
      if (data.error) {
        const e = new Error(data.error.message);
        e.ukCode = data.error.code;
        throw e;
      }
      return data.result;
    };
  }
  return kernel;
}

function body(obj, status = 200) {
  return new Response(JSON.stringify(obj), {
    status,
    headers: { "content-type": "application/json" },
  });
}

export default {
  async fetch(request, env) {
    const kernel = makeKernel(env);
    const url = new URL(request.url);
    if (url.pathname !== "/unfer/call") {
      return body({ error: { code: 4040, message: "not found" } }, 404);
    }
    let payload;
    try {
      payload = await request.json();
    } catch (e) {
      return body({ error: { code: 4000, message: "bad request body" } });
    }
    const { entrypoint, args } = payload;
    const fn = typeof module[entrypoint] === "function"
      ? module[entrypoint]
      : (module.default && typeof module.default[entrypoint] === "function"
          ? module.default[entrypoint]
          : null);
    if (!fn) {
      return body({ error: { code: 4040, message: `entrypoint '${entrypoint}' not found` } });
    }
    try {
      const result = await fn(kernel, args);
      return body({ result: result ?? null });
    } catch (e) {
      return body({ error: { code: e.ukCode || 5000, message: String(e && e.message || e) } });
    }
  },
};
"#;

/// The worker harness source; see [`HARNESS_MJS`].
pub fn harness_source() -> (r: &'static str)
    ensures
        r@ == HARNESS_MJS@,
{
    HARNESS_MJS
}

} // verus!

verus! {

// ---------------------------------------------------------------------------
// Laws of the capability boundary.

/// Egress is default-deny: nothing is allowed by an empty allowlist, and an
/// empty host is never allowed.
pub proof fn law_egress_default_deny(host: Seq<char>, allowlist: Seq<Seq<char>>)
    ensures
        !egress_permitted(host, Seq::<Seq<char>>::empty()),
        !egress_permitted(Seq::<char>::empty(), allowlist),
{
}

/// Egress matching is exact: an allowed host has exactly the host part of one
/// allowlist entry (no substring, prefix or pattern matching), and when that
/// entry names a port, the request names the same port.
pub proof fn law_egress_is_exact(host: Seq<char>, allowlist: Seq<Seq<char>>)
    requires
        egress_permitted(host, allowlist),
    ensures
        exists|i: int| 0 <= i < allowlist.len() && host_port(#[trigger] allowlist[i]).0 == host_port(host).0
            && (host_port(allowlist[i]).1 is None || host_port(allowlist[i]).1 == host_port(host).1),
{
    let i = choose|i: int| 0 <= i < allowlist.len() && grant_covers(#[trigger] allowlist[i], host);
    assert(host_port(allowlist[i]).0 == host_port(host).0);
}

/// A grant without a port covers every port of its host.
pub proof fn law_portless_grant_covers_every_port(grant: Seq<char>, request: Seq<char>)
    requires
        host_port(grant).1 is None,
        host_port(grant).0 == host_port(request).0,
    ensures
        grant_covers(grant, request),
{
}

/// A grant that names a port covers no request for another port, nor one
/// that names no port.
pub proof fn law_ported_grant_needs_its_port(grant: Seq<char>, request: Seq<char>)
    requires
        host_port(grant).1 is Some,
        host_port(request).1 != host_port(grant).1,
    ensures
        !grant_covers(grant, request),
{
}

/// The grant gate uses one namespace per symbol: `uk_action_submit` is decided
/// by the effect grants alone, `uk_fetch` by the net allowlist alone, and every
/// other symbol by the kernel grants alone.
pub proof fn law_grant_gate_namespaces(
    principal: Seq<char>,
    symbol: Seq<char>,
    effect: Seq<char>,
    url: Seq<char>,
    kernel: Seq<Seq<char>>,
    effects: Seq<Seq<char>>,
    net: Seq<Seq<char>>,
)
    ensures
        symbol == "uk_action_submit"@ ==> (grant_denial(principal, symbol, effect, url, kernel, effects, net) is None
            <==> effects.contains(effect)),
        symbol == "uk_fetch"@ ==> (grant_denial(principal, symbol, effect, url, kernel, effects, net) is None
            <==> egress_permitted(url_authority(url), net)),
        symbol != "uk_action_submit"@ && symbol != "uk_fetch"@
            ==> (grant_denial(principal, symbol, effect, url, kernel, effects, net) is None <==> kernel.contains(symbol)),
{
    reveal_strlit("uk_fetch");
    reveal_strlit("uk_action_submit");
    assert("uk_fetch"@ != "uk_action_submit"@ ) by {
        assert("uk_fetch"@[3] != "uk_action_submit"@[3]);
    }
}

/// The `disabled` gatekeeper mode refuses exactly side-effect submissions;
/// every other mode refuses nothing.
pub proof fn law_gatekeeper_refuses_only_disabled_submissions(mode: GatekeeperMode, symbol: Seq<char>)
    ensures
        !side_effect_allowed(mode, symbol) <==> (mode == GatekeeperMode::Disabled && symbol == "uk_action_submit"@),
{
}

/// The outcome of a loopback call whose caller the kernel reports as
/// `latched`, and whose meter charge the kernel answers with `decision`, when
/// the host feeds each answer back as [`loopback_step`] asks for it.
pub open spec fn run_gates(call: LoopbackCall, latched: bool, decision: i64) -> Gate {
    match next_gate(call, LoopbackEvent::Begin) {
        Gate::AskLatch => match next_gate(call, LoopbackEvent::Latched(latched)) {
            Gate::ChargeMeter => next_gate(call, LoopbackEvent::Metered(decision)),
            g => g,
        },
        Gate::ChargeMeter => next_gate(call, LoopbackEvent::Metered(decision)),
        g => g,
    }
}

/// A loopback call ends, within three steps, refused or admitted, and it is
/// admitted exactly when every gate lets it through: the grant gate, the
/// sensitive-forward latch for a forward-mutating symbol, and the meter for an
/// expensive one.
pub proof fn law_call_admitted_iff_every_gate_passes(call: LoopbackCall, latched: bool, decision: i64)
    ensures
        run_gates(call, latched, decision) == Gate::Refused || run_gates(call, latched, decision) == Gate::Admitted,
        run_gates(call, latched, decision) == Gate::Admitted <==> {
            &&& call.denial() is None
            &&& sensitive_symbol(call.symbol@) ==> !latched
            &&& metered_symbol(call.symbol@) ==> decision == 0
        },
{
}


/// The forward-mutating kernel symbols: fetching, spawning agents, exporting
/// blueprints, submitting actions, approving gated actions, and the
/// certificate and auction operations.
pub open spec fn forward_mutating_symbols() -> Seq<Seq<char>> {
    seq!["uk_fetch"@, "uk_agent_spawn"@, "uk_blueprint_export"@, "uk_action_submit"@, "uk_gate_approve"@,
        "uk_cert_set_authority"@, "uk_cert_mint"@, "uk_cert_transfer"@, "uk_cert_burn"@,
        "uk_auction_open"@, "uk_auction_bid"@, "uk_auction_close"@]
}

/// A call of a forward-mutating symbol that passes the grant gate is held for
/// the sensitive-forward latch, and a latched caller is refused: it is
/// admitted only when the caller is not latched.
pub proof fn law_forward_mutations_wait_for_the_latch(call: LoopbackCall, k: int, latched: bool, decision: i64)
    requires
        0 <= k < forward_mutating_symbols().len(),
        call.symbol@ == forward_mutating_symbols()[k],
        call.denial() is None,
    ensures
        next_gate(call, LoopbackEvent::Begin) == Gate::AskLatch,
        latched ==> run_gates(call, latched, decision) == Gate::Refused,
{
    reveal_strlit("uk_fetch");
    reveal_strlit("uk_agent_spawn");
    reveal_strlit("uk_blueprint_export");
    reveal_strlit("uk_action_submit");
    reveal_strlit("uk_gate_approve");
    reveal_strlit("uk_cert_set_authority");
    reveal_strlit("uk_cert_mint");
    reveal_strlit("uk_cert_transfer");
    reveal_strlit("uk_cert_burn");
    reveal_strlit("uk_auction_open");
    reveal_strlit("uk_auction_bid");
    reveal_strlit("uk_auction_close");
    assert(sensitive_symbol(call.symbol@));
}


/// The forward-mutating symbols are exactly the ones held for the
/// sensitive-forward latch.
pub proof fn law_latched_symbols_are_the_forward_mutations(s: Seq<char>)
    ensures
        sensitive_symbol(s) <==> forward_mutating_symbols().contains(s),
{
    let f = forward_mutating_symbols();
    assert(f[0] == "uk_fetch"@ && f[1] == "uk_agent_spawn"@ && f[2] == "uk_blueprint_export"@
        && f[3] == "uk_action_submit"@ && f[4] == "uk_gate_approve"@ && f[5] == "uk_cert_set_authority"@
        && f[6] == "uk_cert_mint"@ && f[7] == "uk_cert_transfer"@ && f[8] == "uk_cert_burn"@
        && f[9] == "uk_auction_open"@ && f[10] == "uk_auction_bid"@ && f[11] == "uk_auction_close"@);
    if f.contains(s) {
        let k = choose|k: int| 0 <= k < f.len() && f[k] == s;
        assert(0 <= k < 12);
    }
}

/// The expensive kernel symbols, which consume the caller's windowed budget:
/// evolution, conditioning, event probabilities, Bayesian updates, belief
/// propagation and ODE analysis.
pub open spec fn expensive_symbols() -> Seq<Seq<char>> {
    seq!["uk_evolve"@, "uk_condition"@, "uk_event_probability"@, "uk_bayesian_update"@,
        "uk_belief_propagation"@, "uk_ode_analyze"@]
}

/// The expensive symbols are exactly the metered ones: a call of one that
/// passes the other gates is charged to the meter, and admitted only when the
/// meter admits it.
pub proof fn law_expensive_symbols_are_metered(call: LoopbackCall, decision: i64)
    ensures
        metered_symbol(call.symbol@) <==> expensive_symbols().contains(call.symbol@),
        expensive_symbols().contains(call.symbol@) && call.denial() is None ==>
            (run_gates(call, false, decision) == Gate::Admitted <==> decision == 0),
{
    let f = expensive_symbols();
    assert(f[0] == "uk_evolve"@ && f[1] == "uk_condition"@ && f[2] == "uk_event_probability"@
        && f[3] == "uk_bayesian_update"@ && f[4] == "uk_belief_propagation"@ && f[5] == "uk_ode_analyze"@);
    if f.contains(call.symbol@) {
        let k = choose|k: int| 0 <= k < f.len() && f[k] == call.symbol@;
        assert(0 <= k < 6);
    }
    if metered_symbol(call.symbol@) {
        if call.symbol@ == "uk_evolve"@ { assert(f[0] == call.symbol@); }
        else if call.symbol@ == "uk_condition"@ { assert(f[1] == call.symbol@); }
        else if call.symbol@ == "uk_event_probability"@ { assert(f[2] == call.symbol@); }
        else if call.symbol@ == "uk_bayesian_update"@ { assert(f[3] == call.symbol@); }
        else if call.symbol@ == "uk_belief_propagation"@ { assert(f[4] == call.symbol@); }
        else { assert(f[5] == call.symbol@); }
    }
}

} // verus!
