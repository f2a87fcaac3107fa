//! The decisions of the `lconn` console: its target (`host:port[:user:pass]`
//! and flags), file formats by extension, and the console's own
//! commands. Talking to the server, the terminal and files is the
//! caller's.

use vstd::prelude::*;
use vstd::utf8::*;

use crate::io::temporal::{is_ws, trim_end_ws, trim_start_ws, trim_ws};
use crate::k::{K, KV, count_of, strs};
use crate::num::{parse_u16, parse_u16_spec};
use crate::text::push_char;

verus! {

/// The characters of `s`.
pub fn chars_of(s: &str) -> (v: Vec<char>)
    ensures
        v@ == s@,
{
    let mut v: Vec<char> = Vec::new();
    for c in it: s.chars()
        invariant
            it.seq() == s@,
            v@ == it.seq().take(it.index() as int),
    {
        v.push(c);
    }
    assert(v@ =~= s@);
    v
}

/// The characters `cs[a..b]` as a string.
pub fn string_of(cs: &Vec<char>, a: usize, b: usize) -> (s: String)
    requires
        a <= b <= cs@.len(),
    ensures
        s@ == cs@.subrange(a as int, b as int),
{
    let mut s = String::new();
    let mut i = a;
    while i < b
        invariant
            a <= i <= b <= cs@.len(),
            s@ == cs@.subrange(a as int, i as int),
        decreases b - i,
    {
        push_char(&mut s, cs[i]);
        assert(cs@.subrange(a as int, i + 1) =~= cs@.subrange(a as int, i as int).push(cs@[i as int]));
        i = i + 1;
    }
    s
}

/// `char::is_whitespace`.
pub fn is_ws_char(c: char) -> (b: bool)
    ensures
        b == is_ws(c),
{
    let u = c as u32;
    (0x9 <= u && u <= 0xd) || u == 0x20 || u == 0x85 || u == 0xa0 || u == 0x1680 || (0x2000 <= u
        && u <= 0x200a) || u == 0x2028 || u == 0x2029 || u == 0x202f || u == 0x205f || u == 0x3000
}

/// First index at or after `from` holding `c`.
pub open spec fn find_char(cs: Seq<char>, c: char, from: int) -> Option<int>
    decreases cs.len() - from,
{
    if from < 0 || from >= cs.len() {
        None
    } else if cs[from] == c {
        Some(from)
    } else {
        find_char(cs, c, from + 1)
    }
}

pub proof fn lemma_find_char(cs: Seq<char>, c: char, from: int)
    ensures
        find_char(cs, c, from) matches Some(i) ==> from <= i < cs.len() && cs[i] == c,
    decreases cs.len() - from,
{
    if 0 <= from < cs.len() && cs[from] != c {
        lemma_find_char(cs, c, from + 1);
    }
}

fn find(cs: &Vec<char>, c: char, from: usize) -> (r: Option<usize>)
    requires
        from <= cs@.len(),
    ensures
        match r {
            Some(i) => find_char(cs@, c, from as int) == Some(i as int) && from <= i < cs@.len(),
            None => find_char(cs@, c, from as int) is None,
        },
{
    proof {
        lemma_find_char(cs@, c, from as int);
    }
    let mut i = from;
    while i < cs.len()
        invariant
            from <= i <= cs@.len(),
            find_char(cs@, c, from as int) == find_char(cs@, c, i as int),
        decreases cs@.len() - i,
    {
        if cs[i] == c {
            return Some(i);
        }
        i = i + 1;
    }
    None
}

/// Where to connect, and as whom (`""`, `user` or `user:pass`).
#[derive(Debug, PartialEq)]
pub struct Target {
    pub host: String,
    pub port: u16,
    pub creds: String,
}

/// Why a target string was refused.
#[derive(Debug, PartialEq, Eq, Structural)]
pub enum TargetError {
    MissingPort,
    BadPort,
}

pub open spec fn target_error_text(e: TargetError) -> Seq<char> {
    match e {
        TargetError::MissingPort => "missing port"@,
        TargetError::BadPort => "port must be a number 1-65535"@,
    }
}

impl TargetError {
    /// The error's text.
    pub fn message(&self) -> (s: String)
        ensures
            s@ == target_error_text(*self),
    {
        match self {
            TargetError::MissingPort => "missing port".to_owned(),
            TargetError::BadPort => "port must be a number 1-65535".to_owned(),
        }
    }
}

/// Credentials from a user and a password: none without a user, the user
/// alone without a password, else `user:pass`.
pub open spec fn creds_of(user: Seq<char>, pass: Seq<char>) -> Seq<char> {
    if user.len() == 0 {
        Seq::empty()
    } else if pass.len() == 0 {
        user
    } else {
        user + seq![':'] + pass
    }
}

/// `host:port[:user[:pass]]` split at its first three colons (the
/// password keeps any further ones): host, port and credentials, or why
/// not.
pub open spec fn target_spec(s: Seq<char>) -> Result<(Seq<char>, int, Seq<char>), TargetError> {
    match find_char(s, ':', 0) {
        None => Err(TargetError::MissingPort),
        Some(i1) => {
            let (port_text, rest) = match find_char(s, ':', i1 + 1) {
                None => (s.subrange(i1 + 1, s.len() as int), None::<int>),
                Some(i2) => (s.subrange(i1 + 1, i2), Some(i2 + 1)),
            };
            match parse_u16_spec(encode_utf8(port_text)) {
                None => Err(TargetError::BadPort),
                Some(p) => {
                    let (user, pass) = match rest {
                        None => (Seq::<char>::empty(), Seq::<char>::empty()),
                        Some(a) => match find_char(s, ':', a) {
                            None => (s.subrange(a, s.len() as int), Seq::<char>::empty()),
                            Some(i3) => (s.subrange(a, i3), s.subrange(i3 + 1, s.len() as int)),
                        },
                    };
                    Ok((s.subrange(0, i1), p, creds_of(user, pass)))
                },
            }
        },
    }
}

proof fn lemma_find_char_none(cs: Seq<char>, c: char, from: int)
    requires
        0 <= from,
        forall|i: int| from <= i < cs.len() ==> #[trigger] cs[i] != c,
    ensures
        find_char(cs, c, from) is None,
    decreases cs.len() - from,
{
    if from < cs.len() {
        lemma_find_char_none(cs, c, from + 1);
    }
}

proof fn lemma_find_char_at(cs: Seq<char>, c: char, from: int, i: int)
    requires
        0 <= from <= i < cs.len(),
        cs[i] == c,
        forall|j: int| from <= j < i ==> #[trigger] cs[j] != c,
    ensures
        find_char(cs, c, from) == Some(i),
    decreases i - from,
{
    if from < i {
        lemma_find_char_at(cs, c, from + 1, i);
    }
}

/// The decimal spelling of a port: digits only, reading back as the port.
proof fn lemma_port_text(p: int)
    requires
        0 <= p <= 65535,
    ensures
        parse_u16_spec(encode_utf8(crate::text::dec_nat(p as nat))) == Some(p),
        forall|i: int|
            0 <= i < crate::text::dec_nat(p as nat).len() ==> #[trigger] crate::text::dec_nat(
                p as nat,
            )[i] != ':',
{
    crate::io::temporal::lemma_digit_text(p);
    crate::num::lemma_parse_pad(p, 1, i32::MIN as int, u16::MAX as int);
    let t = crate::text::dec_nat(p as nat);
    crate::text::lemma_dec_nat_len(p as nat);
    assert(crate::text::dec_pad(p, 1) =~= t) by {
        assert(crate::text::pow10(5) == 100000) by {
            reveal_with_fuel(crate::text::pow10, 6);
        }
        crate::text::lemma_dec_nat_len_bound(p as nat, 5);
    }
    crate::num::lemma_pad_digits(p as nat, 1);
    assert forall|i: int| 0 <= i < t.len() implies #[trigger] t[i] != ':' by {
        assert(crate::num::is_digit(crate::num::ascii_bytes(t)[i]));
    }
}

/// Law: `host:port` names that host and port with no credentials, and
/// `host:port:user:pass` (a user and a password, the password free to hold
/// colons) adds `user:pass` as the credentials, for every host and user
/// without a colon and every port.
pub proof fn lemma_target_parts(host: Seq<char>, p: int, user: Seq<char>, pass: Seq<char>)
    requires
        0 <= p <= 65535,
        forall|i: int| 0 <= i < host.len() ==> #[trigger] host[i] != ':',
        forall|i: int| 0 <= i < user.len() ==> #[trigger] user[i] != ':',
        user.len() > 0,
        pass.len() > 0,
    ensures
        target_spec(host + seq![':'] + crate::text::dec_nat(p as nat)) == Ok::<_, TargetError>(
            (host, p, Seq::<char>::empty()),
        ),
        target_spec(
            host + seq![':'] + crate::text::dec_nat(p as nat) + seq![':'] + user + seq![':'] + pass,
        ) == Ok::<_, TargetError>((host, p, user + seq![':'] + pass)),
{
    let pt = crate::text::dec_nat(p as nat);
    lemma_port_text(p);
    let h = host.len() as int;
    let n = pt.len() as int;
    let s1 = host + seq![':'] + pt;
    assert forall|j: int| 0 <= j < h implies #[trigger] s1[j] != ':' by {
        assert(s1[j] == host[j]);
    }
    lemma_find_char_at(s1, ':', 0, h);
    assert forall|j: int| h + 1 <= j < s1.len() implies #[trigger] s1[j] != ':' by {
        assert(s1[j] == pt[j - h - 1]);
    }
    lemma_find_char_none(s1, ':', h + 1);
    assert(s1.subrange(h + 1, s1.len() as int) =~= pt);
    assert(s1.subrange(0, h) =~= host);
    let u = user.len() as int;
    let s2 = host + seq![':'] + pt + seq![':'] + user + seq![':'] + pass;
    assert forall|j: int| 0 <= j < h implies #[trigger] s2[j] != ':' by {
        assert(s2[j] == host[j]);
    }
    lemma_find_char_at(s2, ':', 0, h);
    assert forall|j: int| h + 1 <= j < h + 1 + n implies #[trigger] s2[j] != ':' by {
        assert(s2[j] == pt[j - h - 1]);
    }
    lemma_find_char_at(s2, ':', h + 1, h + 1 + n);
    assert forall|j: int| h + 2 + n <= j < h + 2 + n + u implies #[trigger] s2[j] != ':' by {
        assert(s2[j] == user[j - h - 2 - n]);
    }
    lemma_find_char_at(s2, ':', h + 2 + n, h + 2 + n + u);
    assert(s2.subrange(h + 1, h + 1 + n) =~= pt);
    assert(s2.subrange(0, h) =~= host);
    assert(s2.subrange(h + 2 + n, h + 2 + n + u) =~= user);
    assert(s2.subrange(h + 3 + n + u, s2.len() as int) =~= pass);
}

fn port_of(cs: &Vec<char>, a: usize, b: usize) -> (r: Option<u16>)
    requires
        a <= b <= cs@.len(),
    ensures
        match r {
            Some(p) => parse_u16_spec(encode_utf8(cs@.subrange(a as int, b as int))) == Some(
                p as int,
            ),
            None => parse_u16_spec(encode_utf8(cs@.subrange(a as int, b as int))) is None,
        },
{
    let t = string_of(cs, a, b);
    let bs = t.as_str().as_bytes();
    assert(bs@.subrange(0, bs@.len() as int) =~= bs@);
    parse_u16(bs, 0, bs.len())
}

/// Split `host:port[:user:pass]` into its parts.
pub fn parse_target(s: &str) -> (r: Result<Target, TargetError>)
    ensures
        match r {
            Ok(t) => target_spec(s@) == Ok::<_, TargetError>((t.host@, t.port as int, t.creds@)),
            Err(e) => target_spec(s@) == Err::<(Seq<char>, int, Seq<char>), _>(e),
        },
{
    let cs = chars_of(s);
    let n = cs.len();
    let i1 = match find(&cs, ':', 0) {
        Some(i) => i,
        None => return Err(TargetError::MissingPort),
    };
    let host = string_of(&cs, 0, i1);
    let (pa, pb, rest) = match find(&cs, ':', i1 + 1) {
        None => (i1 + 1, n, None),
        Some(i2) => (i1 + 1, i2, Some(i2 + 1)),
    };
    let port = match port_of(&cs, pa, pb) {
        Some(p) => p,
        None => return Err(TargetError::BadPort),
    };
    let (ua, ub, pass_from) = match rest {
        None => (n, n, n),
        Some(a) => match find(&cs, ':', a) {
            None => (a, n, n),
            Some(i3) => (a, i3, i3 + 1),
        },
    };
    let user = string_of(&cs, ua, ub);
    let pass = string_of(&cs, pass_from, n);
    assert(cs@.subrange(n as int, n as int) =~= Seq::<char>::empty());
    let creds = if ua == ub {
        String::new()
    } else if pass_from == n {
        user
    } else {
        let mut c = user;
        push_char(&mut c, ':');
        let mut i = pass_from;
        while i < n
            invariant
                pass_from <= i <= n == cs@.len(),
                c@ == cs@.subrange(ua as int, ub as int) + seq![':'] + cs@.subrange(
                    pass_from as int,
                    i as int,
                ),
            decreases n - i,
        {
            push_char(&mut c, cs[i]);
            assert(cs@.subrange(pass_from as int, i + 1) =~= cs@.subrange(pass_from as int, i as int).push(cs@[i as int]));
            i = i + 1;
        }
        assert(c@ =~= cs@.subrange(ua as int, ub as int) + seq![':'] + pass@);
        c
    };
    Ok(Target { host, port, creds })
}

/// The console's command line: an optional positional target and flags
/// that override its parts.
#[derive(Debug, PartialEq)]
pub struct Args {
    pub target: Option<String>,
    pub host: Option<String>,
    pub port: Option<u16>,
    pub user: Option<String>,
    pub eval: Option<String>,
}

/// The target of a command line: the positional one (else
/// `localhost:5001` with no credentials), then host, port and
/// credentials each replaced by its flag where given.
pub open spec fn resolve_spec(
    target: Option<Seq<char>>,
    host: Option<Seq<char>>,
    port: Option<u16>,
    user: Option<Seq<char>>,
) -> Result<(Seq<char>, int, Seq<char>), TargetError> {
    let base = match target {
        Some(s) => target_spec(s),
        None => Ok(("localhost"@, 5001int, Seq::<char>::empty())),
    };
    match base {
        Err(e) => Err(e),
        Ok((h, p, c)) => Ok(
            (
                match host {
                    Some(x) => x,
                    None => h,
                },
                match port {
                    Some(x) => x as int,
                    None => p,
                },
                match user {
                    Some(x) => x,
                    None => c,
                },
            ),
        ),
    }
}

pub open spec fn opt_text(o: Option<String>) -> Option<Seq<char>> {
    match o {
        Some(s) => Some(s@),
        None => None,
    }
}

fn clone_text(s: &String) -> (r: String)
    ensures
        r == *s,
{
    s.clone()
}

/// The connection target: the positional string first, flags override.
pub fn resolve_target(args: &Args) -> (r: Result<Target, TargetError>)
    ensures
        match r {
            Ok(t) => resolve_spec(
                opt_text(args.target),
                opt_text(args.host),
                args.port,
                opt_text(args.user),
            ) == Ok::<_, TargetError>((t.host@, t.port as int, t.creds@)),
            Err(e) => resolve_spec(
                opt_text(args.target),
                opt_text(args.host),
                args.port,
                opt_text(args.user),
            ) == Err::<(Seq<char>, int, Seq<char>), _>(e),
        },
{
    let mut t = match &args.target {
        Some(s) => match parse_target(s.as_str()) {
            Ok(t) => t,
            Err(e) => return Err(e),
        },
        None => Target { host: "localhost".to_owned(), port: 5001, creds: String::new() },
    };
    if let Some(h) = &args.host {
        t.host = clone_text(h);
    }
    if let Some(p) = args.port {
        t.port = p;
    }
    if let Some(u) = &args.user {
        t.creds = clone_text(u);
    }
    Ok(t)
}

/// A local file's format, by its extension.
#[derive(Clone, Copy, Debug, PartialEq, Eq, Structural)]
pub enum Fmt {
    Script,
    Csv,
    Json,
    Binary,
}

/// Last index before `end` holding `c`.
pub open spec fn rfind_char(cs: Seq<char>, c: char, end: int) -> Option<int>
    decreases end,
{
    if end <= 0 || end > cs.len() {
        None
    } else if cs[end - 1] == c {
        Some(end - 1)
    } else {
        rfind_char(cs, c, end - 1)
    }
}

pub proof fn lemma_rfind_char(cs: Seq<char>, c: char, end: int)
    ensures
        rfind_char(cs, c, end) matches Some(i) ==> 0 <= i < end <= cs.len() && cs[i] == c,
        rfind_char(cs, c, end) is None && 0 <= end <= cs.len() ==> forall|t: int|
            0 <= t < end ==> cs[t] != c,
    decreases end,
{
    if 0 < end <= cs.len() && cs[end - 1] != c {
        lemma_rfind_char(cs, c, end - 1);
    }
}

fn rfind(cs: &Vec<char>, c: char, a: usize, end: usize) -> (r: Option<usize>)
    requires
        a <= end <= cs@.len(),
    ensures
        match r {
            Some(i) => a <= i < end && rfind_char(cs@.subrange(a as int, end as int), c, (end - a) as int) == Some((i - a) as int),
            None => rfind_char(cs@.subrange(a as int, end as int), c, (end - a) as int) is None,
        },
{
    let ghost w = cs@.subrange(a as int, end as int);
    let mut e = end;
    while e > a
        invariant
            a <= e <= end <= cs@.len(),
            w == cs@.subrange(a as int, end as int),
            rfind_char(w, c, (end - a) as int) == rfind_char(w, c, (e - a) as int),
        decreases e,
    {
        if cs[e - 1] == c {
            assert(w[e - 1 - a] == cs@[e - 1]);
            return Some(e - 1);
        }
        assert(w[e - 1 - a] == cs@[e - 1]);
        e = e - 1;
    }
    None
}

/// The last component of a `/`-separated path that is neither empty nor
/// `.` (the path's normal form drops those).
pub open spec fn last_component(cs: Seq<char>) -> Option<Seq<char>>
    decreases cs.len(),
{
    proof {
        lemma_rfind_char(cs, '/', cs.len() as int);
    }
    let j = match rfind_char(cs, '/', cs.len() as int) {
        Some(j) => j,
        None => -1,
    };
    let seg = cs.subrange(j + 1, cs.len() as int);
    if seg.len() > 0 && seg != seq!['.'] {
        Some(seg)
    } else if j < 0 {
        None
    } else {
        last_component(cs.subrange(0, j))
    }
}

/// `Path::file_name`: the last component, unless it is `..`.
pub open spec fn file_name(cs: Seq<char>) -> Option<Seq<char>> {
    match last_component(cs) {
        Some(seg) => if seg == seq!['.', '.'] {
            None
        } else {
            Some(seg)
        },
        None => None,
    }
}

/// `Path::extension`: what follows the last `.` of the file name, unless
/// that `.` opens the name or there is none.
pub open spec fn extension(cs: Seq<char>) -> Option<Seq<char>> {
    match file_name(cs) {
        None => None,
        Some(name) => match rfind_char(name, '.', name.len() as int) {
            None => None,
            Some(d) => if d == 0 {
                None
            } else {
                Some(name.subrange(d + 1, name.len() as int))
            },
        },
    }
}

pub open spec fn ascii_lower(c: char) -> char {
    if 'A' <= c <= 'Z' {
        ((c as u32) + 32) as char
    } else {
        c
    }
}

/// The format a path's extension names, case aside: `q` and `k`
/// scripts, `csv`, `json`, and anything else binary.
pub open spec fn fmt_spec(path: Seq<char>) -> Fmt {
    fmt_named(
        match extension(path) {
            Some(e) => Seq::new(e.len(), |i: int| ascii_lower(e[i])),
            None => Seq::empty(),
        },
    )
}

fn lower(c: char) -> (r: char)
    ensures
        r == ascii_lower(c),
{
    if 'A' <= c && c <= 'Z' {
        let u = (c as u32) + 32;
        assert(0x61 <= u <= 0x7a);
        char_of(u)
    } else {
        c
    }
}

fn char_of(u: u32) -> (c: char)
    requires
        0x61 <= u <= 0x7a,
    ensures
        c == u as char,
{
    let b = u as u8;
    b as char
}

/// `cs[a..b]` in ASCII lower case.
fn lowered(cs: &Vec<char>, a: usize, b: usize) -> (v: Vec<char>)
    requires
        a <= b <= cs@.len(),
    ensures
        v@ == Seq::new((b - a) as nat, |i: int| ascii_lower(cs@[a + i])),
{
    let mut v: Vec<char> = Vec::new();
    let mut i = a;
    while i < b
        invariant
            a <= i <= b <= cs@.len(),
            v@ == Seq::new((i - a) as nat, |q: int| ascii_lower(cs@[a + q])),
        decreases b - i,
    {
        v.push(lower(cs[i]));
        i = i + 1;
        assert(v@ =~= Seq::new((i - a) as nat, |q: int| ascii_lower(cs@[a + q])));
    }
    v
}

/// The format named by a lower-cased extension.
pub open spec fn fmt_named(e: Seq<char>) -> Fmt {
    if e == seq!['q'] || e == seq!['k'] {
        Fmt::Script
    } else if e == seq!['c', 's', 'v'] {
        Fmt::Csv
    } else if e == seq!['j', 's', 'o', 'n'] {
        Fmt::Json
    } else {
        Fmt::Binary
    }
}

fn named(e: &Vec<char>) -> (f: Fmt)
    ensures
        f == fmt_named(e@),
{
    let n = e.len();
    proof {
        assert(seq!['q'].len() == 1);
        assert(seq!['k'].len() == 1);
        assert(seq!['c', 's', 'v'].len() == 3);
        assert(seq!['j', 's', 'o', 'n'].len() == 4);
        if n == 1 {
            if e@ == seq!['q'] {
                assert(e@[0] == 'q');
            }
            if e@ == seq!['k'] {
                assert(e@[0] == 'k');
            }
        }
        if n == 3 && e@ == seq!['c', 's', 'v'] {
            assert(e@[0] == 'c' && e@[1] == 's' && e@[2] == 'v');
        }
        if n == 4 && e@ == seq!['j', 's', 'o', 'n'] {
            assert(e@[0] == 'j' && e@[1] == 's' && e@[2] == 'o' && e@[3] == 'n');
        }
    }
    if n == 1 && (e[0] == 'q' || e[0] == 'k') {
        assert(e@ =~= seq!['q'] || e@ =~= seq!['k']);
        Fmt::Script
    } else if n == 3 && e[0] == 'c' && e[1] == 's' && e[2] == 'v' {
        assert(e@ =~= seq!['c', 's', 'v']);
        Fmt::Csv
    } else if n == 4 && e[0] == 'j' && e[1] == 's' && e[2] == 'o' && e[3] == 'n' {
        assert(e@ =~= seq!['j', 's', 'o', 'n']);
        Fmt::Json
    } else {
        Fmt::Binary
    }
}

/// Bounds of the last component of the path `cs`, if any.
fn last_segment(cs: &Vec<char>) -> (seg: Option<(usize, usize)>)
    ensures
        match seg {
            Some((a, b)) => a <= b <= cs@.len() && last_component(cs@) == Some(
                cs@.subrange(a as int, b as int),
            ),
            None => last_component(cs@) is None,
        },
{
    let mut end = cs.len();
    assert(cs@.subrange(0, end as int) =~= cs@);
    loop
        invariant
            end <= cs@.len(),
            last_component(cs@) == last_component(cs@.subrange(0, end as int)),
        decreases end,
    {
        let ghost w = cs@.subrange(0, end as int);
        let j = rfind(cs, '/', 0, end);
        assert(w.subrange(0, end as int) =~= w);
        let start = match j {
            Some(j) => j + 1,
            None => 0,
        };
        assert(w.subrange(start as int, w.len() as int) =~= cs@.subrange(start as int, end as int));
        let dot = end - start == 1 && cs[start] == '.';
        proof {
            if end - start == 1 {
                assert(cs@.subrange(start as int, end as int) =~= seq![cs@[start as int]]);
            }
            if cs@.subrange(start as int, end as int) == seq!['.'] {
                assert(cs@.subrange(start as int, end as int)[0] == cs@[start as int]);
            }
        }
        if start < end && !dot {
            return Some((start, end));
        }
        match j {
            None => {
                return None;
            },
            Some(j) => {
                assert(w.subrange(0, j as int) =~= cs@.subrange(0, j as int));
                end = j;
            },
        }
    }
}

/// The format of a local file, by its extension.
pub fn fmt_of(path: &str) -> (f: Fmt)
    ensures
        f == fmt_spec(path@),
{
    let cs = chars_of(path);
    let (a, b) = match last_segment(&cs) {
        None => return named(&Vec::new()),
        Some(p) => p,
    };
    if b - a == 2 && cs[a] == '.' && cs[a + 1] == '.' {
        assert(cs@.subrange(a as int, b as int) =~= seq!['.', '.']);
        return named(&Vec::new());
    }
    proof {
        if cs@.subrange(a as int, b as int) == seq!['.', '.'] {
            assert(cs@.subrange(a as int, b as int)[0] == cs@[a as int]);
            assert(cs@.subrange(a as int, b as int)[1] == cs@[a + 1]);
        }
    }
    let d = match rfind(&cs, '.', a, b) {
        None => return named(&Vec::new()),
        Some(d) => d,
    };
    if d == a {
        return named(&Vec::new());
    }
    let ghost name = cs@.subrange(a as int, b as int);
    assert(name.subrange(d - a + 1, name.len() as int) =~= cs@.subrange(d + 1, b as int));
    let ghost ext = cs@.subrange(d + 1, b as int);
    assert(Seq::new(ext.len(), |i: int| ascii_lower(ext[i])) =~= Seq::new(
        (b - (d + 1)) as nat,
        |i: int| ascii_lower(cs@[d + 1 + i]),
    ));
    let e = lowered(&cs, d + 1, b);
    named(&e)
}

pub open spec fn fmt_label_text(f: Fmt) -> Seq<char> {
    match f {
        Fmt::Script => "script"@,
        Fmt::Csv => "csv"@,
        Fmt::Json => "json"@,
        Fmt::Binary => "l"@,
    }
}

/// The word naming a format in messages.
pub fn fmt_label(f: Fmt) -> (s: &'static str)
    ensures
        s@ == fmt_label_text(f),
{
    match f {
        Fmt::Script => "script",
        Fmt::Csv => "csv",
        Fmt::Json => "json",
        Fmt::Binary => "l",
    }
}

/// Rows of a table or column dictionary: the element count of its first
/// column (0 when there is none, or for anything else).
pub open spec fn row_count_spec(k: KV) -> int {
    let dict = match k {
        KV::Table(d) => *d,
        _ => k,
    };
    match dict {
        KV::Dict(_, v) => match *v {
            KV::List(cols) => if cols.len() > 0 {
                count_of(cols[0])
            } else {
                0
            },
            _ => 0,
        },
        _ => 0,
    }
}

/// Rows of a table or column dictionary.
pub fn row_count(k: &K) -> (n: usize)
    ensures
        n as int == row_count_spec(k@),
{
    proof {
        reveal_with_fuel(K::view, 3);
    }
    let dict: &K = match k {
        K::Table(d) => d,
        _ => k,
    };
    match dict {
        K::Dict(_, v) => match &**v {
            K::List(cols) => {
                proof {
                    crate::k::lemma_kseq_view(cols@);
                }
                if cols.len() > 0 {
                    cols[0].len()
                } else {
                    0
                }
            },
            _ => 0,
        },
        _ => 0,
    }
}

/// `p` opens `s`.
pub open spec fn opens(p: Seq<char>, s: Seq<char>) -> bool {
    s.len() >= p.len() && s.subrange(0, p.len() as int) == p
}

/// `str::trim_start_matches(p)`: every leading copy of `p` removed.
pub open spec fn strip_all(s: Seq<char>, p: Seq<char>) -> Seq<char>
    decreases s.len(),
{
    if p.len() > 0 && opens(p, s) {
        strip_all(s.subrange(p.len() as int, s.len() as int), p)
    } else {
        s
    }
}

fn opens_at(cs: &Vec<char>, a: usize, p: &Vec<char>) -> (r: bool)
    requires
        a <= cs@.len(),
    ensures
        r == opens(p@, cs@.subrange(a as int, cs@.len() as int)),
{
    let n = cs.len();
    let ghost s = cs@.subrange(a as int, n as int);
    if n - a < p.len() {
        return false;
    }
    let mut k: usize = 0;
    while k < p.len()
        invariant
            a <= n == cs@.len(),
            s == cs@.subrange(a as int, n as int),
            n - a >= p@.len(),
            k <= p@.len(),
            forall|q: int| 0 <= q < k ==> s[q] == p@[q],
        decreases p@.len() - k,
    {
        if cs[a + k] != p[k] {
            assert(s.subrange(0, p@.len() as int)[k as int] != p@[k as int]);
            return false;
        }
        k = k + 1;
    }
    assert(s.subrange(0, p@.len() as int) =~= p@);
    true
}

/// Index in `cs` where `cs[a..]` stands once every leading copy of `p`
/// is removed.
fn strip_from(cs: &Vec<char>, a: usize, p: &Vec<char>) -> (r: usize)
    requires
        a <= cs@.len(),
    ensures
        a <= r <= cs@.len(),
        strip_all(cs@.subrange(a as int, cs@.len() as int), p@) == cs@.subrange(
            r as int,
            cs@.len() as int,
        ),
{
    let n = cs.len();
    if p.len() == 0 {
        return a;
    }
    let mut i = a;
    while opens_at(cs, i, p)
        invariant
            a <= i <= n == cs@.len(),
            p@.len() > 0,
            strip_all(cs@.subrange(a as int, n as int), p@) == strip_all(
                cs@.subrange(i as int, n as int),
                p@,
            ),
        decreases n - i,
    {
        let ghost s = cs@.subrange(i as int, n as int);
        assert(s.subrange(p@.len() as int, s.len() as int) =~= cs@.subrange(
            i + p@.len(),
            n as int,
        ));
        i = i + p.len();
    }
    i
}

/// Index of the first character of `cs[a..b]` that is not whitespace.
fn skip_ws(cs: &Vec<char>, a: usize, b: usize) -> (r: usize)
    requires
        a <= b <= cs@.len(),
    ensures
        a <= r <= b,
        trim_start_ws(cs@.subrange(a as int, b as int)) == cs@.subrange(r as int, b as int),
{
    let mut i = a;
    while i < b && is_ws_char(cs[i])
        invariant
            a <= i <= b <= cs@.len(),
            trim_start_ws(cs@.subrange(a as int, b as int)) == trim_start_ws(
                cs@.subrange(i as int, b as int),
            ),
        decreases b - i,
    {
        assert(cs@.subrange(i as int, b as int).drop_first() =~= cs@.subrange(i + 1, b as int));
        i = i + 1;
    }
    proof {
        if i < b {
            assert(cs@.subrange(i as int, b as int)[0] == cs@[i as int]);
        }
    }
    i
}

/// End of `cs[a..b]` once trailing whitespace is removed.
fn back_ws(cs: &Vec<char>, a: usize, b: usize) -> (r: usize)
    requires
        a <= b <= cs@.len(),
    ensures
        a <= r <= b,
        trim_end_ws(cs@.subrange(a as int, b as int)) == cs@.subrange(a as int, r as int),
{
    let mut e = b;
    while e > a && is_ws_char(cs[e - 1])
        invariant
            a <= e <= b <= cs@.len(),
            trim_end_ws(cs@.subrange(a as int, b as int)) == trim_end_ws(
                cs@.subrange(a as int, e as int),
            ),
        decreases e,
    {
        assert(cs@.subrange(a as int, e as int).drop_last() =~= cs@.subrange(a as int, e - 1));
        e = e - 1;
    }
    proof {
        if e > a {
            assert(cs@.subrange(a as int, e as int).last() == cs@[e - 1]);
        }
    }
    e
}

/// Bounds of `cs[a..b]` with surrounding whitespace removed.
fn trim_range(cs: &Vec<char>, a: usize, b: usize) -> (r: (usize, usize))
    requires
        a <= b <= cs@.len(),
    ensures
        a <= r.0 <= r.1 <= b,
        trim_ws(cs@.subrange(a as int, b as int)) == cs@.subrange(r.0 as int, r.1 as int),
{
    let i = skip_ws(cs, a, b);
    let e = back_ws(cs, i, b);
    (i, e)
}

/// First index at or after `from` holding whitespace.
pub open spec fn find_ws(cs: Seq<char>, from: int) -> Option<int>
    decreases cs.len() - from,
{
    if from < 0 || from >= cs.len() {
        None
    } else if is_ws(cs[from]) {
        Some(from)
    } else {
        find_ws(cs, from + 1)
    }
}

proof fn lemma_find_ws(cs: Seq<char>, from: int)
    ensures
        find_ws(cs, from) matches Some(i) ==> from <= i < cs.len(),
    decreases cs.len() - from,
{
    if 0 <= from < cs.len() && !is_ws(cs[from]) {
        lemma_find_ws(cs, from + 1);
    }
}

fn find_ws_at(cs: &Vec<char>, a: usize) -> (r: Option<usize>)
    requires
        a <= cs@.len(),
    ensures
        match r {
            Some(i) => a <= i < cs@.len() && find_ws(cs@.subrange(a as int, cs@.len() as int), 0)
                == Some((i - a) as int),
            None => find_ws(cs@.subrange(a as int, cs@.len() as int), 0) is None,
        },
{
    let n = cs.len();
    let ghost s = cs@.subrange(a as int, n as int);
    let mut i = a;
    while i < n
        invariant
            a <= i <= n == cs@.len(),
            s == cs@.subrange(a as int, n as int),
            find_ws(s, 0) == find_ws(s, (i - a) as int),
        decreases n - i,
    {
        assert(s[i - a] == cs@[i as int]);
        if is_ws_char(cs[i]) {
            return Some(i);
        }
        i = i + 1;
    }
    None
}

/// What `\load` is asked to do.
#[derive(Debug, PartialEq)]
pub enum LoadPlan {
    /// nothing after the command
    Usage,
    /// run the script at the path
    Script(String),
    /// read the data file at the path in the format and assign it to the name
    Data(String, String, Fmt),
    /// a data file without a name to assign it to
    NeedsName(String),
    /// a script given a name
    NoName(String),
}

/// The spec form of a load plan, over texts.
pub enum LoadAction {
    Usage,
    Script(Seq<char>),
    Data(Seq<char>, Seq<char>, Fmt),
    NeedsName(Seq<char>),
    NoName(Seq<char>),
}

pub open spec fn load_action(p: LoadPlan) -> LoadAction {
    match p {
        LoadPlan::Usage => LoadAction::Usage,
        LoadPlan::Script(s) => LoadAction::Script(s@),
        LoadPlan::Data(n, s, f) => LoadAction::Data(n@, s@, f),
        LoadPlan::NeedsName(s) => LoadAction::NeedsName(s@),
        LoadPlan::NoName(s) => LoadAction::NoName(s@),
    }
}

/// `\load [<name>] <path>`: after the command, a path alone runs a
/// script; a name and a path (split at the first whitespace) read a data
/// file.
pub open spec fn load_spec(line: Seq<char>) -> LoadAction {
    let rest = trim_start_ws(strip_all(line, "\\load"@));
    if rest.len() == 0 {
        LoadAction::Usage
    } else {
        let (first, second) = match find_ws(rest, 0) {
            None => (rest, Seq::<char>::empty()),
            Some(i) => (rest.subrange(0, i), trim_ws(rest.subrange(i + 1, rest.len() as int))),
        };
        if second.len() == 0 {
            if fmt_spec(first) == Fmt::Script {
                LoadAction::Script(first)
            } else {
                LoadAction::NeedsName(first)
            }
        } else if fmt_spec(second) == Fmt::Script {
            LoadAction::NoName(second)
        } else {
            LoadAction::Data(first, second, fmt_spec(second))
        }
    }
}

/// Decide what a `\load` line asks for.
pub fn load_plan(line: &str) -> (p: LoadPlan)
    ensures
        load_action(p) == load_spec(line@),
{
    let cs = chars_of(line);
    let n = cs.len();
    let cmd = chars_of("\\load");
    let a = strip_from(&cs, 0, &cmd);
    assert(cs@.subrange(0, n as int) =~= cs@);
    let r = skip_ws(&cs, a, n);
    let ghost rest = cs@.subrange(r as int, n as int);
    if r == n {
        return LoadPlan::Usage;
    }
    let (fa, fb, second) = match find_ws_at(&cs, r) {
        None => (r, n, None),
        Some(i) => {
            assert(rest.subrange(0, i - r) =~= cs@.subrange(r as int, i as int));
            assert(rest.subrange(i - r + 1, rest.len() as int) =~= cs@.subrange(i + 1, n as int));
            let (sa, sb) = trim_range(&cs, i + 1, n);
            (r, i, if sa < sb {
                Some((sa, sb))
            } else {
                None
            })
        },
    };
    let first = string_of(&cs, fa, fb);
    match second {
        None => {
            let f = fmt_of(first.as_str());
            if f == Fmt::Script {
                LoadPlan::Script(first)
            } else {
                LoadPlan::NeedsName(first)
            }
        },
        Some((sa, sb)) => {
            let path = string_of(&cs, sa, sb);
            let f = fmt_of(path.as_str());
            if f == Fmt::Script {
                LoadPlan::NoName(path)
            } else {
                LoadPlan::Data(first, path, f)
            }
        },
    }
}

/// `\save <path> <expr>`: the path up to the first whitespace after the
/// command, and the rest trimmed; `None` when either is missing.
pub open spec fn save_spec(line: Seq<char>) -> Option<(Seq<char>, Seq<char>)> {
    let rest = trim_start_ws(strip_all(line, "\\save"@));
    let (path, expr) = match find_ws(rest, 0) {
        Some(i) => (rest.subrange(0, i), trim_ws(rest.subrange(i, rest.len() as int))),
        None => (rest, Seq::<char>::empty()),
    };
    if path.len() == 0 || expr.len() == 0 {
        None
    } else {
        Some((path, expr))
    }
}

/// The path and expression of a `\save` line, if both are there.
pub fn save_plan(line: &str) -> (r: Option<(String, String)>)
    ensures
        match r {
            Some((p, e)) => save_spec(line@) == Some((p@, e@)),
            None => save_spec(line@) is None,
        },
{
    let cs = chars_of(line);
    let n = cs.len();
    let cmd = chars_of("\\save");
    let a = strip_from(&cs, 0, &cmd);
    assert(cs@.subrange(0, n as int) =~= cs@);
    let r = skip_ws(&cs, a, n);
    let ghost rest = cs@.subrange(r as int, n as int);
    let (pb, ea, eb) = match find_ws_at(&cs, r) {
        Some(i) => {
            assert(rest.subrange(0, i - r) =~= cs@.subrange(r as int, i as int));
            assert(rest.subrange(i - r, rest.len() as int) =~= cs@.subrange(i as int, n as int));
            let (ea, eb) = trim_range(&cs, i, n);
            (i, ea, eb)
        },
        None => {
            assert(rest =~= cs@.subrange(r as int, n as int));
            (n, n, n)
        },
    };
    assert(cs@.subrange(n as int, n as int) =~= Seq::<char>::empty());
    if pb == r || ea == eb {
        return None;
    }
    Some((string_of(&cs, r, pb), string_of(&cs, ea, eb)))
}

/// A console line with its trailing carriage returns and newlines
/// removed.
pub open spec fn chomp(s: Seq<char>) -> Seq<char>
    decreases s.len(),
{
    if s.len() > 0 && (s.last() == '\r' || s.last() == '\n') {
        chomp(s.drop_last())
    } else {
        s
    }
}

/// A line as the console reads it: trailing `\r` / `\n` removed.
pub fn input_line(raw: &str) -> (s: String)
    ensures
        s@ == chomp(raw@),
{
    let cs = chars_of(raw);
    let mut e = cs.len();
    assert(cs@.subrange(0, e as int) =~= cs@);
    while e > 0 && (cs[e - 1] == '\r' || cs[e - 1] == '\n')
        invariant
            e <= cs@.len(),
            chomp(cs@) == chomp(cs@.subrange(0, e as int)),
        decreases e,
    {
        assert(cs@.subrange(0, e as int).drop_last() =~= cs@.subrange(0, e - 1));
        e = e - 1;
    }
    string_of(&cs, 0, e)
}

/// What a console line asks for.
#[derive(Debug, PartialEq)]
pub enum Command {
    /// `\\`: leave
    Quit,
    /// an empty line
    Skip,
    /// `\?` or `\h`
    Help,
    /// `\spool [path]`: start a transcript at the path, or stop (empty)
    Spool(String),
    /// `\load ...`
    Load(LoadPlan),
    /// `\save <path> <expr>` (`None`: usage)
    Save(Option<(String, String)>),
    /// `\cd [dir]`: change the local directory, or show it (empty)
    Cd(String),
    /// `\!cmd`: run a local shell command (nothing when empty)
    Shell(String),
    /// anything else goes to the server
    Send(String),
}

/// The spec form of a command, over texts.
pub enum Action {
    Quit,
    Skip,
    Help,
    Spool(Seq<char>),
    Load(LoadAction),
    Save(Option<(Seq<char>, Seq<char>)>),
    Cd(Seq<char>),
    Shell(Seq<char>),
    Send(Seq<char>),
}

pub open spec fn action(c: Command) -> Action {
    match c {
        Command::Quit => Action::Quit,
        Command::Skip => Action::Skip,
        Command::Help => Action::Help,
        Command::Spool(s) => Action::Spool(s@),
        Command::Load(p) => Action::Load(load_action(p)),
        Command::Save(r) => Action::Save(
            match r {
                Some((p, e)) => Some((p@, e@)),
                None => None,
            },
        ),
        Command::Cd(s) => Action::Cd(s@),
        Command::Shell(s) => Action::Shell(s@),
        Command::Send(s) => Action::Send(s@),
    }
}

/// What a (chomped) console line asks for; the first rule that fits wins.
pub open spec fn command_spec(l: Seq<char>) -> Action {
    if l == "\\\\"@ {
        Action::Quit
    } else if l.len() == 0 {
        Action::Skip
    } else if l == "\\?"@ || l == "\\h"@ {
        Action::Help
    } else if opens("\\spool"@, l) {
        Action::Spool(trim_ws(strip_all(l, "\\spool"@)))
    } else if opens("\\load"@, l) {
        Action::Load(load_spec(l))
    } else if opens("\\save"@, l) {
        Action::Save(save_spec(l))
    } else if opens("\\cd"@, l) {
        Action::Cd(trim_ws(l.subrange("\\cd"@.len() as int, l.len() as int)))
    } else if opens("\\!"@, l) {
        Action::Shell(trim_ws(l.subrange("\\!"@.len() as int, l.len() as int)))
    } else {
        Action::Send(l)
    }
}

fn same_text(cs: &Vec<char>, t: &Vec<char>) -> (r: bool)
    ensures
        r == (cs@ == t@),
{
    if cs.len() != t.len() {
        return false;
    }
    let mut i: usize = 0;
    while i < t.len()
        invariant
            cs@.len() == t@.len(),
            i <= t@.len(),
            forall|q: int| 0 <= q < i ==> cs@[q] == t@[q],
        decreases t@.len() - i,
    {
        if cs[i] != t[i] {
            return false;
        }
        i = i + 1;
    }
    assert(cs@ =~= t@);
    true
}

fn trimmed_from(cs: &Vec<char>, a: usize) -> (s: String)
    requires
        a <= cs@.len(),
    ensures
        s@ == trim_ws(cs@.subrange(a as int, cs@.len() as int)),
{
    let (x, y) = trim_range(cs, a, cs.len());
    string_of(cs, x, y)
}

/// Decide what a console line (already chomped) asks for.
pub fn command(line: &str) -> (c: Command)
    ensures
        action(c) == command_spec(line@),
{
    let cs = chars_of(line);
    let n = cs.len();
    assert(cs@.subrange(0, n as int) =~= cs@);
    if same_text(&cs, &chars_of("\\\\")) {
        return Command::Quit;
    }
    if n == 0 {
        return Command::Skip;
    }
    if same_text(&cs, &chars_of("\\?")) || same_text(&cs, &chars_of("\\h")) {
        return Command::Help;
    }
    let spool = chars_of("\\spool");
    if opens_at(&cs, 0, &spool) {
        let a = strip_from(&cs, 0, &spool);
        return Command::Spool(trimmed_from(&cs, a));
    }
    if opens_at(&cs, 0, &chars_of("\\load")) {
        return Command::Load(load_plan(line));
    }
    if opens_at(&cs, 0, &chars_of("\\save")) {
        return Command::Save(save_plan(line));
    }
    let cd = chars_of("\\cd");
    if opens_at(&cs, 0, &cd) {
        return Command::Cd(trimmed_from(&cs, cd.len()));
    }
    let bang = chars_of("\\!");
    if opens_at(&cs, 0, &bang) {
        return Command::Shell(trimmed_from(&cs, bang.len()));
    }
    Command::Send(line.to_owned())
}

/// `str::lines`: the text split at each `\n`, a `\r` just before it
/// dropped, with no empty line after a final `\n`.
pub open spec fn lines_of(s: Seq<char>) -> Seq<Seq<char>>
    decreases s.len(),
{
    if s.len() == 0 {
        Seq::empty()
    } else {
        match find_char(s, '\n', 0) {
            None => seq![s],
            Some(i) => {
                proof {
                    lemma_find_char(s, '\n', 0);
                }
                let line = s.subrange(0, i);
                let line = if line.len() > 0 && line.last() == '\r' {
                    line.drop_last()
                } else {
                    line
                };
                seq![line] + lines_of(s.subrange(i + 1, s.len() as int))
            },
        }
    }
}

/// A finished statement, if it holds anything once trimmed.
pub open spec fn flush(out: Seq<Seq<char>>, st: Seq<char>) -> Seq<Seq<char>> {
    if trim_ws(st).len() > 0 {
        out.push(trim_ws(st))
    } else {
        out
    }
}

/// Statements so far and the one being gathered, after the lines `ls`:
/// a line opening with `/` is a comment, one opening with whitespace
/// continues the statement (joined by a space), any other starts a new
/// one.
pub open spec fn fold_lines(ls: Seq<Seq<char>>) -> (Seq<Seq<char>>, Seq<char>)
    decreases ls.len(),
{
    if ls.len() == 0 {
        (Seq::empty(), Seq::empty())
    } else {
        let (out, st) = fold_lines(ls.drop_last());
        let raw = ls.last();
        if raw.len() > 0 && raw[0] == '/' {
            (out, st)
        } else if raw.len() > 0 && is_ws(raw[0]) {
            (out, st + seq![' '] + trim_ws(raw))
        } else {
            (flush(out, st), raw)
        }
    }
}

/// The statements of a script, in order.
pub open spec fn statements(s: Seq<char>) -> Seq<Seq<char>> {
    let (out, st) = fold_lines(lines_of(s));
    flush(out, st)
}

proof fn lemma_find_shift(cs: Seq<char>, c: char, p: int, from: int)
    requires
        0 <= p <= cs.len(),
        0 <= from,
    ensures
        find_char(cs.subrange(p, cs.len() as int), c, from) == match find_char(cs, c, p + from) {
            Some(i) => Some(i - p),
            None => None::<int>,
        },
    decreases cs.len() - p - from,
{
    let w = cs.subrange(p, cs.len() as int);
    if from < w.len() {
        assert(w[from] == cs[p + from]);
        if w[from] != c {
            lemma_find_shift(cs, c, p, from + 1);
        }
    }
}

fn flush_into(out: &mut Vec<String>, st: &String)
    ensures
        strs(final(out)@) == flush(strs(old(out)@), st@),
{
    let t = crate::io::temporal::trim(st.as_str());
    if !t.is_empty() {
        let ghost o = out@;
        out.push(t.to_owned());
        assert(strs(out@) =~= strs(o).push(t@));
    }
}

/// The statements of a script: comment lines (`/...`) dropped, lines
/// opening with whitespace joined to the statement before, each
/// statement trimmed, empty ones dropped.
pub fn script_statements(buf: &str) -> (v: Vec<String>)
    ensures
        strs(v@) == statements(buf@),
{
    let cs = chars_of(buf);
    let n = cs.len();
    let ghost all = lines_of(cs@);
    let ghost mut done: Seq<Seq<char>> = Seq::empty();
    let mut out: Vec<String> = Vec::new();
    let mut st = String::new();
    let mut p: usize = 0;
    assert(cs@.subrange(0, n as int) =~= cs@);
    assert(all =~= done + lines_of(cs@.subrange(0, n as int)));
    while p < n
        invariant
            p <= n == cs@.len(),
            all == lines_of(cs@),
            all == done + lines_of(cs@.subrange(p as int, n as int)),
            (strs(out@), st@) == fold_lines(done),
        decreases n - p,
    {
        let ghost w = cs@.subrange(p as int, n as int);
        proof {
            lemma_find_shift(cs@, '\n', p as int, 0);
        }
        let (e, next) = match find(&cs, '\n', p) {
            None => (n, n),
            Some(i) => {
                let e = if i > p && cs[i - 1] == '\r' {
                    i - 1
                } else {
                    i
                };
                (e, i + 1)
            },
        };
        let ghost line = cs@.subrange(p as int, e as int);
        proof {
            match find_char(w, '\n', 0) {
                None => {
                    assert(line =~= w);
                    assert(lines_of(w) == seq![line]);
                    assert(cs@.subrange(n as int, n as int) =~= Seq::<char>::empty());
                    assert(lines_of(cs@.subrange(next as int, n as int)) =~= Seq::<Seq<char>>::empty());
                },
                Some(j) => {
                    let l0 = w.subrange(0, j);
                    assert(l0 =~= cs@.subrange(p as int, p + j));
                    if l0.len() > 0 && l0.last() == '\r' {
                        assert(l0.drop_last() =~= line);
                    } else {
                        assert(l0 =~= line);
                    }
                    assert(w.subrange(j + 1, w.len() as int) =~= cs@.subrange(next as int, n as int));
                },
            }
            assert(lines_of(w) =~= seq![line] + lines_of(cs@.subrange(next as int, n as int)));
        }
        let raw = string_of(&cs, p, e);
        let ghost pre = done;
        proof {
            done = done.push(line);
            assert(done.drop_last() =~= pre);
            assert(all =~= done + lines_of(cs@.subrange(next as int, n as int)));
        }
        if e > p && cs[p] == '/' {
            assert(line[0] == '/');
        } else if e > p && is_ws_char(cs[p]) {
            assert(line[0] == cs@[p as int]);
            push_char(&mut st, ' ');
            let t = crate::io::temporal::trim(raw.as_str());
            crate::text::push_str(&mut st, t);
        } else {
            proof {
                if line.len() > 0 {
                    assert(line[0] == cs@[p as int]);
                }
            }
            flush_into(&mut out, &st);
            st = raw;
        }
        p = next;
    }
    flush_into(&mut out, &st);
    assert(done =~= all);
    out
}

/// Trailing newlines removed.
pub open spec fn strip_newlines(s: Seq<char>) -> Seq<char>
    decreases s.len(),
{
    if s.len() > 0 && s.last() == '\n' {
        strip_newlines(s.drop_last())
    } else {
        s
    }
}

/// The text a reply holds: a char vector that is valid UTF-8, or a
/// symbol.
pub open spec fn reply_string(k: K) -> Option<Seq<char>> {
    match k {
        K::CharVec(v) => if valid_utf8(v@) {
            Some(decode_utf8(v@))
        } else {
            None
        },
        K::Symbol(s) => Some(s@),
        _ => None,
    }
}

/// What the console prints of a reply: when the server formatted it
/// (`fmt`) and it is text, that text without trailing newlines;
/// otherwise the reply printed as an L literal (`shown` spelling its
/// floats). An empty result prints nothing.
pub fn reply_text<F: Fn(crate::render::FloatBits) -> String>(fmt: bool, k: &K, shown: &F) -> (s: String)
    requires
        !(fmt && reply_string(*k) is Some) ==> crate::render::spans_ok(k@),
        forall|x: crate::render::FloatBits| #[trigger] shown.requires((x,)),
    ensures
        fmt && reply_string(*k) is Some ==> s@ == strip_newlines(reply_string(*k)->0),
        !(fmt && reply_string(*k) is Some) && crate::render::float_free(k@) ==> s@
            == crate::render::k_text(k@),
        !(fmt && reply_string(*k) is Some) ==> forall|sp: spec_fn(crate::render::FloatBits) -> Seq<char>|
            crate::render::spells(*shown, sp) ==> s@ == crate::render::k_text_in(k@, sp),
{
    if fmt {
        if let Some(t) = k.as_string() {
            let cs = chars_of(t);
            let mut e = cs.len();
            assert(cs@.subrange(0, e as int) =~= cs@);
            while e > 0 && cs[e - 1] == '\n'
                invariant
                    e <= cs@.len(),
                    strip_newlines(cs@) == strip_newlines(cs@.subrange(0, e as int)),
                decreases e,
            {
                assert(cs@.subrange(0, e as int).drop_last() =~= cs@.subrange(0, e - 1));
                e = e - 1;
            }
            return string_of(&cs, 0, e);
        }
    }
    crate::render::render(k, shown)
}

} // verus!
