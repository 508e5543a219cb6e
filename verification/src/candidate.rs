//! Connection candidates and the text form of their IPv4 endpoints,
//! `a.b.c.d:port`, as carried in signaling envelopes.
use vstd::prelude::*;

use crate::split_tunnel::be32;
use crate::text::{chars_of, dec_chars, decimal, digit_char, find_char, first_index, lemma_first_index, lemma_first_index_of_prefix, push_chars};

verus! {

/// How a candidate endpoint was learned.
#[derive(Debug, Clone, Copy, PartialEq, Eq, Structural)]
pub enum CandidateKind {
    /// A local interface address.
    Host,
    /// The public address a STUN server saw.
    Reflexive,
}

/// The wire name of a candidate kind.
pub open spec fn kind_name(k: CandidateKind) -> Seq<char> {
    match k {
        CandidateKind::Host => "host"@,
        CandidateKind::Reflexive => "reflexive"@,
    }
}

impl CandidateKind {
    /// The wire name of this kind.
    pub fn as_str(&self) -> (s: &'static str)
        ensures
            s@ == kind_name(*self),
    {
        match self {
            CandidateKind::Host => "host",
            CandidateKind::Reflexive => "reflexive",
        }
    }
}

/// A gathered candidate: an IPv4 endpoint and how it was learned.
#[derive(Debug, Clone, Copy)]
pub struct Candidate {
    pub ip: u32,
    pub port: u16,
    pub kind: CandidateKind,
}

/// The candidates gathered on a socket bound to `port`: a host candidate at
/// this machine's primary IPv4 address when it is known, then the reflexive
/// address a STUN server reported, when one did.
pub fn gathered(port: u16, primary_local: Option<u32>, reflexive: Option<(u32, u16)>) -> (v: Vec<Candidate>)
    ensures
        v@.len() == (if primary_local is Some { 1int } else { 0int }) + (if reflexive is Some { 1int } else { 0int }),
        primary_local matches Some(ip) ==> v@[0] == (Candidate { ip, port, kind: CandidateKind::Host }),
        reflexive matches Some((ip, p)) ==> v@.last() == (Candidate { ip, port: p, kind: CandidateKind::Reflexive }),
{
    let mut v: Vec<Candidate> = Vec::new();
    if let Some(ip) = primary_local {
        v.push(Candidate { ip, port, kind: CandidateKind::Host });
    }
    if let Some((ip, p)) = reflexive {
        v.push(Candidate { ip, port: p, kind: CandidateKind::Reflexive });
    }
    v
}

/// Whether `c` is an ASCII decimal digit.
pub open spec fn is_digit(c: char) -> bool {
    '0' <= c && c <= '9'
}

/// Whether every character of `s` is a decimal digit.
pub open spec fn all_digits(s: Seq<char>) -> bool {
    forall|i: int| 0 <= i < s.len() ==> is_digit(#[trigger] s[i])
}

/// The value of the decimal digits `s`, most significant first.
pub open spec fn digits_val(s: Seq<char>) -> nat
    decreases s.len(),
{
    if s.len() == 0 {
        0
    } else {
        digits_val(s.drop_last()) * 10 + ((s.last() as int) - 48) as nat
    }
}

/// An IPv4 octet: one to three digits, no leading zero, at most 255.
pub open spec fn octet_text_ok(s: Seq<char>) -> bool {
    &&& 1 <= s.len() <= 3
    &&& all_digits(s)
    &&& (s.len() == 1 || s[0] != '0')
    &&& digits_val(s) <= 255
}

/// A port: one or more digits (leading zeros allowed), at most 65535.
pub open spec fn port_text_ok(s: Seq<char>) -> bool {
    &&& s.len() >= 1
    &&& all_digits(s)
    &&& digits_val(s) <= 65535
}

/// The pieces of `s` between occurrences of `sep`.
pub open spec fn fields(s: Seq<char>, sep: char) -> Seq<Seq<char>>
    decreases s.len(),
{
    match first_index(s, sep) {
        Some(i) => if 0 <= i < s.len() {
            seq![s.take(i)] + fields(s.skip(i + 1), sep)
        } else {
            seq![s]
        },
        None => seq![s],
    }
}

/// The endpoint written by `s` in the form `a.b.c.d:port`, if it is one.
pub open spec fn endpoint_of_text(s: Seq<char>) -> Option<(u32, u16)> {
    let hp = fields(s, ':');
    let o = fields(hp[0], '.');
    if hp.len() == 2 && o.len() == 4 && octet_text_ok(o[0]) && octet_text_ok(o[1]) && octet_text_ok(
        o[2],
    ) && octet_text_ok(o[3]) && port_text_ok(hp[1]) {
        Some(
            (
                be32(
                    digits_val(o[0]) as u8,
                    digits_val(o[1]) as u8,
                    digits_val(o[2]) as u8,
                    digits_val(o[3]) as u8,
                ),
                digits_val(hp[1]) as u16,
            ),
        )
    } else {
        None
    }
}

/// The text `a.b.c.d:port` of an endpoint.
pub open spec fn endpoint_text(ip: u32, port: u16) -> Seq<char> {
    dec_chars((ip >> 24u32) as nat) + seq!['.'] + dec_chars(((ip >> 16u32) & 0xffu32) as nat) + seq!['.']
        + dec_chars(((ip >> 8u32) & 0xffu32) as nat) + seq!['.'] + dec_chars((ip & 0xffu32) as nat) + seq![':']
        + dec_chars(port as nat)
}

proof fn lemma_fields_some(s: Seq<char>, sep: char, i: int)
    requires
        first_index(s, sep) == Some(i),
    ensures
        0 <= i < s.len(),
        fields(s, sep) == seq![s.take(i)] + fields(s.skip(i + 1), sep),
{
    lemma_first_index(s, sep);
}

proof fn lemma_fields_len(s: Seq<char>, sep: char)
    ensures
        fields(s, sep).len() >= 1,
    decreases s.len(),
{
    match first_index(s, sep) {
        Some(i) => {
            lemma_first_index(s, sep);
            lemma_fields_len(s.skip(i + 1), sep);
        },
        None => {},
    }
}

proof fn lemma_digits_prefix(s: Seq<char>, k: int)
    requires
        all_digits(s),
        0 <= k <= s.len(),
    ensures
        digits_val(s.take(k)) <= digits_val(s),
    decreases s.len(),
{
    if k < s.len() {
        let t = s.drop_last();
        assert(all_digits(t)) by {
            assert forall|j: int| 0 <= j < t.len() implies is_digit(#[trigger] t[j]) by {
                assert(t[j] == s[j]);
            }
        }
        lemma_digits_prefix(t, k);
        assert(t.take(k) =~= s.take(k));
    } else {
        assert(s.take(k) =~= s);
    }
}

/// Parse the digits `cs[from..to]` as a number no greater than `limit`.
fn parse_digits(cs: &[char], from: usize, to: usize, limit: u32) -> (r: Option<u32>)
    requires
        from <= to <= cs@.len(),
        limit <= 65535,
    ensures
        ({
            let s = cs@.subrange(from as int, to as int);
            r == if s.len() >= 1 && all_digits(s) && digits_val(s) <= limit {
                Some(digits_val(s) as u32)
            } else {
                None
            }
        }),
{
    let ghost s = cs@.subrange(from as int, to as int);
    if from == to {
        return None;
    }
    let mut val: u32 = 0;
    let mut i = from;
    while i < to
        invariant
            from <= i <= to <= cs@.len(),
            s == cs@.subrange(from as int, to as int),
            limit <= 65535,
            all_digits(cs@.subrange(from as int, i as int)),
            val == digits_val(cs@.subrange(from as int, i as int)),
            val <= limit,
        decreases to - i,
    {
        let c = cs[i];
        if !('0' <= c && c <= '9') {
            assert(s[i - from] == c);
            return None;
        }
        let ghost before = cs@.subrange(from as int, i as int);
        let ghost after = cs@.subrange(from as int, i + 1);
        assert(after.drop_last() =~= before);
        assert(after.last() == c);
        let d = (c as u32) - 48;
        let next = val * 10 + d;
        i = i + 1;
        assert(all_digits(after)) by {
            assert forall|j: int| 0 <= j < after.len() implies is_digit(#[trigger] after[j]) by {
                if j < before.len() {
                    assert(after[j] == before[j]);
                }
            }
        }
        if next > limit {
            proof {
                if all_digits(s) {
                    assert(s.take(i - from) =~= after);
                    lemma_digits_prefix(s, i - from);
                }
            }
            return None;
        }
        val = next;
    }
    assert(cs@.subrange(from as int, to as int) =~= s);
    Some(val)
}

/// Parse the octet `cs[from..to]`.
fn parse_octet(cs: &[char], from: usize, to: usize) -> (r: Option<u8>)
    requires
        from <= to <= cs@.len(),
    ensures
        ({
            let s = cs@.subrange(from as int, to as int);
            r == if octet_text_ok(s) {
                Some(digits_val(s) as u8)
            } else {
                None
            }
        }),
{
    let ghost s = cs@.subrange(from as int, to as int);
    if to - from > 3 || (to - from > 1 && cs[from] == '0') {
        proof {
            if to - from > 1 {
                assert(s[0] == cs@[from as int]);
            }
        }
        return None;
    }
    match parse_digits(cs, from, to, 255) {
        Some(v) => Some(v as u8),
        None => None,
    }
}

/// Split `cs[0..n]` at its only `':'`.
fn split_colon(cs: &[char]) -> (r: Option<usize>)
    ensures
        ({
            let s = cs@;
            match r {
                Some(c1) => c1 < s.len() && fields(s, ':') == seq![s.subrange(0, c1 as int), s.subrange(c1 + 1, s.len() as int)],
                None => fields(s, ':').len() != 2,
            }
        }),
{
    let n = cs.len();
    let ghost s = cs@;
    let c1 = find_char(cs, 0, n, ':');
    assert(cs@.subrange(0, n as int) =~= s);
    if c1 == n {
        assert(fields(s, ':') == seq![s]);
        return None;
    }
    let ghost host = s.take(c1 as int);
    let ghost rest = s.skip(c1 + 1);
    proof {
        lemma_fields_some(s, ':', c1 as int);
        assert(rest =~= cs@.subrange(c1 + 1, n as int));
        assert(host =~= cs@.subrange(0, c1 as int));
    }
    let c2 = find_char(cs, c1 + 1, n, ':');
    if c2 < n {
        proof {
            lemma_fields_some(rest, ':', c2 - c1 - 1);
            lemma_fields_len(rest.skip(c2 - c1), ':');
        }
        return None;
    }
    assert(fields(rest, ':') == seq![rest]);
    assert(fields(s, ':') =~= seq![host, rest]);
    Some(c1)
}

/// The three separators of `cs[from..to]` when it has exactly four
/// `sep`-separated fields.
#[verifier::rlimit(30)]
pub(crate) fn split4(cs: &[char], from: usize, to: usize, sep: char) -> (r: Option<(usize, usize, usize)>)
    requires
        from <= to <= cs@.len(),
    ensures
        ({
            let h = cs@.subrange(from as int, to as int);
            match r {
                Some((d1, d2, d3)) => from <= d1 < d2 < d3 < to && fields(h, sep) == seq![
                    cs@.subrange(from as int, d1 as int),
                    cs@.subrange(d1 + 1, d2 as int),
                    cs@.subrange(d2 + 1, d3 as int),
                    cs@.subrange(d3 + 1, to as int),
                ],
                None => fields(h, sep).len() != 4,
            }
        }),
{
    let ghost host = cs@.subrange(from as int, to as int);
    let d1 = find_char(cs, from, to, sep);
    if d1 == to {
        assert(fields(host, sep) == seq![host]);
        return None;
    }
    let ghost h1 = host.skip(d1 - from + 1);
    proof {
        lemma_fields_some(host, sep, d1 - from);
        assert(h1 =~= cs@.subrange(d1 + 1, to as int));
    }
    let d2 = find_char(cs, d1 + 1, to, sep);
    if d2 == to {
        assert(fields(h1, sep) == seq![h1]);
        return None;
    }
    let ghost h2 = h1.skip(d2 - d1);
    proof {
        lemma_fields_some(h1, sep, d2 - d1 - 1);
        assert(h2 =~= cs@.subrange(d2 + 1, to as int));
    }
    let d3 = find_char(cs, d2 + 1, to, sep);
    if d3 == to {
        assert(fields(h2, sep) == seq![h2]);
        return None;
    }
    let ghost h3 = h2.skip(d3 - d2);
    proof {
        lemma_fields_some(h2, sep, d3 - d2 - 1);
        assert(h3 =~= cs@.subrange(d3 + 1, to as int));
    }
    let d4 = find_char(cs, d3 + 1, to, sep);
    if d4 < to {
        proof {
            lemma_fields_some(h3, sep, d4 - d3 - 1);
            lemma_fields_len(h3.skip(d4 - d3), sep);
        }
        return None;
    }
    assert(fields(h3, sep) == seq![h3]);
    assert(host.take(d1 - from) =~= cs@.subrange(from as int, d1 as int));
    assert(h1.take(d2 - d1 - 1) =~= cs@.subrange(d1 + 1, d2 as int));
    assert(h2.take(d3 - d2 - 1) =~= cs@.subrange(d2 + 1, d3 as int));
    assert(fields(host, sep) =~= seq![host.take(d1 - from), h1.take(d2 - d1 - 1), h2.take(d3 - d2 - 1), h3]);
    Some((d1, d2, d3))
}

/// Parse an IPv4 endpoint written `a.b.c.d:port`; `None` for anything else.
pub fn parse_endpoint(text: &str) -> (r: Option<(u32, u16)>)
    ensures
        r == endpoint_of_text(text@),
{
    let cs = chars_of(text);
    let n = cs.len();
    let c1 = match split_colon(cs.as_slice()) {
        Some(c1) => c1,
        None => return None,
    };
    assert(cs@.subrange(0, n as int) =~= cs@);
    let (d1, d2, d3) = match split4(cs.as_slice(), 0, c1, '.') {
        Some(d) => d,
        None => return None,
    };
    let port = parse_digits(cs.as_slice(), c1 + 1, n, 65535);
    let a = parse_octet(cs.as_slice(), 0, d1);
    let b = parse_octet(cs.as_slice(), d1 + 1, d2);
    let c = parse_octet(cs.as_slice(), d2 + 1, d3);
    let d = parse_octet(cs.as_slice(), d3 + 1, c1);
    match (a, b, c, d, port) {
        (Some(a), Some(b), Some(c), Some(d), Some(p)) => {
            let ip = crate::split_tunnel::be32_exec(a, b, c, d);
            Some((ip, p as u16))
        },
        _ => None,
    }
}

/// The text `a.b.c.d:port` of an endpoint.
pub fn format_endpoint(ip: u32, port: u16) -> (s: String)
    ensures
        s@ == endpoint_text(ip, port),
{
    let mut s = String::new();
    let a = decimal((ip >> 24) as u64);
    let b = decimal(((ip >> 16) & 0xff) as u64);
    let c = decimal(((ip >> 8) & 0xff) as u64);
    let d = decimal((ip & 0xff) as u64);
    let p = decimal(port as u64);
    push_chars(&mut s, a.as_slice());
    s.push('.');
    push_chars(&mut s, b.as_slice());
    s.push('.');
    push_chars(&mut s, c.as_slice());
    s.push('.');
    push_chars(&mut s, d.as_slice());
    s.push(':');
    push_chars(&mut s, p.as_slice());
    s
}

pub(crate) proof fn lemma_fields_split(a: Seq<char>, b: Seq<char>, sep: char)
    requires
        forall|j: int| 0 <= j < a.len() ==> #[trigger] a[j] != sep,
    ensures
        fields(a + seq![sep] + b, sep) == seq![a] + fields(b, sep),
{
    let t = a + seq![sep] + b;
    assert(t =~= a + (seq![sep] + b));
    lemma_first_index_of_prefix(a, seq![sep] + b, sep);
    lemma_fields_some(t, sep, a.len() as int);
    assert(t.take(a.len() as int) =~= a);
    assert(t.skip(a.len() as int + 1) =~= b);
}

pub(crate) proof fn lemma_fields_single(b: Seq<char>, sep: char)
    requires
        forall|j: int| 0 <= j < b.len() ==> #[trigger] b[j] != sep,
    ensures
        fields(b, sep) == seq![b],
{
    lemma_first_index(b, sep);
}

proof fn lemma_digit_char(d: nat)
    requires
        d < 10,
    ensures
        is_digit(digit_char(d)),
        digit_char(d) as int == d + 48,
{
    assert((((d + 48) as u8) as char) as int == d + 48);
}

/// The decimal text of `n` is digits that read back as `n`.
proof fn lemma_dec_digits(n: nat)
    ensures
        all_digits(dec_chars(n)),
        dec_chars(n).len() >= 1,
        digits_val(dec_chars(n)) == n,
        n < 10 ==> dec_chars(n).len() == 1,
        n < 100 ==> dec_chars(n).len() <= 2,
        n < 1000 ==> dec_chars(n).len() <= 3,
        n >= 10 ==> dec_chars(n)[0] != '0',
    decreases n,
{
    if n < 10 {
        lemma_digit_char(n);
        let s = dec_chars(n);
        assert(s.drop_last() =~= Seq::<char>::empty());
        assert(digits_val(s.drop_last()) == 0);
        assert(s.last() == digit_char(n));
        assert(digits_val(s) == n);
    } else {
        lemma_dec_digits(n / 10);
        lemma_digit_char(n % 10);
        let s = dec_chars(n);
        let t = dec_chars(n / 10);
        assert(s.drop_last() =~= t);
        assert(s.last() == digit_char(n % 10));
        assert(digits_val(s) == digits_val(t) * 10 + (n % 10));
        assert(n / 10 * 10 + n % 10 == n);
        assert forall|j: int| 0 <= j < s.len() implies is_digit(#[trigger] s[j]) by {
            if j < t.len() {
                assert(s[j] == t[j]);
            }
        }
        assert(s[0] == t[0]);
        if n / 10 < 10 {
            lemma_digit_char(n / 10);
        }
    }
}

proof fn lemma_no_sep(s: Seq<char>, sep: char)
    requires
        all_digits(s),
        !is_digit(sep),
    ensures
        forall|j: int| 0 <= j < s.len() ==> #[trigger] s[j] != sep,
{
    assert forall|j: int| 0 <= j < s.len() implies #[trigger] s[j] != sep by {
        assert(is_digit(s[j]));
    }
}

proof fn lemma_octet_text(x: nat)
    requires
        x <= 255,
    ensures
        octet_text_ok(dec_chars(x)),
        digits_val(dec_chars(x)) == x,
        forall|j: int| 0 <= j < dec_chars(x).len() ==> #[trigger] dec_chars(x)[j] != '.',
        forall|j: int| 0 <= j < dec_chars(x).len() ==> #[trigger] dec_chars(x)[j] != ':',
{
    lemma_dec_digits(x);
    lemma_no_sep(dec_chars(x), '.');
    lemma_no_sep(dec_chars(x), ':');
}

/// The text of an endpoint reads back as that endpoint.
pub proof fn law_endpoint_text_round_trip(ip: u32, port: u16)
    ensures
        endpoint_of_text(endpoint_text(ip, port)) == Some((ip, port)),
{
    let a = (ip >> 24u32) as nat;
    let b = ((ip >> 16u32) & 0xffu32) as nat;
    let c = ((ip >> 8u32) & 0xffu32) as nat;
    let d = (ip & 0xffu32) as nat;
    assert((ip >> 24u32) <= 255 && ((ip >> 16u32) & 0xffu32) <= 255 && ((ip >> 8u32) & 0xffu32) <= 255 && (ip & 0xffu32) <= 255) by (bit_vector);
    lemma_octet_text(a);
    lemma_octet_text(b);
    lemma_octet_text(c);
    lemma_octet_text(d);
    lemma_dec_digits(port as nat);
    lemma_no_sep(dec_chars(port as nat), ':');
    let (da, db, dc, dd, dp) = (dec_chars(a), dec_chars(b), dec_chars(c), dec_chars(d), dec_chars(port as nat));
    let host = da + seq!['.'] + db + seq!['.'] + dc + seq!['.'] + dd;
    assert(endpoint_text(ip, port) =~= host + seq![':'] + dp);
    assert forall|j: int| 0 <= j < host.len() implies #[trigger] host[j] != ':' by {
        if j < da.len() {
            assert(host[j] == da[j]);
        } else if j == da.len() {
        } else if j < da.len() + 1 + db.len() {
            assert(host[j] == db[j - da.len() - 1]);
        } else if j == da.len() + 1 + db.len() {
        } else if j < da.len() + 2 + db.len() + dc.len() {
            assert(host[j] == dc[j - da.len() - 2 - db.len()]);
        } else if j == da.len() + 2 + db.len() + dc.len() {
        } else {
            assert(host[j] == dd[j - da.len() - 3 - db.len() - dc.len()]);
        }
    }
    lemma_fields_split(host, dp, ':');
    lemma_fields_single(dp, ':');
    let r1 = db + seq!['.'] + dc + seq!['.'] + dd;
    let r2 = dc + seq!['.'] + dd;
    assert(host =~= da + seq!['.'] + r1);
    assert(r1 =~= db + seq!['.'] + r2);
    lemma_fields_split(da, r1, '.');
    lemma_fields_split(db, r2, '.');
    lemma_fields_split(dc, dd, '.');
    lemma_fields_single(dd, '.');
    assert(fields(host, '.') =~= seq![da, db, dc, dd]);
    assert(fields(endpoint_text(ip, port), ':') =~= seq![host, dp]);
    assert(be32((ip >> 24u32) as u8, ((ip >> 16u32) & 0xffu32) as u8, ((ip >> 8u32) & 0xffu32) as u8, (ip & 0xffu32) as u8) == ip) by (bit_vector);
}

/// Whether `c` is a decimal digit, or, when `hex`, a hexadecimal one of
/// either case.
pub open spec fn in_class(c: char, hex: bool) -> bool {
    ('0' <= c && c <= '9') || (hex && (('a' <= c && c <= 'f') || ('A' <= c && c <= 'F')))
}

/// How many characters from `p` on are of the class.
pub open spec fn run_len(s: Seq<char>, p: int, hex: bool) -> nat
    decreases s.len() - p,
{
    if 0 <= p < s.len() && in_class(s[p], hex) {
        1 + run_len(s, p + 1, hex)
    } else {
        0
    }
}

/// Where an IPv4 octet read at `p` ends: its whole run of digits, one to
/// three of them, no leading zero, at most 255.
pub open spec fn octet_end(s: Seq<char>, p: int) -> Option<int> {
    let n = run_len(s, p, false);
    if 0 <= p <= s.len() && octet_text_ok(s.subrange(p, p + n)) {
        Some(p + n)
    } else {
        None
    }
}

/// Where a `.` and an octet read at `p` end.
pub open spec fn dot_octet_end(s: Seq<char>, p: int) -> Option<int> {
    if 0 <= p < s.len() && s[p] == '.' {
        octet_end(s, p + 1)
    } else {
        None
    }
}

/// Where a dotted-quad IPv4 address read at `p` ends.
pub open spec fn ipv4_end(s: Seq<char>, p: int) -> Option<int> {
    match octet_end(s, p) {
        Some(a) => match dot_octet_end(s, a) {
            Some(b) => match dot_octet_end(s, b) {
                Some(c) => dot_octet_end(s, c),
                None => None,
            },
            None => None,
        },
        None => None,
    }
}

/// Where a group of an IPv6 address read at `p` ends: its whole run of
/// hexadecimal digits, one to four of them.
pub open spec fn hex_group_end(s: Seq<char>, p: int) -> Option<int> {
    let n = run_len(s, p, true);
    if 1 <= n <= 4 {
        Some(p + n)
    } else {
        None
    }
}

/// Where the separator before group `i` read at `p` ends: none before the
/// first group, a `:` before the others.
pub open spec fn sep_end(s: Seq<char>, p: int, i: int) -> Option<int> {
    if i == 0 {
        Some(p)
    } else if 0 <= p < s.len() && s[p] == ':' {
        Some(p + 1)
    } else {
        None
    }
}

/// Reading groups `i..limit` of an IPv6 address from `p`, as `std` reads
/// them: how many groups were read, where reading stopped, and whether it
/// ended with an embedded IPv4 address (which counts as two groups and is
/// tried first wherever two groups are left).
pub open spec fn v6_groups(s: Seq<char>, p: int, i: int, limit: int) -> (int, int, bool)
    decreases limit - i,
{
    if i >= limit {
        (i, p, false)
    } else {
        match sep_end(s, p, i) {
            None => (i, p, false),
            Some(q) => if i + 1 < limit && ipv4_end(s, q) is Some {
                (i + 2, ipv4_end(s, q)->0, true)
            } else {
                match hex_group_end(s, q) {
                    Some(e) => v6_groups(s, e, i + 1, limit),
                    None => (i, p, false),
                }
            },
        }
    }
}

/// Where an IPv6 address read at `p` ends: eight groups, or fewer with a
/// `::` standing for the rest (an embedded IPv4 address only at the end).
pub open spec fn v6_addr_end(s: Seq<char>, p: int) -> Option<int> {
    let (h, hp, h4) = v6_groups(s, p, 0, 8);
    if h == 8 {
        Some(hp)
    } else if h4 {
        None
    } else if 0 <= hp && hp + 1 < s.len() && s[hp] == ':' && s[hp + 1] == ':' {
        Some(v6_groups(s, hp + 2, 0, 7 - h).1)
    } else {
        None
    }
}

/// Where an optional `%scope` read at `p` ends: a `%` and decimal digits
/// worth at most `u32::MAX`, or nothing.
pub open spec fn scope_end(s: Seq<char>, p: int) -> int {
    let n = run_len(s, p + 1, false);
    if 0 <= p < s.len() && s[p] == '%' && n >= 1 && digits_val(s.subrange(p + 1, p + 1 + n)) <= 0xffff_ffff {
        p + 1 + n
    } else {
        p
    }
}

/// Whether `s` is an IPv6 socket address, `[address%scope]:port`, the scope
/// optional.
pub open spec fn v6_socket_ok(s: Seq<char>) -> bool {
    &&& s.len() >= 1
    &&& s[0] == '['
    &&& match v6_addr_end(s, 1) {
        Some(a) => {
            let b = scope_end(s, a);
            &&& 0 <= b
            &&& b + 1 < s.len()
            &&& s[b] == ']'
            &&& s[b + 1] == ':'
            &&& port_text_ok(s.subrange(b + 2, s.len() as int))
        },
        None => false,
    }
}

/// Whether `s` is a socket address: an IPv4 endpoint `a.b.c.d:port` or an
/// IPv6 one `[address%scope]:port`.
pub open spec fn socket_addr_text_ok(s: Seq<char>) -> bool {
    endpoint_of_text(s) is Some || v6_socket_ok(s)
}

proof fn lemma_run_extend(s: Seq<char>, p: int, q: int, hex: bool)
    requires
        0 <= p <= q <= s.len(),
        forall|j: int| p <= j < q ==> in_class(#[trigger] s[j], hex),
    ensures
        run_len(s, p, hex) == (q - p) + run_len(s, q, hex),
    decreases q - p,
{
    if p < q {
        lemma_run_extend(s, p + 1, q, hex);
    }
}

/// `in_class(c, hex)`.
fn class_has(c: char, hex: bool) -> (b: bool)
    ensures
        b == in_class(c, hex),
{
    ('0' <= c && c <= '9') || (hex && (('a' <= c && c <= 'f') || ('A' <= c && c <= 'F')))
}

/// `run_len(cs, p, hex)`.
fn run_at(cs: &[char], p: usize, hex: bool) -> (n: usize)
    requires
        p <= cs@.len(),
    ensures
        n == run_len(cs@, p as int, hex),
        p + n <= cs@.len(),
        forall|j: int| p <= j < p + n ==> in_class(#[trigger] cs@[j], hex),
{
    let mut q = p;
    while q < cs.len() && class_has(cs[q], hex)
        invariant
            p <= q <= cs@.len(),
            forall|j: int| p <= j < q ==> in_class(#[trigger] cs@[j], hex),
        decreases cs@.len() - q,
    {
        q = q + 1;
    }
    proof {
        lemma_run_extend(cs@, p as int, q as int, hex);
    }
    q - p
}

/// A position read back as an integer.
pub open spec fn opt_pos(r: Option<usize>) -> Option<int> {
    match r {
        Some(e) => Some(e as int),
        None => None,
    }
}

/// `octet_end(cs, p)`.
fn octet_end_at(cs: &[char], p: usize) -> (r: Option<usize>)
    requires
        p <= cs@.len(),
    ensures
        octet_end(cs@, p as int) == opt_pos(r),
        r matches Some(e) ==> e <= cs@.len(),
{
    let len = cs.len();
    let n = run_at(cs, p, false);
    match parse_octet(cs, p, p + n) {
        Some(_) => Some(p + n),
        None => None,
    }
}

/// `dot_octet_end(cs, p)`.
fn dot_octet_end_at(cs: &[char], p: usize) -> (r: Option<usize>)
    requires
        p <= cs@.len(),
    ensures
        dot_octet_end(cs@, p as int) == opt_pos(r),
        r matches Some(e) ==> e <= cs@.len(),
{
    if p < cs.len() && cs[p] == '.' {
        octet_end_at(cs, p + 1)
    } else {
        None
    }
}

/// `ipv4_end(cs, p)`.
fn ipv4_end_at(cs: &[char], p: usize) -> (r: Option<usize>)
    requires
        p <= cs@.len(),
    ensures
        ipv4_end(cs@, p as int) == opt_pos(r),
        r matches Some(e) ==> e <= cs@.len(),
{
    let a = match octet_end_at(cs, p) {
        Some(a) => a,
        None => return None,
    };
    let b = match dot_octet_end_at(cs, a) {
        Some(b) => b,
        None => return None,
    };
    let c = match dot_octet_end_at(cs, b) {
        Some(c) => c,
        None => return None,
    };
    dot_octet_end_at(cs, c)
}

/// `hex_group_end(cs, p)`.
fn hex_group_end_at(cs: &[char], p: usize) -> (r: Option<usize>)
    requires
        p <= cs@.len(),
    ensures
        hex_group_end(cs@, p as int) == opt_pos(r),
        r matches Some(e) ==> e <= cs@.len(),
{
    let len = cs.len();
    let n = run_at(cs, p, true);
    if 1 <= n && n <= 4 {
        Some(p + n)
    } else {
        None
    }
}

/// `v6_groups(cs, p, 0, limit)`.
fn v6_groups_at(cs: &[char], p: usize, limit: usize) -> (r: (usize, usize, bool))
    requires
        p <= cs@.len(),
        limit <= 8,
    ensures
        v6_groups(cs@, p as int, 0, limit as int) == (r.0 as int, r.1 as int, r.2),
        r.1 <= cs@.len(),
        r.0 <= limit,
{
    let mut i: usize = 0;
    let mut q = p;
    while i < limit
        invariant
            0 <= i <= limit <= 8,
            q <= cs@.len(),
            v6_groups(cs@, p as int, 0, limit as int) == v6_groups(cs@, q as int, i as int, limit as int),
        decreases limit - i,
    {
        let start = if i == 0 {
            q
        } else if q < cs.len() && cs[q] == ':' {
            q + 1
        } else {
            return (i, q, false);
        };
        assert(sep_end(cs@, q as int, i as int) == Some(start as int));
        if i + 1 < limit {
            if let Some(e) = ipv4_end_at(cs, start) {
                return (i + 2, e, true);
            }
        }
        match hex_group_end_at(cs, start) {
            Some(e) => {
                q = e;
                i = i + 1;
            },
            None => {
                return (i, q, false);
            },
        }
    }
    (i, q, false)
}

/// `v6_addr_end(cs, p)`.
fn v6_addr_end_at(cs: &[char], p: usize) -> (r: Option<usize>)
    requires
        p <= cs@.len(),
    ensures
        v6_addr_end(cs@, p as int) == opt_pos(r),
        r matches Some(e) ==> e <= cs@.len(),
{
    let (h, hp, h4) = v6_groups_at(cs, p, 8);
    if h == 8 {
        return Some(hp);
    }
    if h4 {
        return None;
    }
    if hp < cs.len() && hp + 1 < cs.len() && cs[hp] == ':' && cs[hp + 1] == ':' {
        let (_t, tp, _t4) = v6_groups_at(cs, hp + 2, 7 - h);
        Some(tp)
    } else {
        None
    }
}

/// Whether the digits `cs[from..to]` are one or more decimal digits worth at
/// most `u32::MAX`.
fn digits_u32(cs: &[char], from: usize, to: usize) -> (r: Option<u32>)
    requires
        from <= to <= cs@.len(),
    ensures
        ({
            let s = cs@.subrange(from as int, to as int);
            r == if s.len() >= 1 && all_digits(s) && digits_val(s) <= 0xffff_ffff {
                Some(digits_val(s) as u32)
            } else {
                None
            }
        }),
{
    let ghost s = cs@.subrange(from as int, to as int);
    if from == to {
        return None;
    }
    let mut val: u64 = 0;
    let mut i = from;
    while i < to
        invariant
            from <= i <= to <= cs@.len(),
            s == cs@.subrange(from as int, to as int),
            all_digits(cs@.subrange(from as int, i as int)),
            val == digits_val(cs@.subrange(from as int, i as int)),
            val <= 0xffff_ffff,
        decreases to - i,
    {
        let c = cs[i];
        if !('0' <= c && c <= '9') {
            assert(s[i - from] == c);
            return None;
        }
        let ghost before = cs@.subrange(from as int, i as int);
        let ghost after = cs@.subrange(from as int, i + 1);
        assert(after.drop_last() =~= before);
        assert(after.last() == c);
        let d = (c as u64) - 48;
        let next = val * 10 + d;
        i = i + 1;
        assert(all_digits(after)) by {
            assert forall|j: int| 0 <= j < after.len() implies is_digit(#[trigger] after[j]) by {
                if j < before.len() {
                    assert(after[j] == before[j]);
                }
            }
        }
        if next > 0xffff_ffff {
            proof {
                if all_digits(s) {
                    assert(s.take(i - from) =~= after);
                    lemma_digits_prefix(s, i - from);
                }
            }
            return None;
        }
        val = next;
    }
    assert(cs@.subrange(from as int, to as int) =~= s);
    Some(val as u32)
}

/// Whether `text` is an IPv6 socket address `[address%scope]:port`.
fn is_v6_socket(cs: &[char]) -> (b: bool)
    ensures
        b == v6_socket_ok(cs@),
{
    let n = cs.len();
    if n < 1 || cs[0] != '[' {
        return false;
    }
    let a = match v6_addr_end_at(cs, 1) {
        Some(a) => a,
        None => return false,
    };
    let mut b = a;
    if a < n && cs[a] == '%' {
        let m = run_at(cs, a + 1, false);
        proof {
            assert(all_digits(cs@.subrange(a + 1, a + 1 + m))) by {
                assert forall|j: int| 0 <= j < m implies is_digit(#[trigger] cs@.subrange(a + 1, a + 1 + m)[j]) by {
                    assert(in_class(cs@[a + 1 + j], false));
                }
            }
        }
        if m >= 1 && digits_u32(cs, a + 1, a + 1 + m).is_some() {
            b = a + 1 + m;
        }
    }
    assert(b as int == scope_end(cs@, a as int));
    if !(b < n && b + 1 < n && cs[b] == ']' && cs[b + 1] == ':') {
        return false;
    }
    parse_digits(cs, b + 2, n, 65535).is_some()
}

/// Whether `text` is a socket address, IPv4 `a.b.c.d:port` or IPv6
/// `[address%scope]:port`, as `std` parses one.
pub fn is_socket_addr_text(text: &str) -> (b: bool)
    ensures
        b == socket_addr_text_ok(text@),
{
    if parse_endpoint(text).is_some() {
        return true;
    }
    let cs = chars_of(text);
    is_v6_socket(cs.as_slice())
}

/// The value of a hexadecimal digit.
pub open spec fn hex_digit_val(c: char) -> nat {
    if '0' <= c && c <= '9' {
        ((c as int) - 48) as nat
    } else if 'a' <= c && c <= 'f' {
        ((c as int) - 87) as nat
    } else {
        ((c as int) - 55) as nat
    }
}

/// The value of the hexadecimal digits `s`, most significant first.
pub open spec fn hex_val(s: Seq<char>) -> nat
    decreases s.len(),
{
    if s.len() == 0 {
        0
    } else {
        hex_val(s.drop_last()) * 16 + hex_digit_val(s.last())
    }
}

/// The value of the IPv4 address read at `q`, when `ipv4_end(s, q)` is
/// some: its four octets, most significant first.
pub open spec fn ipv4_val(s: Seq<char>, q: int) -> nat {
    let a = octet_end(s, q)->0;
    let b = dot_octet_end(s, a)->0;
    let c = dot_octet_end(s, b)->0;
    let d = dot_octet_end(s, c)->0;
    digits_val(s.subrange(q, a)) * 0x100_0000 + digits_val(s.subrange(a + 1, b)) * 0x1_0000 + digits_val(
        s.subrange(b + 1, c),
    ) * 0x100 + digits_val(s.subrange(c + 1, d))
}

/// The 16-bit values of the groups `v6_groups` reads (an embedded IPv4
/// address gives two).
pub open spec fn v6_group_vals(s: Seq<char>, p: int, i: int, limit: int) -> Seq<nat>
    decreases limit - i,
{
    if i >= limit {
        Seq::empty()
    } else {
        match sep_end(s, p, i) {
            None => Seq::empty(),
            Some(q) => if i + 1 < limit && ipv4_end(s, q) is Some {
                seq![ipv4_val(s, q) / 0x1_0000, ipv4_val(s, q) % 0x1_0000]
            } else {
                match hex_group_end(s, q) {
                    Some(e) => seq![hex_val(s.subrange(q, e))] + v6_group_vals(s, e, i + 1, limit),
                    None => Seq::empty(),
                }
            },
        }
    }
}

/// The eight 16-bit segments of the IPv6 address read at `p`: the groups
/// before a `::`, zeros for the groups it stands for, then the groups after.
pub open spec fn v6_segments(s: Seq<char>, p: int) -> Seq<nat> {
    let (h, hp, h4) = v6_groups(s, p, 0, 8);
    let head = v6_group_vals(s, p, 0, 8);
    if h == 8 {
        head
    } else {
        let tail = v6_group_vals(s, hp + 2, 0, 7 - h);
        head + Seq::new((8 - head.len() - tail.len()) as nat, |i: int| 0nat) + tail
    }
}

/// The number the segments spell, most significant first.
pub open spec fn segments_val(g: Seq<nat>) -> nat
    decreases g.len(),
{
    if g.len() == 0 {
        0
    } else {
        segments_val(g.drop_last()) * 0x1_0000 + g.last()
    }
}

pub open spec fn pow65536(n: nat) -> nat
    decreases n,
{
    if n == 0 {
        1
    } else {
        pow65536((n - 1) as nat) * 0x1_0000
    }
}

/// A socket address a peer advertised: IPv4 address and port, or IPv6
/// address, port and scope id (the flow label is always zero).
#[derive(Debug, Clone, Copy, PartialEq, Eq, Structural)]
pub enum PeerAddr {
    V4(u32, u16),
    V6 { ip: u128, port: u16, scope: u32 },
}

/// The socket address `s` names, if it names one.
pub open spec fn peer_addr_of_text(s: Seq<char>) -> Option<PeerAddr> {
    match endpoint_of_text(s) {
        Some((ip, port)) => Some(PeerAddr::V4(ip, port)),
        None => if v6_socket_ok(s) {
            let a = v6_addr_end(s, 1)->0;
            let b = scope_end(s, a);
            Some(
                PeerAddr::V6 {
                    ip: segments_val(v6_segments(s, 1)) as u128,
                    port: digits_val(s.subrange(b + 2, s.len() as int)) as u16,
                    scope: if b > a {
                        digits_val(s.subrange(a + 1, b)) as u32
                    } else {
                        0
                    },
                },
            )
        } else {
            None
        },
    }
}

fn hex_digit_value(c: char) -> (r: u32)
    requires
        in_class(c, true),
    ensures
        r == hex_digit_val(c),
        r < 16,
{
    if '0' <= c && c <= '9' {
        (c as u32) - 48
    } else if 'a' <= c && c <= 'f' {
        (c as u32) - 87
    } else {
        (c as u32) - 55
    }
}

spec fn pow16(n: int) -> int {
    if n <= 0 {
        1
    } else if n == 1 {
        16
    } else if n == 2 {
        256
    } else if n == 3 {
        4096
    } else {
        65536
    }
}

/// The value of the hex digits `cs[from..to]`, one to four of them.
fn hex_value_at(cs: &[char], from: usize, to: usize) -> (r: u16)
    requires
        from <= to <= cs@.len(),
        to - from <= 4,
        forall|j: int| from <= j < to ==> in_class(#[trigger] cs@[j], true),
    ensures
        r == hex_val(cs@.subrange(from as int, to as int)),
{
    let mut acc: u32 = 0;
    let mut k = from;
    assert(cs@.subrange(from as int, from as int) =~= Seq::<char>::empty());
    while k < to
        invariant
            from <= k <= to <= cs@.len(),
            to - from <= 4,
            forall|j: int| from <= j < to ==> in_class(#[trigger] cs@[j], true),
            acc == hex_val(cs@.subrange(from as int, k as int)),
            acc < pow16(k - from),
        decreases to - k,
    {
        let d = hex_digit_value(cs[k]);
        let ghost before = cs@.subrange(from as int, k as int);
        let ghost after = cs@.subrange(from as int, k + 1);
        assert(after.drop_last() =~= before);
        assert(after.last() == cs@[k as int]);
        assert(acc * 16 + d < pow16(k + 1 - from)) by (nonlinear_arith)
            requires
                acc < pow16(k - from),
                d < 16,
                pow16(k + 1 - from) == pow16(k - from) * 16,
        ;
        acc = acc * 16 + d;
        k = k + 1;
    }
    acc as u16
}

/// `ipv4_val(cs, q)`.
fn ipv4_value_at(cs: &[char], q: usize) -> (r: u32)
    requires
        q <= cs@.len(),
        ipv4_end(cs@, q as int) is Some,
    ensures
        r == ipv4_val(cs@, q as int),
{
    let a = octet_end_at(cs, q).unwrap();
    let b = dot_octet_end_at(cs, a).unwrap();
    let c = dot_octet_end_at(cs, b).unwrap();
    let d = dot_octet_end_at(cs, c).unwrap();
    let o0 = parse_octet(cs, q, a).unwrap();
    let o1 = parse_octet(cs, a + 1, b).unwrap();
    let o2 = parse_octet(cs, b + 1, c).unwrap();
    let o3 = parse_octet(cs, c + 1, d).unwrap();
    (o0 as u32) * 0x100_0000 + (o1 as u32) * 0x1_0000 + (o2 as u32) * 0x100 + (o3 as u32)
}

/// The values of the groups `v6_groups_at(cs, p, limit)` reads.
fn v6_vals_at(cs: &[char], p: usize, limit: usize) -> (vals: Vec<u16>)
    requires
        p <= cs@.len(),
        limit <= 8,
    ensures
        vals@.map_values(|v: u16| v as nat) == v6_group_vals(cs@, p as int, 0, limit as int),
        vals@.len() == v6_groups(cs@, p as int, 0, limit as int).0,
{
    let mut vals: Vec<u16> = Vec::new();
    let mut i: usize = 0;
    let mut q = p;
    while i < limit
        invariant
            0 <= i <= limit <= 8,
            q <= cs@.len(),
            vals@.len() == i,
            v6_groups(cs@, p as int, 0, limit as int) == v6_groups(cs@, q as int, i as int, limit as int),
            v6_group_vals(cs@, p as int, 0, limit as int) == vals@.map_values(|v: u16| v as nat) + v6_group_vals(
                cs@,
                q as int,
                i as int,
                limit as int,
            ),
        decreases limit - i,
    {
        let ghost pre = vals@;
        let start = if i == 0 {
            q
        } else if q < cs.len() && cs[q] == ':' {
            q + 1
        } else {
            assert(vals@.map_values(|v: u16| v as nat) + Seq::<nat>::empty() =~= vals@.map_values(|v: u16| v as nat));
            return vals;
        };
        assert(sep_end(cs@, q as int, i as int) == Some(start as int));
        if i + 1 < limit {
            if let Some(_e) = ipv4_end_at(cs, start) {
                let v = ipv4_value_at(cs, start);
                vals.push((v / 0x1_0000) as u16);
                vals.push((v % 0x1_0000) as u16);
                assert(vals@.map_values(|v: u16| v as nat) =~= pre.map_values(|v: u16| v as nat) + seq![
                    ipv4_val(cs@, start as int) / 0x1_0000,
                    ipv4_val(cs@, start as int) % 0x1_0000,
                ]);
                return vals;
            }
        }
        match hex_group_end_at(cs, start) {
            Some(e) => {
                let n = run_at(cs, start, true);
                let v = hex_value_at(cs, start, e);
                vals.push(v);
                assert(vals@.map_values(|v: u16| v as nat) =~= pre.map_values(|v: u16| v as nat) + seq![
                    hex_val(cs@.subrange(start as int, e as int)),
                ]);
                q = e;
                i = i + 1;
            },
            None => {
                assert(vals@.map_values(|v: u16| v as nat) + Seq::<nat>::empty() =~= vals@.map_values(|v: u16| v as nat));
                return vals;
            },
        }
    }
    assert(vals@.map_values(|v: u16| v as nat) + Seq::<nat>::empty() =~= vals@.map_values(|v: u16| v as nat));
    vals
}

proof fn lemma_pow65536_mono(n: nat, m: nat)
    requires
        n <= m,
    ensures
        1 <= pow65536(n) <= pow65536(m),
    decreases m,
{
    if n < m {
        lemma_pow65536_mono(n, (m - 1) as nat);
    }
    if m > 0 {
        lemma_pow65536_mono(0, (m - 1) as nat);
    }
}

/// `segments_val(v6_segments(cs, p))`: the IPv6 address read at `p`.
fn v6_address_at(cs: &[char], p: usize) -> (ip: u128)
    requires
        p <= cs@.len(),
        v6_addr_end(cs@, p as int) is Some,
    ensures
        ip == segments_val(v6_segments(cs@, p as int)),
{
    let (h, hp, _h4) = v6_groups_at(cs, p, 8);
    let head = v6_vals_at(cs, p, 8);
    let mut segs: Vec<u16> = Vec::new();
    let mut i: usize = 0;
    while i < head.len()
        invariant
            0 <= i <= head@.len(),
            segs@ == head@.take(i as int),
        decreases head@.len() - i,
    {
        segs.push(head[i]);
        i = i + 1;
        assert(segs@ =~= head@.take(i as int));
    }
    assert(head@.take(head@.len() as int) =~= head@);
    if h != 8 {
        assert(hp + 1 < cs@.len() && h <= 7);
        let len = cs.len();
        assert(hp + 2 <= len);
        let (t, _tp, _t4) = v6_groups_at(cs, hp + 2, 7 - h);
        let tail = v6_vals_at(cs, hp + 2, 7 - h);
        let z = 8 - h - t;
        let mut j: usize = 0;
        while j < z
            invariant
                0 <= j <= z,
                z == 8 - h - t,
                segs@ == head@ + Seq::new(j as nat, |x: int| 0u16),
            decreases z - j,
        {
            segs.push(0);
            j = j + 1;
            assert(segs@ =~= head@ + Seq::new(j as nat, |x: int| 0u16));
        }
        let mut k: usize = 0;
        while k < tail.len()
            invariant
                0 <= k <= tail@.len(),
                segs@ == head@ + Seq::new(z as nat, |x: int| 0u16) + tail@.take(k as int),
            decreases tail@.len() - k,
        {
            segs.push(tail[k]);
            k = k + 1;
            assert(segs@ =~= head@ + Seq::new(z as nat, |x: int| 0u16) + tail@.take(k as int));
        }
        assert(tail@.take(tail@.len() as int) =~= tail@);
        assert(segs@.map_values(|v: u16| v as nat) =~= v6_segments(cs@, p as int));
    } else {
        assert(segs@.map_values(|v: u16| v as nat) =~= v6_segments(cs@, p as int));
    }
    let ghost g = segs@.map_values(|v: u16| v as nat);
    assert(g.len() == 8);
    proof {
        reveal_with_fuel(pow65536, 9);
        assert(pow65536(8) == 0x1_0000_0000_0000_0000_0000_0000_0000_0000);
    }
    let mut acc: u128 = 0;
    let mut k: usize = 0;
    assert(g.take(0) =~= Seq::<nat>::empty());
    while k < 8
        invariant
            0 <= k <= 8,
            segs@.len() == 8,
            g == segs@.map_values(|v: u16| v as nat),
            pow65536(8) == 0x1_0000_0000_0000_0000_0000_0000_0000_0000,
            acc == segments_val(g.take(k as int)),
            acc < pow65536(k as nat),
        decreases 8 - k,
    {
        let v = segs[k];
        assert(g.take(k + 1).drop_last() =~= g.take(k as int));
        assert(g.take(k + 1).last() == v as nat);
        proof {
            lemma_pow65536_mono((k + 1) as nat, 8);
        }
        assert(acc * 0x1_0000 + v < pow65536((k + 1) as nat)) by (nonlinear_arith)
            requires
                acc < pow65536(k as nat),
                v < 0x1_0000,
                pow65536((k + 1) as nat) == pow65536(k as nat) * 0x1_0000,
        ;
        acc = acc * 0x1_0000 + v as u128;
        k = k + 1;
    }
    assert(g.take(8) =~= g);
    acc
}

/// Parse a socket address, IPv4 `a.b.c.d:port` or IPv6
/// `[address%scope]:port`, as `std` parses one; `None` for anything else.
pub fn parse_peer_addr(text: &str) -> (r: Option<PeerAddr>)
    ensures
        r == peer_addr_of_text(text@),
        r is Some <==> socket_addr_text_ok(text@),
{
    match parse_endpoint(text) {
        Some((ip, port)) => Some(PeerAddr::V4(ip, port)),
        None => {
            let cs = chars_of(text);
            if !is_v6_socket(cs.as_slice()) {
                return None;
            }
            let n = cs.len();
            let a = match v6_addr_end_at(cs.as_slice(), 1) {
                Some(a) => a,
                None => return None,
            };
            let mut b = a;
            let mut scope: u32 = 0;
            if a < n && cs[a] == '%' {
                let m = run_at(cs.as_slice(), a + 1, false);
                proof {
                    assert(all_digits(cs@.subrange(a + 1, a + 1 + m))) by {
                        assert forall|j: int| 0 <= j < m implies is_digit(#[trigger] cs@.subrange(a + 1, a + 1 + m)[j]) by {
                            assert(in_class(cs@[a + 1 + j], false));
                        }
                    }
                }
                if m >= 1 {
                    match digits_u32(cs.as_slice(), a + 1, a + 1 + m) {
                        Some(v) => {
                            b = a + 1 + m;
                            scope = v;
                        },
                        None => {},
                    }
                }
            }
            assert(b as int == scope_end(cs@, a as int));
            let port = match parse_digits(cs.as_slice(), b + 2, n, 65535) {
                Some(v) => v,
                None => return None,
            };
            let ip = v6_address_at(cs.as_slice(), 1);
            Some(PeerAddr::V6 { ip, port: port as u16, scope })
        },
    }
}

} // verus!
