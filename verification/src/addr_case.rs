//! Socket-address text reads the same whatever the case of its hexadecimal
//! digits, as `std` reads it.
use vstd::prelude::*;

use crate::candidate::{
    all_digits, digits_val, dot_octet_end, endpoint_of_text, fields, hex_digit_val, hex_group_end, hex_val,
    in_class, ipv4_end, ipv4_val, is_digit, octet_end, octet_text_ok, peer_addr_of_text, port_text_ok, run_len,
    scope_end, sep_end, v6_addr_end, v6_group_vals, v6_groups, v6_segments, v6_socket_ok,
};
use crate::text::first_index;

verus! {

/// `c` with an upper-case hexadecimal letter (`A` to `F`) written in lower
/// case; every other character as it is.
pub open spec fn fold_hex_case(c: char) -> char {
    if c == 'A' {
        'a'
    } else if c == 'B' {
        'b'
    } else if c == 'C' {
        'c'
    } else if c == 'D' {
        'd'
    } else if c == 'E' {
        'e'
    } else if c == 'F' {
        'f'
    } else {
        c
    }
}

/// `s` with its upper-case hexadecimal letters written in lower case.
pub open spec fn fold_text(s: Seq<char>) -> Seq<char> {
    Seq::new(s.len(), |i: int| fold_hex_case(s[i]))
}

/// Whether `s` and `t` are the same text but for the case of hexadecimal
/// letters.
pub open spec fn same_but_hex_case(s: Seq<char>, t: Seq<char>) -> bool {
    &&& s.len() == t.len()
    &&& forall|i: int| 0 <= i < s.len() ==> fold_hex_case(#[trigger] s[i]) == fold_hex_case(t[i])
}

proof fn lemma_fold_char(c: char)
    ensures
        fold_hex_case(c) == ':' <==> c == ':',
        fold_hex_case(c) == '.' <==> c == '.',
        fold_hex_case(c) == '[' <==> c == '[',
        fold_hex_case(c) == ']' <==> c == ']',
        fold_hex_case(c) == '%' <==> c == '%',
        is_digit(fold_hex_case(c)) == is_digit(c),
        is_digit(c) ==> fold_hex_case(c) == c,
        in_class(fold_hex_case(c), true) == in_class(c, true),
        in_class(fold_hex_case(c), false) == in_class(c, false),
        in_class(c, true) ==> hex_digit_val(fold_hex_case(c)) == hex_digit_val(c),
{
}

proof fn lemma_fold_sub(s: Seq<char>, a: int, b: int)
    requires
        0 <= a <= b <= s.len(),
    ensures
        fold_text(s).subrange(a, b) == fold_text(s.subrange(a, b)),
{
    assert(fold_text(s).subrange(a, b) =~= fold_text(s.subrange(a, b)));
}

proof fn lemma_fold_digits(x: Seq<char>)
    ensures
        all_digits(fold_text(x)) == all_digits(x),
        all_digits(x) ==> fold_text(x) == x,
{
    assert forall|i: int| 0 <= i < x.len() implies is_digit(#[trigger] fold_text(x)[i]) == is_digit(x[i]) by {
        lemma_fold_char(x[i]);
    }
    if all_digits(x) {
        assert forall|i: int| 0 <= i < x.len() implies #[trigger] fold_text(x)[i] == x[i] by {
            lemma_fold_char(x[i]);
        }
        assert(fold_text(x) =~= x);
    } else {
        let i = choose|i: int| 0 <= i < x.len() && !is_digit(#[trigger] x[i]);
        assert(!is_digit(fold_text(x)[i]));
    }
}

proof fn lemma_fold_octet_port(x: Seq<char>)
    ensures
        octet_text_ok(fold_text(x)) == octet_text_ok(x),
        port_text_ok(fold_text(x)) == port_text_ok(x),
        octet_text_ok(x) || port_text_ok(x) ==> fold_text(x) == x,
{
    lemma_fold_digits(x);
}

/// An upper-case hexadecimal digit has the value of its lower-case form.
proof fn lemma_fold_hex_val(x: Seq<char>)
    requires
        forall|i: int| 0 <= i < x.len() ==> in_class(#[trigger] x[i], true),
    ensures
        hex_val(fold_text(x)) == hex_val(x),
    decreases x.len(),
{
    if x.len() > 0 {
        let y = x.drop_last();
        assert(fold_text(x).drop_last() =~= fold_text(y));
        assert forall|i: int| 0 <= i < y.len() implies in_class(#[trigger] y[i], true) by {
            assert(y[i] == x[i]);
        }
        lemma_fold_hex_val(y);
        lemma_fold_char(x.last());
        assert(fold_text(x).last() == fold_hex_case(x.last()));
    }
}

proof fn lemma_fold_run(s: Seq<char>, p: int, h: bool)
    ensures
        run_len(fold_text(s), p, h) == run_len(s, p, h),
    decreases s.len() - p,
{
    if 0 <= p < s.len() {
        lemma_fold_char(s[p]);
        lemma_fold_run(s, p + 1, h);
    }
}

proof fn lemma_fold_first(s: Seq<char>, c: char)
    requires
        forall|x: char| #[trigger] fold_hex_case(x) == c <==> x == c,
    ensures
        first_index(fold_text(s), c) == first_index(s, c),
    decreases s.len(),
{
    if s.len() > 0 {
        assert(fold_text(s).drop_first() =~= fold_text(s.drop_first()));
        assert(fold_text(s)[0] == fold_hex_case(s[0]));
        lemma_fold_first(s.drop_first(), c);
    }
}

proof fn lemma_fold_fields(s: Seq<char>, c: char)
    requires
        forall|x: char| #[trigger] fold_hex_case(x) == c <==> x == c,
    ensures
        fields(fold_text(s), c) == fields(s, c).map_values(|x: Seq<char>| fold_text(x)),
    decreases s.len(),
{
    lemma_fold_first(s, c);
    match first_index(s, c) {
        Some(i) => {
            if 0 <= i < s.len() {
                assert(fold_text(s).take(i) =~= fold_text(s.take(i)));
                assert(fold_text(s).skip(i + 1) =~= fold_text(s.skip(i + 1)));
                lemma_fold_fields(s.skip(i + 1), c);
                assert(fields(fold_text(s), c) =~= fields(s, c).map_values(|x: Seq<char>| fold_text(x)));
            } else {
                assert(fields(fold_text(s), c) =~= fields(s, c).map_values(|x: Seq<char>| fold_text(x)));
            }
        },
        None => {
            assert(fields(fold_text(s), c) =~= fields(s, c).map_values(|x: Seq<char>| fold_text(x)));
        },
    }
}

proof fn lemma_fold_endpoint(s: Seq<char>)
    ensures
        endpoint_of_text(fold_text(s)) == endpoint_of_text(s),
{
    assert forall|x: char| #[trigger] fold_hex_case(x) == ':' <==> x == ':' by {
        lemma_fold_char(x);
    }
    assert forall|x: char| #[trigger] fold_hex_case(x) == '.' <==> x == '.' by {
        lemma_fold_char(x);
    }
    let hp = fields(s, ':');
    lemma_fold_fields(s, ':');
    let hq = fields(fold_text(s), ':');
    assert(hq.len() == hp.len());
    if hp.len() == 2 {
        assert(hq[0] == fold_text(hp[0]) && hq[1] == fold_text(hp[1]));
        let o = fields(hp[0], '.');
        lemma_fold_fields(hp[0], '.');
        let q = fields(hq[0], '.');
        assert(q.len() == o.len());
        if o.len() == 4 {
            assert(q[0] == fold_text(o[0]) && q[1] == fold_text(o[1]) && q[2] == fold_text(o[2]) && q[3]
                == fold_text(o[3]));
            lemma_fold_octet_port(o[0]);
            lemma_fold_octet_port(o[1]);
            lemma_fold_octet_port(o[2]);
            lemma_fold_octet_port(o[3]);
            lemma_fold_octet_port(hp[1]);
        }
    }
}

proof fn lemma_fold_octet_end(s: Seq<char>, p: int)
    ensures
        octet_end(fold_text(s), p) == octet_end(s, p),
        octet_end(s, p) matches Some(e) ==> fold_text(s).subrange(p, e) == s.subrange(p, e),
{
    lemma_fold_run(s, p, false);
    lemma_run_class(s, p, false);
    let n = run_len(s, p, false);
    if 0 <= p <= s.len() && p + n <= s.len() {
        lemma_fold_sub(s, p, p + n);
        lemma_fold_octet_port(s.subrange(p, p + n));
    }
}

proof fn lemma_fold_dot_octet_end(s: Seq<char>, p: int)
    ensures
        dot_octet_end(fold_text(s), p) == dot_octet_end(s, p),
        dot_octet_end(s, p) matches Some(e) ==> fold_text(s).subrange(p + 1, e) == s.subrange(p + 1, e),
{
    if 0 <= p < s.len() {
        lemma_fold_char(s[p]);
    }
    lemma_fold_octet_end(s, p + 1);
}

proof fn lemma_fold_ipv4(s: Seq<char>, q: int)
    ensures
        ipv4_end(fold_text(s), q) == ipv4_end(s, q),
        ipv4_end(s, q) is Some ==> ipv4_val(fold_text(s), q) == ipv4_val(s, q),
{
    lemma_fold_octet_end(s, q);
    if let Some(a) = octet_end(s, q) {
        lemma_fold_dot_octet_end(s, a);
        if let Some(b) = dot_octet_end(s, a) {
            lemma_fold_dot_octet_end(s, b);
            if let Some(c) = dot_octet_end(s, b) {
                lemma_fold_dot_octet_end(s, c);
            }
        }
    }
}

proof fn lemma_fold_hex_group(s: Seq<char>, q: int)
    ensures
        hex_group_end(fold_text(s), q) == hex_group_end(s, q),
        hex_group_end(s, q) matches Some(e) ==> hex_val(fold_text(s).subrange(q, e)) == hex_val(s.subrange(q, e)),
{
    lemma_fold_run(s, q, true);
    if let Some(e) = hex_group_end(s, q) {
        lemma_run_class(s, q, true);
        lemma_fold_sub(s, q, e);
        lemma_fold_hex_val(s.subrange(q, e));
    }
}

/// The characters a run covers are of its class.
proof fn lemma_run_class(s: Seq<char>, p: int, h: bool)
    ensures
        0 <= p ==> p + run_len(s, p, h) <= s.len() || run_len(s, p, h) == 0,
        forall|j: int| 0 <= j < run_len(s, p, h) ==> in_class(#[trigger] s.subrange(p, p + run_len(s, p, h))[j], h),
    decreases s.len() - p,
{
    if 0 <= p < s.len() && in_class(s[p], h) {
        lemma_run_class(s, p + 1, h);
        let n = run_len(s, p, h);
        assert forall|j: int| 0 <= j < n implies in_class(#[trigger] s.subrange(p, p + n)[j], h) by {
            if j > 0 {
                assert(s.subrange(p, p + n)[j] == s.subrange(p + 1, p + 1 + run_len(s, p + 1, h))[j - 1]);
            }
        }
    }
}

proof fn lemma_fold_groups(s: Seq<char>, p: int, i: int, limit: int)
    ensures
        v6_groups(fold_text(s), p, i, limit) == v6_groups(s, p, i, limit),
        v6_group_vals(fold_text(s), p, i, limit) == v6_group_vals(s, p, i, limit),
    decreases limit - i,
{
    if i < limit {
        if 0 <= p < s.len() {
            lemma_fold_char(s[p]);
        }
        if let Some(q) = sep_end(s, p, i) {
            lemma_fold_ipv4(s, q);
            lemma_fold_hex_group(s, q);
            if let Some(e) = hex_group_end(s, q) {
                lemma_fold_groups(s, e, i + 1, limit);
            }
        }
    }
}

proof fn lemma_fold_v6(s: Seq<char>)
    ensures
        v6_socket_ok(fold_text(s)) == v6_socket_ok(s),
        v6_addr_end(fold_text(s), 1) == v6_addr_end(s, 1),
        v6_segments(fold_text(s), 1) == v6_segments(s, 1),
        v6_addr_end(s, 1) matches Some(a) ==> scope_end(fold_text(s), a) == scope_end(s, a) && (scope_end(s, a) > a
            ==> digits_val(fold_text(s).subrange(a + 1, scope_end(s, a))) == digits_val(
            s.subrange(a + 1, scope_end(s, a)),
        )),
        v6_socket_ok(s) ==> {
            let b = scope_end(s, v6_addr_end(s, 1)->0);
            digits_val(fold_text(s).subrange(b + 2, s.len() as int)) == digits_val(s.subrange(b + 2, s.len() as int))
        },
{
    let m = fold_text(s);
    lemma_fold_groups(s, 1, 0, 8);
    let (h, hp, h4) = v6_groups(s, 1, 0, 8);
    if 0 <= hp < s.len() {
        lemma_fold_char(s[hp]);
    }
    if 0 <= hp + 1 < s.len() {
        lemma_fold_char(s[hp + 1]);
    }
    lemma_fold_groups(s, hp + 2, 0, 7 - h);
    if s.len() > 0 {
        lemma_fold_char(s[0]);
    }
    if let Some(a) = v6_addr_end(s, 1) {
        if 0 <= a < s.len() {
            lemma_fold_char(s[a]);
        }
        lemma_fold_run(s, a + 1, false);
        lemma_run_class(s, a + 1, false);
        let n = run_len(s, a + 1, false);
        if 0 <= a < s.len() && a + 1 + n <= s.len() {
            lemma_fold_sub(s, a + 1, a + 1 + n);
            assert(all_digits(s.subrange(a + 1, a + 1 + n))) by {
                assert forall|j: int| 0 <= j < n implies is_digit(#[trigger] s.subrange(a + 1, a + 1 + n)[j]) by {
                    assert(in_class(s.subrange(a + 1, a + 1 + n)[j], false));
                }
            }
            lemma_fold_digits(s.subrange(a + 1, a + 1 + n));
        }
        let b = scope_end(s, a);
        assert(scope_end(m, a) == b);
        if 0 <= b < s.len() {
            lemma_fold_char(s[b]);
        }
        if 0 <= b + 1 < s.len() {
            lemma_fold_char(s[b + 1]);
        }
        if 0 <= b + 2 <= s.len() {
            lemma_fold_sub(s, b + 2, s.len() as int);
            lemma_fold_octet_port(s.subrange(b + 2, s.len() as int));
        }
    }
}

/// Hexadecimal digits are read without regard to case, as `std` reads an
/// IPv6 address: two socket-address texts that differ only in the case of
/// their hexadecimal letters (`[FE80::1]:5000` and `[fe80::1]:5000`) name
/// the same address, or are both refused. So an upper-case digit `A` to
/// `F` is worth what its lower-case form is, 10 to 15.
pub proof fn law_hex_digits_read_case_blind(s: Seq<char>, t: Seq<char>)
    requires
        same_but_hex_case(s, t),
    ensures
        peer_addr_of_text(s) == peer_addr_of_text(t),
{
    assert(fold_text(s) =~= fold_text(t));
    lemma_fold_endpoint(s);
    lemma_fold_endpoint(t);
    lemma_fold_v6(s);
    lemma_fold_v6(t);
}

} // verus!
