//! Character-level text helpers: conversion between strings and character
//! vectors, Unicode whitespace trimming, and searching.
use vstd::prelude::*;
use vstd::string::StrSliceExecFns;

verus! {

/// `String::push` of std appends one character.
pub assume_specification[ String::push ](s: &mut String, ch: char)
    ensures
        final(s)@ == old(s)@.push(ch),
;

/// The characters of `s`.
pub fn chars_of(s: &str) -> (v: Vec<char>)
    ensures
        v@ == s@,
{
    let n = s.unicode_len();
    let mut v: Vec<char> = Vec::with_capacity(n);
    let mut i: usize = 0;
    while i < n
        invariant
            0 <= i <= n,
            n == s@.len(),
            v@ == s@.subrange(0, i as int),
        decreases n - i,
    {
        v.push(s.get_char(i));
        i = i + 1;
        assert(v@ =~= s@.subrange(0, i as int));
    }
    assert(s@.subrange(0, n as int) =~= s@);
    v
}

/// A string holding exactly the characters `cs`.
pub fn string_of(cs: &[char]) -> (s: String)
    ensures
        s@ == cs@,
{
    let mut s = String::new();
    let mut i: usize = 0;
    while i < cs.len()
        invariant
            0 <= i <= cs@.len(),
            s@ == cs@.subrange(0, i as int),
        decreases cs@.len() - i,
    {
        s.push(cs[i]);
        i = i + 1;
        assert(s@ =~= cs@.subrange(0, i as int));
    }
    assert(cs@.subrange(0, cs@.len() as int) =~= cs@);
    s
}

/// A string holding exactly the characters `cs[from..to]`.
pub fn string_of_range(cs: &[char], from: usize, to: usize) -> (s: String)
    requires
        from <= to <= cs@.len(),
    ensures
        s@ == cs@.subrange(from as int, to as int),
{
    let mut s = String::new();
    let mut i: usize = from;
    while i < to
        invariant
            from <= i <= to <= cs@.len(),
            s@ == cs@.subrange(from as int, i as int),
        decreases to - i,
    {
        s.push(cs[i]);
        i = i + 1;
        assert(s@ =~= cs@.subrange(from as int, i as int));
    }
    s
}

/// Appends the characters `cs` to `s`.
pub fn push_chars(s: &mut String, cs: &[char])
    ensures
        final(s)@ == old(s)@ + cs@,
{
    let mut i: usize = 0;
    while i < cs.len()
        invariant
            0 <= i <= cs@.len(),
            s@ == old(s)@ + cs@.subrange(0, i as int),
        decreases cs@.len() - i,
    {
        s.push(cs[i]);
        i = i + 1;
        assert(s@ =~= old(s)@ + cs@.subrange(0, i as int));
    }
    assert(cs@.subrange(0, cs@.len() as int) =~= cs@);
}

/// Unicode `White_Space`, as `char::is_whitespace` decides it.
pub open spec fn is_ws(c: char) -> bool {
    let x = c as u32;
    (0x9 <= x <= 0xd) || x == 0x20 || x == 0x85 || x == 0xa0 || x == 0x1680 || (0x2000 <= x
        <= 0x200a) || x == 0x2028 || x == 0x2029 || x == 0x202f || x == 0x205f || x == 0x3000
}

pub fn is_whitespace(c: char) -> (b: bool)
    ensures
        b == is_ws(c),
{
    let x = c as u32;
    (0x9 <= x && x <= 0xd) || x == 0x20 || x == 0x85 || x == 0xa0 || x == 0x1680 || (0x2000 <= x
        && x <= 0x200a) || x == 0x2028 || x == 0x2029 || x == 0x202f || x == 0x205f || x == 0x3000
}

/// `s` without trailing whitespace.
pub open spec fn rtrim(s: Seq<char>) -> Seq<char>
    decreases s.len(),
{
    if s.len() > 0 && is_ws(s.last()) {
        rtrim(s.drop_last())
    } else {
        s
    }
}

/// `s` without leading whitespace.
pub open spec fn ltrim(s: Seq<char>) -> Seq<char>
    decreases s.len(),
{
    if s.len() > 0 && is_ws(s[0]) {
        ltrim(s.drop_first())
    } else {
        s
    }
}

/// `s` without leading or trailing whitespace.
pub open spec fn trim(s: Seq<char>) -> Seq<char> {
    ltrim(rtrim(s))
}

/// End of `cs[from..to]` without its trailing whitespace.
pub fn rtrim_end(cs: &[char], from: usize, to: usize) -> (m: usize)
    requires
        from <= to <= cs@.len(),
    ensures
        from <= m <= to,
        cs@.subrange(from as int, m as int) == rtrim(cs@.subrange(from as int, to as int)),
    decreases to - from,
{
    if to > from && is_whitespace(cs[to - 1]) {
        assert(cs@.subrange(from as int, to as int).drop_last() =~= cs@.subrange(
            from as int,
            to - 1,
        ));
        rtrim_end(cs, from, to - 1)
    } else {
        to
    }
}

/// Start of `cs[from..to]` without its leading whitespace.
pub fn ltrim_start(cs: &[char], from: usize, to: usize) -> (m: usize)
    requires
        from <= to <= cs@.len(),
    ensures
        from <= m <= to,
        cs@.subrange(m as int, to as int) == ltrim(cs@.subrange(from as int, to as int)),
    decreases to - from,
{
    if from < to && is_whitespace(cs[from]) {
        assert(cs@.subrange(from as int, to as int).drop_first() =~= cs@.subrange(
            from + 1,
            to as int,
        ));
        ltrim_start(cs, from + 1, to)
    } else {
        from
    }
}

/// Index of the first `c` in `s`, if any.
pub open spec fn first_index(s: Seq<char>, c: char) -> Option<int>
    decreases s.len(),
{
    if s.len() == 0 {
        None
    } else if s[0] == c {
        Some(0)
    } else {
        match first_index(s.drop_first(), c) {
            Some(i) => Some(i + 1),
            None => None,
        }
    }
}

pub proof fn lemma_first_index(s: Seq<char>, c: char)
    ensures
        first_index(s, c) matches Some(i) ==> 0 <= i < s.len() && s[i] == c && forall|j: int|
            0 <= j < i ==> #[trigger] s[j] != c,
        first_index(s, c) is None ==> forall|j: int| 0 <= j < s.len() ==> #[trigger] s[j] != c,
    decreases s.len(),
{
    if s.len() > 0 {
        lemma_first_index(s.drop_first(), c);
        if s[0] != c {
            assert forall|j: int| 1 <= j < s.len() implies #[trigger] s[j] == s.drop_first()[j - 1] by {}
        }
    }
}

pub proof fn lemma_first_index_of_prefix(a: Seq<char>, b: Seq<char>, c: char)
    requires
        forall|j: int| 0 <= j < a.len() ==> #[trigger] a[j] != c,
        b.len() > 0,
        b[0] == c,
    ensures
        first_index(a + b, c) == Some(a.len() as int),
    decreases a.len(),
{
    if a.len() > 0 {
        assert((a + b).drop_first() =~= a.drop_first() + b);
        lemma_first_index_of_prefix(a.drop_first(), b, c);
    } else {
        assert(a + b =~= b);
    }
}

/// Position of the first `c` in `cs[from..to]`, or `to` when absent.
pub fn find_char(cs: &[char], from: usize, to: usize, c: char) -> (i: usize)
    requires
        from <= to <= cs@.len(),
    ensures
        from <= i <= to,
        i < to ==> first_index(cs@.subrange(from as int, to as int), c) == Some(i - from),
        i == to ==> first_index(cs@.subrange(from as int, to as int), c) is None,
{
    let mut i = from;
    while i < to
        invariant
            from <= i <= to <= cs@.len(),
            forall|j: int| from <= j < i ==> #[trigger] cs@[j] != c,
        decreases to - i,
    {
        if cs[i] == c {
            proof {
                let s = cs@.subrange(from as int, to as int);
                assert(s =~= cs@.subrange(from as int, i as int) + cs@.subrange(i as int, to as int));
                lemma_first_index_of_prefix(
                    cs@.subrange(from as int, i as int),
                    cs@.subrange(i as int, to as int),
                    c,
                );
            }
            return i;
        }
        i = i + 1;
    }
    proof {
        let s = cs@.subrange(from as int, to as int);
        lemma_first_index(s, c);
        if first_index(s, c) is Some {
            let k = first_index(s, c)->0;
            assert(s[k] == cs@[from + k]);
        }
    }
    i
}

/// Whether `cs[from..to]` equals `lit`.
pub fn chars_eq(cs: &[char], from: usize, to: usize, lit: &[char]) -> (b: bool)
    requires
        from <= to <= cs@.len(),
    ensures
        b == (cs@.subrange(from as int, to as int) == lit@),
{
    if to - from != lit.len() {
        assert(cs@.subrange(from as int, to as int).len() != lit@.len());
        return false;
    }
    let mut i: usize = 0;
    while i < lit.len()
        invariant
            0 <= i <= lit@.len(),
            to - from == lit@.len(),
            from <= to <= cs@.len(),
            forall|j: int| 0 <= j < i ==> #[trigger] cs@[from + j] == lit@[j],
        decreases lit@.len() - i,
    {
        if cs[from + i] != lit[i] {
            assert(cs@.subrange(from as int, to as int)[i as int] != lit@[i as int]);
            return false;
        }
        i = i + 1;
    }
    assert forall|j: int| 0 <= j < lit@.len() implies #[trigger] cs@.subrange(
        from as int,
        to as int,
    )[j] == lit@[j] by {
        assert(cs@[from + j] == lit@[j]);
    }
    assert(cs@.subrange(from as int, to as int) =~= lit@);
    true
}


/// Decimal digits of `n`, most significant first.
pub open spec fn dec_chars(n: nat) -> Seq<char>
    decreases n,
{
    if n < 10 {
        seq![digit_char(n)]
    } else {
        dec_chars(n / 10).push(digit_char(n % 10))
    }
}

pub open spec fn digit_char(d: nat) -> char {
    ((d + 48) as u8) as char
}

/// The decimal representation of `n`.
pub fn decimal(n: u64) -> (v: Vec<char>)
    ensures
        v@ == dec_chars(n as nat),
    decreases n,
{
    if n < 10 {
        let c = ((n as u8) + 48) as char;
        let v = vec![c];
        assert(v@ =~= dec_chars(n as nat));
        v
    } else {
        let mut v = decimal(n / 10);
        let c = (((n % 10) as u8) + 48) as char;
        v.push(c);
        v
    }
}

} // verus!
