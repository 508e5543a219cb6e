//! The ready-to-paste blob: `PCPV1.<KIND>.<base64url(json)>.<crc32 hex>`.
//!
//! The CRC32 catches copy/paste corruption before any cryptography runs.
//! Authenticity is not provided here (the blob is public): it comes from the
//! out-of-band channel, fingerprint checks and the handshake. The JSON body is
//! opaque to this module: framing takes and gives bytes, and validation takes
//! an already-parsed envelope.
use vstd::prelude::*;

use base64::Engine;

use crate::candidate::{
    fields, is_socket_addr_text, lemma_fields_single, lemma_fields_split, socket_addr_text_ok, split4,
};
use crate::crypto::{b64_std_decode, b64_std_decoded, hex_digit_lower, hex_lower};
use crate::text::{chars_eq, chars_of, dec_chars, decimal, is_ws, ltrim, ltrim_start, push_chars, rtrim, rtrim_end, string_of, string_of_range, trim};
use super::message::{kind_label, SignalEnvelope, WireCandidate, PROTOCOL_VERSION};

verus! {

/// The blob's leading section.
pub const MAGIC: &'static str = "PCPV1";

/// Why a blob was refused.
#[derive(Debug, Clone)]
pub enum SignalError {
    Format(String),
    Checksum,
    Decode(String),
    Version(u32),
    KindMismatch,
    Invalid(String),
}

/// The display text of an error.
pub open spec fn signal_error_text(e: SignalError) -> Seq<char> {
    match e {
        SignalError::Format(s) => "malformed blob: "@ + s@,
        SignalError::Checksum => "blob is corrupted or truncated (checksum mismatch)"@,
        SignalError::Decode(s) => "could not decode blob: "@ + s@,
        SignalError::Version(v) => "unsupported blob version "@ + dec_chars(v as nat),
        SignalError::KindMismatch => "blob kind does not match its label"@,
        SignalError::Invalid(s) => "invalid blob content: "@ + s@,
    }
}

fn concat(a: &str, b: &[char]) -> (s: String)
    ensures
        s@ == a@ + b@,
{
    let mut s = string_of(chars_of(a).as_slice());
    push_chars(&mut s, b);
    s
}

impl SignalError {
    /// The display text of this error.
    pub fn message(&self) -> (m: String)
        ensures
            m@ == signal_error_text(*self),
    {
        match self {
            SignalError::Format(s) => concat("malformed blob: ", chars_of(s.as_str()).as_slice()),
            SignalError::Checksum => "blob is corrupted or truncated (checksum mismatch)".to_owned(),
            SignalError::Decode(s) => concat("could not decode blob: ", chars_of(s.as_str()).as_slice()),
            SignalError::Version(v) => concat("unsupported blob version ", decimal(*v as u64).as_slice()),
            SignalError::KindMismatch => "blob kind does not match its label".to_owned(),
            SignalError::Invalid(s) => concat("invalid blob content: ", chars_of(s.as_str()).as_slice()),
        }
    }
}

/// One bit of the reflected CRC-32 (IEEE) shift register, polynomial
/// `0xEDB88320`.
pub open spec fn crc_bit(c: u32) -> u32 {
    if c & 1u32 == 1u32 {
        (c >> 1u32) ^ 0xEDB8_8320u32
    } else {
        c >> 1u32
    }
}

/// `n` bit steps of the register.
pub open spec fn crc_bits(c: u32, n: nat) -> u32
    decreases n,
{
    if n == 0 {
        c
    } else {
        crc_bit(crc_bits(c, (n - 1) as nat))
    }
}

/// The register after `data`, starting from all ones, each byte xored into
/// its low bits and shifted through eight steps.
pub open spec fn crc_register(data: Seq<u8>) -> u32
    decreases data.len(),
{
    if data.len() == 0 {
        0xFFFF_FFFFu32
    } else {
        crc_bits(crc_register(data.drop_last()) ^ (data.last() as u32), 8)
    }
}

/// The CRC-32 (IEEE) of `data`: the final register, inverted.
pub open spec fn crc32_of(data: Seq<u8>) -> u32 {
    crc_register(data) ^ 0xFFFF_FFFFu32
}

/// `crc32fast::hash`: the CRC-32 (IEEE) checksum of `data`, the standard
/// reflected CRC-32 that `crc32fast` documents computing.
#[verifier::external_body]
fn crc(data: &[u8]) -> (c: u32)
    ensures
        c == crc32_of(data@),
{
    crc32fast::hash(data)
}

/// URL-safe unpadded base64 of `data`, as `base64` encodes it.
pub uninterp spec fn b64url_encoded(data: Seq<u8>) -> Seq<char>;

/// The bytes URL-safe unpadded base64 decodes `text` to, or `None` when
/// `base64` rejects it.
pub uninterp spec fn b64url_decoded(text: Seq<char>) -> Option<Seq<u8>>;

/// A character of the URL-safe base64 alphabet.
pub open spec fn is_b64url_char(c: char) -> bool {
    ('A' <= c && c <= 'Z') || ('a' <= c && c <= 'z') || ('0' <= c && c <= '9') || c == '-' || c == '_'
}

/// `general_purpose::URL_SAFE_NO_PAD.encode` of `base64`: the text uses only
/// the URL-safe alphabet, without padding, and decodes back to `data`.
#[verifier::external_body]
fn b64url_encode(data: &[u8]) -> (s: String)
    ensures
        s@ == b64url_encoded(data@),
        forall|i: int| 0 <= i < s@.len() ==> is_b64url_char(#[trigger] s@[i]),
        b64url_decoded(s@) == Some(data@),
{
    base64::engine::general_purpose::URL_SAFE_NO_PAD.encode(data)
}

/// `general_purpose::URL_SAFE_NO_PAD.decode` of `base64`; the error is its
/// message.
#[verifier::external_body]
fn b64url_decode(text: &str) -> (r: Result<Vec<u8>, String>)
    ensures
        r is Ok <==> b64url_decoded(text@) is Some,
        r matches Ok(v) ==> v@ == b64url_decoded(text@)->0,
{
    match base64::engine::general_purpose::URL_SAFE_NO_PAD.decode(text) {
        Ok(v) => Ok(v),
        Err(e) => Err(e.to_string()),
    }
}

/// Eight lower-case hex digits of `x`, most significant first.
pub open spec fn hex8(x: u32) -> Seq<char> {
    seq![
        hex_lower(((x >> 28u32) & 0xfu32) as u8),
        hex_lower(((x >> 24u32) & 0xfu32) as u8),
        hex_lower(((x >> 20u32) & 0xfu32) as u8),
        hex_lower(((x >> 16u32) & 0xfu32) as u8),
        hex_lower(((x >> 12u32) & 0xfu32) as u8),
        hex_lower(((x >> 8u32) & 0xfu32) as u8),
        hex_lower(((x >> 4u32) & 0xfu32) as u8),
        hex_lower((x & 0xfu32) as u8),
    ]
}

fn push_hex8(s: &mut String, x: u32)
    ensures
        final(s)@ == old(s)@ + hex8(x),
{
    assert(((x >> 28u32) & 0xfu32) < 16 && ((x >> 24u32) & 0xfu32) < 16 && ((x >> 20u32) & 0xfu32) < 16
        && ((x >> 16u32) & 0xfu32) < 16 && ((x >> 12u32) & 0xfu32) < 16 && ((x >> 8u32) & 0xfu32) < 16
        && ((x >> 4u32) & 0xfu32) < 16 && (x & 0xfu32) < 16) by (bit_vector);
    s.push(hex_digit_lower(((x >> 28) & 0xf) as u8));
    s.push(hex_digit_lower(((x >> 24) & 0xf) as u8));
    s.push(hex_digit_lower(((x >> 20) & 0xf) as u8));
    s.push(hex_digit_lower(((x >> 16) & 0xf) as u8));
    s.push(hex_digit_lower(((x >> 12) & 0xf) as u8));
    s.push(hex_digit_lower(((x >> 8) & 0xf) as u8));
    s.push(hex_digit_lower(((x >> 4) & 0xf) as u8));
    s.push(hex_digit_lower((x & 0xf) as u8));
    assert(final(s)@ =~= old(s)@ + hex8(x));
}

/// Value of the hex digit `c`.
pub open spec fn hex_digit_val(c: char) -> int {
    if '0' <= c && c <= '9' {
        c as int - 48
    } else if 'a' <= c && c <= 'f' {
        c as int - 87
    } else if 'A' <= c && c <= 'F' {
        c as int - 55
    } else {
        -1
    }
}

/// Whether every character of `s` is a hex digit.
pub open spec fn all_hex(s: Seq<char>) -> bool {
    forall|i: int| 0 <= i < s.len() ==> hex_digit_val(#[trigger] s[i]) >= 0
}

/// The value of the hex digits `s`, most significant first.
pub open spec fn hex_val(s: Seq<char>) -> nat
    decreases s.len(),
{
    if s.len() == 0 {
        0
    } else {
        hex_val(s.drop_last()) * 16 + hex_digit_val(s.last()) as nat
    }
}

/// `u32::from_str_radix(s, 16)`: an optional `+`, then one or more hex digits
/// whose value fits in 32 bits.
pub open spec fn u32_of_hex_text(s: Seq<char>) -> Option<u32> {
    let d = if s.len() >= 1 && s[0] == '+' {
        s.drop_first()
    } else {
        s
    };
    if d.len() >= 1 && all_hex(d) && hex_val(d) <= 0xffff_ffff {
        Some(hex_val(d) as u32)
    } else {
        None
    }
}

proof fn lemma_hex_prefix(s: Seq<char>, k: int)
    requires
        all_hex(s),
        0 <= k <= s.len(),
    ensures
        hex_val(s.take(k)) <= hex_val(s),
    decreases s.len(),
{
    if k < s.len() {
        let t = s.drop_last();
        assert(all_hex(t)) by {
            assert forall|j: int| 0 <= j < t.len() implies hex_digit_val(#[trigger] t[j]) >= 0 by {
                assert(t[j] == s[j]);
            }
        }
        lemma_hex_prefix(t, k);
        assert(t.take(k) =~= s.take(k));
    } else {
        assert(s.take(k) =~= s);
    }
}

/// Parse the hex digits `cs[from..to]` as a value of at most 32 bits.
fn parse_hex_digits(cs: &[char], from: usize, to: usize) -> (r: Option<u32>)
    requires
        from <= to <= cs@.len(),
    ensures
        ({
            let d = cs@.subrange(from as int, to as int);
            r == if d.len() >= 1 && all_hex(d) && hex_val(d) <= 0xffff_ffff {
                Some(hex_val(d) as u32)
            } else {
                None
            }
        }),
{
    let ghost d = cs@.subrange(from as int, to as int);
    if from == to {
        return None;
    }
    let mut val: u64 = 0;
    let mut i = from;
    while i < to
        invariant
            from <= i <= to <= cs@.len(),
            d == cs@.subrange(from as int, to as int),
            all_hex(cs@.subrange(from as int, i as int)),
            val == hex_val(cs@.subrange(from as int, i as int)),
            val <= 0xffff_ffff,
        decreases to - i,
    {
        let c = cs[i];
        let dv: u64 = if '0' <= c && c <= '9' {
            (c as u64) - 48
        } else if 'a' <= c && c <= 'f' {
            (c as u64) - 87
        } else if 'A' <= c && c <= 'F' {
            (c as u64) - 55
        } else {
            assert(d[i - from] == c);
            return None;
        };
        let ghost before = cs@.subrange(from as int, i as int);
        let ghost after = cs@.subrange(from as int, i + 1);
        assert(after.drop_last() =~= before);
        assert(after.last() == c);
        let next = val * 16 + dv;
        i = i + 1;
        assert(all_hex(after)) by {
            assert forall|j: int| 0 <= j < after.len() implies hex_digit_val(#[trigger] after[j]) >= 0 by {
                if j < before.len() {
                    assert(after[j] == before[j]);
                }
            }
        }
        if next > 0xffff_ffff {
            proof {
                if all_hex(d) {
                    assert(d.take(i - from) =~= after);
                    lemma_hex_prefix(d, i - from);
                }
            }
            return None;
        }
        val = next;
    }
    assert(cs@.subrange(from as int, to as int) =~= d);
    Some(val as u32)
}

/// Parse `cs[from..to]` as `u32::from_str_radix(_, 16)` does.
fn parse_hex_u32(cs: &[char], from: usize, to: usize) -> (r: Option<u32>)
    requires
        from <= to <= cs@.len(),
    ensures
        r == u32_of_hex_text(cs@.subrange(from as int, to as int)),
{
    let ghost s = cs@.subrange(from as int, to as int);
    if from < to && cs[from] == '+' {
        assert(s.drop_first() =~= cs@.subrange(from + 1, to as int));
        parse_hex_digits(cs, from + 1, to)
    } else {
        parse_hex_digits(cs, from, to)
    }
}

/// The dot-separated sections of a blob, surrounding whitespace removed.
pub open spec fn blob_sections(blob: Seq<char>) -> Seq<Seq<char>> {
    fields(trim(blob), '.')
}

/// The label and JSON body of a well-framed blob whose checksum matches.
pub open spec fn unframed(blob: Seq<char>) -> Option<(Seq<char>, Seq<u8>)> {
    let p = blob_sections(blob);
    if p.len() == 4 && p[0] == "PCPV1"@ && b64url_decoded(p[2]) is Some && u32_of_hex_text(p[3]) is Some
        && crc32_of(b64url_decoded(p[2])->0) == u32_of_hex_text(p[3])->0 {
        Some((p[1], b64url_decoded(p[2])->0))
    } else {
        None
    }
}

/// The blob of a body with label `label`.
pub open spec fn blob_text(label: Seq<char>, json: Seq<u8>) -> Seq<char> {
    "PCPV1"@ + seq!['.'] + label + seq!['.'] + b64url_encoded(json) + seq!['.'] + hex8(crc32_of(json))
}

proof fn lemma_hex_lower(d: u8)
    requires
        d < 16,
    ensures
        hex_digit_val(hex_lower(d)) == d,
        hex_lower(d) != '.' && hex_lower(d) != '+' && !is_ws(hex_lower(d)),
{
    if d < 10 {
        assert((((d + 48) as u8) as char) as int == d + 48);
    } else {
        assert((((d + 87) as u8) as char) as int == d + 87);
    }
}

/// The checksum field written for `x` reads back as `x`.
proof fn lemma_hex8(x: u32)
    ensures
        u32_of_hex_text(hex8(x)) == Some(x),
        forall|j: int| 0 <= j < 8 ==> #[trigger] hex8(x)[j] != '.',
        !is_ws(hex8(x)[7]),
        hex_val(hex8(x).drop_last()) == x >> 4u32,
        hex_digit_val(hex8(x)[7]) == x & 0xfu32,
        all_hex(hex8(x)),
{
    let n7 = ((x >> 28u32) & 0xfu32) as u8;
    let n6 = ((x >> 24u32) & 0xfu32) as u8;
    let n5 = ((x >> 20u32) & 0xfu32) as u8;
    let n4 = ((x >> 16u32) & 0xfu32) as u8;
    let n3 = ((x >> 12u32) & 0xfu32) as u8;
    let n2 = ((x >> 8u32) & 0xfu32) as u8;
    let n1 = ((x >> 4u32) & 0xfu32) as u8;
    let n0 = (x & 0xfu32) as u8;
    assert(((x >> 28u32) & 0xfu32) < 16 && ((x >> 24u32) & 0xfu32) < 16 && ((x >> 20u32) & 0xfu32) < 16
        && ((x >> 16u32) & 0xfu32) < 16 && ((x >> 12u32) & 0xfu32) < 16 && ((x >> 8u32) & 0xfu32) < 16
        && ((x >> 4u32) & 0xfu32) < 16 && (x & 0xfu32) < 16) by (bit_vector);
    lemma_hex_lower(n7);
    lemma_hex_lower(n6);
    lemma_hex_lower(n5);
    lemma_hex_lower(n4);
    lemma_hex_lower(n3);
    lemma_hex_lower(n2);
    lemma_hex_lower(n1);
    lemma_hex_lower(n0);
    let h = hex8(x);
    assert(all_hex(h));
    assert(((x >> 28u32) & 0xfu32) == (x >> 28u32)) by (bit_vector);
    assert((x >> 28u32) * 16 + ((x >> 24u32) & 0xfu32) == (x >> 24u32)) by (bit_vector);
    assert((x >> 24u32) * 16 + ((x >> 20u32) & 0xfu32) == (x >> 20u32)) by (bit_vector);
    assert((x >> 20u32) * 16 + ((x >> 16u32) & 0xfu32) == (x >> 16u32)) by (bit_vector);
    assert((x >> 16u32) * 16 + ((x >> 12u32) & 0xfu32) == (x >> 12u32)) by (bit_vector);
    assert((x >> 12u32) * 16 + ((x >> 8u32) & 0xfu32) == (x >> 8u32)) by (bit_vector);
    assert((x >> 8u32) * 16 + ((x >> 4u32) & 0xfu32) == (x >> 4u32)) by (bit_vector);
    assert((x >> 4u32) * 16 + (x & 0xfu32) == x) by (bit_vector);
    assert(h.take(1).drop_last() =~= Seq::<char>::empty());
    assert(hex_val(Seq::<char>::empty()) == 0);
    assert(h.take(1).last() == h[0]);
    assert(n7 as int == (x >> 28u32) & 0xfu32);
    assert(hex_val(h.take(1)) == x >> 28u32);
    assert(h.take(2).drop_last() =~= h.take(1));
    assert(hex_val(h.take(2)) == x >> 24u32);
    assert(h.take(3).drop_last() =~= h.take(2));
    assert(hex_val(h.take(3)) == x >> 20u32);
    assert(h.take(4).drop_last() =~= h.take(3));
    assert(hex_val(h.take(4)) == x >> 16u32);
    assert(h.take(5).drop_last() =~= h.take(4));
    assert(hex_val(h.take(5)) == x >> 12u32);
    assert(h.take(6).drop_last() =~= h.take(5));
    assert(hex_val(h.take(6)) == x >> 8u32);
    assert(h.take(7).drop_last() =~= h.take(6));
    assert(hex_val(h.take(7)) == x >> 4u32);
    assert(h.drop_last() =~= h.take(7));
    assert(hex_val(h) == x);
}

/// `blob` with its last character changed: a `0` becomes `1`, anything
/// else becomes `0`.
pub open spec fn tampered(blob: Seq<char>) -> Seq<char> {
    blob.update(blob.len() - 1, if blob.last() == '0' { '1' } else { '0' })
}

/// Whether `blob` is well framed with a readable checksum field that does
/// not match its body: what `unframe` answers with `SignalError::Checksum`.
pub open spec fn checksum_mismatch(blob: Seq<char>) -> bool {
    let p = blob_sections(blob);
    &&& p.len() == 4
    &&& p[0] == "PCPV1"@
    &&& b64url_decoded(p[2]) is Some
    &&& u32_of_hex_text(p[3]) is Some
    &&& crc32_of(b64url_decoded(p[2])->0) != u32_of_hex_text(p[3])->0
}

/// A framed blob whose last checksum digit is changed fails its checksum.
proof fn lemma_tampered_blob(label: Seq<char>, json: Seq<u8>, body: Seq<char>)
    requires
        forall|j: int| 0 <= j < label.len() ==> #[trigger] label[j] != '.',
        body == b64url_encoded(json),
        forall|i: int| 0 <= i < body.len() ==> is_b64url_char(#[trigger] body[i]),
        b64url_decoded(body) == Some(json),
    ensures
        checksum_mismatch(tampered(blob_text(label, json))),
{
    let x = crc32_of(json);
    lemma_hex8(x);
    let h = hex8(x);
    let c = if h[7] == '0' { '1' } else { '0' };
    let h2 = h.update(7, c);
    let magic = "PCPV1"@;
    reveal_strlit("PCPV1");
    let t = tampered(blob_text(label, json));
    let r2 = body + seq!['.'] + h2;
    let r1 = label + seq!['.'] + r2;
    assert(t =~= magic + seq!['.'] + r1);
    assert(forall|j: int| 0 <= j < magic.len() ==> #[trigger] magic[j] != '.');
    assert forall|j: int| 0 <= j < body.len() implies #[trigger] body[j] != '.' by {
        assert(is_b64url_char(body[j]));
    }
    assert forall|j: int| 0 <= j < h2.len() implies #[trigger] h2[j] != '.' by {
        if j < 7 {
            assert(h2[j] == h[j]);
        }
    }
    lemma_fields_split(magic, r1, '.');
    lemma_fields_split(label, r2, '.');
    lemma_fields_split(body, h2, '.');
    lemma_fields_single(h2, '.');
    assert(t.last() == c);
    assert(rtrim(t) == t);
    assert(t[0] == 'P');
    assert(ltrim(t) == t);
    assert(fields(t, '.') =~= seq![magic, label, body, h2]);
    assert(h2.drop_last() =~= h.drop_last());
    assert(all_hex(h2)) by {
        assert forall|j: int| 0 <= j < h2.len() implies hex_digit_val(#[trigger] h2[j]) >= 0 by {
            if j < 7 {
                assert(h2[j] == h[j]);
            }
        }
    }
    assert((x >> 4u32) * 16 + (x & 0xfu32) == x) by (bit_vector);
    assert(x >> 4u32 <= 0x0fff_ffffu32) by (bit_vector);
    assert(hex_val(h2) == (x >> 4u32) * 16 + hex_digit_val(c));
    assert(h2[0] != '+');
    assert(u32_of_hex_text(h2) == Some(hex_val(h2) as u32));
    assert(hex_val(h2) != x);
}

/// A framed blob reads back as its label and body.
proof fn lemma_unframe_blob(label: Seq<char>, json: Seq<u8>, body: Seq<char>)
    requires
        forall|j: int| 0 <= j < label.len() ==> #[trigger] label[j] != '.',
        body == b64url_encoded(json),
        forall|i: int| 0 <= i < body.len() ==> is_b64url_char(#[trigger] body[i]),
        b64url_decoded(body) == Some(json),
    ensures
        unframed(blob_text(label, json)) == Some((label, json)),
{
    let x = crc32_of(json);
    lemma_hex8(x);
    let magic = "PCPV1"@;
    reveal_strlit("PCPV1");
    let t = blob_text(label, json);
    let r2 = body + seq!['.'] + hex8(x);
    let r1 = label + seq!['.'] + r2;
    assert(t =~= magic + seq!['.'] + r1);
    assert(r1 =~= label + seq!['.'] + r2);
    assert(forall|j: int| 0 <= j < magic.len() ==> #[trigger] magic[j] != '.');
    assert forall|j: int| 0 <= j < body.len() implies #[trigger] body[j] != '.' by {
        assert(is_b64url_char(body[j]));
    }
    lemma_fields_split(magic, r1, '.');
    lemma_fields_split(label, r2, '.');
    lemma_fields_split(body, hex8(x), '.');
    lemma_fields_single(hex8(x), '.');
    assert(t.last() == hex8(x)[7]);
    assert(rtrim(t) == t);
    assert(t[0] == 'P');
    assert(ltrim(t) == t);
    assert(fields(t, '.') =~= seq![magic, label, body, hex8(x)]);
}

/// Frame `json` under `label` as a single paste-robust line. A label without
/// a dot reads back, with the body, from the line; and changing the line's
/// last character (a checksum digit) makes its checksum fail, which
/// `unframe` answers with `SignalError::Checksum`.
pub fn frame(label: &str, json: &[u8]) -> (s: String)
    ensures
        s@ == blob_text(label@, json@),
        (forall|j: int| 0 <= j < label@.len() ==> #[trigger] label@[j] != '.') ==> unframed(s@) == Some((label@, json@)),
        (forall|j: int| 0 <= j < label@.len() ==> #[trigger] label@[j] != '.') ==> checksum_mismatch(tampered(s@)),
{
    let mut s = MAGIC.to_owned();
    s.push('.');
    push_chars(&mut s, chars_of(label).as_slice());
    s.push('.');
    let body = b64url_encode(json);
    push_chars(&mut s, chars_of(body.as_str()).as_slice());
    s.push('.');
    push_hex8(&mut s, crc(json));
    assert(s@ =~= blob_text(label@, json@));
    proof {
        if forall|j: int| 0 <= j < label@.len() ==> #[trigger] label@[j] != '.' {
            lemma_unframe_blob(label@, json@, body@);
            lemma_tampered_blob(label@, json@, body@);
        }
    }
    s
}

/// Check a blob's framing and checksum, and give back its label and body.
/// The checks run in order: four sections, the magic prefix, the base64 body,
/// the checksum field, the checksum itself.
pub fn unframe(blob: &str) -> (r: Result<(String, Vec<u8>), SignalError>)
    ensures
        r is Ok <==> unframed(blob@) is Some,
        r matches Ok((l, j)) ==> unframed(blob@) == Some((l@, j@)),
        checksum_mismatch(blob@) ==> (r matches Err(SignalError::Checksum)),
        ({
            let p = blob_sections(blob@);
            &&& p.len() != 4 ==> (r matches Err(SignalError::Format(m)) && m@ == "expected 4 dot-separated sections"@)
            &&& p.len() == 4 && p[0] != "PCPV1"@ ==> (r matches Err(SignalError::Format(m)) && m@
                == "unknown blob prefix '"@ + p[0] + seq!['\''])
            &&& p.len() == 4 && p[0] == "PCPV1"@ && b64url_decoded(p[2]) is None ==> (r matches Err(SignalError::Decode(_)))
            &&& p.len() == 4 && p[0] == "PCPV1"@ && b64url_decoded(p[2]) is Some && u32_of_hex_text(p[3]) is None
                ==> (r matches Err(SignalError::Format(m)) && m@ == "invalid checksum field"@)
            &&& p.len() == 4 && p[0] == "PCPV1"@ && b64url_decoded(p[2]) is Some && u32_of_hex_text(p[3]) is Some
                && crc32_of(b64url_decoded(p[2])->0) != u32_of_hex_text(p[3])->0 ==> (r matches Err(SignalError::Checksum))
        }),
{
    let cs = chars_of(blob);
    let n = cs.len();
    let e = rtrim_end(cs.as_slice(), 0, n);
    let st = ltrim_start(cs.as_slice(), 0, e);
    assert(cs@.subrange(0, n as int) =~= blob@);
    let ghost t = cs@.subrange(st as int, e as int);
    assert(t == trim(blob@));
    let (d1, d2, d3) = match split4(cs.as_slice(), st, e, '.') {
        Some(d) => d,
        None => {
            return Err(SignalError::Format("expected 4 dot-separated sections".to_owned()));
        },
    };
    let magic = chars_of(MAGIC);
    if !chars_eq(cs.as_slice(), st, d1, magic.as_slice()) {
        let mut m = "unknown blob prefix '".to_owned();
        let p0 = string_of_range(cs.as_slice(), st, d1);
        push_chars(&mut m, chars_of(p0.as_str()).as_slice());
        m.push('\'');
        return Err(SignalError::Format(m));
    }
    let body = string_of_range(cs.as_slice(), d2 + 1, d3);
    let json = match b64url_decode(body.as_str()) {
        Ok(j) => j,
        Err(msg) => {
            return Err(SignalError::Decode(msg));
        },
    };
    let expected = match parse_hex_u32(cs.as_slice(), d3 + 1, e) {
        Some(x) => x,
        None => {
            return Err(SignalError::Format("invalid checksum field".to_owned()));
        },
    };
    if crc(json.as_slice()) != expected {
        return Err(SignalError::Checksum);
    }
    let label = string_of_range(cs.as_slice(), d1 + 1, d2);
    Ok((label, json))
}

/// Whether `a` and `b` hold the same characters.
pub fn str_eq(a: &str, b: &str) -> (r: bool)
    ensures
        r == (a@ == b@),
{
    let ca = chars_of(a);
    let cb = chars_of(b);
    assert(ca@.subrange(0, ca@.len() as int) =~= ca@);
    chars_eq(ca.as_slice(), 0, ca.len(), cb.as_slice())
}

/// Whether every candidate address is a socket address (IPv4 or IPv6).
pub open spec fn addrs_ok(cands: Seq<WireCandidate>) -> bool {
    forall|i: int| 0 <= i < cands.len() ==> socket_addr_text_ok(#[trigger] cands[i].a@)
}

/// Whether `cands[i]` is the first candidate whose address is not a socket
/// address.
pub open spec fn first_unparsable(cands: Seq<WireCandidate>, i: int) -> bool {
    &&& 0 <= i < cands.len()
    &&& !socket_addr_text_ok(cands[i].a@)
    &&& forall|j: int| 0 <= j < i ==> socket_addr_text_ok(#[trigger] cands[j].a@)
}

/// `s` with surrounding whitespace removed.
pub fn trimmed(s: &str) -> (t: String)
    ensures
        t@ == trim(s@),
{
    let cs = chars_of(s);
    let n = cs.len();
    let e = rtrim_end(cs.as_slice(), 0, n);
    let st = ltrim_start(cs.as_slice(), 0, e);
    assert(cs@.subrange(0, n as int) =~= s@);
    string_of_range(cs.as_slice(), st, e)
}

/// Check a parsed envelope against the label it was framed under: version,
/// kind, a 32-byte standard-base64 public key, and candidate addresses that
/// are socket addresses (IPv4 or IPv6), in that order.
pub fn validate(env: &SignalEnvelope, label: &str) -> (r: Result<(), SignalError>)
    ensures
        env.v != PROTOCOL_VERSION ==> (r matches Err(SignalError::Version(v)) && v == env.v),
        env.v == PROTOCOL_VERSION && kind_label(env.kind) != label@ ==> (r matches Err(SignalError::KindMismatch)),
        env.v == PROTOCOL_VERSION && kind_label(env.kind) == label@ && b64_std_decoded(trim(env.pk@)) is None ==> (r matches Err(SignalError::Invalid(_))),
        env.v == PROTOCOL_VERSION && kind_label(env.kind) == label@ && b64_std_decoded(trim(env.pk@)) is Some
            && b64_std_decoded(trim(env.pk@))->0.len() != 32 ==> (r matches Err(SignalError::Invalid(m)) && m@ == "public key length"@),
        env.v == PROTOCOL_VERSION && kind_label(env.kind) == label@ && b64_std_decoded(trim(env.pk@)) is Some
            && b64_std_decoded(trim(env.pk@))->0.len() == 32 && !addrs_ok(env.cands@) ==> (r matches Err(SignalError::Invalid(m)) && exists|i: int|
            first_unparsable(env.cands@, i) && m@ == "candidate address '"@ + env.cands@[i].a@ + seq!['\'']),
        r is Ok <==> (env.v == PROTOCOL_VERSION && kind_label(env.kind) == label@ && b64_std_decoded(trim(env.pk@)) is Some
            && b64_std_decoded(trim(env.pk@))->0.len() == 32 && addrs_ok(env.cands@)),
{
    if env.v != PROTOCOL_VERSION {
        return Err(SignalError::Version(env.v));
    }
    if !str_eq(env.kind.label(), label) {
        return Err(SignalError::KindMismatch);
    }
    let pk_text = trimmed(env.pk.as_str());
    let pk = match b64_std_decode(pk_text.as_str()) {
        Ok(k) => k,
        Err(msg) => {
            let mut m = "public key: ".to_owned();
            push_chars(&mut m, chars_of(msg.as_str()).as_slice());
            return Err(SignalError::Invalid(m));
        },
    };
    if pk.len() != 32 {
        return Err(SignalError::Invalid("public key length".to_owned()));
    }
    let mut i: usize = 0;
    while i < env.cands.len()
        invariant
            0 <= i <= env.cands@.len(),
            env.v == PROTOCOL_VERSION,
            kind_label(env.kind) == label@,
            b64_std_decoded(trim(env.pk@)) is Some,
            b64_std_decoded(trim(env.pk@))->0.len() == 32,
            forall|j: int| 0 <= j < i ==> socket_addr_text_ok(#[trigger] env.cands@[j].a@),
        decreases env.cands@.len() - i,
    {
        if !is_socket_addr_text(env.cands[i].a.as_str()) {
            let mut m = "candidate address '".to_owned();
            push_chars(&mut m, chars_of(env.cands[i].a.as_str()).as_slice());
            m.push('\'');
            assert(first_unparsable(env.cands@, i as int));
            return Err(SignalError::Invalid(m));
        }
        i = i + 1;
    }
    Ok(())
}

} // verus!
