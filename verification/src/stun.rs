//! A minimal STUN binding exchange (RFC 5389): the request that asks a
//! server for our public address, and the reading of its answer.
use vstd::prelude::*;

use crate::split_tunnel::{be32, be32_exec};

verus! {

/// The STUN magic cookie.
pub const STUN_MAGIC_COOKIE: u32 = 0x2112_a442;

/// Binding request message type.
pub const BINDING_REQUEST: u16 = 0x0001;

/// Binding success response message type.
pub const BINDING_SUCCESS: u16 = 0x0101;

/// XOR-MAPPED-ADDRESS attribute type.
pub const ATTR_XOR_MAPPED_ADDRESS: u16 = 0x0020;

/// MAPPED-ADDRESS attribute type.
pub const ATTR_MAPPED_ADDRESS: u16 = 0x0001;

/// Two octets as a big-endian `u16`.
pub open spec fn be16(a: u8, b: u8) -> u16 {
    (((a as u16) << 8u16) | (b as u16)) as u16
}

fn be16_exec(a: u8, b: u8) -> (v: u16)
    ensures
        v == be16(a, b),
{
    ((a as u16) << 8) | (b as u16)
}

/// The binding request with transaction id `txid`: type, zero length, the
/// magic cookie, then the id.
pub open spec fn request_bytes(txid: Seq<u8>) -> Seq<u8> {
    seq![0x00u8, 0x01u8, 0x00u8, 0x00u8, 0x21u8, 0x12u8, 0xa4u8, 0x42u8] + txid
}

/// A binding request (no attributes) for transaction id `txid`.
pub fn build_request(txid: &[u8]) -> (b: Vec<u8>)
    requires
        txid@.len() == 12,
    ensures
        b@ == request_bytes(txid@),
        b@.len() == 20,
{
    let mut b: Vec<u8> = vec![0x00, 0x01, 0x00, 0x00, 0x21, 0x12, 0xa4, 0x42];
    let mut i: usize = 0;
    while i < txid.len()
        invariant
            0 <= i <= txid@.len(),
            b@ == seq![0x00u8, 0x01u8, 0x00u8, 0x00u8, 0x21u8, 0x12u8, 0xa4u8, 0x42u8] + txid@.take(i as int),
        decreases txid@.len() - i,
    {
        b.push(txid[i]);
        i = i + 1;
        assert(b@ =~= seq![0x00u8, 0x01u8, 0x00u8, 0x00u8, 0x21u8, 0x12u8, 0xa4u8, 0x42u8] + txid@.take(i as int));
    }
    assert(txid@.take(12) =~= txid@);
    b
}

/// The address an XOR-MAPPED-ADDRESS value carries: IPv4 family only, port
/// and address XOR-ed with the magic cookie.
pub open spec fn xor_mapped_of(v: Seq<u8>) -> Option<(u32, u16)> {
    if v.len() < 8 || v[1] != 0x01 {
        None
    } else {
        Some(
            (
                be32(v[4], v[5], v[6], v[7]) ^ STUN_MAGIC_COOKIE,
                be16(v[2], v[3]) ^ ((STUN_MAGIC_COOKIE >> 16u32) as u16),
            ),
        )
    }
}

/// The address a MAPPED-ADDRESS value carries: IPv4 family only.
pub open spec fn mapped_of(v: Seq<u8>) -> Option<(u32, u16)> {
    if v.len() < 8 || v[1] != 0x01 {
        None
    } else {
        Some((be32(v[4], v[5], v[6], v[7]), be16(v[2], v[3])))
    }
}

/// The value of `value[from..to]` read as XOR-MAPPED-ADDRESS.
fn parse_xor_mapped(value: &[u8], from: usize, to: usize) -> (r: Option<(u32, u16)>)
    requires
        from <= to <= value@.len(),
    ensures
        r == xor_mapped_of(value@.subrange(from as int, to as int)),
{
    if to - from < 8 || value[from + 1] != 0x01 {
        return None;
    }
    let xport = be16_exec(value[from + 2], value[from + 3]);
    let port = xport ^ ((STUN_MAGIC_COOKIE >> 16) as u16);
    let xaddr = be32_exec(value[from + 4], value[from + 5], value[from + 6], value[from + 7]);
    Some((xaddr ^ STUN_MAGIC_COOKIE, port))
}

/// The value of `value[from..to]` read as MAPPED-ADDRESS.
fn parse_mapped(value: &[u8], from: usize, to: usize) -> (r: Option<(u32, u16)>)
    requires
        from <= to <= value@.len(),
    ensures
        r == mapped_of(value@.subrange(from as int, to as int)),
{
    if to - from < 8 || value[from + 1] != 0x01 {
        return None;
    }
    let port = be16_exec(value[from + 2], value[from + 3]);
    let addr = be32_exec(value[from + 4], value[from + 5], value[from + 6], value[from + 7]);
    Some((addr, port))
}

/// `n` rounded up to a multiple of four.
pub open spec fn pad4(n: int) -> int {
    (n + 3) / 4 * 4
}

/// The first address attribute of `attrs` at or after offset `i`, read as
/// its type says; attributes are padded to four bytes. `None` when an
/// attribute runs past the end or no address attribute comes.
pub open spec fn scan_attrs(attrs: Seq<u8>, i: int) -> Option<(u32, u16)>
    decreases attrs.len() - i,
{
    if i < 0 || i + 4 > attrs.len() {
        None
    } else {
        let atype = be16(attrs[i], attrs[i + 1]);
        let alen = be16(attrs[i + 2], attrs[i + 3]) as int;
        let vstart = i + 4;
        if vstart + alen > attrs.len() {
            None
        } else if atype == ATTR_XOR_MAPPED_ADDRESS {
            xor_mapped_of(attrs.subrange(vstart, vstart + alen))
        } else if atype == ATTR_MAPPED_ADDRESS {
            mapped_of(attrs.subrange(vstart, vstart + alen))
        } else if vstart + pad4(alen) > attrs.len() {
            None
        } else {
            scan_attrs(attrs, vstart + pad4(alen))
        }
    }
}

/// The mapped address in `msg` when it is a binding success response for
/// transaction `txid`.
pub open spec fn response_addr(msg: Seq<u8>, txid: Seq<u8>) -> Option<(u32, u16)> {
    if msg.len() < 20 {
        None
    } else if be16(msg[0], msg[1]) != BINDING_SUCCESS || be32(msg[4], msg[5], msg[6], msg[7]) != STUN_MAGIC_COOKIE
        || msg.subrange(8, 20) != txid {
        None
    } else if 20 + be16(msg[2], msg[3]) > msg.len() {
        None
    } else {
        scan_attrs(msg.subrange(20, 20 + be16(msg[2], msg[3]) as int), 0)
    }
}

/// Read a binding success response and extract the mapped address; `None`
/// when `msg` is not a well-formed success response for `txid`.
pub fn parse_response(msg: &[u8], txid: &[u8]) -> (r: Option<(u32, u16)>)
    requires
        txid@.len() == 12,
    ensures
        r == response_addr(msg@, txid@),
{
    if msg.len() < 20 {
        return None;
    }
    let msg_type = be16_exec(msg[0], msg[1]);
    let cookie = be32_exec(msg[4], msg[5], msg[6], msg[7]);
    if msg_type != BINDING_SUCCESS || cookie != STUN_MAGIC_COOKIE {
        return None;
    }
    let mut k: usize = 0;
    while k < 12
        invariant
            0 <= k <= 12,
            msg@.len() >= 20,
            txid@.len() == 12,
            forall|j: int| 0 <= j < k ==> msg@[8 + j] == txid@[j],
        decreases 12 - k,
    {
        if msg[8 + k] != txid[k] {
            assert(msg@.subrange(8, 20)[k as int] != txid@[k as int]);
            return None;
        }
        k = k + 1;
    }
    assert(msg@.subrange(8, 20) =~= txid@);
    let length = be16_exec(msg[2], msg[3]) as usize;
    if 20 + length > msg.len() {
        return None;
    }
    let end = 20 + length;
    let ghost attrs = msg@.subrange(20, end as int);
    let mut i: usize = 0;
    while i + 4 <= length
        invariant
            end == 20 + length <= msg@.len(),
            length <= 0xffff,
            attrs == msg@.subrange(20, end as int),
            i <= length,
            scan_attrs(attrs, i as int) == response_addr(msg@, txid@),
        decreases length - i,
    {
        let base = 20 + i;
        let atype = be16_exec(msg[base], msg[base + 1]);
        let alen = be16_exec(msg[base + 2], msg[base + 3]) as usize;
        assert(attrs[i as int] == msg@[base as int] && attrs[i + 1] == msg@[base + 1]);
        assert(attrs[i + 2] == msg@[base + 2] && attrs[i + 3] == msg@[base + 3]);
        let vstart = i + 4;
        if vstart + alen > length {
            return None;
        }
        assert(attrs.subrange(vstart as int, vstart + alen) =~= msg@.subrange(20 + vstart, 20 + vstart + alen));
        if atype == ATTR_XOR_MAPPED_ADDRESS {
            return parse_xor_mapped(msg, 20 + vstart, 20 + vstart + alen);
        }
        if atype == ATTR_MAPPED_ADDRESS {
            return parse_mapped(msg, 20 + vstart, 20 + vstart + alen);
        }
        let next = vstart + (alen + 3) / 4 * 4;
        if next > length {
            return None;
        }
        i = next;
    }
    None
}

/// Scanning attributes placed after other bytes reads them as it reads them
/// alone.
proof fn lemma_scan_shift(pre: Seq<u8>, rest: Seq<u8>, j: int)
    requires
        0 <= j,
    ensures
        scan_attrs(pre + rest, pre.len() + j) == scan_attrs(rest, j),
    decreases rest.len() - j,
{
    let all = pre + rest;
    let i = pre.len() + j;
    if j + 4 <= rest.len() {
        assert(all[i] == rest[j] && all[i + 1] == rest[j + 1] && all[i + 2] == rest[j + 2] && all[i + 3]
            == rest[j + 3]);
        let alen = be16(rest[j + 2], rest[j + 3]) as int;
        if j + 4 + alen <= rest.len() {
            assert(all.subrange(i + 4, i + 4 + alen) =~= rest.subrange(j + 4, j + 4 + alen));
        }
        if j + 4 + pad4(alen) <= rest.len() {
            lemma_scan_shift(pre, rest, j + 4 + pad4(alen));
        }
    }
}

/// STUN attributes are padded to four bytes: the scan passes over an
/// attribute of any other type (header `head`, value `value`) together with
/// the zero to three bytes `pad` that bring its value to a multiple of four,
/// and reads what follows exactly as it reads it alone. So an address
/// attribute after any unknown attribute is found.
pub proof fn law_unknown_attribute_is_skipped(head: Seq<u8>, value: Seq<u8>, pad: Seq<u8>, rest: Seq<u8>)
    requires
        head.len() == 4,
        be16(head[0], head[1]) != ATTR_XOR_MAPPED_ADDRESS,
        be16(head[0], head[1]) != ATTR_MAPPED_ADDRESS,
        be16(head[2], head[3]) == value.len(),
        pad.len() < 4,
        (value.len() + pad.len()) % 4 == 0,
    ensures
        scan_attrs(head + value + pad + rest, 0) == scan_attrs(rest, 0),
{
    let pre = head + value + pad;
    let all = pre + rest;
    assert(head + value + pad + rest =~= all);
    let n = value.len() as int;
    let p = pad.len() as int;
    assert(all[0] == head[0] && all[1] == head[1] && all[2] == head[2] && all[3] == head[3]);
    assert(pad4(n) == n + p) by (nonlinear_arith)
        requires
            0 <= p < 4,
            0 <= n,
            (n + p) % 4 == 0,
            pad4(n) == (n + 3) / 4 * 4,
    ;
    lemma_scan_shift(pre, rest, 0);
}

} // verus!
