//! The length-prefixed, zero-padded shard layout shared by both codes.
use vstd::prelude::*;

verus! {

/// Byte `j` of `payload` laid out as a shard: the big-endian `u16` length,
/// then the payload, then zeros.
pub open spec fn shard_byte(payload: Seq<u8>, j: int) -> u8 {
    if j == 0 {
        ((payload.len() as u16) >> 8u16) as u8
    } else if j == 1 {
        ((payload.len() as u16) & 0xffu16) as u8
    } else if 2 <= j < payload.len() + 2 {
        payload[j - 2]
    } else {
        0u8
    }
}

/// `payload` as a shard of exactly `len` bytes.
pub open spec fn padded(payload: Seq<u8>, len: nat) -> Seq<u8> {
    Seq::new(len, |j: int| shard_byte(payload, j))
}

/// The length field of a shard, capped at the room the shard has for a payload.
pub open spec fn shard_len_field(shard: Seq<u8>) -> nat
    recommends
        shard.len() >= 2,
{
    let l = (shard[0] as nat) * 256 + (shard[1] as nat);
    if l <= shard.len() - 2 {
        l
    } else {
        (shard.len() - 2) as nat
    }
}

/// The payload a shard carries: its length prefix stripped, capped at the
/// shard's own size.
pub open spec fn unpadded(shard: Seq<u8>) -> Seq<u8>
    recommends
        shard.len() >= 2,
{
    shard.subrange(2, 2 + shard_len_field(shard) as int)
}

/// The longest payload in `ps`.
pub open spec fn max_len(ps: Seq<Seq<u8>>) -> nat
    decreases ps.len(),
{
    if ps.len() == 0 {
        0
    } else {
        let m = max_len(ps.drop_last());
        if ps.last().len() > m {
            ps.last().len()
        } else {
            m
        }
    }
}

pub proof fn lemma_max_len_bounds(ps: Seq<Seq<u8>>)
    ensures
        forall|i: int| 0 <= i < ps.len() ==> #[trigger] ps[i].len() <= max_len(ps),
        ps.len() > 0 ==> exists|i: int| 0 <= i < ps.len() && #[trigger] ps[i].len() == max_len(ps),
    decreases ps.len(),
{
    if ps.len() > 0 {
        lemma_max_len_bounds(ps.drop_last());
        assert forall|i: int| 0 <= i < ps.len() implies #[trigger] ps[i].len() <= max_len(ps) by {
            if i < ps.len() - 1 {
                assert(ps.drop_last()[i] == ps[i]);
            }
        }
        if ps.len() > 1 && ps.last().len() <= max_len(ps.drop_last()) {
            let w = choose|i: int| 0 <= i < ps.drop_last().len() && #[trigger] ps.drop_last()[i].len()
                == max_len(ps.drop_last());
            assert(ps[w] == ps.drop_last()[w]);
        } else {
            assert(ps[ps.len() - 1].len() == max_len(ps));
        }
    }
}

/// Round trip of the length prefix: a payload that fits the shard comes back
/// exactly when the prefix is stripped.
pub proof fn lemma_unpad_padded(payload: Seq<u8>, len: nat)
    requires
        payload.len() <= 0xffff,
        payload.len() + 2 <= len,
    ensures
        unpadded(padded(payload, len)) == payload,
{
    let s = padded(payload, len);
    let n = payload.len() as u16;
    assert(n == payload.len());
    lemma_u16_split(n);
    assert(shard_len_field(s) == payload.len());
    assert(unpadded(s) =~= payload);
}

/// A `u16` recombined from its big-endian bytes.
pub proof fn lemma_u16_split(n: u16)
    ensures
        ((n >> 8u16) as u8) as nat * 256 + ((n & 0xffu16) as u8) as nat == n as nat,
{
    assert(((n >> 8u16) as u8) as u16 == n >> 8u16) by (bit_vector);
    assert(((n & 0xffu16) as u8) as u16 == n & 0xffu16) by (bit_vector);
    assert((n >> 8u16) * 256 + (n & 0xffu16) == n) by (bit_vector);
}

} // verus!
