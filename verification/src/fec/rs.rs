//! Reed-Solomon erasure coding: a group of up to `k` data packets is protected
//! by `r` parity shards, so any `r` losses in the group can be reconstructed.
//!
//! The Galois-field arithmetic is the `reed_solomon_erasure` crate's; this
//! module owns the shard layout, the group bookkeeping and the validation of
//! peer-supplied geometry (`k`, `r`, shard index, shard length), which is
//! range-checked before use so a hostile group is dropped, never trusted.
use vstd::prelude::*;

use super::shard::{lemma_max_len_bounds, lemma_unpad_padded, max_len, padded, shard_byte, unpadded};
use super::xor::next_group;

verus! {

/// Most data shards a group may declare.
pub const MAX_K: usize = 64;

/// Most parity shards a group may declare.
pub const MAX_R: usize = 16;

/// Longest shard accepted from a peer.
pub const MAX_SHARD_LEN: usize = 2048;

/// The `reed_solomon_erasure` codec itself, opaque to verification.
#[verifier::external_body]
pub struct GfCodec(reed_solomon_erasure::galois_8::ReedSolomon);

/// A Reed-Solomon codec over GF(2^8) together with the geometry it was built for.
pub struct RsCodec {
    inner: GfCodec,
    data_shards: usize,
    parity_shards: usize,
}

impl RsCodec {
    /// `(data shards, parity shards)` the codec was built for.
    pub closed spec fn geometry(self) -> (nat, nat) {
        (self.data_shards as nat, self.parity_shards as nat)
    }
}

/// The parity shards that `reed_solomon_erasure` computes for data shards
/// `data` under a `(k, r)` code.
pub uninterp spec fn rs_parity_shards(k: nat, r: nat, data: Seq<Seq<u8>>) -> Seq<Seq<u8>>;

/// The data shards that `reed_solomon_erasure` reconstructs under a `(k, r)`
/// code from the shards present in `shards` (slot `i` is shard `i`).
pub uninterp spec fn rs_reconstructed(k: nat, r: nat, shards: Seq<Option<Seq<u8>>>) -> Seq<Seq<u8>>;

/// `ReedSolomon::new(data_shards, parity_shards)` of `reed_solomon_erasure`:
/// succeeds exactly when both counts are non-zero and their sum is at most the
/// field order, 256 (it returns `TooFewDataShards`, `TooFewParityShards` or
/// `TooManyShards` otherwise). The codec is returned with the counts it was
/// built for.
#[verifier::external_body]
fn rs_new(data_shards: usize, parity_shards: usize) -> (res: Option<RsCodec>)
    ensures
        res is Some <==> (data_shards > 0 && parity_shards > 0 && data_shards + parity_shards <= 256),
        res matches Some(c) ==> c.geometry() == (data_shards as nat, parity_shards as nat),
{
    match reed_solomon_erasure::ReedSolomon::new(data_shards, parity_shards) {
        Ok(c) => Some(RsCodec { inner: GfCodec(c), data_shards, parity_shards }),
        Err(_) => None,
    }
}

/// Whether every shard in `shards` has the same, non-zero length.
pub open spec fn uniform_nonempty(shards: Seq<Seq<u8>>) -> bool {
    &&& shards.len() > 0
    &&& shards[0].len() > 0
    &&& forall|i: int| 0 <= i < shards.len() ==> #[trigger] shards[i].len() == shards[0].len()
}

/// `ReedSolomon::encode` of `reed_solomon_erasure`: given exactly `k + r`
/// shards of one common non-zero length, it overwrites the last `r` with the
/// parity of the first `k` and succeeds; otherwise it returns an error without
/// touching anything (`TooFewShards`, `TooManyShards`, `EmptyShard`,
/// `IncorrectShardSize`). The parity bytes themselves are named, not stated.
#[verifier::external_body]
fn rs_encode(codec: &RsCodec, shards: &mut Vec<Vec<u8>>) -> (ok: bool)
    ensures
        ok <==> (old(shards).len() == codec.geometry().0 + codec.geometry().1 && uniform_nonempty(
            old(shards)@.map_values(|s: Vec<u8>| s@),
        )),
        !ok ==> final(shards)@ == old(shards)@,
        ok ==> {
            let k = codec.geometry().0;
            let r = codec.geometry().1;
            let before = old(shards)@.map_values(|s: Vec<u8>| s@);
            let after = final(shards)@.map_values(|s: Vec<u8>| s@);
            &&& after.len() == before.len()
            &&& after.subrange(0, k as int) == before.subrange(0, k as int)
            &&& after.subrange(k as int, (k + r) as int) == rs_parity_shards(
                k,
                r,
                before.subrange(0, k as int),
            )
            &&& forall|i: int| 0 <= i < after.len() ==> #[trigger] after[i].len() == before[0].len()
        },
{
    codec.inner.0.encode(shards).is_ok()
}

/// Views of optional shards.
pub open spec fn opt_views(shards: Seq<Option<Vec<u8>>>) -> Seq<Option<Seq<u8>>> {
    shards.map_values(|o: Option<Vec<u8>>| crate::fec::xor::opt_bytes(o))
}

/// How many of the slots `0..n` hold a shard.
pub open spec fn present_upto(shards: Seq<Option<Seq<u8>>>, n: int) -> nat
    decreases n,
{
    if n <= 0 {
        0
    } else {
        present_upto(shards, n - 1) + (if shards[n - 1] is Some {
            1nat
        } else {
            0nat
        })
    }
}

/// Whether `reconstruct_data` accepts `shards` under a `(k, r)` code: exactly
/// `k + r` slots, every present shard non-empty and of one common length, and
/// at least `k` of them present.
pub open spec fn rs_reconstruct_ok(k: nat, r: nat, shards: Seq<Option<Seq<u8>>>) -> bool {
    &&& shards.len() == k + r
    &&& forall|i: int| 0 <= i < shards.len() && shards[i] is Some ==> #[trigger] shards[i]->0.len() > 0
    &&& forall|i: int, j: int|
        0 <= i < shards.len() && 0 <= j < shards.len() && shards[i] is Some && shards[j] is Some
            ==> #[trigger] shards[i]->0.len() == #[trigger] shards[j]->0.len()
    &&& present_upto(shards, shards.len() as int) >= k
}

/// Whether the shards present in `shards` are those of the `(k, r)` encoding
/// of the data shards `d`: data slot `i` holds `d[i]`, parity slot `k + i` the
/// `i`-th parity shard of `d`.
pub open spec fn rs_consistent(k: nat, r: nat, d: Seq<Seq<u8>>, shards: Seq<Option<Seq<u8>>>) -> bool {
    &&& d.len() == k
    &&& shards.len() == k + r
    &&& forall|i: int| 0 <= i < k && shards[i] is Some ==> #[trigger] shards[i] == Some(d[i])
    &&& forall|i: int|
        k <= i < k + r && shards[i] is Some ==> #[trigger] shards[i] == Some(rs_parity_shards(k, r, d)[i - k])
}

/// `ReedSolomon::reconstruct_data` of `reed_solomon_erasure`: when
/// `rs_reconstruct_ok` holds, it fills every missing data slot (index below `k`)
/// with a shard of the common length and leaves every present slot and every
/// missing parity slot as it was; otherwise it returns an error and touches
/// nothing. The reconstructed bytes are named; of them the contract states
/// only what the code guarantees: when the present shards are those of the
/// encoding of some data shards of one common non-empty length, the data
/// slots end up holding exactly those data shards (any `k` shards of the code
/// determine its data).
#[verifier::external_body]
fn rs_reconstruct_data(codec: &RsCodec, shards: &mut Vec<Option<Vec<u8>>>) -> (ok: bool)
    ensures
        ok <==> rs_reconstruct_ok(codec.geometry().0, codec.geometry().1, opt_views(old(shards)@)),
        !ok ==> final(shards)@ == old(shards)@,
        ok ==> {
            let k = codec.geometry().0;
            let r = codec.geometry().1;
            let before = opt_views(old(shards)@);
            let after = opt_views(final(shards)@);
            &&& after.len() == before.len()
            &&& forall|i: int|
                0 <= i < before.len() && (before[i] is Some || i >= k) ==> #[trigger] after[i]
                    == before[i]
            &&& forall|i: int|
                0 <= i < k && before[i] is None ==> #[trigger] after[i] == Some(
                    rs_reconstructed(k, r, before)[i],
                )
            &&& forall|i: int, j: int|
                0 <= i < k && before[i] is None && 0 <= j < before.len() && before[j] is Some
                    ==> #[trigger] rs_reconstructed(k, r, before)[i].len()
                    == #[trigger] before[j]->0.len()
            &&& forall|d: Seq<Seq<u8>>|
                uniform_nonempty(d) && #[trigger] rs_consistent(k, r, d, before) ==> forall|i: int|
                    0 <= i < k ==> #[trigger] after[i] == Some(d[i])
        },
{
    codec.inner.0.reconstruct_data(shards).is_ok()
}

/// `[len:u16 BE][payload][zero pad]`, exactly `shard_len` bytes.
pub fn pad_shard(payload: &[u8], shard_len: usize) -> (s: Vec<u8>)
    requires
        shard_len >= 2,
    ensures
        s@ == padded(payload@, shard_len as nat),
{
    let mut s = crate::bytes::zeros(shard_len);
    let len = payload.len() as u16;
    s.set(0, (len >> 8) as u8);
    s.set(1, (len & 0xff) as u8);
    let room = shard_len - 2;
    let n = if payload.len() < room { payload.len() } else { room };
    let mut i: usize = 0;
    while i < n
        invariant
            0 <= i <= n,
            n <= payload@.len(),
            n + 2 <= shard_len,
            s.len() == shard_len,
            len == payload@.len() as u16,
            forall|j: int|
                0 <= j < shard_len ==> #[trigger] s@[j] == (if j < 2 + i {
                    shard_byte(payload@, j)
                } else {
                    0u8
                }),
        decreases n - i,
    {
        s.set(2 + i, payload[i]);
        i = i + 1;
    }
    assert(s@ =~= padded(payload@, shard_len as nat));
    s
}

/// Strip the length prefix from a reconstructed shard.
pub fn unpad(shard: &[u8]) -> (res: Option<Vec<u8>>)
    ensures
        shard@.len() < 2 ==> res is None,
        shard@.len() >= 2 ==> (res matches Some(p) && p@ == unpadded(shard@)),
{
    if shard.len() < 2 {
        return None;
    }
    let hdr = ((shard[0] as usize) << 8) | (shard[1] as usize);
    let a0 = shard[0];
    let a1 = shard[1];
    assert(((a0 as usize) << 8usize) | (a1 as usize) == (a0 as usize) * 256 + (a1 as usize))
        by (bit_vector);
    let room = shard.len() - 2;
    let len = if hdr < room { hdr } else { room };
    Some(crate::bytes::copy_range(shard, 2, 2 + len))
}

/// One parity shard emitted when a group closes.
pub struct RsParity {
    pub group: u32,
    /// Data shards in this group (may be fewer than the configured `k` after a flush).
    pub k: u8,
    /// Parity shards in this group.
    pub r: u8,
    /// Which parity shard this is, in `0..r`.
    pub index: u8,
    pub shard: Vec<u8>,
}

/// The data shards of a group: every member padded to the longest one plus the
/// two-byte prefix.
pub open spec fn data_shards(ps: Seq<Seq<u8>>) -> Seq<Seq<u8>> {
    Seq::new(ps.len(), |i: int| padded(ps[i], max_len(ps) + 2))
}

/// Whether `out` is the parity that closing group `group` with members `ps`
/// under `r` parity shards emits: each shard is two bytes longer than the
/// group's longest packet.
pub open spec fn is_group_parity(out: Seq<RsParity>, group: u32, ps: Seq<Seq<u8>>, r: nat) -> bool {
    &&& out.len() == r
    &&& forall|i: int|
        0 <= i < r ==> {
            &&& (#[trigger] out[i]).group == group
            &&& out[i].k == ps.len()
            &&& out[i].r == r
            &&& out[i].index == i
            &&& out[i].shard@ == rs_parity_shards(ps.len(), r, data_shards(ps))[i]
            &&& out[i].shard@.len() == max_len(ps) + 2
        }
}

/// Rolling Reed-Solomon encoder. Data packets are sent immediately by the
/// caller; this accumulates them and, when the group closes, yields the parity
/// shards to send in addition.
pub struct RsEncoder {
    k: u8,
    r: u8,
    group_id: u32,
    members: Vec<Vec<u8>>,
}

/// `v` clamped to `lo..=hi`.
pub open spec fn clamp(v: nat, lo: nat, hi: nat) -> nat {
    if v < lo {
        lo
    } else if v > hi {
        hi
    } else {
        v
    }
}

impl RsEncoder {
    /// Data packets per full group.
    pub closed spec fn data_per_group(self) -> nat {
        self.k as nat
    }

    /// Parity shards per group.
    pub closed spec fn parity_per_group(self) -> nat {
        self.r as nat
    }

    pub closed spec fn current_group(self) -> u32 {
        self.group_id
    }

    pub closed spec fn pending(self) -> Seq<Seq<u8>> {
        self.members@.map_values(|m: Vec<u8>| m@)
    }

    pub closed spec fn wf(self) -> bool {
        &&& 1 <= self.k <= MAX_K
        &&& 1 <= self.r <= MAX_R
        &&& self.members.len() < self.k
        &&& forall|i: int| 0 <= i < self.members.len() ==> #[trigger] self.members[i].len() <= 0xffff
    }

    /// A `(k, r)` encoder; `k` is clamped to `1..=64` and `r` to `1..=16`.
    pub fn new(k: u8, r: u8) -> (e: Self)
        ensures
            e.wf(),
            e.data_per_group() == clamp(k as nat, 1, MAX_K as nat),
            e.parity_per_group() == clamp(r as nat, 1, MAX_R as nat),
            e.current_group() == 0,
            e.pending() == Seq::<Seq<u8>>::empty(),
    {
        let kk: u8 = if k < 1 { 1 } else if k as usize > MAX_K { 64 } else { k };
        let rr: u8 = if r < 1 { 1 } else if r as usize > MAX_R { 16 } else { r };
        let e = RsEncoder { k: kk, r: rr, group_id: 0, members: Vec::new() };
        assert(e.pending() =~= Seq::<Seq<u8>>::empty());
        e
    }

    /// Record `ip` in the current group, returning `(group, index)` to tag its
    /// data frame. If this closes the group, also returns its parity shards and
    /// rolls to the next group. A packet longer than 65535 bytes cannot be
    /// length-prefixed and is refused by `requires` (an IP packet never is).
    pub fn push(&mut self, ip: &[u8]) -> (res: (u32, u8, Vec<RsParity>))
        requires
            old(self).wf(),
            ip@.len() <= 0xffff,
        ensures
            final(self).wf(),
            final(self).data_per_group() == old(self).data_per_group(),
            final(self).parity_per_group() == old(self).parity_per_group(),
            res.0 == old(self).current_group(),
            res.1 == old(self).pending().len(),
            ({
                let full = old(self).pending().push(ip@);
                if full.len() >= old(self).data_per_group() {
                    &&& is_group_parity(
                        res.2@,
                        old(self).current_group(),
                        full,
                        old(self).parity_per_group(),
                    )
                    &&& final(self).pending() == Seq::<Seq<u8>>::empty()
                    &&& final(self).current_group() == next_group(old(self).current_group())
                } else {
                    &&& res.2@.len() == 0
                    &&& final(self).pending() == full
                    &&& final(self).current_group() == old(self).current_group()
                }
            }),
    {
        let group = self.group_id;
        let index = self.members.len() as u8;
        let ghost old_pending = self.pending();
        self.members.push(crate::bytes::copy_bytes(ip));
        assert(self.pending() =~= old_pending.push(ip@));
        if self.members.len() >= self.k as usize {
            let p = self.close();
            (group, index, p)
        } else {
            (group, index, Vec::new())
        }
    }

    /// Close a partial group (idle flush). Empty when the group is empty.
    pub fn flush(&mut self) -> (res: Vec<RsParity>)
        requires
            old(self).wf(),
        ensures
            final(self).wf(),
            final(self).data_per_group() == old(self).data_per_group(),
            final(self).parity_per_group() == old(self).parity_per_group(),
            old(self).pending().len() == 0 ==> res@.len() == 0 && *final(self) == *old(self),
            old(self).pending().len() > 0 ==> {
                &&& is_group_parity(
                    res@,
                    old(self).current_group(),
                    old(self).pending(),
                    old(self).parity_per_group(),
                )
                &&& final(self).pending() == Seq::<Seq<u8>>::empty()
                &&& final(self).current_group() == next_group(old(self).current_group())
            },
    {
        if self.members.len() == 0 {
            Vec::new()
        } else {
            self.close()
        }
    }

    fn close(&mut self) -> (out: Vec<RsParity>)
        requires
            1 <= old(self).members.len() <= old(self).k,
            1 <= old(self).k <= MAX_K,
            1 <= old(self).r <= MAX_R,
            forall|i: int| 0 <= i < old(self).members.len() ==> #[trigger] old(self).members[i].len() <= 0xffff,
        ensures
            final(self).k == old(self).k,
            final(self).r == old(self).r,
            final(self).members.len() == 0,
            final(self).group_id == next_group(old(self).group_id),
            is_group_parity(out@, old(self).group_id, old(self).pending(), old(self).r as nat),
    {
        let k = self.members.len();
        let r = self.r as usize;
        let group = self.group_id;
        let ghost ps = self.pending();
        proof {
            lemma_max_len_bounds(ps);
        }
        let mut maxlen: usize = 0;
        let mut i: usize = 0;
        while i < k
            invariant
                0 <= i <= k,
                k == self.members.len(),
                ps == self.pending(),
                maxlen == max_len(ps.take(i as int)),
                maxlen <= 0xffff,
                forall|t: int| 0 <= t < self.members.len() ==> #[trigger] self.members[t].len() <= 0xffff,
            decreases k - i,
        {
            assert(ps.take(i + 1).drop_last() =~= ps.take(i as int));
            if self.members[i].len() > maxlen {
                maxlen = self.members[i].len();
            }
            i = i + 1;
        }
        assert(ps.take(i as int) =~= ps);
        let shard_len = maxlen + 2;
        let mut shards: Vec<Vec<u8>> = Vec::new();
        let mut i: usize = 0;
        while i < k
            invariant
                0 <= i <= k,
                k == self.members.len(),
                ps == self.pending(),
                shard_len == max_len(ps) + 2,
                shards@.map_values(|s: Vec<u8>| s@) == data_shards(ps).take(i as int),
                shards.len() == i,
                forall|t: int| 0 <= t < shards.len() ==> #[trigger] shards[t]@.len() == shard_len,
            decreases k - i,
        {
            assert(self.members[i as int]@ == ps[i as int]);
            let s = pad_shard(self.members[i].as_slice(), shard_len);
            shards.push(s);
            assert(shards@.map_values(|s: Vec<u8>| s@) =~= data_shards(ps).take(i + 1));
            i = i + 1;
        }
        assert(data_shards(ps).take(k as int) =~= data_shards(ps));
        let mut i: usize = 0;
        while i < r
            invariant
                0 <= i <= r,
                shards.len() == k + i,
                shards@.map_values(|s: Vec<u8>| s@).subrange(0, k as int) == data_shards(ps),
                forall|t: int| 0 <= t < shards.len() ==> #[trigger] shards[t]@.len() == shard_len,
            decreases r - i,
        {
            shards.push(crate::bytes::zeros(shard_len));
            assert(shards@.map_values(|s: Vec<u8>| s@).subrange(0, k as int) =~= data_shards(ps));
            i = i + 1;
        }
        self.members.clear();
        self.group_id = self.group_id.wrapping_add(1);
        let codec = match rs_new(k, r) {
            Some(c) => c,
            None => {
                return Vec::new();
            },
        };
        let ghost before = shards@.map_values(|s: Vec<u8>| s@);
        assert(uniform_nonempty(before));
        let ok = rs_encode(&codec, &mut shards);
        if !ok {
            return Vec::new();
        }
        let ghost parity = rs_parity_shards(k as nat, r as nat, data_shards(ps));
        assert(before[0].len() == shard_len);
        assert(forall|t: int| 0 <= t < shards.len() ==> #[trigger] shards[t]@.len() == shard_len) by {
            assert forall|t: int| 0 <= t < shards.len() implies #[trigger] shards[t]@.len() == shard_len by {
                assert(shards@.map_values(|s: Vec<u8>| s@)[t] == shards[t]@);
            }
        }
        let mut out: Vec<RsParity> = Vec::new();
        let mut i: usize = 0;
        while i < r
            invariant
                0 <= i <= r,
                shards.len() == k + r,
                shards@.map_values(|s: Vec<u8>| s@).subrange(k as int, (k + r) as int) == parity,
                out.len() == i,
                shard_len == max_len(ps) + 2,
                forall|t: int| 0 <= t < shards.len() ==> #[trigger] shards[t]@.len() == shard_len,
                1 <= k <= MAX_K,
                1 <= r <= MAX_R,
                ps.len() == k,
                forall|t: int|
                    0 <= t < i ==> {
                        &&& (#[trigger] out@[t]).group == group
                        &&& out@[t].k == ps.len()
                        &&& out@[t].r == r
                        &&& out@[t].index == t
                        &&& out@[t].shard@ == parity[t]
                        &&& out@[t].shard@.len() == shard_len
                    },
            decreases r - i,
        {
            assert(shards@.map_values(|s: Vec<u8>| s@).subrange(k as int, (k + r) as int)[i as int]
                == shards[(k + i) as int]@);
            let shard = crate::bytes::copy_bytes(shards[k + i].as_slice());
            out.push(RsParity { group, k: k as u8, r: r as u8, index: i as u8, shard });
            i = i + 1;
        }
        out
    }
}


/// The abstract state of one decoder group.
pub struct RsGroupState {
    pub id: u32,
    /// `(k, r, shard length)` once a valid parity shard has established them.
    pub geometry: Option<(u8, u8, nat)>,
    /// Slot `i` (of 64) holds data packet `i` at its natural length, if received.
    pub data: Seq<Option<Seq<u8>>>,
    /// Slot `i` (of 16) holds parity shard `i`, if received.
    pub parity: Seq<Option<Seq<u8>>>,
    pub done: bool,
}

pub open spec fn none_slots(n: nat) -> Seq<Option<Seq<u8>>> {
    Seq::new(n, |i: int| None::<Seq<u8>>)
}

pub open spec fn empty_rs_group(id: u32) -> RsGroupState {
    RsGroupState {
        id,
        geometry: None,
        data: none_slots(MAX_K as nat),
        parity: none_slots(MAX_R as nat),
        done: false,
    }
}

/// A finished group keeps its id and geometry, and drops every buffered shard.
pub open spec fn finished_rs(g: RsGroupState) -> RsGroupState {
    RsGroupState {
        data: none_slots(MAX_K as nat),
        parity: none_slots(MAX_R as nat),
        done: true,
        ..g
    }
}

/// The shards handed to reconstruction: data packets that fit, padded to the
/// shard length, then parity shards of exactly the shard length.
pub open spec fn shard_input(g: RsGroupState, k: nat, r: nat, sl: nat) -> Seq<Option<Seq<u8>>> {
    Seq::new(
        k + r,
        |i: int|
            if i < k {
                match g.data[i] {
                    Some(p) => if p.len() + 2 <= sl {
                        Some(padded(p, sl))
                    } else {
                        None
                    },
                    None => None,
                }
            } else {
                match g.parity[i - k] {
                    Some(q) => if q.len() == sl {
                        Some(q)
                    } else {
                        None
                    },
                    None => None,
                }
            },
    )
}

/// The packets rebuilt for the missing data slots below `n`, in index order.
pub open spec fn recovered_list(g: RsGroupState, rec: Seq<Seq<u8>>, n: int) -> Seq<Seq<u8>>
    decreases n,
{
    if n <= 0 {
        Seq::empty()
    } else if g.data[n - 1] is None {
        recovered_list(g, rec, n - 1).push(unpadded(rec[n - 1]))
    } else {
        recovered_list(g, rec, n - 1)
    }
}

/// What a recovery attempt on `g` yields, and whether the group is then
/// finished: nothing (finished) once every data packet arrived; the missing
/// packets (finished) once reconstruction succeeds; otherwise nothing.
pub open spec fn rs_recover_outcome(g: RsGroupState) -> (Seq<Seq<u8>>, bool) {
    if g.done {
        (Seq::empty(), false)
    } else {
        match g.geometry {
            Some((k, r, sl)) => {
                let dc = present_upto(g.data, MAX_K as int);
                let pc = present_upto(g.parity, MAX_R as int);
                if dc >= k {
                    (Seq::empty(), true)
                } else if dc + pc >= k {
                    let input = shard_input(g, k as nat, r as nat, sl);
                    if rs_reconstruct_ok(k as nat, r as nat, input) {
                        (
                            recovered_list(
                                g,
                                rs_reconstructed(k as nat, r as nat, input),
                                k as int,
                            ),
                            true,
                        )
                    } else {
                        (Seq::empty(), false)
                    }
                } else {
                    (Seq::empty(), false)
                }
            },
            None => (Seq::empty(), false),
        }
    }
}

/// The packets of a group padded to its shard length `sl`.
pub open spec fn padded_all(ps: Seq<Seq<u8>>, sl: nat) -> Seq<Seq<u8>> {
    Seq::new(ps.len(), |i: int| padded(ps[i], sl))
}

/// Whether group `g` holds shards of the encoding of the packets `ps`: its
/// geometry has `k == ps.len()`, every packet fits a shard, every data packet
/// held is the packet of its index, and every parity shard held is of the
/// shard length and is the parity of the padded packets. Nothing is held
/// beyond the `k` data and `r` parity slots.
pub open spec fn rs_group_encodes(g: RsGroupState, ps: Seq<Seq<u8>>) -> bool {
    match g.geometry {
        Some((k, r, sl)) => {
            &&& ps.len() == k
            &&& forall|i: int| 0 <= i < k ==> (#[trigger] ps[i]).len() + 2 <= sl && ps[i].len() <= 0xffff
            &&& forall|i: int| 0 <= i < MAX_K && g.data[i] is Some ==> i < k && #[trigger] g.data[i] == Some(ps[i])
            &&& forall|i: int|
                0 <= i < MAX_R && g.parity[i] is Some ==> i < r && #[trigger] g.parity[i] == Some(
                    rs_parity_shards(k as nat, r as nat, padded_all(ps, sl))[i],
                ) && g.parity[i]->0.len() == sl
        },
        None => false,
    }
}

/// Whether group `g` is still open, misses a data packet, and holds at least
/// `k` shards in all.
pub open spec fn rs_enough(g: RsGroupState) -> bool {
    match g.geometry {
        Some((k, r, sl)) => {
            &&& !g.done
            &&& present_upto(g.data, MAX_K as int) < k
            &&& present_upto(g.data, MAX_K as int) + present_upto(g.parity, MAX_R as int) >= k
        },
        None => false,
    }
}

/// The packets `ps[i]`, `i < n`, whose data slot in `g` is empty, in index
/// order.
pub open spec fn missing_packets(g: RsGroupState, ps: Seq<Seq<u8>>, n: int) -> Seq<Seq<u8>>
    decreases n,
{
    if n <= 0 {
        Seq::empty()
    } else if g.data[n - 1] is None {
        missing_packets(g, ps, n - 1).push(ps[n - 1])
    } else {
        missing_packets(g, ps, n - 1)
    }
}

pub(crate) proof fn lemma_present_tail_none(s: Seq<Option<Seq<u8>>>, m: int, n: int)
    requires
        0 <= m <= n <= s.len(),
        forall|j: int| m <= j < n ==> !(#[trigger] s[j] is Some),
    ensures
        present_upto(s, n) == present_upto(s, m),
    decreases n,
{
    if n > m {
        lemma_present_tail_none(s, m, n - 1);
    }
}

#[verifier::spinoff_prover]
proof fn lemma_input_counts(g: RsGroupState, ps: Seq<Seq<u8>>, k: nat, r: nat, sl: nat, n: int)
    requires
        g.geometry == Some((k as u8, r as u8, sl)),
        1 <= k <= MAX_K,
        1 <= r <= MAX_R,
        g.data.len() == MAX_K,
        g.parity.len() == MAX_R,
        rs_group_encodes(g, ps),
        0 <= n <= k + r,
    ensures
        present_upto(shard_input(g, k, r, sl), n) == (if n <= k {
            present_upto(g.data, n)
        } else {
            present_upto(g.data, k as int) + present_upto(g.parity, n - k)
        }),
    decreases n,
{
    if n > 0 {
        lemma_input_counts(g, ps, k, r, sl, n - 1);
        let input = shard_input(g, k, r, sl);
        if n - 1 < k {
            if g.data[n - 1] is Some {
                assert(g.data[n - 1] == Some(ps[n - 1]));
            }
        } else {
            if g.parity[n - 1 - k] is Some {
                assert(g.parity[n - 1 - k]->0.len() == sl);
            }
        }
    }
}

/// A group holding shards of the encoding of `ps`, and enough of them, is
/// accepted by reconstruction and is consistent with the padded packets.
proof fn lemma_rs_encoded_group(g: RsGroupState, ps: Seq<Seq<u8>>, k: nat, r: nat, sl: nat)
    requires
        g.geometry == Some((k as u8, r as u8, sl)),
        1 <= k <= MAX_K,
        1 <= r <= MAX_R,
        2 <= sl,
        g.data.len() == MAX_K,
        g.parity.len() == MAX_R,
        rs_group_encodes(g, ps),
        rs_enough(g),
    ensures
        rs_reconstruct_ok(k, r, shard_input(g, k, r, sl)),
        rs_consistent(k, r, padded_all(ps, sl), shard_input(g, k, r, sl)),
        uniform_nonempty(padded_all(ps, sl)),
{
    let input = shard_input(g, k, r, sl);
    let d = padded_all(ps, sl);
    assert forall|j: int| k <= j < MAX_K implies !(#[trigger] g.data[j] is Some) by {
        if g.data[j] is Some {
            assert(j < k);
        }
    }
    assert forall|j: int| r <= j < MAX_R implies !(#[trigger] g.parity[j] is Some) by {
        if g.parity[j] is Some {
            assert(j < r);
        }
    }
    lemma_present_tail_none(g.data, k as int, MAX_K as int);
    lemma_present_tail_none(g.parity, r as int, MAX_R as int);
    lemma_input_counts(g, ps, k, r, sl, (k + r) as int);
    assert forall|i: int| 0 <= i < input.len() && input[i] is Some implies #[trigger] input[i]->0.len() == sl by {
        if i < k {
            assert(g.data[i] == Some(ps[i]));
        }
    }
    assert forall|i: int| 0 <= i < k && input[i] is Some implies #[trigger] input[i] == Some(d[i]) by {
        assert(g.data[i] == Some(ps[i]));
    }
    assert forall|i: int| k <= i < k + r && input[i] is Some implies #[trigger] input[i] == Some(
        rs_parity_shards(k, r, d)[i - k],
    ) by {
        assert(g.parity[i - k] is Some);
    }
    assert(d[0].len() == sl);
}

/// With reconstruction rebuilding every missing data shard as the padded
/// packet, the recovered list is the list of missing packets.
proof fn lemma_recovered_are_missing(g: RsGroupState, ps: Seq<Seq<u8>>, rec: Seq<Seq<u8>>, sl: nat, n: int)
    requires
        0 <= n <= ps.len(),
        ps.len() <= g.data.len(),
        forall|i: int| 0 <= i < ps.len() ==> (#[trigger] ps[i]).len() + 2 <= sl && ps[i].len() <= 0xffff,
        forall|i: int| 0 <= i < ps.len() && g.data[i] is None ==> #[trigger] rec[i] == padded(ps[i], sl),
    ensures
        recovered_list(g, rec, n) == missing_packets(g, ps, n),
    decreases n,
{
    if n > 0 {
        lemma_recovered_are_missing(g, ps, rec, sl, n - 1);
        if g.data[n - 1] is None {
            lemma_unpad_padded(ps[n - 1], sl);
        }
    }
}

/// The group a data packet lands in and its state afterwards, unless the
/// packet is dropped (index out of range, or group already finished).
pub open spec fn rs_data_target(gs: Seq<RsGroupState>, cap: nat, group: u32, index: u8, ip: Seq<u8>) -> Option<
    RsGroupState,
> {
    if index >= MAX_K {
        None
    } else {
        let gs1 = rs_ensured(gs, cap, group);
        let g = gs1[rs_find_group(gs1, group)];
        if g.done {
            None
        } else {
            Some(RsGroupState { data: g.data.update(index as int, Some(ip)), ..g })
        }
    }
}

/// The group a parity shard lands in and its state afterwards, unless the
/// shard is refused.
pub open spec fn rs_parity_target(
    gs: Seq<RsGroupState>,
    cap: nat,
    group: u32,
    k: u8,
    r: u8,
    index: u8,
    shard: Seq<u8>,
) -> Option<RsGroupState> {
    if bad_geometry(k, r, index, shard.len()) {
        None
    } else {
        let gs1 = rs_ensured(gs, cap, group);
        let g = gs1[rs_find_group(gs1, group)];
        if g.done || shorter_than_held(g, shard.len()) || disagrees(g, k, r, shard.len()) {
            None
        } else {
            Some(
                RsGroupState {
                    geometry: Some((k, r, shard.len())),
                    parity: g.parity.update(index as int, Some(shard)),
                    ..g
                },
            )
        }
    }
}

/// The bytes of each vector.
pub open spec fn byte_vecs(v: Seq<Vec<u8>>) -> Seq<Seq<u8>> {
    v.map_values(|x: Vec<u8>| x@)
}

/// Whether `out` is what the decoder owes the sender of packets `ps` once
/// a shard has landed in group `target`: when that group holds enough shards
/// of the encoding of `ps`, exactly the packets it misses.
pub open spec fn owes_missing(target: Option<RsGroupState>, ps: Seq<Seq<u8>>, out: Seq<Seq<u8>>) -> bool {
    match target {
        Some(g) => rs_group_encodes(g, ps) && rs_enough(g) ==> out == missing_packets(g, ps, ps.len() as int),
        None => true,
    }
}

/// Whether group state `g` holds only what was sent for a group of packets
/// `ps` with parity `out`: the geometry the parity headers carry, some of the
/// data packets at their own index, and some of the parity shards at their
/// own index.
pub open spec fn holds_sent_shards(g: RsGroupState, ps: Seq<Seq<u8>>, out: Seq<RsParity>) -> bool {
    &&& g.geometry == Some((ps.len() as u8, out.len() as u8, max_len(ps) + 2))
    &&& g.data.len() == MAX_K
    &&& g.parity.len() == MAX_R
    &&& forall|i: int| 0 <= i < MAX_K && g.data[i] is Some ==> i < ps.len() && #[trigger] g.data[i] == Some(ps[i])
    &&& forall|j: int| 0 <= j < MAX_R && g.parity[j] is Some ==> j < out.len() && #[trigger] g.parity[j] == Some(out[j].shard@)
}

/// Each packet of `ps` below `n` is either held in `g` or listed once in
/// `missing_packets(g, ps, n)`.
proof fn lemma_missing_count(g: RsGroupState, ps: Seq<Seq<u8>>, n: int)
    requires
        0 <= n <= ps.len(),
        n <= g.data.len(),
    ensures
        missing_packets(g, ps, n).len() + present_upto(g.data, n) == n,
    decreases n,
{
    if n > 0 {
        lemma_missing_count(g, ps, n - 1);
    }
}

/// Reed-Solomon recovery: any `r` losses in a group are recoverable. When
/// a group of packets `ps` was closed by `RsEncoder` with the parity `out`
/// (`r` shards), and a decoder group holds some of those packets and some of
/// those parity shards, at least `k` shards in all but not every packet,
/// then what the decoder owes when a shard lands there (the
/// `owes_missing` clause of `RsDecoder::on_data` and `on_parity`) is exactly
/// the lost packets, each once, byte for byte, in index order.
pub proof fn law_rs_recovers_lost_packets(
    ps: Seq<Seq<u8>>,
    group: u32,
    r: nat,
    out: Seq<RsParity>,
    g: RsGroupState,
    res: Seq<Seq<u8>>,
)
    requires
        1 <= ps.len() <= MAX_K,
        1 <= r <= MAX_R,
        max_len(ps) + 2 <= MAX_SHARD_LEN,
        is_group_parity(out, group, ps, r),
        holds_sent_shards(g, ps, out),
        rs_enough(g),
        owes_missing(Some(g), ps, res),
    ensures
        res == missing_packets(g, ps, ps.len() as int),
        res.len() + present_upto(g.data, MAX_K as int) == ps.len(),
        forall|i: int| 0 <= i < ps.len() && g.data[i] is None ==> res.contains(ps[i]),
{
    let k = ps.len();
    let sl = max_len(ps) + 2;
    lemma_max_len_bounds(ps);
    assert(data_shards(ps) =~= padded_all(ps, sl));
    assert(rs_group_encodes(g, ps)) by {
        assert forall|j: int|
            0 <= j < MAX_R && g.parity[j] is Some implies j < r && #[trigger] g.parity[j] == Some(
                rs_parity_shards(k as nat, r as nat, padded_all(ps, sl))[j],
            ) && g.parity[j]->0.len() == sl by {
            assert(out[j].shard@ == rs_parity_shards(k, r, data_shards(ps))[j]);
        }
    }
    assert forall|i: int| k <= i < MAX_K implies !(#[trigger] g.data[i] is Some) by {
        if g.data[i] is Some {
            assert(i < k);
        }
    }
    lemma_present_tail_none(g.data, k as int, MAX_K as int);
    lemma_missing_count(g, ps, k as int);
    assert forall|i: int| 0 <= i < k && g.data[i] is None implies res.contains(ps[i]) by {
        lemma_missing_lists(g, ps, k as int, i);
    }
}

/// A packet whose slot is empty is among the missing packets.
proof fn lemma_missing_lists(g: RsGroupState, ps: Seq<Seq<u8>>, n: int, i: int)
    requires
        0 <= i < n <= ps.len(),
        g.data[i] is None,
    ensures
        missing_packets(g, ps, n).contains(ps[i]),
    decreases n,
{
    if i < n - 1 {
        lemma_missing_lists(g, ps, n - 1, i);
        let m = missing_packets(g, ps, n - 1);
        let j = choose|j: int| 0 <= j < m.len() && m[j] == ps[i];
        if g.data[n - 1] is None {
            assert(missing_packets(g, ps, n)[j] == ps[i]);
        }
    } else {
        let m = missing_packets(g, ps, n);
        assert(m[m.len() - 1] == ps[i]);
    }
}

/// Position of group `id` in `gs`, or `gs.len()` when absent.
pub open spec fn rs_find_group(gs: Seq<RsGroupState>, id: u32) -> int
    decreases gs.len(),
{
    if gs.len() == 0 {
        0
    } else if gs.last().id == id && rs_find_group(gs.drop_last(), id) == gs.len() - 1 {
        gs.len() - 1
    } else if rs_find_group(gs.drop_last(), id) < gs.len() - 1 {
        rs_find_group(gs.drop_last(), id)
    } else {
        gs.len() as int
    }
}

/// `gs` with group `id` added if new, evicting the oldest group once more
/// than `cap` are held.
pub open spec fn rs_ensured(gs: Seq<RsGroupState>, cap: nat, id: u32) -> Seq<RsGroupState> {
    if rs_find_group(gs, id) < gs.len() {
        gs
    } else {
        let g2 = gs.push(empty_rs_group(id));
        if g2.len() > cap {
            g2.drop_first()
        } else {
            g2
        }
    }
}

pub open spec fn rs_step(gs: Seq<RsGroupState>, i: int, g: RsGroupState) -> (
    Seq<RsGroupState>,
    Seq<Seq<u8>>,
) {
    let (out, d) = rs_recover_outcome(g);
    (gs.update(i, if d {
        finished_rs(g)
    } else {
        g
    }), out)
}

/// The decoder after data packet `index` of `group` arrives, and what it recovers.
pub open spec fn rs_on_data_outcome(
    gs: Seq<RsGroupState>,
    cap: nat,
    group: u32,
    index: u8,
    ip: Seq<u8>,
) -> (Seq<RsGroupState>, Seq<Seq<u8>>) {
    if index >= MAX_K {
        (gs, Seq::empty())
    } else {
        let gs1 = rs_ensured(gs, cap, group);
        let i = rs_find_group(gs1, group);
        let g = gs1[i];
        if g.done {
            (gs1, Seq::empty())
        } else {
            rs_step(gs1, i, RsGroupState { data: g.data.update(index as int, Some(ip)), ..g })
        }
    }
}

/// Whether peer-supplied parity geometry is malformed or hostile.
pub open spec fn bad_geometry(k: u8, r: u8, index: u8, len: nat) -> bool {
    k == 0 || k > MAX_K || r == 0 || r > MAX_R || index >= r || len < 2 || len > MAX_SHARD_LEN
}

/// Whether a shard of length `len` is too short for a data packet already held.
pub open spec fn shorter_than_held(g: RsGroupState, len: nat) -> bool {
    exists|i: int| 0 <= i < MAX_K && (#[trigger] g.data[i] matches Some(p) && p.len() + 2 > len)
}

/// Whether `(k, r, len)` disagrees with the geometry the group already has.
pub open spec fn disagrees(g: RsGroupState, k: u8, r: u8, len: nat) -> bool {
    g.geometry matches Some((pk, pr, pl)) && (pk != k || pr != r || pl != len)
}

/// The decoder after parity shard `index` of `group` arrives, and what it recovers.
pub open spec fn rs_on_parity_outcome(
    gs: Seq<RsGroupState>,
    cap: nat,
    group: u32,
    k: u8,
    r: u8,
    index: u8,
    shard: Seq<u8>,
) -> (Seq<RsGroupState>, Seq<Seq<u8>>) {
    if bad_geometry(k, r, index, shard.len()) {
        (gs, Seq::empty())
    } else {
        let gs1 = rs_ensured(gs, cap, group);
        let i = rs_find_group(gs1, group);
        let g = gs1[i];
        if g.done || shorter_than_held(g, shard.len()) || disagrees(g, k, r, shard.len()) {
            (gs1, Seq::empty())
        } else {
            rs_step(
                gs1,
                i,
                RsGroupState {
                    geometry: Some((k, r, shard.len())),
                    parity: g.parity.update(index as int, Some(shard)),
                    ..g
                },
            )
        }
    }
}

struct RsGroup {
    id: u32,
    geometry: Option<(u8, u8, usize)>,
    data: Vec<Option<Vec<u8>>>,
    data_count: usize,
    parity: Vec<Option<Vec<u8>>>,
    parity_count: usize,
    done: bool,
}

fn none_vec(n: usize) -> (v: Vec<Option<Vec<u8>>>)
    ensures
        opt_views(v@) == none_slots(n as nat),
        v.len() == n,
{
    let mut v: Vec<Option<Vec<u8>>> = Vec::new();
    let mut i: usize = 0;
    while i < n
        invariant
            0 <= i <= n,
            v.len() == i,
            opt_views(v@) == none_slots(i as nat),
        decreases n - i,
    {
        let ghost prev = v@;
        v.push(None);
        i = i + 1;
        assert forall|t: int| 0 <= t < i implies #[trigger] opt_views(v@)[t] == none_slots(
            i as nat,
        )[t] by {
            if t < i - 1 {
                assert(v@[t] == prev[t]);
                assert(opt_views(prev)[t] == none_slots((i - 1) as nat)[t]);
            }
        }
        assert(opt_views(v@) =~= none_slots(i as nat));
    }
    v
}

pub(crate) proof fn lemma_present_none(n: nat, m: int)
    requires
        0 <= m <= n,
    ensures
        present_upto(none_slots(n), m) == 0,
    decreases m,
{
    if m > 0 {
        lemma_present_none(n, m - 1);
    }
}

pub(crate) proof fn lemma_present_le(s: Seq<Option<Seq<u8>>>, n: int)
    requires
        0 <= n,
    ensures
        present_upto(s, n) <= n,
    decreases n,
{
    if n > 0 {
        lemma_present_le(s, n - 1);
    }
}

pub(crate) proof fn lemma_present_update(s: Seq<Option<Seq<u8>>>, x: int, v: Option<Seq<u8>>, n: int)
    requires
        0 <= x < s.len(),
        0 <= n <= s.len(),
    ensures
        present_upto(s.update(x, v), n) + (if x < n && s[x] is Some {
            1int
        } else {
            0int
        }) == present_upto(s, n) + (if x < n && v is Some {
            1int
        } else {
            0int
        }),
    decreases n,
{
    if n > 0 {
        lemma_present_update(s, x, v, n - 1);
    }
}

impl RsGroup {
    spec fn state(self) -> RsGroupState {
        RsGroupState {
            id: self.id,
            geometry: match self.geometry {
                Some((k, r, l)) => Some((k, r, l as nat)),
                None => None,
            },
            data: opt_views(self.data@),
            parity: opt_views(self.parity@),
            done: self.done,
        }
    }

    spec fn wf(self) -> bool {
        &&& self.data.len() == MAX_K
        &&& self.parity.len() == MAX_R
        &&& self.data_count == present_upto(self.state().data, MAX_K as int)
        &&& self.parity_count == present_upto(self.state().parity, MAX_R as int)
        &&& (self.geometry matches Some((k, r, l)) ==> 1 <= k <= MAX_K && 1 <= r <= MAX_R && 2 <= l
            <= MAX_SHARD_LEN)
    }

    fn new(id: u32) -> (g: Self)
        ensures
            g.wf(),
            g.state() == empty_rs_group(id),
    {
        let g = RsGroup {
            id,
            geometry: None,
            data: none_vec(MAX_K),
            data_count: 0,
            parity: none_vec(MAX_R),
            parity_count: 0,
            done: false,
        };
        proof {
            lemma_present_none(MAX_K as nat, MAX_K as int);
            lemma_present_none(MAX_R as nat, MAX_R as int);
        }
        g
    }

    fn mark_done(&mut self)
        requires
            old(self).wf(),
        ensures
            final(self).wf(),
            final(self).state() == finished_rs(old(self).state()),
    {
        self.data = none_vec(MAX_K);
        self.data_count = 0;
        self.parity = none_vec(MAX_R);
        self.parity_count = 0;
        self.done = true;
        proof {
            lemma_present_none(MAX_K as nat, MAX_K as int);
            lemma_present_none(MAX_R as nat, MAX_R as int);
        }
    }

    fn set_data(&mut self, index: u8, ip: &[u8])
        requires
            old(self).wf(),
            index < MAX_K,
        ensures
            final(self).wf(),
            final(self).state() == (RsGroupState {
                data: old(self).state().data.update(index as int, Some(ip@)),
                ..old(self).state()
            }),
    {
        let ghost s0 = self.state().data;
        let was_some = self.data[index as usize].is_some();
        self.data.set(index as usize, Some(crate::bytes::copy_bytes(ip)));
        assert(self.state().data =~= s0.update(index as int, Some(ip@)));
        proof {
            lemma_present_update(s0, index as int, Some(ip@), MAX_K as int);
            lemma_present_le(s0, MAX_K as int);
        }
        if !was_some {
            self.data_count = self.data_count + 1;
        }
    }

    fn set_parity(&mut self, k: u8, r: u8, index: u8, shard: &[u8])
        requires
            old(self).wf(),
            !bad_geometry(k, r, index, shard@.len()),
        ensures
            final(self).wf(),
            final(self).state() == (RsGroupState {
                geometry: Some((k, r, shard@.len())),
                parity: old(self).state().parity.update(index as int, Some(shard@)),
                ..old(self).state()
            }),
    {
        let ghost s0 = self.state().parity;
        let was_some = self.parity[index as usize].is_some();
        self.parity.set(index as usize, Some(crate::bytes::copy_bytes(shard)));
        self.geometry = Some((k, r, shard.len()));
        assert(self.state().parity =~= s0.update(index as int, Some(shard@)));
        proof {
            lemma_present_update(s0, index as int, Some(shard@), MAX_R as int);
            lemma_present_le(s0, MAX_R as int);
        }
        if !was_some {
            self.parity_count = self.parity_count + 1;
        }
    }

    /// Whether a held data packet is too long for a shard of `len` bytes.
    fn holds_longer_than(&self, len: usize) -> (b: bool)
        requires
            self.wf(),
            len >= 2,
        ensures
            b == shorter_than_held(self.state(), len as nat),
    {
        let mut i: usize = 0;
        while i < MAX_K
            invariant
                0 <= i <= MAX_K,
                self.wf(),
                len >= 2,
                forall|t: int|
                    0 <= t < i ==> !(#[trigger] self.state().data[t] matches Some(p) && p.len() + 2 > len),
            decreases MAX_K - i,
        {
            match &self.data[i] {
                Some(p) => {
                    if p.len() > len - 2 {
                        assert(self.state().data[i as int] matches Some(p) && p.len() + 2 > len);
                        return true;
                    }
                },
                None => {},
            }
            i = i + 1;
        }
        false
    }

    /// `(recovered, finished)` for this group, as in [`rs_recover_outcome`].
    /// When the group holds enough shards of the encoding of packets `ps`,
    /// the recovered packets are exactly the missing ones.
    #[verifier::rlimit(30)]
    fn try_recover(&self) -> (res: (Vec<Vec<u8>>, bool))
        requires
            self.wf(),
        ensures
            res.0@.map_values(|v: Vec<u8>| v@) == rs_recover_outcome(self.state()).0,
            res.1 == rs_recover_outcome(self.state()).1,
            forall|ps: Seq<Seq<u8>>|
                #[trigger] rs_group_encodes(self.state(), ps) && rs_enough(self.state()) ==> res.1
                    && res.0@.map_values(|v: Vec<u8>| v@) == missing_packets(self.state(), ps, ps.len() as int),
    {
        let empty: Vec<Vec<u8>> = Vec::new();
        assert(empty@.map_values(|v: Vec<u8>| v@) =~= Seq::<Seq<u8>>::empty());
        if self.done {
            return (empty, false);
        }
        let (k8, r8, sl) = match self.geometry {
            None => {
                return (empty, false);
            },
            Some(geo) => geo,
        };
        let k = k8 as usize;
        let r = r8 as usize;
        if self.data_count >= k {
            return (empty, true);
        }
        proof {
            lemma_present_le(self.state().data, MAX_K as int);
            lemma_present_le(self.state().parity, MAX_R as int);
        }
        if self.data_count + self.parity_count < k {
            return (empty, false);
        }
        let codec = match rs_new(k, r) {
            Some(c) => c,
            None => {
                return (empty, false);
            },
        };
        let ghost g = self.state();
        let ghost input = shard_input(g, k as nat, r as nat, sl as nat);
        let mut shards: Vec<Option<Vec<u8>>> = Vec::new();
        let mut i: usize = 0;
        while i < k + r
            invariant
                0 <= i <= k + r,
                1 <= k <= MAX_K,
                1 <= r <= MAX_R,
                2 <= sl <= MAX_SHARD_LEN,
                self.wf(),
                g == self.state(),
                input == shard_input(g, k as nat, r as nat, sl as nat),
                shards.len() == i,
                opt_views(shards@) == input.take(i as int),
            decreases k + r - i,
        {
            if i < k {
                match &self.data[i] {
                    Some(p) => {
                        if p.len() <= sl - 2 {
                            shards.push(Some(pad_shard(p.as_slice(), sl)));
                        } else {
                            shards.push(None);
                        }
                    },
                    None => {
                        shards.push(None);
                    },
                }
            } else {
                match &self.parity[i - k] {
                    Some(q) => {
                        if q.len() == sl {
                            shards.push(Some(crate::bytes::copy_bytes(q.as_slice())));
                        } else {
                            shards.push(None);
                        }
                    },
                    None => {
                        shards.push(None);
                    },
                }
            }
            assert(opt_views(shards@) =~= input.take(i + 1));
            i = i + 1;
        }
        assert(input.take((k + r) as int) =~= input);
        let ok = rs_reconstruct_data(&codec, &mut shards);
        if !ok {
            proof {
                assert forall|ps: Seq<Seq<u8>>| #[trigger] rs_group_encodes(g, ps) && rs_enough(g) implies false by {
                    lemma_rs_encoded_group(g, ps, k as nat, r as nat, sl as nat);
                }
            }
            return (empty, false);
        }
        let ghost rec = rs_reconstructed(k as nat, r as nat, input);
        let ghost after = opt_views(shards@);
        proof {
            assert(exists|j: int| 0 <= j < input.len() && #[trigger] input[j] is Some) by {
                if forall|j: int| 0 <= j < input.len() ==> !(#[trigger] input[j] is Some) {
                    lemma_present_zero(input, input.len() as int);
                }
            }
            let j = choose|j: int| 0 <= j < input.len() && #[trigger] input[j] is Some;
            assert(input[j]->0.len() == sl);
            assert forall|t: int| 0 <= t < k && input[t] is None implies #[trigger] rec[t].len()
                == sl by {
                assert(rec[t].len() == input[j]->0.len());
            }
        }
        let mut out: Vec<Vec<u8>> = Vec::new();
        let mut i: usize = 0;
        while i < k
            invariant
                0 <= i <= k,
                1 <= k <= MAX_K,
                1 <= r <= MAX_R,
                2 <= sl <= MAX_SHARD_LEN,
                self.wf(),
                g == self.state(),
                input == shard_input(g, k as nat, r as nat, sl as nat),
                after == opt_views(shards@),
                after.len() == k + r,
                rec == rs_reconstructed(k as nat, r as nat, input),
                forall|t: int| 0 <= t < k && input[t] is None ==> #[trigger] after[t] == Some(rec[t]),
                forall|t: int| 0 <= t < k && input[t] is None ==> #[trigger] rec[t].len() == sl,
                out@.map_values(|v: Vec<u8>| v@) == recovered_list(g, rec, i as int),
            decreases k - i,
        {
            let ghost prev = out@;
            assert(g.data[i as int] == crate::fec::xor::opt_bytes(self.data@[i as int]));
            if self.data[i].is_none() {
                assert(input[i as int] is None);
                assert(after[i as int] == Some(rec[i as int]));
                match &shards[i] {
                    Some(s) => {
                        assert(s@ == rec[i as int]);
                        match unpad(s.as_slice()) {
                            Some(p) => {
                                out.push(p);
                                assert(out@.map_values(|v: Vec<u8>| v@) =~= prev.map_values(
                                    |v: Vec<u8>| v@,
                                ).push(unpadded(rec[i as int])));
                            },
                            None => {},
                        }
                    },
                    None => {},
                }
            }
            assert(out@.map_values(|v: Vec<u8>| v@) =~= recovered_list(g, rec, i + 1));
            i = i + 1;
        }
        proof {
            assert forall|ps: Seq<Seq<u8>>| #[trigger] rs_group_encodes(g, ps) && rs_enough(g) implies out@.map_values(
                |v: Vec<u8>| v@,
            ) == missing_packets(g, ps, ps.len() as int) by {
                lemma_rs_encoded_group(g, ps, k as nat, r as nat, sl as nat);
                let d = padded_all(ps, sl as nat);
                assert(rs_consistent(k as nat, r as nat, d, input));
                assert forall|t: int| 0 <= t < ps.len() && g.data[t] is None implies #[trigger] rec[t] == padded(ps[t], sl as nat) by {
                    assert(input[t] is None);
                    assert(after[t] == Some(d[t]));
                    assert(after[t] == Some(rec[t]));
                }
                lemma_recovered_are_missing(g, ps, rec, sl as nat, k as int);
            }
        }
        (out, true)
    }
}

pub(crate) proof fn lemma_present_zero(s: Seq<Option<Seq<u8>>>, n: int)
    requires
        0 <= n <= s.len(),
        forall|j: int| 0 <= j < s.len() ==> !(#[trigger] s[j] is Some),
    ensures
        present_upto(s, n) == 0,
    decreases n,
{
    if n > 0 {
        lemma_present_zero(s, n - 1);
    }
}

/// Decoder: buffers each group until `k` of its shards have arrived, then
/// reconstructs every missing data packet at once. Received packets are
/// forwarded by the caller immediately; this returns only *recovered* ones.
///
/// Over all the calls that deliver one group, in any order, the laws
/// `fec::delivery::law_rs_group_recovered` (the lost packets come back once,
/// at the last call) and `fec::delivery::law_rs_too_many_losses_yield_nothing`
/// hold.
pub struct RsDecoder {
    groups: Vec<RsGroup>,
    cap: usize,
}

impl RsDecoder {
    /// The buffered groups, oldest first.
    pub closed spec fn groups_state(self) -> Seq<RsGroupState> {
        self.groups@.map_values(|g: RsGroup| g.state())
    }

    pub closed spec fn capacity(self) -> nat {
        self.cap as nat
    }

    pub closed spec fn wf(self) -> bool {
        &&& self.cap >= 1
        &&& self.groups.len() <= self.cap
        &&& forall|i: int| 0 <= i < self.groups.len() ==> #[trigger] self.groups[i].wf()
        &&& forall|i: int, j: int|
            0 <= i < j < self.groups.len() ==> #[trigger] self.groups[i].id != #[trigger] self.groups[j].id
    }

    pub fn new(cap: usize) -> (d: Self)
        ensures
            d.wf(),
            d.capacity() == (if cap < 1 { 1 } else { cap }),
            d.groups_state() == Seq::<RsGroupState>::empty(),
    {
        let d = RsDecoder { groups: Vec::new(), cap: if cap < 1 { 1 } else { cap } };
        assert(d.groups_state() =~= Seq::<RsGroupState>::empty());
        d
    }

    /// How many groups are currently buffered.
    pub fn group_count(&self) -> (n: usize)
        ensures
            n == self.groups_state().len(),
    {
        self.groups.len()
    }

    /// Feed a received data packet. Returns any packets this completes.
    pub fn on_data(&mut self, group: u32, index: u8, ip: &[u8]) -> (res: Vec<Vec<u8>>)
        requires
            old(self).wf(),
        ensures
            final(self).wf(),
            final(self).capacity() == old(self).capacity(),
            final(self).groups_state().len() <= final(self).capacity(),
            (final(self).groups_state(), res@.map_values(|v: Vec<u8>| v@)) == rs_on_data_outcome(
                old(self).groups_state(),
                old(self).capacity(),
                group,
                index,
                ip@,
            ),
            forall|ps: Seq<Seq<u8>>|
                #[trigger] owes_missing(
                    rs_data_target(old(self).groups_state(), old(self).capacity(), group, index, ip@),
                    ps,
                    byte_vecs(res@),
                ),
    {
        let empty: Vec<Vec<u8>> = Vec::new();
        assert(empty@.map_values(|v: Vec<u8>| v@) =~= Seq::<Seq<u8>>::empty());
        if index as usize >= MAX_K {
            return empty;
        }
        let i = self.ensure(group);
        let ghost gs1 = self.groups_state();
        let mut g = self.groups.remove(i);
        if g.done {
            self.groups.insert(i, g);
            assert(self.groups_state() =~= gs1);
            return empty;
        }
        g.set_data(index, ip);
        let (out, d) = g.try_recover();
        proof {
            let t = rs_data_target(old(self).groups_state(), old(self).capacity(), group, index, ip@);
            assert(t == Some(g.state()));
            assert forall|ps: Seq<Seq<u8>>| #[trigger] owes_missing(t, ps, byte_vecs(out@)) by {
                if rs_group_encodes(g.state(), ps) && rs_enough(g.state()) {
                }
            }
        }
        if d {
            g.mark_done();
        }
        self.groups.insert(i, g);
        assert(self.groups_state() =~= gs1.update(i as int, self.groups[i as int].state()));
        out
    }

    /// Feed a received parity shard. `k`, `r`, `index` come from the peer and
    /// are validated here. Returns any packets this completes.
    pub fn on_parity(&mut self, group: u32, k: u8, r: u8, index: u8, shard: &[u8]) -> (res: Vec<
        Vec<u8>,
    >)
        requires
            old(self).wf(),
        ensures
            final(self).wf(),
            final(self).capacity() == old(self).capacity(),
            final(self).groups_state().len() <= final(self).capacity(),
            (final(self).groups_state(), res@.map_values(|v: Vec<u8>| v@)) == rs_on_parity_outcome(
                old(self).groups_state(),
                old(self).capacity(),
                group,
                k,
                r,
                index,
                shard@,
            ),
            forall|ps: Seq<Seq<u8>>|
                #[trigger] owes_missing(
                    rs_parity_target(old(self).groups_state(), old(self).capacity(), group, k, r, index, shard@),
                    ps,
                    byte_vecs(res@),
                ),
    {
        let empty: Vec<Vec<u8>> = Vec::new();
        assert(empty@.map_values(|v: Vec<u8>| v@) =~= Seq::<Seq<u8>>::empty());
        let (ku, ru, iu) = (k as usize, r as usize, index as usize);
        if ku == 0 || ku > MAX_K || ru == 0 || ru > MAX_R || iu >= ru || shard.len() < 2
            || shard.len() > MAX_SHARD_LEN {
            return empty;
        }
        let i = self.ensure(group);
        let ghost gs1 = self.groups_state();
        let mut g = self.groups.remove(i);
        let reject = g.done || g.holds_longer_than(shard.len()) || match g.geometry {
            Some((pk, pr, pl)) => pk != k || pr != r || pl != shard.len(),
            None => false,
        };
        if reject {
            self.groups.insert(i, g);
            assert(self.groups_state() =~= gs1);
            return empty;
        }
        g.set_parity(k, r, index, shard);
        let (out, d) = g.try_recover();
        proof {
            let t = rs_parity_target(old(self).groups_state(), old(self).capacity(), group, k, r, index, shard@);
            assert(t == Some(g.state()));
            assert forall|ps: Seq<Seq<u8>>| #[trigger] owes_missing(t, ps, byte_vecs(out@)) by {
                if rs_group_encodes(g.state(), ps) && rs_enough(g.state()) {
                }
            }
        }
        if d {
            g.mark_done();
        }
        self.groups.insert(i, g);
        assert(self.groups_state() =~= gs1.update(i as int, self.groups[i as int].state()));
        out
    }

    fn find(&self, group: u32) -> (i: usize)
        requires
            self.wf(),
        ensures
            i == rs_find_group(self.groups_state(), group),
            i <= self.groups.len(),
            i < self.groups.len() ==> self.groups[i as int].id == group,
            i == self.groups.len() ==> forall|t: int|
                0 <= t < self.groups.len() ==> #[trigger] self.groups[t].id != group,
    {
        let mut i: usize = 0;
        while i < self.groups.len()
            invariant
                0 <= i <= self.groups.len(),
                self.wf(),
                forall|t: int| 0 <= t < i ==> #[trigger] self.groups[t].id != group,
            decreases self.groups.len() - i,
        {
            if self.groups[i].id == group {
                proof {
                    lemma_rs_find_unique(self.groups_state(), group, i as int);
                }
                return i;
            }
            i = i + 1;
        }
        proof {
            lemma_rs_find_none(self.groups_state(), group);
        }
        i
    }

    fn ensure(&mut self, group: u32) -> (i: usize)
        requires
            old(self).wf(),
        ensures
            final(self).wf(),
            final(self).cap == old(self).cap,
            final(self).groups_state() == rs_ensured(
                old(self).groups_state(),
                old(self).capacity(),
                group,
            ),
            i == rs_find_group(final(self).groups_state(), group),
            i < final(self).groups.len(),
            final(self).groups[i as int].id == group,
    {
        let found = self.find(group);
        if found < self.groups.len() {
            return found;
        }
        let ghost gs0 = self.groups_state();
        self.groups.push(RsGroup::new(group));
        assert(self.groups_state() =~= gs0.push(empty_rs_group(group)));
        if self.groups.len() > self.cap {
            let _old = self.groups.remove(0);
            assert(self.groups_state() =~= gs0.push(empty_rs_group(group)).drop_first());
        }
        self.find(group)
    }
}

pub(crate) proof fn lemma_rs_find_unique(gs: Seq<RsGroupState>, id: u32, i: int)
    requires
        0 <= i < gs.len(),
        gs[i].id == id,
        forall|a: int, b: int| 0 <= a < b < gs.len() ==> #[trigger] gs[a].id != #[trigger] gs[b].id,
    ensures
        rs_find_group(gs, id) == i,
    decreases gs.len(),
{
    let pre = gs.drop_last();
    if i == gs.len() - 1 {
        assert forall|t: int| 0 <= t < pre.len() implies #[trigger] pre[t].id != id by {
            assert(gs[t].id != gs[i].id);
        }
        lemma_rs_find_none(pre, id);
    } else {
        lemma_rs_find_unique(pre, id, i);
    }
}

proof fn lemma_rs_find_none(gs: Seq<RsGroupState>, id: u32)
    requires
        forall|t: int| 0 <= t < gs.len() ==> #[trigger] gs[t].id != id,
    ensures
        rs_find_group(gs, id) == gs.len(),
    decreases gs.len(),
{
    if gs.len() > 0 {
        let pre = gs.drop_last();
        assert forall|t: int| 0 <= t < pre.len() implies #[trigger] pre[t].id != id by {
            assert(pre[t] == gs[t]);
        }
        lemma_rs_find_none(pre, id);
    }
}

/// The group number the `n`-th packet (from 0) of a fresh encoder with `k`
/// packets per group is tagged with: `n / k`, wrapping at 2^32.
pub open spec fn group_of(n: int, k: int) -> u32 {
    ((n / k) % 0x1_0000_0000) as u32
}

proof fn lemma_succ_div_mod(i: int, k: int)
    requires
        0 <= i,
        0 < k,
    ensures
        i % k == k - 1 ==> (i + 1) % k == 0 && (i + 1) / k == i / k + 1,
        i % k < k - 1 ==> (i + 1) % k == i % k + 1 && (i + 1) / k == i / k,
        0 <= i % k < k,
{
    vstd::arithmetic::div_mod::lemma_fundamental_div_mod(i, k);
    assert(0 <= i % k < k) by {
        vstd::arithmetic::div_mod::lemma_mod_bound(i, k);
    }
    let q = i / k;
    let r = i % k;
    assert(i == k * q + r);
    assert(k * q == q * k) by (nonlinear_arith);
    if r == k - 1 {
        assert(i + 1 == (q + 1) * k + 0) by (nonlinear_arith)
            requires
                i == q * k + r,
                r == k - 1,
        ;
        vstd::arithmetic::div_mod::lemma_fundamental_div_mod_converse(i + 1, k, q + 1, 0);
    } else {
        assert(i + 1 == q * k + (r + 1));
        vstd::arithmetic::div_mod::lemma_fundamental_div_mod_converse(i + 1, k, q, r + 1);
    }
}

proof fn lemma_group_of_succ(i: int, k: int)
    requires
        0 <= i,
        0 < k,
    ensures
        (i + 1) / k == i / k ==> group_of(i + 1, k) == group_of(i, k),
        (i + 1) / k == i / k + 1 ==> group_of(i + 1, k) == crate::fec::xor::next_group(group_of(i, k)),
{
    let q = i / k;
    if (i + 1) / k == q + 1 {
        assert(q >= 0) by {
            vstd::arithmetic::div_mod::lemma_div_pos_is_pos(i, k);
        }
        vstd::arithmetic::div_mod::lemma_fundamental_div_mod(q, 0x1_0000_0000);
        vstd::arithmetic::div_mod::lemma_mod_bound(q, 0x1_0000_0000);
        let m = q % 0x1_0000_0000;
        if m == 0xffff_ffff {
            vstd::arithmetic::div_mod::lemma_fundamental_div_mod_converse(q + 1, 0x1_0000_0000, q / 0x1_0000_0000 + 1, 0);
        } else {
            vstd::arithmetic::div_mod::lemma_fundamental_div_mod_converse(q + 1, 0x1_0000_0000, q / 0x1_0000_0000, m + 1);
        }
    }
}

/// How a fresh encoder numbers packets: with no flush, the `n`-th push
/// (from 0) is tagged with group `n / k` (wrapping at 2^32) and index
/// `n % k`, and it yields parity, `r` shards for that group, exactly when
/// it is the last of its group (`n % k == k - 1`).
pub proof fn law_encoder_numbering(
    es: Seq<RsEncoder>,
    ps: Seq<Seq<u8>>,
    res: Seq<(u32, u8, Seq<RsParity>)>,
)
    requires
        es.len() == ps.len() + 1,
        res.len() == ps.len(),
        es[0].wf(),
        es[0].current_group() == 0,
        es[0].pending() == Seq::<Seq<u8>>::empty(),
        forall|i: int|
            0 <= i < ps.len() ==> crate::datapath::fec_pushed(
                #[trigger] es[i],
                es[i + 1],
                ps[i],
                res[i].0,
                res[i].1,
                res[i].2,
            ),
    ensures
        forall|i: int|
            0 <= i < ps.len() ==> {
                let k = es[0].data_per_group() as int;
                &&& (#[trigger] res[i]).0 == group_of(i, k)
                &&& res[i].1 == i % k
                &&& (i % k == k - 1 ==> is_group_parity(
                    res[i].2,
                    group_of(i, k),
                    es[i].pending().push(ps[i]),
                    es[0].parity_per_group(),
                ) && res[i].2.len() == es[0].parity_per_group())
                &&& (i % k != k - 1 ==> res[i].2.len() == 0)
            },
    decreases ps.len(),
{
    let k = es[0].data_per_group() as int;
    if ps.len() > 0 {
        let n = ps.len() - 1;
        let pe = es.drop_last();
        let pp = ps.drop_last();
        let pr = res.drop_last();
        assert forall|i: int| 0 <= i < pp.len() implies crate::datapath::fec_pushed(
            #[trigger] pe[i],
            pe[i + 1],
            pp[i],
            pr[i].0,
            pr[i].1,
            pr[i].2,
        ) by {
            assert(crate::datapath::fec_pushed(es[i], es[i + 1], ps[i], res[i].0, res[i].1, res[i].2));
        }
        law_encoder_numbering(pe, pp, pr);
        lemma_encoder_state(es, ps, res, n);
        assert forall|i: int| 0 <= i < ps.len() implies {
            &&& (#[trigger] res[i]).0 == group_of(i, k)
            &&& res[i].1 == i % k
            &&& (i % k == k - 1 ==> is_group_parity(
                res[i].2,
                group_of(i, k),
                es[i].pending().push(ps[i]),
                es[0].parity_per_group(),
            ) && res[i].2.len() == es[0].parity_per_group())
            &&& (i % k != k - 1 ==> res[i].2.len() == 0)
        } by {
            if i < n {
                assert(pr[i] == res[i]);
                assert(pe[i] == es[i]);
                assert(pp[i] == ps[i]);
            } else {
                lemma_succ_div_mod(i, k);
            }
        }
    }
}

/// Before the `n`-th push the encoder is at group `n / k` with `n % k`
/// packets pending, keeping its geometry.
proof fn lemma_encoder_state(
    es: Seq<RsEncoder>,
    ps: Seq<Seq<u8>>,
    res: Seq<(u32, u8, Seq<RsParity>)>,
    n: int,
)
    requires
        0 <= n <= ps.len(),
        es.len() == ps.len() + 1,
        res.len() == ps.len(),
        es[0].wf(),
        es[0].current_group() == 0,
        es[0].pending() == Seq::<Seq<u8>>::empty(),
        forall|i: int|
            0 <= i < ps.len() ==> crate::datapath::fec_pushed(
                #[trigger] es[i],
                es[i + 1],
                ps[i],
                res[i].0,
                res[i].1,
                res[i].2,
            ),
    ensures
        es[n].wf(),
        es[n].data_per_group() == es[0].data_per_group(),
        es[n].parity_per_group() == es[0].parity_per_group(),
        es[n].pending().len() == n % (es[0].data_per_group() as int),
        es[n].current_group() == group_of(n, es[0].data_per_group() as int),
    decreases n,
{
    let k = es[0].data_per_group() as int;
    assert(1 <= k) by {
        reveal_wf_geometry(es[0]);
    }
    if n == 0 {
        assert(0int % k == 0) by {
            vstd::arithmetic::div_mod::lemma_fundamental_div_mod_converse(0, k, 0, 0);
        }
        assert(0int / k == 0) by {
            vstd::arithmetic::div_mod::lemma_fundamental_div_mod_converse(0, k, 0, 0);
        }
    } else {
        lemma_encoder_state(es, ps, res, n - 1);
        assert(crate::datapath::fec_pushed(es[n - 1], es[n], ps[n - 1], res[n - 1].0, res[n - 1].1, res[n - 1].2));
        lemma_succ_div_mod(n - 1, k);
        lemma_group_of_succ(n - 1, k);
        assert(es[n - 1].pending().len() < k) by {
            reveal_wf_geometry(es[n - 1]);
        }
    }
}

/// What `wf` says of an encoder's geometry and pending packets.
proof fn reveal_wf_geometry(e: RsEncoder)
    requires
        e.wf(),
    ensures
        1 <= e.data_per_group() <= MAX_K,
        1 <= e.parity_per_group() <= MAX_R,
        e.pending().len() < e.data_per_group(),
{
}

} // verus!
