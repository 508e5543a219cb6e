//! What a decoder hands back over all the calls that deliver one group.
//!
//! The decoders' own contracts say what each single call does. The laws
//! here follow a whole group through a fresh decoder: its data packets that
//! were not lost and its parity packets arrive in any order, and the laws say
//! what all those calls together return.
use vstd::prelude::*;

use super::rs::{
    empty_rs_group, holds_sent_shards, is_group_parity, law_rs_recovers_lost_packets,
    lemma_present_le, lemma_present_tail_none, lemma_present_update, lemma_present_zero,
    missing_packets, owes_missing, present_upto, rs_data_target, rs_enough, rs_ensured,
    rs_find_group, rs_on_data_outcome, rs_on_parity_outcome, rs_parity_target,
    rs_recover_outcome, rs_step, shorter_than_held, RsGroupState, RsParity, MAX_K, MAX_R,
    MAX_SHARD_LEN,
};
use super::shard::{lemma_max_len_bounds, max_len};
use super::xor::{
    all_but, count_upto, empty_group, ensured, find_group, law_single_loss_is_recovered,
    lemma_count_all_none, lemma_count_update, member_count, on_data_outcome, on_parity_outcome,
    recover_outcome, step, xor_parity, Parity, XorGroupState,
};

verus! {

/// One call made on a decoder while a group is delivered: data packet `i`
/// of the group, or its parity packet `j`.
pub enum Arrival {
    Data(int),
    Parity(int),
}

/// How many of the first `n` packets of a group are lost.
pub open spec fn lost_count(lost: Seq<bool>, n: int) -> nat
    decreases n,
{
    if n <= 0 {
        0
    } else {
        lost_count(lost, n - 1) + (if lost[n - 1] {
            1nat
        } else {
            0nat
        })
    }
}

/// The lost packets among the first `n` of `ps`, in index order.
pub open spec fn select_lost(ps: Seq<Seq<u8>>, lost: Seq<bool>, n: int) -> Seq<Seq<u8>>
    decreases n,
{
    if n <= 0 {
        Seq::empty()
    } else if lost[n - 1] {
        select_lost(ps, lost, n - 1).push(ps[n - 1])
    } else {
        select_lost(ps, lost, n - 1)
    }
}

/// Whether `a` is a call that delivering a group of packets `ps` with
/// `parities` parity packets can make when the packets marked in `lost`
/// never arrive.
pub open spec fn arrival_ok(a: Arrival, ps: Seq<Seq<u8>>, lost: Seq<bool>, parities: nat) -> bool {
    match a {
        Arrival::Data(i) => 0 <= i < ps.len() && !lost[i],
        Arrival::Parity(j) => 0 <= j < parities,
    }
}

/// Whether `a` is among the first `t` calls of `evs`.
pub open spec fn arrived_before(evs: Seq<Arrival>, t: int, a: Arrival) -> bool {
    exists|u: int| 0 <= u < t && #[trigger] evs[u] == a
}

/// The group state a Reed-Solomon call lands in: `on_data(group, i, ps[i])`
/// or `on_parity` with the fields of parity packet `out[j]`.
pub open spec fn rs_arrival_target(
    gs: Seq<RsGroupState>,
    cap: nat,
    group: u32,
    ps: Seq<Seq<u8>>,
    out: Seq<RsParity>,
    a: Arrival,
) -> Option<RsGroupState> {
    match a {
        Arrival::Data(i) => rs_data_target(gs, cap, group, i as u8, ps[i]),
        Arrival::Parity(j) => rs_parity_target(
            gs,
            cap,
            out[j].group,
            out[j].k,
            out[j].r,
            out[j].index,
            out[j].shard@,
        ),
    }
}

/// The decoder state and result of that call.
pub open spec fn rs_arrival_outcome(
    gs: Seq<RsGroupState>,
    cap: nat,
    group: u32,
    ps: Seq<Seq<u8>>,
    out: Seq<RsParity>,
    a: Arrival,
) -> (Seq<RsGroupState>, Seq<Seq<u8>>) {
    match a {
        Arrival::Data(i) => rs_on_data_outcome(gs, cap, group, i as u8, ps[i]),
        Arrival::Parity(j) => rs_on_parity_outcome(
            gs,
            cap,
            out[j].group,
            out[j].k,
            out[j].r,
            out[j].index,
            out[j].shard@,
        ),
    }
}

/// Whether that call took a decoder of capacity `cap` from groups `gs` to
/// `gs2` and returned `res`, as the contracts of `RsDecoder::on_data` and
/// `RsDecoder::on_parity` state it.
pub open spec fn rs_delivered(
    gs: Seq<RsGroupState>,
    cap: nat,
    group: u32,
    ps: Seq<Seq<u8>>,
    out: Seq<RsParity>,
    a: Arrival,
    gs2: Seq<RsGroupState>,
    res: Seq<Seq<u8>>,
) -> bool {
    &&& (gs2, res) == rs_arrival_outcome(gs, cap, group, ps, out, a)
    &&& forall|qs: Seq<Seq<u8>>| #[trigger] owes_missing(rs_arrival_target(gs, cap, group, ps, out, a), qs, res)
}

/// Whether `out` is the parity, `r` shards, that an `RsEncoder` emits on
/// closing group `group` with packets `ps`.
pub open spec fn rs_sent(ps: Seq<Seq<u8>>, group: u32, r: nat, out: Seq<RsParity>) -> bool {
    &&& 1 <= ps.len() <= MAX_K
    &&& 1 <= r <= MAX_R
    &&& max_len(ps) + 2 <= MAX_SHARD_LEN
    &&& is_group_parity(out, group, ps, r)
}

spec fn rs_current(gs: Seq<RsGroupState>, group: u32) -> RsGroupState {
    if gs.len() == 0 {
        empty_rs_group(group)
    } else {
        gs[0]
    }
}

/// Group `g` is open and holds only shards that were sent and not lost.
spec fn rs_holds(g: RsGroupState, ps: Seq<Seq<u8>>, out: Seq<RsParity>, lost: Seq<bool>) -> bool {
    &&& !g.done
    &&& g.data.len() == MAX_K
    &&& g.parity.len() == MAX_R
    &&& (g.geometry is None || g.geometry == Some((ps.len() as u8, out.len() as u8, max_len(ps) + 2)))
    &&& forall|i: int|
        0 <= i < MAX_K && #[trigger] g.data[i] is Some ==> i < ps.len() && !lost[i] && g.data[i] == Some(
            ps[i],
        )
    &&& forall|j: int|
        0 <= j < MAX_R && #[trigger] g.parity[j] is Some ==> j < out.len() && g.parity[j] == Some(
            out[j].shard@,
        ) && g.geometry is Some
}

spec fn rs_inv(
    gs: Seq<RsGroupState>,
    group: u32,
    ps: Seq<Seq<u8>>,
    out: Seq<RsParity>,
    lost: Seq<bool>,
) -> bool {
    &&& gs.len() <= 1
    &&& gs.len() == 1 ==> gs[0].id == group
    &&& rs_holds(rs_current(gs, group), ps, out, lost)
}

spec fn rs_landed(g: RsGroupState, ps: Seq<Seq<u8>>, out: Seq<RsParity>, a: Arrival) -> RsGroupState {
    match a {
        Arrival::Data(i) => RsGroupState { data: g.data.update(i, Some(ps[i])), ..g },
        Arrival::Parity(j) => RsGroupState {
            geometry: Some((out[j].k, out[j].r, out[j].shard@.len())),
            parity: g.parity.update(j, Some(out[j].shard@)),
            ..g
        },
    }
}

/// One call on a decoder that holds at most this group: it lands in the
/// group, is never refused, and keeps the group holding only what was sent.
proof fn lemma_rs_step(
    gs: Seq<RsGroupState>,
    cap: nat,
    group: u32,
    ps: Seq<Seq<u8>>,
    r: nat,
    out: Seq<RsParity>,
    lost: Seq<bool>,
    a: Arrival,
)
    requires
        rs_sent(ps, group, r, out),
        lost.len() == ps.len(),
        cap >= 1,
        rs_inv(gs, group, ps, out, lost),
        arrival_ok(a, ps, lost, r),
    ensures
        rs_arrival_target(gs, cap, group, ps, out, a) == Some(
            rs_landed(rs_current(gs, group), ps, out, a),
        ),
        rs_arrival_outcome(gs, cap, group, ps, out, a) == rs_step(
            seq![rs_current(gs, group)],
            0,
            rs_landed(rs_current(gs, group), ps, out, a),
        ),
        rs_landed(rs_current(gs, group), ps, out, a).id == group,
        rs_holds(rs_landed(rs_current(gs, group), ps, out, a), ps, out, lost),
{
    let g = rs_current(gs, group);
    let gs1 = seq![g];
    assert(rs_find_group(gs1.drop_last(), group) == 0);
    assert(rs_find_group(gs1, group) == 0);
    assert(rs_ensured(gs, cap, group) == gs1) by {
        if gs.len() == 0 {
            assert(gs.push(empty_rs_group(group)) =~= gs1);
        } else {
            assert(gs =~= gs1);
        }
    }
    lemma_max_len_bounds(ps);
    let g2 = rs_landed(g, ps, out, a);
    match a {
        Arrival::Data(i) => {
            assert forall|t: int| 0 <= t < MAX_K && #[trigger] g2.data[t] is Some implies t < ps.len()
                && !lost[t] && g2.data[t] == Some(ps[t]) by {
                if t != i {
                    assert(g.data[t] is Some);
                }
            }
        },
        Arrival::Parity(j) => {
            let p = out[j];
            assert(p.shard@.len() == max_len(ps) + 2);
            assert(!shorter_than_held(g, p.shard@.len())) by {
                if shorter_than_held(g, p.shard@.len()) {
                    let t = choose|t: int|
                        0 <= t < MAX_K && (#[trigger] g.data[t] matches Some(q) && q.len() + 2 > p.shard@.len());
                    assert(g.data[t] == Some(ps[t]));
                }
            }
            assert forall|t: int| 0 <= t < MAX_R && #[trigger] g2.parity[t] is Some implies t < out.len()
                && g2.parity[t] == Some(out[t].shard@) && g2.geometry is Some by {
                if t != j {
                    assert(g.parity[t] is Some);
                }
            }
        },
    }
}

proof fn lemma_data_bound(s: Seq<Option<Seq<u8>>>, lost: Seq<bool>, n: int)
    requires
        0 <= n <= lost.len() <= s.len(),
        forall|i: int| 0 <= i < s.len() && #[trigger] s[i] is Some ==> i < lost.len() && !lost[i],
    ensures
        present_upto(s, n) + lost_count(lost, n) <= n,
    decreases n,
{
    if n > 0 {
        lemma_data_bound(s, lost, n - 1);
        if s[n - 1] is Some {
        }
    }
}

proof fn lemma_data_exact(s: Seq<Option<Seq<u8>>>, lost: Seq<bool>, n: int)
    requires
        0 <= n <= lost.len() <= s.len(),
        forall|i: int| 0 <= i < lost.len() ==> (#[trigger] s[i] is Some <==> !lost[i]),
    ensures
        present_upto(s, n) + lost_count(lost, n) == n,
    decreases n,
{
    if n > 0 {
        lemma_data_exact(s, lost, n - 1);
        if s[n - 1] is Some {
        }
    }
}

/// What `rs_holds` bounds: the data packets held plus those lost are at
/// most `k`, and at most `r` parity shards are held.
proof fn lemma_rs_counts(g: RsGroupState, ps: Seq<Seq<u8>>, out: Seq<RsParity>, lost: Seq<bool>)
    requires
        rs_holds(g, ps, out, lost),
        1 <= ps.len() <= MAX_K,
        out.len() <= MAX_R,
        lost.len() == ps.len(),
    ensures
        present_upto(g.data, MAX_K as int) + lost_count(lost, ps.len() as int) <= ps.len(),
        present_upto(g.parity, MAX_R as int) <= out.len(),
        present_upto(g.data, MAX_K as int) == present_upto(g.data, ps.len() as int),
{
    assert forall|j: int| ps.len() <= j < MAX_K implies !(#[trigger] g.data[j] is Some) by {
        if g.data[j] is Some {
        }
    }
    lemma_present_tail_none(g.data, ps.len() as int, MAX_K as int);
    lemma_data_bound(g.data, lost, ps.len() as int);
    assert forall|j: int| out.len() <= j < MAX_R implies !(#[trigger] g.parity[j] is Some) by {
        if g.parity[j] is Some {
        }
    }
    lemma_present_tail_none(g.parity, out.len() as int, MAX_R as int);
    lemma_present_le(g.parity, out.len() as int);
}

proof fn lemma_select_len(ps: Seq<Seq<u8>>, lost: Seq<bool>, n: int)
    ensures
        select_lost(ps, lost, n).len() == lost_count(lost, n),
    decreases n,
{
    if n > 0 {
        lemma_select_len(ps, lost, n - 1);
    }
}

proof fn lemma_missing_is_lost(g: RsGroupState, ps: Seq<Seq<u8>>, lost: Seq<bool>, n: int)
    requires
        0 <= n <= lost.len(),
        forall|i: int| 0 <= i < lost.len() ==> (#[trigger] g.data[i] is None <==> lost[i]),
    ensures
        missing_packets(g, ps, n) == select_lost(ps, lost, n),
    decreases n,
{
    if n > 0 {
        lemma_missing_is_lost(g, ps, lost, n - 1);
        if g.data[n - 1] is None {
        }
    }
}

/// The calls before `t` of a run in which more packets are lost than
/// there are parity shards: the group stays open and nothing came back.
proof fn lemma_rs_lossy_prefix(
    ps: Seq<Seq<u8>>,
    group: u32,
    r: nat,
    out: Seq<RsParity>,
    lost: Seq<bool>,
    cap: nat,
    evs: Seq<Arrival>,
    gss: Seq<Seq<RsGroupState>>,
    outs: Seq<Seq<Seq<u8>>>,
    t: int,
)
    requires
        rs_sent(ps, group, r, out),
        lost.len() == ps.len(),
        lost_count(lost, ps.len() as int) > r,
        cap >= 1,
        gss.len() == evs.len() + 1,
        outs.len() == evs.len(),
        gss[0] == Seq::<RsGroupState>::empty(),
        forall|u: int|
            0 <= u < evs.len() ==> arrival_ok(#[trigger] evs[u], ps, lost, r) && rs_delivered(
                gss[u],
                cap,
                group,
                ps,
                out,
                evs[u],
                gss[u + 1],
                outs[u],
            ),
        0 <= t <= evs.len(),
    ensures
        rs_inv(gss[t], group, ps, out, lost),
        forall|u: int| 0 <= u < t ==> #[trigger] outs[u] == Seq::<Seq<u8>>::empty(),
    decreases t,
{
    if t == 0 {
        assert(rs_current(gss[0], group) == empty_rs_group(group));
    } else {
        let u = t - 1;
        lemma_rs_lossy_prefix(ps, group, r, out, lost, cap, evs, gss, outs, u);
        assert(arrival_ok(evs[u], ps, lost, r));
        lemma_rs_step(gss[u], cap, group, ps, r, out, lost, evs[u]);
        let g2 = rs_landed(rs_current(gss[u], group), ps, out, evs[u]);
        lemma_rs_counts(g2, ps, out, lost);
        assert(rs_recover_outcome(g2) == (Seq::<Seq<u8>>::empty(), false));
        assert(gss[t] =~= seq![g2]);
    }
}

/// Reed-Solomon: more losses than parity shards yield nothing. Deliver to
/// a fresh decoder, in any order and any number of times, packets of a
/// group closed by `RsEncoder` with `r` parity shards (`rs_sent`) and its
/// parity shards, where more than `r` of the packets are lost: every one of
/// those calls returns no packet, and in particular no wrong one.
pub proof fn law_rs_too_many_losses_yield_nothing(
    ps: Seq<Seq<u8>>,
    group: u32,
    r: nat,
    out: Seq<RsParity>,
    lost: Seq<bool>,
    cap: nat,
    evs: Seq<Arrival>,
    gss: Seq<Seq<RsGroupState>>,
    outs: Seq<Seq<Seq<u8>>>,
)
    requires
        rs_sent(ps, group, r, out),
        lost.len() == ps.len(),
        lost_count(lost, ps.len() as int) > r,
        cap >= 1,
        gss.len() == evs.len() + 1,
        outs.len() == evs.len(),
        gss[0] == Seq::<RsGroupState>::empty(),
        forall|u: int|
            0 <= u < evs.len() ==> arrival_ok(#[trigger] evs[u], ps, lost, r) && rs_delivered(
                gss[u],
                cap,
                group,
                ps,
                out,
                evs[u],
                gss[u + 1],
                outs[u],
            ),
    ensures
        forall|u: int| 0 <= u < evs.len() ==> #[trigger] outs[u] == Seq::<Seq<u8>>::empty(),
{
    lemma_rs_lossy_prefix(ps, group, r, out, lost, cap, evs, gss, outs, evs.len() as int);
}

/// Whether the calls in `evs` are pairwise distinct.
pub open spec fn all_distinct(evs: Seq<Arrival>) -> bool {
    forall|a: int, b: int| 0 <= a < b < evs.len() ==> #[trigger] evs[a] != #[trigger] evs[b]
}

/// What the group holds after the first `t` of a run of distinct calls: a
/// slot is filled exactly when its call came, one slot per call.
spec fn rs_filled_by(g: RsGroupState, evs: Seq<Arrival>, t: int) -> bool {
    &&& forall|i: int| 0 <= i < MAX_K ==> (#[trigger] g.data[i] is Some <==> arrived_before(evs, t, Arrival::Data(i)))
    &&& forall|j: int|
        0 <= j < MAX_R ==> (#[trigger] g.parity[j] is Some <==> arrived_before(evs, t, Arrival::Parity(j)))
    &&& present_upto(g.data, MAX_K as int) + present_upto(g.parity, MAX_R as int) == t
}

/// Landing the distinct call `evs[t]` fills one more slot.
proof fn lemma_rs_fill(g: RsGroupState, ps: Seq<Seq<u8>>, out: Seq<RsParity>, evs: Seq<Arrival>, t: int)
    requires
        0 <= t < evs.len(),
        all_distinct(evs),
        g.data.len() == MAX_K,
        g.parity.len() == MAX_R,
        rs_filled_by(g, evs, t),
        match evs[t] {
            Arrival::Data(i) => 0 <= i < MAX_K,
            Arrival::Parity(j) => 0 <= j < MAX_R,
        },
    ensures
        rs_filled_by(rs_landed(g, ps, out, evs[t]), evs, t + 1),
{
    let g2 = rs_landed(g, ps, out, evs[t]);
    let a = evs[t];
    assert forall|b: Arrival| #[trigger] arrived_before(evs, t + 1, b) <==> (arrived_before(evs, t, b) || b == a) by {
        if arrived_before(evs, t + 1, b) {
            let u = choose|u: int| 0 <= u < t + 1 && #[trigger] evs[u] == b;
            if u < t {
                assert(arrived_before(evs, t, b));
            }
        }
        if b == a {
            assert(evs[t] == b);
        }
        if arrived_before(evs, t, b) {
            let u = choose|u: int| 0 <= u < t && #[trigger] evs[u] == b;
            assert(evs[u] == b);
        }
    }
    assert(!arrived_before(evs, t, a)) by {
        if arrived_before(evs, t, a) {
            let u = choose|u: int| 0 <= u < t && #[trigger] evs[u] == a;
            assert(evs[u] != evs[t]);
        }
    }
    match a {
        Arrival::Data(i) => {
            assert(g.data[i] is None);
            lemma_present_update(g.data, i, Some(ps[i]), MAX_K as int);
            assert forall|x: int| 0 <= x < MAX_K implies (#[trigger] g2.data[x] is Some <==> arrived_before(
                evs,
                t + 1,
                Arrival::Data(x),
            )) by {
                assert(arrived_before(evs, t + 1, Arrival::Data(x)) <==> (arrived_before(
                    evs,
                    t,
                    Arrival::Data(x),
                ) || Arrival::Data(x) == a));
            }
            assert forall|x: int| 0 <= x < MAX_R implies (#[trigger] g2.parity[x] is Some
                <==> arrived_before(evs, t + 1, Arrival::Parity(x))) by {
                assert(arrived_before(evs, t + 1, Arrival::Parity(x)) <==> (arrived_before(
                    evs,
                    t,
                    Arrival::Parity(x),
                ) || Arrival::Parity(x) == a));
            }
        },
        Arrival::Parity(j) => {
            assert(g.parity[j] is None);
            lemma_present_update(g.parity, j, Some(out[j].shard@), MAX_R as int);
            assert forall|x: int| 0 <= x < MAX_K implies (#[trigger] g2.data[x] is Some <==> arrived_before(
                evs,
                t + 1,
                Arrival::Data(x),
            )) by {
                assert(arrived_before(evs, t + 1, Arrival::Data(x)) <==> (arrived_before(
                    evs,
                    t,
                    Arrival::Data(x),
                ) || Arrival::Data(x) == a));
            }
            assert forall|x: int| 0 <= x < MAX_R implies (#[trigger] g2.parity[x] is Some
                <==> arrived_before(evs, t + 1, Arrival::Parity(x))) by {
                assert(arrived_before(evs, t + 1, Arrival::Parity(x)) <==> (arrived_before(
                    evs,
                    t,
                    Arrival::Parity(x),
                ) || Arrival::Parity(x) == a));
            }
        },
    }
}

/// The calls before `t` of a run of `k` distinct calls: the group is open,
/// holds one slot per call, and nothing came back yet.
proof fn lemma_rs_exact_prefix(
    ps: Seq<Seq<u8>>,
    group: u32,
    r: nat,
    out: Seq<RsParity>,
    lost: Seq<bool>,
    cap: nat,
    evs: Seq<Arrival>,
    gss: Seq<Seq<RsGroupState>>,
    outs: Seq<Seq<Seq<u8>>>,
    t: int,
)
    requires
        rs_sent(ps, group, r, out),
        lost.len() == ps.len(),
        cap >= 1,
        gss.len() == evs.len() + 1,
        outs.len() == evs.len(),
        gss[0] == Seq::<RsGroupState>::empty(),
        forall|u: int|
            0 <= u < evs.len() ==> arrival_ok(#[trigger] evs[u], ps, lost, r) && rs_delivered(
                gss[u],
                cap,
                group,
                ps,
                out,
                evs[u],
                gss[u + 1],
                outs[u],
            ),
        evs.len() == ps.len(),
        all_distinct(evs),
        0 <= t < evs.len(),
    ensures
        rs_inv(gss[t], group, ps, out, lost),
        rs_filled_by(rs_current(gss[t], group), evs, t),
        forall|u: int| 0 <= u < t ==> #[trigger] outs[u] == Seq::<Seq<u8>>::empty(),
    decreases t,
{
    if t == 0 {
        let g = empty_rs_group(group);
        assert(rs_current(gss[0], group) == g);
        lemma_present_zero(g.data, MAX_K as int);
        lemma_present_zero(g.parity, MAX_R as int);
    } else {
        let u = t - 1;
        lemma_rs_exact_prefix(ps, group, r, out, lost, cap, evs, gss, outs, u);
        assert(arrival_ok(evs[u], ps, lost, r));
        lemma_rs_step(gss[u], cap, group, ps, r, out, lost, evs[u]);
        let g = rs_current(gss[u], group);
        let g2 = rs_landed(g, ps, out, evs[u]);
        lemma_rs_fill(g, ps, out, evs, u);
        lemma_rs_counts(g2, ps, out, lost);
        assert(rs_recover_outcome(g2) == (Seq::<Seq<u8>>::empty(), false));
        assert(gss[t] =~= seq![g2]);
    }
}

/// Reed-Solomon: any `r` losses in a group are recovered, whatever the
/// order of arrival. Deliver to a fresh decoder, in any order, each packet
/// of a group closed by `RsEncoder` with `r` parity shards (`rs_sent`)
/// that was not lost, and as many distinct parity shards as packets were
/// lost: every call but the last returns nothing, and the last returns the
/// lost packets, each once, byte for byte, in index order.
pub proof fn law_rs_group_recovered(
    ps: Seq<Seq<u8>>,
    group: u32,
    r: nat,
    out: Seq<RsParity>,
    lost: Seq<bool>,
    cap: nat,
    evs: Seq<Arrival>,
    gss: Seq<Seq<RsGroupState>>,
    outs: Seq<Seq<Seq<u8>>>,
)
    requires
        rs_sent(ps, group, r, out),
        lost.len() == ps.len(),
        cap >= 1,
        gss.len() == evs.len() + 1,
        outs.len() == evs.len(),
        gss[0] == Seq::<RsGroupState>::empty(),
        forall|u: int|
            0 <= u < evs.len() ==> arrival_ok(#[trigger] evs[u], ps, lost, r) && rs_delivered(
                gss[u],
                cap,
                group,
                ps,
                out,
                evs[u],
                gss[u + 1],
                outs[u],
            ),
        evs.len() == ps.len(),
        all_distinct(evs),
        forall|i: int| 0 <= i < ps.len() && !lost[i] ==> arrived_before(evs, evs.len() as int, Arrival::Data(i)),
    ensures
        forall|u: int| 0 <= u < evs.len() - 1 ==> #[trigger] outs[u] == Seq::<Seq<u8>>::empty(),
        outs[evs.len() - 1] == select_lost(ps, lost, ps.len() as int),
{
    let n = evs.len() as int;
    let k = ps.len() as int;
    let u = n - 1;
    lemma_rs_exact_prefix(ps, group, r, out, lost, cap, evs, gss, outs, u);
    assert(arrival_ok(evs[u], ps, lost, r));
    lemma_rs_step(gss[u], cap, group, ps, r, out, lost, evs[u]);
    let g = rs_current(gss[u], group);
    let g2 = rs_landed(g, ps, out, evs[u]);
    lemma_rs_fill(g, ps, out, evs, u);
    lemma_rs_counts(g2, ps, out, lost);
    assert forall|i: int| 0 <= i < lost.len() implies (#[trigger] g2.data[i] is Some <==> !lost[i]) by {
        if arrived_before(evs, n, Arrival::Data(i)) {
            let v = choose|v: int| 0 <= v < n && #[trigger] evs[v] == Arrival::Data(i);
            assert(arrival_ok(evs[v], ps, lost, r));
        }
    }
    lemma_data_exact(g2.data, lost, k);
    lemma_select_len(ps, lost, k);
    assert forall|i: int| 0 <= i < lost.len() implies (#[trigger] g2.data[i] is None <==> lost[i]) by {
        assert(g2.data[i] is Some <==> !lost[i]);
    }
    lemma_missing_is_lost(g2, ps, lost, k);
    if lost_count(lost, k) == 0 {
        assert(select_lost(ps, lost, k) =~= Seq::<Seq<u8>>::empty());
        assert(rs_recover_outcome(g2).0 == Seq::<Seq<u8>>::empty());
    } else {
        assert(present_upto(g2.parity, MAX_R as int) > 0);
        assert(exists|j: int| 0 <= j < MAX_R && #[trigger] g2.parity[j] is Some) by {
            if forall|j: int| 0 <= j < g2.parity.len() ==> !(#[trigger] g2.parity[j] is Some) {
                lemma_present_zero(g2.parity, MAX_R as int);
            }
        }
        let j = choose|j: int| 0 <= j < MAX_R && #[trigger] g2.parity[j] is Some;
        assert(g2.geometry is Some);
        assert(rs_enough(g2));
        assert(holds_sent_shards(g2, ps, out));
        assert(rs_arrival_target(gss[u], cap, group, ps, out, evs[u]) == Some(g2));
        assert(owes_missing(rs_arrival_target(gss[u], cap, group, ps, out, evs[u]), ps, outs[u]));
        law_rs_recovers_lost_packets(ps, group, r, out, g2, outs[u]);
    }
}

/// Whether `p` is the parity an `XorEncoder` emits on closing group `group`
/// with packets `ps`.
pub open spec fn xor_sent(ps: Seq<Seq<u8>>, group: u32, p: Parity) -> bool {
    &&& 1 <= ps.len() <= 255
    &&& forall|i: int| 0 <= i < ps.len() ==> (#[trigger] ps[i]).len() <= 0xffff
    &&& p.group == group
    &&& p.k == ps.len()
    &&& p.payload@ == xor_parity(ps)
}

/// The decoder state and result of `XorDecoder::on_data(group, i, ps[i])`
/// or of `XorDecoder::on_parity(p.group, p.k, p.payload)`.
pub open spec fn xor_arrival_outcome(
    gs: Seq<XorGroupState>,
    cap: nat,
    group: u32,
    ps: Seq<Seq<u8>>,
    p: Parity,
    a: Arrival,
) -> (Seq<XorGroupState>, Option<Seq<u8>>) {
    match a {
        Arrival::Data(i) => on_data_outcome(gs, cap, group, i as u8, ps[i]),
        Arrival::Parity(_) => on_parity_outcome(gs, cap, p.group, p.k, p.payload@),
    }
}

spec fn xor_current(gs: Seq<XorGroupState>, group: u32) -> XorGroupState {
    if gs.len() == 0 {
        empty_group(group)
    } else {
        gs[0]
    }
}

/// Group `g` is open and holds only packets that were sent and not lost,
/// and the group's parity if any.
spec fn xor_holds(g: XorGroupState, ps: Seq<Seq<u8>>, lost: Seq<bool>) -> bool {
    &&& !g.done
    &&& g.slots.len() == 256
    &&& (g.parity is None || g.parity == Some((ps.len() as u8, xor_parity(ps))))
    &&& forall|i: int|
        0 <= i < 256 && #[trigger] g.slots[i] is Some ==> i < ps.len() && !lost[i] && g.slots[i] == Some(
            ps[i],
        )
}

spec fn xor_inv(gs: Seq<XorGroupState>, group: u32, ps: Seq<Seq<u8>>, lost: Seq<bool>) -> bool {
    &&& gs.len() <= 1
    &&& gs.len() == 1 ==> gs[0].id == group
    &&& xor_holds(xor_current(gs, group), ps, lost)
}

spec fn xor_landed(g: XorGroupState, ps: Seq<Seq<u8>>, a: Arrival) -> XorGroupState {
    match a {
        Arrival::Data(i) => XorGroupState { slots: g.slots.update(i, Some(ps[i])), ..g },
        Arrival::Parity(_) => XorGroupState { parity: Some((ps.len() as u8, xor_parity(ps))), ..g },
    }
}

proof fn lemma_xor_step(
    gs: Seq<XorGroupState>,
    cap: nat,
    group: u32,
    ps: Seq<Seq<u8>>,
    p: Parity,
    lost: Seq<bool>,
    a: Arrival,
)
    requires
        xor_sent(ps, group, p),
        lost.len() == ps.len(),
        cap >= 1,
        xor_inv(gs, group, ps, lost),
        arrival_ok(a, ps, lost, 1),
    ensures
        xor_arrival_outcome(gs, cap, group, ps, p, a) == step(
            seq![xor_current(gs, group)],
            0,
            xor_landed(xor_current(gs, group), ps, a),
        ),
        xor_landed(xor_current(gs, group), ps, a).id == group,
        xor_holds(xor_landed(xor_current(gs, group), ps, a), ps, lost),
{
    let g = xor_current(gs, group);
    let gs1 = seq![g];
    assert(find_group(gs1.drop_last(), group) == 0);
    assert(find_group(gs1, group) == 0);
    assert(ensured(gs, cap, group) == gs1) by {
        if gs.len() == 0 {
            assert(gs.push(empty_group(group)) =~= gs1);
        } else {
            assert(gs =~= gs1);
        }
    }
    let g2 = xor_landed(g, ps, a);
    match a {
        Arrival::Data(i) => {
            assert forall|t: int| 0 <= t < 256 && #[trigger] g2.slots[t] is Some implies t < ps.len()
                && !lost[t] && g2.slots[t] == Some(ps[t]) by {
                if t != i {
                    assert(g.slots[t] is Some);
                }
            }
        },
        Arrival::Parity(_) => {},
    }
}

proof fn lemma_count_tail(s: Seq<Option<Seq<u8>>>, m: int, n: int)
    requires
        0 <= m <= n <= s.len(),
        forall|j: int| m <= j < n ==> !(#[trigger] s[j] is Some),
    ensures
        count_upto(s, n) == count_upto(s, m),
    decreases n,
{
    if n > m {
        lemma_count_tail(s, m, n - 1);
    }
}

proof fn lemma_slots_bound(s: Seq<Option<Seq<u8>>>, lost: Seq<bool>, n: int)
    requires
        0 <= n <= lost.len() <= s.len(),
        forall|i: int| 0 <= i < s.len() && #[trigger] s[i] is Some ==> i < lost.len() && !lost[i],
    ensures
        count_upto(s, n) + lost_count(lost, n) <= n,
    decreases n,
{
    if n > 0 {
        lemma_slots_bound(s, lost, n - 1);
        if s[n - 1] is Some {
        }
    }
}

/// The members a group holds are those of `ps` held below `ps.len()`,
/// and with the lost ones at most `ps.len()`.
proof fn lemma_xor_counts(g: XorGroupState, ps: Seq<Seq<u8>>, lost: Seq<bool>)
    requires
        xor_holds(g, ps, lost),
        1 <= ps.len() <= 255,
        lost.len() == ps.len(),
    ensures
        member_count(g.slots) == count_upto(g.slots, ps.len() as int),
        member_count(g.slots) + lost_count(lost, ps.len() as int) <= ps.len(),
{
    assert forall|j: int| ps.len() <= j < 256 implies !(#[trigger] g.slots[j] is Some) by {
        if g.slots[j] is Some {
        }
    }
    lemma_count_tail(g.slots, ps.len() as int, 256);
    lemma_slots_bound(g.slots, lost, ps.len() as int);
}

proof fn lemma_xor_lossy_prefix(
    ps: Seq<Seq<u8>>,
    group: u32,
    p: Parity,
    lost: Seq<bool>,
    cap: nat,
    evs: Seq<Arrival>,
    gss: Seq<Seq<XorGroupState>>,
    outs: Seq<Option<Seq<u8>>>,
    t: int,
)
    requires
        xor_sent(ps, group, p),
        lost.len() == ps.len(),
        lost_count(lost, ps.len() as int) >= 2,
        cap >= 1,
        gss.len() == evs.len() + 1,
        outs.len() == evs.len(),
        gss[0] == Seq::<XorGroupState>::empty(),
        forall|u: int|
            0 <= u < evs.len() ==> arrival_ok(#[trigger] evs[u], ps, lost, 1) && (gss[u + 1], outs[u])
                == xor_arrival_outcome(gss[u], cap, group, ps, p, evs[u]),
        0 <= t <= evs.len(),
    ensures
        xor_inv(gss[t], group, ps, lost),
        forall|u: int| 0 <= u < t ==> #[trigger] outs[u] is None,
    decreases t,
{
    if t == 0 {
        assert(xor_current(gss[0], group) == empty_group(group));
    } else {
        let u = t - 1;
        lemma_xor_lossy_prefix(ps, group, p, lost, cap, evs, gss, outs, u);
        assert(arrival_ok(evs[u], ps, lost, 1));
        lemma_xor_step(gss[u], cap, group, ps, p, lost, evs[u]);
        let g2 = xor_landed(xor_current(gss[u], group), ps, evs[u]);
        lemma_xor_counts(g2, ps, lost);
        assert(recover_outcome(g2) == (None::<Seq<u8>>, false));
        assert(gss[t] =~= seq![g2]);
    }
}

/// XOR: two or more losses in a group yield nothing, whatever the calls.
/// Deliver to a fresh decoder, in any order and any number of times, the
/// packets of a group closed by `XorEncoder` (`xor_sent`) that were not
/// lost and its parity, where at least two packets are lost: every one of
/// those calls returns `None`.
pub proof fn law_xor_many_losses_yield_nothing(
    ps: Seq<Seq<u8>>,
    group: u32,
    p: Parity,
    lost: Seq<bool>,
    cap: nat,
    evs: Seq<Arrival>,
    gss: Seq<Seq<XorGroupState>>,
    outs: Seq<Option<Seq<u8>>>,
)
    requires
        xor_sent(ps, group, p),
        lost.len() == ps.len(),
        lost_count(lost, ps.len() as int) >= 2,
        cap >= 1,
        gss.len() == evs.len() + 1,
        outs.len() == evs.len(),
        gss[0] == Seq::<XorGroupState>::empty(),
        forall|u: int|
            0 <= u < evs.len() ==> arrival_ok(#[trigger] evs[u], ps, lost, 1) && (gss[u + 1], outs[u])
                == xor_arrival_outcome(gss[u], cap, group, ps, p, evs[u]),
    ensures
        forall|u: int| 0 <= u < evs.len() ==> #[trigger] outs[u] is None,
{
    lemma_xor_lossy_prefix(ps, group, p, lost, cap, evs, gss, outs, evs.len() as int);
}

/// What the group holds after the first `t` of a run of distinct calls.
spec fn xor_filled_by(g: XorGroupState, evs: Seq<Arrival>, t: int) -> bool {
    &&& forall|i: int| 0 <= i < 256 ==> (#[trigger] g.slots[i] is Some <==> arrived_before(evs, t, Arrival::Data(i)))
    &&& (g.parity is Some <==> arrived_before(evs, t, Arrival::Parity(0)))
    &&& count_upto(g.slots, 256) + (if g.parity is Some { 1int } else { 0int }) == t
}

proof fn lemma_xor_fill(g: XorGroupState, ps: Seq<Seq<u8>>, evs: Seq<Arrival>, t: int)
    requires
        0 <= t < evs.len(),
        all_distinct(evs),
        g.slots.len() == 256,
        xor_filled_by(g, evs, t),
        match evs[t] {
            Arrival::Data(i) => 0 <= i < 256,
            Arrival::Parity(j) => j == 0,
        },
    ensures
        xor_filled_by(xor_landed(g, ps, evs[t]), evs, t + 1),
{
    let g2 = xor_landed(g, ps, evs[t]);
    let a = evs[t];
    assert forall|b: Arrival| #[trigger] arrived_before(evs, t + 1, b) <==> (arrived_before(evs, t, b) || b == a) by {
        if arrived_before(evs, t + 1, b) {
            let u = choose|u: int| 0 <= u < t + 1 && #[trigger] evs[u] == b;
            if u < t {
                assert(arrived_before(evs, t, b));
            }
        }
        if b == a {
            assert(evs[t] == b);
        }
        if arrived_before(evs, t, b) {
            let u = choose|u: int| 0 <= u < t && #[trigger] evs[u] == b;
            assert(evs[u] == b);
        }
    }
    assert(!arrived_before(evs, t, a)) by {
        if arrived_before(evs, t, a) {
            let u = choose|u: int| 0 <= u < t && #[trigger] evs[u] == a;
            assert(evs[u] != evs[t]);
        }
    }
    assert forall|x: int| 0 <= x < 256 implies (#[trigger] g2.slots[x] is Some <==> arrived_before(
        evs,
        t + 1,
        Arrival::Data(x),
    )) by {
        assert(arrived_before(evs, t + 1, Arrival::Data(x)) <==> (arrived_before(evs, t, Arrival::Data(x))
            || Arrival::Data(x) == a));
    }
    assert(arrived_before(evs, t + 1, Arrival::Parity(0)) <==> (arrived_before(evs, t, Arrival::Parity(0))
        || Arrival::Parity(0) == a));
    match a {
        Arrival::Data(i) => {
            assert(g.slots[i] is None);
            lemma_count_update(g.slots, i, Some(ps[i]), 256);
        },
        Arrival::Parity(_) => {
            assert(g.parity is None);
        },
    }
}

proof fn lemma_xor_exact_prefix(
    ps: Seq<Seq<u8>>,
    group: u32,
    p: Parity,
    lost: Seq<bool>,
    cap: nat,
    evs: Seq<Arrival>,
    gss: Seq<Seq<XorGroupState>>,
    outs: Seq<Option<Seq<u8>>>,
    t: int,
)
    requires
        xor_sent(ps, group, p),
        lost.len() == ps.len(),
        cap >= 1,
        gss.len() == evs.len() + 1,
        outs.len() == evs.len(),
        gss[0] == Seq::<XorGroupState>::empty(),
        forall|u: int|
            0 <= u < evs.len() ==> arrival_ok(#[trigger] evs[u], ps, lost, 1) && (gss[u + 1], outs[u])
                == xor_arrival_outcome(gss[u], cap, group, ps, p, evs[u]),
        all_distinct(evs),
        evs.len() == ps.len() + 1 - lost_count(lost, ps.len() as int),
        lost_count(lost, ps.len() as int) == 0 ==> evs[evs.len() - 1] == Arrival::Parity(0),
        0 <= t < evs.len(),
    ensures
        xor_inv(gss[t], group, ps, lost),
        xor_filled_by(xor_current(gss[t], group), evs, t),
        forall|u: int| 0 <= u < t ==> #[trigger] outs[u] is None,
    decreases t,
{
    if t == 0 {
        let g = empty_group(group);
        assert(xor_current(gss[0], group) == g);
        lemma_count_all_none(g.slots, 256);
    } else {
        let u = t - 1;
        lemma_xor_exact_prefix(ps, group, p, lost, cap, evs, gss, outs, u);
        assert(arrival_ok(evs[u], ps, lost, 1));
        lemma_xor_step(gss[u], cap, group, ps, p, lost, evs[u]);
        let g = xor_current(gss[u], group);
        let g2 = xor_landed(g, ps, evs[u]);
        lemma_xor_fill(g, ps, evs, u);
        lemma_xor_counts(g2, ps, lost);
        if lost_count(lost, ps.len() as int) == 0 && g2.parity is Some {
            let v = choose|v: int| 0 <= v < t && #[trigger] evs[v] == Arrival::Parity(0);
            assert(evs[v] != evs[evs.len() - 1]);
        }
        assert(recover_outcome(g2) == (None::<Seq<u8>>, false));
        assert(gss[t] =~= seq![g2]);
    }
}

/// XOR recovery over interleaved calls. Deliver to a fresh decoder, in any
/// order, each packet of a group closed by `XorEncoder` (`xor_sent`) that
/// was not lost, and its parity, each once, with at most one packet lost
/// and, when none is lost, the parity last: every call but the last
/// returns `None`, and the last returns the lost packet, byte for byte and
/// at its own length, or `None` when none was lost.
pub proof fn law_xor_group_recovered(
    ps: Seq<Seq<u8>>,
    group: u32,
    p: Parity,
    lost: Seq<bool>,
    cap: nat,
    evs: Seq<Arrival>,
    gss: Seq<Seq<XorGroupState>>,
    outs: Seq<Option<Seq<u8>>>,
)
    requires
        xor_sent(ps, group, p),
        lost.len() == ps.len(),
        lost_count(lost, ps.len() as int) <= 1,
        cap >= 1,
        gss.len() == evs.len() + 1,
        outs.len() == evs.len(),
        gss[0] == Seq::<XorGroupState>::empty(),
        forall|u: int|
            0 <= u < evs.len() ==> arrival_ok(#[trigger] evs[u], ps, lost, 1) && (gss[u + 1], outs[u])
                == xor_arrival_outcome(gss[u], cap, group, ps, p, evs[u]),
        all_distinct(evs),
        evs.len() == ps.len() + 1 - lost_count(lost, ps.len() as int),
        lost_count(lost, ps.len() as int) == 0 ==> evs[evs.len() - 1] == Arrival::Parity(0),
        forall|i: int| 0 <= i < ps.len() && !lost[i] ==> arrived_before(evs, evs.len() as int, Arrival::Data(i)),
    ensures
        forall|u: int| 0 <= u < evs.len() - 1 ==> #[trigger] outs[u] is None,
        outs[evs.len() - 1] == (if lost_count(lost, ps.len() as int) == 1 {
            Some(select_lost(ps, lost, ps.len() as int)[0])
        } else {
            None
        }),
{
    let n = evs.len() as int;
    let k = ps.len() as int;
    let u = n - 1;
    lemma_xor_exact_prefix(ps, group, p, lost, cap, evs, gss, outs, u);
    assert(arrival_ok(evs[u], ps, lost, 1));
    lemma_xor_step(gss[u], cap, group, ps, p, lost, evs[u]);
    let g = xor_current(gss[u], group);
    let g2 = xor_landed(g, ps, evs[u]);
    lemma_xor_fill(g, ps, evs, u);
    lemma_xor_counts(g2, ps, lost);
    assert forall|i: int| 0 <= i < lost.len() implies (#[trigger] g2.slots[i] is Some <==> !lost[i]) by {
        if arrived_before(evs, n, Arrival::Data(i)) {
            let v = choose|v: int| 0 <= v < n && #[trigger] evs[v] == Arrival::Data(i);
            assert(arrival_ok(evs[v], ps, lost, 1));
        }
    }
    lemma_slots_exact(g2.slots, lost, k);
    lemma_select_len(ps, lost, k);
    assert(g2.parity is Some);
    if lost_count(lost, k) == 0 {
        assert(recover_outcome(g2) == (None::<Seq<u8>>, true));
    } else {
        let m = lemma_the_lost_one(ps, lost, k);
        assert(g2.slots =~= all_but(ps, m)) by {
            assert forall|i: int| 0 <= i < 256 implies #[trigger] g2.slots[i] == all_but(ps, m)[i] by {
                if i < k {
                    if g2.slots[i] is Some {
                        assert(g2.slots[i] == Some(ps[i]));
                    }
                } else {
                    if g2.slots[i] is Some {
                    }
                }
            }
        }
        law_single_loss_is_recovered(ps, m, g2.id);
        assert(g2 == XorGroupState {
            id: g2.id,
            slots: all_but(ps, m),
            parity: Some((ps.len() as u8, xor_parity(ps))),
            done: false,
        });
    }
}

proof fn lemma_slots_exact(s: Seq<Option<Seq<u8>>>, lost: Seq<bool>, n: int)
    requires
        0 <= n <= lost.len() <= s.len(),
        forall|i: int| 0 <= i < lost.len() ==> (#[trigger] s[i] is Some <==> !lost[i]),
    ensures
        count_upto(s, n) + lost_count(lost, n) == n,
    decreases n,
{
    if n > 0 {
        lemma_slots_exact(s, lost, n - 1);
        if s[n - 1] is Some {
        }
    }
}

/// With exactly one packet lost among the first `n`, it is the one
/// `select_lost` lists, and every other index is kept.
proof fn lemma_the_lost_one(ps: Seq<Seq<u8>>, lost: Seq<bool>, n: int) -> (m: int)
    requires
        0 <= n <= lost.len(),
        lost_count(lost, n) == 1,
    ensures
        0 <= m < n,
        lost[m],
        forall|i: int| 0 <= i < n && i != m ==> !(#[trigger] lost[i]),
        select_lost(ps, lost, n)[0] == ps[m],
    decreases n,
{
    if lost[n - 1] {
        assert(lost_count(lost, n - 1) == 0);
        lemma_none_lost(lost, n - 1);
        lemma_select_len(ps, lost, n - 1);
        n - 1
    } else {
        let m = lemma_the_lost_one(ps, lost, n - 1);
        m
    }
}

proof fn lemma_none_lost(lost: Seq<bool>, n: int)
    requires
        0 <= n <= lost.len(),
        lost_count(lost, n) == 0,
    ensures
        forall|i: int| 0 <= i < n ==> !(#[trigger] lost[i]),
    decreases n,
{
    if n > 0 {
        lemma_none_lost(lost, n - 1);
    }
}

} // verus!
