//! The per-packet decisions of a connected link: what an outbound packet
//! captured off the adapter becomes on the wire, and what a decrypted inbound
//! payload asks of the link (answer a keepalive, record a pong, hand packets to
//! the adapter). Sealing, sending and the adapter queue stay with the caller.
use vstd::prelude::*;

use crate::fec::rs::{is_group_parity, rs_on_data_outcome, rs_on_parity_outcome, RsDecoder, RsEncoder, RsParity};
use crate::fec::xor::next_group;
use crate::pipeline::{
    admits_downlink, admits_packet, ctrl_encode, decode_inner, dp_encode, fec_data_encode, inner_bytes,
    parse_inner, Inner, InnerV, FEC_GROUP_CAP, FEC_GROUP_SIZE, INNER_PING, INNER_PONG,
};
use crate::split_tunnel::SplitPolicy;

verus! {

/// Parity shards per FEC group: any single loss in a group is recoverable.
pub const FEC_PARITY_SHARDS: u8 = 1;

/// What happens to a packet captured off the adapter.
pub enum Uplink {
    /// Refused by the split-tunnel gate: nothing is sent.
    Blocked,
    /// Sent without FEC: the inner payload to seal.
    Plain { payload: Vec<u8> },
    /// Sent FEC-protected: the data payload to seal, then each parity shard
    /// that closing the group produced, in order.
    Fec { group: u32, index: u8, payload: Vec<u8>, parity: Vec<RsParity> },
}

/// One packet for the adapter, with whether the ingress gate admits it and
/// whether FEC reconstructed it.
pub struct Delivery {
    pub ip: Vec<u8>,
    pub admitted: bool,
    pub recovered: bool,
}

/// What a decrypted inbound payload asks of the link.
pub enum Downlink {
    /// Not a payload this link understands: dropped.
    Ignore,
    /// A keepalive ping: answer the sender with `reply`.
    Ping { seq: u64, reply: Vec<u8> },
    /// A keepalive pong, for the round-trip tracker.
    Pong { seq: u64 },
    /// Packets for the adapter, in order: the one received (if the payload
    /// carried one), then any that FEC recovered.
    Deliver { packets: Vec<Delivery> },
}

pub open spec fn delivery_view(d: Delivery) -> (Seq<u8>, bool, bool) {
    (d.ip@, d.admitted, d.recovered)
}

/// Whether the ingress gate of `policy` admits `frame` (none admits nothing).
pub open spec fn ingress_admits(policy: Option<SplitPolicy>, frame: Seq<u8>) -> bool {
    policy matches Some(p) && p.ingress_ok(frame)
}

/// Whether the egress gate of `policy` admits `frame` (none admits nothing).
pub open spec fn egress_admits(policy: Option<SplitPolicy>, frame: Seq<u8>) -> bool {
    policy matches Some(p) && p.egress_ok(frame)
}

/// Recovered packets as deliveries, each gated by `policy`.
pub open spec fn recovered_deliveries(policy: Option<SplitPolicy>, rec: Seq<Seq<u8>>) -> Seq<
    (Seq<u8>, bool, bool),
> {
    rec.map_values(|p: Seq<u8>| (p, ingress_admits(policy, p), true))
}

/// `new` is `old` after `push(ip)` returned `(group, index, parity)`.
pub open spec fn fec_pushed(
    old: RsEncoder,
    new: RsEncoder,
    ip: Seq<u8>,
    group: u32,
    index: u8,
    parity: Seq<RsParity>,
) -> bool {
    &&& new.wf()
    &&& new.data_per_group() == old.data_per_group()
    &&& new.parity_per_group() == old.parity_per_group()
    &&& group == old.current_group()
    &&& index == old.pending().len()
    &&& {
        let full = old.pending().push(ip);
        if full.len() >= old.data_per_group() {
            &&& is_group_parity(parity, old.current_group(), full, old.parity_per_group())
            &&& new.pending() == Seq::<Seq<u8>>::empty()
            &&& new.current_group() == next_group(old.current_group())
        } else {
            &&& parity.len() == 0
            &&& new.pending() == full
            &&& new.current_group() == old.current_group()
        }
    }
}

/// The FEC encoder and decoder of a link and its split-tunnel policy.
pub struct DataPath {
    fec_enc: Option<RsEncoder>,
    fec_dec: Option<RsDecoder>,
    policy: Option<SplitPolicy>,
}

impl DataPath {
    pub closed spec fn encoder(self) -> Option<RsEncoder> {
        self.fec_enc
    }

    pub closed spec fn decoder(self) -> Option<RsDecoder> {
        self.fec_dec
    }

    pub closed spec fn split_policy(self) -> Option<SplitPolicy> {
        self.policy
    }

    pub closed spec fn wf(self) -> bool {
        &&& (self.fec_enc matches Some(e) ==> e.wf())
        &&& (self.fec_dec matches Some(d) ==> d.wf())
    }

    /// A link with `policy` as its gate; with `fec`, packets travel in groups
    /// of `FEC_GROUP_SIZE` with `FEC_PARITY_SHARDS` parity each, and the
    /// decoder keeps `FEC_GROUP_CAP` recent groups.
    pub fn new(policy: Option<SplitPolicy>, fec: bool) -> (p: Self)
        ensures
            p.wf(),
            p.split_policy() == policy,
            fec ==> (p.encoder() matches Some(e) && e.data_per_group() == FEC_GROUP_SIZE
                && e.parity_per_group() == FEC_PARITY_SHARDS && e.current_group() == 0
                && e.pending() == Seq::<Seq<u8>>::empty()),
            fec ==> (p.decoder() matches Some(d) && d.capacity() == FEC_GROUP_CAP
                && d.groups_state().len() == 0),
            !fec ==> p.encoder() is None && p.decoder() is None,
    {
        if fec {
            DataPath {
                fec_enc: Some(RsEncoder::new(FEC_GROUP_SIZE, FEC_PARITY_SHARDS)),
                fec_dec: Some(RsDecoder::new(FEC_GROUP_CAP)),
                policy,
            }
        } else {
            DataPath { fec_enc: None, fec_dec: None, policy }
        }
    }

    /// An outbound packet: dropped unless the egress gate admits it (no
    /// policy admits nothing), else framed for FEC when it is on, else plain.
    pub fn uplink(&mut self, ip: &[u8]) -> (u: Uplink)
        requires
            old(self).wf(),
            ip@.len() <= 0xffff,
        ensures
            final(self).wf(),
            final(self).decoder() == old(self).decoder(),
            final(self).split_policy() == old(self).split_policy(),
            !egress_admits(old(self).split_policy(), ip@) ==> u is Blocked && final(self).encoder()
                == old(self).encoder(),
            egress_admits(old(self).split_policy(), ip@) && old(self).encoder() is None ==> (u matches Uplink::Plain { payload }
                && payload@ == inner_bytes(InnerV::Data(ip@)) && final(self).encoder() is None),
            egress_admits(old(self).split_policy(), ip@) && old(self).encoder() is Some ==> (u matches Uplink::Fec {
                group,
                index,
                payload,
                parity,
            } && payload@ == inner_bytes(InnerV::FecData { group, index, ip: ip@ })
                && (final(self).encoder() matches Some(e2) && fec_pushed(
                old(self).encoder().unwrap(),
                e2,
                ip@,
                group,
                index,
                parity@,
            ))),
    {
        if !admits_packet(self.policy.as_ref(), ip) {
            return Uplink::Blocked;
        }
        match self.fec_enc.take() {
            Some(mut enc) => {
                let (group, index, parity) = enc.push(ip);
                self.fec_enc = Some(enc);
                Uplink::Fec { group, index, payload: fec_data_encode(group, index, ip), parity }
            },
            None => Uplink::Plain { payload: dp_encode(ip) },
        }
    }

    /// Idle flush: closes a partial FEC group so its parity is not delayed.
    pub fn flush(&mut self) -> (parity: Vec<RsParity>)
        requires
            old(self).wf(),
        ensures
            final(self).wf(),
            final(self).decoder() == old(self).decoder(),
            final(self).split_policy() == old(self).split_policy(),
            old(self).encoder() is None ==> parity@.len() == 0 && final(self).encoder() is None,
            old(self).encoder() matches Some(e) ==> (final(self).encoder() matches Some(e2) && (if e.pending().len() == 0 {
                parity@.len() == 0 && e2 == e
            } else {
                &&& is_group_parity(parity@, e.current_group(), e.pending(), e.parity_per_group())
                &&& e2.wf()
                &&& e2.pending() == Seq::<Seq<u8>>::empty()
                &&& e2.current_group() == next_group(e.current_group())
                &&& e2.data_per_group() == e.data_per_group()
                &&& e2.parity_per_group() == e.parity_per_group()
            })),
    {
        match self.fec_enc.take() {
            Some(mut enc) => {
                let parity = enc.flush();
                self.fec_enc = Some(enc);
                parity
            },
            None => Vec::new(),
        }
    }

    /// Appends the recovered packets to `out` as gated deliveries.
    fn push_recovered(&self, out: &mut Vec<Delivery>, rec: Vec<Vec<u8>>)
        ensures
            final(out)@.map_values(|d: Delivery| delivery_view(d)) == old(out)@.map_values(
                |d: Delivery| delivery_view(d),
            ) + recovered_deliveries(self.policy, rec@.map_values(|v: Vec<u8>| v@)),
    {
        let ghost start = out@.map_values(|d: Delivery| delivery_view(d));
        let ghost recv = rec@.map_values(|v: Vec<u8>| v@);
        let mut i: usize = 0;
        while i < rec.len()
            invariant
                0 <= i <= rec@.len(),
                recv == rec@.map_values(|v: Vec<u8>| v@),
                out@.map_values(|d: Delivery| delivery_view(d)) == start + recovered_deliveries(
                    self.policy,
                    recv.take(i as int),
                ),
            decreases rec@.len() - i,
        {
            let v = crate::bytes::copy_bytes(&rec[i]);
            let admitted = admits_downlink(self.policy.as_ref(), &v);
            assert(v@ == recv[i as int]);
            assert(admitted == ingress_admits(self.policy, recv[i as int]));
            let ghost prev = out@;
            out.push(Delivery { ip: v, admitted, recovered: true });
            proof {
                assert(out@.map_values(|d: Delivery| delivery_view(d)) =~= prev.map_values(
                    |d: Delivery| delivery_view(d),
                ).push((recv[i as int], ingress_admits(self.policy, recv[i as int]), true)));
                assert(recv.take(i + 1) =~= recv.take(i as int).push(recv[i as int]));
                assert(recovered_deliveries(self.policy, recv.take(i + 1)) =~= recovered_deliveries(
                    self.policy,
                    recv.take(i as int),
                ).push((recv[i as int], ingress_admits(self.policy, recv[i as int]), true)));
                assert(out@.map_values(|d: Delivery| delivery_view(d)) =~= start
                    + recovered_deliveries(self.policy, recv.take(i + 1)));
            }
            i = i + 1;
        }
        assert(recv.take(rec@.len() as int) =~= recv);
    }

    /// A decrypted inbound payload: a ping is answered with a pong carrying
    /// the same sequence number, a pong goes to the round-trip tracker, a data
    /// packet goes to the adapter, a FEC data packet goes to the adapter and
    /// to the decoder, and a parity shard only to the decoder; every packet
    /// for the adapter is gated by the ingress policy.
    pub fn downlink(&mut self, pt: &[u8]) -> (d: Downlink)
        requires
            old(self).wf(),
        ensures
            final(self).wf(),
            final(self).encoder() == old(self).encoder(),
            final(self).split_policy() == old(self).split_policy(),
            match parse_inner(pt@) {
                None => d is Ignore && final(self).decoder() == old(self).decoder(),
                Some(InnerV::Ctrl(k, seq)) => final(self).decoder() == old(self).decoder() && (if k
                    == INNER_PING {
                    d matches Downlink::Ping { seq: s, reply } && s == seq && reply@ == inner_bytes(
                        InnerV::Ctrl(INNER_PONG, seq),
                    )
                } else {
                    d matches Downlink::Pong { seq: s } && s == seq
                }),
                Some(InnerV::Data(ip)) => final(self).decoder() == old(self).decoder() && (d matches Downlink::Deliver { packets }
                    && packets@.map_values(|x: Delivery| delivery_view(x)) == seq![
                    (ip, ingress_admits(old(self).split_policy(), ip), false),
                ]),
                Some(InnerV::FecData { group, index, ip }) => d matches Downlink::Deliver { packets }
                    && match old(self).decoder() {
                    None => final(self).decoder() is None && packets@.map_values(
                        |x: Delivery| delivery_view(x),
                    ) == seq![(ip, ingress_admits(old(self).split_policy(), ip), false)],
                    Some(dec) => {
                        let (gs, rec) = rs_on_data_outcome(
                            dec.groups_state(),
                            dec.capacity(),
                            group,
                            index,
                            ip,
                        );
                        &&& final(self).decoder() matches Some(d2) && d2.groups_state() == gs
                            && d2.capacity() == dec.capacity()
                        &&& packets@.map_values(|x: Delivery| delivery_view(x)) == seq![
                            (ip, ingress_admits(old(self).split_policy(), ip), false),
                        ] + recovered_deliveries(old(self).split_policy(), rec)
                    },
                },
                Some(InnerV::FecParity { group, k, r, index, q }) => d matches Downlink::Deliver { packets }
                    && match old(self).decoder() {
                    None => final(self).decoder() is None && packets@.len() == 0,
                    Some(dec) => {
                        let (gs, rec) = rs_on_parity_outcome(
                            dec.groups_state(),
                            dec.capacity(),
                            group,
                            k,
                            r,
                            index,
                            q,
                        );
                        &&& final(self).decoder() matches Some(d2) && d2.groups_state() == gs
                            && d2.capacity() == dec.capacity()
                        &&& packets@.map_values(|x: Delivery| delivery_view(x))
                            == recovered_deliveries(old(self).split_policy(), rec)
                    },
                },
            },
    {
        match decode_inner(pt) {
            None => Downlink::Ignore,
            Some(Inner::Ctrl(k, seq)) => {
                if k == INNER_PING {
                    let b = ctrl_encode(INNER_PONG, seq);
                    let reply = crate::bytes::copy_bytes(&b);
                    Downlink::Ping { seq, reply }
                } else {
                    Downlink::Pong { seq }
                }
            },
            Some(Inner::Data(ip)) => {
                let admitted = admits_downlink(self.policy.as_ref(), &ip);
                let mut packets: Vec<Delivery> = Vec::new();
                packets.push(Delivery { ip, admitted, recovered: false });
                assert(packets@.map_values(|x: Delivery| delivery_view(x)) =~= seq![
                    (packets@[0].ip@, admitted, false),
                ]);
                Downlink::Deliver { packets }
            },
            Some(Inner::FecData { group, index, ip }) => {
                let admitted = admits_downlink(self.policy.as_ref(), &ip);
                let rec: Vec<Vec<u8>> = match self.fec_dec.take() {
                    Some(mut dec) => {
                        let r = dec.on_data(group, index, &ip);
                        self.fec_dec = Some(dec);
                        r
                    },
                    None => Vec::new(),
                };
                let ghost ipv = ip@;
                let mut packets: Vec<Delivery> = Vec::new();
                packets.push(Delivery { ip, admitted, recovered: false });
                assert(packets@.map_values(|x: Delivery| delivery_view(x)) =~= seq![
                    (ipv, admitted, false),
                ]);
                self.push_recovered(&mut packets, rec);
                proof {
                    if old(self).fec_dec is None {
                        assert(rec@.map_values(|v: Vec<u8>| v@) =~= Seq::<Seq<u8>>::empty());
                        assert(recovered_deliveries(self.policy, Seq::<Seq<u8>>::empty())
                            =~= Seq::empty());
                    }
                }
                Downlink::Deliver { packets }
            },
            Some(Inner::FecParity { group, k, r, index, q }) => {
                let rec: Vec<Vec<u8>> = match self.fec_dec.take() {
                    Some(mut dec) => {
                        let r = dec.on_parity(group, k, r, index, &q);
                        self.fec_dec = Some(dec);
                        r
                    },
                    None => Vec::new(),
                };
                let mut packets: Vec<Delivery> = Vec::new();
                assert(packets@.map_values(|x: Delivery| delivery_view(x)) =~= Seq::empty());
                self.push_recovered(&mut packets, rec);
                proof {
                    if old(self).fec_dec is None {
                        assert(rec@.map_values(|v: Vec<u8>| v@) =~= Seq::<Seq<u8>>::empty());
                        assert(recovered_deliveries(self.policy, Seq::<Seq<u8>>::empty())
                            =~= Seq::empty());
                    }
                }
                Downlink::Deliver { packets }
            },
        }
    }
}

} // verus!
