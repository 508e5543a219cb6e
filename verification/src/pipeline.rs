//! The data plane's inner payload codec and packet-log batching.
//!
//! Payloads carried inside an encrypted data frame start with a one-byte inner
//! kind, so keepalive control and tunnelled IP packets share one channel:
//!
//! ```text
//!   ping / pong   [1 | 2][seq: u64 BE]
//!   data          [3][ip…]
//!   FEC data      [4][group: u32 BE][index][ip…]
//!   FEC parity    [5][group: u32 BE][k][r][index][shard…]
//! ```
//!
//! An IPv4 packet's first byte (`0x45`) never collides with the control tags.
use vstd::prelude::*;

use crate::fec::rs::RsParity;
use crate::packet_log::{Direction, PacketLogEntry};
use crate::split_tunnel::SplitPolicy;
use crate::connection::LinkState;
use crate::engine::{EngineNotice, EngineState};
use crate::text::{chars_of, push_chars};

verus! {

/// Keepalive request.
pub const INNER_PING: u8 = 1;

/// Keepalive reply.
pub const INNER_PONG: u8 = 2;

/// Tunnelled packet.
pub const INNER_DATA: u8 = 3;

/// FEC-protected data packet.
pub const INNER_FEC_DATA: u8 = 4;

/// FEC parity shard.
pub const INNER_FEC_PARITY: u8 = 5;

/// Packet-log entries buffered per telemetry tick before further ones are
/// only counted.
pub const PACKET_LOG_BATCH_CAP: usize = 256;

/// FEC data packets per group.
pub const FEC_GROUP_SIZE: u8 = 8;

/// Recent FEC groups the decoder retains.
pub const FEC_GROUP_CAP: usize = 64;

/// A decoded inner payload.
#[derive(Debug)]
pub enum Inner {
    /// Keepalive control: `(kind, seq)`.
    Ctrl(u8, u64),
    /// A tunnelled IP packet (no FEC).
    Data(Vec<u8>),
    /// A FEC-protected IP packet with its group id and index.
    FecData { group: u32, index: u8, ip: Vec<u8> },
    /// A FEC parity shard with its group's geometry.
    FecParity { group: u32, k: u8, r: u8, index: u8, q: Vec<u8> },
}

/// Abstract inner payloads.
pub enum InnerV {
    Ctrl(u8, u64),
    Data(Seq<u8>),
    FecData { group: u32, index: u8, ip: Seq<u8> },
    FecParity { group: u32, k: u8, r: u8, index: u8, q: Seq<u8> },
}

impl View for Inner {
    type V = InnerV;

    open spec fn view(&self) -> InnerV {
        match self {
            Inner::Ctrl(k, s) => InnerV::Ctrl(*k, *s),
            Inner::Data(v) => InnerV::Data(v@),
            Inner::FecData { group, index, ip } => InnerV::FecData {
                group: *group,
                index: *index,
                ip: ip@,
            },
            Inner::FecParity { group, k, r, index, q } => InnerV::FecParity {
                group: *group,
                k: *k,
                r: *r,
                index: *index,
                q: q@,
            },
        }
    }
}

/// `x` as four big-endian bytes.
pub open spec fn be32_bytes(x: u32) -> Seq<u8> {
    seq![(x >> 24u32) as u8, (x >> 16u32) as u8, (x >> 8u32) as u8, x as u8]
}

/// `x` as eight big-endian bytes.
pub open spec fn be64_bytes(x: u64) -> Seq<u8> {
    seq![
        (x >> 56u64) as u8,
        (x >> 48u64) as u8,
        (x >> 40u64) as u8,
        (x >> 32u64) as u8,
        (x >> 24u64) as u8,
        (x >> 16u64) as u8,
        (x >> 8u64) as u8,
        x as u8,
    ]
}

/// Eight big-endian bytes as a `u64`.
pub open spec fn be64(b: Seq<u8>) -> u64 {
    ((b[0] as u64) << 56u64) | ((b[1] as u64) << 48u64) | ((b[2] as u64) << 40u64) | ((b[3] as u64)
        << 32u64) | ((b[4] as u64) << 24u64) | ((b[5] as u64) << 16u64) | ((b[6] as u64) << 8u64)
        | (b[7] as u64)
}

/// Four big-endian bytes as a `u32`.
pub open spec fn be32_of(b: Seq<u8>) -> u32 {
    crate::split_tunnel::be32(b[0], b[1], b[2], b[3])
}

/// The bytes an inner payload is sent as.
pub open spec fn inner_bytes(i: InnerV) -> Seq<u8> {
    match i {
        InnerV::Ctrl(k, s) => seq![k] + be64_bytes(s),
        InnerV::Data(ip) => seq![INNER_DATA] + ip,
        InnerV::FecData { group, index, ip } => seq![INNER_FEC_DATA] + be32_bytes(group) + seq![index]
            + ip,
        InnerV::FecParity { group, k, r, index, q } => seq![INNER_FEC_PARITY] + be32_bytes(group)
            + seq![k, r, index] + q,
    }
}

/// How a decrypted payload is read.
pub open spec fn parse_inner(pt: Seq<u8>) -> Option<InnerV> {
    if pt.len() == 0 {
        None
    } else if pt[0] == INNER_PING || pt[0] == INNER_PONG {
        if pt.len() < 9 {
            None
        } else {
            Some(InnerV::Ctrl(pt[0], be64(pt.subrange(1, 9))))
        }
    } else if pt[0] == INNER_DATA {
        Some(InnerV::Data(pt.subrange(1, pt.len() as int)))
    } else if pt[0] == INNER_FEC_DATA {
        if pt.len() < 6 {
            None
        } else {
            Some(
                InnerV::FecData {
                    group: be32_of(pt.subrange(1, 5)),
                    index: pt[5],
                    ip: pt.subrange(6, pt.len() as int),
                },
            )
        }
    } else if pt[0] == INNER_FEC_PARITY {
        if pt.len() < 8 {
            None
        } else {
            Some(
                InnerV::FecParity {
                    group: be32_of(pt.subrange(1, 5)),
                    k: pt[5],
                    r: pt[6],
                    index: pt[7],
                    q: pt.subrange(8, pt.len() as int),
                },
            )
        }
    } else {
        None
    }
}

fn push_be32(v: &mut Vec<u8>, x: u32)
    ensures
        final(v)@ == old(v)@ + be32_bytes(x),
{
    v.push((x >> 24) as u8);
    v.push((x >> 16) as u8);
    v.push((x >> 8) as u8);
    v.push(x as u8);
    assert(v@ =~= old(v)@ + be32_bytes(x));
}

/// Encode a keepalive control payload: `[kind][seq: u64 BE]`.
pub fn ctrl_encode(kind: u8, seq: u64) -> (b: [u8; 9])
    ensures
        b@ == inner_bytes(InnerV::Ctrl(kind, seq)),
{
    let b = [
        kind,
        (seq >> 56) as u8,
        (seq >> 48) as u8,
        (seq >> 40) as u8,
        (seq >> 32) as u8,
        (seq >> 24) as u8,
        (seq >> 16) as u8,
        (seq >> 8) as u8,
        seq as u8,
    ];
    assert(b@ =~= inner_bytes(InnerV::Ctrl(kind, seq)));
    b
}

/// Encode a tunnelled IP packet payload: `[INNER_DATA][ip…]`.
pub fn dp_encode(ip: &[u8]) -> (v: Vec<u8>)
    ensures
        v@ == inner_bytes(InnerV::Data(ip@)),
{
    let mut v: Vec<u8> = Vec::new();
    v.push(INNER_DATA);
    crate::bytes::extend(&mut v, ip);
    assert(v@ =~= inner_bytes(InnerV::Data(ip@)));
    v
}

/// Encode a FEC data payload: `[INNER_FEC_DATA][group: u32 BE][index][ip…]`.
pub fn fec_data_encode(group: u32, index: u8, ip: &[u8]) -> (v: Vec<u8>)
    ensures
        v@ == inner_bytes(InnerV::FecData { group, index, ip: ip@ }),
{
    let mut v: Vec<u8> = Vec::new();
    v.push(INNER_FEC_DATA);
    push_be32(&mut v, group);
    v.push(index);
    crate::bytes::extend(&mut v, ip);
    assert(v@ =~= inner_bytes(InnerV::FecData { group, index, ip: ip@ }));
    v
}

/// Encode a FEC parity payload: `[INNER_FEC_PARITY][group][k][r][index][shard…]`.
pub fn fec_parity_encode(p: &RsParity) -> (v: Vec<u8>)
    ensures
        v@ == inner_bytes(
            InnerV::FecParity { group: p.group, k: p.k, r: p.r, index: p.index, q: p.shard@ },
        ),
{
    let mut v: Vec<u8> = Vec::new();
    v.push(INNER_FEC_PARITY);
    push_be32(&mut v, p.group);
    v.push(p.k);
    v.push(p.r);
    v.push(p.index);
    crate::bytes::extend(&mut v, p.shard.as_slice());
    assert(v@ =~= inner_bytes(
        InnerV::FecParity { group: p.group, k: p.k, r: p.r, index: p.index, q: p.shard@ },
    ));
    v
}

pub open spec fn opt_inner_view(o: Option<Inner>) -> Option<InnerV> {
    match o {
        Some(i) => Some(i@),
        None => None,
    }
}

fn be32_at(pt: &[u8], at: usize) -> (x: u32)
    requires
        at + 4 <= pt@.len(),
    ensures
        x == be32_of(pt@.subrange(at as int, at + 4)),
{
    crate::split_tunnel::be32_exec(pt[at], pt[at + 1], pt[at + 2], pt[at + 3])
}

/// Decode a decrypted inner payload.
pub fn decode_inner(pt: &[u8]) -> (r: Option<Inner>)
    ensures
        opt_inner_view(r) == parse_inner(pt@),
{
    if pt.len() == 0 {
        return None;
    }
    let tag = pt[0];
    if tag == INNER_PING || tag == INNER_PONG {
        if pt.len() < 9 {
            return None;
        }
        let seq = ((pt[1] as u64) << 56) | ((pt[2] as u64) << 48) | ((pt[3] as u64) << 40) | ((
        pt[4] as u64) << 32) | ((pt[5] as u64) << 24) | ((pt[6] as u64) << 16) | ((pt[7] as u64)
            << 8) | (pt[8] as u64);
        assert(seq == be64(pt@.subrange(1, 9)));
        Some(Inner::Ctrl(tag, seq))
    } else if tag == INNER_DATA {
        Some(Inner::Data(crate::bytes::copy_range(pt, 1, pt.len())))
    } else if tag == INNER_FEC_DATA {
        if pt.len() < 6 {
            return None;
        }
        let group = be32_at(pt, 1);
        Some(Inner::FecData { group, index: pt[5], ip: crate::bytes::copy_range(pt, 6, pt.len()) })
    } else if tag == INNER_FEC_PARITY {
        if pt.len() < 8 {
            return None;
        }
        let group = be32_at(pt, 1);
        Some(
            Inner::FecParity {
                group,
                k: pt[5],
                r: pt[6],
                index: pt[7],
                q: crate::bytes::copy_range(pt, 8, pt.len()),
            },
        )
    } else {
        None
    }
}

proof fn lemma_be32_round_trip(x: u32)
    ensures
        be32_of(be32_bytes(x)) == x,
{
    let b = be32_bytes(x);
    assert(b[0] == (x >> 24u32) as u8 && b[1] == (x >> 16u32) as u8 && b[2] == (x >> 8u32) as u8
        && b[3] == x as u8);
    assert(crate::split_tunnel::be32((x >> 24u32) as u8, (x >> 16u32) as u8, (x >> 8u32) as u8, x as u8) == x)
        by (bit_vector);
}

proof fn lemma_be64_round_trip(x: u64)
    ensures
        be64(be64_bytes(x)) == x,
{
    let b = be64_bytes(x);
    assert(be64(b) == ((((x >> 56u64) as u8) as u64) << 56u64) | ((((x >> 48u64) as u8) as u64)
        << 48u64) | ((((x >> 40u64) as u8) as u64) << 40u64) | ((((x >> 32u64) as u8) as u64)
        << 32u64) | ((((x >> 24u64) as u8) as u64) << 24u64) | ((((x >> 16u64) as u8) as u64)
        << 16u64) | ((((x >> 8u64) as u8) as u64) << 8u64) | ((x as u8) as u64));
    assert(((((x >> 56u64) as u8) as u64) << 56u64) | ((((x >> 48u64) as u8) as u64) << 48u64) | ((
    ((x >> 40u64) as u8) as u64) << 40u64) | ((((x >> 32u64) as u8) as u64) << 32u64) | ((((x
        >> 24u64) as u8) as u64) << 24u64) | ((((x >> 16u64) as u8) as u64) << 16u64) | ((((x
        >> 8u64) as u8) as u64) << 8u64) | ((x as u8) as u64) == x) by (bit_vector);
}

/// Round trip of the inner codec: every payload the encoders produce is read
/// back as exactly what was encoded (control payloads for the ping and pong
/// kinds).
pub proof fn law_inner_round_trip(i: InnerV)
    requires
        i matches InnerV::Ctrl(k, _) ==> (k == INNER_PING || k == INNER_PONG),
    ensures
        parse_inner(inner_bytes(i)) == Some(i),
{
    let b = inner_bytes(i);
    match i {
        InnerV::Ctrl(k, s) => {
            lemma_be64_round_trip(s);
            assert(b.subrange(1, 9) =~= be64_bytes(s));
        },
        InnerV::Data(ip) => {
            assert(b.subrange(1, b.len() as int) =~= ip);
        },
        InnerV::FecData { group, index, ip } => {
            lemma_be32_round_trip(group);
            assert(b.subrange(1, 5) =~= be32_bytes(group));
            assert(b.subrange(6, b.len() as int) =~= ip);
        },
        InnerV::FecParity { group, k, r, index, q } => {
            lemma_be32_round_trip(group);
            assert(b.subrange(1, 5) =~= be32_bytes(group));
            assert(b.subrange(8, b.len() as int) =~= q);
        },
    }
}

/// The split-tunnel gate for the uplink. Fail-closed: no policy admits nothing.
pub fn admits_packet(policy: Option<&SplitPolicy>, frame: &[u8]) -> (b: bool)
    ensures
        b == (policy matches Some(p) && p.egress_ok(frame@)),
{
    match policy {
        Some(p) => p.admits(frame),
        None => false,
    }
}

/// The split-tunnel gate for the downlink. Fail-closed: no policy admits nothing.
pub fn admits_downlink(policy: Option<&SplitPolicy>, frame: &[u8]) -> (b: bool)
    ensures
        b == (policy matches Some(p) && p.ingress_ok(frame@)),
{
    match policy {
        Some(p) => p.admits_inbound(frame),
        None => false,
    }
}

/// What actually happened to an inbound packet.
#[derive(Debug, Clone, Copy, PartialEq, Eq, Structural)]
pub enum Injected {
    /// Queued for the adapter.
    Delivered,
    /// Rejected by the ingress policy.
    Blocked,
    /// Admitted, but the adapter queue was full or absent.
    Queueless,
}

/// The outcome of injecting a frame: blocked unless the ingress gate admits
/// it, then delivered or dropped as the adapter queue took it or not.
pub fn inject_outcome(admitted: bool, queued: bool) -> (o: Injected)
    ensures
        o == (if !admitted {
            Injected::Blocked
        } else if queued {
            Injected::Delivered
        } else {
            Injected::Queueless
        }),
{
    if !admitted {
        Injected::Blocked
    } else if queued {
        Injected::Delivered
    } else {
        Injected::Queueless
    }
}

/// A packet-log entry at `t_ms`; `len` is recorded modulo 2^16.
pub fn pkt(t_ms: u64, dir: Direction, proto: String, len: usize, note: String) -> (e: PacketLogEntry)
    ensures
        e.t_ms == t_ms,
        e.dir == dir,
        e.proto == proto,
        e.len == len as u16,
        e.note == note,
{
    PacketLogEntry { t_ms, dir, proto, len: len as u16, note }
}

/// The packet-log entry for an inbound packet, reporting what actually
/// happened to it; `label` is the packet's protocol label.
pub fn inbound_entry(t_ms: u64, outcome: Injected, label: String, ip_len: usize, note: String) -> (e:
    PacketLogEntry)
    ensures
        e.t_ms == t_ms,
        e.dir == Direction::Rx,
        e.len == ip_len as u16,
        outcome == Injected::Delivered ==> e.proto == label && e.note == note,
        outcome == Injected::Blocked ==> e.proto@ == "DROP"@ && e.note@
            == "split-tunnel blocked (inbound)"@,
        outcome == Injected::Queueless ==> e.proto@ == "DROP"@ && e.note@
            == "adapter queue full — packet dropped"@,
{
    match outcome {
        Injected::Delivered => pkt(t_ms, Direction::Rx, label, ip_len, note),
        Injected::Blocked => pkt(
            t_ms,
            Direction::Rx,
            "DROP".to_owned(),
            ip_len,
            "split-tunnel blocked (inbound)".to_owned(),
        ),
        Injected::Queueless => pkt(
            t_ms,
            Direction::Rx,
            "DROP".to_owned(),
            ip_len,
            "adapter queue full — packet dropped".to_owned(),
        ),
    }
}

/// A bounded batch of packet-log entries for one telemetry tick.
pub struct LogBatch {
    entries: Vec<PacketLogEntry>,
    suppressed: u32,
}

/// The note of the summary line for `n` suppressed entries.
pub open spec fn suppressed_note(n: u32) -> Seq<char> {
    crate::text::dec_chars(n as nat) + " further entries suppressed (log rate cap)"@
}

impl LogBatch {
    pub closed spec fn kept(self) -> Seq<PacketLogEntry> {
        self.entries@
    }

    pub closed spec fn suppressed_count(self) -> u32 {
        self.suppressed
    }

    pub closed spec fn wf(self) -> bool {
        self.entries.len() <= PACKET_LOG_BATCH_CAP
    }

    pub fn new() -> (b: Self)
        ensures
            b.wf(),
            b.kept() == Seq::<PacketLogEntry>::empty(),
            b.suppressed_count() == 0,
    {
        LogBatch { entries: Vec::new(), suppressed: 0 }
    }

    /// Record an entry, or count it as suppressed once the cap is reached (the
    /// count saturates at `u32::MAX`).
    pub fn push(&mut self, entry: PacketLogEntry)
        requires
            old(self).wf(),
        ensures
            final(self).wf(),
            old(self).kept().len() < PACKET_LOG_BATCH_CAP ==> final(self).kept() == old(self).kept().push(
                entry,
            ) && final(self).suppressed_count() == old(self).suppressed_count(),
            old(self).kept().len() >= PACKET_LOG_BATCH_CAP ==> final(self).kept() == old(self).kept()
                && final(self).suppressed_count() == (if old(self).suppressed_count() == u32::MAX {
                u32::MAX as int
            } else {
                old(self).suppressed_count() + 1
            }),
    {
        if self.entries.len() < PACKET_LOG_BATCH_CAP {
            self.entries.push(entry);
        } else {
            self.suppressed = self.suppressed.saturating_add(1);
        }
    }

    pub fn has_content(&self) -> (b: bool)
        ensures
            b == (self.kept().len() > 0 || self.suppressed_count() > 0),
    {
        self.entries.len() > 0 || self.suppressed > 0
    }

    /// Close the batch at `t_ms`, appending a summary line if anything was
    /// suppressed so the gap is visible rather than silent.
    pub fn take(&mut self, t_ms: u64) -> (out: Vec<PacketLogEntry>)
        requires
            old(self).wf(),
        ensures
            final(self).wf(),
            final(self).kept() == Seq::<PacketLogEntry>::empty(),
            final(self).suppressed_count() == 0,
            old(self).suppressed_count() == 0 ==> out@ == old(self).kept(),
            old(self).suppressed_count() > 0 ==> {
                &&& out@.len() == old(self).kept().len() + 1
                &&& out@.drop_last() == old(self).kept()
                &&& out@.last().t_ms == t_ms
                &&& out@.last().dir == Direction::Rx
                &&& out@.last().proto@ == "LOG"@
                &&& out@.last().len == 0
                &&& out@.last().note@ == suppressed_note(old(self).suppressed_count())
            },
    {
        let mut out: Vec<PacketLogEntry> = Vec::new();
        std::mem::swap(&mut out, &mut self.entries);
        if self.suppressed > 0 {
            let mut note = String::new();
            let digits = crate::text::decimal(self.suppressed as u64);
            crate::text::push_chars(&mut note, digits.as_slice());
            let tail = crate::text::chars_of(" further entries suppressed (log rate cap)");
            crate::text::push_chars(&mut note, tail.as_slice());
            let ghost before = out@;
            out.push(pkt(t_ms, Direction::Rx, "LOG".to_owned(), 0, note));
            assert(out@.drop_last() =~= before);
            self.suppressed = 0;
        }
        out
    }
}

/// The batch stays bounded whatever the packet rate: it never keeps more than
/// its cap of entries.
pub proof fn law_log_batch_is_bounded(b: LogBatch)
    requires
        b.wf(),
    ensures
        b.kept().len() <= PACKET_LOG_BATCH_CAP,
{
}

/// What a failed handshake leaves behind. A cancellation is an orderly
/// disconnect: the link and engine go idle and nothing is reported. Any other
/// failure fails the link and reports `Handshake failed: <reason>`.
pub fn handshake_failure(cancelled: bool, reason: &str) -> (r: (LinkState, EngineState, Option<EngineNotice>))
    ensures
        cancelled ==> r.0 == LinkState::Idle && r.1 == EngineState::Idle && r.2 is None,
        !cancelled ==> r.0 == LinkState::Failed && r.1 == EngineState::Error && (r.2 matches Some(n) && n.code@
            == "engine_error"@ && n.message@ == "Handshake failed: "@ + reason@ && n.remediation is None),
{
    if cancelled {
        return (LinkState::Idle, EngineState::Idle, None);
    }
    let mut m = "Handshake failed: ".to_owned();
    push_chars(&mut m, chars_of(reason).as_slice());
    (LinkState::Failed, EngineState::Error, Some(EngineNotice::error(m)))
}

/// The fingerprint shown for a connected peer: that of its static key, or
/// `unknown` when the session does not expose one.
pub fn peer_display_fingerprint(remote_static: Option<Vec<u8>>) -> (f: String)
    ensures
        remote_static matches Some(k) ==> f@ == crate::crypto::fingerprint_chars(k@),
        remote_static is None ==> f@ == "unknown"@,
{
    match remote_static {
        Some(k) => crate::crypto::fingerprint_of(k.as_slice()),
        None => "unknown".to_owned(),
    }
}

/// The notice announcing a connected peer: `Connected to <fingerprint> via
/// <endpoint>`.
pub fn connected_notice(peer_fp: &str, ip: u32, port: u16) -> (n: EngineNotice)
    ensures
        n.code@ == "peer_connected"@,
        n.message@ == "Connected to "@ + peer_fp@ + " via "@ + crate::candidate::endpoint_text(ip, port),
        n.remediation is None,
{
    let mut m = "Connected to ".to_owned();
    push_chars(&mut m, chars_of(peer_fp).as_slice());
    push_chars(&mut m, chars_of(" via ").as_slice());
    let e = crate::candidate::format_endpoint(ip, port);
    push_chars(&mut m, chars_of(e.as_str()).as_slice());
    EngineNotice::info("peer_connected".to_owned(), m)
}

/// Why a link with no negotiated role cannot start its handshake.
pub open spec fn no_role_text() -> Seq<char> {
    "no role negotiated — create or accept an offer first"@
}

/// A link handshakes as the role it negotiated; with none it fails at once,
/// with `no_role_text` as the reason.
pub fn handshake_role(role: crate::connection::Role) -> (r: Result<crate::connection::Role, String>)
    ensures
        role == crate::connection::Role::Idle ==> (r matches Err(m) && m@ == no_role_text()),
        role != crate::connection::Role::Idle ==> r == Ok::<crate::connection::Role, String>(role),
{
    match role {
        crate::connection::Role::Idle => Err("no role negotiated — create or accept an offer first".to_owned()),
        other => Ok(other),
    }
}

/// Whether a handshake frame arriving on a connected link is answered: only
/// a responder holds a cached message 2, and it re-sends it, unchanged, only
/// to the peer the session was made with (a duplicate message 1 means the
/// first reply was lost; a second session is never made).
pub fn resend_message_2(cached_m2: Option<&Vec<u8>>, from_is_peer: bool) -> (b: bool)
    ensures
        b == (cached_m2 is Some && from_is_peer),
{
    match cached_m2 {
        Some(_) => from_is_peer,
        None => false,
    }
}

} // verus!
