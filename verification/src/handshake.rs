//! The Noise IK handshake's two sides as single-step state machines. The
//! initiator's message 1 doubles as the NAT hole punch and is sent, unchanged,
//! to every candidate; the first message 2 that authenticates completes the
//! handshake. The responder answers only a message 1 carrying the static key
//! it was told to expect: a valid message 1 from any other key is an
//! impostor, dropped in favour of a fresh state, and garbage leaves the state
//! as it was.
use vstd::prelude::*;

use crate::crypto::{CryptoSession, Identity, NOISE_PARAMS};
use crate::fec::xor::opt_bytes;
use crate::text::{chars_of, push_chars};

verus! {

/// Largest handshake message.
pub const MAX_NOISE_MSG: usize = 1024;

#[verifier::external_type_specification]
#[verifier::external_body]
pub struct ExHandshakeState(snow::HandshakeState);

/// `Builder::build_initiator` of `snow`, for the `NOISE_PARAMS` suite with
/// our static private key and the responder's public key. `snow` copies the
/// keys into fixed buffers of 32 and 56 bytes and panics on longer ones; for
/// keys that fit, every check it makes passes for this suite (both keys
/// present, the default resolver implements each primitive), so it succeeds.
#[verifier::external_body]
fn build_initiator_state(private: &[u8], remote_public: &[u8]) -> (r: Result<snow::HandshakeState, String>)
    requires
        private@.len() <= 32,
        remote_public@.len() <= 56,
    ensures
        r is Ok,
{
    let params: snow::params::NoiseParams = NOISE_PARAMS.parse().map_err(|e: snow::Error| e.to_string())?;
    snow::Builder::new(params)
        .local_private_key(private)
        .remote_public_key(remote_public)
        .build_initiator()
        .map_err(|e| e.to_string())
}

/// What a fresh responder of the `NOISE_PARAMS` handshake holding private
/// key `private` reads from `message`: `None` when the message does not
/// authenticate as a message 1, else the initiator's static key it carried
/// (`None` inside when it carried none). The responder draws nothing at
/// random before it writes, so this depends on `private` and `message`
/// alone.
pub uninterp spec fn message_1_reading(private: Seq<u8>, message: Seq<u8>) -> Option<Option<Seq<u8>>>;

/// `Builder::build_responder`, `HandshakeState::read_message` (into a
/// scratch buffer of `MAX_NOISE_MSG` bytes) and
/// `HandshakeState::get_remote_static` of `snow`: a fresh responder for the
/// `NOISE_PARAMS` suite with our private key reads `message`, and on success
/// hands back its state and the static key the message carried. `snow`
/// copies the private key into a 32-byte buffer and panics on a longer one;
/// for a key that fits, building always succeeds, so `None` means the read
/// failed.
#[verifier::external_body]
fn read_message_1(private: &[u8], message: &[u8]) -> (r: Option<(snow::HandshakeState, Option<Vec<u8>>)>)
    requires
        private@.len() <= 32,
    ensures
        match r {
            None => message_1_reading(private@, message@) is None,
            Some((_, claimed)) => message_1_reading(private@, message@) == Some(opt_bytes(claimed)),
        },
{
    let params: snow::params::NoiseParams = NOISE_PARAMS.parse().ok()?;
    let mut hs = snow::Builder::new(params).local_private_key(private).build_responder().ok()?;
    let mut tmp = vec![0u8; MAX_NOISE_MSG];
    hs.read_message(message, &mut tmp).ok()?;
    let claimed = hs.get_remote_static().map(|k| k.to_vec());
    Some((hs, claimed))
}

/// `HandshakeState::write_message` of `snow` with an empty payload, into a
/// buffer of `MAX_NOISE_MSG` bytes: the next handshake message, which
/// `snow` never makes longer than its buffer.
#[verifier::external_body]
fn hs_write_message(hs: &mut snow::HandshakeState) -> (r: Result<Vec<u8>, String>)
    ensures
        r matches Ok(m) ==> m@.len() <= MAX_NOISE_MSG,
{
    let mut buf = vec![0u8; MAX_NOISE_MSG];
    match hs.write_message(&[], &mut buf) {
        Ok(n) => {
            buf.truncate(n);
            Ok(buf)
        },
        Err(e) => Err(e.to_string()),
    }
}

/// `HandshakeState::read_message` of `snow`, into a scratch buffer of
/// `MAX_NOISE_MSG` bytes: whether `message` authenticated and advanced the
/// handshake. On failure `snow` restores the state it had before.
#[verifier::external_body]
fn hs_read_message(hs: &mut snow::HandshakeState, message: &[u8]) -> (ok: bool) {
    let mut tmp = vec![0u8; MAX_NOISE_MSG];
    hs.read_message(message, &mut tmp).is_ok()
}

/// `HandshakeState::into_transport_mode` of `snow`: the transport keys of a
/// finished handshake; the error is `snow`'s message.
#[verifier::external_body]
fn hs_into_transport(hs: snow::HandshakeState) -> (r: Result<snow::TransportState, String>) {
    hs.into_transport_mode().map_err(|e| e.to_string())
}

/// Whether `m` is the text of a handshake failure.
pub open spec fn is_noise_error(m: Seq<char>) -> bool {
    exists|e: Seq<char>| m == "noise: "@ + e
}

/// `noise: <message>`, the text of a handshake failure.
fn noise_error(msg: String) -> (e: String)
    ensures
        e@ == "noise: "@ + msg@,
{
    let mut e = "noise: ".to_owned();
    push_chars(&mut e, chars_of(msg.as_str()).as_slice());
    e
}

/// Whether `a` and `b` hold the same bytes.
fn bytes_eq(a: &[u8], b: &[u8]) -> (r: bool)
    ensures
        r == (a@ == b@),
{
    if a.len() != b.len() {
        return false;
    }
    let mut i: usize = 0;
    while i < a.len()
        invariant
            0 <= i <= a@.len(),
            a@.len() == b@.len(),
            forall|j: int| 0 <= j < i ==> a@[j] == b@[j],
        decreases a@.len() - i,
    {
        if a[i] != b[i] {
            return false;
        }
        i = i + 1;
    }
    assert(a@ =~= b@);
    true
}

/// What the initiator does with a received message 2, given whether it
/// authenticated.
#[derive(Debug, Clone, Copy, PartialEq, Eq, Structural)]
pub enum Message2Verdict {
    /// It authenticated: complete the handshake.
    Complete,
    /// It did not: keep waiting on the same state.
    KeepWaiting,
}

pub open spec fn message_2_verdict(read_ok: bool) -> Message2Verdict {
    if read_ok {
        Message2Verdict::Complete
    } else {
        Message2Verdict::KeepWaiting
    }
}

/// The initiator's decision on a message 2 whose reading `read_ok` reports.
pub fn judge_message_2(read_ok: bool) -> (v: Message2Verdict)
    ensures
        v == message_2_verdict(read_ok),
{
    if read_ok {
        Message2Verdict::Complete
    } else {
        Message2Verdict::KeepWaiting
    }
}

/// What the responder does with a received message 1, given whether it
/// authenticated and the static key it carried.
#[derive(Debug, Clone, Copy, PartialEq, Eq, Structural)]
pub enum Message1Verdict {
    /// It did not authenticate: keep waiting on the same state.
    Garbage,
    /// It authenticated, but not with the expected key: drop it and wait on
    /// with a fresh state.
    Impostor,
    /// It authenticated with the expected key: answer and complete.
    Accept,
}

pub open spec fn message_1_verdict(read_ok: bool, claimed: Option<Seq<u8>>, expected: Seq<u8>) -> Message1Verdict {
    if !read_ok {
        Message1Verdict::Garbage
    } else if claimed == Some(expected) {
        Message1Verdict::Accept
    } else {
        Message1Verdict::Impostor
    }
}

/// The responder's decision on a message 1 whose reading `read_ok` reports,
/// carrying the static key `claimed`, when it expects `expected`.
pub fn judge_message_1(read_ok: bool, claimed: &Option<Vec<u8>>, expected: &[u8]) -> (v: Message1Verdict)
    ensures
        v == message_1_verdict(read_ok, opt_bytes(*claimed), expected@),
{
    if !read_ok {
        return Message1Verdict::Garbage;
    }
    match claimed {
        Some(k) => if bytes_eq(k.as_slice(), expected) {
            Message1Verdict::Accept
        } else {
            Message1Verdict::Impostor
        },
        None => Message1Verdict::Impostor,
    }
}

/// The remote static key `snow` holds for a given key: its first 32 bytes
/// (the X25519 key length), zero-filled when shorter, as the builder copies
/// the key into a zeroed buffer and reports the DH length of it.
pub open spec fn dh_key(k: Seq<u8>) -> Seq<u8> {
    Seq::new(32, |i: int| if i < k.len() { k[i] } else { 0u8 })
}

/// `dh_key` of `k`.
fn dh_key_of(k: &[u8]) -> (d: Vec<u8>)
    ensures
        d@ == dh_key(k@),
{
    let mut d: Vec<u8> = Vec::new();
    let mut i: usize = 0;
    while i < 32
        invariant
            0 <= i <= 32,
            d@.len() == i,
            forall|j: int| 0 <= j < i ==> d@[j] == (if j < k@.len() { k@[j] } else { 0u8 }),
        decreases 32 - i,
    {
        if i < k.len() {
            d.push(k[i]);
        } else {
            d.push(0u8);
        }
        i = i + 1;
    }
    assert(d@ =~= dh_key(k@));
    d
}

/// The initiator, waiting for message 2.
pub struct Initiator {
    hs: snow::HandshakeState,
    /// The responder's static key the handshake was built for.
    target: Vec<u8>,
}

/// What one received handshake message did to the initiator.
pub enum InitiatorStep {
    /// A valid message 2: the session.
    Established(CryptoSession),
    /// Not a valid message 2; still waiting.
    Waiting(Initiator),
    /// The handshake cannot continue.
    Failed(String),
}

impl Initiator {
    /// The responder's static key this handshake was built for.
    pub closed spec fn target_key(self) -> Seq<u8> {
        self.target@
    }

    /// Start a handshake towards `peer_public`: the state, and the one
    /// message 1 to send to every candidate.
    pub fn start(identity: &Identity, peer_public: &[u8]) -> (r: Result<(Initiator, Vec<u8>), String>)
        requires
            peer_public@.len() <= 56,
        ensures
            r matches Ok((init, m1)) ==> m1@.len() <= MAX_NOISE_MSG && init.target_key() == peer_public@,
            r matches Err(m) ==> is_noise_error(m@),
    {
        let mut hs = match build_initiator_state(identity.private(), peer_public) {
            Ok(hs) => hs,
            Err(e) => {
                return Err(noise_error(e));
            },
        };
        let m1 = match hs_write_message(&mut hs) {
            Ok(m) => m,
            Err(e) => {
                return Err(noise_error(e));
            },
        };
        Ok((Initiator { hs, target: crate::bytes::copy_bytes(peer_public) }, m1))
    }

    /// Feed one received handshake message: the first that authenticates
    /// completes the handshake (see `judge_message_2`); anything else leaves
    /// it waiting, still towards the same responder.
    pub fn on_message(self, message: &[u8]) -> (s: InitiatorStep)
        ensures
            s matches InitiatorStep::Waiting(next) ==> next.target_key() == self.target_key(),
            s matches InitiatorStep::Established(session) ==> !session.window().started() && session.remote_key()
                == Some(dh_key(self.target_key())),
            s matches InitiatorStep::Failed(m) ==> is_noise_error(m@),
    {
        let Initiator { hs, target } = self;
        let mut hs = hs;
        let read_ok = hs_read_message(&mut hs, message);
        if judge_message_2(read_ok) == Message2Verdict::KeepWaiting {
            return InitiatorStep::Waiting(Initiator { hs, target });
        }
        match hs_into_transport(hs) {
            Ok(ts) => InitiatorStep::Established(CryptoSession::with_remote_key(ts, dh_key_of(target.as_slice()))),
            Err(e) => InitiatorStep::Failed(noise_error(e)),
        }
    }
}

/// The responder, waiting for message 1 from the expected peer. Each message
/// 1 is read by a fresh handshake state, so what one message yields does not
/// depend on the messages before it.
pub struct Responder {
    expected: Vec<u8>,
}

/// What one received handshake message did to the responder.
pub enum ResponderStep {
    /// Not a valid message 1; the responder waits on.
    Garbage(Responder),
    /// A valid message 1 from another static key (`claimed`, when it
    /// carried one); the responder waits on.
    Impostor { next: Responder, claimed: Option<Vec<u8>> },
    /// A valid message 1 from the expected key: the message 2 to send back
    /// (and re-send should message 1 arrive again), and the session.
    Established { peer_static: Vec<u8>, m2: Vec<u8>, session: CryptoSession },
    /// A valid message 1 from the expected key, but the handshake could not
    /// be completed.
    Failed(String),
}

impl Responder {
    /// The static key this responder accepts.
    pub closed spec fn expected_key(self) -> Seq<u8> {
        self.expected@
    }

    /// A responder that accepts only `expected_peer`.
    pub fn new(identity: &Identity, expected_peer: &[u8]) -> (r: Result<Responder, String>)
        ensures
            r is Ok,
            r matches Ok(resp) ==> resp.expected_key() == expected_peer@,
    {
        Ok(Responder { expected: crate::bytes::copy_bytes(expected_peer) })
    }

    /// Feed one received handshake message, and act on `judge_message_1`'s
    /// verdict on what reading it yields: a session is established only when
    /// the message authenticates and carries the expected key, and it
    /// records that key as its peer's; an impostor's message is answered by
    /// nothing.
    pub fn on_message(self, identity: &Identity, message: &[u8]) -> (s: ResponderStep)
        ensures
            ({
                let reading = message_1_reading(identity.private_key(), message@);
                &&& reading is None <==> s is Garbage
                &&& (reading matches Some(c) && message_1_verdict(true, c, self.expected_key())
                    == Message1Verdict::Impostor) <==> s is Impostor
                &&& reading == Some(Some(self.expected_key())) <==> (s is Established || s is Failed)
                &&& s matches ResponderStep::Impostor { claimed, .. } ==> reading == Some(opt_bytes(claimed))
            }),
            s matches ResponderStep::Established { peer_static, m2, session } ==> peer_static@ == self.expected_key()
                && message_1_reading(identity.private_key(), message@) == Some(Some(peer_static@))
                && session.remote_key() == Some(peer_static@) && m2@.len() <= MAX_NOISE_MSG
                && !session.window().started(),
            s matches ResponderStep::Garbage(next) ==> next.expected_key() == self.expected_key(),
            s matches ResponderStep::Impostor { next, claimed } ==> next.expected_key() == self.expected_key()
                && (claimed matches Some(k) ==> k@ != self.expected_key()),
            s matches ResponderStep::Failed(m) ==> is_noise_error(m@),
    {
        let Responder { expected } = self;
        let (hs, claimed) = match read_message_1(identity.private(), message) {
            Some(r) => r,
            None => {
                proof {
                    assert(message_1_verdict(false, None, expected@) == Message1Verdict::Garbage);
                }
                return ResponderStep::Garbage(Responder { expected });
            },
        };
        let verdict = judge_message_1(true, &claimed, expected.as_slice());
        if verdict == Message1Verdict::Impostor {
            return ResponderStep::Impostor { next: Responder { expected }, claimed };
        }
        let peer_static = match claimed {
            Some(k) => k,
            None => {
                return ResponderStep::Failed(noise_error("no static key".to_owned()));
            },
        };
        let mut hs = hs;
        let m2 = match hs_write_message(&mut hs) {
            Ok(m) => m,
            Err(e) => {
                return ResponderStep::Failed(noise_error(e));
            },
        };
        match hs_into_transport(hs) {
            Ok(ts) => {
                let key = crate::bytes::copy_bytes(peer_static.as_slice());
                ResponderStep::Established { peer_static, m2, session: CryptoSession::with_remote_key(ts, key) }
            },
            Err(e) => ResponderStep::Failed(noise_error(e)),
        }
    }
}

/// What wakes a handshake attempt's waiting loop. `A` is the transport's
/// address type, carried through untouched.
pub enum WaitEvent<A> {
    /// The retransmit interval ticked.
    Tick,
    /// A handshake message arrived from `from`.
    Handshake { from: A, payload: Vec<u8> },
    /// The cancel channel changed: `closed` when its sender is gone, else
    /// `cancelled` is the value it now holds.
    CancelChanged { closed: bool, cancelled: bool },
    /// The attempt's deadline passed.
    Deadline,
}

/// The initiator's fan-out: one message 1, sent to every candidate on each
/// tick, and the handshake waiting for the first valid message 2.
pub struct InitiatorFanOut {
    init: Initiator,
    m1: Vec<u8>,
}

/// What the initiator's loop does next.
pub enum FanOutAction<A> {
    /// Send message 1 to every candidate, and wait on.
    SendToAll(InitiatorFanOut),
    /// Wait on.
    Wait(InitiatorFanOut),
    /// The handshake is complete; `peer` sent the winning message 2 and is
    /// nominated as the peer's endpoint.
    Connected { peer: A, session: CryptoSession },
    /// The attempt was cancelled.
    Cancelled,
    /// The deadline passed first.
    TimedOut,
    /// The handshake cannot continue.
    Failed(String),
}

impl InitiatorFanOut {
    /// The responder's static key the attempt is towards.
    pub closed spec fn target_key(self) -> Seq<u8> {
        self.init.target_key()
    }

    /// The message 1 every candidate is sent.
    pub closed spec fn message_1(self) -> Seq<u8> {
        self.m1@
    }

    /// The fan-out for a started handshake and its message 1.
    pub fn new(init: Initiator, m1: Vec<u8>) -> (f: Self)
        ensures
            f.target_key() == init.target_key(),
            f.message_1() == m1@,
    {
        InitiatorFanOut { init, m1 }
    }

    /// The message 1 to send to every candidate.
    pub fn message_1_bytes(&self) -> (m: &Vec<u8>)
        ensures
            m@ == self.message_1(),
    {
        &self.m1
    }

    /// One turn of the fan-out loop: a tick re-sends message 1 everywhere;
    /// a handshake message goes to `Initiator::on_message`, and the first
    /// that completes the handshake wins, its sender nominated as the peer;
    /// a cancel (or a closed cancel channel) ends the attempt, and so does
    /// the deadline.
    pub fn on_event<A>(self, ev: WaitEvent<A>) -> (act: FanOutAction<A>)
        ensures
            ev is Tick <==> act is SendToAll,
            ev is Deadline <==> act is TimedOut,
            (ev matches WaitEvent::CancelChanged { closed, cancelled } && (closed || cancelled)) <==> act is Cancelled,
            act matches FanOutAction::SendToAll(next) ==> next.target_key() == self.target_key()
                && next.message_1() == self.message_1(),
            act matches FanOutAction::Wait(next) ==> next.target_key() == self.target_key()
                && next.message_1() == self.message_1() && (ev is Handshake || ev is CancelChanged),
            act matches FanOutAction::Connected { peer, session } ==> (ev matches WaitEvent::Handshake { from, .. }
                && peer == from) && session.remote_key() == Some(dh_key(self.target_key()))
                && !session.window().started(),
            act matches FanOutAction::Failed(m) ==> ev is Handshake && is_noise_error(m@),
    {
        match ev {
            WaitEvent::Tick => FanOutAction::SendToAll(self),
            WaitEvent::Deadline => FanOutAction::TimedOut,
            WaitEvent::CancelChanged { closed, cancelled } => {
                if closed || cancelled {
                    FanOutAction::Cancelled
                } else {
                    FanOutAction::Wait(self)
                }
            },
            WaitEvent::Handshake { from, payload } => {
                let InitiatorFanOut { init, m1 } = self;
                match init.on_message(payload.as_slice()) {
                    InitiatorStep::Waiting(next) => FanOutAction::Wait(InitiatorFanOut { init: next, m1 }),
                    InitiatorStep::Established(session) => FanOutAction::Connected { peer: from, session },
                    InitiatorStep::Failed(m) => FanOutAction::Failed(m),
                }
            },
        }
    }
}

/// The responder's punch loop: pings every initiator candidate on each tick
/// (numbered from 0, wrapping) while waiting for message 1 from the
/// expected peer.
pub struct ResponderPunch {
    resp: Responder,
    punch_seq: u64,
}

/// What the responder's loop does next.
pub enum PunchAction<A> {
    /// Send a ping numbered `seq` to every candidate, and wait on.
    PingAll { next: ResponderPunch, seq: u64 },
    /// Wait on: garbage, an impostor, or a cancel channel that did not cancel.
    Wait(ResponderPunch),
    /// Send `m2` back to `peer`, whose message 1 authenticated with the
    /// expected key: the handshake is complete.
    Connected { peer: A, peer_static: Vec<u8>, m2: Vec<u8>, session: CryptoSession },
    /// The attempt was cancelled.
    Cancelled,
    /// The deadline passed first.
    TimedOut,
    /// The handshake cannot continue.
    Failed(String),
}

impl ResponderPunch {
    /// The static key the responder accepts.
    pub closed spec fn expected_key(self) -> Seq<u8> {
        self.resp.expected_key()
    }

    /// The number the next ping carries.
    pub closed spec fn next_seq(self) -> u64 {
        self.punch_seq
    }

    /// A punch loop for `resp`, its first ping numbered 0.
    pub fn new(resp: Responder) -> (p: Self)
        ensures
            p.expected_key() == resp.expected_key(),
            p.next_seq() == 0,
    {
        ResponderPunch { resp, punch_seq: 0 }
    }

    /// One turn of the punch loop: a tick pings every candidate; a
    /// handshake message goes to `Responder::on_message`, and only a message
    /// 1 carrying the expected key completes the handshake, its sender
    /// nominated as the peer; garbage and impostors leave the loop waiting;
    /// a cancel (or a closed cancel channel) ends the attempt, and so does
    /// the deadline.
    pub fn on_event<A>(self, identity: &Identity, ev: WaitEvent<A>) -> (act: PunchAction<A>)
        ensures
            ev is Tick <==> act is PingAll,
            ev is Deadline <==> act is TimedOut,
            (ev matches WaitEvent::CancelChanged { closed, cancelled } && (closed || cancelled)) <==> act is Cancelled,
            act matches PunchAction::PingAll { next, seq } ==> seq == self.next_seq() && next.next_seq()
                == (if self.next_seq() == u64::MAX { 0 } else { self.next_seq() + 1 })
                && next.expected_key() == self.expected_key(),
            act matches PunchAction::Wait(next) ==> next.expected_key() == self.expected_key() && next.next_seq()
                == self.next_seq(),
            (ev matches WaitEvent::Handshake { payload, .. } && message_1_reading(identity.private_key(), payload@)
                != Some(Some(self.expected_key()))) ==> act is Wait,
            (ev matches WaitEvent::Handshake { payload, .. } && message_1_reading(identity.private_key(), payload@)
                == Some(Some(self.expected_key()))) ==> (act is Connected || act is Failed),
            act matches PunchAction::Connected { peer, peer_static, m2, session } ==> (ev matches WaitEvent::Handshake {
                from,
                payload,
            } && peer == from && message_1_reading(identity.private_key(), payload@) == Some(Some(peer_static@)))
                && peer_static@ == self.expected_key() && session.remote_key() == Some(peer_static@)
                && m2@.len() <= MAX_NOISE_MSG && !session.window().started(),
            act matches PunchAction::Failed(m) ==> ev is Handshake && is_noise_error(m@),
    {
        match ev {
            WaitEvent::Tick => {
                let seq = self.punch_seq;
                let next_seq = if seq == u64::MAX { 0 } else { seq + 1 };
                PunchAction::PingAll { next: ResponderPunch { resp: self.resp, punch_seq: next_seq }, seq }
            },
            WaitEvent::Deadline => PunchAction::TimedOut,
            WaitEvent::CancelChanged { closed, cancelled } => {
                if closed || cancelled {
                    PunchAction::Cancelled
                } else {
                    PunchAction::Wait(self)
                }
            },
            WaitEvent::Handshake { from, payload } => {
                let ResponderPunch { resp, punch_seq } = self;
                match resp.on_message(identity, payload.as_slice()) {
                    ResponderStep::Garbage(next) => PunchAction::Wait(ResponderPunch { resp: next, punch_seq }),
                    ResponderStep::Impostor { next, .. } => PunchAction::Wait(
                        ResponderPunch { resp: next, punch_seq },
                    ),
                    ResponderStep::Established { peer_static, m2, session } => PunchAction::Connected {
                        peer: from,
                        peer_static,
                        m2,
                        session,
                    },
                    ResponderStep::Failed(m) => PunchAction::Failed(m),
                }
            },
        }
    }
}

} // verus!
