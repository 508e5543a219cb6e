//! Mesh orchestration: joining a network connects to every other member with
//! no manual offer/answer exchange. For each pair of members exactly one side
//! sends the offer, chosen by comparing public keys; the offer and answer are
//! ordinary signaling envelopes carried by the network's relay channel.
use vstd::prelude::*;

use crate::candidate::{endpoint_text, format_endpoint, kind_name, parse_peer_addr, peer_addr_of_text, socket_addr_text_ok, Candidate, PeerAddr};
use crate::connection::{LinkState, PeerTable};
use crate::crypto::{b64_std_decode, b64_std_decoded, b64_std_encode, b64_std_encoded};
use crate::signaling::blob::{addrs_ok, first_unparsable, str_eq, trimmed};
use crate::signaling::message::{SignalEnvelope, SignalKind, WireCandidate, PROTOCOL_VERSION};
use crate::signaling::protocol::MemberInfo;
use crate::strmap::{StrEntry, StrMap};
use crate::text::{chars_of, push_chars, trim};

verus! {

/// Why a mesh event could not be carried out.
#[derive(Debug, Clone)]
pub enum MeshError {
    MalformedEnvelope(String),
    UnexpectedAnswer,
    SessionMismatch,
    SignalingDisconnected,
    Connect(String),
}

/// The display text of a mesh error.
pub open spec fn mesh_error_text(e: MeshError) -> Seq<char> {
    match e {
        MeshError::MalformedEnvelope(s) => "malformed relayed envelope: "@ + s@,
        MeshError::UnexpectedAnswer => "received an answer with no matching pending offer"@,
        MeshError::SessionMismatch => "received an answer for the wrong session"@,
        MeshError::SignalingDisconnected => "signaling client is disconnected"@,
        MeshError::Connect(s) => "connect_to rejected the relayed peer: "@ + s@,
    }
}

impl MeshError {
    /// The display text of this error.
    pub fn message(&self) -> (m: String)
        ensures
            m@ == mesh_error_text(*self),
    {
        match self {
            MeshError::MalformedEnvelope(s) => {
                let mut m = "malformed relayed envelope: ".to_owned();
                push_chars(&mut m, chars_of(s.as_str()).as_slice());
                m
            },
            MeshError::UnexpectedAnswer => "received an answer with no matching pending offer".to_owned(),
            MeshError::SessionMismatch => "received an answer for the wrong session".to_owned(),
            MeshError::SignalingDisconnected => "signaling client is disconnected".to_owned(),
            MeshError::Connect(s) => {
                let mut m = "connect_to rejected the relayed peer: ".to_owned();
                push_chars(&mut m, chars_of(s.as_str()).as_slice());
                m
            },
        }
    }
}

/// `a` sorts strictly before `b`, character by character, a proper prefix
/// first: the order of `str`.
pub open spec fn str_lt(a: Seq<char>, b: Seq<char>) -> bool
    decreases a.len(),
{
    if a.len() == 0 {
        b.len() > 0
    } else if b.len() == 0 {
        false
    } else if a[0] != b[0] {
        a[0] < b[0]
    } else {
        str_lt(a.drop_first(), b.drop_first())
    }
}

/// Whether this member, with public key `our_pubkey_b64`, sends the offer to
/// the member with `their_pubkey_b64`: both compute it from the same two keys.
pub fn should_initiate(our_pubkey_b64: &str, their_pubkey_b64: &str) -> (b: bool)
    ensures
        b == str_lt(our_pubkey_b64@, their_pubkey_b64@),
{
    let a = chars_of(our_pubkey_b64);
    let c = chars_of(their_pubkey_b64);
    let mut i: usize = 0;
    assert(a@.skip(0) =~= a@);
    assert(c@.skip(0) =~= c@);
    while i < a.len() && i < c.len()
        invariant
            0 <= i <= a@.len(),
            i <= c@.len(),
            a@ == our_pubkey_b64@,
            c@ == their_pubkey_b64@,
            str_lt(a@, c@) == str_lt(a@.skip(i as int), c@.skip(i as int)),
        decreases a.len() - i,
    {
        if a[i] != c[i] {
            proof {
                assert(a@.skip(i as int)[0] == a@[i as int]);
                assert(c@.skip(i as int)[0] == c@[i as int]);
            }
            return a[i] < c[i];
        }
        proof {
            assert(a@.skip(i as int).drop_first() =~= a@.skip(i + 1));
            assert(c@.skip(i as int).drop_first() =~= c@.skip(i + 1));
        }
        i = i + 1;
    }
    i < c.len()
}

proof fn lemma_str_lt(a: Seq<char>, b: Seq<char>)
    ensures
        !str_lt(a, a),
        a != b ==> (str_lt(a, b) <==> !str_lt(b, a)),
    decreases a.len(),
{
    if a.len() > 0 && b.len() > 0 {
        lemma_str_lt(a.drop_first(), b.drop_first());
        lemma_str_lt(a.drop_first(), a.drop_first());
        if a[0] == b[0] && a != b {
            assert(a.drop_first() != b.drop_first()) by {
                if a.drop_first() == b.drop_first() {
                    assert forall|i: int| 0 <= i < a.len() implies a[i] == b[i] by {
                        if i > 0 {
                            assert(a[i] == a.drop_first()[i - 1]);
                            assert(b[i] == b.drop_first()[i - 1]);
                        }
                    }
                    assert(a =~= b);
                }
            }
        }
    } else if a.len() > 0 {
        lemma_str_lt(a.drop_first(), a.drop_first());
    } else if b.len() == 0 {
        assert(a =~= b);
    }
}

/// For two distinct members exactly one sends the offer; a key never offers
/// to itself.
pub proof fn law_exactly_one_side_initiates(a: Seq<char>, b: Seq<char>)
    ensures
        a != b ==> str_lt(a, b) != str_lt(b, a),
        !str_lt(a, a),
{
    lemma_str_lt(a, b);
}

/// The wire form of gathered candidates.
pub fn wire_candidates(cands: &[Candidate]) -> (w: Vec<WireCandidate>)
    ensures
        w@.len() == cands@.len(),
        forall|i: int| 0 <= i < cands@.len() ==> (#[trigger] w@[i]).a@ == endpoint_text(cands@[i].ip, cands@[i].port)
            && w@[i].k@ == kind_name(cands@[i].kind),
{
    let mut w: Vec<WireCandidate> = Vec::new();
    let mut i: usize = 0;
    while i < cands.len()
        invariant
            0 <= i <= cands@.len(),
            w@.len() == i,
            forall|j: int| 0 <= j < i ==> (#[trigger] w@[j]).a@ == endpoint_text(cands@[j].ip, cands@[j].port)
                && w@[j].k@ == kind_name(cands@[j].kind),
        decreases cands@.len() - i,
    {
        let c = cands[i];
        w.push(WireCandidate { a: format_endpoint(c.ip, c.port), k: c.kind.as_str().to_owned() });
        i = i + 1;
    }
    w
}

/// The peer a relayed envelope describes: its decoded public key and its
/// candidate socket addresses, when both are well-formed.
pub open spec fn envelope_peer(env: SignalEnvelope) -> Option<(Seq<u8>, Seq<PeerAddr>)> {
    if b64_std_decoded(trim(env.pk@)) is Some && addrs_ok(env.cands@) {
        Some(
            (
                b64_std_decoded(trim(env.pk@))->0,
                Seq::new(env.cands@.len(), |i: int| peer_addr_of_text(env.cands@[i].a@)->0),
            ),
        )
    } else {
        None
    }
}

/// The public key of the peer an envelope describes.
pub open spec fn peer_key(env: SignalEnvelope) -> Seq<u8> {
    let (k, _c) = envelope_peer(env)->0;
    k
}

/// The candidate socket addresses of the peer an envelope describes.
pub open spec fn peer_cands(env: SignalEnvelope) -> Seq<PeerAddr> {
    let (_k, c) = envelope_peer(env)->0;
    c
}

/// Decode the peer's public key and candidate socket addresses (IPv4 or
/// IPv6) from a relayed envelope.
pub fn decode_envelope_peer(env: &SignalEnvelope) -> (r: Result<(Vec<u8>, Vec<PeerAddr>), MeshError>)
    ensures
        r is Ok <==> envelope_peer(*env) is Some,
        r matches Ok((k, c)) ==> envelope_peer(*env) == Some((k@, c@)),
        r is Err ==> (r matches Err(MeshError::MalformedEnvelope(_))),
        b64_std_decoded(trim(env.pk@)) is Some && !addrs_ok(env.cands@) ==> (r matches Err(MeshError::MalformedEnvelope(m))
            && exists|i: int| first_unparsable(env.cands@, i) && m@ == "candidate address '"@ + env.cands@[i].a@ + seq!['\'']),
{
    let pk_text = trimmed(env.pk.as_str());
    let public_key = match b64_std_decode(pk_text.as_str()) {
        Ok(k) => k,
        Err(msg) => {
            let mut m = "public key: ".to_owned();
            push_chars(&mut m, chars_of(msg.as_str()).as_slice());
            return Err(MeshError::MalformedEnvelope(m));
        },
    };
    let mut candidates: Vec<PeerAddr> = Vec::new();
    let mut i: usize = 0;
    while i < env.cands.len()
        invariant
            0 <= i <= env.cands@.len(),
            candidates@.len() == i,
            forall|j: int| 0 <= j < i ==> (#[trigger] peer_addr_of_text(env.cands@[j].a@)) == Some(candidates@[j]),
        decreases env.cands@.len() - i,
    {
        match parse_peer_addr(env.cands[i].a.as_str()) {
            Some(e) => {
                candidates.push(e);
            },
            None => {
                let mut m = "candidate address '".to_owned();
                push_chars(&mut m, chars_of(env.cands[i].a.as_str()).as_slice());
                m.push('\'');
                proof {
                    assert forall|j: int| 0 <= j < i implies socket_addr_text_ok(#[trigger] env.cands@[j].a@) by {
                        assert(peer_addr_of_text(env.cands@[j].a@) == Some(candidates@[j]));
                    }
                    assert(first_unparsable(env.cands@, i as int));
                }
                return Err(MeshError::MalformedEnvelope(m));
            },
        }
        i = i + 1;
    }
    proof {
        assert forall|j: int| 0 <= j < env.cands@.len() implies socket_addr_text_ok(#[trigger] env.cands@[j].a@) by {
            assert(peer_addr_of_text(env.cands@[j].a@) == Some(candidates@[j]));
        }
        assert(addrs_ok(env.cands@));
        assert(candidates@ =~= Seq::new(env.cands@.len(), |i: int| peer_addr_of_text(env.cands@[i].a@)->0));
    }
    Ok((public_key, candidates))
}

/// A fresh session id: standard base64 of sixteen random bytes.
pub fn new_sid() -> (s: String)
    ensures
        exists|b: Seq<u8>| b.len() == 16 && s@ == b64_std_encoded(b),
{
    let b = crate::crypto::random_bytes(16);
    b64_std_encode(b.as_slice())
}

/// The envelope this member sends: version, kind, session id, its own public
/// key and its candidates.
pub open spec fn own_envelope_ok(env: SignalEnvelope, kind: SignalKind, sid: Seq<char>, our_pubkey: Seq<char>, local: Seq<Candidate>) -> bool {
    &&& env.v == PROTOCOL_VERSION
    &&& env.kind == kind
    &&& env.sid@ == sid
    &&& env.pk@ == our_pubkey
    &&& env.cands@.len() == local.len()
    &&& forall|i: int| 0 <= i < local.len() ==> (#[trigger] env.cands@[i]).a@ == endpoint_text(local[i].ip, local[i].port)
        && env.cands@[i].k@ == kind_name(local[i].kind)
}

pub(crate) fn own_envelope(kind: SignalKind, sid: String, our_pubkey: &str, local: &[Candidate]) -> (env: SignalEnvelope)
    ensures
        own_envelope_ok(env, kind, sid@, our_pubkey@, local@),
{
    SignalEnvelope {
        v: PROTOCOL_VERSION,
        kind,
        sid,
        pk: crate::text::string_of(chars_of(our_pubkey).as_slice()),
        cands: wire_candidates(local),
    }
}

/// What to do after a relayed envelope was accepted.
#[derive(Debug)]
pub enum RelayedAction {
    /// Relay `answer` back to the offering member, then connect to it as the
    /// responder.
    Answer { answer: SignalEnvelope, peer_public: Vec<u8>, peer_candidates: Vec<PeerAddr> },
    /// Connect as the initiator to the member that answered our offer.
    Connect { peer_public: Vec<u8>, peer_candidates: Vec<PeerAddr> },
}

/// One member's automatic-connection state: the members already seen (by
/// public key, with fingerprints, in the order they were seen) and the
/// session ids of offers awaiting an answer (by target public key).
pub struct MeshState {
    members: StrMap,
    pending: StrMap,
}

impl MeshState {
    pub closed spec fn seen(self) -> Map<Seq<char>, Seq<char>> {
        self.members.view_map()
    }

    pub closed spec fn pending_offers(self) -> Map<Seq<char>, Seq<char>> {
        self.pending.view_map()
    }

    /// The public keys of the members seen, in the order first seen.
    pub closed spec fn order(self) -> Seq<Seq<char>> {
        self.members.key_order()
    }

    pub closed spec fn wf(self) -> bool {
        self.members.wf() && self.pending.wf()
    }

    /// No members seen, no offers pending.
    pub fn new() -> (m: Self)
        ensures
            m.wf(),
            m.seen() == Map::<Seq<char>, Seq<char>>::empty(),
            m.pending_offers() == Map::<Seq<char>, Seq<char>>::empty(),
            m.order() == Seq::<Seq<char>>::empty(),
    {
        MeshState { members: StrMap::new(), pending: StrMap::new() }
    }

    /// A member is known to exist. The first time it is seen it joins the
    /// roster, and when this member is the one to initiate, the offer to send
    /// it is returned (its session id freshly drawn); a member seen before
    /// changes nothing.
    pub fn on_member_present(&mut self, member: &MemberInfo, our_pubkey: &str, local: &[Candidate]) -> (offer: Option<SignalEnvelope>)
        requires
            old(self).wf(),
        ensures
            final(self).wf(),
            final(self).pending_offers() == old(self).pending_offers(),
            old(self).seen().contains_key(member.pubkey@) ==> offer is None && final(self).seen() == old(self).seen()
                && final(self).order() == old(self).order(),
            !old(self).seen().contains_key(member.pubkey@) ==> final(self).seen() == old(self).seen().insert(member.pubkey@, member.fingerprint@)
                && final(self).order() == old(self).order().push(member.pubkey@)
                && (offer is Some <==> str_lt(our_pubkey@, member.pubkey@)),
            offer matches Some(env) ==> own_envelope_ok(env, SignalKind::Offer, env.sid@, our_pubkey@, local@)
                && exists|b: Seq<u8>| b.len() == 16 && env.sid@ == b64_std_encoded(b),
    {
        if self.members.contains_key(member.pubkey.as_str()) {
            return None;
        }
        self.members.insert(&member.pubkey, member.fingerprint.clone());
        if !should_initiate(our_pubkey, member.pubkey.as_str()) {
            return None;
        }
        let sid = new_sid();
        Some(own_envelope(SignalKind::Offer, sid, our_pubkey, local))
    }

    /// The offer with session id `sid` reached `to`; its answer is awaited.
    pub fn offer_sent(&mut self, to: &String, sid: String)
        requires
            old(self).wf(),
        ensures
            final(self).wf(),
            final(self).seen() == old(self).seen(),
            final(self).order() == old(self).order(),
            final(self).pending_offers() == old(self).pending_offers().insert(to@, sid@),
    {
        self.pending.insert(to, sid);
    }

    /// A member relayed `env` to us. An offer is answered (same session id)
    /// and connected to as the responder; an answer must match the session id
    /// of our pending offer to that member, which it consumes either way, and
    /// is connected to as the initiator.
    pub fn on_relayed(&mut self, from: &String, env: &SignalEnvelope, our_pubkey: &str, local: &[Candidate]) -> (r: Result<RelayedAction, MeshError>)
        requires
            old(self).wf(),
        ensures
            final(self).wf(),
            final(self).seen() == old(self).seen(),
            final(self).order() == old(self).order(),
            env.kind == SignalKind::Offer ==> {
                &&& final(self).pending_offers() == old(self).pending_offers()
                &&& envelope_peer(*env) is None ==> (r matches Err(MeshError::MalformedEnvelope(_)))
                &&& envelope_peer(*env) matches Some((k, c)) ==> (r matches Ok(RelayedAction::Answer { answer, peer_public, peer_candidates })
                    && own_envelope_ok(answer, SignalKind::Answer, env.sid@, our_pubkey@, local@) && peer_public@ == k && peer_candidates@ == c)
            },
            env.kind == SignalKind::Answer ==> {
                &&& final(self).pending_offers() == old(self).pending_offers().remove(from@)
                &&& !old(self).pending_offers().contains_key(from@) ==> (r matches Err(MeshError::UnexpectedAnswer))
                &&& old(self).pending_offers().contains_key(from@) && old(self).pending_offers()[from@] != env.sid@ ==> (r matches Err(MeshError::SessionMismatch))
                &&& old(self).pending_offers().contains_key(from@) && old(self).pending_offers()[from@] == env.sid@ && envelope_peer(*env) is None
                    ==> (r matches Err(MeshError::MalformedEnvelope(_)))
                &&& old(self).pending_offers().contains_key(from@) && old(self).pending_offers()[from@] == env.sid@ && envelope_peer(*env) is Some
                    ==> (r matches Ok(RelayedAction::Connect { peer_public, peer_candidates }) && peer_public@ == peer_key(*env)
                    && peer_candidates@ == peer_cands(*env))
            },
    {
        match env.kind {
            SignalKind::Offer => {
                let (peer_public, peer_candidates) = match decode_envelope_peer(env) {
                    Ok(p) => p,
                    Err(e) => {
                        return Err(e);
                    },
                };
                let sid = crate::text::string_of(chars_of(env.sid.as_str()).as_slice());
                let answer = own_envelope(SignalKind::Answer, sid, our_pubkey, local);
                Ok(RelayedAction::Answer { answer, peer_public, peer_candidates })
            },
            SignalKind::Answer => {
                let expected = match self.pending.remove(from.as_str()) {
                    Some(s) => s,
                    None => {
                        return Err(MeshError::UnexpectedAnswer);
                    },
                };
                if !str_eq(expected.as_str(), env.sid.as_str()) {
                    return Err(MeshError::SessionMismatch);
                }
                let (peer_public, peer_candidates) = match decode_envelope_peer(env) {
                    Ok(p) => p,
                    Err(e) => {
                        return Err(e);
                    },
                };
                Ok(RelayedAction::Connect { peer_public, peer_candidates })
            },
        }
    }

    /// A member left: forget it and any offer pending to it. Its link is to
    /// be torn down.
    pub fn on_left(&mut self, pubkey: &str)
        requires
            old(self).wf(),
        ensures
            final(self).wf(),
            final(self).seen() == old(self).seen().remove(pubkey@),
            final(self).pending_offers() == old(self).pending_offers().remove(pubkey@),
            !old(self).seen().contains_key(pubkey@) ==> final(self).order() == old(self).order(),
            old(self).seen().contains_key(pubkey@) ==> exists|i: int|
                0 <= i < old(self).order().len() && old(self).order()[i] == pubkey@ && final(self).order()
                    == old(self).order().remove(i),
    {
        let _ = self.pending.remove(pubkey);
        let ghost before = self.members;
        let _ = self.members.remove(pubkey);
        proof {
            if before.view_map().contains_key(pubkey@) {
                let i = choose|i: int|
                    0 <= i < before.key_order().len() && before.key_order()[i] == pubkey@ && self.members.key_order()
                        == before.key_order().remove(i);
                assert(0 <= i < old(self).order().len() && old(self).order()[i] == pubkey@ && self.order()
                    == old(self).order().remove(i));
            }
        }
    }

    /// The signaling session ended (left or dropped): every member seen is
    /// handed back, in the order seen, for its link to be torn down, and the
    /// state starts over with no members seen and no offers pending.
    pub fn end_session(&mut self) -> (stale: Vec<String>)
        requires
            old(self).wf(),
        ensures
            final(self).wf(),
            stale@.map_values(|k: String| k@) == old(self).order(),
            final(self).seen() == Map::<Seq<char>, Seq<char>>::empty(),
            final(self).pending_offers() == Map::<Seq<char>, Seq<char>>::empty(),
            final(self).order() == Seq::<Seq<char>>::empty(),
    {
        let roster = self.roster();
        let mut stale: Vec<String> = Vec::new();
        let mut i: usize = 0;
        while i < roster.len()
            invariant
                0 <= i <= roster@.len(),
                stale@.map_values(|k: String| k@) == roster@.take(i as int).map_values(|m: MemberInfo| m.pubkey@),
            decreases roster@.len() - i,
        {
            stale.push(roster[i].pubkey.clone());
            proof {
                assert(roster@.take(i + 1).map_values(|m: MemberInfo| m.pubkey@) =~= roster@.take(i as int).map_values(
                    |m: MemberInfo| m.pubkey@,
                ).push(roster@[i as int].pubkey@));
                assert(stale@.map_values(|k: String| k@) =~= roster@.take(i + 1).map_values(|m: MemberInfo| m.pubkey@));
            }
            i = i + 1;
        }
        assert(roster@.take(roster@.len() as int) =~= roster@);
        *self = MeshState::new();
        stale
    }

    /// The roster: every member seen, in the order seen.
    pub fn roster(&self) -> (v: Vec<MemberInfo>)
        requires
            self.wf(),
        ensures
            v@.len() == self.seen().len(),
            forall|i: int| 0 <= i < v@.len() ==> self.seen().contains_key((#[trigger] v@[i]).pubkey@)
                && self.seen()[v@[i].pubkey@] == v@[i].fingerprint@,
            forall|i: int, j: int| 0 <= i < j < v@.len() ==> (#[trigger] v@[i]).pubkey@ != (#[trigger] v@[j]).pubkey@,
            v@.map_values(|m: MemberInfo| m.pubkey@) == self.order(),
    {
        let es = self.members.entries();
        let mut v: Vec<MemberInfo> = Vec::new();
        let mut i: usize = 0;
        while i < es.len()
            invariant
                0 <= i <= es@.len(),
                v@.len() == i,
                forall|t: int| 0 <= t < i ==> (#[trigger] v@[t]).pubkey@ == es@[t].key@ && v@[t].fingerprint@ == es@[t].value@,
            decreases es@.len() - i,
        {
            v.push(MemberInfo { pubkey: es[i].key.clone(), fingerprint: es[i].value.clone() });
            i = i + 1;
        }
        proof {
            assert forall|a: int, b: int| 0 <= a < b < v@.len() implies (#[trigger] v@[a]).pubkey@ != (#[trigger] v@[b]).pubkey@ by {
                assert(es@[a].key@ != es@[b].key@);
            }
            assert(v@.map_values(|m: MemberInfo| m.pubkey@) =~= es@.map_values(|e: StrEntry| e.key@));
        }
        v
    }
}

/// A network member as shown to the UI, with its live link state.
#[derive(Debug, Clone)]
pub struct MemberSnapshot {
    pub pubkey: String,
    pub fingerprint: String,
    pub link: LinkState,
}

/// One active network membership as shown to the UI.
#[derive(Debug, Clone)]
pub struct NetworkStatus {
    pub id: String,
    pub network_name: String,
    pub is_host: bool,
    /// The host's address, `ip:port`.
    pub host_addr: String,
    /// Free-form display label set at creation or join time.
    pub game_tag: Option<String>,
    pub members: Vec<MemberSnapshot>,
    /// Whether a dropped connection is being retried.
    pub reconnecting: bool,
}

/// Each roster member with its link state in `links`.
pub fn member_snapshots(roster: &[MemberInfo], links: &PeerTable) -> (v: Vec<MemberSnapshot>)
    requires
        links.wf(),
    ensures
        v@.len() == roster@.len(),
        forall|i: int| 0 <= i < roster@.len() ==> (#[trigger] v@[i]).pubkey@ == roster@[i].pubkey@
            && v@[i].fingerprint@ == roster@[i].fingerprint@ && v@[i].link == links.state_of(roster@[i].pubkey@),
{
    let mut v: Vec<MemberSnapshot> = Vec::new();
    let mut i: usize = 0;
    while i < roster.len()
        invariant
            0 <= i <= roster@.len(),
            links.wf(),
            v@.len() == i,
            forall|j: int| 0 <= j < i ==> (#[trigger] v@[j]).pubkey@ == roster@[j].pubkey@
                && v@[j].fingerprint@ == roster@[j].fingerprint@ && v@[j].link == links.state_of(roster@[j].pubkey@),
        decreases roster@.len() - i,
    {
        let m = &roster[i];
        let link = links.link_state_of(&m.pubkey);
        v.push(MemberSnapshot { pubkey: m.pubkey.clone(), fingerprint: m.fingerprint.clone(), link });
        i = i + 1;
    }
    v
}

/// First delay, in milliseconds, before retrying a dropped network.
pub const INITIAL_RETRY_DELAY_MS: u64 = 2000;

/// Longest delay, in milliseconds, between retries.
pub const MAX_RETRY_DELAY_MS: u64 = 30000;

/// The retry delay after one that lasted `delay_ms`: doubled, capped at
/// thirty seconds.
pub fn next_retry_delay_ms(delay_ms: u64) -> (d: u64)
    ensures
        d == if 2 * delay_ms < MAX_RETRY_DELAY_MS {
            2 * delay_ms
        } else {
            MAX_RETRY_DELAY_MS as int
        },
{
    if delay_ms < MAX_RETRY_DELAY_MS / 2 {
        delay_ms * 2
    } else {
        MAX_RETRY_DELAY_MS
    }
}

/// The address to advertise for a server bound to `ip:port`: a concrete
/// address as it is; for the unspecified address, this machine's primary
/// IPv4 address when known, else loopback.
pub fn advertisable_addr(ip: u32, port: u16, primary_local: Option<u32>) -> (a: (u32, u16))
    ensures
        ip != 0 ==> a == (ip, port),
        ip == 0 ==> a == (
            match primary_local {
                Some(l) => l,
                None => 0x7f00_0001u32,
            },
            port,
        ),
{
    if ip != 0 {
        return (ip, port);
    }
    match primary_local {
        Some(l) => (l, port),
        None => (0x7f00_0001, port),
    }
}

/// The message refusing a relay address that is not a socket address.
pub open spec fn bad_relay_addr_text() -> Seq<char> {
    "invalid relay address: invalid socket address syntax"@
}

/// The relay to use: none when the field is absent or blank, else the
/// address it names, or an error when it names none.
pub fn parse_relay_addr(relay_addr: Option<String>) -> (r: Result<Option<PeerAddr>, String>)
    ensures
        match relay_addr {
            None => r == Ok::<Option<PeerAddr>, String>(None),
            Some(s) => if trim(s@).len() == 0 {
                r == Ok::<Option<PeerAddr>, String>(None)
            } else {
                match peer_addr_of_text(s@) {
                    Some(e) => r == Ok::<Option<PeerAddr>, String>(Some(e)),
                    None => r matches Err(m) && m@ == bad_relay_addr_text(),
                }
            },
        },
{
    match relay_addr {
        None => Ok(None),
        Some(s) => {
            let t = trimmed(s.as_str());
            if chars_of(t.as_str()).len() == 0 {
                return Ok(None);
            }
            match parse_peer_addr(s.as_str()) {
                Some(e) => Ok(Some(e)),
                None => Err("invalid relay address: invalid socket address syntax".to_owned()),
            }
        },
    }
}

} // verus!
