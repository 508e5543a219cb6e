//! The member side of networked signaling: what a reply to `Join` means, and
//! the events a live membership produces.
use vstd::prelude::*;

use crate::relay_protocol::ServerFrame;
use crate::strmap::StrMap;
use super::message::SignalEnvelope;
use super::protocol::{JoinRejectReason, MemberInfo, ServerMessage};

verus! {

/// Why joining a network, or talking to it, failed.
#[derive(Debug, Clone)]
pub enum SignalingClientError {
    /// The host could not be reached; the transport's message.
    Connect(String),
    ClosedBeforeJoin,
    MalformedMessage,
    WrongPassword,
    WrongNetworkName,
    UnsupportedVersion,
    AlreadyJoined,
    Disconnected,
    /// The relay could not be reached; the transport's message.
    RelayConnect(String),
    RelayRejected(String),
    RelayMalformedReply,
    ConnectTimeout,
}

/// The client error a join refusal stands for.
pub open spec fn rejection_error(reason: JoinRejectReason) -> SignalingClientError {
    match reason {
        JoinRejectReason::WrongPassword => SignalingClientError::WrongPassword,
        JoinRejectReason::WrongNetworkName => SignalingClientError::WrongNetworkName,
        JoinRejectReason::UnsupportedVersion => SignalingClientError::UnsupportedVersion,
        JoinRejectReason::AlreadyJoined => SignalingClientError::AlreadyJoined,
        JoinRejectReason::MalformedJoin => SignalingClientError::MalformedMessage,
    }
}

impl From<JoinRejectReason> for SignalingClientError {
    fn from(reason: JoinRejectReason) -> (e: Self) {
        match reason {
            JoinRejectReason::WrongPassword => SignalingClientError::WrongPassword,
            JoinRejectReason::WrongNetworkName => SignalingClientError::WrongNetworkName,
            JoinRejectReason::UnsupportedVersion => SignalingClientError::UnsupportedVersion,
            JoinRejectReason::AlreadyJoined => SignalingClientError::AlreadyJoined,
            JoinRejectReason::MalformedJoin => SignalingClientError::MalformedMessage,
        }
    }
}

impl vstd::std_specs::convert::FromSpecImpl<JoinRejectReason> for SignalingClientError {
    open spec fn obeys_from_spec() -> bool {
        true
    }

    open spec fn from_spec(reason: JoinRejectReason) -> Self {
        rejection_error(reason)
    }
}

/// The initial roster a reply to `Join` grants, or why it grants none.
pub fn join_reply_outcome(reply: ServerMessage) -> (r: Result<Vec<MemberInfo>, SignalingClientError>)
    ensures
        reply matches ServerMessage::JoinAccepted { members } ==> r == Ok::<Vec<MemberInfo>, SignalingClientError>(members),
        reply matches ServerMessage::JoinRejected { reason } ==> r == Err::<Vec<MemberInfo>, SignalingClientError>(rejection_error(reason)),
        !(reply is JoinAccepted || reply is JoinRejected) ==> (r matches Err(SignalingClientError::MalformedMessage)),
{
    match reply {
        ServerMessage::JoinAccepted { members } => Ok(members),
        ServerMessage::JoinRejected { reason } => Err(SignalingClientError::from(reason)),
        _ => Err(SignalingClientError::MalformedMessage),
    }
}

/// The relay's reply to a host's `CONNECT`: paired, refused, or nonsense.
pub fn connect_reply_outcome(reply: Option<ServerFrame>) -> (r: Result<(), SignalingClientError>)
    ensures
        reply matches Some(ServerFrame::Okay) ==> r is Ok,
        reply matches Some(ServerFrame::Error { message }) ==> r == Err::<(), SignalingClientError>(SignalingClientError::RelayRejected(message)),
        !(reply matches Some(ServerFrame::Okay) || reply matches Some(ServerFrame::Error { .. })) ==> (r matches Err(SignalingClientError::RelayMalformedReply)),
{
    match reply {
        Some(ServerFrame::Okay) => Ok(()),
        Some(ServerFrame::Error { message }) => Err(SignalingClientError::RelayRejected(message)),
        _ => Err(SignalingClientError::RelayMalformedReply),
    }
}

/// A roster change or an incoming relay on a live membership.
#[derive(Debug, Clone, PartialEq, Eq)]
pub enum MemberEvent {
    Joined(MemberInfo),
    Left { pubkey: String },
    /// An offer or answer another member relayed to us.
    Relayed { from_pubkey: String, envelope: SignalEnvelope },
}

/// The roster `members` grants, later entries for a key replacing earlier
/// ones: public key to fingerprint.
pub open spec fn roster_of(members: Seq<MemberInfo>) -> Map<Seq<char>, Seq<char>>
    decreases members.len(),
{
    if members.len() == 0 {
        Map::empty()
    } else {
        roster_of(members.drop_last()).insert(members.last().pubkey@, members.last().fingerprint@)
    }
}

/// What the reader of a live membership does with one server message.
#[derive(Debug)]
pub enum ReaderStep {
    /// Report this roster change.
    Event(MemberEvent),
    /// A blob relayed from `from_pubkey`: reported once it decodes as an
    /// envelope, dropped otherwise.
    Relayed { from_pubkey: String, blob: String },
    /// Not expected once joined: ignored.
    Ignore,
}

/// The other members a live membership knows of, by public key, with their
/// fingerprints (the host never lists the member itself).
pub struct KnownMembers {
    map: StrMap,
}

impl KnownMembers {
    pub closed spec fn view_map(self) -> Map<Seq<char>, Seq<char>> {
        self.map.view_map()
    }

    pub closed spec fn wf(self) -> bool {
        self.map.wf()
    }

    /// The roster granted by an accepted join.
    pub fn from_accepted(members: &[MemberInfo]) -> (k: Self)
        ensures
            k.wf(),
            k.view_map() == roster_of(members@),
    {
        let mut map = StrMap::new();
        let mut i: usize = 0;
        while i < members.len()
            invariant
                0 <= i <= members@.len(),
                map.wf(),
                map.view_map() == roster_of(members@.take(i as int)),
            decreases members@.len() - i,
        {
            assert(members@.take(i + 1).drop_last() =~= members@.take(i as int));
            map.insert(&members[i].pubkey, members[i].fingerprint.clone());
            i = i + 1;
        }
        assert(members@.take(members@.len() as int) =~= members@);
        KnownMembers { map }
    }

    /// One server message: a join adds (or refreshes) the member, a leave
    /// removes it, each reported as an event; a relayed blob is handed on
    /// for decoding; a late join reply changes nothing.
    pub fn on_message(&mut self, msg: ServerMessage) -> (step: ReaderStep)
        requires
            old(self).wf(),
        ensures
            final(self).wf(),
            match msg {
                ServerMessage::MemberJoined(info) => final(self).view_map() == old(self).view_map().insert(
                    info.pubkey@,
                    info.fingerprint@,
                ) && step == ReaderStep::Event(MemberEvent::Joined(info)),
                ServerMessage::MemberLeft { pubkey } => final(self).view_map() == old(self).view_map().remove(pubkey@)
                    && step == ReaderStep::Event(MemberEvent::Left { pubkey }),
                ServerMessage::Relayed { from_pubkey, blob } => final(self).view_map() == old(self).view_map()
                    && step == (ReaderStep::Relayed { from_pubkey, blob }),
                _ => final(self).view_map() == old(self).view_map() && step is Ignore,
            },
    {
        match msg {
            ServerMessage::MemberJoined(info) => {
                self.map.insert(&info.pubkey, info.fingerprint.clone());
                ReaderStep::Event(MemberEvent::Joined(info))
            },
            ServerMessage::MemberLeft { pubkey } => {
                let _ = self.map.remove(pubkey.as_str());
                ReaderStep::Event(MemberEvent::Left { pubkey })
            },
            ServerMessage::Relayed { from_pubkey, blob } => ReaderStep::Relayed { from_pubkey, blob },
            _ => ReaderStep::Ignore,
        }
    }

    /// Every known member, each once.
    pub fn members(&self) -> (v: Vec<MemberInfo>)
        requires
            self.wf(),
        ensures
            v@.len() == self.view_map().len(),
            forall|i: int| 0 <= i < v@.len() ==> self.view_map().contains_key((#[trigger] v@[i]).pubkey@)
                && self.view_map()[v@[i].pubkey@] == v@[i].fingerprint@,
            forall|i: int, j: int| 0 <= i < j < v@.len() ==> (#[trigger] v@[i]).pubkey@ != (#[trigger] v@[j]).pubkey@,
    {
        let es = self.map.entries();
        let mut v: Vec<MemberInfo> = Vec::new();
        let mut i: usize = 0;
        while i < es.len()
            invariant
                0 <= i <= es@.len(),
                v@.len() == i,
                forall|t: int| 0 <= t < i ==> (#[trigger] v@[t]).pubkey@ == es@[t].key@ && v@[t].fingerprint@ == es@[t].value@,
            decreases es@.len() - i,
        {
            v.push(MemberInfo { pubkey: es[i].key.clone(), fingerprint: es[i].value.clone() });
            i = i + 1;
        }
        proof {
            assert forall|a: int, b: int| 0 <= a < b < v@.len() implies (#[trigger] v@[a]).pubkey@ != (#[trigger] v@[b]).pubkey@ by {
                assert(es@[a].key@ != es@[b].key@);
            }
        }
        v
    }
}

} // verus!
