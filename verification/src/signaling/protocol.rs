//! Wire types of networked signaling: membership of a virtual network over a
//! live connection to its host.
use vstd::prelude::*;

verus! {

/// Current networked-signaling protocol version.
pub const PROTOCOL_VERSION: u32 = 1;

/// A network member as every member sees it.
#[derive(Debug, Clone, PartialEq, Eq)]
pub struct MemberInfo {
    /// Base64 X25519 public key: the member's identity.
    pub pubkey: String,
    /// Short `PC-XXXX-XXXX-XXXX-XXXX` fingerprint, for display only.
    pub fingerprint: String,
}

/// Client to server.
#[derive(Debug, Clone, PartialEq, Eq)]
pub enum ClientMessage {
    /// Sent once, right after connecting.
    Join {
        v: u32,
        network_name: String,
        /// Hex SHA-256 of the network password; the plaintext never leaves
        /// the client.
        password_hash: String,
        pubkey: String,
        fingerprint: String,
    },
    /// Forward an opaque blob to another member, addressed by public key.
    Relay { to_pubkey: String, blob: String },
}

/// Server to client.
#[derive(Debug, Clone, PartialEq, Eq)]
pub enum ServerMessage {
    /// Reply to an accepted join, with every member already present.
    JoinAccepted { members: Vec<MemberInfo> },
    /// Reply to a refused join; the connection closes after it.
    JoinRejected { reason: JoinRejectReason },
    /// Sent to every other member when someone joins.
    MemberJoined(MemberInfo),
    /// Sent to every other member when someone leaves.
    MemberLeft { pubkey: String },
    /// A relay forwarded from `from_pubkey`.
    Relayed { from_pubkey: String, blob: String },
}

/// Why a join was refused.
#[derive(Debug, Clone, Copy, PartialEq, Eq, Structural)]
pub enum JoinRejectReason {
    WrongPassword,
    WrongNetworkName,
    UnsupportedVersion,
    AlreadyJoined,
    MalformedJoin,
}

} // verus!
