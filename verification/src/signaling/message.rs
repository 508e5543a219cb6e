//! The offer/answer envelope carried inside a blob. Every value in it is
//! public; authenticity comes from the handshake, not from here.
use vstd::prelude::*;

verus! {

/// Current signaling envelope version.
pub const PROTOCOL_VERSION: u32 = 1;

/// Which half of the exchange an envelope is.
#[derive(Debug, Clone, Copy, PartialEq, Eq, Structural)]
pub enum SignalKind {
    Offer,
    Answer,
}

/// The upper-case label of a kind, as embedded in a blob's prefix.
pub open spec fn kind_label(k: SignalKind) -> Seq<char> {
    match k {
        SignalKind::Offer => "OFFER"@,
        SignalKind::Answer => "ANSWER"@,
    }
}

impl SignalKind {
    /// The upper-case label embedded in the blob prefix (`PCPV1.OFFER.…`).
    pub fn label(&self) -> (s: &'static str)
        ensures
            s@ == kind_label(*self),
    {
        match self {
            SignalKind::Offer => "OFFER",
            SignalKind::Answer => "ANSWER",
        }
    }
}

/// One candidate endpoint on the wire: its address text and kind name.
#[derive(Debug, Clone, PartialEq, Eq)]
pub struct WireCandidate {
    /// Socket address, e.g. `203.0.113.5:51820`.
    pub a: String,
    /// Candidate kind: `host` or `reflexive`.
    pub k: String,
}

/// The full signaling payload.
#[derive(Debug, Clone, PartialEq, Eq)]
pub struct SignalEnvelope {
    pub v: u32,
    pub kind: SignalKind,
    /// Base64 16-byte session id, shared by an offer and its answer.
    pub sid: String,
    /// Base64 32-byte X25519 public key.
    pub pk: String,
    pub cands: Vec<WireCandidate>,
}

} // verus!
