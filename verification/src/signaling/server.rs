//! The host side of networked signaling: starting a network directly or
//! through a relay.
use vstd::prelude::*;

use crate::relay_protocol::ServerFrame;

verus! {

/// Why a network could not be started.
#[derive(Debug, Clone)]
pub enum SignalingError {
    /// The listener could not be bound; the system's message.
    Bind(String),
    /// The relay could not be reached; the system's message.
    RelayConnect(String),
    RelayRejected(String),
    RelayMalformedReply,
}

/// The relay's reply to a host's `REGISTER`: registered, refused, or nonsense.
pub fn registration_outcome(reply: Option<ServerFrame>) -> (r: Result<(), SignalingError>)
    ensures
        reply matches Some(ServerFrame::Okay) ==> r is Ok,
        reply matches Some(ServerFrame::Error { message }) ==> r == Err::<(), SignalingError>(SignalingError::RelayRejected(message)),
        !(reply matches Some(ServerFrame::Okay) || reply matches Some(ServerFrame::Error { .. })) ==> (r matches Err(SignalingError::RelayMalformedReply)),
{
    match reply {
        Some(ServerFrame::Okay) => Ok(()),
        Some(ServerFrame::Error { message }) => Err(SignalingError::RelayRejected(message)),
        _ => Err(SignalingError::RelayMalformedReply),
    }
}

} // verus!
