//! Signaling: the offer/answer envelope, its paste-robust blob framing, the
//! networked-signaling wire types, and the host's membership roster.
pub mod message;
pub mod protocol;
pub mod blob;
pub mod roster;
pub mod client;
pub mod server;
