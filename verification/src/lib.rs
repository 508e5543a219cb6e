//! Verified core of a peer-to-peer gaming virtual LAN: anti-replay, forward
//! error correction, split-tunnel policy, wire codecs and the decision logic
//! of the signaling, relay and mesh layers.

pub mod replay;
pub mod fec;
pub mod bytes;
pub mod split_tunnel;
pub mod text;
pub mod relay_protocol;
pub mod packet_log;
pub mod pipeline;
pub mod crypto;
pub mod engine;
pub mod connection;
pub mod candidate;
pub mod addr_case;
pub mod signaling;
pub mod strmap;
pub mod mesh;
pub mod helper;
pub mod stun;
pub mod relay_server;
pub mod handshake;
pub mod state;
pub mod datapath;
