//! Forward error correction over the inner IP plaintext.
//!
//! Each member of a group is length-prefixed and zero-padded to the group's
//! longest packet (`[len: u16 BE] ++ payload ++ zeros`) before coding, so a
//! recovered member comes back with its original length.

pub mod xor;
pub mod shard;
pub mod rs;
pub mod delivery;
