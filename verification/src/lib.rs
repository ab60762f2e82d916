//! Gossip state machine of the bitfield distribution subsystem.
//!
//! A validator node gossips its own signed availability bitfield for each
//! active relay parent, receives bitfields gossiped by peers, validates
//! them, delivers valid ones to the block provisioner and re-gossips them
//! to interested peers, and reports reputation deltas for misbehaving
//! peers. This crate holds the state (the [`tracker::Tracker`]) and the
//! decision logic: which message to send to which peer on each inbound
//! event, and what reputation delta to apply. The surrounding event loop
//! and the message bus are left to the embedder, which performs the
//! [`primitives::Action`]s the handlers return.
pub mod alist;
pub mod codec;
pub mod crypto;
pub mod engine;
pub mod laws;
pub mod tracker;
pub mod primitives;

use vstd::prelude::*;

verus! {

/// The bitfield distribution subsystem.
pub struct BitfieldDistribution;

impl BitfieldDistribution {
    /// The protocol identifier for bitfield distribution, the ASCII
    /// bytes of "bitd".
    pub fn protocol_id() -> (r: Vec<u8>)
        ensures
            r@ == crate::primitives::protocol_id_spec(),
    {
        crate::primitives::protocol_id()
    }
}

} // verus!
