//! Reliability channels and packet headers.
use vstd::prelude::*;

verus! {

/// The delivery contract a sender picks for a packet.
#[derive(Clone, Copy, Debug, PartialEq, Eq, Structural)]
pub enum Reliability {
    Unreliable,
    UnreliableSequenced,
    Reliable,
    ReliableOrdered,
}

/// Header of a decoded packet: its channel and its per-channel sequence id.
#[derive(Clone, Copy, Debug, PartialEq, Eq, Structural)]
pub struct PacketHeaders {
    pub reliability: Reliability,
    pub id: u64,
}

/// The tag byte that stands for a channel on the wire.
pub open spec fn reliability_tag(r: Reliability) -> u8 {
    match r {
        Reliability::Unreliable => 0,
        Reliability::UnreliableSequenced => 1,
        Reliability::Reliable => 2,
        Reliability::ReliableOrdered => 3,
    }
}

/// Whether a channel acknowledges every receipt.
pub open spec fn is_acknowledged(r: Reliability) -> bool {
    r == Reliability::Reliable || r == Reliability::ReliableOrdered
}

/// The wire tag byte of a channel.
pub fn get_reliability_byte(reliability: &Reliability) -> (r: u8)
    ensures
        r == reliability_tag(*reliability),
{
    match reliability {
        Reliability::Unreliable => 0,
        Reliability::UnreliableSequenced => 1,
        Reliability::Reliable => 2,
        Reliability::ReliableOrdered => 3,
    }
}

} // verus!
