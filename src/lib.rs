//! Receive-side reliability for a datagram transport: one `PacketSorter` per
//! peer classifies, deduplicates, reorders and buffers inbound packets by
//! reliability channel, and `ack_for` builds the acknowledgment datagram that a
//! reliable receipt owes the sender.
pub mod ack;
pub mod laws;
pub mod model;
pub mod reliability;
pub mod sorter;

pub use ack::{ack_for, build_ack, ACK_ENVELOPE, ACK_PACKET_TYPE};
pub use model::BackedUpPacket;
pub use reliability::{get_reliability_byte, PacketHeaders, Reliability};
pub use sorter::PacketSorter;
