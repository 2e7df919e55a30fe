//! The acknowledgment datagram owed for every receipt on a reliable channel.
use vstd::prelude::*;
use vstd::arithmetic::div_mod::{lemma_breakdown, lemma_small_mod};
use crate::reliability::{
    get_reliability_byte, is_acknowledged, reliability_tag, PacketHeaders, Reliability,
};

verus! {

/// Envelope header byte of an acknowledgment datagram: acks themselves travel
/// on the unreliable channel.
pub const ACK_ENVELOPE: u8 = 0;

/// Packet-type discriminator of an acknowledgment.
pub const ACK_PACKET_TYPE: u8 = 1;

/// The `n` low bytes of `v`, least significant first.
pub open spec fn le_bytes(v: nat, n: nat) -> Seq<u8>
    decreases n,
{
    if n == 0 {
        Seq::empty()
    } else {
        seq![(v % 256) as u8] + le_bytes(v / 256, (n - 1) as nat)
    }
}

/// The number that little-endian bytes stand for.
pub open spec fn le_value(s: Seq<u8>) -> nat
    decreases s.len(),
{
    if s.len() == 0 {
        0
    } else {
        s[0] as nat + 256 * le_value(s.drop_first())
    }
}

/// `256` to the power `n`.
pub open spec fn byte_base(n: nat) -> nat
    decreases n,
{
    if n == 0 {
        1
    } else {
        256 * byte_base((n - 1) as nat)
    }
}

/// The acknowledgment datagram for a packet: envelope byte, ack discriminator,
/// the packet's channel tag, then its sequence id as eight little-endian bytes.
pub open spec fn ack_bytes(h: PacketHeaders) -> Seq<u8> {
    seq![ACK_ENVELOPE, ACK_PACKET_TYPE, reliability_tag(h.reliability)] + le_bytes(h.id as nat, 8)
}

proof fn lemma_le_bytes_len(v: nat, n: nat)
    ensures
        le_bytes(v, n).len() == n,
    decreases n,
{
    if n > 0 {
        lemma_le_bytes_len(v / 256, (n - 1) as nat);
    }
}

proof fn lemma_byte_base_pos(n: nat)
    ensures
        byte_base(n) > 0,
    decreases n,
{
    if n > 0 {
        lemma_byte_base_pos((n - 1) as nat);
    }
}

proof fn lemma_le_round_trip(v: nat, n: nat)
    ensures
        le_value(le_bytes(v, n)) == v % byte_base(n),
    decreases n,
{
    if n > 0 {
        let rest = le_bytes(v / 256, (n - 1) as nat);
        assert(le_bytes(v, n).drop_first() =~= rest);
        lemma_le_round_trip(v / 256, (n - 1) as nat);
        lemma_byte_base_pos((n - 1) as nat);
        lemma_breakdown(v as int, 256, byte_base((n - 1) as nat) as int);
    }
}

/// An acknowledgment names exactly the packet it answers: it has a fixed
/// length, carries the packet's channel tag, and its last eight bytes read back
/// as the packet's sequence id. So two different headers never share an ack.
pub proof fn lemma_ack_names_packet(h: PacketHeaders, g: PacketHeaders)
    ensures
        ack_bytes(h).len() == 11,
        ack_bytes(h)[2] == reliability_tag(h.reliability),
        le_value(ack_bytes(h).subrange(3, 11)) == h.id,
        ack_bytes(h) == ack_bytes(g) ==> h == g,
{
    lemma_le_bytes_len(h.id as nat, 8);
    lemma_le_bytes_len(g.id as nat, 8);
    assert(ack_bytes(h).subrange(3, 11) =~= le_bytes(h.id as nat, 8));
    assert(ack_bytes(g).subrange(3, 11) =~= le_bytes(g.id as nat, 8));
    lemma_le_round_trip(h.id as nat, 8);
    lemma_le_round_trip(g.id as nat, 8);
    reveal_with_fuel(byte_base, 9);
    assert(byte_base(8) == 0x1_0000_0000_0000_0000nat);
    lemma_small_mod(h.id as nat, byte_base(8));
    lemma_small_mod(g.id as nat, byte_base(8));
    if ack_bytes(h) == ack_bytes(g) {
        assert(ack_bytes(h)[2] == ack_bytes(g)[2]);
        assert(h.reliability == g.reliability);
    }
}

/// Appends the eight little-endian bytes of `v`.
fn push_le_u64(buf: &mut Vec<u8>, v: u64)
    ensures
        final(buf)@ == old(buf)@ + le_bytes(v as nat, 8),
{
    let ghost start = buf@;
    let mut rest: u64 = v;
    let mut i: usize = 0;
    while i < 8
        invariant
            i <= 8,
            buf@ + le_bytes(rest as nat, (8 - i) as nat) == start + le_bytes(v as nat, 8),
        decreases 8 - i,
    {
        let ghost before = buf@;
        let ghost tail = le_bytes((rest / 256) as nat, (8 - i - 1) as nat);
        buf.push((rest % 256) as u8);
        assert(buf@ + tail =~= before + le_bytes(rest as nat, (8 - i) as nat));
        rest = rest / 256;
        i = i + 1;
    }
    assert(buf@ =~= buf@ + le_bytes(rest as nat, 0));
}

/// Encodes the acknowledgment datagram for a packet.
pub fn build_ack(headers: &PacketHeaders) -> (r: Vec<u8>)
    ensures
        r@ == ack_bytes(*headers),
{
    let mut buf: Vec<u8> = Vec::new();
    buf.push(ACK_ENVELOPE);
    buf.push(ACK_PACKET_TYPE);
    buf.push(get_reliability_byte(&headers.reliability));
    push_le_u64(&mut buf, headers.id);
    assert(buf@ =~= ack_bytes(*headers));
    buf
}

/// The acknowledgment owed for a receipt: one datagram naming the packet's id
/// and channel on the Reliable and ReliableOrdered channels, none on the others.
pub fn ack_for(headers: &PacketHeaders) -> (r: Option<Vec<u8>>)
    ensures
        r is Some <==> is_acknowledged(headers.reliability),
        r matches Some(b) ==> b@ == ack_bytes(*headers),
{
    match headers.reliability {
        Reliability::Reliable | Reliability::ReliableOrdered => Some(build_ack(headers)),
        _ => None,
    }
}

} // verus!
