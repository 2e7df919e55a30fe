use packet_sorter::{
    ack_for, build_ack, get_reliability_byte, PacketHeaders, Reliability, ACK_ENVELOPE,
    ACK_PACKET_TYPE,
};

#[test]
fn reliability_tags() {
    assert_eq!(get_reliability_byte(&Reliability::Unreliable), 0);
    assert_eq!(get_reliability_byte(&Reliability::UnreliableSequenced), 1);
    assert_eq!(get_reliability_byte(&Reliability::Reliable), 2);
    assert_eq!(get_reliability_byte(&Reliability::ReliableOrdered), 3);
}

#[test]
fn ack_carries_tag_and_little_endian_id() {
    let headers = PacketHeaders { reliability: Reliability::ReliableOrdered, id: 0x0102_0304_0506_0708 };
    assert_eq!(
        build_ack(&headers),
        vec![ACK_ENVELOPE, ACK_PACKET_TYPE, 3, 8, 7, 6, 5, 4, 3, 2, 1]
    );
}

#[test]
fn ack_of_extreme_ids() {
    let zero = PacketHeaders { reliability: Reliability::Reliable, id: 0 };
    assert_eq!(build_ack(&zero), vec![0, 1, 2, 0, 0, 0, 0, 0, 0, 0, 0]);
    let max = PacketHeaders { reliability: Reliability::Reliable, id: u64::MAX };
    assert_eq!(build_ack(&max), vec![0, 1, 2, 255, 255, 255, 255, 255, 255, 255, 255]);
}

#[test]
fn only_reliable_channels_are_acknowledged() {
    for (r, owed) in [
        (Reliability::Unreliable, false),
        (Reliability::UnreliableSequenced, false),
        (Reliability::Reliable, true),
        (Reliability::ReliableOrdered, true),
    ] {
        let headers = PacketHeaders { reliability: r, id: 300 };
        let ack = ack_for(&headers);
        assert_eq!(ack.is_some(), owed);
        if let Some(bytes) = ack {
            assert_eq!(bytes, build_ack(&headers));
            assert_eq!(bytes[2], get_reliability_byte(&r));
            assert_eq!(&bytes[3..], &300u64.to_le_bytes());
        }
    }
}
