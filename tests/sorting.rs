use packet_sorter::{PacketHeaders, PacketSorter, Reliability};

fn h(reliability: Reliability, id: u64) -> PacketHeaders {
    PacketHeaders { reliability, id }
}

/// Feeds ids on one channel, each with its id as payload, and returns the batches.
fn feed(sorter: &mut PacketSorter<u64>, reliability: Reliability, ids: &[u64]) -> Vec<Vec<u64>> {
    ids.iter()
        .map(|&id| sorter.sort_packet(h(reliability, id), id))
        .collect()
}

#[test]
fn unreliable_delivers_every_packet_in_receipt_order() {
    let mut s = PacketSorter::new();
    let batches = feed(&mut s, Reliability::Unreliable, &[7, 7, 3, 0, u64::MAX, 3]);
    let flat: Vec<u64> = batches.concat();
    assert_eq!(flat, vec![7, 7, 3, 0, u64::MAX, 3]);
    assert!(batches.iter().all(|b| b.len() == 1));
}

#[test]
fn unreliable_sequenced_drops_stale_ids() {
    let mut s = PacketSorter::new();
    let batches = feed(&mut s, Reliability::UnreliableSequenced, &[5, 3, 6]);
    assert_eq!(batches, vec![vec![5], vec![], vec![6]]);
}

#[test]
fn unreliable_sequenced_drops_duplicates_and_accepts_largest_id() {
    let mut s = PacketSorter::new();
    let batches = feed(&mut s, Reliability::UnreliableSequenced, &[0, 0, 9, u64::MAX, u64::MAX, 10]);
    assert_eq!(batches, vec![vec![0], vec![], vec![9], vec![u64::MAX], vec![], vec![]]);
}

#[test]
fn reliable_delivers_each_id_once_in_arrival_order() {
    let mut s = PacketSorter::new();
    let batches = feed(&mut s, Reliability::Reliable, &[0, 2, 1]);
    assert_eq!(batches, vec![vec![0], vec![2], vec![1]]);
    assert_eq!(s.sort_packet(h(Reliability::Reliable, 1), 1), Vec::<u64>::new());
}

#[test]
fn reliable_fills_gaps_in_any_order_and_drops_repeats() {
    let mut s = PacketSorter::new();
    let batches = feed(&mut s, Reliability::Reliable, &[4, 1, 4, 0, 3, 1, 2, 5, 2, 0]);
    assert_eq!(
        batches,
        vec![vec![4], vec![1], vec![], vec![0], vec![3], vec![], vec![2], vec![5], vec![], vec![]]
    );
}

#[test]
fn reliable_accepts_largest_id() {
    let mut s = PacketSorter::new();
    assert_eq!(s.sort_packet(h(Reliability::Reliable, u64::MAX), 1), vec![1]);
    assert_eq!(s.sort_packet(h(Reliability::Reliable, u64::MAX), 2), Vec::<u64>::new());
}

#[test]
fn reliable_ordered_withholds_until_gap_closes() {
    let mut s = PacketSorter::new();
    let batches = feed(&mut s, Reliability::ReliableOrdered, &[0, 2, 1]);
    assert_eq!(batches, vec![vec![0], vec![], vec![1, 2]]);
    assert_eq!(batches.concat(), vec![0, 1, 2]);
}

#[test]
fn reliable_ordered_drains_only_the_contiguous_run() {
    let mut s = PacketSorter::new();
    let batches = feed(&mut s, Reliability::ReliableOrdered, &[3, 1, 5, 0, 2, 4]);
    assert_eq!(batches, vec![vec![], vec![], vec![], vec![0, 1], vec![2, 3], vec![4, 5]]);
}

#[test]
fn reliable_ordered_buffered_duplicate_is_dropped() {
    let mut s = PacketSorter::new();
    assert_eq!(s.sort_packet(h(Reliability::ReliableOrdered, 2), 20), Vec::<u64>::new());
    assert_eq!(s.sort_packet(h(Reliability::ReliableOrdered, 2), 21), Vec::<u64>::new());
    assert_eq!(s.sort_packet(h(Reliability::ReliableOrdered, 1), 10), Vec::<u64>::new());
    assert_eq!(s.sort_packet(h(Reliability::ReliableOrdered, 0), 0), vec![0, 10, 20]);
}

#[test]
fn reliable_ordered_stale_id_is_judged_by_its_own_watermark() {
    let mut s = PacketSorter::new();
    feed(&mut s, Reliability::ReliableOrdered, &[0, 1, 2, 3, 4]);
    // The Reliable channel is still at 0: a stale ordered id must not be buffered.
    assert_eq!(s.sort_packet(h(Reliability::ReliableOrdered, 3), 3), Vec::<u64>::new());
    assert_eq!(s.sort_packet(h(Reliability::ReliableOrdered, 5), 5), vec![5]);
    assert_eq!(s.sort_packet(h(Reliability::ReliableOrdered, 6), 6), vec![6]);
}

#[test]
fn reliable_ordered_any_permutation_delivers_in_order() {
    let perms: Vec<Vec<u64>> = vec![
        vec![],
        vec![0],
        vec![4, 3, 2, 1, 0],
        vec![1, 0, 3, 2, 5, 4],
        vec![6, 0, 5, 1, 4, 2, 3],
        vec![2, 7, 0, 6, 1, 5, 3, 4],
    ];
    for p in perms {
        let mut s = PacketSorter::new();
        let flat = feed(&mut s, Reliability::ReliableOrdered, &p).concat();
        let expected: Vec<u64> = (0..p.len() as u64).collect();
        assert_eq!(flat, expected);
    }
}

#[test]
fn redelivery_after_processing_delivers_nothing() {
    for r in [Reliability::Reliable, Reliability::ReliableOrdered] {
        let mut s = PacketSorter::new();
        let first = feed(&mut s, r, &[0, 3, 1, 2, 6]).concat();
        for id in [0, 1, 2, 3, 6] {
            assert_eq!(s.sort_packet(h(r, id), 100 + id), Vec::<u64>::new());
        }
        assert!(first.len() >= 4);
    }
}

#[test]
fn channels_do_not_share_state() {
    let mut s = PacketSorter::new();
    assert_eq!(s.sort_packet(h(Reliability::Reliable, 5), 1), vec![1]);
    assert_eq!(s.sort_packet(h(Reliability::UnreliableSequenced, 2), 2), vec![2]);
    assert_eq!(s.sort_packet(h(Reliability::ReliableOrdered, 0), 3), vec![3]);
    assert_eq!(s.sort_packet(h(Reliability::Reliable, 0), 4), vec![4]);
}

#[test]
fn payloads_move_through_unchanged() {
    let mut s: PacketSorter<String> = PacketSorter::new();
    assert!(s.sort_packet(h(Reliability::ReliableOrdered, 1), "b".to_string()).is_empty());
    assert_eq!(
        s.sort_packet(h(Reliability::ReliableOrdered, 0), "a".to_string()),
        vec!["a".to_string(), "b".to_string()]
    );
}

#[test]
fn reliable_huge_gap_is_tracked_and_filled() {
    let mut s = PacketSorter::new();
    let batches = feed(&mut s, Reliability::Reliable, &[u64::MAX, 5, 5, 0, u64::MAX - 1, 0]);
    assert_eq!(batches, vec![vec![u64::MAX], vec![5], vec![], vec![0], vec![u64::MAX - 1], vec![]]);
    assert_eq!(s.sort_packet(h(Reliability::Reliable, 6), 6), vec![6]);
    assert_eq!(s.sort_packet(h(Reliability::Reliable, 4), 4), vec![4]);
}
