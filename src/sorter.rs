//! The per-peer packet sorter.
use vstd::prelude::*;
use crate::model::{
    buffered, id_range, initial_state, insert_pos, lemma_insert_pos, lemma_run_len, lemma_step_valid, payloads,
    run_len, step, valid, BackedUpPacket, SorterState,
};
use crate::reliability::{PacketHeaders, Reliability};

verus! {

/// Receive-side state of one peer: classifies, deduplicates, reorders and
/// buffers inbound packets by channel.
pub struct PacketSorter<P> {
    next_reliable: u128,
    next_unreliable_sequenced: u128,
    next_reliable_ordered: u128,
    missing_reliable: Vec<(u64, u64)>,
    backed_up_ordered_packets: Vec<BackedUpPacket<P>>,
}

/// Whether `x` lies in one of the half-open ranges.
spec fn in_ranges(r: Seq<(u64, u64)>, x: u64) -> bool {
    exists|i: int| 0 <= i < r.len() && (#[trigger] r[i]).0 <= x < r[i].1
}

/// The ids that the ranges cover.
spec fn ranges_set(r: Seq<(u64, u64)>) -> Set<u64> {
    Set::new(|x: u64| in_ranges(r, x))
}

/// Each range ends at or before the next one starts.
spec fn ranges_ascending(r: Seq<(u64, u64)>) -> bool {
    forall|i: int, j: int| 0 <= i < j < r.len() ==> (#[trigger] r[i]).1 <= (#[trigger] r[j]).0
}

/// Ascending, non-empty ranges that end at or below `bound`.
spec fn ranges_wf(r: Seq<(u64, u64)>, bound: int) -> bool {
    &&& ranges_ascending(r)
    &&& forall|i: int| 0 <= i < r.len() ==> (#[trigger] r[i]).0 < r[i].1 <= bound
}

proof fn lemma_ranges_concat(a: Seq<(u64, u64)>, b: Seq<(u64, u64)>)
    ensures
        forall|x: u64| #[trigger] in_ranges(a + b, x) <==> (in_ranges(a, x) || in_ranges(b, x)),
{
    assert forall|x: u64| #[trigger] in_ranges(a + b, x) <==> (in_ranges(a, x) || in_ranges(b, x)) by {
        if in_ranges(a + b, x) {
            let i = choose|i: int| 0 <= i < (a + b).len() && (#[trigger] (a + b)[i]).0 <= x < (a
                + b)[i].1;
            if i < a.len() {
                assert(a[i] == (a + b)[i]);
            } else {
                assert(b[i - a.len()] == (a + b)[i]);
            }
        }
        if in_ranges(a, x) {
            let i = choose|i: int| 0 <= i < a.len() && (#[trigger] a[i]).0 <= x < a[i].1;
            assert((a + b)[i] == a[i]);
        }
        if in_ranges(b, x) {
            let i = choose|i: int| 0 <= i < b.len() && (#[trigger] b[i]).0 <= x < b[i].1;
            assert((a + b)[a.len() + i] == b[i]);
        }
    }
}

proof fn lemma_sorted_concat(a: Seq<(u64, u64)>, b: Seq<(u64, u64)>)
    requires
        ranges_ascending(a),
        ranges_ascending(b),
        forall|i: int, j: int|
            0 <= i < a.len() && 0 <= j < b.len() ==> (#[trigger] a[i]).1 <= (#[trigger] b[j]).0,
    ensures
        ranges_ascending(a + b),
{
    assert forall|i: int, j: int| 0 <= i < j < (a + b).len() implies (#[trigger] (a + b)[i]).1 <= (
    #[trigger] (a + b)[j]).0 by {
        if j < a.len() {
            assert((a + b)[i] == a[i] && (a + b)[j] == a[j]);
        } else if i >= a.len() {
            assert((a + b)[i] == b[i - a.len()] && (a + b)[j] == b[j - a.len()]);
        } else {
            assert((a + b)[i] == a[i] && (a + b)[j] == b[j - a.len()]);
        }
    }
}

impl<P> View for PacketSorter<P> {
    type V = SorterState<P>;

    closed spec fn view(&self) -> SorterState<P> {
        SorterState {
            next_reliable: self.next_reliable as int,
            next_unreliable_sequenced: self.next_unreliable_sequenced as int,
            next_reliable_ordered: self.next_reliable_ordered as int,
            missing_reliable: ranges_set(self.missing_reliable@),
            backed_up: self.backed_up_ordered_packets@,
        }
    }
}

impl<P> PacketSorter<P> {
    /// The model's invariants, and missing ids held as ascending, disjoint,
    /// non-empty ranges below the Reliable watermark.
    pub closed spec fn wf(&self) -> bool {
        valid(self@) && ranges_wf(self.missing_reliable@, self.next_reliable as int)
    }

    /// A sorter for a newly connected peer.
    pub fn new() -> (r: Self)
        ensures
            r.wf(),
            r@ == initial_state::<P>(),
    {
        let r = PacketSorter {
            next_reliable: 0,
            next_unreliable_sequenced: 0,
            next_reliable_ordered: 0,
            missing_reliable: Vec::new(),
            backed_up_ordered_packets: Vec::new(),
        };
        assert(r@.missing_reliable =~= Set::<u64>::empty());
        assert(r@ =~= initial_state::<P>());
        r
    }

    /// Handles one decoded packet and returns the payloads now due to the
    /// application, in delivery order. Unreliable packets pass straight
    /// through; UnreliableSequenced ones pass only when no later id has;
    /// Reliable ones pass once per id, in arrival order; ReliableOrdered ones
    /// pass once per id, in ascending id order with no gap.
    ///
    /// The acknowledgment that a reliable receipt owes (see `ack_for`) is sent
    /// by the caller before this is called, so that a failed send leaves the
    /// sorter as it was.
    pub fn sort_packet(&mut self, headers: PacketHeaders, packet: P) -> (r: Vec<P>)
        requires
            old(self).wf(),
        ensures
            final(self).wf(),
            (final(self)@, r@) == step(old(self)@, headers, packet),
    {
        proof {
            lemma_step_valid(self@, headers, packet);
        }
        match headers.reliability {
            Reliability::Unreliable => {
                let mut out: Vec<P> = Vec::new();
                out.push(packet);
                assert(out@ =~= seq![packet]);
                out
            },
            Reliability::UnreliableSequenced => {
                let mut out: Vec<P> = Vec::new();
                if (headers.id as u128) >= self.next_unreliable_sequenced {
                    self.next_unreliable_sequenced = headers.id as u128 + 1;
                    out.push(packet);
                    assert(out@ =~= seq![packet]);
                }
                out
            },
            Reliability::Reliable => self.sort_reliable(headers.id, packet),
            Reliability::ReliableOrdered => self.sort_reliable_ordered(headers.id, packet),
        }
    }

    /// A Reliable receipt: delivered unless its id was already seen.
    fn sort_reliable(&mut self, id: u64, packet: P) -> (r: Vec<P>)
        requires
            old(self).wf(),
        ensures
            ranges_wf(final(self).missing_reliable@, final(self).next_reliable as int),
            (final(self)@, r@) == step(
                old(self)@,
                PacketHeaders { reliability: Reliability::Reliable, id },
                packet,
            ),
    {
        let ghost h = PacketHeaders { reliability: Reliability::Reliable, id };
        let ghost before = self@;
        let ghost prev = self.missing_reliable@;
        let mut out: Vec<P> = Vec::new();
        if id as u128 == self.next_reliable {
            self.next_reliable = self.next_reliable + 1;
            out.push(packet);
            assert(self@ == step(before, h, packet).0);
        } else if id as u128 > self.next_reliable {
            let lo: u64 = self.next_reliable as u64;
            let mut gap: Vec<(u64, u64)> = Vec::new();
            gap.push((lo, id));
            proof {
                lemma_ranges_concat(prev, gap@);
                lemma_sorted_concat(prev, gap@);
            }
            self.missing_reliable.append(&mut gap);
            self.next_reliable = id as u128 + 1;
            out.push(packet);
            assert forall|x: u64| #[trigger] in_ranges(seq![(lo, id)], x) <==> lo <= x < id by {
                if lo <= x < id {
                    assert(seq![(lo, id)][0] == (lo, id));
                }
            }
            assert(self@.missing_reliable =~= before.missing_reliable + id_range(lo as int, id as int));
            assert(self@ == step(before, h, packet).0);
        } else {
            let mut i: usize = 0;
            while i < self.missing_reliable.len() && !(self.missing_reliable[i].0 <= id && id
                < self.missing_reliable[i].1)
                invariant
                    self.missing_reliable@ == prev,
                    i <= prev.len(),
                    forall|j: int| 0 <= j < i ==> !((#[trigger] prev[j]).0 <= id < prev[j].1),
                decreases prev.len() - i,
            {
                i = i + 1;
            }
            if i < self.missing_reliable.len() {
                let (lo, hi) = self.missing_reliable[i];
                let mut rest = self.missing_reliable.split_off(i + 1);
                self.missing_reliable.pop();
                let mut pieces: Vec<(u64, u64)> = Vec::new();
                if lo < id {
                    pieces.push((lo, id));
                }
                if id + 1 < hi {
                    pieces.push((id + 1, hi));
                }
                proof {
                    let head = prev.take(i as int);
                    let tail = prev.subrange(i + 1, prev.len() as int);
                    let one = seq![(lo, hi)];
                    assert(prev =~= head + one + tail);
                    assert(self.missing_reliable@ =~= head);
                    lemma_ranges_concat(head, one);
                    lemma_ranges_concat(head + one, tail);
                    lemma_ranges_concat(head, pieces@);
                    lemma_ranges_concat(head + pieces@, tail);
                    assert forall|x: u64| #[trigger] in_ranges(pieces@, x) <==> (lo <= x < hi && x
                        != id) by {
                        if in_ranges(pieces@, x) {
                            let j = choose|j: int|
                                0 <= j < pieces@.len() && (#[trigger] pieces@[j]).0 <= x
                                    < pieces@[j].1;
                        }
                        if lo <= x < id {
                            assert(pieces@[0] == (lo, id));
                        }
                        if id < x < hi {
                            assert(pieces@[pieces@.len() - 1] == ((id + 1) as u64, hi));
                        }
                    }
                    assert forall|x: u64| #[trigger] in_ranges(one, x) <==> lo <= x < hi by {
                        if lo <= x < hi {
                            assert(one[0] == (lo, hi));
                        }
                    }
                    assert(!in_ranges(head, id)) by {
                        if in_ranges(head, id) {
                            let j = choose|j: int|
                                0 <= j < head.len() && (#[trigger] head[j]).0 <= id < head[j].1;
                            assert(prev[j].1 <= prev[i as int].0);
                        }
                    }
                    assert(!in_ranges(tail, id)) by {
                        if in_ranges(tail, id) {
                            let j = choose|j: int|
                                0 <= j < tail.len() && (#[trigger] tail[j]).0 <= id < tail[j].1;
                            assert(prev[i as int].1 <= prev[i + 1 + j].0);
                        }
                    }
                    assert forall|a: int, b: int|
                        0 <= a < head.len() && 0 <= b < pieces@.len() implies (#[trigger] head[a]).1
                        <= (#[trigger] pieces@[b]).0 by {
                        assert(prev[a].1 <= prev[i as int].0);
                    }
                    assert forall|a: int, b: int|
                        0 <= a < (head + pieces@).len() && 0 <= b < tail.len() implies (#[trigger] (
                        head + pieces@)[a]).1 <= (#[trigger] tail[b]).0 by {
                        assert(prev[i as int].1 <= prev[i + 1 + b].0);
                        if a < head.len() {
                            assert(prev[a].1 <= prev[i + 1 + b].0);
                        }
                    }
                    assert(ranges_wf(head, self.next_reliable as int));
                    lemma_sorted_concat(head, pieces@);
                    lemma_sorted_concat(head + pieces@, tail);
                }
                self.missing_reliable.append(&mut pieces);
                self.missing_reliable.append(&mut rest);
                assert(self@.missing_reliable =~= before.missing_reliable.remove(id));
                out.push(packet);
                assert(self@ == step(before, h, packet).0);
            } else {
                assert(!before.missing_reliable.contains(id)) by {
                    if in_ranges(prev, id) {
                        let j = choose|j: int|
                            0 <= j < prev.len() && (#[trigger] prev[j]).0 <= id < prev[j].1;
                    }
                }
            }
        }
        assert(out@ =~= step(before, h, packet).1);
        out
    }

    /// A ReliableOrdered receipt: the expected id is delivered together with
    /// the buffered run that it completes; a later id is withheld; anything
    /// else is dropped.
    fn sort_reliable_ordered(&mut self, id: u64, packet: P) -> (r: Vec<P>)
        requires
            old(self).wf(),
        ensures
            final(self).missing_reliable == old(self).missing_reliable,
            (final(self)@, r@) == step(
                old(self)@,
                PacketHeaders { reliability: Reliability::ReliableOrdered, id },
                packet,
            ),
    {
        let ghost h = PacketHeaders { reliability: Reliability::ReliableOrdered, id };
        let ghost before = self@;
        let ghost buf = self.backed_up_ordered_packets@;
        let mut out: Vec<P> = Vec::new();
        if id as u128 == self.next_reliable_ordered {
            let mut k: usize = 0;
            let mut next: u128 = id as u128 + 1;
            while k < self.backed_up_ordered_packets.len()
                && self.backed_up_ordered_packets[k].id as u128 == next
                invariant
                    self.backed_up_ordered_packets@ == buf,
                    k <= buf.len(),
                    next == id + 1 + k,
                    forall|j: int| 0 <= j < k ==> (#[trigger] buf[j]).id == id + 1 + j,
                decreases buf.len() - k,
            {
                k = k + 1;
                next = next + 1;
            }
            proof {
                lemma_run_len(buf, id + 1);
                let n = run_len(buf, id + 1) as int;
                if n < k {
                    assert(buf[n].id == id + 1 + n);
                }
                if k < n {
                    assert(buf[k as int].id == id + 1 + k);
                }
            }
            let mut drained = self.backed_up_ordered_packets.split_off(k);
            std::mem::swap(&mut self.backed_up_ordered_packets, &mut drained);
            self.next_reliable_ordered = next;
            out.push(packet);
            let ghost first = out@;
            let ghost taken = drained@;
            assert(taken == buf.take(k as int));
            while drained.len() > 0
                invariant
                    drained@.len() <= taken.len(),
                    drained@ == taken.subrange(taken.len() - drained@.len(), taken.len() as int),
                    out@ == first + payloads(taken.take(taken.len() - drained@.len())),
                decreases drained@.len(),
            {
                let ghost moved = taken.len() - drained@.len();
                let b = drained.remove(0);
                out.push(b.packet);
                assert(taken.take(moved + 1) =~= taken.take(moved).push(b));
                assert(payloads(taken.take(moved + 1)) =~= payloads(taken.take(moved)).push(
                    b.packet,
                ));
            }
            assert(taken.take(taken.len() as int) =~= taken);
        } else if id as u128 > self.next_reliable_ordered {
            let mut i: usize = 0;
            while i < self.backed_up_ordered_packets.len() && self.backed_up_ordered_packets[i].id
                < id
                invariant
                    self.backed_up_ordered_packets@ == buf,
                    i <= buf.len(),
                    forall|j: int| 0 <= j < i ==> (#[trigger] buf[j]).id < id,
                decreases buf.len() - i,
            {
                i = i + 1;
            }
            proof {
                lemma_insert_pos(buf, id);
                let n = insert_pos(buf, id) as int;
                if n < i {
                    assert(buf[n].id < id);
                }
                if i < n {
                    assert(buf[i as int].id < id);
                }
            }
            if i < self.backed_up_ordered_packets.len() && self.backed_up_ordered_packets[i].id
                == id {
                assert(buffered(buf, id));
            } else {
                assert(!buffered(buf, id)) by {
                    if buffered(buf, id) {
                        let j = choose|j: int| 0 <= j < buf.len() && (#[trigger] buf[j]).id == id;
                        if j > i {
                            assert(buf[i as int].id < buf[j].id);
                        }
                    }
                }
                self.backed_up_ordered_packets.insert(i, BackedUpPacket { id, packet });
            }
        }
        assert(out@ =~= step(before, h, packet).1);
        out
    }
}

} // verus!
