//! The mathematical model of a per-peer sorter: its state, one receipt as a
//! transition of that state, and a run of receipts.
use vstd::prelude::*;
use crate::reliability::{PacketHeaders, Reliability};

verus! {

/// A ReliableOrdered packet withheld until its predecessors arrive.
pub struct BackedUpPacket<P> {
    pub id: u64,
    pub packet: P,
}

/// What a sorter knows about one peer's channels.
pub ghost struct SorterState<P> {
    /// Smallest Reliable id above every id seen so far.
    pub next_reliable: int,
    /// One past the highest UnreliableSequenced id delivered.
    pub next_unreliable_sequenced: int,
    /// The ReliableOrdered id the application waits for.
    pub next_reliable_ordered: int,
    /// Reliable ids below `next_reliable` that were skipped and not seen yet.
    pub missing_reliable: Set<u64>,
    /// Withheld ReliableOrdered packets, in ascending id order.
    pub backed_up: Seq<BackedUpPacket<P>>,
}

/// The state of a sorter for a newly connected peer.
pub open spec fn initial_state<P>() -> SorterState<P> {
    SorterState {
        next_reliable: 0,
        next_unreliable_sequenced: 0,
        next_reliable_ordered: 0,
        missing_reliable: Set::empty(),
        backed_up: Seq::empty(),
    }
}

/// Whether a packet with this id is withheld in the buffer.
pub open spec fn buffered<P>(buf: Seq<BackedUpPacket<P>>, id: u64) -> bool {
    exists|j: int| 0 <= j < buf.len() && (#[trigger] buf[j]).id == id
}

/// Ids in the buffer strictly ascend.
pub open spec fn strictly_ascending<P>(buf: Seq<BackedUpPacket<P>>) -> bool {
    forall|i: int, j: int| 0 <= i < j < buf.len() ==> (#[trigger] buf[i]).id < (#[trigger] buf[j]).id
}

/// The invariants every reachable state keeps.
pub open spec fn valid<P>(s: SorterState<P>) -> bool {
    &&& 0 <= s.next_reliable <= u64::MAX + 1
    &&& 0 <= s.next_unreliable_sequenced <= u64::MAX + 1
    &&& 0 <= s.next_reliable_ordered <= u64::MAX + 1
    &&& forall|x: u64| #[trigger] s.missing_reliable.contains(x) ==> x < s.next_reliable
    &&& strictly_ascending(s.backed_up)
    &&& forall|j: int| 0 <= j < s.backed_up.len() ==> (#[trigger] s.backed_up[j]).id > s.next_reliable_ordered
}

/// How many buffered packets, from the front, continue `next` without a gap.
pub open spec fn run_len<P>(buf: Seq<BackedUpPacket<P>>, next: int) -> nat
    decreases buf.len(),
{
    if buf.len() > 0 && buf[0].id == next {
        1 + run_len(buf.drop_first(), next + 1)
    } else {
        0
    }
}

/// Where a packet with this id goes to keep the buffer ascending: past every
/// smaller id.
pub open spec fn insert_pos<P>(buf: Seq<BackedUpPacket<P>>, id: u64) -> nat
    decreases buf.len(),
{
    if buf.len() > 0 && buf[0].id < id {
        1 + insert_pos(buf.drop_first(), id)
    } else {
        0
    }
}

/// The payloads of buffered packets, in buffer order.
pub open spec fn payloads<P>(buf: Seq<BackedUpPacket<P>>) -> Seq<P> {
    buf.map_values(|b: BackedUpPacket<P>| b.packet)
}

/// Ids in `[lo, hi)`.
pub open spec fn id_range(lo: int, hi: int) -> Set<u64> {
    Set::new(|x: u64| lo <= x < hi)
}

/// One receipt: the next state and the payloads delivered, in order.
pub open spec fn step<P>(s: SorterState<P>, h: PacketHeaders, p: P) -> (SorterState<P>, Seq<P>) {
    let id = h.id as int;
    match h.reliability {
        Reliability::Unreliable => (s, seq![p]),
        Reliability::UnreliableSequenced => {
            if id < s.next_unreliable_sequenced {
                (s, Seq::empty())
            } else {
                (SorterState { next_unreliable_sequenced: id + 1, ..s }, seq![p])
            }
        },
        Reliability::Reliable => {
            if id == s.next_reliable {
                (SorterState { next_reliable: id + 1, ..s }, seq![p])
            } else if id > s.next_reliable {
                (
                    SorterState {
                        next_reliable: id + 1,
                        missing_reliable: s.missing_reliable + id_range(s.next_reliable, id),
                        ..s
                    },
                    seq![p],
                )
            } else if s.missing_reliable.contains(h.id) {
                (SorterState { missing_reliable: s.missing_reliable.remove(h.id), ..s }, seq![p])
            } else {
                (s, Seq::empty())
            }
        },
        Reliability::ReliableOrdered => {
            if id == s.next_reliable_ordered {
                let k = run_len(s.backed_up, id + 1);
                (
                    SorterState {
                        next_reliable_ordered: id + 1 + k,
                        backed_up: s.backed_up.subrange(k as int, s.backed_up.len() as int),
                        ..s
                    },
                    seq![p] + payloads(s.backed_up.take(k as int)),
                )
            } else if id > s.next_reliable_ordered && !buffered(s.backed_up, h.id) {
                let e = BackedUpPacket { id: h.id, packet: p };
                (
                    SorterState {
                        backed_up: s.backed_up.insert(insert_pos(s.backed_up, h.id) as int, e),
                        ..s
                    },
                    Seq::empty(),
                )
            } else {
                (s, Seq::empty())
            }
        },
    }
}

/// Receipts handled one after another: the final state and every delivered
/// payload, batches concatenated in call order.
pub open spec fn run<P>(s: SorterState<P>, inputs: Seq<(PacketHeaders, P)>) -> (
    SorterState<P>,
    Seq<P>,
)
    decreases inputs.len(),
{
    if inputs.len() == 0 {
        (s, Seq::empty())
    } else {
        let before = run(s, inputs.drop_last());
        let last = step(before.0, inputs.last().0, inputs.last().1);
        (last.0, before.1 + last.1)
    }
}

/// The buffered run: `k` continues `next`, and stops at the first gap.
pub proof fn lemma_run_len<P>(buf: Seq<BackedUpPacket<P>>, next: int)
    ensures
        run_len(buf, next) <= buf.len(),
        forall|j: int| 0 <= j < run_len(buf, next) ==> (#[trigger] buf[j]).id == next + j,
        run_len(buf, next) < buf.len() ==> buf[run_len(buf, next) as int].id != next + run_len(
            buf,
            next,
        ),
    decreases buf.len(),
{
    if buf.len() > 0 && buf[0].id == next {
        lemma_run_len(buf.drop_first(), next + 1);
        assert forall|j: int| 0 <= j < run_len(buf, next) implies (#[trigger] buf[j]).id == next
            + j by {
            if j > 0 {
                assert(buf[j] == buf.drop_first()[j - 1]);
            }
        }
    }
}

/// Where an id is inserted: after every smaller id, before the first id that
/// is not smaller.
pub proof fn lemma_insert_pos<P>(buf: Seq<BackedUpPacket<P>>, id: u64)
    ensures
        insert_pos(buf, id) <= buf.len(),
        forall|j: int| 0 <= j < insert_pos(buf, id) ==> (#[trigger] buf[j]).id < id,
        insert_pos(buf, id) < buf.len() ==> buf[insert_pos(buf, id) as int].id >= id,
    decreases buf.len(),
{
    if buf.len() > 0 && buf[0].id < id {
        lemma_insert_pos(buf.drop_first(), id);
        assert forall|j: int| 0 <= j < insert_pos(buf, id) implies (#[trigger] buf[j]).id < id by {
            if j > 0 {
                assert(buf[j] == buf.drop_first()[j - 1]);
            }
        }
    }
}

/// Every receipt keeps the invariants.
pub proof fn lemma_step_valid<P>(s: SorterState<P>, h: PacketHeaders, p: P)
    requires
        valid(s),
    ensures
        valid(step(s, h, p).0),
{
    let id = h.id as int;
    let t = step(s, h, p).0;
    let buf = s.backed_up;
    if h.reliability == Reliability::ReliableOrdered {
        if id == s.next_reliable_ordered {
            lemma_run_len(buf, id + 1);
            let k = run_len(buf, id + 1) as int;
            if k > 0 {
                assert(buf[k - 1].id == id + k);
            }
            assert forall|j: int| 0 <= j < t.backed_up.len() implies (#[trigger] t.backed_up[j]).id
                > t.next_reliable_ordered by {
                assert(t.backed_up[j] == buf[j + k]);
                if k > 0 {
                    assert(buf[k - 1].id < buf[k].id);
                }
                if j > 0 {
                    assert(buf[k].id < buf[j + k].id);
                }
            }
        } else if id > s.next_reliable_ordered && !buffered(buf, h.id) {
            let e = BackedUpPacket { id: h.id, packet: p };
            let pos = insert_pos(buf, h.id) as int;
            lemma_insert_pos(buf, h.id);
            buf.insert_ensures(pos, e);
            if pos < buf.len() {
                assert(buf[pos].id != h.id);
            }
            assert forall|i: int, j: int| 0 <= i < j < t.backed_up.len() implies (
            #[trigger] t.backed_up[i]).id < (#[trigger] t.backed_up[j]).id by {
                if j < pos {
                } else if j == pos {
                } else if i < pos {
                    assert(buf[pos].id <= buf[j - 1].id);
                } else if i == pos {
                    assert(buf[pos].id <= buf[j - 1].id);
                } else {
                    assert(buf[i - 1].id < buf[j - 1].id);
                }
            }
            assert forall|j: int| 0 <= j < t.backed_up.len() implies (#[trigger] t.backed_up[j]).id
                > t.next_reliable_ordered by {
                if j < pos {
                } else if j > pos {
                    assert(t.backed_up[j] == buf[j - 1]);
                }
            }
        }
    }
}

} // verus!
