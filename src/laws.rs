//! What holds of a sorter across many receipts.
use vstd::prelude::*;
use vstd::set_lib::{lemma_int_range, lemma_subset_equality, set_int_range};
use crate::model::{
    buffered, initial_state, insert_pos, lemma_insert_pos, lemma_run_len, lemma_step_valid,
    payloads, run, run_len, step, valid, BackedUpPacket, SorterState,
};
use crate::reliability::{is_acknowledged, PacketHeaders, Reliability};

verus! {

/// The payloads of a run of receipts, in receipt order.
pub open spec fn payloads_of<P>(inputs: Seq<(PacketHeaders, P)>) -> Seq<P> {
    inputs.map_values(|x: (PacketHeaders, P)| x.1)
}

/// Unreliable receipts: N of them deliver exactly their N payloads, in receipt
/// order, and leave the state as it was.
pub proof fn lemma_unreliable_delivers_all<P>(s: SorterState<P>, inputs: Seq<(PacketHeaders, P)>)
    requires
        forall|i: int|
            0 <= i < inputs.len() ==> (#[trigger] inputs[i]).0.reliability
                == Reliability::Unreliable,
    ensures
        run(s, inputs).0 == s,
        run(s, inputs).1 == payloads_of(inputs),
    decreases inputs.len(),
{
    if inputs.len() > 0 {
        let rest = inputs.drop_last();
        assert(inputs.last() == inputs[inputs.len() - 1]);
        lemma_unreliable_delivers_all(s, rest);
        assert(payloads_of(inputs) =~= payloads_of(rest).push(inputs.last().1));
        assert(run(s, inputs).1 =~= payloads_of(inputs));
    }
}

/// Every state reached from a valid one is valid.
pub proof fn lemma_run_valid<P>(s: SorterState<P>, inputs: Seq<(PacketHeaders, P)>)
    requires
        valid(s),
    ensures
        valid(run(s, inputs).0),
    decreases inputs.len(),
{
    if inputs.len() > 0 {
        lemma_run_valid(s, inputs.drop_last());
        lemma_step_valid(run(s, inputs.drop_last()).0, inputs.last().0, inputs.last().1);
    }
}

/// Each channel's watermark never moves back, whatever is received.
pub proof fn lemma_watermarks_never_decrease<P>(s: SorterState<P>, h: PacketHeaders, p: P)
    requires
        valid(s),
    ensures
        step(s, h, p).0.next_reliable >= s.next_reliable,
        step(s, h, p).0.next_unreliable_sequenced >= s.next_unreliable_sequenced,
        step(s, h, p).0.next_reliable_ordered >= s.next_reliable_ordered,
{
}

/// The id has been handled on its reliable channel: a Reliable id below the
/// watermark and not missing, or a ReliableOrdered id delivered or withheld.
pub open spec fn already_processed<P>(s: SorterState<P>, h: PacketHeaders) -> bool {
    match h.reliability {
        Reliability::Reliable => h.id < s.next_reliable && !s.missing_reliable.contains(h.id),
        Reliability::ReliableOrdered => h.id < s.next_reliable_ordered || buffered(
            s.backed_up,
            h.id,
        ),
        _ => false,
    }
}

proof fn lemma_step_processes<P>(s: SorterState<P>, h: PacketHeaders, p: P)
    requires
        valid(s),
        is_acknowledged(h.reliability),
    ensures
        already_processed(step(s, h, p).0, h),
{
    let t = step(s, h, p).0;
    if h.reliability == Reliability::ReliableOrdered {
        if h.id > s.next_reliable_ordered && !buffered(s.backed_up, h.id) {
            let pos = insert_pos(s.backed_up, h.id) as int;
            lemma_insert_pos(s.backed_up, h.id);
            s.backed_up.insert_ensures(pos, BackedUpPacket { id: h.id, packet: p });
            assert(t.backed_up[pos].id == h.id);
        }
    }
}

proof fn lemma_processed_stays<P>(s: SorterState<P>, h: PacketHeaders, g: PacketHeaders, q: P)
    requires
        valid(s),
        already_processed(s, h),
    ensures
        already_processed(step(s, g, q).0, h),
{
    let t = step(s, g, q).0;
    let buf = s.backed_up;
    let w = s.next_reliable_ordered;
    if h.reliability == Reliability::ReliableOrdered && g.reliability
        == Reliability::ReliableOrdered && h.id >= w {
        let j = choose|j: int| 0 <= j < buf.len() && (#[trigger] buf[j]).id == h.id;
        if g.id == w {
            let k = run_len(buf, g.id + 1) as int;
            lemma_run_len(buf, g.id + 1);
            if j >= k {
                assert(t.backed_up[j - k] == buf[j]);
            }
        } else if g.id > w && !buffered(buf, g.id) {
            let pos = insert_pos(buf, g.id) as int;
            lemma_insert_pos(buf, g.id);
            buf.insert_ensures(pos, BackedUpPacket { id: g.id, packet: q });
            if j < pos {
                assert(t.backed_up[j] == buf[j]);
            } else {
                assert(t.backed_up[j + 1] == buf[j]);
            }
        }
    }
}

proof fn lemma_run_keeps_processed<P>(
    s: SorterState<P>,
    h: PacketHeaders,
    inputs: Seq<(PacketHeaders, P)>,
)
    requires
        valid(s),
        already_processed(s, h),
    ensures
        already_processed(run(s, inputs).0, h),
    decreases inputs.len(),
{
    if inputs.len() > 0 {
        lemma_run_keeps_processed(s, h, inputs.drop_last());
        lemma_run_valid(s, inputs.drop_last());
        lemma_processed_stays(run(s, inputs.drop_last()).0, h, inputs.last().0, inputs.last().1);
    }
}

/// Idempotence on the reliable channels: once a packet has been received,
/// receiving its id again, after any number of other receipts, delivers
/// nothing.
pub proof fn lemma_redelivery_is_dropped<P>(
    s: SorterState<P>,
    h: PacketHeaders,
    p: P,
    later: Seq<(PacketHeaders, P)>,
    q: P,
)
    requires
        valid(s),
        is_acknowledged(h.reliability),
    ensures
        step(run(step(s, h, p).0, later).0, h, q).1 == Seq::<P>::empty(),
{
    let s1 = step(s, h, p).0;
    lemma_step_valid(s, h, p);
    lemma_step_processes(s, h, p);
    lemma_run_keeps_processed(s1, h, later);
    lemma_run_valid(s1, later);
    let s2 = run(s1, later).0;
    if h.reliability == Reliability::ReliableOrdered && h.id >= s2.next_reliable_ordered {
        let j = choose|j: int| 0 <= j < s2.backed_up.len() && (#[trigger] s2.backed_up[j]).id == h.id;
        assert(s2.backed_up[j].id > s2.next_reliable_ordered);
    }
}

/// Some receipt among the first `m` carries id `v`.
pub open spec fn received_before<P>(inputs: Seq<(PacketHeaders, P)>, m: int, v: int) -> bool {
    exists|i: int| 0 <= i < m && (#[trigger] inputs[i]).0.id == v
}

/// ReliableOrdered receipts with pairwise distinct ids.
pub open spec fn distinct_ordered<P>(inputs: Seq<(PacketHeaders, P)>) -> bool {
    &&& forall|i: int|
        0 <= i < inputs.len() ==> (#[trigger] inputs[i]).0.reliability
            == Reliability::ReliableOrdered
    &&& forall|i: int, j: int|
        0 <= i < inputs.len() && 0 <= j < inputs.len() && i != j ==> (#[trigger] inputs[i]).0.id
            != (#[trigger] inputs[j]).0.id
}

/// After the first `m` receipts: the delivered payloads sit at their ids, each
/// id at or above the watermark is withheld with its payload, and everything
/// delivered or withheld was received.
spec fn ordered_progress<P>(
    inputs: Seq<(PacketHeaders, P)>,
    m: int,
    st: SorterState<P>,
    out: Seq<P>,
) -> bool {
    let w = st.next_reliable_ordered;
    let buf = st.backed_up;
    &&& valid(st)
    &&& out.len() == w
    &&& forall|i: int|
        0 <= i < m && (#[trigger] inputs[i]).0.id < w ==> out[inputs[i].0.id as int]
            == inputs[i].1
    &&& forall|i: int|
        0 <= i < m && (#[trigger] inputs[i]).0.id >= w ==> exists|j: int|
            0 <= j < buf.len() && (#[trigger] buf[j]) == (BackedUpPacket {
                id: inputs[i].0.id,
                packet: inputs[i].1,
            })
    &&& forall|j: int| 0 <= j < buf.len() ==> received_before(inputs, m, (#[trigger] buf[j]).id as int)
    &&& forall|v: int| 0 <= v < w ==> #[trigger] received_before(inputs, m, v)
}

proof fn lemma_received_grows<P>(inputs: Seq<(PacketHeaders, P)>, m: int)
    ensures
        forall|v: int| #[trigger] received_before(inputs, m, v) ==> received_before(inputs, m + 1, v),
{
    assert forall|v: int| #[trigger] received_before(inputs, m, v) implies received_before(
        inputs,
        m + 1,
        v,
    ) by {
        let i = choose|i: int| 0 <= i < m && (#[trigger] inputs[i]).0.id == v;
        assert(0 <= i < m + 1 && inputs[i].0.id == v);
    }
}

#[verifier::rlimit(50)]
proof fn lemma_ordered_progress_step<P>(
    inputs: Seq<(PacketHeaders, P)>,
    m: int,
    st: SorterState<P>,
    out: Seq<P>,
)
    requires
        distinct_ordered(inputs),
        0 <= m < inputs.len(),
        ordered_progress(inputs, m, st, out),
    ensures
        ordered_progress(
            inputs,
            m + 1,
            step(st, inputs[m].0, inputs[m].1).0,
            out + step(st, inputs[m].0, inputs[m].1).1,
        ),
{
    let h = inputs[m].0;
    let p = inputs[m].1;
    let id = h.id as int;
    let w = st.next_reliable_ordered;
    let buf = st.backed_up;
    let t = step(st, h, p).0;
    let out2 = out + step(st, h, p).1;
    lemma_step_valid(st, h, p);
    lemma_received_grows(inputs, m);
    assert(received_before(inputs, m + 1, id)) by {
        assert(inputs[m].0.id == id);
    }
    assert(!received_before(inputs, m, id)) by {
        if received_before(inputs, m, id) {
            let i = choose|i: int| 0 <= i < m && (#[trigger] inputs[i]).0.id == id;
            assert(inputs[i].0.id != inputs[m].0.id);
        }
    }
    assert(id >= w) by {
        if id < w {
            assert(received_before(inputs, m, id));
        }
    }
    assert(!buffered(buf, h.id)) by {
        if buffered(buf, h.id) {
            let j = choose|j: int| 0 <= j < buf.len() && (#[trigger] buf[j]).id == h.id;
            assert(received_before(inputs, m, buf[j].id as int));
        }
    }
    if id == w {
        let k = run_len(buf, id + 1) as int;
        lemma_run_len(buf, id + 1);
        let w2 = w + 1 + k;
        assert(t.next_reliable_ordered == w2);
        assert(t.backed_up == buf.subrange(k, buf.len() as int));
        assert(out2 == out + (seq![p] + payloads(buf.take(k))));
        // Withheld entries past the run stand above the new watermark.
        assert forall|j: int| k <= j < buf.len() implies (#[trigger] buf[j]).id >= w2 by {
            if k > 0 {
                assert(buf[k - 1].id < buf[k].id);
            }
            if j > k {
                assert(buf[k].id < buf[j].id);
            }
        }
        assert forall|i: int|
            0 <= i < m + 1 && (#[trigger] inputs[i]).0.id < w2 implies out2[inputs[i].0.id as int]
            == inputs[i].1 by {
            let v = inputs[i].0.id as int;
            if i == m {
                assert(out2[w] == p);
            } else if v < w {
                assert(out2[v] == out[v]);
            } else {
                assert(inputs[i].0.id != inputs[m].0.id);
                let j = choose|j: int|
                    0 <= j < buf.len() && (#[trigger] buf[j]) == (BackedUpPacket {
                        id: inputs[i].0.id,
                        packet: inputs[i].1,
                    });
                assert(j < k);
                assert(buf[j].id == id + 1 + j);
                assert(out2[v] == payloads(buf.take(k))[j]);
            }
        }
        assert forall|i: int| 0 <= i < m + 1 && (#[trigger] inputs[i]).0.id >= w2 implies exists|j: int|
            0 <= j < t.backed_up.len() && (#[trigger] t.backed_up[j]) == (BackedUpPacket {
                id: inputs[i].0.id,
                packet: inputs[i].1,
            }) by {
            let j = choose|j: int|
                0 <= j < buf.len() && (#[trigger] buf[j]) == (BackedUpPacket {
                    id: inputs[i].0.id,
                    packet: inputs[i].1,
                });
            if j < k {
                assert(buf[j].id == id + 1 + j);
            }
            assert(t.backed_up[j - k] == buf[j]);
        }
        assert forall|j: int| 0 <= j < t.backed_up.len() implies received_before(
            inputs,
            m + 1,
            (#[trigger] t.backed_up[j]).id as int,
        ) by {
            assert(t.backed_up[j] == buf[j + k]);
            assert(received_before(inputs, m, buf[j + k].id as int));
        }
        assert forall|v: int| 0 <= v < w2 implies #[trigger] received_before(inputs, m + 1, v) by {
            if v < w {
                assert(received_before(inputs, m, v));
            } else if v > w {
                assert(buf[v - w - 1].id == v);
                assert(received_before(inputs, m, buf[v - w - 1].id as int));
            }
        }
    } else {
        let pos = insert_pos(buf, h.id) as int;
        let e = BackedUpPacket { id: h.id, packet: p };
        lemma_insert_pos(buf, h.id);
        buf.insert_ensures(pos, e);
        assert(t.backed_up == buf.insert(pos, e));
        assert(out2 =~= out);
        assert forall|i: int| 0 <= i < m + 1 && (#[trigger] inputs[i]).0.id >= w implies exists|j: int|
            0 <= j < t.backed_up.len() && (#[trigger] t.backed_up[j]) == (BackedUpPacket {
                id: inputs[i].0.id,
                packet: inputs[i].1,
            }) by {
            if i == m {
                assert(t.backed_up[pos] == e);
            } else {
                let j = choose|j: int|
                    0 <= j < buf.len() && (#[trigger] buf[j]) == (BackedUpPacket {
                        id: inputs[i].0.id,
                        packet: inputs[i].1,
                    });
                if j < pos {
                    assert(t.backed_up[j] == buf[j]);
                } else {
                    assert(t.backed_up[j + 1] == buf[j]);
                }
            }
        }
        assert forall|j: int| 0 <= j < t.backed_up.len() implies received_before(
            inputs,
            m + 1,
            (#[trigger] t.backed_up[j]).id as int,
        ) by {
            if j < pos {
                assert(received_before(inputs, m, buf[j].id as int));
            } else if j > pos {
                assert(t.backed_up[j] == buf[j - 1]);
                assert(received_before(inputs, m, buf[j - 1].id as int));
            }
        }
        assert forall|v: int| 0 <= v < w implies #[trigger] received_before(inputs, m + 1, v) by {
            assert(received_before(inputs, m, v));
        }
    }
}

proof fn lemma_ordered_progress<P>(inputs: Seq<(PacketHeaders, P)>, m: int)
    requires
        distinct_ordered(inputs),
        0 <= m <= inputs.len(),
    ensures
        ordered_progress(
            inputs,
            m,
            run(initial_state::<P>(), inputs.take(m)).0,
            run(initial_state::<P>(), inputs.take(m)).1,
        ),
    decreases m,
{
    let s0 = initial_state::<P>();
    if m == 0 {
        assert(s0.backed_up.len() == 0);
    } else {
        lemma_ordered_progress(inputs, m - 1);
        let prefix = inputs.take(m);
        assert(prefix.drop_last() =~= inputs.take(m - 1));
        assert(prefix.last() == inputs[m - 1]);
        lemma_ordered_progress_step(
            inputs,
            m - 1,
            run(s0, inputs.take(m - 1)).0,
            run(s0, inputs.take(m - 1)).1,
        );
    }
}

/// Permutation invariance of ReliableOrdered: feeding a fresh sorter the ids
/// `0..N` in any order, one receipt each, delivers exactly N payloads, and the
/// payload at position `v` of the concatenated batches is the one sent with
/// id `v`. So the application sees ids `0, 1, ..., N-1`, each once.
pub proof fn lemma_ordered_permutation_invariance<P>(inputs: Seq<(PacketHeaders, P)>)
    requires
        distinct_ordered(inputs),
        forall|i: int| 0 <= i < inputs.len() ==> (#[trigger] inputs[i]).0.id < inputs.len(),
    ensures
        run(initial_state::<P>(), inputs).1.len() == inputs.len(),
        forall|i: int|
            0 <= i < inputs.len() ==> run(initial_state::<P>(), inputs).1[(#[trigger] inputs[i]).0.id as int]
                == inputs[i].1,
{
    let n = inputs.len() as int;
    lemma_ordered_progress(inputs, n);
    assert(inputs.take(n) =~= inputs);
    let st = run(initial_state::<P>(), inputs).0;
    let w = st.next_reliable_ordered;
    // The ids cover 0..N: N distinct values below N.
    let ids = inputs.map_values(|x: (PacketHeaders, P)| x.0.id as int);
    assert(ids.no_duplicates()) by {
        assert forall|i: int, j: int| 0 <= i < ids.len() && 0 <= j < ids.len() && i != j implies ids[i]
            != ids[j] by {
            assert(inputs[i].0.id != inputs[j].0.id);
        }
    }
    ids.unique_seq_to_set();
    lemma_int_range(0, n);
    assert(ids.to_set().subset_of(set_int_range(0, n))) by {
        assert forall|v: int| ids.to_set().contains(v) implies set_int_range(0, n).contains(v) by {
            let i = choose|i: int| 0 <= i < ids.len() && ids[i] == v;
            assert(inputs[i].0.id < n);
        }
    }
    lemma_subset_equality(ids.to_set(), set_int_range(0, n));
    assert(w <= n) by {
        if w > n {
            assert(received_before(inputs, n, n));
            let i = choose|i: int| 0 <= i < n && (#[trigger] inputs[i]).0.id == n;
        }
    }
    assert(w >= n) by {
        if w < n {
            assert(set_int_range(0, n).contains(w));
            assert(ids.to_set().contains(w));
            let i = choose|i: int| 0 <= i < ids.len() && ids[i] == w;
            assert(inputs[i].0.id >= w);
            let j = choose|j: int|
                0 <= j < st.backed_up.len() && (#[trigger] st.backed_up[j]) == (BackedUpPacket {
                    id: inputs[i].0.id,
                    packet: inputs[i].1,
                });
            assert(st.backed_up[j].id > w);
        }
    }
}

} // verus!
