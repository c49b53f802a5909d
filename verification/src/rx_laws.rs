//! What the receiver does with the fragments of a block, whichever of them come and in whatever
//! order.
use crate::block::{
    block_fragment, data_column, data_valid, largest, padded, payload_of, payloads_between, stated_size,
};
use crate::block::{lemma_largest, lemma_payloads_split};
use crate::rx_ring::{
    completed, drained, found_block, fragment_received, fragment_taken, fronts_flushed,
    next_present, present, repair_size, repaired, repaired_byte, repaired_fragments, sent,
    sent_next, sent_rest, stand_ins, stored, LinkView, RxCounters, RxEventView, RxFault, FRAGMENT_BUFFER,
    RX_RING_SIZE,
};
use crate::rx_ring::{
    lemma_drained, lemma_front_dropped, lemma_next_present, lemma_not_repeated, lemma_present_split,
    lemma_present_update, lemma_sent_next, lemma_sent_rest, lemma_slot, lemma_stand_ins,
    lemma_stored,
};
use crate::wifibroadcast::{MAX_FEC_PAYLOAD, MAX_PAYLOAD_SIZE, WPACKET_HDR_SIZE};
use crate::zfex::coded;
use crate::zfex::{lemma_any_values_suffice, lemma_coded_zero, lemma_distinct_points, lemma_systematic};
use vstd::prelude::*;

verus! {

/// The payloads among the events, in order.
pub open spec fn payloads(events: Seq<RxEventView>) -> Seq<Seq<u8>>
    decreases events.len(),
{
    if events.len() == 0 {
        Seq::empty()
    } else {
        payloads(events.drop_last()) + match events.last() {
            RxEventView::Payload { payload, .. } => seq![payload],
            _ => Seq::empty(),
        }
    }
}

proof fn lemma_payloads_add(a: Seq<RxEventView>, b: Seq<RxEventView>)
    ensures
        payloads(a + b) == payloads(a) + payloads(b),
    decreases b.len(),
{
    if b.len() == 0 {
        assert(a + b =~= a);
        assert(payloads(a) + payloads(b) =~= payloads(a));
    } else {
        lemma_payloads_add(a, b.drop_last());
        assert((a + b).drop_last() =~= a + b.drop_last());
        assert((a + b).last() == b.last());
        assert(payloads(a + b) =~= payloads(a) + payloads(b));
    }
}

/// The link with other counters and other events but the same payloads.
pub open spec fn restamped(l: LinkView, m: LinkView) -> bool {
    &&& m == (LinkView { counters: m.counters, events: m.events, ..l })
    &&& payloads(m.events) == payloads(l.events)
}

/// The link with other counters and perhaps a report of something wrong.
pub open spec fn only_reported(l: LinkView, m: LinkView) -> bool {
    &&& m == (LinkView { counters: m.counters, events: m.events, ..l })
    &&& m.events == l.events || {
        &&& m.events.len() == l.events.len() + 1
        &&& m.events.drop_last() == l.events
        &&& m.events.last() is Fault
    }
}

/// A report hands no payload on.
pub proof fn lemma_reported_payloads(l: LinkView, m: LinkView)
    requires
        only_reported(l, m),
    ensures
        restamped(l, m),
{
    if m.events != l.events {
        assert(payloads(m.events) =~= payloads(l.events));
    }
}

/// Sending a fragment that begins with `d` hands on the payload of `d`.
pub proof fn lemma_sent_payload(l: LinkView, r: int, f: int, d: Seq<u8>)
    requires
        l.ring[r].fragments[f].len() >= d.len(),
        l.ring[r].fragments[f].take(d.len() as int) == d,
        d.len() >= WPACKET_HDR_SIZE,
        stated_size(d) + WPACKET_HDR_SIZE == d.len(),
    ensures
        payloads(sent(l, r, f).events) == payloads(l.events) + payload_of(d),
{
    let x = l.ring[r].fragments[f];
    assert(x[0] == d[0] && x[1] == d[1] && x[2] == d[2]);
    let s = sent(l, r, f);
    let size = stated_size(d);
    assert(x.subrange(3, 3 + size) =~= d.subrange(3, 3 + size));
    let loss = if s.seq > l.seq.wrapping_add(1) && l.seq > 0 {
        seq![
            RxEventView::Loss {
                lost_count: s.seq.wrapping_sub(l.seq).wrapping_sub(1),
                last_seq: l.seq,
                new_seq: s.seq,
            },
        ]
    } else {
        Seq::empty()
    };
    let out = if size > MAX_PAYLOAD_SIZE {
        seq![RxEventView::Fault(RxFault::CorruptedPacket(s.seq))]
    } else if payload_of(d).len() > 0 {
        seq![
            RxEventView::Payload {
                block_idx: l.ring[r].block_idx,
                fragment_idx: f,
                payload: d.subrange(3, 3 + size),
            },
        ]
    } else {
        Seq::empty()
    };
    assert(s.events =~= l.events + loss + out);
    lemma_payloads_add(l.events, loss);
    lemma_payloads_add(l.events + loss, out);
    reveal_with_fuel(payloads, 2);
    assert(payloads(loss) =~= Seq::empty());
    assert(payloads(out) =~= payload_of(d));
    assert(payloads(s.events) =~= payloads(l.events) + payload_of(d));
}

/// Ring item `r` holds fragments of the block with these data fragments, and what has gone out of
/// it had come.
pub open spec fn carries(l: LinkView, r: int, data: Seq<Seq<u8>>) -> bool {
    let b = l.ring[r];
    &&& data.len() == l.k
    &&& data_valid(data)
    &&& forall|f: int|
        0 <= f < l.n && #[trigger] b.map[f] != 0 ==> {
            &&& b.map[f] == block_fragment(data, f).len()
            &&& forall|i: int|
                0 <= i < MAX_FEC_PAYLOAD ==> #[trigger] b.fragments[f][i] == padded(
                    block_fragment(data, f),
                    i,
                )
        }
    &&& forall|f: int| 0 <= f < b.to_send ==> #[trigger] b.map[f] != 0
}

/// The data fragments from `from` on are in their buffers.
pub open spec fn data_in_place(l: LinkView, r: int, data: Seq<Seq<u8>>, from: int) -> bool {
    forall|f: int|
        from <= f < l.k ==> {
            &&& (#[trigger] l.ring[r].fragments[f]).len() >= data[f].len()
            &&& l.ring[r].fragments[f].take(data[f].len() as int) == data[f]
        }
}

pub proof fn lemma_carried_in_place(l: LinkView, r: int, data: Seq<Seq<u8>>, f: int)
    requires
        l.k <= l.n,
        l.buffers_wf(),
        0 <= r < RX_RING_SIZE,
        carries(l, r, data),
        0 <= f < l.k,
        l.ring[r].map[f] != 0,
    ensures
        l.ring[r].fragments[f].len() >= data[f].len(),
        l.ring[r].fragments[f].take(data[f].len() as int) == data[f],
{
    assert(data[f].len() <= MAX_FEC_PAYLOAD);
    assert(l.ring[r].fragments[f].len() == FRAGMENT_BUFFER);
    assert forall|i: int| 0 <= i < data[f].len() implies l.ring[r].fragments[f][i] == data[f][i] by {
        assert(l.ring[r].fragments[f][i] == padded(block_fragment(data, f), i));
    }
    assert(l.ring[r].fragments[f].take(data[f].len() as int) =~= data[f]);
}

/// Draining hands on the payloads up to the first gap.
proof fn lemma_drained_payloads(l: LinkView, r: int, data: Seq<Seq<u8>>)
    requires
        l.wf_but(r),
        carries(l, r, data),
    ensures
        payloads(drained(l, r).events) == payloads(l.events) + payloads_between(
            data,
            l.ring[r].to_send,
            drained(l, r).ring[r].to_send,
        ),
        carries(drained(l, r), r, data),
    decreases l.k - l.ring[r].to_send,
{
    let t = l.ring[r].to_send;
    if t < l.k && l.ring[r].map[t] != 0 {
        let s = sent_next(l, r);
        lemma_sent_next(l, r);
        lemma_carried_in_place(l, r, data, t);
        lemma_sent_payload(l, r, t, data[t]);
        assert(carries(s, r, data));
        lemma_drained_payloads(s, r, data);
        lemma_drained(s, r);
        let end = drained(l, r).ring[r].to_send;
        lemma_payloads_split(data, t, t + 1, end);
        assert(payloads_between(data, t, t + 1) =~= payload_of(data[t])) by {
            assert(payloads_between(data, t, t) =~= Seq::empty());
        }
        assert(payloads(drained(l, r).events) =~= payloads(l.events) + payloads_between(data, t, end));
    } else {
        assert(payloads(l.events) + payloads_between(data, t, t) =~= payloads(l.events));
    }
}

/// Sending the rest of a block hands on the rest of its payloads.
proof fn lemma_sent_rest_payloads(l: LinkView, r: int, data: Seq<Seq<u8>>)
    requires
        l.wf_but(r),
        data.len() == l.k,
        data_valid(data),
        data_in_place(l, r, data, l.ring[r].to_send),
    ensures
        payloads(sent_rest(l, r).events) == payloads(l.events) + payloads_between(
            data,
            l.ring[r].to_send,
            l.k,
        ),
    decreases l.k - l.ring[r].to_send,
{
    let t = l.ring[r].to_send;
    if t < l.k {
        let s = sent_next(l, r);
        lemma_sent_next(l, r);
        assert(l.ring[r].fragments[t].len() >= data[t].len());
        lemma_sent_payload(l, r, t, data[t]);
        assert forall|f: int| t + 1 <= f < s.k implies {
            &&& (#[trigger] s.ring[r].fragments[f]).len() >= data[f].len()
            &&& s.ring[r].fragments[f].take(data[f].len() as int) == data[f]
        } by {
            assert(l.ring[r].fragments[f].len() >= data[f].len());
        }
        lemma_sent_rest_payloads(s, r, data);
        lemma_payloads_split(data, t, t + 1, l.k);
        assert(payloads_between(data, t, t + 1) =~= payload_of(data[t])) by {
            assert(payloads_between(data, t, t) =~= Seq::empty());
        }
        assert(payloads(sent_rest(l, r).events) =~= payloads(l.events) + payloads_between(
            data,
            t,
            l.k,
        ));
    } else {
        assert(payloads(l.events) + payloads_between(data, t, l.k) =~= payloads(l.events));
    }
}

/// The bytes of a fragment, with zeros behind it, are the coded bytes of the data.
proof fn lemma_fragment_bytes(data: Seq<Seq<u8>>, f: int, b: int)
    requires
        data_valid(data),
        0 < data.len() <= 255,
        0 <= f < 256,
        0 <= b,
    ensures
        padded(block_fragment(data, f), b) == coded(data_column(data, b), f),
{
    let d = data_column(data, b);
    if f < data.len() {
        lemma_systematic(d, f);
    } else if b >= block_fragment(data, f).len() {
        lemma_largest(data, data.len() as int);
        assert forall|j: int| 0 <= j < d.len() implies #[trigger] d[j] == 0 by {
            assert(data[j].len() <= largest(data, data.len() as int));
        }
        lemma_coded_zero(d, f);
    }
}

/// All check fragments of a block have one size.
proof fn lemma_repair_size_is_largest(l: LinkView, r: int, data: Seq<Seq<u8>>, i: int)
    requires
        l.wf_but(r),
        carries(l, r, data),
        0 <= i <= l.k,
        present(l.ring[r].map, 0, l.n) == l.k,
    ensures
        present(l.ring[r].map, 0, i) < i ==> repair_size(l.ring[r].map, l.k, i) == largest(
            data,
            l.k,
        ),
        present(l.ring[r].map, 0, i) == i ==> repair_size(l.ring[r].map, l.k, i) == 0,
    decreases i,
{
    if i > 0 {
        let map = l.ring[r].map;
        assert(map.len() == l.n);
        lemma_repair_size_is_largest(l, r, data, i - 1);
        lemma_stand_ins(map, l.k, i - 1);
        lemma_present_split(map, 0, 0, i - 1);
        lemma_largest(data, l.k);
        if map[i - 1] == 0 {
            let j = stand_ins(map, l.k, i - 1).1;
            let c = next_present(map, j);
            lemma_next_present(map, j);
            assert(map[c] == block_fragment(data, c).len());
        }
    }
}

/// The missing data fragments are rebuilt as they were sent.
pub proof fn lemma_repaired_in_place(l: LinkView, r: int, data: Seq<Seq<u8>>)
    requires
        l.wf_but(r),
        carries(l, r, data),
        present(l.ring[r].map, 0, l.n) == l.k,
        present(l.ring[r].map, 0, l.k) < l.k,
    ensures
        data_in_place(repaired(l, r), r, data, 0),
{
    let b = l.ring[r];
    let map = b.map;
    let k = l.k;
    let x = stand_ins(map, k, k).0;
    assert(map.len() == l.n);
    lemma_not_repeated(x, map, k);
    lemma_stand_ins(map, k, k);
    lemma_distinct_points(x, k as nat);
    lemma_repair_size_is_largest(l, r, data, k);
    lemma_largest(data, k);
    let fixed = repaired_fragments(b, k);
    assert forall|f: int| 0 <= f < k implies {
        &&& (#[trigger] repaired(l, r).ring[r].fragments[f]).len() >= data[f].len()
        &&& repaired(l, r).ring[r].fragments[f].take(data[f].len() as int) == data[f]
    } by {
        assert(b.fragments[f].len() == FRAGMENT_BUFFER);
        assert(data[f].len() <= largest(data, k));
        if map[f] != 0 {
            lemma_carried_in_place(l, r, data, f);
        } else {
            assert forall|i: int| 0 <= i < data[f].len() implies fixed[f][i] == data[f][i] by {
                let d = data_column(data, i);
                let y = Seq::new(x.len(), |q: int| b.fragments[x[q] as int][i]);
                assert forall|q: int| 0 <= q < k implies #[trigger] y[q] == coded(d, x[q] as int) by {
                    let g = x[q] as int;
                    assert(map[g] != 0);
                    assert(b.fragments[g][i] == padded(block_fragment(data, g), i));
                    lemma_fragment_bytes(data, g, i);
                }
                lemma_any_values_suffice(d, x, y, f);
                assert(fixed[f][i] == repaired_byte(b.fragments, x, f, i));
            }
            assert(fixed[f].take(data[f].len() as int) =~= data[f]);
        }
    }
}

/// A fragment of the block that is stored is one more that the block holds.
pub proof fn lemma_stored_carried(l: LinkView, r: int, f: int, data: Seq<Seq<u8>>)
    requires
        l.wf(),
        0 <= r < RX_RING_SIZE,
        carries(l, r, data),
        0 <= f < l.n,
        l.ring[r].map[f] == 0,
    ensures
        carries(stored(l, r, f, block_fragment(data, f)), r, data),
        WPACKET_HDR_SIZE <= block_fragment(data, f).len() <= MAX_FEC_PAYLOAD,
{
    let d = block_fragment(data, f);
    let s = stored(l, r, f, d);
    lemma_largest(data, data.len() as int);
    assert(l.ring[r].fragments[f].len() == FRAGMENT_BUFFER);
    assert forall|g: int| 0 <= g < s.n && #[trigger] s.ring[r].map[g] != 0 implies {
        &&& s.ring[r].map[g] == block_fragment(data, g).len()
        &&& forall|i: int|
            0 <= i < MAX_FEC_PAYLOAD ==> #[trigger] s.ring[r].fragments[g][i] == padded(
                block_fragment(data, g),
                i,
            )
    } by {
        if g != f {
            assert(l.ring[r].map[g] != 0);
        }
    }
}

/// A fragment of the block comes to its place at the front of the ring.
///
/// As long as fewer than `k` have come, the payloads without a gap go out; with the `k`th, whichever
/// fragments they are, the rest of the block goes out and the block leaves the ring.
pub proof fn lemma_fragment_taken(l: LinkView, f: int, data: Seq<Seq<u8>>)
    requires
        l.wf(),
        l.alloc > 0,
        carries(l, l.front, data),
        0 <= f < l.n,
        l.ring[l.front].map[f] == 0,
    ensures
        ({
            let r = l.front;
            let t = l.ring[r].to_send;
            let next = fragment_taken(l, r, f, block_fragment(data, f));
            &&& forall|q: int|
                0 <= q < RX_RING_SIZE && q != r ==> #[trigger] next.ring[q] == l.ring[q]
            &&& if l.ring[r].has + 1 < l.k {
                &&& next.wf()
                &&& next.k == l.k
                &&& next.n == l.n
                &&& next.front == r
                &&& next.alloc == l.alloc
                &&& next.last_known_block == l.last_known_block
                &&& next.ring[r].block_idx == l.ring[r].block_idx
                &&& next.ring[r].map == l.ring[r].map.update(
                    f,
                    block_fragment(data, f).len() as usize,
                )
                &&& next.ring[r].has == l.ring[r].has + 1
                &&& carries(next, r, data)
                &&& t <= next.ring[r].to_send
                &&& payloads(next.events) == payloads(l.events) + payloads_between(
                    data,
                    t,
                    next.ring[r].to_send,
                )
            } else {
                &&& next.wf()
                &&& next.k == l.k
                &&& next.n == l.n
                &&& next.front == (r + 1) % 40
                &&& next.alloc == l.alloc - 1
                &&& next.last_known_block == l.last_known_block
                &&& payloads(next.events) == payloads(l.events) + payloads_between(data, t, l.k)
            }
        }),
{
    let r = l.front;
    let d = block_fragment(data, f);
    let t = l.ring[r].to_send;
    lemma_slot(l, r);
    assert(l.active(r));
    assert(l.block_wf(r));
    lemma_largest(data, data.len() as int);
    assert(WPACKET_HDR_SIZE <= d.len() <= MAX_FEC_PAYLOAD);
    lemma_stored(l, r, f, d);
    let s = stored(l, r, f, d);
    lemma_stored_carried(l, r, f, data);
    lemma_drained(s, r);
    lemma_drained_payloads(s, r, data);
    let q = drained(s, r);
    let m = s.ring[r].map;
    lemma_present_update(l.ring[r].map, 0, l.n, f, d.len() as usize);
    if q.ring[r].to_send == q.k {
        lemma_front_dropped(q);
        lemma_all_present(m, q.k);
        lemma_present_split(m, 0, q.k, q.n);
    } else if q.ring[r].has == q.k {
        lemma_completed_payloads(q, r, data);
        lemma_payloads_split(data, t, q.ring[r].to_send, l.k);
        assert(payloads(completed(q, r).events) =~= payloads(l.events) + payloads_between(
            data,
            t,
            l.k,
        ));
    } else {
        assert(q.block_wf(r));
        assert forall|p: int| 0 <= p < RX_RING_SIZE && q.active(p) implies #[trigger] q.block_wf(p) by {}
    }
}

/// Entries that are all there are counted in full.
pub proof fn lemma_all_present(map: Seq<usize>, to: int)
    requires
        forall|f: int| 0 <= f < to ==> #[trigger] map[f] != 0,
    ensures
        to >= 0 ==> present(map, 0, to) == to,
    decreases to,
{
    if to > 0 {
        lemma_all_present(map, to - 1);
    }
}

/// Completing the front block hands on the rest of its payloads.
pub proof fn lemma_completed_payloads(l: LinkView, r: int, data: Seq<Seq<u8>>)
    requires
        l.wf_but(r),
        r == l.front,
        carries(l, r, data),
        l.ring[r].has == l.k,
        l.ring[r].to_send < l.k,
    ensures
        completed(l, r).wf(),
        completed(l, r).k == l.k,
        completed(l, r).n == l.n,
        completed(l, r).front == (r + 1) % 40,
        completed(l, r).alloc == l.alloc - 1,
        forall|q: int|
            0 <= q < RX_RING_SIZE && q != r ==> #[trigger] completed(l, r).ring[q] == l.ring[q],
        completed(l, r).last_known_block == l.last_known_block,
        payloads(completed(l, r).events) == payloads(l.events) + payloads_between(
            data,
            l.ring[r].to_send,
            l.k,
        ),
{
    lemma_slot(l, r);
    assert(l.behind(r) == 0);
    let l1 = fronts_flushed(l, l.behind(r));
    assert(l1 == l);
    let b = l.ring[r];
    let missing = l.k - b.to_send - present(b.map, b.to_send, l.k);
    lemma_present_split(b.map, 0, b.to_send, l.k);
    lemma_all_present(b.map, b.to_send);
    lemma_present_split(b.map, b.to_send, b.to_send, l.k);
    let l2 = if missing > 0 {
        repaired(l1, r)
    } else {
        l1
    };
    if missing > 0 {
        lemma_repaired_in_place(l, r, data);
        crate::rx_ring::lemma_repaired_wf(l, r);
    } else {
        assert forall|f: int| b.to_send <= f < l.k implies {
            &&& (#[trigger] l.ring[r].fragments[f]).len() >= data[f].len()
            &&& l.ring[r].fragments[f].take(data[f].len() as int) == data[f]
        } by {
            lemma_none_missing(b.map, b.to_send, l.k, f);
            lemma_carried_in_place(l, r, data, f);
        }
    }
    let l3 = LinkView {
        counters: RxCounters {
            count_p_fec_recovered: l2.counters.count_p_fec_recovered.wrapping_add(missing as u32),
            ..l2.counters
        },
        ..l2
    };
    crate::rx_ring::lemma_counted_wf(l2, l3, r);
    assert(data_in_place(l3, r, data, b.to_send)) by {
        assert forall|f: int| b.to_send <= f < l3.k implies {
            &&& (#[trigger] l3.ring[r].fragments[f]).len() >= data[f].len()
            &&& l3.ring[r].fragments[f].take(data[f].len() as int) == data[f]
        } by {
            assert(l2.ring[r].fragments[f].len() >= data[f].len());
        }
    }
    lemma_sent_rest(l3, r);
    lemma_sent_rest_payloads(l3, r, data);
    lemma_front_dropped(sent_rest(l3, r));
}

/// Where as many are there as there are places, none is missing.
pub proof fn lemma_none_missing(map: Seq<usize>, from: int, to: int, f: int)
    requires
        from <= f < to,
        present(map, from, to) >= to - from,
    ensures
        map[f] != 0,
{
    lemma_present_split(map, from, f, to);
    lemma_present_split(map, f, f + 1, to);
    lemma_present_split(map, from, from, f);
    assert(present(map, f, f + 1) == present(map, f, f) + if map[f] != 0 {
        1int
    } else {
        0int
    });
}

/// As long as sequence numbers do not wrap around, the losses that are counted when a fragment goes out
/// are the data fragments between it and the one before, and they are reported if there are any.
pub proof fn lemma_losses_are_gaps(l: LinkView, r: int, f: int)
    requires
        l.k >= 1,
        0 <= f < l.k,
        0 < l.seq < l.ring[r].block_idx * l.k + f < 0x1_0000_0000,
    ensures
        ({
            let s = sent(l, r, f);
            let gap = l.ring[r].block_idx * l.k + f - l.seq - 1;
            let report = RxEventView::Loss {
                lost_count: gap as u32,
                last_seq: l.seq,
                new_seq: s.seq,
            };
            &&& s.seq == l.ring[r].block_idx * l.k + f
            &&& s.counters.count_p_lost == l.counters.count_p_lost.wrapping_add(gap as u32)
            &&& s.events.take(l.events.len() as int) == l.events
            &&& gap > 0 ==> s.events.len() > l.events.len() && s.events[l.events.len() as int]
                == report
            &&& gap == 0 ==> s.events.len() <= l.events.len() + 1 && !(s.events.skip(
                l.events.len() as int,
            ).contains(report))
        }),
{
    let s = sent(l, r, f);
    assert(s.events.take(l.events.len() as int) =~= l.events);
}

/// A block that has gone by, or that is complete, takes no more fragments.
pub proof fn lemma_late_fragment(l: LinkView, block_idx: u64, f: int, d: Seq<u8>)
    requires
        l.wf(),
        l.last_known_block != u64::MAX,
        block_idx <= l.last_known_block,
        found_block(l, block_idx, 0) is None,
    ensures
        fragment_received(l, block_idx, f, d) == l,
{
}

/// A fragment that has come before changes nothing.
pub proof fn lemma_repeated_fragment(l: LinkView, block_idx: u64, f: int, d: Seq<u8>)
    requires
        l.wf(),
        found_block(l, block_idx, 0) matches Some(r) && l.ring[r].map[f] != 0,
    ensures
        fragment_received(l, block_idx, f, d) == l,
{
}

} // verus!
