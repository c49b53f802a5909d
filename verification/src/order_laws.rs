//! In which order the receiver hands payloads on, whatever fragments come.
use crate::crypto::aead_opened;
use crate::link_laws::packets_received;
use crate::rx::{packet_processed, AggregatorView};
use crate::rx_ring::{
    block_opened, blocks_opened, blocks_to_open, completed, drained, fragment_received,
    fragment_taken, found_block, front_dropped, fronts_flushed, present, repaired, sent, sent_next,
    sent_present, sent_rest, stored, with_block, LinkView, RxCounters, RxEventView, RX_RING_SIZE,
};
use crate::rx_ring::{
    lemma_blocks_increase, lemma_counted_wf, lemma_drained, lemma_front_dropped, lemma_front_flushed,
    lemma_fronts_flushed, lemma_present_update, lemma_relabelled, lemma_repaired_wf,
    lemma_same_blocks_wf, lemma_sent_next, lemma_sent_present_blocks, lemma_sent_rest, lemma_slot,
    lemma_stored, lemma_with_block,
};
use crate::rx_stats::Reception;
use crate::stream_laws::{before, in_order, next_place};
use crate::stream_laws::{lemma_opened_slots, lemma_slots_distinct};
use crate::wifibroadcast::{MAX_BLOCK_IDX, MAX_FEC_PAYLOAD, WPACKET_HDR_SIZE};
use vstd::prelude::*;

verus! {

/// The blocks and fragments of the payloads among the events, in order.
pub open spec fn places(events: Seq<RxEventView>) -> Seq<(int, int)>
    decreases events.len(),
{
    if events.len() == 0 {
        Seq::empty()
    } else {
        places(events.drop_last()) + match events.last() {
            RxEventView::Payload { block_idx, fragment_idx, .. } => seq![
                (block_idx as int, fragment_idx),
            ],
            _ => Seq::empty(),
        }
    }
}

proof fn lemma_places_add(a: Seq<RxEventView>, b: Seq<RxEventView>)
    ensures
        places(a + b) == places(a) + places(b),
    decreases b.len(),
{
    if b.len() == 0 {
        assert(a + b =~= a);
    } else {
        lemma_places_add(a, b.drop_last());
        assert((a + b).drop_last() =~= a + b.drop_last());
        assert((a + b).last() == b.last());
    }
    assert(places(a + b) =~= places(a) + places(b));
}

/// Between the two lists of events, payloads have been handed on at places in order, none twice, from
/// `from` on and before `to`.
pub open spec fn advanced(
    k: int,
    e: Seq<RxEventView>,
    f: Seq<RxEventView>,
    from: (int, int),
    to: (int, int),
) -> bool {
    exists|ps: Seq<(int, int)>| #[trigger]
        in_order(k, from, to, ps) && places(f) == places(e) + ps
}

proof fn lemma_not_advanced(
    k: int,
    e: Seq<RxEventView>,
    f: Seq<RxEventView>,
    from: (int, int),
    to: (int, int),
)
    requires
        places(f) == places(e),
    ensures
        advanced(k, e, f, from, to),
{
    assert(in_order(k, from, to, Seq::empty()));
    assert(places(e) + Seq::<(int, int)>::empty() =~= places(e));
}

proof fn lemma_advanced_join(
    k: int,
    e: Seq<RxEventView>,
    f: Seq<RxEventView>,
    g: Seq<RxEventView>,
    a: (int, int),
    b: (int, int),
    c: (int, int),
)
    requires
        advanced(k, e, f, a, b),
        advanced(k, f, g, b, c),
        !before(b, a),
        !before(c, b),
    ensures
        advanced(k, e, g, a, c),
{
    let p = choose|p: Seq<(int, int)>| #[trigger]
        in_order(k, a, b, p) && places(f) == places(e) + p;
    let q = choose|q: Seq<(int, int)>| #[trigger]
        in_order(k, b, c, q) && places(g) == places(f) + q;
    let all = p + q;
    assert forall|i: int| 0 <= i < all.len() implies {
        &&& 0 <= (#[trigger] all[i]).0 <= MAX_BLOCK_IDX
        &&& 0 <= all[i].1 < k
        &&& !before(all[i], a)
        &&& before(all[i], c)
    } by {
        if i < p.len() {
            assert(all[i] == p[i]);
        } else {
            assert(all[i] == q[i - p.len()]);
        }
    }
    assert forall|i: int, j: int| 0 <= i < j < all.len() implies before(
        #[trigger] all[i],
        #[trigger] all[j],
    ) by {
        if j < p.len() {
            assert(all[i] == p[i] && all[j] == p[j]);
        } else if i >= p.len() {
            assert(all[i] == q[i - p.len()] && all[j] == q[j - p.len()]);
        } else {
            assert(all[i] == p[i] && all[j] == q[j - p.len()]);
        }
    }
    assert(in_order(k, a, c, all));
    assert(places(g) =~= places(e) + all);
}

proof fn lemma_advanced_widened(
    k: int,
    e: Seq<RxEventView>,
    f: Seq<RxEventView>,
    a: (int, int),
    b: (int, int),
    from: (int, int),
    to: (int, int),
)
    requires
        advanced(k, e, f, a, b),
        !before(a, from),
        !before(to, b),
    ensures
        advanced(k, e, f, from, to),
{
    let p = choose|p: Seq<(int, int)>| #[trigger]
        in_order(k, a, b, p) && places(f) == places(e) + p;
    assert(in_order(k, from, to, p));
}

proof fn lemma_sent_advances(l: LinkView, r: int, f: int)
    requires
        0 <= f < l.k,
        l.ring[r].block_idx <= MAX_BLOCK_IDX,
    ensures
        advanced(
            l.k,
            l.events,
            sent(l, r, f).events,
            (l.ring[r].block_idx as int, f),
            (l.ring[r].block_idx as int, f + 1),
        ),
{
    let s = sent(l, r, f);
    let b = l.ring[r].block_idx as int;
    let extra = s.events.skip(l.events.len() as int);
    assert(s.events =~= l.events + extra);
    lemma_places_add(l.events, extra);
    reveal_with_fuel(places, 3);
    assert(in_order(l.k, (b, f), (b, f + 1), Seq::empty()));
    assert(in_order(l.k, (b, f), (b, f + 1), seq![(b, f)]));
    if extra.len() == 2 {
        assert(extra.drop_last().drop_last() =~= Seq::empty());
    } else if extra.len() == 1 {
        assert(extra.drop_last() =~= Seq::empty());
    }
    if extra.len() > 0 && extra.last() is Payload {
        assert(places(extra) =~= seq![(b, f)]);
    } else {
        assert(places(extra) =~= Seq::empty());
    }
}

proof fn lemma_sent_present_advances(l: LinkView, r: int, from: int)
    requires
        0 <= from <= l.k,
        l.ring[r].block_idx <= MAX_BLOCK_IDX,
    ensures
        advanced(
            l.k,
            l.events,
            sent_present(l, r, from).events,
            (l.ring[r].block_idx as int, from),
            (l.ring[r].block_idx as int, l.k),
        ),
    decreases l.k - from,
{
    let b = l.ring[r].block_idx as int;
    let end = sent_present(l, r, from).events;
    if from >= l.k {
        lemma_not_advanced(l.k, l.events, end, (b, from), (b, l.k));
    } else if l.ring[r].map[from] != 0 {
        let s = sent(l, r, from);
        lemma_sent_advances(l, r, from);
        lemma_sent_present_advances(s, r, from + 1);
        lemma_advanced_join(l.k, l.events, s.events, end, (b, from), (b, from + 1), (b, l.k));
    } else {
        lemma_sent_present_advances(l, r, from + 1);
        lemma_advanced_widened(
            l.k,
            l.events,
            end,
            (b, from + 1),
            (b, l.k),
            (b, from),
            (b, l.k),
        );
    }
}

proof fn lemma_drained_advances(l: LinkView, r: int)
    requires
        l.wf_but(r),
    ensures
        advanced(
            l.k,
            l.events,
            drained(l, r).events,
            (l.ring[r].block_idx as int, l.ring[r].to_send),
            (l.ring[r].block_idx as int, drained(l, r).ring[r].to_send),
        ),
    decreases l.k - l.ring[r].to_send,
{
    let b = l.ring[r].block_idx as int;
    let t = l.ring[r].to_send;
    let d = drained(l, r);
    if t < l.k && l.ring[r].map[t] != 0 {
        let s = sent_next(l, r);
        lemma_sent_next(l, r);
        lemma_sent_advances(l, r, t);
        lemma_drained_advances(s, r);
        lemma_drained(s, r);
        lemma_advanced_join(
            l.k,
            l.events,
            s.events,
            d.events,
            (b, t),
            (b, t + 1),
            (b, d.ring[r].to_send),
        );
    } else {
        lemma_not_advanced(l.k, l.events, d.events, (b, t), (b, t));
    }
}

proof fn lemma_sent_rest_advances(l: LinkView, r: int)
    requires
        l.wf_but(r),
    ensures
        advanced(
            l.k,
            l.events,
            sent_rest(l, r).events,
            (l.ring[r].block_idx as int, l.ring[r].to_send),
            (l.ring[r].block_idx as int, l.k),
        ),
    decreases l.k - l.ring[r].to_send,
{
    let b = l.ring[r].block_idx as int;
    let t = l.ring[r].to_send;
    let d = sent_rest(l, r);
    if t < l.k {
        let s = sent_next(l, r);
        lemma_sent_next(l, r);
        lemma_sent_advances(l, r, t);
        lemma_sent_rest_advances(s, r);
        lemma_advanced_join(l.k, l.events, s.events, d.events, (b, t), (b, t + 1), (b, l.k));
    } else {
        lemma_not_advanced(l.k, l.events, d.events, (b, t), (b, l.k));
    }
}

/// When the front block leaves, the next place is behind it.
proof fn lemma_place_behind_front(l: LinkView, d: LinkView)
    requires
        l.blocks_ordered(),
        0 <= l.front < RX_RING_SIZE,
        1 <= l.alloc <= RX_RING_SIZE,
        d.front == (l.front + 1) % 40,
        d.alloc == l.alloc - 1,
        d.last_known_block == l.last_known_block,
        d.alloc > 0 ==> d.ring[d.front].block_idx == l.ring[d.front].block_idx
            && d.ring[d.front].to_send >= 0,
    ensures
        !before(next_place(d), (l.ring[l.front].block_idx + 1, 0int)),
{
    lemma_slot(l, 0);
    lemma_slot(l, l.front);
    lemma_blocks_increase(l, l.front, l.front);
    if d.alloc > 0 {
        lemma_slot(l, 1);
        assert(l.slot(1) == d.front);
        lemma_blocks_increase(l, l.front, d.front);
    }
}

proof fn lemma_opened_advances(l: LinkView, b: u64)
    requires
        l.wf(),
        l.alloc > 0,
        b <= MAX_BLOCK_IDX,
        b <= l.last_known_block,
        l.last_known_block != u64::MAX,
        l.none_above(b - 1),
    ensures
        ({
            let o = block_opened(l, b);
            &&& advanced(l.k, l.events, o.events, next_place(l), next_place(o))
            &&& !before(next_place(o), next_place(l))
        }),
{
    let o = block_opened(l, b);
    lemma_opened_slots(l, b);
    if l.alloc == RX_RING_SIZE {
        let c = LinkView {
            counters: RxCounters {
                count_p_override: l.counters.count_p_override.wrapping_add(1),
                ..l.counters
            },
            ..l
        };
        let t = l.ring[l.front].to_send;
        let idx = l.ring[l.front].block_idx as int;
        lemma_slot(l, l.front);
        assert(l.active(l.front) && l.block_wf(l.front));
        lemma_sent_present_advances(c, l.front, t);
        lemma_slot(l, 1);
        lemma_slots_distinct(l, 0, 1);
        assert(o.slot(0) == l.slot(1));
        assert(l.active(l.slot(1)) && l.block_wf(l.slot(1)));
        lemma_blocks_increase(l, l.front, l.slot(1));
        lemma_advanced_widened(
            l.k,
            l.events,
            o.events,
            (idx, t),
            (idx, l.k),
            next_place(l),
            next_place(o),
        );
    } else {
        lemma_slots_distinct(l, 0, l.alloc);
        lemma_not_advanced(l.k, l.events, o.events, next_place(l), next_place(o));
    }
}

proof fn lemma_blocks_opened_advance(l: LinkView, start: LinkView, b: u64, count: int)
    requires
        l.wf(),
        start == (LinkView { last_known_block: start.last_known_block, ..l }),
        b <= start.last_known_block <= MAX_BLOCK_IDX,
        1 <= count,
        l.last_known_block == u64::MAX || start.last_known_block > l.last_known_block,
        l.last_known_block == u64::MAX ==> count == 1,
        l.last_known_block != u64::MAX ==> l.last_known_block + count <= b,
    ensures
        ({
            let o = blocks_opened(start, b, count);
            &&& o.wf()
            &&& o.k == l.k
            &&& o.n == l.n
            &&& o.alloc > 0
            &&& o.last_known_block == start.last_known_block
            &&& o.none_above(b as int)
            &&& advanced(l.k, l.events, o.events, next_place(l), next_place(o))
            &&& !before(next_place(o), next_place(l))
        }),
    decreases count,
{
    let o = blocks_opened(start, b, count);
    let m = blocks_opened(start, (b - 1) as u64, count - 1);
    assert(o == block_opened(m, b));
    if count == 1 {
        assert(m == start);
        lemma_relabelled(l, start.last_known_block);
        assert forall|r: int| 0 <= r < RX_RING_SIZE && m.active(r) implies (
        #[trigger] m.ring[r]).block_idx <= b - 1 by {
            assert(l.active(r));
            lemma_blocks_increase(l, r, r);
        }
        lemma_opened_slots(m, b);
        if l.alloc == 0 {
            lemma_not_advanced(l.k, l.events, o.events, next_place(l), next_place(o));
        } else {
            lemma_opened_advances(m, b);
            assert(next_place(m) == next_place(l));
        }
    } else {
        lemma_blocks_opened_advance(l, start, (b - 1) as u64, count - 1);
        lemma_opened_slots(m, b);
        lemma_opened_advances(m, b);
        lemma_advanced_join(
            l.k,
            l.events,
            m.events,
            o.events,
            next_place(l),
            next_place(m),
            next_place(o),
        );
    }
}

proof fn lemma_with_block_advances(l: LinkView, b: u64)
    requires
        l.wf(),
        b <= MAX_BLOCK_IDX,
    ensures
        ({
            let o = with_block(l, b).0;
            &&& advanced(l.k, l.events, o.events, next_place(l), next_place(o))
            &&& !before(next_place(o), next_place(l))
        }),
{
    let o = with_block(l, b).0;
    if found_block(l, b, 0) is Some || (l.last_known_block != u64::MAX && b <= l.last_known_block) {
        lemma_not_advanced(l.k, l.events, o.events, next_place(l), next_place(o));
    } else {
        let start = LinkView { last_known_block: b, ..l };
        lemma_blocks_opened_advance(l, start, b, blocks_to_open(l, b));
    }
}

proof fn lemma_fronts_flushed_advance(l: LinkView, r: int)
    requires
        l.wf_but(r),
    ensures
        ({
            let m = fronts_flushed(l, l.behind(r));
            &&& advanced(l.k, l.events, m.events, next_place(l), next_place(m))
            &&& !before(next_place(m), next_place(l))
            &&& m.last_known_block == l.last_known_block
        }),
    decreases l.behind(r),
{
    lemma_slot(l, r);
    let m = fronts_flushed(l, l.behind(r));
    if r == l.front {
        lemma_not_advanced(l.k, l.events, m.events, next_place(l), next_place(m));
    } else {
        let t = l.ring[l.front].to_send;
        let idx = l.ring[l.front].block_idx as int;
        let s = sent_present(l, l.front, t);
        let d = front_dropped(s);
        lemma_sent_present_blocks(l, l.front, t);
        lemma_front_flushed(l, r);
        lemma_slot(l, 0);
        lemma_slot(l, 1);
        assert(l.slot(1) == d.front);
        if d.front != r {
            assert(l.active(d.front) && l.block_wf(d.front));
        }
        lemma_place_behind_front(l, d);
        lemma_sent_present_advances(l, l.front, t);
        lemma_advanced_widened(
            l.k,
            l.events,
            d.events,
            (idx, t),
            (idx, l.k),
            next_place(l),
            next_place(d),
        );
        lemma_fronts_flushed_advance(d, r);
        lemma_advanced_join(
            l.k,
            l.events,
            d.events,
            m.events,
            next_place(l),
            next_place(d),
            next_place(m),
        );
    }
}

proof fn lemma_completed_advances(l: LinkView, r: int)
    requires
        l.wf_but(r),
        l.ring[r].to_send < l.k,
    ensures
        ({
            let next = completed(l, r);
            &&& next.wf()
            &&& next.k == l.k
            &&& next.n == l.n
            &&& advanced(l.k, l.events, next.events, next_place(l), next_place(next))
            &&& !before(next_place(next), next_place(l))
        }),
{
    let l1 = fronts_flushed(l, l.behind(r));
    lemma_fronts_flushed(l, r);
    lemma_fronts_flushed_advance(l, r);
    lemma_slot(l1, r);
    lemma_slot(l1, 0);
    let b = l.ring[r];
    let idx = b.block_idx as int;
    let missing = l.k - b.to_send - present(b.map, b.to_send, l.k);
    let l2 = if missing > 0 {
        repaired(l1, r)
    } else {
        l1
    };
    lemma_repaired_wf(l1, r);
    let l3 = LinkView {
        counters: RxCounters {
            count_p_fec_recovered: l2.counters.count_p_fec_recovered.wrapping_add(missing as u32),
            ..l2.counters
        },
        ..l2
    };
    lemma_counted_wf(l2, l3, r);
    lemma_sent_rest(l3, r);
    lemma_sent_rest_advances(l3, r);
    let s = sent_rest(l3, r);
    let next = completed(l, r);
    lemma_front_dropped(s);
    assert(next == front_dropped(s));
    lemma_next_to_send(next);
    lemma_slot(s, 0);
    lemma_place_behind_front(s, next);
    assert(next_place(l1) == (idx, b.to_send));
    lemma_advanced_widened(
        l.k,
        l1.events,
        next.events,
        (idx, b.to_send),
        (idx, l.k),
        next_place(l1),
        next_place(next),
    );
    lemma_advanced_join(
        l.k,
        l.events,
        l1.events,
        next.events,
        next_place(l),
        next_place(l1),
        next_place(next),
    );
}

/// What has gone out of the front block is a number.
proof fn lemma_next_to_send(l: LinkView)
    requires
        l.wf(),
    ensures
        l.alloc > 0 ==> l.ring[l.front].to_send >= 0,
{
    if l.alloc > 0 {
        lemma_slot(l, l.front);
        lemma_slot(l, 0);
        assert(l.active(l.front) && l.block_wf(l.front));
    }
}

/// A fragment that comes to its block, whatever it holds.
proof fn lemma_taken_advances(l: LinkView, r: int, f: int, data: Seq<u8>)
    requires
        l.wf(),
        0 <= r < RX_RING_SIZE,
        l.active(r),
        0 <= f < l.n,
        WPACKET_HDR_SIZE <= data.len() <= MAX_FEC_PAYLOAD,
    ensures
        ({
            let next = fragment_taken(l, r, f, data);
            &&& next.wf()
            &&& next.k == l.k
            &&& next.n == l.n
            &&& advanced(l.k, l.events, next.events, next_place(l), next_place(next))
            &&& !before(next_place(next), next_place(l))
        }),
{
    let next = fragment_taken(l, r, f, data);
    if l.ring[r].map[f] != 0 {
        lemma_not_advanced(l.k, l.events, next.events, next_place(l), next_place(next));
    } else {
        let s = stored(l, r, f, data);
        assert(l.block_wf(r));
        lemma_stored(l, r, f, data);
        lemma_slot(l, r);
        lemma_slot(l, 0);
        lemma_present_update(l.ring[r].map, 0, l.n, f, data.len() as usize);
        let d = if r == l.front {
            drained(s, r)
        } else {
            s
        };
        lemma_drained(s, r);
        lemma_drained_advances(s, r);
        assert(next_place(s) == next_place(l));
        if r != l.front {
            lemma_not_advanced(l.k, l.events, d.events, next_place(l), next_place(d));
        }
        assert(advanced(l.k, l.events, d.events, next_place(l), next_place(d)));
        assert(!before(next_place(d), next_place(l)));
        if r == l.front && d.ring[r].to_send == d.k {
            lemma_front_dropped(d);
            lemma_next_to_send(next);
            lemma_place_behind_front(d, next);
            lemma_advanced_widened(
                l.k,
                l.events,
                next.events,
                next_place(l),
                next_place(d),
                next_place(l),
                next_place(next),
            );
        } else if d.ring[r].to_send < d.k && d.ring[r].has == d.k {
            lemma_completed_advances(d, r);
            lemma_advanced_join(
                l.k,
                l.events,
                d.events,
                next.events,
                next_place(l),
                next_place(d),
                next_place(next),
            );
        } else {
            assert(d.block_wf(r));
            assert forall|p: int| 0 <= p < RX_RING_SIZE && d.active(p) implies #[trigger] d.block_wf(
                p,
            ) by {}
        }
    }
}

/// Whatever fragment comes, and whatever it holds, payloads are handed on in order, none twice and none
/// after a later one.
pub proof fn lemma_fragment_in_order(l: LinkView, b: u64, f: int, data: Seq<u8>)
    requires
        l.wf(),
        b <= MAX_BLOCK_IDX,
        0 <= f < l.n,
        WPACKET_HDR_SIZE <= data.len() <= MAX_FEC_PAYLOAD,
    ensures
        ({
            let next = fragment_received(l, b, f, data);
            &&& next.wf()
            &&& next.k == l.k
            &&& next.n == l.n
            &&& advanced(l.k, l.events, next.events, next_place(l), next_place(next))
            &&& !before(next_place(next), next_place(l))
        }),
{
    let next = fragment_received(l, b, f, data);
    let (o, place) = with_block(l, b);
    lemma_with_block(l, b);
    lemma_with_block_advances(l, b);
    if let Some(r) = place {
        lemma_taken_advances(o, r, f, data);
        lemma_advanced_join(
            l.k,
            l.events,
            o.events,
            next.events,
            next_place(l),
            next_place(o),
            next_place(next),
        );
    }
}

/// The same of a packet that begins no new session.
proof fn lemma_packet_in_order(a: AggregatorView, packet: Seq<u8>, q: Reception)
    requires
        a.link.wf(),
        packet_processed(a, packet, q).session_key == a.session_key,
    ensures
        ({
            let next = packet_processed(a, packet, q).link;
            &&& next.wf()
            &&& next.k == a.link.k
            &&& next.n == a.link.n
            &&& advanced(a.link.k, a.link.events, next.events, next_place(a.link), next_place(next))
            &&& !before(next_place(next), next_place(a.link))
        }),
{
    let c = a.link.counters;
    let next = packet_processed(a, packet, q).link;
    let l = LinkView {
        counters: RxCounters {
            count_p_all: c.count_p_all.wrapping_add(1),
            count_b_all: c.count_b_all.wrapping_add(packet.len() as u32),
            count_p_data: c.count_p_data.wrapping_add(1),
            ..c
        },
        ..a.link
    };
    let nonce = crate::bytes::be_value(packet.subrange(1, 9)) as u64;
    let opened = aead_opened(
        a.session_key,
        packet.subrange(1, 9),
        packet.take(9),
        packet.skip(9),
    );
    lemma_same_blocks_wf(l, a.link);
    if next == fragment_received(l, nonce / 256, (nonce % 256) as int, opened->0) && nonce / 256
        <= MAX_BLOCK_IDX && nonce % 256 < l.n && WPACKET_HDR_SIZE <= opened->0.len()
        <= MAX_FEC_PAYLOAD {
        lemma_fragment_in_order(l, nonce / 256, (nonce % 256) as int, opened->0);
    } else {
        assert(next == (LinkView { counters: next.counters, events: next.events, ..a.link }));
        lemma_same_blocks_wf(next, a.link);
        if next.events.len() > a.link.events.len() {
            assert(next.events.drop_last() =~= a.link.events);
        }
        assert(places(next.events) =~= places(a.link.events));
        lemma_not_advanced(
            a.link.k,
            a.link.events,
            next.events,
            next_place(a.link),
            next_place(next),
        );
    }
}

/// Over any packets within a session, whatever they hold and wherever they come from, the blocks and
/// fragments of the payloads that are handed on increase strictly: none is handed on twice, and none
/// after a later one.
pub proof fn lemma_places_increase(
    a: AggregatorView,
    packets: Seq<Seq<u8>>,
    receptions: Seq<Reception>,
    i: int,
)
    requires
        a.link.wf(),
        0 <= i <= packets.len(),
        forall|j: int|
            0 <= j < i ==> (#[trigger] packets_received(a, packets, receptions, j + 1)).session_key
                == a.session_key,
    ensures
        ({
            let s = packets_received(a, packets, receptions, i);
            &&& s.link.wf()
            &&& s.session_key == a.session_key
            &&& s.link.k == a.link.k
            &&& s.link.n == a.link.n
            &&& advanced(
                a.link.k,
                a.link.events,
                s.link.events,
                next_place(a.link),
                next_place(s.link),
            )
            &&& !before(next_place(s.link), next_place(a.link))
        }),
    decreases i,
{
    let s = packets_received(a, packets, receptions, i);
    if i > 0 {
        let m = packets_received(a, packets, receptions, i - 1);
        lemma_places_increase(a, packets, receptions, i - 1);
        assert(packets_received(a, packets, receptions, (i - 1) + 1).session_key == a.session_key);
        lemma_packet_in_order(m, packets[i - 1], receptions[i - 1]);
        lemma_advanced_join(
            a.link.k,
            a.link.events,
            m.link.events,
            s.link.events,
            next_place(a.link),
            next_place(m.link),
            next_place(s.link),
        );
    } else {
        lemma_not_advanced(
            a.link.k,
            a.link.events,
            s.link.events,
            next_place(a.link),
            next_place(s.link),
        );
    }
}

} // verus!
