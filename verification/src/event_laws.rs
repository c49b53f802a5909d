//! Events that are handed out call by call are the same as events that are gathered.
use crate::link_laws::packets_received;
use crate::rx::{packet_processed, without_events, AggregatorView};
use crate::rx_ring::{
    blocks_opened, blocks_to_open, completed, drained, found_block, fragment_received,
    fragment_taken, front_dropped, fronts_flushed, present, repaired, sent, sent_next, sent_present,
    sent_rest, stored, with_block, LinkView, RxCounters, RxEventView,
};
use crate::rx_stats::Reception;
use vstd::prelude::*;

verus! {

/// The link with events before its own.
pub open spec fn after(e: Seq<RxEventView>, l: LinkView) -> LinkView {
    LinkView { events: e + l.events, ..l }
}

proof fn lemma_sent_after(e: Seq<RxEventView>, l: LinkView, r: int, f: int)
    ensures
        sent(after(e, l), r, f) == after(e, sent(l, r, f)),
{
    assert(sent(after(e, l), r, f).events =~= e + sent(l, r, f).events);
}

proof fn lemma_sent_present_after(e: Seq<RxEventView>, l: LinkView, r: int, from: int)
    ensures
        sent_present(after(e, l), r, from) == after(e, sent_present(l, r, from)),
    decreases l.k - from,
{
    if from < l.k {
        if l.ring[r].map[from] != 0 {
            lemma_sent_after(e, l, r, from);
            lemma_sent_present_after(e, sent(l, r, from), r, from + 1);
        } else {
            lemma_sent_present_after(e, l, r, from + 1);
        }
    }
}

proof fn lemma_blocks_opened_after(e: Seq<RxEventView>, l: LinkView, block_idx: u64, count: int)
    ensures
        blocks_opened(after(e, l), block_idx, count) == after(e, blocks_opened(l, block_idx, count)),
    decreases count,
{
    if count > 0 {
        let b = blocks_opened(l, (block_idx - 1) as u64, count - 1);
        lemma_blocks_opened_after(e, l, (block_idx - 1) as u64, count - 1);
        let c = LinkView {
            counters: RxCounters {
                count_p_override: b.counters.count_p_override.wrapping_add(1),
                ..b.counters
            },
            ..b
        };
        lemma_sent_present_after(e, c, b.front, b.ring[b.front].to_send);
    }
}

proof fn lemma_found_after(e: Seq<RxEventView>, l: LinkView, block_idx: u64, i: int)
    ensures
        found_block(after(e, l), block_idx, i) == found_block(l, block_idx, i),
    decreases l.alloc - i,
{
    if i < l.alloc {
        lemma_found_after(e, l, block_idx, i + 1);
    }
}

proof fn lemma_drained_after(e: Seq<RxEventView>, l: LinkView, r: int)
    ensures
        drained(after(e, l), r) == after(e, drained(l, r)),
    decreases l.k - l.ring[r].to_send,
{
    if 0 <= r < l.ring.len() && l.ring[r].to_send < l.k && l.ring[r].map[l.ring[r].to_send] != 0 {
        lemma_sent_after(e, l, r, l.ring[r].to_send);
        lemma_drained_after(e, sent_next(l, r), r);
    }
}

proof fn lemma_sent_rest_after(e: Seq<RxEventView>, l: LinkView, r: int)
    ensures
        sent_rest(after(e, l), r) == after(e, sent_rest(l, r)),
    decreases l.k - l.ring[r].to_send,
{
    if 0 <= r < l.ring.len() && l.ring[r].to_send < l.k {
        lemma_sent_after(e, l, r, l.ring[r].to_send);
        lemma_sent_rest_after(e, sent_next(l, r), r);
    }
}

proof fn lemma_fronts_flushed_after(e: Seq<RxEventView>, l: LinkView, count: int)
    ensures
        fronts_flushed(after(e, l), count) == after(e, fronts_flushed(l, count)),
    decreases count,
{
    if count > 0 {
        let s = sent_present(l, l.front, l.ring[l.front].to_send);
        lemma_sent_present_after(e, l, l.front, l.ring[l.front].to_send);
        lemma_fronts_flushed_after(e, front_dropped(s), count - 1);
    }
}

proof fn lemma_completed_after(e: Seq<RxEventView>, l: LinkView, r: int)
    ensures
        completed(after(e, l), r) == after(e, completed(l, r)),
{
    let l1 = fronts_flushed(l, l.behind(r));
    let missing = l.k - l.ring[r].to_send - present(l.ring[r].map, l.ring[r].to_send, l.k);
    let l2 = if missing > 0 {
        repaired(l1, r)
    } else {
        l1
    };
    let l3 = LinkView {
        counters: RxCounters {
            count_p_fec_recovered: l2.counters.count_p_fec_recovered.wrapping_add(missing as u32),
            ..l2.counters
        },
        ..l2
    };
    lemma_fronts_flushed_after(e, l, l.behind(r));
    assert(after(e, l).behind(r) == l.behind(r));
    lemma_sent_rest_after(e, l3, r);
}

/// A fragment does the same whatever has happened before.
proof fn lemma_fragment_after(e: Seq<RxEventView>, l: LinkView, block_idx: u64, f: int, data: Seq<u8>)
    ensures
        fragment_received(after(e, l), block_idx, f, data) == after(
            e,
            fragment_received(l, block_idx, f, data),
        ),
{
    let start = LinkView { last_known_block: block_idx, ..l };
    let count = blocks_to_open(l, block_idx);
    lemma_found_after(e, l, block_idx, 0);
    lemma_blocks_opened_after(e, start, block_idx, count);
    lemma_blocks_opened_after(e, start, (block_idx - 1) as u64, count - 1);
    let (o, place) = with_block(l, block_idx);
    assert(with_block(after(e, l), block_idx) == (after(e, o), place));
    if let Some(r) = place {
        let s = stored(o, r, f, data);
        lemma_drained_after(e, s, r);
        lemma_completed_after(e, s, r);
        lemma_completed_after(e, drained(s, r), r);
        assert(fragment_taken(after(e, o), r, f, data) == after(e, fragment_taken(o, r, f, data)));
    }
}

/// The receiver with events before its own.
pub open spec fn receiver_after(e: Seq<RxEventView>, a: AggregatorView) -> AggregatorView {
    AggregatorView { link: after(e, a.link), ..a }
}

/// A packet does the same whatever has happened before: it only adds events.
pub proof fn lemma_packet_after(
    e: Seq<RxEventView>,
    a: AggregatorView,
    packet: Seq<u8>,
    q: Reception,
)
    ensures
        packet_processed(receiver_after(e, a), packet, q) == receiver_after(
            e,
            packet_processed(a, packet, q),
        ),
{
    let c = a.link.counters;
    let nonce = crate::bytes::be_value(packet.subrange(1, 9)) as u64;
    let opened = crate::crypto::aead_opened(
        a.session_key,
        packet.subrange(1, 9),
        packet.take(9),
        packet.skip(9),
    );
    if opened is Some {
        let l = LinkView {
            counters: RxCounters {
                count_p_all: c.count_p_all.wrapping_add(1),
                count_b_all: c.count_b_all.wrapping_add(packet.len() as u32),
                count_p_data: c.count_p_data.wrapping_add(1),
                ..c
            },
            ..a.link
        };
        lemma_fragment_after(e, l, nonce / 256, (nonce % 256) as int, opened->0);
    }
    let (x, y) = (
        packet_processed(receiver_after(e, a), packet, q),
        receiver_after(e, packet_processed(a, packet, q)),
    );
    assert(x.link.events =~= y.link.events);
}

/// The receiver after the first `i` of these calls, each of which hands its events out.
pub open spec fn called(
    a: AggregatorView,
    packets: Seq<Seq<u8>>,
    receptions: Seq<Reception>,
    i: int,
) -> AggregatorView
    decreases i,
{
    if i <= 0 {
        a
    } else {
        without_events(
            packet_processed(
                called(a, packets, receptions, i - 1),
                packets[i - 1],
                receptions[i - 1],
            ),
        )
    }
}

/// The events that the first `i` calls have handed out, in order.
pub open spec fn handed_out(
    a: AggregatorView,
    packets: Seq<Seq<u8>>,
    receptions: Seq<Reception>,
    i: int,
) -> Seq<RxEventView>
    decreases i,
{
    if i <= 0 {
        Seq::empty()
    } else {
        handed_out(a, packets, receptions, i - 1) + packet_processed(
            called(a, packets, receptions, i - 1),
            packets[i - 1],
            receptions[i - 1],
        ).link.events
    }
}

/// Over any sequence of calls the events that are handed out are those that the packets come to
/// together, so that what holds of the gathered events holds of the calls.
pub proof fn lemma_calls_hand_out(
    a: AggregatorView,
    packets: Seq<Seq<u8>>,
    receptions: Seq<Reception>,
    i: int,
)
    requires
        a.link.events == Seq::<RxEventView>::empty(),
    ensures
        packets_received(a, packets, receptions, i) == receiver_after(
            handed_out(a, packets, receptions, i),
            called(a, packets, receptions, i),
        ),
        called(a, packets, receptions, i).link.events == Seq::<RxEventView>::empty(),
    decreases i,
{
    let out = handed_out(a, packets, receptions, i);
    if i > 0 {
        let m = called(a, packets, receptions, i - 1);
        let before = handed_out(a, packets, receptions, i - 1);
        lemma_calls_hand_out(a, packets, receptions, i - 1);
        lemma_packet_after(before, m, packets[i - 1], receptions[i - 1]);
        let next = packet_processed(m, packets[i - 1], receptions[i - 1]);
        assert(before + next.link.events =~= out + Seq::<RxEventView>::empty());
    } else {
        assert(out + a.link.events =~= a.link.events);
    }
}

} // verus!
