//! What the counters of the receiver tell of what was handed on.
use crate::bytes::be_value;
use crate::crypto::aead_opened;
use crate::link_laws::packets_received;
use crate::order_laws::lemma_fragment_in_order;
use crate::packet_laws::session_of;
use crate::packet_laws::lemma_session_begins;
use crate::rx::{packet_processed, AggregatorView};
use crate::rx_ring::{
    block_opened, blocks_opened, blocks_to_open, completed, drained, found_block, fragment_received,
    front_dropped, fronts_flushed, present, repaired, sent, sent_next, sent_present, sent_rest,
    session_started, stored, with_block, LinkView, RxCounters, RxEventView, RxFault, FRAGMENT_BUFFER,
    RX_RING_SIZE,
};
use crate::rx_ring::{
    lemma_blocks_increase, lemma_blocks_opened, lemma_counted_wf, lemma_drained, lemma_found_block,
    lemma_front_flushed, lemma_fronts_flushed, lemma_relabelled, lemma_repaired_wf,
    lemma_same_blocks_wf, lemma_sent_next, lemma_sent_present_blocks, lemma_session_started,
    lemma_slot, lemma_start_below, lemma_stored, lemma_with_block,
};
use crate::rx_stats::Reception;
use crate::wifibroadcast::{MAX_BLOCK_IDX, MAX_FEC_PAYLOAD, WPACKET_HDR_SIZE};
use vstd::prelude::*;

verus! {

/// The payloads among the events.
pub open spec fn payload_count(events: Seq<RxEventView>) -> int
    decreases events.len(),
{
    if events.len() == 0 {
        0
    } else {
        payload_count(events.drop_last()) + match events.last() {
            RxEventView::Payload { .. } => 1int,
            _ => 0int,
        }
    }
}

/// Their bytes.
pub open spec fn payload_sizes(events: Seq<RxEventView>) -> int
    decreases events.len(),
{
    if events.len() == 0 {
        0
    } else {
        payload_sizes(events.drop_last()) + match events.last() {
            RxEventView::Payload { payload, .. } => payload.len() as int,
            _ => 0int,
        }
    }
}

/// The packets that are reported as lost.
pub open spec fn losses(events: Seq<RxEventView>) -> int
    decreases events.len(),
{
    if events.len() == 0 {
        0
    } else {
        losses(events.drop_last()) + match events.last() {
            RxEventView::Loss { lost_count, .. } => lost_count as int,
            _ => 0int,
        }
    }
}

/// The fragments that are reported as corrupted.
pub open spec fn corrupted(events: Seq<RxEventView>) -> int
    decreases events.len(),
{
    if events.len() == 0 {
        0
    } else {
        corrupted(events.drop_last()) + match events.last() {
            RxEventView::Fault(RxFault::CorruptedPacket(_)) => 1int,
            _ => 0int,
        }
    }
}

/// `d` is `c` and `n` more, in 32 bits.
pub open spec fn grown(c: u32, d: u32, n: int) -> bool {
    (c + n - d) % 0x1_0000_0000 == 0
}

/// From `l` to `m` the counters have grown by what the events tell.
pub open spec fn accounted(l: LinkView, m: LinkView) -> bool {
    let (e, f) = (l.events, m.events);
    &&& grown(
        l.counters.count_p_outgoing,
        m.counters.count_p_outgoing,
        payload_count(f) - payload_count(e),
    )
    &&& grown(
        l.counters.count_b_outgoing,
        m.counters.count_b_outgoing,
        payload_sizes(f) - payload_sizes(e),
    )
    &&& grown(l.counters.count_p_lost, m.counters.count_p_lost, losses(f) - losses(e))
    &&& grown(l.counters.count_p_bad, m.counters.count_p_bad, corrupted(f) - corrupted(e))
}

proof fn lemma_accounted_join(l: LinkView, m: LinkView, o: LinkView)
    requires
        accounted(l, m),
        accounted(m, o),
    ensures
        accounted(l, o),
{
}

/// The ring items have buffers that hold every payload that their fragments may state.
spec fn roomy(l: LinkView) -> bool {
    &&& l.k <= l.n
    &&& l.buffers_wf()
}

proof fn lemma_sent_accounted(l: LinkView, r: int, f: int)
    requires
        l.ring[r].fragments[f].len() == 4000,
    ensures
        accounted(l, sent(l, r, f)),
{
    let s = sent(l, r, f);
    let e = s.events;
    reveal_with_fuel(payload_count, 3);
    reveal_with_fuel(payload_sizes, 3);
    reveal_with_fuel(losses, 3);
    reveal_with_fuel(corrupted, 3);
    let n = l.events.len() as int;
    if e.len() == n + 2 {
        assert(e.drop_last().drop_last() =~= l.events);
        assert(e.drop_last().last() == e[n]);
    } else if e.len() == n + 1 {
        assert(e.drop_last() =~= l.events);
    } else {
        assert(e =~= l.events);
    }
}

proof fn lemma_sent_present_accounted(l: LinkView, r: int, from: int)
    requires
        0 <= r < 40,
        0 <= from,
        roomy(l),
    ensures
        accounted(l, sent_present(l, r, from)),
    decreases l.k - from,
{
    if from < l.k {
        if l.ring[r].map[from] != 0 {
            assert(l.ring[r].fragments.len() == l.n);
            lemma_sent_accounted(l, r, from);
            lemma_sent_present_accounted(sent(l, r, from), r, from + 1);
            lemma_accounted_join(l, sent(l, r, from), sent_present(l, r, from));
        } else {
            lemma_sent_present_accounted(l, r, from + 1);
        }
    }
}

proof fn lemma_opened_accounted(l: LinkView, b: u64)
    requires
        l.wf(),
    ensures
        accounted(l, block_opened(l, b)),
{
    if l.alloc == RX_RING_SIZE {
        let c = LinkView {
            counters: RxCounters {
                count_p_override: l.counters.count_p_override.wrapping_add(1),
                ..l.counters
            },
            ..l
        };
        lemma_slot(l, l.front);
        lemma_slot(l, 0);
        assert(l.active(l.front) && l.block_wf(l.front));
        assert(roomy(c)) by {
            assert forall|r: int| 0 <= r < RX_RING_SIZE implies {
                &&& (#[trigger] c.ring[r]).fragments.len() == c.n
                &&& c.ring[r].map.len() == c.n
                &&& forall|f: int|
                    0 <= f < c.n ==> (#[trigger] c.ring[r].fragments[f]).len() == FRAGMENT_BUFFER
            } by {
                assert(l.ring[r].fragments.len() == l.n);
            }
        }
        lemma_sent_present_accounted(c, l.front, l.ring[l.front].to_send);
    }
}

proof fn lemma_blocks_opened_accounted(l: LinkView, b: u64, count: int)
    requires
        l.wf(),
        b <= MAX_BLOCK_IDX,
        0 <= count <= b + 1,
        count > 0 ==> b <= l.last_known_block && l.last_known_block != u64::MAX,
        l.none_above(b - count),
    ensures
        accounted(l, blocks_opened(l, b, count)),
    decreases count,
{
    if count > 0 {
        let m = blocks_opened(l, (b - 1) as u64, count - 1);
        if count > 1 {
            lemma_blocks_opened(l, (b - 1) as u64, count - 1);
            lemma_blocks_opened_accounted(l, (b - 1) as u64, count - 1);
        }
        lemma_opened_accounted(m, b);
        lemma_accounted_join(l, m, block_opened(m, b));
    }
}

proof fn lemma_with_block_accounted(l: LinkView, b: u64)
    requires
        l.wf(),
        b <= MAX_BLOCK_IDX,
    ensures
        accounted(l, with_block(l, b).0),
{
    if found_block(l, b, 0) is None && !(l.last_known_block != u64::MAX && b <= l.last_known_block) {
        let start = LinkView { last_known_block: b, ..l };
        lemma_relabelled(l, b);
        lemma_start_below(l, start, b);
        lemma_blocks_opened_accounted(start, b, blocks_to_open(l, b));
    }
}

proof fn lemma_sent_next_accounted(l: LinkView, r: int)
    requires
        l.wf_but(r),
        l.ring[r].to_send < l.k,
    ensures
        accounted(l, sent_next(l, r)),
{
    assert(l.ring[r].fragments.len() == l.n);
    lemma_sent_accounted(l, r, l.ring[r].to_send);
}

proof fn lemma_drained_accounted(l: LinkView, r: int)
    requires
        l.wf_but(r),
    ensures
        accounted(l, drained(l, r)),
    decreases l.k - l.ring[r].to_send,
{
    if l.ring[r].to_send < l.k && l.ring[r].map[l.ring[r].to_send] != 0 {
        lemma_sent_next(l, r);
        lemma_sent_next_accounted(l, r);
        lemma_drained_accounted(sent_next(l, r), r);
        lemma_accounted_join(l, sent_next(l, r), drained(l, r));
    }
}

proof fn lemma_sent_rest_accounted(l: LinkView, r: int)
    requires
        l.wf_but(r),
    ensures
        accounted(l, sent_rest(l, r)),
    decreases l.k - l.ring[r].to_send,
{
    if l.ring[r].to_send < l.k {
        lemma_sent_next(l, r);
        lemma_sent_next_accounted(l, r);
        lemma_sent_rest_accounted(sent_next(l, r), r);
        lemma_accounted_join(l, sent_next(l, r), sent_rest(l, r));
    }
}

proof fn lemma_fronts_flushed_accounted(l: LinkView, r: int)
    requires
        l.wf_but(r),
    ensures
        accounted(l, fronts_flushed(l, l.behind(r))),
    decreases l.behind(r),
{
    lemma_slot(l, r);
    if r != l.front {
        let t = l.ring[l.front].to_send;
        let d = front_dropped(sent_present(l, l.front, t));
        lemma_front_flushed(l, r);
        lemma_sent_present_accounted(l, l.front, t);
        lemma_fronts_flushed_accounted(d, r);
        lemma_accounted_join(l, d, fronts_flushed(l, l.behind(r)));
    }
}

proof fn lemma_completed_accounted(l: LinkView, r: int)
    requires
        l.wf_but(r),
        l.ring[r].to_send < l.k,
    ensures
        accounted(l, completed(l, r)),
{
    let l1 = fronts_flushed(l, l.behind(r));
    lemma_fronts_flushed(l, r);
    lemma_fronts_flushed_accounted(l, r);
    let missing = l.k - l.ring[r].to_send - present(l.ring[r].map, l.ring[r].to_send, l.k);
    let l2 = if missing > 0 {
        repaired(l1, r)
    } else {
        l1
    };
    lemma_repaired_wf(l1, r);
    let l3 = LinkView {
        counters: RxCounters {
            count_p_fec_recovered: l2.counters.count_p_fec_recovered.wrapping_add(missing as u32),
            ..l2.counters
        },
        ..l2
    };
    lemma_counted_wf(l2, l3, r);
    lemma_sent_rest_accounted(l3, r);
    lemma_accounted_join(l, l3, sent_rest(l3, r));
}

/// Whatever fragment comes, the counters tell of what it leads to: as many packets and bytes go out as
/// payloads are handed on, as many are counted as lost as are reported, and as many as bad as are reported
/// to be corrupted.
pub proof fn lemma_fragment_accounted(l: LinkView, b: u64, f: int, data: Seq<u8>)
    requires
        l.wf(),
        b <= MAX_BLOCK_IDX,
        0 <= f < l.n,
        WPACKET_HDR_SIZE <= data.len() <= MAX_FEC_PAYLOAD,
    ensures
        accounted(l, fragment_received(l, b, f, data)),
{
    let next = fragment_received(l, b, f, data);
    let (o, place) = with_block(l, b);
    lemma_with_block(l, b);
    lemma_with_block_accounted(l, b);
    if let Some(r) = place {
        if o.ring[r].map[f] == 0 {
            let s = stored(o, r, f, data);
            assert(o.block_wf(r));
            lemma_stored(o, r, f, data);
            lemma_drained(s, r);
            lemma_drained_accounted(s, r);
            let d = if r == o.front {
                drained(s, r)
            } else {
                s
            };
            assert(accounted(o, d));
            if !(r == o.front && d.ring[r].to_send == d.k) && d.ring[r].to_send < d.k && d.ring[r].has
                == d.k {
                lemma_completed_accounted(d, r);
            }
            assert(accounted(d, next));
            lemma_accounted_join(o, d, next);
            lemma_accounted_join(l, o, next);
        }
    }
}

/// A fragment that goes out: its sequence number is its place among all data fragments.  If it states a size
/// that no payload has, it is reported as corrupted and counted as bad; if it is there for the code alone,
/// it goes out in silence; if not, its payload is handed on and counted.
pub proof fn lemma_fragment_sent(l: LinkView, r: int, f: int)
    requires
        l.ring[r].fragments[f].len() == 4000,
    ensures
        ({
            let x = l.ring[r].fragments[f];
            let size = x[1] * 256 + x[2];
            let s = sent(l, r, f);
            let (c, d) = (l.counters, s.counters);
            let tail = s.events.skip(l.events.len() as int);
            &&& s.seq == (l.ring[r].block_idx * l.k + f) % 0x1_0000_0000
            &&& s == (LinkView { seq: s.seq, counters: d, events: s.events, ..l })
            &&& s.events == l.events + tail
            &&& size > 3993 ==> {
                &&& tail.len() > 0
                &&& tail.last() == RxEventView::Fault(RxFault::CorruptedPacket(s.seq))
                &&& grown(c.count_p_bad, d.count_p_bad, 1)
                &&& d.count_p_outgoing == c.count_p_outgoing
                &&& d.count_b_outgoing == c.count_b_outgoing
            }
            &&& size <= 3993 ==> d.count_p_bad == c.count_p_bad
            &&& size <= 3993 && x[0] & 1 != 0 ==> {
                &&& tail.len() == 0 || tail.len() == 1 && tail[0] is Loss
                &&& d.count_p_outgoing == c.count_p_outgoing
                &&& d.count_b_outgoing == c.count_b_outgoing
            }
            &&& size <= 3993 && x[0] & 1 == 0 ==> {
                &&& tail.len() > 0
                &&& tail.last() == RxEventView::Payload {
                    block_idx: l.ring[r].block_idx,
                    fragment_idx: f,
                    payload: x.subrange(3, 3 + size),
                }
                &&& grown(c.count_p_outgoing, d.count_p_outgoing, 1)
                &&& grown(c.count_b_outgoing, d.count_b_outgoing, size)
            }
            &&& l.seq == 0 ==> d.count_p_lost == c.count_p_lost
        }),
{
    let s = sent(l, r, f);
    let tail = s.events.skip(l.events.len() as int);
    assert(s.events =~= l.events + tail);
}

/// The counters of what goes out have grown by what the events tell.
pub open spec fn output_accounted(l: LinkView, m: LinkView) -> bool {
    let (e, f) = (l.events, m.events);
    &&& grown(
        l.counters.count_p_outgoing,
        m.counters.count_p_outgoing,
        payload_count(f) - payload_count(e),
    )
    &&& grown(
        l.counters.count_b_outgoing,
        m.counters.count_b_outgoing,
        payload_sizes(f) - payload_sizes(e),
    )
    &&& grown(l.counters.count_p_lost, m.counters.count_p_lost, losses(f) - losses(e))
}

/// A session is open and in order, or none is open.
pub open spec fn link_ready(l: LinkView) -> bool {
    l.wf() || l.n <= 0
}

proof fn lemma_packet_accounted(a: AggregatorView, packet: Seq<u8>, q: Reception)
    requires
        link_ready(a.link),
    ensures
        link_ready(packet_processed(a, packet, q).link),
        output_accounted(a.link, packet_processed(a, packet, q).link),
{
    let c = a.link.counters;
    let next = packet_processed(a, packet, q).link;
    let l = LinkView {
        counters: RxCounters {
            count_p_all: c.count_p_all.wrapping_add(1),
            count_b_all: c.count_b_all.wrapping_add(packet.len() as u32),
            count_p_data: c.count_p_data.wrapping_add(1),
            ..c
        },
        ..a.link
    };
    let number = be_value(packet.subrange(1, 9)) as u64;
    let m = aead_opened(
        a.session_key,
        packet.subrange(1, 9),
        packet.take(9),
        packet.skip(9),
    )->0;
    if a.link.wf() {
        lemma_same_blocks_wf(l, a.link);
    }
    if next == fragment_received(l, number / 256, (number % 256) as int, m) && number / 256
        <= MAX_BLOCK_IDX && number % 256 < l.n && WPACKET_HDR_SIZE <= m.len() <= MAX_FEC_PAYLOAD {
        lemma_fragment_accounted(l, number / 256, (number % 256) as int, m);
        lemma_fragment_in_order(l, number / 256, (number % 256) as int, m);
    } else {
        if next.events.len() > a.link.events.len() {
            assert(next.events.drop_last() =~= a.link.events);
        }
        let opened = packet_processed(a, packet, q);
        if opened.session_key != a.session_key {
            lemma_session_begins(a, packet, q);
            let d = session_of(a, packet)->0;
            let counted = LinkView { counters: next.counters, ..a.link };
            lemma_session_started(counted, d[13] as int, d[14] as int);
            let started = session_started(counted, d[13] as int, d[14] as int);
            assert(next == (LinkView { events: next.events, ..started }));
            lemma_same_blocks_wf(next, started);
        } else {
            assert(next == (LinkView { counters: next.counters, events: next.events, ..a.link }));
            if a.link.wf() {
                lemma_same_blocks_wf(next, a.link);
            }
        }
    }
}

/// Over any packets, of one session or of several, the counters of a report tell of what was handed on:
/// the payloads, their bytes, and the losses that were reported.
pub proof fn lemma_packets_accounted(
    a: AggregatorView,
    packets: Seq<Seq<u8>>,
    receptions: Seq<Reception>,
    i: int,
)
    requires
        link_ready(a.link),
        0 <= i <= packets.len(),
    ensures
        link_ready(packets_received(a, packets, receptions, i).link),
        output_accounted(a.link, packets_received(a, packets, receptions, i).link),
    decreases i,
{
    if i > 0 {
        lemma_packets_accounted(a, packets, receptions, i - 1);
        lemma_packet_accounted(
            packets_received(a, packets, receptions, i - 1),
            packets[i - 1],
            receptions[i - 1],
        );
    }
}

/// As many blocks are given up to make room as there are too many for forty places.
proof fn lemma_opened_given_up(l: LinkView, b: u64, count: int)
    requires
        l.wf(),
        b <= MAX_BLOCK_IDX,
        0 <= count <= b + 1,
        count > 0 ==> b <= l.last_known_block && l.last_known_block != u64::MAX,
        l.none_above(b - count),
    ensures
        ({
            let o = blocks_opened(l, b, count);
            let over = l.alloc + count - 40;
            &&& o.alloc == (if over > 0 {
                40
            } else {
                l.alloc + count
            })
            &&& grown(
                l.counters.count_p_override,
                o.counters.count_p_override,
                if over > 0 {
                    over
                } else {
                    0
                },
            )
        }),
    decreases count,
{
    if count > 0 {
        let m = blocks_opened(l, (b - 1) as u64, count - 1);
        if count > 1 {
            lemma_blocks_opened(l, (b - 1) as u64, count - 1);
            lemma_opened_given_up(l, (b - 1) as u64, count - 1);
        }
        let c = LinkView {
            counters: RxCounters {
                count_p_override: m.counters.count_p_override.wrapping_add(1),
                ..m.counters
            },
            ..m
        };
        lemma_sent_present_blocks(c, m.front, m.ring[m.front].to_send);
        lemma_override_kept(c, m.front, m.ring[m.front].to_send);
    }
}

proof fn lemma_override_kept(l: LinkView, r: int, from: int)
    ensures
        sent_present(l, r, from).counters.count_p_override == l.counters.count_p_override,
    decreases l.k - from,
{
    if from < l.k {
        if l.ring[r].map[from] != 0 {
            lemma_override_kept(sent(l, r, from), r, from + 1);
        } else {
            lemma_override_kept(l, r, from + 1);
        }
    }
}

/// Making room for a block gives up, and counts, as many blocks as the ring is short of places, and none as
/// long as it has room.
pub proof fn lemma_given_up_counted(l: LinkView, b: u64)
    requires
        l.wf(),
        b <= MAX_BLOCK_IDX,
        l.last_known_block == u64::MAX || l.last_known_block < b,
    ensures
        ({
            let o = with_block(l, b).0;
            let ahead = if l.last_known_block == u64::MAX {
                1
            } else {
                b - l.last_known_block
            };
            let opened = if ahead < 40 {
                ahead
            } else {
                40
            };
            let over = l.alloc + opened - 40;
            grown(
                l.counters.count_p_override,
                o.counters.count_p_override,
                if over > 0 {
                    over
                } else {
                    0
                },
            )
        }),
{
    lemma_found_block(l, b, 0);
    if let Some(r) = found_block(l, b, 0) {
        lemma_blocks_increase(l, r, r);
    }
    let start = LinkView { last_known_block: b, ..l };
    lemma_relabelled(l, b);
    lemma_start_below(l, start, b);
    lemma_opened_given_up(start, b, blocks_to_open(l, b));
}

} // verus!
