//! What the receiver's counters count.
use crate::block::{block_fragment, data_valid, stated_size};
use crate::rx_laws::{carries, data_in_place};
use crate::rx_laws::{
    lemma_all_present, lemma_carried_in_place, lemma_none_missing, lemma_repaired_in_place,
    lemma_stored_carried,
};
use crate::rx_ring::{
    blocks_opened, completed, drained, fragment_received, fragment_taken, front_dropped,
    fronts_flushed, packet_seq, present, repaired, sent, sent_next, sent_present, sent_rest, stored,
    with_block, LinkView, RxCounters, RX_RING_SIZE,
};
use crate::rx_ring::{
    lemma_drained, lemma_present_split, lemma_present_update, lemma_sent_next, lemma_slot,
    lemma_stored,
};
use crate::wifibroadcast::{MAX_FEC_PAYLOAD, WPACKET_HDR_SIZE};
use vstd::prelude::*;

verus! {

/// The counters of packets as they come in agree.
pub open spec fn same_intake(a: RxCounters, b: RxCounters) -> bool {
    &&& a.count_p_all == b.count_p_all
    &&& a.count_b_all == b.count_b_all
    &&& a.count_p_dec_err == b.count_p_dec_err
    &&& a.count_p_session == b.count_p_session
    &&& a.count_p_data == b.count_p_data
}

proof fn lemma_sent_present_counts(l: LinkView, r: int, from: int)
    ensures
        same_intake(sent_present(l, r, from).counters, l.counters),
        sent_present(l, r, from).counters.count_p_fec_recovered == l.counters.count_p_fec_recovered,
    decreases l.k - from,
{
    if from < l.k {
        if l.ring[r].map[from] != 0 {
            lemma_sent_present_counts(sent(l, r, from), r, from + 1);
        } else {
            lemma_sent_present_counts(l, r, from + 1);
        }
    }
}

proof fn lemma_blocks_opened_counts(l: LinkView, block_idx: u64, count: int)
    ensures
        same_intake(blocks_opened(l, block_idx, count).counters, l.counters),
        blocks_opened(l, block_idx, count).counters.count_p_fec_recovered
            == l.counters.count_p_fec_recovered,
    decreases count,
{
    if count > 0 {
        let b = blocks_opened(l, (block_idx - 1) as u64, count - 1);
        lemma_blocks_opened_counts(l, (block_idx - 1) as u64, count - 1);
        let c = LinkView {
            counters: RxCounters {
                count_p_override: b.counters.count_p_override.wrapping_add(1),
                ..b.counters
            },
            ..b
        };
        lemma_sent_present_counts(c, b.front, b.ring[b.front].to_send);
    }
}

/// Making room for a block counts nothing as received or rebuilt.
pub proof fn lemma_with_block_counts(l: LinkView, block_idx: u64)
    ensures
        same_intake(with_block(l, block_idx).0.counters, l.counters),
        with_block(l, block_idx).0.counters.count_p_fec_recovered
            == l.counters.count_p_fec_recovered,
{
    let start = LinkView { last_known_block: block_idx, ..l };
    lemma_blocks_opened_counts(
        start,
        block_idx,
        crate::rx_ring::blocks_to_open(l, block_idx),
    );
}

proof fn lemma_drained_counts(l: LinkView, r: int)
    ensures
        same_intake(drained(l, r).counters, l.counters),
        drained(l, r).counters.count_p_fec_recovered == l.counters.count_p_fec_recovered,
    decreases l.k - l.ring[r].to_send,
{
    if 0 <= r < l.ring.len() && l.ring[r].to_send < l.k && l.ring[r].map[l.ring[r].to_send] != 0 {
        lemma_drained_counts(sent_next(l, r), r);
    }
}

proof fn lemma_sent_rest_counts(l: LinkView, r: int)
    ensures
        same_intake(sent_rest(l, r).counters, l.counters),
        sent_rest(l, r).counters.count_p_fec_recovered == l.counters.count_p_fec_recovered,
    decreases l.k - l.ring[r].to_send,
{
    if 0 <= r < l.ring.len() && l.ring[r].to_send < l.k {
        lemma_sent_rest_counts(sent_next(l, r), r);
    }
}

proof fn lemma_fronts_flushed_counts(l: LinkView, count: int)
    ensures
        same_intake(fronts_flushed(l, count).counters, l.counters),
        fronts_flushed(l, count).counters.count_p_fec_recovered
            == l.counters.count_p_fec_recovered,
    decreases count,
{
    if count > 0 {
        let s = sent_present(l, l.front, l.ring[l.front].to_send);
        lemma_sent_present_counts(l, l.front, l.ring[l.front].to_send);
        lemma_fronts_flushed_counts(front_dropped(s), count - 1);
    }
}

/// Completing a block counts the fragments that are rebuilt.
proof fn lemma_completed_counts(l: LinkView, r: int)
    ensures
        same_intake(completed(l, r).counters, l.counters),
        completed(l, r).counters.count_p_fec_recovered
            == l.counters.count_p_fec_recovered.wrapping_add(
            (l.k - l.ring[r].to_send - present(l.ring[r].map, l.ring[r].to_send, l.k)) as u32,
        ),
{
    let l1 = fronts_flushed(l, l.behind(r));
    let missing = l.k - l.ring[r].to_send - present(l.ring[r].map, l.ring[r].to_send, l.k);
    let l2 = if missing > 0 {
        repaired(l1, r)
    } else {
        l1
    };
    let l3 = LinkView {
        counters: RxCounters {
            count_p_fec_recovered: l2.counters.count_p_fec_recovered.wrapping_add(missing as u32),
            ..l2.counters
        },
        ..l2
    };
    lemma_fronts_flushed_counts(l, l.behind(r));
    lemma_sent_rest_counts(l3, r);
}

/// A fragment, whatever becomes of it, is counted where its packet is opened and nowhere else.
pub proof fn lemma_fragment_counts(l: LinkView, block_idx: u64, f: int, data: Seq<u8>)
    ensures
        same_intake(fragment_received(l, block_idx, f, data).counters, l.counters),
{
    lemma_with_block_counts(l, block_idx);
    if let (o, Some(r)) = with_block(l, block_idx) {
        let s = stored(o, r, f, data);
        lemma_drained_counts(s, r);
        lemma_completed_counts(s, r);
        lemma_completed_counts(drained(s, r), r);
    }
}

/// Fragments are rebuilt only when the block has come to `k` of them, and then as many as data
/// fragments are missing.
pub proof fn lemma_taken_recovers(l: LinkView, r: int, f: int, data: Seq<Seq<u8>>)
    requires
        l.wf(),
        0 <= r < RX_RING_SIZE,
        l.active(r),
        carries(l, r, data),
        0 <= f < l.n,
        l.ring[r].map[f] == 0,
    ensures
        ({
            let d = block_fragment(data, f);
            let next = fragment_taken(l, r, f, d);
            let map = l.ring[r].map.update(f, d.len() as usize);
            next.counters.count_p_fec_recovered == (if l.ring[r].has + 1 < l.k {
                l.counters.count_p_fec_recovered
            } else {
                l.counters.count_p_fec_recovered.wrapping_add((l.k - present(map, 0, l.k)) as u32)
            })
        }),
{
    let d = block_fragment(data, f);
    let s = stored(l, r, f, d);
    assert(l.block_wf(r));
    lemma_stored_carried(l, r, f, data);
    lemma_stored(l, r, f, d);
    lemma_slot(l, r);
    let map = s.ring[r].map;
    let q = if r == l.front {
        drained(s, r)
    } else {
        s
    };
    lemma_drained(s, r);
    lemma_drained_counts(s, r);
    lemma_drained_prefix(s, r);
    lemma_present_update(l.ring[r].map, 0, l.n, f, d.len() as usize);
    let t = q.ring[r].to_send;
    lemma_all_present(map, t);
    lemma_present_split(map, 0, t, l.k);
    lemma_present_split(map, 0, l.k, l.n);
    lemma_present_bound(map, l.k, l.n);
    if t < q.k && q.ring[r].has == q.k {
        lemma_completed_counts(q, r);
    }
}

proof fn lemma_present_bound(map: Seq<usize>, from: int, to: int)
    ensures
        present(map, from, to) >= 0,
    decreases to - from,
{
    if from < to {
        lemma_present_bound(map, from, to - 1);
    }
}

/// What has gone out of a block had come.
proof fn lemma_drained_prefix(l: LinkView, r: int)
    requires
        l.wf_but(r),
        forall|f: int| 0 <= f < l.ring[r].to_send ==> #[trigger] l.ring[r].map[f] != 0,
    ensures
        forall|f: int| 0 <= f < drained(l, r).ring[r].to_send ==> #[trigger] l.ring[r].map[f] != 0,
    decreases l.k - l.ring[r].to_send,
{
    if l.ring[r].to_send < l.k && l.ring[r].map[l.ring[r].to_send] != 0 {
        lemma_sent_next(l, r);
        lemma_drained_prefix(sent_next(l, r), r);
    }
}

/// The next fragment that goes out follows the last one, or is the first.
pub open spec fn in_time(l: LinkView, block_idx: u64, f: int) -> bool {
    l.seq == 0 || packet_seq(block_idx, l.k, f) == l.seq.wrapping_add(1)
}

/// No more packets are counted as lost or bad.
pub open spec fn quiet(a: RxCounters, b: RxCounters) -> bool {
    a.count_p_lost == b.count_p_lost && a.count_p_bad == b.count_p_bad
}

/// A fragment that goes out in time with a payload of valid size is neither lost nor bad.
proof fn lemma_sent_in_time(l: LinkView, r: int, f: int, d: Seq<u8>)
    requires
        l.ring[r].fragments[f].len() >= d.len(),
        l.ring[r].fragments[f].take(d.len() as int) == d,
        WPACKET_HDR_SIZE <= d.len() <= MAX_FEC_PAYLOAD,
        stated_size(d) + WPACKET_HDR_SIZE == d.len(),
        0 <= f,
        l.k >= 0,
        in_time(l, l.ring[r].block_idx, f),
    ensures
        quiet(sent(l, r, f).counters, l.counters),
        in_time(sent(l, r, f), l.ring[r].block_idx, f + 1),
{
    let x = l.ring[r].fragments[f];
    assert(x[0] == d[0] && x[1] == d[1] && x[2] == d[2]);
    let p = l.ring[r].block_idx * l.k;
    assert(p >= 0) by (nonlinear_arith)
        requires
            p == l.ring[r].block_idx * l.k,
            l.k >= 0,
    ;
}

proof fn lemma_drained_in_time(l: LinkView, r: int, data: Seq<Seq<u8>>)
    requires
        l.wf_but(r),
        carries(l, r, data),
        in_time(l, l.ring[r].block_idx, l.ring[r].to_send),
    ensures
        quiet(drained(l, r).counters, l.counters),
        in_time(drained(l, r), l.ring[r].block_idx, drained(l, r).ring[r].to_send),
        carries(drained(l, r), r, data),
    decreases l.k - l.ring[r].to_send,
{
    let t = l.ring[r].to_send;
    if t < l.k && l.ring[r].map[t] != 0 {
        let s = sent_next(l, r);
        lemma_sent_next(l, r);
        lemma_carried_in_place(l, r, data, t);
        lemma_sent_in_time(l, r, t, data[t]);
        assert(carries(s, r, data));
        lemma_drained_in_time(s, r, data);
    }
}

proof fn lemma_sent_rest_in_time(l: LinkView, r: int, data: Seq<Seq<u8>>)
    requires
        l.wf_but(r),
        data.len() == l.k,
        data_valid(data),
        data_in_place(l, r, data, l.ring[r].to_send),
        in_time(l, l.ring[r].block_idx, l.ring[r].to_send),
    ensures
        quiet(sent_rest(l, r).counters, l.counters),
        in_time(sent_rest(l, r), l.ring[r].block_idx, l.k),
    decreases l.k - l.ring[r].to_send,
{
    let t = l.ring[r].to_send;
    if t < l.k {
        let s = sent_next(l, r);
        lemma_sent_next(l, r);
        assert(l.ring[r].fragments[t].len() >= data[t].len());
        lemma_sent_in_time(l, r, t, data[t]);
        assert forall|f: int| t + 1 <= f < s.k implies {
            &&& (#[trigger] s.ring[r].fragments[f]).len() >= data[f].len()
            &&& s.ring[r].fragments[f].take(data[f].len() as int) == data[f]
        } by {
            assert(l.ring[r].fragments[f].len() >= data[f].len());
        }
        lemma_sent_rest_in_time(s, r, data);
    }
}

proof fn lemma_completed_in_time(l: LinkView, r: int, data: Seq<Seq<u8>>)
    requires
        l.wf_but(r),
        r == l.front,
        carries(l, r, data),
        l.ring[r].has == l.k,
        l.ring[r].to_send < l.k,
        in_time(l, l.ring[r].block_idx, l.ring[r].to_send),
    ensures
        quiet(completed(l, r).counters, l.counters),
        in_time(completed(l, r), l.ring[r].block_idx, l.k),
{
    lemma_slot(l, r);
    assert(l.behind(r) == 0);
    assert(fronts_flushed(l, 0) == l);
    let b = l.ring[r];
    let missing = l.k - b.to_send - present(b.map, b.to_send, l.k);
    lemma_present_split(b.map, 0, b.to_send, l.k);
    lemma_all_present(b.map, b.to_send);
    lemma_present_split(b.map, b.to_send, b.to_send, l.k);
    let l2 = if missing > 0 {
        repaired(l, r)
    } else {
        l
    };
    if missing > 0 {
        lemma_repaired_in_place(l, r, data);
        crate::rx_ring::lemma_repaired_wf(l, r);
    } else {
        assert forall|f: int| b.to_send <= f < l.k implies {
            &&& (#[trigger] l.ring[r].fragments[f]).len() >= data[f].len()
            &&& l.ring[r].fragments[f].take(data[f].len() as int) == data[f]
        } by {
            lemma_none_missing(b.map, b.to_send, l.k, f);
            lemma_carried_in_place(l, r, data, f);
        }
    }
    let l3 = LinkView {
        counters: RxCounters {
            count_p_fec_recovered: l2.counters.count_p_fec_recovered.wrapping_add(missing as u32),
            ..l2.counters
        },
        ..l2
    };
    crate::rx_ring::lemma_counted_wf(l2, l3, r);
    assert(data_in_place(l3, r, data, b.to_send)) by {
        assert forall|f: int| b.to_send <= f < l3.k implies {
            &&& (#[trigger] l3.ring[r].fragments[f]).len() >= data[f].len()
            &&& l3.ring[r].fragments[f].take(data[f].len() as int) == data[f]
        } by {
            assert(l2.ring[r].fragments[f].len() >= data[f].len());
        }
    }
    lemma_sent_rest_in_time(l3, r, data);
}

/// As long as the front block goes out in time, nothing is counted as lost or bad.
pub proof fn lemma_taken_in_time(l: LinkView, f: int, data: Seq<Seq<u8>>)
    requires
        l.wf(),
        l.alloc > 0,
        carries(l, l.front, data),
        0 <= f < l.n,
        l.ring[l.front].map[f] == 0,
        in_time(l, l.ring[l.front].block_idx, l.ring[l.front].to_send),
    ensures
        ({
            let r = l.front;
            let next = fragment_taken(l, r, f, block_fragment(data, f));
            &&& quiet(next.counters, l.counters)
            &&& in_time(
                next,
                l.ring[r].block_idx,
                if l.ring[r].has + 1 < l.k {
                    next.ring[r].to_send
                } else {
                    l.k
                },
            )
        }),
{
    let r = l.front;
    let d = block_fragment(data, f);
    let s = stored(l, r, f, d);
    lemma_slot(l, r);
    assert(l.active(r) && l.block_wf(r));
    lemma_stored_carried(l, r, f, data);
    lemma_stored(l, r, f, d);
    lemma_drained(s, r);
    lemma_drained_in_time(s, r, data);
    lemma_drained_prefix(s, r);
    let q = drained(s, r);
    let map = s.ring[r].map;
    lemma_present_update(l.ring[r].map, 0, l.n, f, d.len() as usize);
    if q.ring[r].to_send == q.k {
        lemma_all_present(map, q.k);
        lemma_present_split(map, 0, q.k, q.n);
        lemma_present_bound(map, q.k, q.n);
    } else if q.ring[r].has == q.k {
        lemma_completed_in_time(q, r, data);
    }
}

/// Fragments follow each other from block to block.
pub proof fn lemma_next_in_time(l: LinkView, block_idx: u64)
    requires
        in_time(l, block_idx, l.k),
        block_idx < u64::MAX,
    ensures
        in_time(l, (block_idx + 1) as u64, 0),
{
    assert((block_idx + 1) * l.k == block_idx * l.k + l.k) by (nonlinear_arith);
}

} // verus!
