//! What has come to the receiver is handed on or still waits, whatever comes next.
use crate::rx_ring::{
    block_opened, blocks_opened, blocks_to_open, completed, drained, found_block, fragment_received,
    fragment_taken, front_dropped, fronts_flushed, present, pushed_slot, repaired, same_blocks, sent,
    sent_next, sent_present, sent_rest, stored, with_block, LinkView, RxCounters, RxEventView,
    RX_RING_SIZE,
};
use crate::rx_ring::{
    lemma_behind_next, lemma_block_opened, lemma_blocks_increase, lemma_blocks_opened,
    lemma_counted_wf, lemma_drained, lemma_found_block, lemma_front_flushed, lemma_fronts_flushed,
    lemma_relabelled, lemma_repaired_wf, lemma_sent_next, lemma_sent_present_blocks,
    lemma_sent_rest, lemma_slot, lemma_start_below, lemma_stored, lemma_with_block,
};
use crate::stream_laws::lemma_opened_slots;
use crate::wifibroadcast::{MAX_BLOCK_IDX, MAX_FEC_PAYLOAD, WPACKET_HDR_SIZE};
use vstd::prelude::*;

verus! {

/// A fragment bears this payload: its flags do not keep it for the code alone, and behind its header are
/// as many bytes as the header states.
pub open spec fn bears(fragment: Seq<u8>, payload: Seq<u8>) -> bool {
    let size = fragment[1] * 256 + fragment[2];
    &&& fragment[0] & 1 == 0
    &&& size <= 3993
    &&& payload == fragment.subrange(3, 3 + size)
}

/// The payload of this event has come to ring item `r` and has not gone out.
pub open spec fn waits(l: LinkView, r: int, e: RxEventView) -> bool {
    e matches RxEventView::Payload { block_idx, fragment_idx, payload } && {
        &&& 0 <= r < 40
        &&& l.active(r)
        &&& l.ring[r].block_idx == block_idx
        &&& 0 <= l.ring[r].to_send <= fragment_idx < l.k
        &&& l.ring[r].map[fragment_idx] != 0
        &&& bears(l.ring[r].fragments[fragment_idx], payload)
    }
}

/// The payload of this event has come and has not gone out.
pub open spec fn waiting(l: LinkView, e: RxEventView) -> bool {
    exists|r: int| waits(l, r, e)
}

/// The event is one of those between `l` and `m`.
pub open spec fn handed(l: LinkView, m: LinkView, e: RxEventView) -> bool {
    exists|i: int| l.events.len() <= i < m.events.len() && #[trigger] m.events[i] == e
}

/// Events are only added.
pub open spec fn extends(l: LinkView, m: LinkView) -> bool {
    &&& l.events.len() <= m.events.len()
    &&& forall|i: int| 0 <= i < l.events.len() ==> #[trigger] m.events[i] == l.events[i]
}

/// What waited in `l` still waits in `m` or has been handed on.
pub open spec fn kept(l: LinkView, m: LinkView) -> bool {
    &&& extends(l, m)
    &&& forall|e: RxEventView| #[trigger] waiting(l, e) ==> waiting(m, e) || handed(l, m, e)
}

/// The event hands on a payload of another block than `b`.
pub open spec fn of_other(e: RxEventView, b: u64) -> bool {
    e matches RxEventView::Payload { block_idx, .. } && block_idx != b
}

/// Of other blocks than `b`, what waits in `m` or has been handed on had waited in `l`.
pub open spec fn none_added(l: LinkView, m: LinkView, b: u64) -> bool {
    &&& forall|e: RxEventView| of_other(e, b) && #[trigger] waiting(m, e) ==> waiting(l, e)
    &&& forall|e: RxEventView| of_other(e, b) && #[trigger] handed(l, m, e) ==> waiting(l, e)
}

pub proof fn lemma_kept_join(l: LinkView, m: LinkView, o: LinkView)
    requires
        kept(l, m),
        kept(m, o),
    ensures
        kept(l, o),
{
    assert forall|i: int| 0 <= i < l.events.len() implies #[trigger] o.events[i] == l.events[i] by {
        assert(m.events[i] == l.events[i]);
    }
    assert forall|e: RxEventView| #[trigger] waiting(l, e) implies waiting(o, e) || handed(l, o, e) by {
        if handed(l, m, e) {
            let i = choose|i: int| l.events.len() <= i < m.events.len() && #[trigger] m.events[i] == e;
            assert(o.events[i] == e);
        } else if handed(m, o, e) {
            let i = choose|i: int| m.events.len() <= i < o.events.len() && #[trigger] o.events[i] == e;
            assert(l.events.len() <= i);
        }
    }
}

spec fn step(l: LinkView, m: LinkView, b: u64) -> bool {
    kept(l, m) && none_added(l, m, b)
}

proof fn lemma_step_join(l: LinkView, m: LinkView, o: LinkView, b: u64)
    requires
        step(l, m, b),
        step(m, o, b),
    ensures
        step(l, o, b),
{
    lemma_kept_join(l, m, o);
    assert forall|e: RxEventView| of_other(e, b) && #[trigger] handed(l, o, e) implies waiting(l, e) by {
        let i = choose|i: int| l.events.len() <= i < o.events.len() && #[trigger] o.events[i] == e;
        if i < m.events.len() {
            assert(m.events[i] == e);
            assert(handed(l, m, e));
        } else {
            assert(handed(m, o, e));
            assert(waiting(m, e));
        }
    }
}

/// Where no event is added and the same waits, nothing has happened.
proof fn lemma_step_same(l: LinkView, m: LinkView, b: u64)
    requires
        m.events == l.events,
        forall|r: int, e: RxEventView| #[trigger] waits(l, r, e) ==> waits(m, r, e),
        forall|r: int, e: RxEventView|
            #![trigger waits(m, r, e)]
            of_other(e, b) && waits(m, r, e) ==> waits(l, r, e),
    ensures
        step(l, m, b),
{
    assert forall|e: RxEventView| #[trigger] waiting(l, e) implies waiting(m, e) by {
        let r = choose|r: int| waits(l, r, e);
        assert(waits(m, r, e));
    }
    assert forall|e: RxEventView| of_other(e, b) && #[trigger] waiting(m, e) implies waiting(l, e) by {
        let r = choose|r: int| waits(m, r, e);
        assert(waits(l, r, e));
    }
}

/// Sending a fragment hands on the payload that it bears, and no other.
proof fn lemma_sent_hands(l: LinkView, r: int, f: int)
    ensures
        extends(l, sent(l, r, f)),
        forall|p: Seq<u8>| #[trigger]
            bears(l.ring[r].fragments[f], p) ==> handed(
                l,
                sent(l, r, f),
                RxEventView::Payload { block_idx: l.ring[r].block_idx, fragment_idx: f, payload: p },
            ),
        forall|e: RxEventView| #[trigger]
            handed(l, sent(l, r, f), e) ==> (e matches RxEventView::Payload {
                block_idx,
                fragment_idx,
                payload,
            } ==> block_idx == l.ring[r].block_idx && fragment_idx == f && bears(
                l.ring[r].fragments[f],
                payload,
            )),
{
    let s = sent(l, r, f);
    assert forall|p: Seq<u8>| #[trigger] bears(l.ring[r].fragments[f], p) implies handed(
        l,
        s,
        RxEventView::Payload { block_idx: l.ring[r].block_idx, fragment_idx: f, payload: p },
    ) by {
        let i = s.events.len() - 1;
        assert(s.events[i] == RxEventView::Payload {
            block_idx: l.ring[r].block_idx,
            fragment_idx: f,
            payload: p,
        });
    }
}

/// Where a block goes out incomplete, the fragments of it that have come go out, all of them from `from` on,
/// and no others.
pub proof fn lemma_present_handed(l: LinkView, r: int, from: int)
    requires
        0 <= r < 40,
        l.active(r),
        0 <= l.ring[r].to_send <= from,
    ensures
        extends(l, sent_present(l, r, from)),
        same_blocks(sent_present(l, r, from), l),
        forall|e: RxEventView| #[trigger]
            waits(l, r, e) && e->Payload_fragment_idx >= from ==> handed(
                l,
                sent_present(l, r, from),
                e,
            ),
        forall|e: RxEventView|
            e is Payload && #[trigger] handed(l, sent_present(l, r, from), e) ==> waits(l, r, e),
    decreases l.k - from,
{
    let end = sent_present(l, r, from);
    lemma_sent_present_blocks(l, r, from);
    if from < l.k {
        if l.ring[r].map[from] != 0 {
            let s = sent(l, r, from);
            lemma_sent_hands(l, r, from);
            lemma_present_handed(s, r, from + 1);
            assert forall|i: int| 0 <= i < l.events.len() implies #[trigger] end.events[i]
                == l.events[i] by {
                assert(s.events[i] == l.events[i]);
            }
            assert forall|e: RxEventView| #[trigger]
                waits(l, r, e) && e->Payload_fragment_idx >= from implies handed(l, end, e) by {
                assert(waits(s, r, e));
                if e->Payload_fragment_idx == from {
                    assert(bears(l.ring[r].fragments[from], e->Payload_payload));
                    assert(handed(l, s, e));
                    let i = choose|i: int|
                        l.events.len() <= i < s.events.len() && #[trigger] s.events[i] == e;
                    assert(end.events[i] == e);
                } else {
                    let i = choose|i: int|
                        s.events.len() <= i < end.events.len() && #[trigger] end.events[i] == e;
                    assert(l.events.len() <= i);
                }
            }
            assert forall|e: RxEventView| e is Payload && #[trigger] handed(l, end, e) implies waits(
                l,
                r,
                e,
            ) by {
                let i = choose|i: int|
                    l.events.len() <= i < end.events.len() && #[trigger] end.events[i] == e;
                if i < s.events.len() {
                    assert(s.events[i] == e);
                    assert(handed(l, s, e));
                } else {
                    assert(handed(s, end, e));
                    assert(waits(s, r, e));
                }
            }
        } else {
            lemma_present_handed(l, r, from + 1);
        }
    }
}

/// The front block leaves the ring, and what has come of it goes out.
proof fn lemma_flushed_step(l: LinkView, m: LinkView, b: u64)
    requires
        0 <= l.front < 40,
        0 < l.alloc <= 40,
        0 <= l.ring[l.front].to_send,
        ({
            let s = sent_present(l, l.front, l.ring[l.front].to_send);
            m == front_dropped(s)
        }),
    ensures
        step(l, m, b),
{
    let t = l.ring[l.front].to_send;
    let s = sent_present(l, l.front, t);
    lemma_slot(l, l.front);
    lemma_slot(l, 0);
    assert(l.active(l.front));
    lemma_present_handed(l, l.front, t);
    assert forall|r: int, e: RxEventView| #[trigger] waits(l, r, e) && r != l.front implies waits(
        m,
        r,
        e,
    ) by {
        lemma_behind_next(l, r);
        assert(m.behind(r) == front_dropped(l).behind(r));
    }
    assert forall|r: int, e: RxEventView| #[trigger] waits(m, r, e) implies waits(l, r, e) by {
        lemma_behind_next(l, r);
        assert(m.behind(r) == front_dropped(l).behind(r));
        lemma_slot(l, r);
    }
    assert(m.events == s.events);
    assert forall|e: RxEventView| #[trigger] waiting(l, e) implies waiting(m, e) || handed(l, m, e) by {
        let r = choose|r: int| waits(l, r, e);
        if r == l.front {
            assert(handed(l, s, e));
            let i = choose|i: int| l.events.len() <= i < s.events.len() && #[trigger] s.events[i] == e;
            assert(m.events[i] == e);
        } else {
            assert(waits(m, r, e));
        }
    }
    assert forall|e: RxEventView| of_other(e, b) && #[trigger] waiting(m, e) implies waiting(l, e) by {
        let r = choose|r: int| waits(m, r, e);
        assert(waits(l, r, e));
    }
    assert forall|e: RxEventView| of_other(e, b) && #[trigger] handed(l, m, e) implies waiting(l, e) by {
        let i = choose|i: int| l.events.len() <= i < m.events.len() && #[trigger] m.events[i] == e;
        assert(s.events[i] == e);
        assert(handed(l, s, e));
        assert(waits(l, l.front, e));
    }
}

/// Opening a block gives up nothing but the front block of a full ring, and what has come of that goes
/// out.
proof fn lemma_opened_step(l: LinkView, b: u64, c: u64)
    requires
        l.wf(),
        b <= MAX_BLOCK_IDX,
        b <= l.last_known_block,
        l.last_known_block != u64::MAX,
        l.none_above(b - 1),
    ensures
        step(l, block_opened(l, b), c),
{
    let o = block_opened(l, b);
    let p = pushed_slot(l);
    lemma_opened_slots(l, b);
    let item = o.ring[p];
    assert forall|f: int| 0 <= f < l.n implies #[trigger] item.map[f] == 0 by {
        assert(l.ring[p].map.len() == l.n);
    }
    if l.alloc < RX_RING_SIZE {
        lemma_slot(l, l.alloc);
        assert forall|r: int, e: RxEventView| #[trigger] waits(l, r, e) implies waits(o, r, e) by {
            assert(r != p);
        }
        assert forall|r: int, e: RxEventView| #[trigger] waits(o, r, e) implies waits(l, r, e) by {
            if r != p {
                lemma_slot(l, r);
                assert(l.behind(r) != l.alloc);
            }
        }
        lemma_step_same(l, o, c);
    } else {
        let counted = LinkView {
            counters: RxCounters {
                count_p_override: l.counters.count_p_override.wrapping_add(1),
                ..l.counters
            },
            ..l
        };
        lemma_slot(l, l.front);
        lemma_slot(l, 0);
        assert(l.active(l.front) && l.block_wf(l.front));
        assert forall|r: int, e: RxEventView| #[trigger] waits(l, r, e) implies waits(counted, r, e) by {}
        assert forall|r: int, e: RxEventView| #[trigger] waits(counted, r, e) implies waits(l, r, e) by {}
        lemma_step_same(l, counted, c);
        let m = front_dropped(sent_present(counted, l.front, l.ring[l.front].to_send));
        lemma_flushed_step(counted, m, c);
        lemma_sent_present_blocks(counted, l.front, l.ring[l.front].to_send);
        assert forall|r: int, e: RxEventView| #[trigger] waits(m, r, e) implies waits(o, r, e) by {
            lemma_behind_next(l, r);
            assert(m.behind(r) == front_dropped(l).behind(r));
            assert(o.behind(r) == m.behind(r));
        }
        assert forall|r: int, e: RxEventView| #[trigger] waits(o, r, e) implies waits(m, r, e) by {
            if r != p {
                lemma_behind_next(l, r);
                lemma_slot(l, r);
                assert(o.behind(r) == m.behind(r));
                assert(m.behind(r) == front_dropped(l).behind(r));
            }
        }
        lemma_step_same(m, o, c);
        lemma_step_join(l, counted, m, c);
        lemma_step_join(l, m, o, c);
    }
}

proof fn lemma_blocks_opened_step(l: LinkView, b: u64, count: int, c: u64)
    requires
        l.wf(),
        b <= MAX_BLOCK_IDX,
        0 <= count <= b + 1,
        count > 0 ==> b <= l.last_known_block && l.last_known_block != u64::MAX,
        l.none_above(b - count),
    ensures
        step(l, blocks_opened(l, b, count), c),
    decreases count,
{
    if count > 0 {
        let m = blocks_opened(l, (b - 1) as u64, count - 1);
        if count > 1 {
            lemma_blocks_opened(l, (b - 1) as u64, count - 1);
            lemma_blocks_opened_step(l, (b - 1) as u64, count - 1, c);
        } else {
            lemma_step_same(l, m, c);
        }
        lemma_opened_step(m, b, c);
        lemma_step_join(l, m, block_opened(m, b), c);
    } else {
        lemma_step_same(l, l, c);
    }
}

proof fn lemma_with_block_step(l: LinkView, b: u64)
    requires
        l.wf(),
        b <= MAX_BLOCK_IDX,
    ensures
        step(l, with_block(l, b).0, b),
{
    if found_block(l, b, 0) is None && !(l.last_known_block != u64::MAX && b <= l.last_known_block) {
        let count = blocks_to_open(l, b);
        let start = LinkView { last_known_block: b, ..l };
        lemma_relabelled(l, b);
        lemma_start_below(l, start, b);
        assert forall|r: int, e: RxEventView| #[trigger] waits(l, r, e) implies waits(start, r, e) by {}
        assert forall|r: int, e: RxEventView| #[trigger] waits(start, r, e) implies waits(l, r, e) by {}
        lemma_step_same(l, start, b);
        lemma_blocks_opened_step(start, b, count, b);
        lemma_step_join(l, start, blocks_opened(start, b, count), b);
    } else {
        lemma_step_same(l, l, b);
    }
}

/// A fragment that goes out in its turn.
proof fn lemma_sent_next_step(l: LinkView, r: int)
    requires
        l.wf_but(r),
        l.ring[r].to_send < l.k,
    ensures
        step(l, sent_next(l, r), l.ring[r].block_idx),
{
    let b = l.ring[r].block_idx;
    let t = l.ring[r].to_send;
    let s = sent(l, r, t);
    let m = sent_next(l, r);
    lemma_sent_hands(l, r, t);
    lemma_sent_next(l, r);
    assert(m.events == s.events);
    assert forall|i: int| 0 <= i < l.events.len() implies #[trigger] m.events[i] == l.events[i] by {
        assert(s.events[i] == l.events[i]);
    }
    assert forall|e: RxEventView| #[trigger] waiting(l, e) implies waiting(m, e) || handed(l, m, e) by {
        let q = choose|q: int| waits(l, q, e);
        if q == r && e->Payload_fragment_idx == t {
            assert(bears(l.ring[r].fragments[t], e->Payload_payload));
            assert(handed(l, s, e));
            let i = choose|i: int| l.events.len() <= i < s.events.len() && #[trigger] s.events[i] == e;
            assert(m.events[i] == e);
        } else {
            assert(waits(m, q, e));
        }
    }
    assert forall|e: RxEventView| of_other(e, b) && #[trigger] waiting(m, e) implies waiting(l, e) by {
        let q = choose|q: int| waits(m, q, e);
        assert(waits(l, q, e));
    }
    assert forall|e: RxEventView| of_other(e, b) && #[trigger] handed(l, m, e) implies waiting(l, e) by {
        let i = choose|i: int| l.events.len() <= i < m.events.len() && #[trigger] m.events[i] == e;
        assert(s.events[i] == e);
        assert(handed(l, s, e));
    }
}

proof fn lemma_drained_step(l: LinkView, r: int)
    requires
        l.wf_but(r),
    ensures
        step(l, drained(l, r), l.ring[r].block_idx),
    decreases l.k - l.ring[r].to_send,
{
    if l.ring[r].to_send < l.k && l.ring[r].map[l.ring[r].to_send] != 0 {
        lemma_sent_next(l, r);
        lemma_sent_next_step(l, r);
        lemma_drained_step(sent_next(l, r), r);
        lemma_step_join(l, sent_next(l, r), drained(l, r), l.ring[r].block_idx);
    } else {
        lemma_step_same(l, l, l.ring[r].block_idx);
    }
}

proof fn lemma_sent_rest_step(l: LinkView, r: int)
    requires
        l.wf_but(r),
    ensures
        step(l, sent_rest(l, r), l.ring[r].block_idx),
    decreases l.k - l.ring[r].to_send,
{
    if l.ring[r].to_send < l.k {
        lemma_sent_next(l, r);
        lemma_sent_next_step(l, r);
        lemma_sent_rest_step(sent_next(l, r), r);
        lemma_step_join(l, sent_next(l, r), sent_rest(l, r), l.ring[r].block_idx);
    } else {
        lemma_step_same(l, l, l.ring[r].block_idx);
    }
}

/// A front block of which everything has gone out leaves the ring.
proof fn lemma_dropped_step(l: LinkView, b: u64)
    requires
        0 <= l.front < 40,
        0 < l.alloc <= 40,
        l.ring[l.front].to_send == l.k,
    ensures
        step(l, front_dropped(l), b),
{
    let m = front_dropped(l);
    assert forall|r: int, e: RxEventView| #[trigger] waits(l, r, e) implies waits(m, r, e) by {
        lemma_behind_next(l, r);
    }
    assert forall|r: int, e: RxEventView| #[trigger] waits(m, r, e) implies waits(l, r, e) by {
        lemma_behind_next(l, r);
    }
    lemma_step_same(l, m, b);
}

proof fn lemma_fronts_flushed_step(l: LinkView, r: int, b: u64)
    requires
        l.wf_but(r),
    ensures
        step(l, fronts_flushed(l, l.behind(r)), b),
    decreases l.behind(r),
{
    lemma_slot(l, r);
    if r == l.front {
        lemma_step_same(l, l, b);
    } else {
        let d = front_dropped(sent_present(l, l.front, l.ring[l.front].to_send));
        lemma_front_flushed(l, r);
        lemma_flushed_step(l, d, b);
        lemma_fronts_flushed_step(d, r, b);
        lemma_step_join(l, d, fronts_flushed(l, l.behind(r)), b);
    }
}

/// A block of which enough has come goes out in full, behind what has come of the blocks before it.
proof fn lemma_completed_step(l: LinkView, r: int)
    requires
        l.wf_but(r),
        l.ring[r].to_send < l.k,
    ensures
        step(l, completed(l, r), l.ring[r].block_idx),
{
    let b = l.ring[r].block_idx;
    let l1 = fronts_flushed(l, l.behind(r));
    lemma_fronts_flushed(l, r);
    lemma_fronts_flushed_step(l, r, b);
    let missing = l.k - l.ring[r].to_send - present(l.ring[r].map, l.ring[r].to_send, l.k);
    let l2 = if missing > 0 {
        repaired(l1, r)
    } else {
        l1
    };
    lemma_repaired_wf(l1, r);
    assert(l1.ring[r].fragments.len() == l1.n);
    assert forall|q: int, e: RxEventView| #[trigger] waits(l1, q, e) implies waits(l2, q, e) by {}
    assert forall|q: int, e: RxEventView|
        #![trigger waits(l2, q, e)]
        of_other(e, b) && waits(l2, q, e) implies waits(l1, q, e) by {}
    lemma_step_same(l1, l2, b);
    let l3 = LinkView {
        counters: RxCounters {
            count_p_fec_recovered: l2.counters.count_p_fec_recovered.wrapping_add(missing as u32),
            ..l2.counters
        },
        ..l2
    };
    lemma_counted_wf(l2, l3, r);
    assert forall|q: int, e: RxEventView| #[trigger] waits(l2, q, e) implies waits(l3, q, e) by {}
    assert forall|q: int, e: RxEventView| #[trigger] waits(l3, q, e) implies waits(l2, q, e) by {}
    lemma_step_same(l2, l3, b);
    lemma_sent_rest(l3, r);
    lemma_sent_rest_step(l3, r);
    let s = sent_rest(l3, r);
    lemma_slot(s, r);
    lemma_dropped_step(s, b);
    lemma_step_join(l, l1, l2, b);
    lemma_step_join(l, l2, l3, b);
    lemma_step_join(l, l3, s, b);
    lemma_step_join(l, s, front_dropped(s), b);
}

/// What becomes of a block to which a fragment has just come.
proof fn lemma_stored_step(l: LinkView, r: int, f: int, data: Seq<u8>)
    requires
        l.wf(),
        0 <= r < RX_RING_SIZE,
        l.active(r),
        0 <= f < l.n,
        l.ring[r].map[f] == 0,
        WPACKET_HDR_SIZE <= data.len() <= MAX_FEC_PAYLOAD,
    ensures
        step(stored(l, r, f, data), fragment_taken(l, r, f, data), l.ring[r].block_idx),
        step(l, stored(l, r, f, data), l.ring[r].block_idx),
{
    let b = l.ring[r].block_idx;
    let s = stored(l, r, f, data);
    let next = fragment_taken(l, r, f, data);
    assert(l.block_wf(r));
    lemma_stored(l, r, f, data);
    assert(l.ring[r].fragments.len() == l.n && l.ring[r].map.len() == l.n);
    assert forall|q: int, e: RxEventView| #[trigger] waits(l, q, e) implies waits(s, q, e) by {}
    assert forall|q: int, e: RxEventView|
        #![trigger waits(s, q, e)]
        of_other(e, b) && waits(s, q, e) implies waits(l, q, e) by {}
    lemma_step_same(l, s, b);
    let d = if r == l.front {
        drained(s, r)
    } else {
        s
    };
    lemma_slot(l, r);
    lemma_drained(s, r);
    if r == l.front {
        lemma_drained_step(s, r);
    } else {
        lemma_step_same(s, d, b);
    }
    if r == l.front && d.ring[r].to_send == d.k {
        lemma_dropped_step(d, b);
        lemma_step_join(s, d, next, b);
    } else if d.ring[r].to_send < d.k && d.ring[r].has == d.k {
        lemma_completed_step(d, r);
        lemma_step_join(s, d, next, b);
    }
}

/// Nothing that has come is given up: whatever fragment comes next, every payload that has come to a
/// block and has not gone out is handed on now or still waits, also where its block leaves the ring
/// incomplete, before a later block that is complete or to make room in a full ring.  Of other blocks
/// than that of the fragment nothing is handed on that had not come.
pub proof fn lemma_waiting_kept(l: LinkView, b: u64, f: int, data: Seq<u8>)
    requires
        l.wf(),
        b <= MAX_BLOCK_IDX,
        0 <= f < l.n,
        WPACKET_HDR_SIZE <= data.len() <= MAX_FEC_PAYLOAD,
    ensures
        kept(l, fragment_received(l, b, f, data)),
        none_added(l, fragment_received(l, b, f, data), b),
{
    let next = fragment_received(l, b, f, data);
    let (o, place) = with_block(l, b);
    lemma_with_block(l, b);
    lemma_with_block_step(l, b);
    if let Some(r) = place {
        if o.ring[r].map[f] == 0 {
            lemma_stored_step(o, r, f, data);
            lemma_step_join(o, stored(o, r, f, data), next, b);
            lemma_step_join(l, o, next, b);
        }
    }
}

/// Fragment `f` of block `b` has neither come nor gone by.
pub open spec fn awaited(l: LinkView, b: u64, f: int) -> bool {
    &&& forall|r: int|
        0 <= r < 40 && l.active(r) && (#[trigger] l.ring[r]).block_idx == b ==> l.ring[r].map[f] == 0
            && 0 <= l.ring[r].to_send <= f
    &&& (exists|r: int| 0 <= r < 40 && l.active(r) && (#[trigger] l.ring[r]).block_idx == b)
        || l.last_known_block == u64::MAX || b > l.last_known_block
}

/// The payload of a data fragment that comes in time is handed on at once or waits.
pub proof fn lemma_arrival_kept(l: LinkView, b: u64, f: int, data: Seq<u8>, payload: Seq<u8>)
    requires
        l.wf(),
        b <= MAX_BLOCK_IDX,
        0 <= f < l.k,
        WPACKET_HDR_SIZE <= data.len() <= MAX_FEC_PAYLOAD,
        awaited(l, b, f),
        bears(data, payload),
        3 + data[1] * 256 + data[2] <= data.len(),
    ensures
        ({
            let next = fragment_received(l, b, f, data);
            let e = RxEventView::Payload { block_idx: b, fragment_idx: f, payload };
            waiting(next, e) || handed(l, next, e)
        }),
{
    let next = fragment_received(l, b, f, data);
    let e = RxEventView::Payload { block_idx: b, fragment_idx: f, payload };
    let (o, place) = with_block(l, b);
    lemma_found_block(l, b, 0);
    lemma_with_block(l, b);
    lemma_with_block_step(l, b);
    if found_block(l, b, 0) is None {
        assert forall|r: int| 0 <= r < 40 && l.active(r) implies (#[trigger] l.ring[r]).block_idx != b by {
            lemma_slot(l, r);
        }
        let count = blocks_to_open(l, b);
        let start = LinkView { last_known_block: b, ..l };
        lemma_relabelled(l, b);
        lemma_start_below(l, start, b);
        let before = blocks_opened(start, (b - 1) as u64, count - 1);
        if count > 1 {
            lemma_blocks_opened(start, (b - 1) as u64, count - 1);
        }
        lemma_block_opened(before, b);
        assert(o == block_opened(before, b));
        assert(before.ring[place->0].map.len() == l.n);
    }
    let r = place->0;
    assert(o.ring[r].map[f] == 0 && 0 <= o.ring[r].to_send <= f);
    let s = stored(o, r, f, data);
    lemma_stored_step(o, r, f, data);
    assert(o.ring[r].fragments.len() == o.n && o.ring[r].map.len() == o.n);
    assert(o.ring[r].fragments[f].len() == crate::rx_ring::FRAGMENT_BUFFER);
    let buffer = s.ring[r].fragments[f];
    assert(buffer[0] == data[0] && buffer[1] == data[1] && buffer[2] == data[2]);
    assert(payload.len() == data[1] * 256 + data[2]);
    assert(buffer.subrange(3, 3 + payload.len() as int) =~= payload);
    assert(waits(s, r, e));
    assert(waiting(s, e));
    assert(s.events == o.events);
    if handed(s, next, e) {
        let i = choose|i: int| s.events.len() <= i < next.events.len() && #[trigger] next.events[i] == e;
        assert(l.events.len() <= i);
    }
}

/// As many blocks as lie between two of the ring, at least as far apart are their numbers.
proof fn lemma_numbers_apart(l: LinkView, i: int, j: int)
    requires
        l.wf(),
        0 <= i <= j < l.alloc,
    ensures
        l.ring[l.slot(i)].block_idx + (j - i) <= l.ring[l.slot(j)].block_idx,
    decreases j - i,
{
    if i < j {
        lemma_numbers_apart(l, i, j - 1);
        lemma_slot(l, j - 1);
        lemma_slot(l, j);
        lemma_blocks_increase(l, l.slot(j - 1), l.slot(j));
    }
}

/// A block stays in the ring while as many are opened as there is room for behind it.
proof fn lemma_opened_stays(l: LinkView, b: u64, count: int, r: int)
    requires
        l.wf(),
        b <= MAX_BLOCK_IDX,
        0 <= count <= b + 1,
        count > 0 ==> b <= l.last_known_block && l.last_known_block != u64::MAX,
        l.none_above(b - count),
        0 <= r < 40,
        l.active(r),
        l.alloc - l.behind(r) + count <= 40,
    ensures
        ({
            let o = blocks_opened(l, b, count);
            &&& o.active(r)
            &&& o.ring[r] == l.ring[r]
            &&& o.alloc - o.behind(r) == l.alloc - l.behind(r) + count
        }),
    decreases count,
{
    if count > 0 {
        let m = blocks_opened(l, (b - 1) as u64, count - 1);
        if count > 1 {
            lemma_blocks_opened(l, (b - 1) as u64, count - 1);
            lemma_opened_stays(l, (b - 1) as u64, count - 1, r);
        }
        let o = block_opened(m, b);
        lemma_opened_slots(m, b);
        lemma_slot(m, r);
        if m.alloc < RX_RING_SIZE {
            lemma_slot(m, m.alloc);
        } else {
            lemma_slot(m, m.front);
            lemma_behind_next(m, r);
            let c = LinkView {
                counters: RxCounters {
                    count_p_override: m.counters.count_p_override.wrapping_add(1),
                    ..m.counters
                },
                ..m
            };
            lemma_sent_present_blocks(c, m.front, m.ring[m.front].to_send);
            assert(o.behind(r) == front_dropped(m).behind(r));
        }
    }
}

proof fn lemma_flushed_stays(l: LinkView, r: int, q: int)
    requires
        l.wf_but(r),
        0 <= q < 40,
        l.active(q),
        l.behind(r) <= l.behind(q),
    ensures
        ({
            let m = fronts_flushed(l, l.behind(r));
            &&& m.active(q)
            &&& m.behind(q) == l.behind(q) - l.behind(r)
            &&& m.alloc == l.alloc - l.behind(r)
        }),
    decreases l.behind(r),
{
    lemma_slot(l, r);
    lemma_slot(l, q);
    if r != l.front {
        let d = front_dropped(sent_present(l, l.front, l.ring[l.front].to_send));
        lemma_sent_present_blocks(l, l.front, l.ring[l.front].to_send);
        lemma_front_flushed(l, r);
        lemma_behind_next(l, q);
        assert(d.behind(q) == front_dropped(l).behind(q));
        lemma_flushed_stays(d, r, q);
    }
}

/// A fragment of another block leaves a block alone that comes after it, or that has to wait for more.
proof fn lemma_taken_stays(l: LinkView, r: int, f: int, data: Seq<u8>, q: int)
    requires
        l.wf(),
        0 <= r < RX_RING_SIZE,
        l.active(r),
        0 <= f < l.n,
        WPACKET_HDR_SIZE <= data.len() <= MAX_FEC_PAYLOAD,
        0 <= q < 40,
        q != r,
        l.active(q),
        l.behind(r) < l.behind(q) || l.ring[r].has + 1 < l.k,
    ensures
        fragment_taken(l, r, f, data).active(q),
        fragment_taken(l, r, f, data).ring[q] == l.ring[q],
{
    if l.ring[r].map[f] == 0 {
        let s = stored(l, r, f, data);
        let next = fragment_taken(l, r, f, data);
        assert(l.block_wf(r));
        lemma_stored(l, r, f, data);
        lemma_drained(s, r);
        lemma_slot(l, r);
        lemma_slot(l, q);
        lemma_slot(l, 0);
        let d = if r == l.front {
            drained(s, r)
        } else {
            s
        };
        assert(l.ring.len() == 40);
        assert(d.ring[q] == l.ring[q]);
        if r == l.front && d.ring[r].to_send == d.k {
            lemma_behind_next(d, q);
        } else if d.ring[r].to_send < d.k && d.ring[r].has == d.k {
            let l1 = fronts_flushed(d, d.behind(r));
            lemma_flushed_stays(d, r, q);
            lemma_fronts_flushed(d, r);
            let missing = d.k - d.ring[r].to_send - present(d.ring[r].map, d.ring[r].to_send, d.k);
            let l2 = if missing > 0 {
                repaired(l1, r)
            } else {
                l1
            };
            lemma_repaired_wf(l1, r);
            let l3 = LinkView {
                counters: RxCounters {
                    count_p_fec_recovered: l2.counters.count_p_fec_recovered.wrapping_add(
                        missing as u32,
                    ),
                    ..l2.counters
                },
                ..l2
            };
            lemma_counted_wf(l2, l3, r);
            lemma_sent_rest(l3, r);
            let e = sent_rest(l3, r);
            lemma_slot(e, r);
            lemma_slot(e, q);
            lemma_behind_next(e, q);
            assert(e.behind(q) == l1.behind(q));
            assert(next == front_dropped(e));
        }
    }
}

/// A block does not leave the ring before its time: one that lacks fragments stays as it is, whatever
/// fragment of another block comes, unless that completes a later block or is of a block so far ahead
/// that the ring, which has room for forty, has to make room for it.
pub proof fn lemma_blocks_stay(l: LinkView, b: u64, f: int, data: Seq<u8>, q: int)
    requires
        l.wf(),
        b <= MAX_BLOCK_IDX,
        0 <= f < l.n,
        WPACKET_HDR_SIZE <= data.len() <= MAX_FEC_PAYLOAD,
        0 <= q < 40,
        l.active(q),
        b != l.ring[q].block_idx,
        b < l.ring[q].block_idx || {
            &&& b < l.ring[q].block_idx + 40
            &&& l.k > 1
            &&& forall|r: int|
                0 <= r < 40 && l.active(r) && (#[trigger] l.ring[r]).block_idx == b ==> l.ring[r].has + 1
                    < l.k
        },
    ensures
        fragment_received(l, b, f, data).active(q),
        fragment_received(l, b, f, data).ring[q] == l.ring[q],
{
    let (o, place) = with_block(l, b);
    let i = l.behind(q);
    lemma_slot(l, q);
    lemma_found_block(l, b, 0);
    lemma_with_block(l, b);
    lemma_blocks_increase(l, q, q);
    if found_block(l, b, 0) is None && b > l.last_known_block {
        let count = blocks_to_open(l, b);
        let start = LinkView { last_known_block: b, ..l };
        lemma_relabelled(l, b);
        lemma_start_below(l, start, b);
        lemma_numbers_apart(l, i, l.alloc - 1);
        lemma_slot(l, l.alloc - 1);
        lemma_blocks_increase(l, l.slot(l.alloc - 1), l.slot(l.alloc - 1));
        assert(start.behind(q) == l.behind(q));
        lemma_opened_stays(start, b, count, q);
        let before = blocks_opened(start, (b - 1) as u64, count - 1);
        if count > 1 {
            lemma_blocks_opened(start, (b - 1) as u64, count - 1);
        }
        lemma_block_opened(before, b);
        assert(o == block_opened(before, b));
    }
    if let Some(r) = place {
        assert(o.ring[q] == l.ring[q]);
        if b < l.ring[q].block_idx {
            lemma_slot(l, r);
            lemma_blocks_increase(l, q, r);
            if l.behind(r) == l.behind(q) {
                assert(l.slot(l.behind(r)) == r);
            }
        }
        lemma_taken_stays(o, r, f, data, q);
    }
}

/// The front block goes out without delay: when a fragment of it has come, either the block has left the
/// ring or the next fragment that is to go out has not come.
pub proof fn lemma_front_goes_out(l: LinkView, b: u64, f: int, data: Seq<u8>)
    requires
        l.wf(),
        b <= MAX_BLOCK_IDX,
        0 <= f < l.n,
        WPACKET_HDR_SIZE <= data.len() <= MAX_FEC_PAYLOAD,
        awaited(l, b, f) || f >= l.k,
        l.alloc > 0,
        l.ring[l.front].block_idx == b,
        l.ring[l.front].map[f] == 0,
    ensures
        ({
            let next = fragment_received(l, b, f, data);
            next.alloc > 0 && next.ring[next.front].block_idx == b ==> next.ring[next.front].to_send < l.k
                && next.ring[next.front].map[next.ring[next.front].to_send] == 0
        }),
{
    let next = fragment_received(l, b, f, data);
    let r = l.front;
    lemma_slot(l, r);
    lemma_slot(l, 0);
    assert(l.slot(0) == r);
    assert(found_block(l, b, 0) == Some(r));
    assert(l.active(r));
    let s = stored(l, r, f, data);
    lemma_stored(l, r, f, data);
    lemma_drained(s, r);
    let d = drained(s, r);
    assert(d.ring[r].block_idx == b);
    if d.ring[r].to_send == d.k {
        lemma_dropped_number(d);
    } else if d.ring[r].has == d.k {
        let l1 = fronts_flushed(d, d.behind(r));
        assert(l1 == d);
        let missing = d.k - d.ring[r].to_send - present(d.ring[r].map, d.ring[r].to_send, d.k);
        let l2 = if missing > 0 {
            repaired(l1, r)
        } else {
            l1
        };
        lemma_repaired_wf(l1, r);
        let l3 = LinkView {
            counters: RxCounters {
                count_p_fec_recovered: l2.counters.count_p_fec_recovered.wrapping_add(
                    missing as u32,
                ),
                ..l2.counters
            },
            ..l2
        };
        lemma_counted_wf(l2, l3, r);
        lemma_sent_rest(l3, r);
        lemma_dropped_number(sent_rest(l3, r));
    }
}

/// The block behind the front one has another number.
proof fn lemma_dropped_number(l: LinkView)
    requires
        l.wf_but(l.front),
    ensures
        ({
            let d = front_dropped(l);
            d.alloc > 0 ==> d.ring[d.front].block_idx > l.ring[l.front].block_idx
        }),
{
    let d = front_dropped(l);
    lemma_slot(l, 0);
    lemma_slot(l, l.front);
    if d.alloc > 0 {
        lemma_slot(l, 1);
        assert(l.slot(1) == d.front);
        lemma_blocks_increase(l, l.front, d.front);
    }
}

/// Block `d` is in the ring at `r`, and nothing of it has come.
pub open spec fn opened_at(l: LinkView, r: int, d: u64) -> bool {
    &&& 0 <= r < 40
    &&& l.active(r)
    &&& l.ring[r].block_idx == d
    &&& l.ring[r].to_send == 0
    &&& l.ring[r].has == 0
    &&& l.ring[r].map.len() == l.n
    &&& forall|f: int| 0 <= f < l.n ==> #[trigger] l.ring[r].map[f] == 0
}

proof fn lemma_opened_between(l: LinkView, b: u64, count: int, d: u64) -> (r: int)
    requires
        l.wf(),
        b <= MAX_BLOCK_IDX,
        1 <= count <= b + 1,
        b <= l.last_known_block && l.last_known_block != u64::MAX,
        l.none_above(b - count),
        b - count < d <= b,
        b < d + 40,
    ensures
        opened_at(blocks_opened(l, b, count), r, d),
        blocks_opened(l, b, count).alloc - blocks_opened(l, b, count).behind(r) == b - d + 1,
    decreases b - d,
{
    let m = blocks_opened(l, (b - 1) as u64, count - 1);
    if count > 1 {
        lemma_blocks_opened(l, (b - 1) as u64, count - 1);
    }
    let o = block_opened(m, b);
    lemma_block_opened(m, b);
    if d == b {
        let r = pushed_slot(m);
        assert(m.ring[r].map.len() == m.n);
        r
    } else {
        let r = lemma_opened_between(l, (b - 1) as u64, count - 1, d);
        assert(blocks_opened(m, (b - 1) as u64, 0) == m);
        assert(blocks_opened(m, b, 1) == o);
        lemma_opened_stays(m, b, 1, r);
        r
    }
}

/// Blocks that are passed over are waited for: when a fragment of a block ahead comes, the blocks between it
/// and the last one that was known, forty at most, have their places in the ring, so that what comes of
/// them later is taken.
pub proof fn lemma_passed_blocks_awaited(l: LinkView, b: u64, f: int, data: Seq<u8>, d: u64)
    requires
        l.wf(),
        l.k > 1,
        b <= MAX_BLOCK_IDX,
        0 <= f < l.n,
        WPACKET_HDR_SIZE <= data.len() <= MAX_FEC_PAYLOAD,
        l.last_known_block != u64::MAX,
        l.last_known_block < d < b,
        b < d + 40,
    ensures
        exists|r: int| #[trigger] opened_at(fragment_received(l, b, f, data), r, d),
        fragment_received(l, b, f, data).last_known_block == b,
{
    let next = fragment_received(l, b, f, data);
    let (o, place) = with_block(l, b);
    lemma_found_block(l, b, 0);
    lemma_with_block(l, b);
    if let Some(r) = found_block(l, b, 0) {
        lemma_blocks_increase(l, r, r);
    }
    let count = blocks_to_open(l, b);
    let start = LinkView { last_known_block: b, ..l };
    lemma_relabelled(l, b);
    lemma_start_below(l, start, b);
    let r = lemma_opened_between(start, b, count, d);
    let before = blocks_opened(start, (b - 1) as u64, count - 1);
    if count > 1 {
        lemma_blocks_opened(start, (b - 1) as u64, count - 1);
    }
    lemma_blocks_opened(start, b, count);
    lemma_block_opened(before, b);
    assert(o == block_opened(before, b));
    let q = place->0;
    assert(q != r);
    lemma_taken_stays(o, q, f, data, r);
    let s = stored(o, q, f, data);
    assert(o.ring[q].map.len() == o.n);
    lemma_stored(o, q, f, data);
    lemma_drained(s, q);
    assert(o.ring[q].has + 1 < o.k);
    assert(next.n == l.n && next.last_known_block == b);
    assert(opened_at(next, r, d));
}

} // verus!
