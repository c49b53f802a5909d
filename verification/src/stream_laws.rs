//! What the receiver hands on of the stream of payloads, whatever is lost, repeated or late.
use crate::block::{block_fragment, data_valid, payload_of, payloads_between};
use crate::block::lemma_payloads_split;
use crate::counter_laws::{in_time, quiet};
use crate::counter_laws::{
    lemma_next_in_time, lemma_taken_in_time, lemma_taken_recovers, lemma_with_block_counts,
};
use crate::rx_laws::{carries, payloads, restamped};
use crate::rx_laws::{
    lemma_carried_in_place, lemma_completed_payloads, lemma_fragment_taken, lemma_sent_payload,
    lemma_stored_carried,
};
use crate::rx_ring::{
    blank, block_opened, blocks_opened, blocks_to_open, completed, found_block, fragment_received,
    fragment_taken, front_dropped, fronts_flushed, present, pushed_slot, sent, sent_present, stored, with_block,
    LinkView, RxCounters, RX_RING_SIZE,
};
use crate::rx_ring::{
    lemma_block_opened, lemma_blocks_increase, lemma_found_block, lemma_front_flushed,
    lemma_fronts_flushed, lemma_start_below,
    lemma_present_update, lemma_relabelled, lemma_same_blocks_wf, lemma_sent_present_blocks,
    lemma_slot, lemma_stored, lemma_with_block,
};
use crate::wifibroadcast::{MAX_BLOCK_IDX, MAX_FEC_PAYLOAD, WPACKET_HDR_SIZE};
use vstd::prelude::*;

verus! {

/// Every block of a stream has its `k` data fragments.
pub open spec fn stream_valid(blocks: spec_fn(u64) -> Seq<Seq<u8>>, k: int) -> bool {
    forall|b: u64|
        b <= MAX_BLOCK_IDX ==> (#[trigger] blocks(b)).len() == k && data_valid(blocks(b))
}

/// Places in a stream are blocks and data fragments in them.  Whether one place comes before another.
pub open spec fn before(p: (int, int), q: (int, int)) -> bool {
    p.0 < q.0 || (p.0 == q.0 && p.1 < q.1)
}

/// Different places of a stream in order, from `from` on and before `to`.
pub open spec fn in_order(k: int, from: (int, int), to: (int, int), places: Seq<(int, int)>) -> bool {
    &&& forall|i: int|
        0 <= i < places.len() ==> {
            &&& 0 <= (#[trigger] places[i]).0 <= MAX_BLOCK_IDX
            &&& 0 <= places[i].1 < k
            &&& !before(places[i], from)
            &&& before(places[i], to)
        }
    &&& forall|i: int, j: int|
        0 <= i < j < places.len() ==> before(#[trigger] places[i], #[trigger] places[j])
}

/// The payloads at these places of a stream.
pub open spec fn payloads_at(
    blocks: spec_fn(u64) -> Seq<Seq<u8>>,
    places: Seq<(int, int)>,
) -> Seq<Seq<u8>>
    decreases places.len(),
{
    if places.len() == 0 {
        Seq::empty()
    } else {
        let p = places.last();
        payloads_at(blocks, places.drop_last()) + payload_of(blocks(p.0 as u64)[p.1])
    }
}

/// Payloads of a stream from `from` on and before `to`, some or all of them, each at most once and in
/// order.
pub open spec fn part_of_stream(
    blocks: spec_fn(u64) -> Seq<Seq<u8>>,
    k: int,
    from: (int, int),
    to: (int, int),
    x: Seq<Seq<u8>>,
) -> bool {
    exists|places: Seq<(int, int)>| #[trigger]
        in_order(k, from, to, places) && x == payloads_at(blocks, places)
}

proof fn lemma_no_part(
    blocks: spec_fn(u64) -> Seq<Seq<u8>>,
    k: int,
    from: (int, int),
    to: (int, int),
)
    ensures
        part_of_stream(blocks, k, from, to, Seq::empty()),
{
    assert(in_order(k, from, to, Seq::empty()));
}

proof fn lemma_one_part(blocks: spec_fn(u64) -> Seq<Seq<u8>>, k: int, b: int, f: int)
    requires
        0 <= b <= MAX_BLOCK_IDX,
        0 <= f < k,
    ensures
        part_of_stream(blocks, k, (b, f), (b, f + 1), payload_of(blocks(b as u64)[f])),
{
    let places = seq![(b, f)];
    assert(in_order(k, (b, f), (b, f + 1), places));
    assert(places.drop_last() =~= Seq::empty());
    reveal_with_fuel(payloads_at, 2);
    assert(payloads_at(blocks, places) =~= payload_of(blocks(b as u64)[f]));
}

proof fn lemma_payloads_at_add(
    blocks: spec_fn(u64) -> Seq<Seq<u8>>,
    p: Seq<(int, int)>,
    q: Seq<(int, int)>,
)
    ensures
        payloads_at(blocks, p + q) == payloads_at(blocks, p) + payloads_at(blocks, q),
    decreases q.len(),
{
    if q.len() == 0 {
        assert(p + q =~= p);
    } else {
        lemma_payloads_at_add(blocks, p, q.drop_last());
        assert((p + q).drop_last() =~= p + q.drop_last());
        assert((p + q).last() == q.last());
    }
    assert(payloads_at(blocks, p + q) =~= payloads_at(blocks, p) + payloads_at(blocks, q));
}

/// Parts that follow each other make one part.
proof fn lemma_parts_join(
    blocks: spec_fn(u64) -> Seq<Seq<u8>>,
    k: int,
    a: (int, int),
    b: (int, int),
    c: (int, int),
    x: Seq<Seq<u8>>,
    y: Seq<Seq<u8>>,
)
    requires
        part_of_stream(blocks, k, a, b, x),
        part_of_stream(blocks, k, b, c, y),
        !before(b, a),
        !before(c, b),
    ensures
        part_of_stream(blocks, k, a, c, x + y),
{
    let p = choose|p: Seq<(int, int)>| #[trigger]
        in_order(k, a, b, p) && x == payloads_at(blocks, p);
    let q = choose|q: Seq<(int, int)>| #[trigger]
        in_order(k, b, c, q) && y == payloads_at(blocks, q);
    let all = p + q;
    assert forall|i: int| 0 <= i < all.len() implies {
        &&& 0 <= (#[trigger] all[i]).0 <= MAX_BLOCK_IDX
        &&& 0 <= all[i].1 < k
        &&& !before(all[i], a)
        &&& before(all[i], c)
    } by {
        if i < p.len() {
            assert(all[i] == p[i]);
        } else {
            assert(all[i] == q[i - p.len()]);
        }
    }
    assert forall|i: int, j: int| 0 <= i < j < all.len() implies before(
        #[trigger] all[i],
        #[trigger] all[j],
    ) by {
        if j < p.len() {
            assert(all[i] == p[i] && all[j] == p[j]);
        } else if i >= p.len() {
            assert(all[i] == q[i - p.len()] && all[j] == q[j - p.len()]);
        } else {
            assert(all[i] == p[i] && all[j] == q[j - p.len()]);
        }
    }
    assert(in_order(k, a, c, all));
    lemma_payloads_at_add(blocks, p, q);
}

proof fn lemma_part_widened(
    blocks: spec_fn(u64) -> Seq<Seq<u8>>,
    k: int,
    a: (int, int),
    b: (int, int),
    from: (int, int),
    to: (int, int),
    x: Seq<Seq<u8>>,
)
    requires
        part_of_stream(blocks, k, a, b, x),
        !before(a, from),
        !before(to, b),
    ensures
        part_of_stream(blocks, k, from, to, x),
{
    let p = choose|p: Seq<(int, int)>| #[trigger]
        in_order(k, a, b, p) && x == payloads_at(blocks, p);
    assert(in_order(k, from, to, p));
}

proof fn lemma_between_part(
    blocks: spec_fn(u64) -> Seq<Seq<u8>>,
    k: int,
    b: int,
    from: int,
    to: int,
)
    requires
        0 <= b <= MAX_BLOCK_IDX,
        0 <= from <= to <= k,
    ensures
        part_of_stream(
            blocks,
            k,
            (b, from),
            (b, to),
            payloads_between(blocks(b as u64), from, to),
        ),
    decreases to - from,
{
    if from < to {
        lemma_between_part(blocks, k, b, from, to - 1);
        lemma_one_part(blocks, k, b, to - 1);
        lemma_parts_join(
            blocks,
            k,
            (b, from),
            (b, to - 1),
            (b, to),
            payloads_between(blocks(b as u64), from, to - 1),
            payload_of(blocks(b as u64)[to - 1]),
        );
    } else {
        lemma_no_part(blocks, k, (b, from), (b, to));
    }
}

/// The place in the stream from which on the receiver hands on.
pub open spec fn next_place(l: LinkView) -> (int, int) {
    if l.alloc > 0 {
        (l.ring[l.front].block_idx as int, l.ring[l.front].to_send)
    } else if l.last_known_block == u64::MAX {
        (0, 0)
    } else {
        (l.last_known_block + 1, 0)
    }
}

/// Every block in the ring holds fragments of the stream, and blocks stand in order.
pub open spec fn ring_in_order(l: LinkView, blocks: spec_fn(u64) -> Seq<Seq<u8>>) -> bool {
    &&& stream_valid(blocks, l.k)
    &&& forall|i: int|
        0 <= i < l.alloc ==> carries(
            l,
            #[trigger] l.slot(i),
            blocks(l.ring[l.slot(i)].block_idx),
        )
    &&& forall|i: int, j: int|
        0 <= i < j < l.alloc ==> l.ring[#[trigger] l.slot(i)].block_idx < l.ring[#[trigger] l.slot(
            j,
        )].block_idx
}

/// The receiver follows the stream: its last block is the last one that it knows of.
pub open spec fn follows(l: LinkView, blocks: spec_fn(u64) -> Seq<Seq<u8>>) -> bool {
    &&& l.wf()
    &&& ring_in_order(l, blocks)
    &&& l.last_known_block == u64::MAX || l.last_known_block <= MAX_BLOCK_IDX
    &&& newest_known(l)
}

/// From `l` to `m` the receiver has handed on a part of the stream that ends before `to`.
pub open spec fn handed_on(
    blocks: spec_fn(u64) -> Seq<Seq<u8>>,
    l: LinkView,
    m: LinkView,
    to: (int, int),
) -> bool {
    exists|x: Seq<Seq<u8>>| #[trigger]
        part_of_stream(blocks, l.k, next_place(l), to, x) && payloads(m.events) == payloads(
            l.events,
        ) + x
}

/// A receiver in a new session follows any stream.
pub proof fn lemma_new_session_follows(l: LinkView, blocks: spec_fn(u64) -> Seq<Seq<u8>>)
    requires
        l.wf(),
        l.alloc == 0,
        l.last_known_block == u64::MAX,
        stream_valid(blocks, l.k),
    ensures
        follows(l, blocks),
        next_place(l) == (0int, 0int),
{
}

pub proof fn lemma_nothing_handed_on(
    blocks: spec_fn(u64) -> Seq<Seq<u8>>,
    l: LinkView,
    m: LinkView,
    to: (int, int),
)
    requires
        payloads(m.events) == payloads(l.events),
    ensures
        handed_on(blocks, l, m, to),
{
    lemma_no_part(blocks, l.k, next_place(l), to);
    assert(payloads(l.events) + Seq::<Seq<u8>>::empty() =~= payloads(l.events));
}

pub proof fn lemma_handed_on_join(
    blocks: spec_fn(u64) -> Seq<Seq<u8>>,
    l: LinkView,
    m: LinkView,
    o: LinkView,
    to: (int, int),
)
    requires
        l.k == m.k,
        handed_on(blocks, l, m, next_place(m)),
        handed_on(blocks, m, o, to),
        !before(next_place(m), next_place(l)),
        !before(to, next_place(m)),
    ensures
        handed_on(blocks, l, o, to),
{
    let x = choose|x: Seq<Seq<u8>>| #[trigger]
        part_of_stream(blocks, l.k, next_place(l), next_place(m), x) && payloads(m.events)
            == payloads(l.events) + x;
    let y = choose|y: Seq<Seq<u8>>| #[trigger]
        part_of_stream(blocks, l.k, next_place(m), to, y) && payloads(o.events) == payloads(
            m.events,
        ) + y;
    lemma_parts_join(blocks, l.k, next_place(l), next_place(m), to, x, y);
    assert(payloads(o.events) =~= payloads(l.events) + (x + y));
}

/// Sending what has come of a block hands on a part of it.
proof fn lemma_sent_present_part(
    l: LinkView,
    r: int,
    from: int,
    b: u64,
    blocks: spec_fn(u64) -> Seq<Seq<u8>>,
) -> (x: Seq<Seq<u8>>)
    requires
        l.k <= l.n,
        l.buffers_wf(),
        0 <= r < RX_RING_SIZE,
        b <= MAX_BLOCK_IDX,
        carries(l, r, blocks(b)),
        0 <= from <= l.k,
    ensures
        part_of_stream(blocks, l.k, (b as int, from), (b as int, l.k), x),
        payloads(sent_present(l, r, from).events) == payloads(l.events) + x,
    decreases l.k - from,
{
    let data = blocks(b);
    let end = (b as int, l.k);
    if from >= l.k {
        lemma_no_part(blocks, l.k, (b as int, from), end);
        assert(payloads(l.events) + Seq::<Seq<u8>>::empty() =~= payloads(l.events));
        Seq::empty()
    } else if l.ring[r].map[from] != 0 {
        let s = sent(l, r, from);
        lemma_carried_in_place(l, r, data, from);
        lemma_sent_payload(l, r, from, data[from]);
        assert(carries(s, r, data));
        let y = lemma_sent_present_part(s, r, from + 1, b, blocks);
        lemma_one_part(blocks, l.k, b as int, from);
        let x = payload_of(data[from]);
        lemma_parts_join(blocks, l.k, (b as int, from), (b as int, from + 1), end, x, y);
        assert(payloads(sent_present(l, r, from).events) =~= payloads(l.events) + (x + y));
        x + y
    } else {
        let x = lemma_sent_present_part(l, r, from + 1, b, blocks);
        lemma_part_widened(
            blocks,
            l.k,
            (b as int, from + 1),
            end,
            (b as int, from),
            end,
            x,
        );
        x
    }
}

/// When the front moves on, places are counted from the next one.
proof fn lemma_slot_next(l: LinkView, i: int)
    requires
        0 <= l.front < RX_RING_SIZE,
        0 <= i < 39,
    ensures
        front_dropped(l).slot(i) == l.slot(i + 1),
{
    let front = (l.front + 1) % 40;
    assert(front == if l.front == 39 {
        0
    } else {
        l.front + 1
    });
    let s = l.front + i + 1;
    assert(s % 40 == if s < 40 {
        s
    } else {
        s - 40
    });
    assert((front + i) % 40 == if front + i < 40 {
        front + i
    } else {
        front + i - 40
    });
}

/// Different places behind the front are different places in the ring.
pub proof fn lemma_slots_distinct(l: LinkView, i: int, j: int)
    requires
        0 <= l.front < RX_RING_SIZE,
        0 <= i < RX_RING_SIZE,
        0 <= j < RX_RING_SIZE,
        i != j,
    ensures
        l.slot(i) != l.slot(j),
{
    lemma_slot(l, i);
    lemma_slot(l, j);
}

/// The last block in the ring is the last one that the receiver knows of.
pub open spec fn newest_known(l: LinkView) -> bool {
    l.alloc > 0 ==> l.last_known_block == l.ring[l.slot(l.alloc - 1)].block_idx
}

/// The front block has left the ring; the others are as they were.
pub open spec fn front_left(l: LinkView, d: LinkView) -> bool {
    &&& d.k == l.k
    &&& d.n == l.n
    &&& d.front == (l.front + 1) % 40
    &&& d.alloc == l.alloc - 1
    &&& d.last_known_block == l.last_known_block
    &&& forall|q: int| 0 <= q < RX_RING_SIZE && q != l.front ==> #[trigger] d.ring[q] == l.ring[q]
}

/// When the front block leaves, the others stay in order, and the next place is behind it.
proof fn lemma_front_leaves(l: LinkView, d: LinkView, blocks: spec_fn(u64) -> Seq<Seq<u8>>)
    requires
        0 <= l.front < RX_RING_SIZE,
        0 < l.alloc <= RX_RING_SIZE,
        ring_in_order(l, blocks),
        newest_known(l),
        l.alloc > 1 ==> l.ring[l.slot(1)].to_send >= 0,
        l.ring[l.front].block_idx <= MAX_BLOCK_IDX,
        front_left(l, d),
    ensures
        ring_in_order(d, blocks),
        newest_known(d),
        !before(next_place(d), (l.ring[l.front].block_idx + 1, 0int)),
{
    assert forall|i: int| 0 <= i < d.alloc implies {
        &&& #[trigger] d.slot(i) == l.slot(i + 1)
        &&& 0 <= d.slot(i) < RX_RING_SIZE
        &&& d.slot(i) != l.front
    } by {
        lemma_slot_next(l, i);
        lemma_slot(l, i + 1);
        lemma_slot(l, 0);
        lemma_slots_distinct(l, i + 1, 0);
    }
    assert forall|i: int| 0 <= i < d.alloc implies carries(
        d,
        #[trigger] d.slot(i),
        blocks(d.ring[d.slot(i)].block_idx),
    ) by {
        assert(carries(l, l.slot(i + 1), blocks(l.ring[l.slot(i + 1)].block_idx)));
    }
    assert forall|i: int, j: int| 0 <= i < j < d.alloc implies d.ring[#[trigger] d.slot(
        i,
    )].block_idx < d.ring[#[trigger] d.slot(j)].block_idx by {
        assert(l.ring[l.slot(i + 1)].block_idx < l.ring[l.slot(j + 1)].block_idx);
    }
    lemma_slot(l, 0);
    assert(l.slot(0) == l.front);
    if d.alloc > 0 {
        assert(d.slot(0) == l.slot(1));
        assert(d.slot(0) == d.front);
        assert(l.ring[l.slot(0)].block_idx < l.ring[l.slot(1)].block_idx);
        assert(d.slot(d.alloc - 1) == l.slot(l.alloc - 1));
    }
}

/// Where the blocks stand after one more has been opened: the front one has made room if the ring
/// was full.
pub open spec fn opened_shift(l: LinkView) -> int {
    if l.alloc == RX_RING_SIZE {
        1
    } else {
        0
    }
}

pub proof fn lemma_opened_slots(l: LinkView, b: u64)
    requires
        l.wf(),
        b <= MAX_BLOCK_IDX,
        b <= l.last_known_block,
        l.last_known_block != u64::MAX,
        l.none_above(b - 1),
    ensures
        ({
            let o = block_opened(l, b);
            let r = pushed_slot(l);
            &&& o.wf()
            &&& o.none_above(b as int)
            &&& o.k == l.k
            &&& o.n == l.n
            &&& o.last_known_block == l.last_known_block
            &&& o.alloc == l.alloc + 1 - opened_shift(l)
            &&& o.ring == l.ring.update(r, blank(l.ring[r], b))
            &&& 0 <= r < RX_RING_SIZE
            &&& o.slot(o.alloc - 1) == r
            &&& o.slot(0) == o.front
            &&& l.slot(0) == l.front
            &&& forall|i: int|
                0 <= i < o.alloc - 1 ==> {
                    &&& #[trigger] o.slot(i) == l.slot(i + opened_shift(l))
                    &&& o.slot(i) != r
                }
            &&& l.alloc < RX_RING_SIZE ==> o.events == l.events && o.front == l.front
        }),
{
    let r = pushed_slot(l);
    let o = block_opened(l, b);
    lemma_block_opened(l, b);
    let c = LinkView {
        counters: RxCounters {
            count_p_override: l.counters.count_p_override.wrapping_add(1),
            ..l.counters
        },
        ..l
    };
    lemma_sent_present_blocks(c, l.front, l.ring[l.front].to_send);
    assert forall|i: int| 0 <= i < o.alloc - 1 implies {
        &&& #[trigger] o.slot(i) == l.slot(i + opened_shift(l))
        &&& o.slot(i) != r
    } by {
        if l.alloc == RX_RING_SIZE {
            lemma_slot_next(l, i);
            lemma_slots_distinct(l, i + 1, 0);
            lemma_slot(l, 0);
        } else {
            lemma_slots_distinct(l, i, l.alloc);
        }
    }
    lemma_slot(o, r);
}

/// One more block is opened behind the others.
proof fn lemma_opened_in_order(l: LinkView, b: u64, blocks: spec_fn(u64) -> Seq<Seq<u8>>)
    requires
        l.wf(),
        ring_in_order(l, blocks),
        b <= MAX_BLOCK_IDX,
        b <= l.last_known_block,
        l.last_known_block != u64::MAX,
        l.none_above(b - 1),
    ensures
        ({
            let o = block_opened(l, b);
            &&& ring_in_order(o, blocks)
            &&& o.alloc > 0
            &&& o.ring[o.slot(o.alloc - 1)].block_idx == b
            &&& forall|i: int| 0 <= i < o.alloc ==> o.ring[#[trigger] o.slot(i)].block_idx <= b
        }),
{
    let o = block_opened(l, b);
    let r = pushed_slot(l);
    let shift = opened_shift(l);
    lemma_opened_slots(l, b);
    assert forall|i: int| 0 <= i < l.alloc implies l.ring[#[trigger] l.slot(i)].block_idx < b by {
        lemma_slot(l, i);
        assert(l.active(l.slot(i)));
    }
    assert forall|i: int| 0 <= i < o.alloc implies carries(
        o,
        #[trigger] o.slot(i),
        blocks(o.ring[o.slot(i)].block_idx),
    ) by {
        if i < o.alloc - 1 {
            let q = o.slot(i);
            assert(q == l.slot(i + shift));
            assert(o.ring[q] == l.ring[q]);
            assert(carries(l, l.slot(i + shift), blocks(l.ring[l.slot(i + shift)].block_idx)));
        } else {
            assert(blocks(b).len() == l.k);
            assert(o.ring[r] == blank(l.ring[r], b));
            assert(l.ring[r].map.len() == l.n);
        }
    }
    assert forall|i: int, j: int| 0 <= i < j < o.alloc implies o.ring[#[trigger] o.slot(
        i,
    )].block_idx < o.ring[#[trigger] o.slot(j)].block_idx by {
        assert(o.slot(i) == l.slot(i + shift));
        if j < o.alloc - 1 {
            assert(o.slot(j) == l.slot(j + shift));
        }
    }
    assert forall|i: int| 0 <= i < o.alloc implies o.ring[#[trigger] o.slot(i)].block_idx <= b by {
        if i < o.alloc - 1 {
            assert(o.slot(i) == l.slot(i + shift));
        }
    }
}

/// If the ring is full, what has come of its front block is handed on before a block is opened.
proof fn lemma_opened_hands_on(l: LinkView, b: u64, blocks: spec_fn(u64) -> Seq<Seq<u8>>)
    requires
        l.wf(),
        ring_in_order(l, blocks),
        b <= MAX_BLOCK_IDX,
        l.alloc > 0,
        b <= l.last_known_block,
        l.last_known_block != u64::MAX,
        l.none_above(b - 1),
    ensures
        handed_on(blocks, l, block_opened(l, b), next_place(block_opened(l, b))),
        !before(next_place(block_opened(l, b)), next_place(l)),
{
    let o = block_opened(l, b);
    lemma_opened_slots(l, b);
    if l.alloc == RX_RING_SIZE {
        let c = LinkView {
            counters: RxCounters {
                count_p_override: l.counters.count_p_override.wrapping_add(1),
                ..l.counters
            },
            ..l
        };
        let t = l.ring[l.front].to_send;
        let idx = l.ring[l.front].block_idx;
        lemma_slot(l, l.front);
        assert(l.active(l.front) && l.block_wf(l.front));
        assert(carries(l, l.slot(0), blocks(idx)));
        assert(carries(c, l.front, blocks(idx)));
        let x = lemma_sent_present_part(c, l.front, t, idx, blocks);
        assert(l.ring[l.slot(0)].block_idx < l.ring[l.slot(1)].block_idx);
        assert(o.slot(0) == l.slot(1));
        lemma_slot(l, 1);
        lemma_slots_distinct(l, 0, 1);
        assert(l.active(l.slot(1)) && l.block_wf(l.slot(1)));
        lemma_part_widened(
            blocks,
            l.k,
            (idx as int, t),
            (idx as int, l.k),
            next_place(l),
            next_place(o),
            x,
        );
    } else {
        lemma_slots_distinct(l, 0, l.alloc);
        lemma_nothing_handed_on(blocks, l, o, next_place(o));
    }
}

/// Blocks are opened behind those that the receiver knows of.
proof fn lemma_blocks_opened_order(
    l: LinkView,
    start: LinkView,
    b: u64,
    count: int,
    blocks: spec_fn(u64) -> Seq<Seq<u8>>,
)
    requires
        follows(l, blocks),
        start == (LinkView { last_known_block: start.last_known_block, ..l }),
        b <= start.last_known_block <= MAX_BLOCK_IDX,
        1 <= count,
        l.last_known_block == u64::MAX ==> count == 1,
        l.last_known_block != u64::MAX ==> l.last_known_block + count <= b,
    ensures
        ({
            let o = blocks_opened(start, b, count);
            &&& o.wf()
            &&& ring_in_order(o, blocks)
            &&& o.k == l.k
            &&& o.n == l.n
            &&& o.last_known_block == start.last_known_block
            &&& o.none_above(b as int)
            &&& o.alloc > 0
            &&& o.ring[o.slot(o.alloc - 1)].block_idx == b
            &&& forall|i: int| 0 <= i < o.alloc ==> o.ring[#[trigger] o.slot(i)].block_idx <= b
            &&& handed_on(blocks, l, o, next_place(o))
            &&& !before(next_place(o), next_place(l))
        }),
    decreases count,
{
    let o = blocks_opened(start, b, count);
    let m = blocks_opened(start, (b - 1) as u64, count - 1);
    assert(o == block_opened(m, b));
    if count == 1 {
        assert(m == start);
        lemma_relabelled_order(l, start, blocks);
        assert forall|r: int| 0 <= r < RX_RING_SIZE && m.active(r) implies (
        #[trigger] m.ring[r]).block_idx <= b - 1 by {
            assert(l.active(r));
            lemma_blocks_increase(l, r, r);
        }
        lemma_opened_slots(m, b);
        lemma_opened_in_order(m, b, blocks);
        if l.alloc == 0 {
            lemma_nothing_handed_on(blocks, l, o, next_place(o));
        } else {
            lemma_opened_hands_on(m, b, blocks);
            assert(next_place(m) == next_place(l));
            assert(handed_on(blocks, m, o, next_place(o)) == handed_on(
                blocks,
                l,
                o,
                next_place(o),
            ));
        }
    } else {
        lemma_blocks_opened_order(l, start, (b - 1) as u64, count - 1, blocks);
        lemma_opened_slots(m, b);
        lemma_opened_in_order(m, b, blocks);
        lemma_opened_hands_on(m, b, blocks);
        lemma_handed_on_join(blocks, l, m, o, next_place(o));
    }
}

proof fn lemma_relabelled_order(
    l: LinkView,
    start: LinkView,
    blocks: spec_fn(u64) -> Seq<Seq<u8>>,
)
    requires
        l.wf(),
        ring_in_order(l, blocks),
        start == (LinkView { last_known_block: start.last_known_block, ..l }),
        start.last_known_block <= MAX_BLOCK_IDX,
        l.last_known_block == u64::MAX || start.last_known_block > l.last_known_block,
    ensures
        start.wf(),
        ring_in_order(start, blocks),
{
    lemma_relabelled(l, start.last_known_block);
    assert forall|i: int| 0 <= i < start.alloc implies carries(
        start,
        #[trigger] start.slot(i),
        blocks(start.ring[start.slot(i)].block_idx),
    ) by {
        assert(carries(l, l.slot(i), blocks(l.ring[l.slot(i)].block_idx)));
    }
    assert forall|i: int, j: int| 0 <= i < j < start.alloc implies start.ring[#[trigger] start.slot(
        i,
    )].block_idx < start.ring[#[trigger] start.slot(j)].block_idx by {
        assert(l.ring[l.slot(i)].block_idx < l.ring[l.slot(j)].block_idx);
    }
}

/// A place for the block of a fragment: the receiver still follows the stream.
proof fn lemma_with_block_follows(l: LinkView, b: u64, blocks: spec_fn(u64) -> Seq<Seq<u8>>)
    requires
        follows(l, blocks),
        b <= MAX_BLOCK_IDX,
    ensures
        ({
            let (o, r) = with_block(l, b);
            &&& follows(o, blocks)
            &&& o.k == l.k
            &&& o.n == l.n
            &&& handed_on(blocks, l, o, next_place(o))
            &&& !before(next_place(o), next_place(l))
            &&& r matches Some(q) ==> {
                &&& 0 <= q < RX_RING_SIZE
                &&& o.active(q)
                &&& o.ring[q].block_idx == b
                &&& found_block(l, b, 0) is None ==> {
                    &&& o.ring[q].has == 0
                    &&& o.ring[q].to_send == 0
                    &&& forall|f: int| 0 <= f < o.n ==> #[trigger] o.ring[q].map[f] == 0
                }
            }
            &&& r is None ==> l.last_known_block != u64::MAX && b <= l.last_known_block
        }),
{
    let (o, r) = with_block(l, b);
    lemma_with_block(l, b);
    if found_block(l, b, 0) is Some || (l.last_known_block != u64::MAX && b <= l.last_known_block) {
        assert(o == l);
        lemma_nothing_handed_on(blocks, l, o, next_place(o));
    } else {
        let count = blocks_to_open(l, b);
        let start = LinkView { last_known_block: b, ..l };
        lemma_blocks_opened_order(l, start, b, count, blocks);
        let m = blocks_opened(start, (b - 1) as u64, count - 1);
        assert(o == block_opened(m, b));
        if count == 1 {
            lemma_relabelled_order(l, start, blocks);
            lemma_start_below(l, start, b);
        } else {
            lemma_blocks_opened_order(l, start, (b - 1) as u64, count - 1, blocks);
        }
        lemma_block_opened(m, b);
    }
}

/// From `l` to `m` the receiver has handed on a part of the stream before place `t` of a block, and the
/// block from there on in full.
pub open spec fn block_handed_on(
    blocks: spec_fn(u64) -> Seq<Seq<u8>>,
    l: LinkView,
    m: LinkView,
    b: u64,
    t: int,
) -> bool {
    exists|y: Seq<Seq<u8>>| #[trigger]
        part_of_stream(blocks, l.k, next_place(l), (b as int, t), y) && payloads(m.events)
            == payloads(l.events) + y + payloads_between(blocks(b), t, l.k)
}

proof fn lemma_block_handed_on(
    blocks: spec_fn(u64) -> Seq<Seq<u8>>,
    l: LinkView,
    m: LinkView,
    b: u64,
    t: int,
    to: (int, int),
)
    requires
        block_handed_on(blocks, l, m, b, t),
        b <= MAX_BLOCK_IDX,
        0 <= t <= l.k,
        !before((b as int, t), next_place(l)),
        !before(to, (b + 1, 0int)),
    ensures
        handed_on(blocks, l, m, to),
{
    let y = choose|y: Seq<Seq<u8>>| #[trigger]
        part_of_stream(blocks, l.k, next_place(l), (b as int, t), y) && payloads(m.events)
            == payloads(l.events) + y + payloads_between(blocks(b), t, l.k);
    let z = payloads_between(blocks(b), t, l.k);
    lemma_between_part(blocks, l.k, b as int, t, l.k);
    lemma_parts_join(blocks, l.k, next_place(l), (b as int, t), (b as int, l.k), y, z);
    lemma_part_widened(
        blocks,
        l.k,
        next_place(l),
        (b as int, l.k),
        next_place(l),
        to,
        y + z,
    );
    assert(payloads(m.events) =~= payloads(l.events) + (y + z));
}

/// The blocks before block `r` go out as they are, in order.
#[verifier::rlimit(40)]
proof fn lemma_fronts_flushed_order(l: LinkView, r: int, blocks: spec_fn(u64) -> Seq<Seq<u8>>)
    requires
        l.wf_but(r),
        ring_in_order(l, blocks),
        newest_known(l),
    ensures
        ({
            let m = fronts_flushed(l, l.behind(r));
            &&& m.wf_but(r)
            &&& m.front == r
            &&& m.ring == l.ring
            &&& m.k == l.k
            &&& m.n == l.n
            &&& m.alloc == l.alloc - l.behind(r)
            &&& m.last_known_block == l.last_known_block
            &&& ring_in_order(m, blocks)
            &&& newest_known(m)
            &&& handed_on(blocks, l, m, next_place(m))
            &&& !before(next_place(m), next_place(l))
        }),
    decreases l.behind(r),
{
    lemma_slot(l, r);
    lemma_fronts_flushed(l, r);
    let m = fronts_flushed(l, l.behind(r));
    if r == l.front {
        assert(m == l);
        lemma_nothing_handed_on(blocks, l, m, next_place(m));
    } else {
        let t = l.ring[l.front].to_send;
        let idx = l.ring[l.front].block_idx;
        let s = sent_present(l, l.front, t);
        let d = front_dropped(s);
        lemma_sent_present_blocks(l, l.front, t);
        lemma_front_flushed(l, r);
        assert(m == fronts_flushed(d, d.behind(r)));
        lemma_slot(l, 0);
        lemma_slot(l, 1);
        assert(l.slot(0) == l.front);
        if l.slot(1) != r {
            assert(l.active(l.slot(1)) && l.block_wf(l.slot(1)));
        }
        lemma_front_leaves(l, d, blocks);
        assert(carries(l, l.slot(0), blocks(idx)));
        let x = lemma_sent_present_part(l, l.front, t, idx, blocks);
        lemma_part_widened(
            blocks,
            l.k,
            (idx as int, t),
            (idx as int, l.k),
            next_place(l),
            next_place(d),
            x,
        );
        assert(handed_on(blocks, l, d, next_place(d)));
        lemma_fronts_flushed_order(d, r, blocks);
        lemma_handed_on_join(blocks, l, d, m, next_place(m));
    }
}

/// What a fragment of the stream does to block `r` of a receiver that follows it.
///
/// The receiver still follows.  As long as fewer than `k` fragments of the block have come, it is held;
/// with the `k`th, whichever they are, all that is left of it is handed on.
pub open spec fn block_advanced(
    blocks: spec_fn(u64) -> Seq<Seq<u8>>,
    l: LinkView,
    r: int,
    f: int,
    next: LinkView,
) -> bool {
    let b = l.ring[r].block_idx;
    &&& follows(next, blocks)
    &&& next.k == l.k
    &&& next.n == l.n
    &&& next.last_known_block == l.last_known_block
    &&& handed_on(blocks, l, next, next_place(next))
    &&& !before(next_place(next), next_place(l))
    &&& if l.ring[r].has + 1 < l.k {
        &&& next.active(r)
        &&& next.front == l.front
        &&& r != l.front ==> next.ring[r].to_send == l.ring[r].to_send
        &&& next.ring[r].block_idx == b
        &&& next.ring[r].has == l.ring[r].has + 1
        &&& next.ring[r].map == l.ring[r].map.update(
            f,
            block_fragment(blocks(b), f).len() as usize,
        )
        &&& l.ring[r].to_send <= next.ring[r].to_send
        &&& payloads(next.events) == payloads(l.events) + payloads_between(
            blocks(b),
            l.ring[r].to_send,
            next.ring[r].to_send,
        )
    } else {
        &&& block_handed_on(blocks, l, next, b, l.ring[r].to_send)
        &&& !before(next_place(next), (b + 1, 0int))
    }
}

/// A fragment comes to the front block.
proof fn lemma_front_advanced(l: LinkView, f: int, blocks: spec_fn(u64) -> Seq<Seq<u8>>)
    requires
        follows(l, blocks),
        l.alloc > 0,
        0 <= f < l.n,
        l.ring[l.front].map[f] == 0,
    ensures
        block_advanced(
            blocks,
            l,
            l.front,
            f,
            fragment_taken(
                l,
                l.front,
                f,
                block_fragment(blocks(l.ring[l.front].block_idx), f),
            ),
        ),
{
    let r = l.front;
    let b = l.ring[r].block_idx;
    let t = l.ring[r].to_send;
    let data = blocks(b);
    let next = fragment_taken(l, r, f, block_fragment(data, f));
    lemma_slot(l, 0);
    assert(l.slot(0) == r);
    assert(carries(l, l.slot(0), blocks(l.ring[l.slot(0)].block_idx)));
    assert(l.active(r) && l.block_wf(r));
    lemma_fragment_taken(l, f, data);
    if l.ring[r].has + 1 < l.k {
        let end = next.ring[r].to_send;
        assert forall|i: int| 0 <= i < next.alloc implies carries(
            next,
            #[trigger] next.slot(i),
            blocks(next.ring[next.slot(i)].block_idx),
        ) && next.ring[next.slot(i)].block_idx == l.ring[l.slot(i)].block_idx by {
            assert(next.slot(i) == l.slot(i));
            lemma_slot(l, i);
            if i > 0 {
                lemma_slots_distinct(l, i, 0);
                assert(carries(l, l.slot(i), blocks(l.ring[l.slot(i)].block_idx)));
            }
        }
        assert forall|i: int, j: int| 0 <= i < j < next.alloc implies next.ring[
            #[trigger] next.slot(i)].block_idx < next.ring[#[trigger] next.slot(j)].block_idx by {
            assert(l.ring[l.slot(i)].block_idx < l.ring[l.slot(j)].block_idx);
        }
        assert(next.slot(next.alloc - 1) == l.slot(l.alloc - 1));
        assert(next.ring[next.slot(next.alloc - 1)].block_idx == l.ring[l.slot(
            l.alloc - 1,
        )].block_idx);
        assert(next.active(r) && next.block_wf(r));
        lemma_between_part(blocks, l.k, b as int, t, end);
        assert(part_of_stream(
            blocks,
            l.k,
            next_place(l),
            next_place(next),
            payloads_between(data, t, end),
        ));
        assert(handed_on(blocks, l, next, next_place(next)));
    } else {
        if l.alloc > 1 {
            lemma_slot(l, 1);
            assert(l.active(l.slot(1)) && l.block_wf(l.slot(1)));
        }
        lemma_front_leaves(l, next, blocks);
        lemma_no_part(blocks, l.k, next_place(l), (b as int, t));
        assert(payloads(l.events) + Seq::<Seq<u8>>::empty() =~= payloads(l.events));
        assert(block_handed_on(blocks, l, next, b, t));
        lemma_block_handed_on(blocks, l, next, b, t, next_place(next));
    }
}

/// The receiver stays in order when a fragment is stored in a block behind the front one.
proof fn lemma_stored_order(l: LinkView, r: int, f: int, blocks: spec_fn(u64) -> Seq<Seq<u8>>)
    requires
        follows(l, blocks),
        0 <= r < RX_RING_SIZE,
        l.active(r),
        0 <= f < l.n,
        l.ring[r].map[f] == 0,
    ensures
        ({
            let s = stored(l, r, f, block_fragment(blocks(l.ring[r].block_idx), f));
            &&& s.wf_but(r)
            &&& s.ring[r].to_send < s.k
            &&& ring_in_order(s, blocks)
            &&& newest_known(s)
            &&& carries(s, r, blocks(s.ring[r].block_idx))
            &&& carries(l, r, blocks(l.ring[r].block_idx))
            &&& WPACKET_HDR_SIZE <= block_fragment(blocks(l.ring[r].block_idx), f).len()
                <= MAX_FEC_PAYLOAD
        }),
{
    let b = l.ring[r].block_idx;
    let data = blocks(b);
    let d = block_fragment(data, f);
    let s = stored(l, r, f, d);
    lemma_slot(l, r);
    let at = l.behind(r);
    assert(carries(l, l.slot(at), blocks(l.ring[l.slot(at)].block_idx)));
    lemma_stored_carried(l, r, f, data);
    lemma_stored(l, r, f, d);
    assert forall|i: int| 0 <= i < s.alloc implies carries(
        s,
        #[trigger] s.slot(i),
        blocks(s.ring[s.slot(i)].block_idx),
    ) && s.ring[s.slot(i)].block_idx == l.ring[l.slot(i)].block_idx by {
        assert(s.slot(i) == l.slot(i));
        lemma_slot(l, i);
        if s.slot(i) != r {
            assert(carries(l, l.slot(i), blocks(l.ring[l.slot(i)].block_idx)));
        }
    }
    assert forall|i: int, j: int| 0 <= i < j < s.alloc implies s.ring[#[trigger] s.slot(
        i,
    )].block_idx < s.ring[#[trigger] s.slot(j)].block_idx by {
        assert(l.ring[l.slot(i)].block_idx < l.ring[l.slot(j)].block_idx);
    }
    assert(s.slot(s.alloc - 1) == l.slot(l.alloc - 1));
    assert(s.ring[s.slot(s.alloc - 1)].block_idx == l.ring[l.slot(l.alloc - 1)].block_idx);
}

/// A fragment comes to a block behind the front one.
proof fn lemma_later_advanced(l: LinkView, r: int, f: int, blocks: spec_fn(u64) -> Seq<Seq<u8>>)
    requires
        follows(l, blocks),
        0 <= r < RX_RING_SIZE,
        l.active(r),
        r != l.front,
        0 <= f < l.n,
        l.ring[r].map[f] == 0,
    ensures
        block_advanced(
            blocks,
            l,
            r,
            f,
            fragment_taken(l, r, f, block_fragment(blocks(l.ring[r].block_idx), f)),
        ),
{
    let b = l.ring[r].block_idx;
    let t = l.ring[r].to_send;
    let data = blocks(b);
    let d = block_fragment(data, f);
    let s = stored(l, r, f, d);
    let next = fragment_taken(l, r, f, d);
    lemma_stored_order(l, r, f, blocks);
    assert(l.block_wf(r));
    lemma_present_update(l.ring[r].map, 0, l.n, f, d.len() as usize);
    assert(next_place(s) == next_place(l));
    if s.ring[r].has == s.k {
        let m = fronts_flushed(s, s.behind(r));
        lemma_fronts_flushed_order(s, r, blocks);
        lemma_slot(s, r);
        lemma_slot(m, r);
        assert(m.behind(r) == 0);
        assert(next == completed(m, r));
        assert(carries(m, r, data));
        lemma_completed_payloads(m, r, data);
        if m.alloc > 1 {
            lemma_slot(m, 1);
            lemma_slots_distinct(m, 0, 1);
            lemma_slot(m, 0);
            assert(m.active(m.slot(1)) && m.block_wf(m.slot(1)));
        }
        lemma_front_leaves(m, next, blocks);
        assert(next_place(m) == (b as int, t));
        let y = choose|y: Seq<Seq<u8>>| #[trigger]
            part_of_stream(blocks, s.k, next_place(s), next_place(m), y) && payloads(m.events)
                == payloads(s.events) + y;
        assert(part_of_stream(blocks, l.k, next_place(l), (b as int, t), y));
        assert(block_handed_on(blocks, l, next, b, t));
        lemma_block_handed_on(blocks, l, next, b, t, next_place(next));
    } else {
        assert(next == s);
        assert(s.block_wf(r));
        assert(s.active(r));
        lemma_nothing_handed_on(blocks, l, s, next_place(s));
        assert(payloads(l.events) + payloads_between(data, t, t) =~= payloads(l.events));
    }
}

/// Any fragment of the stream, in any state of the receiver.
pub proof fn lemma_fragment_advances(l: LinkView, r: int, f: int, blocks: spec_fn(u64) -> Seq<Seq<u8>>)
    requires
        follows(l, blocks),
        0 <= r < RX_RING_SIZE,
        l.active(r),
        0 <= f < l.n,
        l.ring[r].map[f] == 0,
    ensures
        block_advanced(
            blocks,
            l,
            r,
            f,
            fragment_taken(l, r, f, block_fragment(blocks(l.ring[r].block_idx), f)),
        ),
{
    lemma_slot(l, r);
    if r == l.front {
        lemma_front_advanced(l, f, blocks);
    } else {
        lemma_later_advanced(l, r, f, blocks);
    }
}

/// Whatever fragment of the stream comes, the receiver follows the stream and hands on a part of it.
pub proof fn lemma_fragment_received_follows(
    l: LinkView,
    b: u64,
    f: int,
    blocks: spec_fn(u64) -> Seq<Seq<u8>>,
)
    requires
        follows(l, blocks),
        b <= MAX_BLOCK_IDX,
        0 <= f < l.n,
    ensures
        ({
            let next = fragment_received(l, b, f, block_fragment(blocks(b), f));
            &&& follows(next, blocks)
            &&& next.k == l.k
            &&& next.n == l.n
            &&& handed_on(blocks, l, next, next_place(next))
            &&& !before(next_place(next), next_place(l))
        }),
{
    let next = fragment_received(l, b, f, block_fragment(blocks(b), f));
    let (o, place) = with_block(l, b);
    lemma_with_block_follows(l, b, blocks);
    if let Some(r) = place {
        if o.ring[r].map[f] == 0 {
            lemma_fragment_advances(o, r, f, blocks);
            lemma_handed_on_join(blocks, l, o, next, next_place(next));
        }
    }
}

/// The state after the first `i` of these fragments of a stream, given by block and number, have
/// come.
pub open spec fn stream_received(
    l: LinkView,
    blocks: spec_fn(u64) -> Seq<Seq<u8>>,
    arrivals: Seq<(u64, int)>,
    i: int,
) -> LinkView
    decreases i,
{
    if i <= 0 {
        l
    } else {
        let (b, f) = arrivals[i - 1];
        fragment_received(
            stream_received(l, blocks, arrivals, i - 1),
            b,
            f,
            block_fragment(blocks(b), f),
        )
    }
}

/// Fragments that a stream has, in any order, any of them missing or repeated.
pub open spec fn arrivals_valid(arrivals: Seq<(u64, int)>, n: int) -> bool {
    forall|i: int|
        0 <= i < arrivals.len() ==> (#[trigger] arrivals[i]).0 <= MAX_BLOCK_IDX && 0 <= arrivals[i].1
            < n
}

/// Whichever fragments of a stream come, and in whatever order, what the receiver hands on is a part
/// of the stream: nothing else, nothing twice, and everything in order.
pub proof fn lemma_stream_in_order(
    l: LinkView,
    blocks: spec_fn(u64) -> Seq<Seq<u8>>,
    arrivals: Seq<(u64, int)>,
    i: int,
)
    requires
        follows(l, blocks),
        arrivals_valid(arrivals, l.n),
        0 <= i <= arrivals.len(),
    ensures
        ({
            let s = stream_received(l, blocks, arrivals, i);
            &&& follows(s, blocks)
            &&& s.k == l.k
            &&& s.n == l.n
            &&& handed_on(blocks, l, s, next_place(s))
            &&& !before(next_place(s), next_place(l))
        }),
    decreases i,
{
    let s = stream_received(l, blocks, arrivals, i);
    if i > 0 {
        let m = stream_received(l, blocks, arrivals, i - 1);
        lemma_stream_in_order(l, blocks, arrivals, i - 1);
        lemma_fragment_received_follows(m, arrivals[i - 1].0, arrivals[i - 1].1, blocks);
        lemma_handed_on_join(blocks, l, m, s, next_place(s));
    } else {
        lemma_nothing_handed_on(blocks, l, s, next_place(s));
    }
}

/// The number of the fragments below `n` that have come.
pub open spec fn held(got: Set<int>, n: int) -> int
    decreases n,
{
    if n <= 0 {
        0
    } else {
        held(got, n - 1) + if got.contains(n - 1) {
            1int
        } else {
            0int
        }
    }
}

pub proof fn lemma_held_insert(got: Set<int>, n: int, f: int)
    requires
        !got.contains(f),
    ensures
        held(got.insert(f), n) == held(got, n) + if 0 <= f < n {
            1int
        } else {
            0int
        },
    decreases n,
{
    if n > 0 {
        lemma_held_insert(got, n - 1, f);
    }
}

proof fn lemma_held_present(got: Set<int>, map: Seq<usize>, n: int)
    requires
        forall|f: int| 0 <= f < n ==> (#[trigger] map[f] != 0) == got.contains(f),
    ensures
        n >= 0 ==> present(map, 0, n) == held(got, n),
    decreases n,
{
    if n > 0 {
        lemma_held_present(got, map, n - 1);
    }
}

/// No block is on its way, and this one is the next in the stream.
pub open spec fn is_next(l: LinkView, b: u64) -> bool {
    &&& l.alloc == 0
    &&& l.last_known_block == u64::MAX || b == l.last_known_block + 1
    &&& in_time(l, b, 0)
}

/// Block `b` is in the ring with the fragments `got`; what has gone out since `l` is a part of the
/// stream before the block, and its payloads without a gap if it is at the front.  If it was the next
/// block, nothing has been lost or bad since.
pub open spec fn gathering(
    blocks: spec_fn(u64) -> Seq<Seq<u8>>,
    l: LinkView,
    s: LinkView,
    b: u64,
    got: Set<int>,
) -> bool {
    &&& follows(s, blocks)
    &&& s.k == l.k
    &&& s.n == l.n
    &&& !before(next_place(s), next_place(l))
    &&& found_block(s, b, 0) matches Some(r) && gathered(blocks, l, s, b, got, r)
}

/// The same, for a block in ring item `r`.
pub open spec fn gathered(
    blocks: spec_fn(u64) -> Seq<Seq<u8>>,
    l: LinkView,
    s: LinkView,
    b: u64,
    got: Set<int>,
    r: int,
) -> bool {
    &&& 0 <= r < RX_RING_SIZE
    &&& s.active(r)
    &&& s.ring[r].block_idx == b
    &&& s.ring[r].has == held(got, s.n)
    &&& forall|f: int| 0 <= f < s.n ==> (#[trigger] s.ring[r].map[f] != 0) == got.contains(f)
    &&& s.counters.count_p_fec_recovered == l.counters.count_p_fec_recovered
    &&& is_next(l, b) ==> {
        &&& r == s.front
        &&& s.alloc == 1
        &&& quiet(s.counters, l.counters)
        &&& in_time(s, b, s.ring[r].to_send)
    }
    &&& if r == s.front {
        exists|y: Seq<Seq<u8>>| #[trigger]
            part_of_stream(blocks, l.k, next_place(l), (b as int, 0), y) && payloads(s.events)
                == payloads(l.events) + y + payloads_between(blocks(b), 0, s.ring[r].to_send)
    } else {
        s.ring[r].to_send == 0 && handed_on(blocks, l, s, next_place(s))
    }
}

/// The block has gone out in full, after a part of the stream before it, and as many fragments as were
/// missing have been counted as rebuilt.  If it was the next block, nothing has been lost or bad since,
/// and the ring is empty and ready for the block after it.
pub open spec fn delivered(
    blocks: spec_fn(u64) -> Seq<Seq<u8>>,
    l: LinkView,
    s: LinkView,
    b: u64,
    got: Set<int>,
) -> bool {
    &&& follows(s, blocks)
    &&& s.k == l.k
    &&& s.n == l.n
    &&& block_handed_on(blocks, l, s, b, 0)
    &&& !before(next_place(s), (b + 1, 0int))
    &&& s.counters.count_p_fec_recovered == l.counters.count_p_fec_recovered.wrapping_add(
        (l.k - held(got, l.k)) as u32,
    )
    &&& is_next(l, b) ==> {
        &&& quiet(s.counters, l.counters)
        &&& s.alloc == 0
        &&& s.last_known_block == b
        &&& is_next(s, (b + 1) as u64)
    }
}

/// No two blocks in the ring have one number.
proof fn lemma_found_at(l: LinkView, r: int, blocks: spec_fn(u64) -> Seq<Seq<u8>>)
    requires
        follows(l, blocks),
        0 <= r < RX_RING_SIZE,
        l.active(r),
    ensures
        found_block(l, l.ring[r].block_idx, 0) == Some(r),
{
    let b = l.ring[r].block_idx;
    lemma_found_block(l, b, 0);
    lemma_slot(l, r);
    if let Some(q) = found_block(l, b, 0) {
        lemma_slot(l, q);
        let (i, j) = (l.behind(r), l.behind(q));
        if i < j {
            assert(l.ring[l.slot(i)].block_idx < l.ring[l.slot(j)].block_idx);
        } else if j < i {
            assert(l.ring[l.slot(j)].block_idx < l.ring[l.slot(i)].block_idx);
        }
    }
}

/// Between a place and itself there is nothing.
proof fn lemma_empty_part(
    blocks: spec_fn(u64) -> Seq<Seq<u8>>,
    k: int,
    p: (int, int),
    x: Seq<Seq<u8>>,
)
    requires
        part_of_stream(blocks, k, p, p, x),
    ensures
        x == Seq::<Seq<u8>>::empty(),
{
    let places = choose|q: Seq<(int, int)>| #[trigger]
        in_order(k, p, p, q) && x == payloads_at(blocks, q);
    if places.len() > 0 {
        assert(!before(places[0], p) && before(places[0], p));
    }
}

/// One more fragment comes to a block that is being gathered.
pub proof fn lemma_gathering_step(
    blocks: spec_fn(u64) -> Seq<Seq<u8>>,
    l: LinkView,
    o: LinkView,
    b: u64,
    got: Set<int>,
    r: int,
    f: int,
)
    requires
        follows(o, blocks),
        o.k == l.k,
        o.n == l.n,
        b <= MAX_BLOCK_IDX,
        !before(next_place(o), next_place(l)),
        gathered(blocks, l, o, b, got, r),
        0 <= f < l.n,
        !got.contains(f),
    ensures
        ({
            let s = fragment_taken(o, r, f, block_fragment(blocks(b), f));
            if held(got, l.n) + 1 < l.k {
                gathering(blocks, l, s, b, got.insert(f))
            } else {
                delivered(blocks, l, s, b, got.insert(f))
            }
        }),
        held(got.insert(f), l.n) == held(got, l.n) + 1,
        held(got, l.n) < l.k,
{
    let data = blocks(b);
    let t = o.ring[r].to_send;
    let s = fragment_taken(o, r, f, block_fragment(data, f));
    assert(o.block_wf(r));
    lemma_held_insert(got, l.n, f);
    lemma_fragment_advances(o, r, f, blocks);
    lemma_slot(o, r);
    assert(carries(o, o.slot(o.behind(r)), blocks(o.ring[o.slot(o.behind(r))].block_idx)));
    lemma_taken_recovers(o, r, f, data);
    if is_next(l, b) {
        lemma_taken_in_time(o, f, data);
        lemma_fragment_taken(o, f, data);
    }
    if held(got, l.n) + 1 < l.k {
        lemma_gathered_step(blocks, l, o, b, got, r, f);
        lemma_found_at(s, r, blocks);
    } else {
        lemma_delivered_step(blocks, l, o, b, r, f);
        let map = o.ring[r].map.update(f, block_fragment(data, f).len() as usize);
        lemma_stored_order(o, r, f, blocks);
        lemma_held_present(got.insert(f), map, l.k);
        if is_next(l, b) {
            assert(o.slot(0) == o.front);
            assert(s.alloc == 0 && s.last_known_block == b);
            lemma_next_in_time(s, b);
        }
    }
}

/// With the last fragment that is needed the block goes out.
proof fn lemma_delivered_step(
    blocks: spec_fn(u64) -> Seq<Seq<u8>>,
    l: LinkView,
    o: LinkView,
    b: u64,
    r: int,
    f: int,
)
    requires
        follows(o, blocks),
        o.k == l.k,
        o.n == l.n,
        b <= MAX_BLOCK_IDX,
        !before(next_place(o), next_place(l)),
        0 <= r < RX_RING_SIZE,
        o.active(r),
        o.ring[r].block_idx == b,
        if r == o.front {
            exists|y: Seq<Seq<u8>>| #[trigger]
                part_of_stream(blocks, l.k, next_place(l), (b as int, 0), y) && payloads(o.events)
                    == payloads(l.events) + y + payloads_between(blocks(b), 0, o.ring[r].to_send)
        } else {
            o.ring[r].to_send == 0 && handed_on(blocks, l, o, next_place(o))
        },
        o.ring[r].has + 1 >= o.k,
        block_advanced(
            blocks,
            o,
            r,
            f,
            fragment_taken(o, r, f, block_fragment(blocks(b), f)),
        ),
    ensures
        block_handed_on(
            blocks,
            l,
            fragment_taken(o, r, f, block_fragment(blocks(b), f)),
            b,
            0,
        ),
{
    let data = blocks(b);
    let t = o.ring[r].to_send;
    let s = fragment_taken(o, r, f, block_fragment(data, f));
    assert(o.block_wf(r));
    let z = choose|z: Seq<Seq<u8>>| #[trigger]
        part_of_stream(blocks, o.k, next_place(o), (b as int, t), z) && payloads(s.events)
            == payloads(o.events) + z + payloads_between(data, t, o.k);
    if r == o.front {
        let y = choose|y: Seq<Seq<u8>>| #[trigger]
            part_of_stream(blocks, l.k, next_place(l), (b as int, 0), y) && payloads(o.events)
                == payloads(l.events) + y + payloads_between(data, 0, t);
        lemma_slot(o, r);
        lemma_empty_part(blocks, o.k, (b as int, t), z);
        lemma_payloads_split(data, 0, t, l.k);
        assert(payloads(s.events) =~= payloads(l.events) + y + payloads_between(data, 0, l.k));
    } else {
        let y = choose|y: Seq<Seq<u8>>| #[trigger]
            part_of_stream(blocks, l.k, next_place(l), next_place(o), y) && payloads(o.events)
                == payloads(l.events) + y;
        lemma_place_before(o, r, blocks);
        lemma_parts_join(blocks, l.k, next_place(l), next_place(o), (b as int, 0), y, z);
        assert(payloads(s.events) =~= payloads(l.events) + (y + z) + payloads_between(
            data,
            0,
            l.k,
        ));
    }
}

/// The next place is before every block behind the front one.
proof fn lemma_place_before(l: LinkView, r: int, blocks: spec_fn(u64) -> Seq<Seq<u8>>)
    requires
        follows(l, blocks),
        0 <= r < RX_RING_SIZE,
        l.active(r),
        r != l.front,
    ensures
        !before((l.ring[r].block_idx as int, 0), next_place(l)),
{
    lemma_slot(l, r);
    lemma_slot(l, 0);
    assert(l.slot(0) == l.front);
    assert(l.ring[l.slot(0)].block_idx < l.ring[l.slot(l.behind(r))].block_idx);
}

proof fn lemma_gathered_step(
    blocks: spec_fn(u64) -> Seq<Seq<u8>>,
    l: LinkView,
    o: LinkView,
    b: u64,
    got: Set<int>,
    r: int,
    f: int,
)
    requires
        follows(o, blocks),
        o.k == l.k,
        o.n == l.n,
        !before(next_place(o), next_place(l)),
        gathered(blocks, l, o, b, got, r),
        0 <= f < l.n,
        !got.contains(f),
        held(got.insert(f), l.n) == held(got, l.n) + 1,
        held(got, l.n) + 1 < l.k,
        ({
            let s = fragment_taken(o, r, f, block_fragment(blocks(b), f));
            &&& block_advanced(blocks, o, r, f, s)
            &&& s.counters.count_p_fec_recovered == o.counters.count_p_fec_recovered
            &&& is_next(l, b) ==> s.alloc == 1 && quiet(s.counters, o.counters) && in_time(
                s,
                b,
                s.ring[r].to_send,
            )
        }),
    ensures
        gathered(
            blocks,
            l,
            fragment_taken(o, r, f, block_fragment(blocks(b), f)),
            b,
            got.insert(f),
            r,
        ),
{
    let data = blocks(b);
    let t = o.ring[r].to_send;
    let s = fragment_taken(o, r, f, block_fragment(data, f));
    assert(o.ring[r].map.len() == o.n);
    lemma_stored_order(o, r, f, blocks);
    assert forall|g: int| 0 <= g < s.n implies (#[trigger] s.ring[r].map[g] != 0) == got.insert(
        f,
    ).contains(g) by {
        if g != f {
            assert(s.ring[r].map[g] == o.ring[r].map[g]);
        }
    }
    if r == o.front {
        let y = choose|y: Seq<Seq<u8>>| #[trigger]
            part_of_stream(blocks, l.k, next_place(l), (b as int, 0), y) && payloads(o.events)
                == payloads(l.events) + y + payloads_between(data, 0, t);
        let end = s.ring[r].to_send;
        assert(o.block_wf(r));
        lemma_payloads_split(data, 0, t, end);
        assert(payloads(s.events) =~= payloads(l.events) + y + payloads_between(data, 0, end));
    } else {
        lemma_handed_on_join(blocks, l, o, s, next_place(s));
    }
}

/// The first fragment of a block opens it.
pub proof fn lemma_first_fragment(l: LinkView, b: u64, blocks: spec_fn(u64) -> Seq<Seq<u8>>)
    requires
        follows(l, blocks),
        b <= MAX_BLOCK_IDX,
        l.last_known_block == u64::MAX || b > l.last_known_block,
    ensures
        ({
            let (o, place) = with_block(l, b);
            &&& follows(o, blocks)
            &&& o.k == l.k
            &&& o.n == l.n
            &&& !before(next_place(o), next_place(l))
            &&& place matches Some(r) && gathered(blocks, l, o, b, Set::empty(), r)
        }),
{
    let (o, place) = with_block(l, b);
    lemma_with_block_follows(l, b, blocks);
    lemma_unknown_block(l, b, blocks);
    lemma_with_block_counts(l, b);
    let r = place->0;
    lemma_none_held(o.n);
    if is_next(l, b) {
        let start = LinkView { last_known_block: b, ..l };
        assert(blocks_opened(start, (b - 1) as u64, 0) == start);
        assert(o == block_opened(start, b));
        lemma_slot(l, 0);
    }
    if r == o.front {
        let y = choose|y: Seq<Seq<u8>>| #[trigger]
            part_of_stream(blocks, l.k, next_place(l), next_place(o), y) && payloads(o.events)
                == payloads(l.events) + y;
        lemma_slot(o, r);
        assert(next_place(o) == (b as int, 0int));
        assert(payloads(o.events) =~= payloads(l.events) + y + payloads_between(blocks(b), 0, 0));
    }
}

pub proof fn lemma_none_held(n: int)
    ensures
        held(Set::empty(), n) == 0,
    decreases n,
{
    if n > 0 {
        lemma_none_held(n - 1);
    }
}

/// A block that the receiver does not know of is not in the ring.
proof fn lemma_unknown_block(l: LinkView, b: u64, blocks: spec_fn(u64) -> Seq<Seq<u8>>)
    requires
        follows(l, blocks),
        b <= MAX_BLOCK_IDX,
        l.last_known_block == u64::MAX || b > l.last_known_block,
    ensures
        found_block(l, b, 0) is None,
{
    lemma_found_block(l, b, 0);
    if let Some(q) = found_block(l, b, 0) {
        lemma_slot(l, q);
        let newest = l.slot(l.alloc - 1);
        lemma_slot(l, l.alloc - 1);
        assert(l.active(newest) && l.block_wf(newest));
        assert(l.slot(l.behind(q)) == q);
        if l.behind(q) < l.alloc - 1 {
            assert(l.ring[l.slot(l.behind(q))].block_idx < l.ring[l.slot(l.alloc - 1)].block_idx);
        }
    }
}

/// Counters and reports do not matter to following a stream.
pub proof fn lemma_counted_follows(
    l: LinkView,
    m: LinkView,
    blocks: spec_fn(u64) -> Seq<Seq<u8>>,
)
    requires
        follows(l, blocks),
        restamped(l, m),
    ensures
        follows(m, blocks),
        next_place(m) == next_place(l),
        handed_on(blocks, l, m, next_place(m)),
{
    lemma_same_blocks_wf(m, l);
    assert forall|i: int| 0 <= i < m.alloc implies carries(
        m,
        #[trigger] m.slot(i),
        blocks(m.ring[m.slot(i)].block_idx),
    ) by {
        assert(carries(l, l.slot(i), blocks(l.ring[l.slot(i)].block_idx)));
    }
    assert forall|i: int, j: int| 0 <= i < j < m.alloc implies m.ring[#[trigger] m.slot(
        i,
    )].block_idx < m.ring[#[trigger] m.slot(j)].block_idx by {
        assert(l.ring[l.slot(i)].block_idx < l.ring[l.slot(j)].block_idx);
    }
    lemma_nothing_handed_on(blocks, l, m, next_place(m));
}

/// Nor to gathering a block, as long as those of rebuilt, lost and bad packets move together.
proof fn lemma_recounted(
    blocks: spec_fn(u64) -> Seq<Seq<u8>>,
    l: LinkView,
    s: LinkView,
    l2: LinkView,
    s2: LinkView,
    b: u64,
    got: Set<int>,
    r: int,
)
    requires
        gathered(blocks, l, s, b, got, r),
        restamped(l, l2),
        restamped(s, s2),
        s2.counters.count_p_fec_recovered == l2.counters.count_p_fec_recovered,
        is_next(l, b) ==> quiet(s2.counters, l2.counters),
    ensures
        next_place(l2) == next_place(l),
        next_place(s2) == next_place(s),
        gathered(blocks, l2, s2, b, got, r),
{
    if r == s.front {
        let y = choose|y: Seq<Seq<u8>>| #[trigger]
            part_of_stream(blocks, l.k, next_place(l), (b as int, 0), y) && payloads(s.events)
                == payloads(l.events) + y + payloads_between(blocks(b), 0, s.ring[r].to_send);
        assert(part_of_stream(blocks, l2.k, next_place(l2), (b as int, 0), y));
    } else {
        let x = choose|x: Seq<Seq<u8>>| #[trigger]
            part_of_stream(blocks, l.k, next_place(l), next_place(s), x) && payloads(s.events)
                == payloads(l.events) + x;
        assert(part_of_stream(blocks, l2.k, next_place(l2), next_place(s2), x));
    }
}

/// The same, wherever the block is.
pub proof fn lemma_recounted_gathering(
    blocks: spec_fn(u64) -> Seq<Seq<u8>>,
    l: LinkView,
    s: LinkView,
    l2: LinkView,
    s2: LinkView,
    b: u64,
    got: Set<int>,
)
    requires
        gathering(blocks, l, s, b, got),
        restamped(l, l2),
        restamped(s, s2),
        s2.counters.count_p_fec_recovered == l2.counters.count_p_fec_recovered,
        is_next(l, b) ==> quiet(s2.counters, l2.counters),
    ensures
        gathering(blocks, l2, s2, b, got),
{
    let r = found_block(s, b, 0)->0;
    lemma_counted_follows(s, s2, blocks);
    lemma_recounted(blocks, l, s, l2, s2, b, got, r);
    lemma_found_at(s2, r, blocks);
}

/// Nor to a block that has been delivered.
pub proof fn lemma_recounted_delivered(
    blocks: spec_fn(u64) -> Seq<Seq<u8>>,
    l: LinkView,
    s: LinkView,
    l2: LinkView,
    s2: LinkView,
    b: u64,
    got: Set<int>,
)
    requires
        delivered(blocks, l, s, b, got),
        restamped(l, l2),
        restamped(s, s2),
        s2.counters.count_p_fec_recovered == l2.counters.count_p_fec_recovered.wrapping_add(
            (l.k - held(got, l.k)) as u32,
        ),
        is_next(l, b) ==> quiet(s2.counters, l2.counters),
    ensures
        delivered(blocks, l2, s2, b, got),
{
    lemma_counted_follows(s, s2, blocks);
    let y = choose|y: Seq<Seq<u8>>| #[trigger]
        part_of_stream(blocks, l.k, next_place(l), (b as int, 0), y) && payloads(s.events)
            == payloads(l.events) + y + payloads_between(blocks(b), 0, l.k);
    assert(part_of_stream(blocks, l2.k, next_place(l2), (b as int, 0), y));
}

/// After a block has been delivered, more of its fragments change nothing.
pub proof fn lemma_delivered_late(
    blocks: spec_fn(u64) -> Seq<Seq<u8>>,
    l: LinkView,
    s: LinkView,
    b: u64,
    got: Set<int>,
    f: int,
    d: Seq<u8>,
)
    requires
        delivered(blocks, l, s, b, got),
        b <= MAX_BLOCK_IDX,
    ensures
        fragment_received(s, b, f, d) == s,
{
    lemma_found_block(s, b, 0);
    if let Some(q) = found_block(s, b, 0) {
        lemma_slot(s, q);
        lemma_slot(s, 0);
        assert(s.slot(0) == s.front);
        assert(s.slot(s.behind(q)) == q);
        if s.behind(q) > 0 {
            assert(s.ring[s.slot(0)].block_idx < s.ring[s.slot(s.behind(q))].block_idx);
        }
    }
    if s.alloc > 0 {
        lemma_slot(s, 0);
        lemma_slot(s, s.front);
        assert(s.active(s.front));
        lemma_blocks_increase(s, s.front, s.front);
    }
}

/// The fragments that a block has taken after the first `i` of these have come, some of them perhaps
/// more than once: it takes `k`.
pub open spec fn taken(order: Seq<int>, n: int, k: int, i: int) -> Set<int>
    decreases i,
{
    if i <= 0 {
        Set::empty()
    } else {
        let got = taken(order, n, k, i - 1);
        if held(got, n) < k {
            got.insert(order[i - 1])
        } else {
            got
        }
    }
}

/// The state after the first `i` of these fragments of a block have come.
pub open spec fn fragments_received(
    l: LinkView,
    b: u64,
    data: Seq<Seq<u8>>,
    order: Seq<int>,
    i: int,
) -> LinkView
    decreases i,
{
    if i <= 0 {
        l
    } else {
        fragment_received(
            fragments_received(l, b, data, order, i - 1),
            b,
            order[i - 1],
            block_fragment(data, order[i - 1]),
        )
    }
}

/// One more fragment of a block, new or not, in any stage of the block.
pub proof fn lemma_block_step(
    blocks: spec_fn(u64) -> Seq<Seq<u8>>,
    l: LinkView,
    m: LinkView,
    b: u64,
    got: Set<int>,
    f: int,
)
    requires
        follows(m, blocks),
        l.k >= 1,
        b <= MAX_BLOCK_IDX,
        l.last_known_block == u64::MAX || b > l.last_known_block,
        0 <= f < l.n,
        if got == Set::<int>::empty() {
            m == l
        } else if held(got, l.n) < l.k {
            gathering(blocks, l, m, b, got)
        } else {
            delivered(blocks, l, m, b, got)
        },
    ensures
        ({
            let s = fragment_received(m, b, f, block_fragment(blocks(b), f));
            let next = if held(got, l.n) < l.k {
                got.insert(f)
            } else {
                got
            };
            &&& follows(s, blocks)
            &&& if held(next, l.n) < l.k {
                gathering(blocks, l, s, b, next)
            } else {
                delivered(blocks, l, s, b, next)
            }
        }),
{
    let d = block_fragment(blocks(b), f);
    let (o, place) = with_block(m, b);
    lemma_none_held(l.n);
    if held(got, l.n) >= l.k {
        lemma_delivered_late(blocks, l, m, b, got, f, d);
    } else {
        if got == Set::<int>::empty() {
            lemma_first_fragment(l, b, blocks);
        }
        let r = place->0;
        if got.contains(f) {
            assert(o.ring[r].map[f] != 0);
            assert(got.insert(f) =~= got);
        } else {
            lemma_gathering_step(blocks, l, o, b, got, r, f);
        }
    }
}

/// Whichever fragments of a new block come, in whatever order and however often: with the `k`th different
/// one the block is handed on, all of its payloads, once each, in order, after what is left of the
/// blocks before it, and nothing of it after that.
pub proof fn lemma_block_delivered(
    l: LinkView,
    b: u64,
    order: Seq<int>,
    i: int,
    blocks: spec_fn(u64) -> Seq<Seq<u8>>,
)
    requires
        follows(l, blocks),
        b <= MAX_BLOCK_IDX,
        l.last_known_block == u64::MAX || b > l.last_known_block,
        forall|j: int| 0 <= j < order.len() ==> 0 <= #[trigger] order[j] < l.n,
        1 <= i <= order.len(),
    ensures
        ({
            let s = fragments_received(l, b, blocks(b), order, i);
            let got = taken(order, l.n, l.k, i);
            &&& follows(s, blocks)
            &&& got != Set::<int>::empty()
            &&& if held(got, l.n) < l.k {
                gathering(blocks, l, s, b, got)
            } else {
                delivered(blocks, l, s, b, got)
            }
        }),
    decreases i,
{
    let m = fragments_received(l, b, blocks(b), order, i - 1);
    let got = taken(order, l.n, l.k, i - 1);
    lemma_none_held(l.n);
    if i > 1 {
        lemma_block_delivered(l, b, order, i - 1, blocks);
    }
    lemma_block_step(blocks, l, m, b, got, order[i - 1]);
    if held(got, l.n) < l.k {
        assert(got.insert(order[i - 1]).contains(order[i - 1]));
    }
}

/// Where the block is the next one and no other is on its way, nothing but its payloads is handed on.
pub proof fn lemma_block_alone(
    l: LinkView,
    s: LinkView,
    b: u64,
    got: Set<int>,
    blocks: spec_fn(u64) -> Seq<Seq<u8>>,
)
    requires
        delivered(blocks, l, s, b, got),
        next_place(l) == (b as int, 0int),
    ensures
        payloads(s.events) == payloads(l.events) + payloads_between(blocks(b), 0, l.k),
{
    let y = choose|y: Seq<Seq<u8>>| #[trigger]
        part_of_stream(blocks, l.k, next_place(l), (b as int, 0), y) && payloads(s.events)
            == payloads(l.events) + y + payloads_between(blocks(b), 0, l.k);
    lemma_empty_part(blocks, l.k, (b as int, 0), y);
    assert(payloads(l.events) + y =~= payloads(l.events));
}

} // verus!
