//! The receiver's blocks: fragments are gathered in a ring of blocks, payloads go out in order, and
//! missing fragments are rebuilt as soon as enough others of their block are there.
use crate::block::stated_size;
use crate::bytes::{copy_range, zeros};
use crate::gf_poly::{interpolate, poly_eval};
use crate::wifibroadcast::{
    MAX_BLOCK_IDX, MAX_FEC_PAYLOAD, MAX_PAYLOAD_SIZE, WFB_PACKET_FEC_ONLY, WPACKET_HDR_SIZE,
};
use crate::zfex::{
    aligned, aligned_size, checks_before, column, fec_decode_simd, fec_new, index_points,
    indices_distinct, point, recovered, Block, Fec, ZFEX_SIMD_ALIGNMENT,
};
use crate::zfex::{
    lemma_checks_before, lemma_recovered, lemma_shuffled_placed, lemma_simd_alignment,
};
use vstd::prelude::*;

verus! {

pub const RX_RING_SIZE: usize = 40;

/// Bytes of a fragment's buffer: `MAX_FEC_PAYLOAD` brought up to a multiple of the alignment.
pub const FRAGMENT_BUFFER: usize = 4000;

/// What the receiver asks its surroundings to do, in order.
#[derive(Clone, Debug, PartialEq, Eq)]
pub enum RxEvent {
    /// Hand on the payload of a data fragment of a block.
    Payload { block_idx: u64, fragment_idx: u8, payload: Vec<u8> },
    /// Report lost packets.
    Loss { lost_count: u32, last_seq: u32, new_seq: u32 },
    /// Report a new session.
    Session { epoch: u64, fec_type: u8, k: u8, n: u8 },
    /// Send a datagram to the aggregator.
    Forward(Vec<u8>),
    /// Report what is wrong with a packet.
    Fault(RxFault),
}

/// What is wrong with a packet or with the payload of a fragment.
#[derive(Clone, Copy, Debug, PartialEq, Eq, Structural)]
pub enum RxFault {
    LongPacket,
    ShortPacket,
    UnknownType(u8),
    InvalidSessionPacket,
    SessionNotOpened,
    OldEpoch { session_epoch: u64, epoch: u64 },
    OtherChannel { session_channel: u32, channel_id: u32 },
    UnsupportedCode(u8),
    InvalidCode,
    /// The packet with this nonce could not be opened.
    PacketNotOpened(u64),
    BlockOverflow,
    InvalidFragment(u8),
    /// The fragment with this sequence number states too large a size.
    CorruptedPacket(u32),
}

pub enum RxEventView {
    Payload { block_idx: u64, fragment_idx: int, payload: Seq<u8> },
    Loss { lost_count: u32, last_seq: u32, new_seq: u32 },
    Session { epoch: u64, fec_type: u8, k: u8, n: u8 },
    Forward(Seq<u8>),
    Fault(RxFault),
}

impl View for RxEvent {
    type V = RxEventView;

    open spec fn view(&self) -> RxEventView {
        match *self {
            RxEvent::Payload { block_idx, fragment_idx, payload } => RxEventView::Payload {
                block_idx,
                fragment_idx: fragment_idx as int,
                payload: payload@,
            },
            RxEvent::Loss { lost_count, last_seq, new_seq } => RxEventView::Loss {
                lost_count,
                last_seq,
                new_seq,
            },
            RxEvent::Session { epoch, fec_type, k, n } => RxEventView::Session {
                epoch,
                fec_type,
                k,
                n,
            },
            RxEvent::Forward(p) => RxEventView::Forward(p@),
            RxEvent::Fault(f) => RxEventView::Fault(f),
        }
    }
}

pub open spec fn events_view(events: Seq<RxEvent>) -> Seq<RxEventView> {
    Seq::new(events.len(), |i: int| events[i]@)
}

/// Counters of the receiver.  They wrap around.
#[derive(Clone, Copy, Debug, PartialEq, Eq, Structural)]
pub struct RxCounters {
    pub count_p_all: u32,
    pub count_b_all: u32,
    pub count_p_dec_err: u32,
    pub count_p_session: u32,
    pub count_p_data: u32,
    pub count_p_fec_recovered: u32,
    pub count_p_lost: u32,
    pub count_p_bad: u32,
    pub count_p_override: u32,
    pub count_p_outgoing: u32,
    pub count_b_outgoing: u32,
}

/// A block on its way in.
pub struct RxRingItem {
    pub block_idx: u64,
    pub fragments: Vec<Block>,
    /// The size of each fragment that has come, and zero for the others.
    pub fragment_map: Vec<usize>,
    pub fragment_to_send_idx: u8,
    pub has_fragments: u8,
}

/// The same in mathematical terms.
pub struct RingView {
    pub block_idx: u64,
    pub fragments: Seq<Seq<u8>>,
    pub map: Seq<usize>,
    pub to_send: int,
    pub has: int,
}

pub open spec fn blocks_view(blocks: Seq<Block>) -> Seq<Seq<u8>> {
    Seq::new(blocks.len(), |i: int| blocks[i].data@)
}

impl View for RxRingItem {
    type V = RingView;

    open spec fn view(&self) -> RingView {
        RingView {
            block_idx: self.block_idx,
            fragments: blocks_view(self.fragments@),
            map: self.fragment_map@,
            to_send: self.fragment_to_send_idx as int,
            has: self.has_fragments as int,
        }
    }
}

/// The state of the receiver's blocks.
pub struct RxLink {
    pub fec: Option<Fec>,
    pub fec_k: i32,
    pub fec_n: i32,
    pub seq: u32,
    pub rx_ring: Vec<RxRingItem>,
    pub rx_ring_front: usize,
    pub rx_ring_alloc: usize,
    pub last_known_block: u64,
    pub counters: RxCounters,
    /// What is to be done, oldest first.
    pub events: Vec<RxEvent>,
}

/// The same in mathematical terms.
pub struct LinkView {
    pub k: int,
    pub n: int,
    pub seq: u32,
    pub ring: Seq<RingView>,
    pub front: int,
    pub alloc: int,
    pub last_known_block: u64,
    pub counters: RxCounters,
    pub events: Seq<RxEventView>,
}

pub open spec fn ring_view(ring: Seq<RxRingItem>) -> Seq<RingView> {
    Seq::new(ring.len(), |i: int| ring[i]@)
}

impl View for RxLink {
    type V = LinkView;

    open spec fn view(&self) -> LinkView {
        LinkView {
            k: self.fec_k as int,
            n: self.fec_n as int,
            seq: self.seq,
            ring: ring_view(self.rx_ring@),
            front: self.rx_ring_front as int,
            alloc: self.rx_ring_alloc as int,
            last_known_block: self.last_known_block,
            counters: self.counters,
            events: events_view(self.events@),
        }
    }
}

/// The number of the entries from `from` up to `to` that are not zero.
pub open spec fn present(map: Seq<usize>, from: int, to: int) -> int
    decreases to - from,
{
    if to <= from {
        0
    } else {
        present(map, from, to - 1) + if map[to - 1] != 0 {
            1int
        } else {
            0int
        }
    }
}

impl LinkView {
    /// The place in the ring of the block `i` behind the front one.
    pub open spec fn slot(&self, i: int) -> int {
        (self.front + i) % 40
    }

    /// The place of a ring item behind the front one.
    pub open spec fn behind(&self, r: int) -> int {
        (r - self.front) % 40
    }

    /// Whether the ring item is in use.
    pub open spec fn active(&self, r: int) -> bool {
        self.behind(r) < self.alloc
    }

    /// Every ring item has the buffers that the session's code asks for.
    pub open spec fn buffers_wf(&self) -> bool {
        &&& self.ring.len() == RX_RING_SIZE
        &&& forall|r: int|
            0 <= r < RX_RING_SIZE ==> {
                &&& (#[trigger] self.ring[r]).fragments.len() == self.n
                &&& self.ring[r].map.len() == self.n
                &&& forall|f: int|
                    0 <= f < self.n ==> (#[trigger] self.ring[r].fragments[f]).len()
                        == FRAGMENT_BUFFER
            }
    }

    /// A block in use lacks fragments; what it says of itself is true.
    pub open spec fn block_wf(&self, r: int) -> bool {
        let b = self.ring[r];
        &&& b.block_idx <= MAX_BLOCK_IDX
        &&& b.has == present(b.map, 0, self.n)
        &&& 0 <= b.to_send < self.k
        &&& b.has < self.k
        &&& forall|f: int|
            0 <= f < self.n ==> #[trigger] b.map[f] == 0 || WPACKET_HDR_SIZE <= b.map[f]
                <= MAX_FEC_PAYLOAD
    }

    /// Block numbers increase from the front of the ring on, up to the last one that is known.
    #[verifier::opaque]
    pub open spec fn blocks_ordered(&self) -> bool {
        &&& forall|q: int, r: int|
            0 <= q < RX_RING_SIZE && 0 <= r < RX_RING_SIZE && self.active(r) && self.behind(q)
                < self.behind(r) ==> (#[trigger] self.ring[q]).block_idx < (
            #[trigger] self.ring[r]).block_idx
        &&& self.none_above(self.last_known_block as int)
        &&& self.last_known_block == u64::MAX ==> self.alloc == 0
    }

    /// No block in use has a number above `b`.
    pub open spec fn none_above(&self, b: int) -> bool {
        forall|r: int|
            0 <= r < RX_RING_SIZE && self.active(r) ==> (#[trigger] self.ring[r]).block_idx <= b
    }

    /// A session is open, and its blocks are in order.
    pub open spec fn wf(&self) -> bool {
        &&& 1 <= self.k <= self.n <= 255
        &&& 0 <= self.front < RX_RING_SIZE
        &&& 0 <= self.alloc <= RX_RING_SIZE
        &&& self.buffers_wf()
        &&& forall|r: int| 0 <= r < RX_RING_SIZE && self.active(r) ==> #[trigger] self.block_wf(r)
        &&& self.blocks_ordered()
    }
}

/// The order of blocks depends on their numbers and places alone.
pub proof fn lemma_order_same(a: LinkView, b: LinkView)
    requires
        b.blocks_ordered(),
        a.front == b.front,
        a.alloc == b.alloc,
        a.last_known_block == b.last_known_block,
        forall|r: int|
            0 <= r < RX_RING_SIZE ==> (#[trigger] a.ring[r]).block_idx == b.ring[r].block_idx,
    ensures
        a.blocks_ordered(),
{
    reveal(LinkView::blocks_ordered);
    assert forall|q: int, r: int|
        0 <= q < RX_RING_SIZE && 0 <= r < RX_RING_SIZE && a.active(r) && a.behind(q) < a.behind(
            r,
        ) implies (#[trigger] a.ring[q]).block_idx < (#[trigger] a.ring[r]).block_idx by {
        assert(b.active(r) && b.behind(q) < b.behind(r));
        assert(b.ring[q].block_idx < b.ring[r].block_idx);
    }
    assert forall|r: int| 0 <= r < RX_RING_SIZE && a.active(r) implies (
    #[trigger] a.ring[r]).block_idx <= a.last_known_block by {
        assert(b.active(r));
        assert(b.ring[r].block_idx <= b.last_known_block);
    }
}

/// The order of blocks, spelled out.
pub proof fn lemma_blocks_increase(l: LinkView, q: int, r: int)
    requires
        l.blocks_ordered(),
        0 <= q < RX_RING_SIZE,
        0 <= r < RX_RING_SIZE,
        l.active(r),
    ensures
        l.behind(q) < l.behind(r) ==> l.ring[q].block_idx < l.ring[r].block_idx,
        l.ring[r].block_idx <= l.last_known_block,
        l.last_known_block != u64::MAX,
{
    reveal(LinkView::blocks_ordered);
    lemma_behind_range(l, r);
}

proof fn lemma_behind_range(l: LinkView, r: int)
    ensures
        0 <= l.behind(r) < 40,
{
}

/// The sequence number of a fragment: its place among all data fragments, in 32 bits.
pub open spec fn packet_seq(block_idx: u64, k: int, f: int) -> u32 {
    ((block_idx * k + f) % 0x1_0000_0000) as u32
}

/// After data fragment `f` of ring item `r` has gone out.
///
/// A jump of the sequence number is reported as a loss.  A fragment that states too large a size is
/// bad; one that is there for the code alone is silent.
pub open spec fn sent(l: LinkView, r: int, f: int) -> LinkView {
    let fragment = l.ring[r].fragments[f];
    let size = stated_size(fragment);
    let seq = packet_seq(l.ring[r].block_idx, l.k, f);
    let lost = seq > l.seq.wrapping_add(1) && l.seq > 0;
    let lost_count = seq.wrapping_sub(l.seq).wrapping_sub(1);
    let silent = fragment[0] & WFB_PACKET_FEC_ONLY != 0;
    LinkView {
        seq,
        counters: RxCounters {
            count_p_lost: if lost {
                l.counters.count_p_lost.wrapping_add(lost_count)
            } else {
                l.counters.count_p_lost
            },
            count_p_bad: if size > MAX_PAYLOAD_SIZE {
                l.counters.count_p_bad.wrapping_add(1)
            } else {
                l.counters.count_p_bad
            },
            count_p_outgoing: if size <= MAX_PAYLOAD_SIZE && !silent {
                l.counters.count_p_outgoing.wrapping_add(1)
            } else {
                l.counters.count_p_outgoing
            },
            count_b_outgoing: if size <= MAX_PAYLOAD_SIZE && !silent {
                l.counters.count_b_outgoing.wrapping_add(size as u32)
            } else {
                l.counters.count_b_outgoing
            },
            ..l.counters
        },
        events: l.events + (if lost {
            seq![RxEventView::Loss { lost_count, last_seq: l.seq, new_seq: seq }]
        } else {
            Seq::empty()
        }) + (if size > MAX_PAYLOAD_SIZE {
            seq![RxEventView::Fault(RxFault::CorruptedPacket(seq))]
        } else if !silent {
            seq![
                RxEventView::Payload {
                    block_idx: l.ring[r].block_idx,
                    fragment_idx: f,
                    payload: fragment.subrange(WPACKET_HDR_SIZE as int, WPACKET_HDR_SIZE + size),
                },
            ]
        } else {
            Seq::empty()
        }),
        ..l
    }
}

/// After the data fragments from `from` on of ring item `r` that have come have gone out.
pub open spec fn sent_present(l: LinkView, r: int, from: int) -> LinkView
    decreases l.k - from,
{
    if from >= l.k {
        l
    } else if l.ring[r].map[from] != 0 {
        sent_present(sent(l, r, from), r, from + 1)
    } else {
        sent_present(l, r, from + 1)
    }
}

/// After the front block has left the ring.
pub open spec fn front_dropped(l: LinkView) -> LinkView {
    LinkView { front: (l.front + 1) % 40, alloc: l.alloc - 1, ..l }
}

/// After a place at the end of the ring has been taken: a full ring gives up its front block, whose
/// fragments go out as they are.
pub open spec fn pushed(l: LinkView) -> LinkView {
    if l.alloc < RX_RING_SIZE {
        LinkView { alloc: l.alloc + 1, ..l }
    } else {
        let c = LinkView {
            counters: RxCounters {
                count_p_override: l.counters.count_p_override.wrapping_add(1),
                ..l.counters
            },
            ..l
        };
        let s = sent_present(c, l.front, l.ring[l.front].to_send);
        LinkView { front: (l.front + 1) % 40, ..s }
    }
}

/// The place that `pushed` takes.
pub open spec fn pushed_slot(l: LinkView) -> int {
    if l.alloc < RX_RING_SIZE {
        l.slot(l.alloc)
    } else {
        l.front
    }
}

/// A block of which nothing has come; its buffers keep what they held.
pub open spec fn blank(item: RingView, block_idx: u64) -> RingView {
    RingView {
        block_idx,
        to_send: 0,
        has: 0,
        map: Seq::new(item.map.len(), |i: int| 0usize),
        ..item
    }
}

/// After blocks up to `block_idx` have been opened, `count` of them.
pub open spec fn blocks_opened(l: LinkView, block_idx: u64, count: int) -> LinkView
    decreases count,
{
    if count <= 0 {
        l
    } else {
        let b = blocks_opened(l, (block_idx - 1) as u64, count - 1);
        let r = pushed_slot(b);
        let p = pushed(b);
        LinkView { ring: p.ring.update(r, blank(p.ring[r], block_idx)), ..p }
    }
}

/// The ring item that holds a block, looking from the block `i` behind the front one on.
pub open spec fn found_block(l: LinkView, block_idx: u64, i: int) -> Option<int>
    decreases l.alloc - i,
{
    if i >= l.alloc {
        None
    } else if l.ring[l.slot(i)].block_idx == block_idx {
        Some(l.slot(i))
    } else {
        found_block(l, block_idx, i + 1)
    }
}

/// How many blocks a block that is not in the ring opens.
pub open spec fn blocks_to_open(l: LinkView, block_idx: u64) -> int {
    if l.last_known_block == u64::MAX {
        1
    } else if block_idx - l.last_known_block < RX_RING_SIZE {
        block_idx - l.last_known_block
    } else {
        RX_RING_SIZE as int
    }
}

/// The state in which a block has a ring item, and that item; none if the block is past.
pub open spec fn with_block(l: LinkView, block_idx: u64) -> (LinkView, Option<int>) {
    match found_block(l, block_idx, 0) {
        Some(r) => (l, Some(r)),
        None => if l.last_known_block != u64::MAX && block_idx <= l.last_known_block {
            (l, None)
        } else {
            let count = blocks_to_open(l, block_idx);
            let start = LinkView { last_known_block: block_idx, ..l };
            let before = blocks_opened(start, (block_idx - 1) as u64, count - 1);
            (blocks_opened(start, block_idx, count), Some(pushed_slot(before)))
        },
    }
}

/// A fragment's buffer with data in it.
pub open spec fn filled(buffer: Seq<u8>, data: Seq<u8>) -> Seq<u8> {
    data + zeros((MAX_FEC_PAYLOAD - data.len()) as nat) + buffer.skip(MAX_FEC_PAYLOAD as int)
}

/// After a fragment has been stored.
pub open spec fn stored(l: LinkView, r: int, f: int, data: Seq<u8>) -> LinkView {
    let b = l.ring[r];
    LinkView {
        ring: l.ring.update(
            r,
            RingView {
                fragments: b.fragments.update(f, filled(b.fragments[f], data)),
                map: b.map.update(f, data.len() as usize),
                has: b.has + 1,
                ..b
            },
        ),
        ..l
    }
}

/// After a fragment has gone out in its turn.
pub open spec fn sent_next(l: LinkView, r: int) -> LinkView {
    let s = sent(l, r, l.ring[r].to_send);
    LinkView {
        ring: s.ring.update(r, RingView { to_send: s.ring[r].to_send + 1, ..s.ring[r] }),
        ..s
    }
}

/// After the fragments that have come without a gap have gone out.
pub open spec fn drained(l: LinkView, r: int) -> LinkView
    decreases l.k - l.ring[r].to_send,
{
    if 0 <= r < l.ring.len() && l.ring[r].to_send < l.k && l.ring[r].map[l.ring[r].to_send] != 0 {
        drained(sent_next(l, r), r)
    } else {
        l
    }
}

/// After `count` blocks have left the front of the ring, with what has come of them gone out.
pub open spec fn fronts_flushed(l: LinkView, count: int) -> LinkView
    decreases count,
{
    if count <= 0 {
        l
    } else {
        fronts_flushed(
            front_dropped(sent_present(l, l.front, l.ring[l.front].to_send)),
            count - 1,
        )
    }
}

/// The first fragment from `j` on that has come, or the number of fragments.
pub open spec fn next_present(map: Seq<usize>, j: int) -> int
    decreases map.len() - j,
{
    if j >= map.len() || map[j] != 0 {
        j
    } else {
        next_present(map, j + 1)
    }
}

/// For each of the first `i` data fragments the fragment that stands in for it, itself where it has
/// come, else the next check fragment; and where to look for the next check fragment.
pub open spec fn stand_ins(map: Seq<usize>, k: int, i: int) -> (Seq<u32>, int)
    decreases i,
{
    if i <= 0 {
        (Seq::empty(), k)
    } else {
        let (index, j) = stand_ins(map, k, i - 1);
        if map[i - 1] != 0 {
            (index.push((i - 1) as u32), j)
        } else {
            let c = next_present(map, j);
            (index.push(c as u32), c + 1)
        }
    }
}

/// The largest of the check fragments that stand in for the first `i` data fragments.
pub open spec fn repair_size(map: Seq<usize>, k: int, i: int) -> int
    decreases i,
{
    if i <= 0 {
        0
    } else {
        let m = repair_size(map, k, i - 1);
        let c = next_present(map, stand_ins(map, k, i - 1).1);
        if map[i - 1] == 0 && map[c] > m {
            map[c] as int
        } else {
            m
        }
    }
}

/// `size` brought up to a multiple of the alignment.
pub open spec fn aligned_up(size: int) -> int {
    (size + 15) / 16 * 16
}

/// Byte `b` of data fragment `row`: the value at its point of the polynomial through the bytes of
/// the fragments that stand in.
pub open spec fn repaired_byte(fragments: Seq<Seq<u8>>, index: Seq<u32>, row: int, b: int) -> u8 {
    let d = Seq::new(index.len(), |r: int| fragments[index[r] as int][b]);
    poly_eval(interpolate(index_points(index, index.len()), d), point(row))
}

/// The fragments of a block with the missing data fragments rebuilt.
pub open spec fn repaired_fragments(b: RingView, k: int) -> Seq<Seq<u8>> {
    let index = stand_ins(b.map, k, k).0;
    let size = aligned_up(repair_size(b.map, k, k));
    Seq::new(
        b.fragments.len(),
        |f: int|
            if f < k && b.map[f] == 0 {
                Seq::new(
                    b.fragments[f].len(),
                    |i: int|
                        if i < size {
                            repaired_byte(b.fragments, index, f, i)
                        } else {
                            b.fragments[f][i]
                        },
                )
            } else {
                b.fragments[f]
            },
    )
}

/// After the missing data fragments of ring item `r` have been rebuilt.
pub open spec fn repaired(l: LinkView, r: int) -> LinkView {
    LinkView {
        ring: l.ring.update(
            r,
            RingView { fragments: repaired_fragments(l.ring[r], l.k), ..l.ring[r] },
        ),
        ..l
    }
}

/// After the rest of a block has gone out in order, whatever has come of it.
pub open spec fn sent_rest(l: LinkView, r: int) -> LinkView
    decreases l.k - l.ring[r].to_send,
{
    if 0 <= r < l.ring.len() && l.ring[r].to_send < l.k {
        sent_rest(sent_next(l, r), r)
    } else {
        l
    }
}

/// After a block of which enough has come has left the ring: the blocks before it go out as they
/// are, its missing fragments are rebuilt, and it goes out in full.
pub open spec fn completed(l: LinkView, r: int) -> LinkView {
    let l1 = fronts_flushed(l, l.behind(r));
    let missing = l.k - l.ring[r].to_send - present(l.ring[r].map, l.ring[r].to_send, l.k);
    let l2 = if missing > 0 {
        repaired(l1, r)
    } else {
        l1
    };
    let l3 = LinkView {
        counters: RxCounters {
            count_p_fec_recovered: l2.counters.count_p_fec_recovered.wrapping_add(missing as u32),
            ..l2.counters
        },
        ..l2
    };
    front_dropped(sent_rest(l3, r))
}

/// After a fragment has been taken into ring item `r`.
pub open spec fn fragment_taken(l: LinkView, r: int, f: int, data: Seq<u8>) -> LinkView {
    if l.ring[r].map[f] != 0 {
        l
    } else {
        let s = stored(l, r, f, data);
        let d = if r == l.front {
            drained(s, r)
        } else {
            s
        };
        if r == l.front && d.ring[r].to_send == d.k {
            front_dropped(d)
        } else if d.ring[r].to_send < d.k && d.ring[r].has == d.k {
            completed(d, r)
        } else {
            d
        }
    }
}

/// After a fragment of a block has come.
pub open spec fn fragment_received(l: LinkView, block_idx: u64, f: int, data: Seq<u8>) -> LinkView {
    match with_block(l, block_idx) {
        (opened, Some(r)) => fragment_taken(opened, r, f, data),
        (opened, None) => opened,
    }
}

/// Only the sequence number, the counters and the events differ.
pub open spec fn same_blocks(a: LinkView, b: LinkView) -> bool {
    &&& a.k == b.k
    &&& a.n == b.n
    &&& a.ring == b.ring
    &&& a.front == b.front
    &&& a.alloc == b.alloc
    &&& a.last_known_block == b.last_known_block
}

pub proof fn lemma_sent_present_blocks(l: LinkView, r: int, from: int)
    ensures
        same_blocks(sent_present(l, r, from), l),
    decreases l.k - from,
{
    if from < l.k {
        if l.ring[r].map[from] != 0 {
            lemma_sent_present_blocks(sent(l, r, from), r, from + 1);
        } else {
            lemma_sent_present_blocks(l, r, from + 1);
        }
    }
}

pub proof fn lemma_present_zeros(map: Seq<usize>, from: int, to: int)
    requires
        0 <= from,
        to <= map.len(),
        forall|i: int| from <= i < to ==> #[trigger] map[i] == 0,
    ensures
        present(map, from, to) == 0,
    decreases to - from,
{
    if from < to {
        lemma_present_zeros(map, from, to - 1);
    }
}

/// After one more block has been opened.
pub open spec fn block_opened(l: LinkView, block_idx: u64) -> LinkView {
    let r = pushed_slot(l);
    let p = pushed(l);
    LinkView { ring: p.ring.update(r, blank(p.ring[r], block_idx)), ..p }
}

/// Opening a block keeps the others in order.
pub proof fn lemma_block_opened(l: LinkView, block_idx: u64)
    requires
        l.wf(),
        block_idx <= MAX_BLOCK_IDX,
        block_idx <= l.last_known_block,
        l.last_known_block != u64::MAX,
        l.none_above(block_idx - 1),
    ensures
        block_opened(l, block_idx).none_above(block_idx as int),
        block_opened(l, block_idx).wf(),
        0 <= pushed_slot(l) < RX_RING_SIZE,
        pushed(l).ring == l.ring,
        block_opened(l, block_idx).k == l.k,
        block_opened(l, block_idx).n == l.n,
        block_opened(l, block_idx).ring[pushed_slot(l)] == blank(l.ring[pushed_slot(l)], block_idx),
        block_opened(l, block_idx).active(pushed_slot(l)),
        block_opened(l, block_idx).behind(pushed_slot(l)) == block_opened(l, block_idx).alloc - 1,
        block_opened(l, block_idx).last_known_block == l.last_known_block,
{
    let r = pushed_slot(l);
    let p = pushed(l);
    let o = block_opened(l, block_idx);
    let c = LinkView {
        counters: RxCounters {
            count_p_override: l.counters.count_p_override.wrapping_add(1),
            ..l.counters
        },
        ..l
    };
    lemma_sent_present_blocks(c, l.front, l.ring[l.front].to_send);
    assert(p.ring == l.ring);
    lemma_present_zeros(o.ring[r].map, 0, l.n);
    assert(o.block_wf(r));
    lemma_opened_ordered(l, block_idx);
    assert forall|q: int| 0 <= q < RX_RING_SIZE && o.active(q) implies #[trigger] o.block_wf(q) by {
        if q != r {
            assert(l.active(q));
            assert(l.block_wf(q));
        }
    }
    assert forall|q: int| 0 <= q < RX_RING_SIZE implies {
        &&& (#[trigger] o.ring[q]).fragments.len() == o.n
        &&& o.ring[q].map.len() == o.n
        &&& forall|f: int|
            0 <= f < o.n ==> (#[trigger] o.ring[q].fragments[f]).len() == FRAGMENT_BUFFER
    } by {
        assert(l.ring[q].fragments.len() == l.n);
    }
}

/// A block that is opened comes last.
proof fn lemma_opened_ordered(l: LinkView, block_idx: u64)
    requires
        l.wf(),
        block_idx <= l.last_known_block,
        l.last_known_block != u64::MAX,
        l.none_above(block_idx - 1),
    ensures
        block_opened(l, block_idx).blocks_ordered(),
        block_opened(l, block_idx).none_above(block_idx as int),
{
    reveal(LinkView::blocks_ordered);
    let o = block_opened(l, block_idx);
    let s = pushed_slot(l);
    let c = LinkView {
        counters: RxCounters {
            count_p_override: l.counters.count_p_override.wrapping_add(1),
            ..l.counters
        },
        ..l
    };
    lemma_sent_present_blocks(c, l.front, l.ring[l.front].to_send);
    lemma_slot(l, 0);
    if l.alloc < RX_RING_SIZE {
        lemma_slot(l, l.alloc);
    }
    assert forall|q: int| 0 <= q < RX_RING_SIZE && q != s && o.active(q) implies {
        &&& l.active(q)
        &&& #[trigger] o.ring[q] == l.ring[q]
        &&& o.behind(q) == (if l.alloc < RX_RING_SIZE {
            l.behind(q)
        } else {
            l.behind(q) - 1
        })
    } by {
        lemma_slot(l, q);
        lemma_behind_next(l, q);
        if l.alloc < RX_RING_SIZE && l.behind(q) == l.alloc {
            assert(l.slot(l.behind(q)) == s);
        }
    }
    assert(o.behind(s) == o.alloc - 1) by {
        lemma_behind_next(l, s);
    }
    assert forall|q: int, r: int|
        0 <= q < RX_RING_SIZE && 0 <= r < RX_RING_SIZE && o.active(r) && o.behind(q) < o.behind(
            r,
        ) implies (#[trigger] o.ring[q]).block_idx < (#[trigger] o.ring[r]).block_idx by {
        assert(o.active(q));
        assert(q != s);
        assert(o.ring[q] == l.ring[q]);
        if r != s {
            assert(o.ring[r] == l.ring[r]);
            assert(l.ring[q].block_idx < l.ring[r].block_idx);
        } else {
            assert(l.ring[q].block_idx <= block_idx - 1);
        }
    }
    assert forall|r: int| 0 <= r < RX_RING_SIZE && o.active(r) implies (
    #[trigger] o.ring[r]).block_idx <= block_idx by {
        if r != s {
            assert(l.ring[r].block_idx <= block_idx - 1);
        }
    }
}

pub proof fn lemma_blocks_opened(l: LinkView, block_idx: u64, count: int)
    requires
        l.wf(),
        block_idx <= MAX_BLOCK_IDX,
        0 <= count <= block_idx + 1,
        count > 0 ==> block_idx <= l.last_known_block && l.last_known_block != u64::MAX,
        l.none_above(block_idx - count),
    ensures
        blocks_opened(l, block_idx, count).none_above(block_idx as int),
        blocks_opened(l, block_idx, count).wf(),
        blocks_opened(l, block_idx, count).k == l.k,
        blocks_opened(l, block_idx, count).n == l.n,
        blocks_opened(l, block_idx, count).last_known_block == l.last_known_block,
    decreases count,
{
    if count > 0 {
        if count > 1 {
            lemma_blocks_opened(l, (block_idx - 1) as u64, count - 1);
        }
        lemma_block_opened(blocks_opened(l, (block_idx - 1) as u64, count - 1), block_idx);
    }
}

/// Places in the ring and places behind the front are two ways to count.
pub proof fn lemma_slot(l: LinkView, i: int)
    requires
        0 <= i < RX_RING_SIZE,
        0 <= l.front < RX_RING_SIZE,
    ensures
        0 <= l.slot(i) < RX_RING_SIZE,
        l.behind(l.slot(i)) == i,
        0 <= l.behind(i) < RX_RING_SIZE,
        l.slot(l.behind(i)) == i,
{
    let s = l.front + i;
    assert(s % 40 == if s < 40 {
        s
    } else {
        s - 40
    });
    let d = i - l.front;
    assert(d % 40 == if d >= 0 {
        d
    } else {
        d + 40
    });
}

pub proof fn lemma_found_block(l: LinkView, block_idx: u64, i: int)
    requires
        0 <= i <= l.alloc,
        0 <= l.front < RX_RING_SIZE,
        l.alloc <= RX_RING_SIZE,
    ensures
        found_block(l, block_idx, i) matches Some(r) ==> 0 <= r < RX_RING_SIZE && l.active(r)
            && l.ring[r].block_idx == block_idx,
        found_block(l, block_idx, i) is None ==> forall|r: int|
            0 <= r < RX_RING_SIZE && i <= l.behind(r) < l.alloc ==> (#[trigger] l.ring[r]).block_idx
                != block_idx,
    decreases l.alloc - i,
{
    if i < l.alloc {
        lemma_slot(l, i);
        lemma_found_block(l, block_idx, i + 1);
        if found_block(l, block_idx, i) is None {
            assert forall|r: int| 0 <= r < RX_RING_SIZE && i <= l.behind(r) < l.alloc implies (
            #[trigger] l.ring[r]).block_idx != block_idx by {
                lemma_slot(l, r);
            }
        }
    }
}

/// The block that a fragment belongs to is in use and lacks fragments.
pub proof fn lemma_with_block(l: LinkView, block_idx: u64)
    requires
        l.wf(),
        block_idx <= MAX_BLOCK_IDX,
    ensures
        with_block(l, block_idx).0.wf(),
        with_block(l, block_idx).0.k == l.k,
        with_block(l, block_idx).0.n == l.n,
        with_block(l, block_idx).1 matches Some(r) ==> {
            &&& 0 <= r < RX_RING_SIZE
            &&& with_block(l, block_idx).0.active(r)
            &&& with_block(l, block_idx).0.ring[r].block_idx == block_idx
        },
{
    lemma_found_block(l, block_idx, 0);
    if found_block(l, block_idx, 0) is None && !(l.last_known_block != u64::MAX && block_idx
        <= l.last_known_block) {
        let count = blocks_to_open(l, block_idx);
        let start = LinkView { last_known_block: block_idx, ..l };
        lemma_relabelled(l, block_idx);
        lemma_start_below(l, start, block_idx);
        if count > 1 {
            lemma_blocks_opened(start, (block_idx - 1) as u64, count - 1);
        }
        let before = blocks_opened(start, (block_idx - 1) as u64, count - 1);
        lemma_block_opened(before, block_idx);
    }
}

/// Blocks stay in order when a later one becomes known.
pub proof fn lemma_relabelled(l: LinkView, block_idx: u64)
    requires
        l.wf(),
        block_idx <= MAX_BLOCK_IDX,
        l.last_known_block == u64::MAX || block_idx > l.last_known_block,
    ensures
        (LinkView { last_known_block: block_idx, ..l }).wf(),
{
    let s = LinkView { last_known_block: block_idx, ..l };
    assert forall|r: int| 0 <= r < RX_RING_SIZE && s.active(r) implies #[trigger] s.block_wf(r) by {
        assert(l.active(r));
        assert(l.block_wf(r));
    }
    reveal(LinkView::blocks_ordered);
    assert forall|q: int, r: int|
        0 <= q < RX_RING_SIZE && 0 <= r < RX_RING_SIZE && s.active(r) && s.behind(q) < s.behind(
            r,
        ) implies (#[trigger] s.ring[q]).block_idx < (#[trigger] s.ring[r]).block_idx by {
        assert(l.active(r) && l.behind(q) < l.behind(r));
        assert(l.ring[q].block_idx < l.ring[r].block_idx);
    }
    assert forall|r: int| 0 <= r < RX_RING_SIZE && s.active(r) implies (
    #[trigger] s.ring[r]).block_idx <= block_idx by {
        assert(l.active(r));
        lemma_behind_range(l, r);
        assert(l.ring[r].block_idx <= l.last_known_block);
    }
}

/// The blocks in use come before those that a new one opens.
pub proof fn lemma_start_below(l: LinkView, start: LinkView, block_idx: u64)
    requires
        l.wf(),
        l.last_known_block == u64::MAX || block_idx > l.last_known_block,
        start == (LinkView { last_known_block: start.last_known_block, ..l }),
    ensures
        start.none_above(block_idx - blocks_to_open(l, block_idx)),
{
    assert forall|r: int| 0 <= r < RX_RING_SIZE && start.active(r) implies (
    #[trigger] start.ring[r]).block_idx <= block_idx - blocks_to_open(l, block_idx) by {
        assert(l.active(r));
        lemma_blocks_increase(l, r, r);
    }
}

pub proof fn lemma_present_split(map: Seq<usize>, from: int, mid: int, to: int)
    requires
        from <= mid <= to,
    ensures
        present(map, from, to) == present(map, from, mid) + present(map, mid, to),
        0 <= present(map, mid, to) <= to - mid,
    decreases to - mid,
{
    if mid < to {
        lemma_present_split(map, from, mid, to - 1);
    }
}

pub proof fn lemma_next_present(map: Seq<usize>, j: int)
    requires
        0 <= j <= map.len(),
    ensures
        j <= next_present(map, j) <= map.len(),
        forall|i: int| j <= i < next_present(map, j) ==> #[trigger] map[i] == 0,
        next_present(map, j) < map.len() ==> map[next_present(map, j)] != 0,
        present(map, j, map.len() as int) > 0 ==> next_present(map, j) < map.len(),
    decreases map.len() - j,
{
    let n = map.len() as int;
    if j < map.len() {
        lemma_present_split(map, j, j + 1, n);
        assert(present(map, j, j + 1) == present(map, j, j) + if map[j] != 0 {
            1int
        } else {
            0int
        });
        if map[j] == 0 {
            lemma_next_present(map, j + 1);
        }
    }
}

/// In a block of which as many fragments have come as there are data fragments, every missing data
/// fragment has a check fragment of its own to stand in for it.
pub proof fn lemma_stand_ins(map: Seq<usize>, k: int, i: int)
    requires
        0 <= i <= k <= map.len() <= 255,
        present(map, 0, map.len() as int) == k,
    ensures
        ({
            let (x, j) = stand_ins(map, k, i);
            &&& x.len() == i
            &&& k <= j <= map.len()
            &&& present(map, k, j) == i - present(map, 0, i)
            &&& forall|r: int| 0 <= r < i && map[r] != 0 ==> #[trigger] x[r] == r
            &&& forall|r: int|
                0 <= r < i && map[r] == 0 ==> k <= #[trigger] x[r] < j && map[x[r] as int] != 0
            &&& forall|r: int, s: int|
                0 <= r < s < i && map[r] == 0 && map[s] == 0 ==> #[trigger] x[r]
                    < #[trigger] x[s]
        }),
        i < k && map[i] == 0 ==> next_present(map, stand_ins(map, k, i).1) < map.len(),
    decreases i,
{
    let n = map.len() as int;
    if i > 0 {
        lemma_stand_ins(map, k, i - 1);
        let (x, j) = stand_ins(map, k, i - 1);
        lemma_present_split(map, 0, i - 1, i);
        assert(present(map, i - 1, i) == present(map, i - 1, i - 1) + if map[i - 1] != 0 {
            1int
        } else {
            0int
        });
        if map[i - 1] == 0 {
            let c = next_present(map, j);
            lemma_next_present(map, j);
            lemma_present_split(map, k, j, c);
            lemma_present_zeros(map, j, c);
            lemma_present_split(map, k, c, c + 1);
            assert(present(map, c, c + 1) == present(map, c, c) + 1);
        }
    }
    if i < k && map[i] == 0 {
        let j = stand_ins(map, k, i).1;
        lemma_present_split(map, 0, k, n);
        lemma_present_split(map, k, j, n);
        lemma_present_split(map, 0, i, k);
        lemma_present_split(map, i, i + 1, k);
        assert(present(map, i, i + 1) == present(map, i, i) + 0);
        lemma_next_present(map, j);
    }
}

/// The check fragments that stand in are of valid size, and so is what they rebuild.
pub proof fn lemma_repair_size(map: Seq<usize>, k: int, i: int)
    requires
        0 <= i <= k <= map.len() <= 255,
        present(map, 0, map.len() as int) == k,
        forall|f: int| 0 <= f < map.len() ==> #[trigger] map[f] <= MAX_FEC_PAYLOAD,
    ensures
        0 <= repair_size(map, k, i) <= MAX_FEC_PAYLOAD,
        i > present(map, 0, i) ==> repair_size(map, k, i) > 0,
    decreases i,
{
    if i > 0 {
        lemma_repair_size(map, k, i - 1);
        lemma_stand_ins(map, k, i - 1);
        let j = stand_ins(map, k, i - 1).1;
        lemma_next_present(map, j);
    }
}

/// The output of data fragment `f` holds these bytes.
spec fn output_holds(out: Seq<Block>, x: Seq<u32>, k: int, f: int, bytes: Seq<u8>) -> bool {
    let o = checks_before(x, k, f);
    0 <= o < out.len() && out[o].data@ == bytes
}

/// The number of check blocks before a place depends on what is before it alone.
proof fn lemma_checks_prefix(a: Seq<u32>, b: Seq<u32>, k: int, row: int)
    requires
        0 <= row <= a.len(),
        a.len() <= b.len(),
        forall|i: int| 0 <= i < row ==> a[i] == b[i],
    ensures
        checks_before(a, k, row) == checks_before(b, k, row),
    decreases row,
{
    if row > 0 {
        lemma_checks_prefix(a, b, k, row - 1);
    }
}

/// Fragments that stand in for others are different from one another.
pub proof fn lemma_not_repeated(x: Seq<u32>, map: Seq<usize>, k: int)
    requires
        0 <= k <= map.len() <= 255,
        present(map, 0, map.len() as int) == k,
        x == stand_ins(map, k, k).0,
    ensures
        x.len() == k,
        indices_distinct(x, k),
        !crate::zfex::data_index_repeated(x, k),
        forall|r: int| 0 <= r < k ==> #[trigger] x[r] < map.len() && (x[r] < k ==> x[r] == r),
        forall|r: int| 0 <= r < k ==> (map[r] == 0) == (#[trigger] x[r] >= k),
{
    lemma_stand_ins(map, k, k);
    assert forall|i: int, j: int| 0 <= i < j < k implies #[trigger] x[i] != #[trigger] x[j] by {
        if map[i] != 0 {
            assert(x[i] == i);
        }
        if map[j] != 0 {
            assert(x[j] == j);
        }
    }
}

impl LinkView {
    /// As `wf`, but for ring item `r`, to which a fragment has just come.
    pub open spec fn wf_but(&self, r: int) -> bool {
        let b = self.ring[r];
        &&& 1 <= self.k <= self.n <= 255
        &&& 0 <= self.front < RX_RING_SIZE
        &&& 0 <= self.alloc <= RX_RING_SIZE
        &&& self.buffers_wf()
        &&& 0 <= r < RX_RING_SIZE
        &&& self.active(r)
        &&& forall|q: int|
            0 <= q < RX_RING_SIZE && q != r && self.active(q) ==> #[trigger] self.block_wf(q)
        &&& self.blocks_ordered()
        &&& b.block_idx <= MAX_BLOCK_IDX
        &&& b.has == present(b.map, 0, self.n)
        &&& 0 <= b.to_send <= self.k
        &&& 0 < b.has <= self.k
        &&& forall|f: int|
            0 <= f < self.n ==> #[trigger] b.map[f] == 0 || WPACKET_HDR_SIZE <= b.map[f]
                <= MAX_FEC_PAYLOAD
    }
}

pub proof fn lemma_present_update(map: Seq<usize>, from: int, to: int, f: int, v: usize)
    requires
        0 <= from <= f < to <= map.len(),
        map[f] == 0,
        v != 0,
    ensures
        present(map.update(f, v), from, to) == present(map, from, to) + 1,
    decreases to - from,
{
    if f == to - 1 {
        lemma_present_same(map, map.update(f, v), from, to - 1);
    } else {
        lemma_present_update(map, from, to - 1, f, v);
    }
}

proof fn lemma_present_same(a: Seq<usize>, b: Seq<usize>, from: int, to: int)
    requires
        forall|i: int| from <= i < to ==> (a[i] == 0) == (b[i] == 0),
    ensures
        present(a, from, to) == present(b, from, to),
    decreases to - from,
{
    if from < to {
        lemma_present_same(a, b, from, to - 1);
    }
}

pub proof fn lemma_stored(l: LinkView, r: int, f: int, data: Seq<u8>)
    requires
        l.wf(),
        0 <= r < RX_RING_SIZE,
        l.active(r),
        0 <= f < l.n,
        l.ring[r].map[f] == 0,
        WPACKET_HDR_SIZE <= data.len() <= MAX_FEC_PAYLOAD,
    ensures
        stored(l, r, f, data).wf_but(r),
        stored(l, r, f, data).ring[r].to_send < l.k,
{
    let s = stored(l, r, f, data);
    assert(l.block_wf(r));
    assert(l.ring[r].fragments[f].len() == FRAGMENT_BUFFER);
    lemma_present_update(l.ring[r].map, 0, l.n, f, data.len() as usize);
    lemma_present_split(l.ring[r].map, 0, 0, l.n);
    lemma_order_same(s, l);
    assert forall|q: int| 0 <= q < RX_RING_SIZE && q != r && s.active(q) implies #[trigger] s.block_wf(
        q,
    ) by {
        assert(l.active(q));
        assert(l.block_wf(q));
    }
    assert forall|q: int| 0 <= q < RX_RING_SIZE implies {
        &&& (#[trigger] s.ring[q]).fragments.len() == s.n
        &&& s.ring[q].map.len() == s.n
        &&& forall|g: int|
            0 <= g < s.n ==> (#[trigger] s.ring[q].fragments[g]).len() == FRAGMENT_BUFFER
    } by {
        assert(l.ring[q].fragments.len() == l.n);
        assert forall|g: int| 0 <= g < s.n implies (#[trigger] s.ring[q].fragments[g]).len()
            == FRAGMENT_BUFFER by {
            assert(l.ring[q].fragments[g].len() == FRAGMENT_BUFFER);
        }
    }
}

/// Only what has gone out of ring item `r` differs.
pub open spec fn same_but_sent(a: LinkView, b: LinkView, r: int) -> bool {
    &&& a.k == b.k
    &&& a.n == b.n
    &&& a.front == b.front
    &&& a.alloc == b.alloc
    &&& a.last_known_block == b.last_known_block
    &&& a.ring == b.ring.update(r, RingView { to_send: a.ring[r].to_send, ..b.ring[r] })
}

proof fn lemma_same_but_sent_wf(a: LinkView, b: LinkView, r: int)
    requires
        b.wf_but(r),
        same_but_sent(a, b, r),
        0 <= a.ring[r].to_send <= a.k,
    ensures
        a.wf_but(r),
{
    lemma_order_same(a, b);
    assert forall|q: int| 0 <= q < RX_RING_SIZE && q != r && a.active(q) implies #[trigger] a.block_wf(
        q,
    ) by {
        assert(b.active(q));
        assert(b.block_wf(q));
    }
    assert forall|q: int| 0 <= q < RX_RING_SIZE implies {
        &&& (#[trigger] a.ring[q]).fragments.len() == a.n
        &&& a.ring[q].map.len() == a.n
        &&& forall|g: int|
            0 <= g < a.n ==> (#[trigger] a.ring[q].fragments[g]).len() == FRAGMENT_BUFFER
    } by {
        assert(b.ring[q].fragments.len() == b.n);
    }
}

pub proof fn lemma_sent_next(l: LinkView, r: int)
    requires
        l.wf_but(r),
        l.ring[r].to_send < l.k,
    ensures
        sent_next(l, r).wf_but(r),
        same_but_sent(sent_next(l, r), l, r),
        sent_next(l, r).ring[r].to_send == l.ring[r].to_send + 1,
{
    let s = sent_next(l, r);
    assert(s.ring =~= l.ring.update(r, RingView { to_send: s.ring[r].to_send, ..l.ring[r] }));
    lemma_same_but_sent_wf(s, l, r);
}

pub proof fn lemma_drained(l: LinkView, r: int)
    requires
        l.wf_but(r),
    ensures
        drained(l, r).wf_but(r),
        same_but_sent(drained(l, r), l, r),
        l.ring[r].to_send <= drained(l, r).ring[r].to_send,
        drained(l, r).ring[r].to_send < l.k ==> l.ring[r].map[drained(l, r).ring[r].to_send] == 0,
    decreases l.k - l.ring[r].to_send,
{
    if l.ring[r].to_send < l.k && l.ring[r].map[l.ring[r].to_send] != 0 {
        lemma_sent_next(l, r);
        lemma_drained(sent_next(l, r), r);
        let d = drained(l, r);
        assert(d.ring =~= l.ring.update(r, RingView { to_send: d.ring[r].to_send, ..l.ring[r] }));
    } else {
        assert(l.ring =~= l.ring.update(r, RingView { to_send: l.ring[r].to_send, ..l.ring[r] }));
    }
}

pub proof fn lemma_sent_rest(l: LinkView, r: int)
    requires
        l.wf_but(r),
    ensures
        sent_rest(l, r).wf_but(r),
        same_but_sent(sent_rest(l, r), l, r),
        sent_rest(l, r).ring[r].to_send == l.k,
    decreases l.k - l.ring[r].to_send,
{
    if l.ring[r].to_send < l.k {
        lemma_sent_next(l, r);
        lemma_sent_rest(sent_next(l, r), r);
        let d = sent_rest(l, r);
        assert(d.ring =~= l.ring.update(r, RingView { to_send: d.ring[r].to_send, ..l.ring[r] }));
    } else {
        assert(l.ring =~= l.ring.update(r, RingView { to_send: l.ring[r].to_send, ..l.ring[r] }));
    }
}

/// Dropping the front block leaves the others in order.
pub proof fn lemma_front_dropped(l: LinkView)
    requires
        l.wf_but(l.front),
    ensures
        front_dropped(l).wf(),
{
    let d = front_dropped(l);
    lemma_slot(l, l.front);
    lemma_slot(l, 0);
    lemma_order_dropped(l, d);
    assert forall|q: int| 0 <= q < RX_RING_SIZE && d.active(q) implies #[trigger] d.block_wf(q) by {
        lemma_behind_next(l, q);
        assert(q != l.front);
        assert(l.active(q));
        assert(l.block_wf(q));
    }
}

/// When the front moves on, every other place is one closer to it.
pub proof fn lemma_behind_next(l: LinkView, q: int)
    requires
        0 <= q < RX_RING_SIZE,
        0 <= l.front < RX_RING_SIZE,
    ensures
        q == l.front ==> l.behind(q) == 0 && front_dropped(l).behind(q) == 39,
        q != l.front ==> front_dropped(l).behind(q) == l.behind(q) - 1 && l.behind(q) > 0,
{
    let d = q - l.front;
    assert(d % 40 == if d >= 0 {
        d
    } else {
        d + 40
    });
    let front = (l.front + 1) % 40;
    assert(front == if l.front == 39 {
        0
    } else {
        l.front + 1
    });
    let e = q - front;
    assert(e % 40 == if e >= 0 {
        e
    } else {
        e + 40
    });
}

/// The blocks behind the front one stay in order when it leaves.
proof fn lemma_order_dropped(l: LinkView, d: LinkView)
    requires
        l.blocks_ordered(),
        0 <= l.front < RX_RING_SIZE,
        1 <= l.alloc <= RX_RING_SIZE,
        d.ring == l.ring,
        d.front == (l.front + 1) % 40,
        d.alloc == l.alloc - 1,
        d.last_known_block == l.last_known_block,
    ensures
        d.blocks_ordered(),
{
    reveal(LinkView::blocks_ordered);
    assert forall|q: int, r: int|
        0 <= q < RX_RING_SIZE && 0 <= r < RX_RING_SIZE && d.active(r) && d.behind(q) < d.behind(
            r,
        ) implies (#[trigger] d.ring[q]).block_idx < (#[trigger] d.ring[r]).block_idx by {
        lemma_behind_next(l, q);
        lemma_behind_next(l, r);
        assert(d.behind(q) == front_dropped(l).behind(q));
        assert(d.behind(r) == front_dropped(l).behind(r));
        assert(l.active(r) && l.behind(q) < l.behind(r));
        assert(l.ring[q].block_idx < l.ring[r].block_idx);
    }
    assert forall|r: int| 0 <= r < RX_RING_SIZE && d.active(r) implies (
    #[trigger] d.ring[r]).block_idx <= d.last_known_block by {
        lemma_behind_next(l, r);
        assert(d.behind(r) == front_dropped(l).behind(r));
        assert(l.active(r));
        assert(l.ring[r].block_idx <= l.last_known_block);
    }
}

/// A front block that lacks fragments goes out as it is and leaves the ring.
pub proof fn lemma_front_flushed(l: LinkView, r: int)
    requires
        l.wf_but(r),
        r != l.front,
    ensures
        ({
            let s = sent_present(l, l.front, l.ring[l.front].to_send);
            &&& front_dropped(s).wf_but(r)
            &&& front_dropped(s).behind(r) == l.behind(r) - 1
            &&& front_dropped(s).ring == l.ring
            &&& front_dropped(s).k == l.k
            &&& front_dropped(s).n == l.n
            &&& l.behind(r) > 0
            &&& l.block_wf(l.front)
        }),
{
    let s = sent_present(l, l.front, l.ring[l.front].to_send);
    lemma_sent_present_blocks(l, l.front, l.ring[l.front].to_send);
    lemma_behind_next(l, l.front);
    lemma_behind_next(l, r);
    lemma_slot(l, r);
    assert(l.active(l.front));
    let d = front_dropped(s);
    assert(d.behind(r) == front_dropped(l).behind(r));
    lemma_order_dropped(l, d);
    assert forall|q: int| 0 <= q < RX_RING_SIZE && q != r && d.active(q) implies #[trigger] d.block_wf(
        q,
    ) by {
        lemma_behind_next(l, q);
        assert(d.behind(q) == front_dropped(l).behind(q));
        assert(q != l.front);
        assert(l.active(q));
        assert(l.block_wf(q));
    }
}

pub proof fn lemma_fronts_flushed(l: LinkView, r: int)
    requires
        l.wf_but(r),
    ensures
        fronts_flushed(l, l.behind(r)).wf_but(r),
        fronts_flushed(l, l.behind(r)).front == r,
        fronts_flushed(l, l.behind(r)).ring == l.ring,
        fronts_flushed(l, l.behind(r)).k == l.k,
        fronts_flushed(l, l.behind(r)).n == l.n,
    decreases l.behind(r),
{
    lemma_slot(l, r);
    if r != l.front {
        lemma_front_flushed(l, r);
        lemma_fronts_flushed(
            front_dropped(sent_present(l, l.front, l.ring[l.front].to_send)),
            r,
        );
    }
}

pub proof fn lemma_repaired_wf(l: LinkView, r: int)
    requires
        l.wf_but(r),
    ensures
        repaired(l, r).wf_but(r),
{
    let s = repaired(l, r);
    lemma_order_same(s, l);
    assert forall|q: int| 0 <= q < RX_RING_SIZE && q != r && s.active(q) implies #[trigger] s.block_wf(
        q,
    ) by {
        assert(l.active(q));
        assert(l.block_wf(q));
    }
    assert forall|q: int| 0 <= q < RX_RING_SIZE implies {
        &&& (#[trigger] s.ring[q]).fragments.len() == s.n
        &&& s.ring[q].map.len() == s.n
        &&& forall|g: int|
            0 <= g < s.n ==> (#[trigger] s.ring[q].fragments[g]).len() == FRAGMENT_BUFFER
    } by {
        assert(l.ring[q].fragments.len() == l.n);
        assert forall|g: int| 0 <= g < s.n implies (#[trigger] s.ring[q].fragments[g]).len()
            == FRAGMENT_BUFFER by {
            assert(l.ring[q].fragments[g].len() == FRAGMENT_BUFFER);
        }
    }
}

pub proof fn lemma_counted_wf(a: LinkView, b: LinkView, r: int)
    requires
        a.wf_but(r),
        b == (LinkView { counters: b.counters, ..a }),
    ensures
        b.wf_but(r),
{
    lemma_order_same(b, a);
    assert forall|q: int| 0 <= q < RX_RING_SIZE && q != r && b.active(q) implies #[trigger] b.block_wf(
        q,
    ) by {
        assert(a.active(q));
        assert(a.block_wf(q));
    }
}

/// A session begins in order.
pub proof fn lemma_session_started(l: LinkView, k: int, n: int)
    requires
        1 <= k <= n <= 255,
    ensures
        session_started(l, k, n).wf(),
{
    let s = session_started(l, k, n);
    reveal(LinkView::blocks_ordered);
    assert forall|r: int| 0 <= r < RX_RING_SIZE implies !s.active(r) by {
        lemma_slot(s, r);
    }
    assert forall|r: int| 0 <= r < RX_RING_SIZE && s.active(r) implies #[trigger] s.block_wf(r) by {
        lemma_slot(s, r);
    }
}

/// A ring item of a new session.
pub open spec fn fresh_item(n: int) -> RingView {
    RingView {
        block_idx: 0,
        fragments: Seq::new(n as nat, |i: int| zeros(FRAGMENT_BUFFER as nat)),
        map: Seq::new(n as nat, |i: int| 0usize),
        to_send: 0,
        has: 0,
    }
}

/// After a session with `k` data fragments among `n` has begun.
pub open spec fn session_started(l: LinkView, k: int, n: int) -> LinkView {
    LinkView {
        k,
        n,
        seq: 0,
        ring: Seq::new(RX_RING_SIZE as nat, |r: int| fresh_item(n)),
        front: 0,
        alloc: 0,
        last_known_block: u64::MAX,
        ..l
    }
}

/// A link on which no session has been opened.
pub open spec fn new_link() -> LinkView {
    LinkView {
        k: -1,
        n: -1,
        seq: 0,
        ring: Seq::new(RX_RING_SIZE as nat, |r: int| fresh_item(0)),
        front: 0,
        alloc: 0,
        last_known_block: u64::MAX,
        counters: no_counts(),
        events: Seq::empty(),
    }
}

/// Counters at zero.
pub open spec fn no_counts() -> RxCounters {
    RxCounters {
        count_p_all: 0,
        count_b_all: 0,
        count_p_dec_err: 0,
        count_p_session: 0,
        count_p_data: 0,
        count_p_fec_recovered: 0,
        count_p_lost: 0,
        count_p_bad: 0,
        count_p_override: 0,
        count_p_outgoing: 0,
        count_b_outgoing: 0,
    }
}

impl RxCounters {
    pub fn new() -> (c: RxCounters)
        ensures
            c == no_counts(),
    {
        RxCounters {
            count_p_all: 0,
            count_b_all: 0,
            count_p_dec_err: 0,
            count_p_session: 0,
            count_p_data: 0,
            count_p_fec_recovered: 0,
            count_p_lost: 0,
            count_p_bad: 0,
            count_p_override: 0,
            count_p_outgoing: 0,
            count_b_outgoing: 0,
        }
    }
}

fn zero_buffer() -> (b: Block)
    ensures
        b.data@ == zeros(FRAGMENT_BUFFER as nat),
        aligned(b),
{
    let data: Vec<u8> = vec![0u8; FRAGMENT_BUFFER];
    assert(data@ =~= zeros(FRAGMENT_BUFFER as nat));
    Block { addr: 0, data }
}

impl RxRingItem {
    /// A ring item without buffers.
    fn new() -> (item: RxRingItem)
        ensures
            item@ == fresh_item(0),
    {
        let item = RxRingItem {
            block_idx: 0,
            fragments: Vec::new(),
            fragment_map: Vec::new(),
            fragment_to_send_idx: 0,
            has_fragments: 0,
        };
        assert(item@.fragments =~= fresh_item(0).fragments);
        assert(item@.map =~= fresh_item(0).map);
        item
    }

    /// A ring item with `n` buffers.
    fn with_buffers(n: usize) -> (item: RxRingItem)
        ensures
            item@ == fresh_item(n as int),
            forall|f: int| 0 <= f < item.fragments@.len() ==> aligned(#[trigger] item.fragments@[f]),
    {
        let mut fragments: Vec<Block> = Vec::new();
        let mut f: usize = 0;
        while f < n
            invariant
                f <= n,
                fragments@.len() == f,
                forall|i: int|
                    0 <= i < f ==> (#[trigger] fragments@[i]).data@ == zeros(FRAGMENT_BUFFER as nat)
                        && aligned(fragments@[i]),
            decreases n - f,
        {
            fragments.push(zero_buffer());
            f = f + 1;
        }
        let item = RxRingItem {
            block_idx: 0,
            fragments,
            fragment_map: vec![0usize; n],
            fragment_to_send_idx: 0,
            has_fragments: 0,
        };
        assert(item@.fragments =~= fresh_item(n as int).fragments);
        assert(item@.map =~= fresh_item(n as int).map);
        item
    }
}

pub proof fn lemma_same_blocks_wf(a: LinkView, b: LinkView)
    requires
        same_blocks(a, b),
        b.wf(),
    ensures
        a.wf(),
{
    lemma_order_same(a, b);
    assert forall|r: int| 0 <= r < RX_RING_SIZE && a.active(r) implies #[trigger] a.block_wf(r) by {
        assert(b.active(r));
        assert(b.block_wf(r));
    }
}

impl RxLink {
    /// No session is open.
    pub open spec fn closed(&self) -> bool {
        &&& self.fec is None
        &&& self.fec_k == -1
        &&& self.fec_n == -1
    }

    /// A link without a session.
    pub fn new() -> (l: RxLink)
        ensures
            l.closed(),
            l@ == new_link(),
    {
        let mut rx_ring: Vec<RxRingItem> = Vec::new();
        let mut r: usize = 0;
        while r < RX_RING_SIZE
            invariant
                r <= RX_RING_SIZE,
                rx_ring@.len() == r,
                forall|i: int| 0 <= i < r ==> (#[trigger] rx_ring@[i])@ == fresh_item(0),
            decreases RX_RING_SIZE - r,
        {
            rx_ring.push(RxRingItem::new());
            r = r + 1;
        }
        let l = RxLink {
            fec: None,
            fec_k: -1,
            fec_n: -1,
            seq: 0,
            rx_ring,
            rx_ring_front: 0,
            rx_ring_alloc: 0,
            last_known_block: u64::MAX,
            counters: RxCounters::new(),
            events: Vec::new(),
        };
        assert(l@.ring =~= new_link().ring);
        assert(l@.events =~= new_link().events);
        l
    }

    /// Begins a session with `k` data fragments among `n`.
    pub fn init_fec(&mut self, k: u8, n: u8)
        requires
            1 <= k <= n,
        ensures
            final(self)@ == session_started(old(self)@, k as int, n as int),
            final(self).wf(),
    {
        let ghost l = self@;
        let mut rx_ring: Vec<RxRingItem> = Vec::new();
        let mut r: usize = 0;
        while r < RX_RING_SIZE
            invariant
                r <= RX_RING_SIZE,
                rx_ring@.len() == r,
                forall|i: int| 0 <= i < r ==> (#[trigger] rx_ring@[i])@ == fresh_item(n as int),
                forall|i: int, f: int|
                    0 <= i < r && 0 <= f < rx_ring@[i].fragments@.len() ==> aligned(
                        #[trigger] rx_ring@[i].fragments@[f],
                    ),
            decreases RX_RING_SIZE - r,
        {
            rx_ring.push(RxRingItem::with_buffers(n as usize));
            r = r + 1;
        }
        if let Ok(fec) = fec_new(k as u16, n as u16) {
            self.fec = Some(fec);
        }
        self.fec_k = k as i32;
        self.fec_n = n as i32;
        self.rx_ring_front = 0;
        self.rx_ring_alloc = 0;
        self.last_known_block = u64::MAX;
        self.seq = 0;
        self.rx_ring = rx_ring;
        proof {
            let want = session_started(l, k as int, n as int);
            assert(self@.ring =~= want.ring);
            lemma_session_started(l, k as int, n as int);
        }
    }

    /// Ends the session.
    pub fn deinit_fec(&mut self)
        ensures
            final(self).closed(),
            final(self).counters == old(self).counters,
            final(self).events == old(self).events,
            final(self).seq == old(self).seq,
            final(self).last_known_block == old(self).last_known_block,
            final(self).rx_ring_front == old(self).rx_ring_front,
            final(self).rx_ring_alloc == old(self).rx_ring_alloc,
            final(self).rx_ring@.len() == old(self).rx_ring@.len(),
            forall|r: int|
                0 <= r < old(self).rx_ring@.len() ==> {
                    let item = #[trigger] final(self).rx_ring@[r];
                    let before = old(self).rx_ring@[r];
                    &&& item.fragments@.len() == 0
                    &&& item.fragment_map@.len() == 0
                    &&& item.block_idx == before.block_idx
                    &&& item.fragment_to_send_idx == before.fragment_to_send_idx
                    &&& item.has_fragments == before.has_fragments
                },
    {
        self.fec = None;
        self.fec_k = -1;
        self.fec_n = -1;
        let mut r: usize = 0;
        while r < self.rx_ring.len()
            invariant
                r <= self.rx_ring@.len(),
                self.closed(),
                self.counters == old(self).counters,
                self.events == old(self).events,
                self.seq == old(self).seq,
                self.last_known_block == old(self).last_known_block,
                self.rx_ring_front == old(self).rx_ring_front,
                self.rx_ring_alloc == old(self).rx_ring_alloc,
                self.rx_ring@.len() == old(self).rx_ring@.len(),
                forall|i: int|
                    0 <= i < self.rx_ring@.len() ==> {
                        let item = #[trigger] self.rx_ring@[i];
                        let before = old(self).rx_ring@[i];
                        &&& i < r ==> item.fragments@.len() == 0 && item.fragment_map@.len() == 0
                        &&& item.block_idx == before.block_idx
                        &&& item.fragment_to_send_idx == before.fragment_to_send_idx
                        &&& item.has_fragments == before.has_fragments
                    },
            decreases self.rx_ring@.len() - r,
        {
            self.rx_ring[r].fragments = Vec::new();
            self.rx_ring[r].fragment_map = Vec::new();
            r = r + 1;
        }
    }

    /// The code is the session's, and the buffers are aligned.
    pub open spec fn parts_wf(&self) -> bool {
        &&& self.fec is Some
        &&& self.fec->0.wf()
        &&& self.fec->0.k == self.fec_k
        &&& self.fec->0.n == self.fec_n
        &&& forall|r: int, f: int|
            0 <= r < self.rx_ring@.len() && 0 <= f < self.rx_ring@[r].fragments@.len() ==> aligned(
                #[trigger] self.rx_ring@[r].fragments@[f],
            )
    }

    /// A session is open, and its blocks are in order.
    pub open spec fn wf(&self) -> bool {
        self.parts_wf() && self@.wf()
    }

    fn push_event(&mut self, e: RxEvent)
        ensures
            final(self)@ == (LinkView { events: old(self)@.events.push(e@), ..old(self)@ }),
            final(self).parts_wf() == old(self).parts_wf(),
    {
        let ghost before = self@;
        self.events.push(e);
        assert(self@.events =~= before.events.push(e@));
    }

    /// Sends data fragment `f` of ring item `r`.
    fn send_packet(&mut self, r: usize, f: usize)
        requires
            old(self)@.buffers_wf(),
            1 <= old(self)@.k <= old(self)@.n <= 255,
            r < RX_RING_SIZE,
            f < old(self)@.n,
            old(self)@.ring[r as int].block_idx <= MAX_BLOCK_IDX,
        ensures
            final(self)@ == sent(old(self)@, r as int, f as int),
            final(self).parts_wf() == old(self).parts_wf(),
    {
        let ghost before = self@;
        assert(before.ring[r as int].fragments[f as int].len() == FRAGMENT_BUFFER);
        let flags: u8 = self.rx_ring[r].fragments[f].data[0];
        let packet_size: usize = self.rx_ring[r].fragments[f].data[1] as usize * 256
            + self.rx_ring[r].fragments[f].data[2] as usize;
        proof {
            let b = self.rx_ring@[r as int].block_idx;
            let k = self.fec_k;
            assert(0 <= b * k <= MAX_BLOCK_IDX * 255) by (nonlinear_arith)
                requires
                    0 <= b <= MAX_BLOCK_IDX,
                    0 <= k <= 255,
            ;
        }
        let number: u64 = self.rx_ring[r].block_idx * (self.fec_k as u64) + f as u64;
        let seq: u32 = (number % 0x1_0000_0000) as u32;
        if seq > self.seq.wrapping_add(1) && self.seq > 0 {
            let lost_count: u32 = seq.wrapping_sub(self.seq).wrapping_sub(1);
            self.counters.count_p_lost = self.counters.count_p_lost.wrapping_add(lost_count);
            let last_seq: u32 = self.seq;
            self.push_event(RxEvent::Loss { lost_count, last_seq, new_seq: seq });
        }
        self.seq = seq;
        if packet_size > MAX_PAYLOAD_SIZE {
            self.push_event(RxEvent::Fault(RxFault::CorruptedPacket(seq)));
            self.counters.count_p_bad = self.counters.count_p_bad.wrapping_add(1);
        } else if (flags & WFB_PACKET_FEC_ONLY) == 0 {
            let payload: Vec<u8> = copy_range(
                &self.rx_ring[r].fragments[f].data,
                WPACKET_HDR_SIZE,
                WPACKET_HDR_SIZE + packet_size,
            );
            let block_idx: u64 = self.rx_ring[r].block_idx;
            self.push_event(RxEvent::Payload { block_idx, fragment_idx: f as u8, payload });
            self.counters.count_p_outgoing = self.counters.count_p_outgoing.wrapping_add(1);
            self.counters.count_b_outgoing = self.counters.count_b_outgoing.wrapping_add(
                packet_size as u32,
            );
        }
        assert(self@.events =~= sent(before, r as int, f as int).events);
        assert(self@.ring =~= before.ring);
    }

    /// Sends the data fragments from `from` on of ring item `r` that have come.
    fn send_present(&mut self, r: usize, from: usize)
        requires
            old(self)@.buffers_wf(),
            1 <= old(self)@.k <= old(self)@.n <= 255,
            r < RX_RING_SIZE,
            old(self)@.ring[r as int].block_idx <= MAX_BLOCK_IDX,
        ensures
            final(self)@ == sent_present(old(self)@, r as int, from as int),
            final(self).parts_wf() == old(self).parts_wf(),
    {
        let mut f: usize = from;
        while f < self.fec_k as usize
            invariant
                r < RX_RING_SIZE,
                self@.buffers_wf(),
                1 <= self@.k <= self@.n <= 255,
                self@.ring[r as int].block_idx <= MAX_BLOCK_IDX,
                sent_present(self@, r as int, f as int) == sent_present(
                    old(self)@,
                    r as int,
                    from as int,
                ),
                self.parts_wf() == old(self).parts_wf(),
            decreases self@.k - f,
        {
            assert(self@.ring[r as int].map.len() == self@.n);
            if self.rx_ring[r].fragment_map[f] != 0 {
                self.send_packet(r, f);
            }
            f = f + 1;
        }
    }

    /// Takes a place at the end of the ring.
    fn rx_ring_push(&mut self) -> (r: usize)
        requires
            old(self)@.buffers_wf(),
            1 <= old(self)@.k <= old(self)@.n <= 255,
            0 <= old(self)@.front < RX_RING_SIZE,
            0 <= old(self)@.alloc <= RX_RING_SIZE,
            old(self)@.alloc == RX_RING_SIZE ==> old(self)@.ring[old(self)@.front].block_idx
                <= MAX_BLOCK_IDX,
        ensures
            r == pushed_slot(old(self)@),
            final(self)@ == pushed(old(self)@),
            final(self).parts_wf() == old(self).parts_wf(),
    {
        if self.rx_ring_alloc < RX_RING_SIZE {
            let idx: usize = (self.rx_ring_front + self.rx_ring_alloc) % RX_RING_SIZE;
            self.rx_ring_alloc = self.rx_ring_alloc + 1;
            return idx;
        }
        self.counters.count_p_override = self.counters.count_p_override.wrapping_add(1);
        let idx: usize = self.rx_ring_front;
        let from: usize = self.rx_ring[idx].fragment_to_send_idx as usize;
        self.send_present(idx, from);
        proof {
            let c = LinkView {
                counters: RxCounters {
                    count_p_override: old(self)@.counters.count_p_override.wrapping_add(1),
                    ..old(self)@.counters
                },
                ..old(self)@
            };
            lemma_sent_present_blocks(c, idx as int, from as int);
        }
        self.rx_ring_front = (self.rx_ring_front + 1) % RX_RING_SIZE;
        idx
    }

    /// Opens one more block at the end of the ring.
    fn open_block(&mut self, block_idx: u64) -> (r: usize)
        requires
            old(self).wf(),
            block_idx <= MAX_BLOCK_IDX,
            block_idx <= old(self).last_known_block,
            old(self).last_known_block != u64::MAX,
            old(self)@.none_above(block_idx - 1),
        ensures
            final(self)@.none_above(block_idx as int),
            final(self).last_known_block == old(self).last_known_block,
            r == pushed_slot(old(self)@),
            final(self)@ == block_opened(old(self)@, block_idx),
            final(self).wf(),
    {
        proof {
            let l = old(self)@;
            lemma_block_opened(l, block_idx);
            if l.alloc >= RX_RING_SIZE {
                assert(l.active(l.front));
                assert(l.block_wf(l.front));
            }
        }
        let n: usize = self.fec_n as usize;
        let idx: usize = self.rx_ring_push();
        assert(self@.ring.len() == RX_RING_SIZE);
        self.rx_ring[idx].block_idx = block_idx;
        self.rx_ring[idx].fragment_to_send_idx = 0;
        self.rx_ring[idx].has_fragments = 0;
        self.rx_ring[idx].fragment_map = vec![0usize; n];
        proof {
            let want = block_opened(old(self)@, block_idx);
            assert(self@.ring[idx as int].map =~= want.ring[idx as int].map);
            assert(self@.ring =~= want.ring);
        }
        idx
    }

    /// The ring item of a block, opened if it is new; none if the block is past.
    fn get_block_ring_idx(&mut self, block_idx: u64) -> (r: Option<usize>)
        requires
            old(self).wf(),
            block_idx <= MAX_BLOCK_IDX,
        ensures
            final(self)@ == with_block(old(self)@, block_idx).0,
            match with_block(old(self)@, block_idx).1 {
                Some(i) => r == Some(i as usize) && 0 <= i < RX_RING_SIZE,
                None => r is None,
            },
            final(self).wf(),
    {
        proof {
            lemma_with_block(old(self)@, block_idx);
        }
        let mut i: usize = 0;
        while i < self.rx_ring_alloc
            invariant
                *self == *old(self),
                self.wf(),
                i <= self.rx_ring_alloc,
                found_block(self@, block_idx, 0) == found_block(self@, block_idx, i as int),
            decreases self.rx_ring_alloc - i,
        {
            let idx: usize = (self.rx_ring_front + i) % RX_RING_SIZE;
            if self.rx_ring[idx].block_idx == block_idx {
                return Some(idx);
            }
            i = i + 1;
        }
        if self.last_known_block != u64::MAX && block_idx <= self.last_known_block {
            return None;
        }
        let count: u64 = if self.last_known_block == u64::MAX {
            1
        } else if block_idx - self.last_known_block < RX_RING_SIZE as u64 {
            block_idx - self.last_known_block
        } else {
            RX_RING_SIZE as u64
        };
        let ghost l = self@;
        proof {
            lemma_relabelled(l, block_idx);
        }
        self.last_known_block = block_idx;
        let ghost start = self@;
        proof {
            lemma_start_below(l, start, block_idx);
        }
        let mut opened: u64 = 1;
        while opened < count
            invariant
                1 <= opened <= count <= block_idx + 1,
                self.wf(),
                block_idx <= MAX_BLOCK_IDX,
                self.last_known_block == block_idx,
                self@.none_above(block_idx - count + opened - 1),
                self@ == blocks_opened(
                    start,
                    (block_idx - count + opened - 1) as u64,
                    opened - 1,
                ),
            decreases count - opened,
        {
            let next: u64 = block_idx + opened - count;
            self.open_block(next);
            opened = opened + 1;
        }
        let idx: usize = self.open_block(block_idx);
        Some(idx)
    }

    /// Rebuilds the missing data fragments of ring item `r`.
    fn apply_fec(&mut self, r: usize)
        requires
            old(self).parts_wf(),
            old(self)@.buffers_wf(),
            1 <= old(self)@.k <= old(self)@.n <= 255,
            r < RX_RING_SIZE,
            present(old(self)@.ring[r as int].map, 0, old(self)@.n) == old(self)@.k,
            forall|f: int|
                0 <= f < old(self)@.n ==> #[trigger] old(self)@.ring[r as int].map[f]
                    <= MAX_FEC_PAYLOAD,
            present(old(self)@.ring[r as int].map, 0, old(self)@.k) < old(self)@.k,
        ensures
            final(self)@ == repaired(old(self)@, r as int),
            final(self).parts_wf(),
    {
        let ghost l = self@;
        let ghost item = l.ring[r as int];
        let ghost map = item.map;
        let k: usize = self.fec_k as usize;
        let n: usize = self.fec_n as usize;
        let mut index: Vec<u32> = Vec::new();
        let mut out_blocks: Vec<Block> = Vec::new();
        let mut j: usize = k;
        let mut max_packet_size: usize = 0;
        let mut i: usize = 0;
        assert(item.fragments.len() == n && map.len() == n);
        while i < k
            invariant
                i <= k <= n <= 255,
                1 <= k,
                r < RX_RING_SIZE,
                self@ == l,
                l.buffers_wf(),
                l.k == k,
                l.n == n,
                item == l.ring[r as int],
                map == item.map,
                map.len() == n,
                item.fragments.len() == n,
                present(map, 0, n as int) == k,
                forall|f: int| 0 <= f < n ==> #[trigger] map[f] <= MAX_FEC_PAYLOAD,
                stand_ins(map, k as int, i as int) == (index@, j as int),
                j <= n,
                max_packet_size == repair_size(map, k as int, i as int),
                max_packet_size <= MAX_FEC_PAYLOAD,
                out_blocks@.len() == checks_before(index@, k as int, i as int),
                forall|f: int|
                    0 <= f < i && map[f] == 0 ==> #[trigger] output_holds(
                        out_blocks@,
                        index@,
                        k as int,
                        f,
                        item.fragments[f],
                    ),
                forall|o: int| 0 <= o < out_blocks@.len() ==> aligned(#[trigger] out_blocks@[o]),
                forall|o: int|
                    0 <= o < out_blocks@.len() ==> (#[trigger] out_blocks@[o]).data@.len()
                        == FRAGMENT_BUFFER,
            decreases k - i,
        {
            let ghost before_index = index@;
            let ghost before_out = out_blocks@;
            proof {
                lemma_stand_ins(map, k as int, i as int);
            }
            if self.rx_ring[r].fragment_map[i] != 0 {
                index.push(i as u32);
            } else {
                let ghost j0 = j as int;
                proof {
                    lemma_next_present(map, j0);
                }
                while j < n && self.rx_ring[r].fragment_map[j] == 0
                    invariant
                        j <= n,
                        r < RX_RING_SIZE,
                        self@ == l,
                        l.buffers_wf(),
                        l.n == n,
                        map == l.ring[r as int].map,
                        map.len() == n,
                        next_present(map, j as int) == next_present(map, j0),
                    decreases n - j,
                {
                    j = j + 1;
                }
                if self.rx_ring[r].fragment_map[j] > max_packet_size {
                    max_packet_size = self.rx_ring[r].fragment_map[j];
                }
                assert(item.fragments[i as int].len() == FRAGMENT_BUFFER);
                let data: Vec<u8> = copy_range(
                    &self.rx_ring[r].fragments[i].data,
                    0,
                    FRAGMENT_BUFFER,
                );
                assert(data@ =~= item.fragments[i as int]);
                out_blocks.push(Block { addr: 0, data });
                index.push(j as u32);
                j = j + 1;
            }
            proof {
                lemma_checks_prefix(before_index, index@, k as int, i as int);
                lemma_stand_ins(map, k as int, i + 1);
                assert forall|f: int| 0 <= f < i + 1 && map[f] == 0 implies #[trigger] output_holds(
                    out_blocks@,
                    index@,
                    k as int,
                    f,
                    item.fragments[f],
                ) by {
                    lemma_checks_prefix(before_index, index@, k as int, f);
                    if f < i {
                        assert(output_holds(
                            before_out,
                            before_index,
                            k as int,
                            f,
                            item.fragments[f],
                        ));
                    } else {
                        lemma_checks_before(index@, k as int, 0, f);
                    }
                }
            }
            i = i + 1;
        }
        proof {
            lemma_stand_ins(map, k as int, k as int);
            lemma_repair_size(map, k as int, k as int);
        }
        if max_packet_size == 0 || max_packet_size > MAX_FEC_PAYLOAD {
            return;
        }
        let ghost x = index@;
        proof {
            lemma_simd_alignment();
        }
        let size: usize = aligned_size(max_packet_size, ZFEX_SIMD_ALIGNMENT);
        let ghost before_out = out_blocks@;
        let mut p_ghost: Ghost<Seq<&Block>> = Ghost(Seq::empty());
        if let Some(fec) = &self.fec {
            let mut in_blocks: Vec<&Block> = Vec::new();
            let mut t: usize = 0;
            while t < k
                invariant
                    t <= k <= n <= 255,
                    r < RX_RING_SIZE,
                    self@ == l,
                    l.buffers_wf(),
                    self.parts_wf(),
                    l.n == n,
                    item == l.ring[r as int],
                    item.fragments.len() == n,
                    index@ == x,
                    x.len() == k,
                    forall|q: int| 0 <= q < k ==> #[trigger] x[q] < n,
                    in_blocks@.len() == t,
                    forall|q: int|
                        0 <= q < t ==> (#[trigger] in_blocks@[q]).data@ == item.fragments[x[q] as int]
                            && aligned(*in_blocks@[q]),
                decreases k - t,
            {
                let f: usize = index[t] as usize;
                assert(x[t as int] < n);
                in_blocks.push(&self.rx_ring[r].fragments[f]);
                t = t + 1;
            }
            let ghost p = in_blocks@;
            proof {
                p_ghost@ = p;
                lemma_shuffled_placed(p, x, 0, k as int);
                assert forall|q: int| 0 <= q < k implies (#[trigger] p[q]).data@.len() >= size by {
                    assert(item.fragments[x[q] as int].len() == FRAGMENT_BUFFER);
                }
                lemma_not_repeated(x, map, k as int);
            }
            let _rc = fec_decode_simd(fec, &mut in_blocks, &mut out_blocks, &mut index, size);
        }
        let ghost p = p_ghost@;
        let ghost after = out_blocks@;
        proof {
            lemma_not_repeated(x, map, k as int);
            assert forall|o: int| 0 <= o < before_out.len() implies crate::zfex::output_reached(
                before_out,
                o,
            ) by {}
            assert forall|row: int, b: int|
                0 <= row < k && map[row] == 0 && 0 <= b < FRAGMENT_BUFFER implies #[trigger] after[checks_before(
                x,
                k as int,
                row,
            )].data@[b] == repaired_fragments(item, k as int)[row][b] by {
                lemma_checks_before(x, k as int, row, k as int);
                let o = checks_before(x, k as int, row);
                assert(crate::zfex::output_reached(before_out, o));
                assert(output_holds(before_out, x, k as int, row, item.fragments[row]));
                if b < size {
                    let fec = self.fec->0;
                    assert(after[o].data@[b] == recovered(&fec, p, x, row, b));
                    lemma_recovered(&fec, p, x, row, b);
                    assert(column(p, k as nat, b) =~= Seq::new(
                        x.len(),
                        |q: int| item.fragments[x[q] as int][b],
                    ));
                }
            }
        }
        let mut ob: usize = 0;
        let mut f: usize = 0;
        while f < k
            invariant
                f <= k <= n <= 255,
                r < RX_RING_SIZE,
                self.parts_wf(),
                l.buffers_wf(),
                l.n == n,
                l.k == k,
                item == l.ring[r as int],
                map == item.map,
                map.len() == n,
                item.fragments.len() == n,
                x.len() == k,
                forall|q: int| 0 <= q < k ==> (map[q] == 0) == (#[trigger] x[q] >= k),
                ob == checks_before(x, k as int, f as int),
                ob <= f,
                after.len() == checks_before(x, k as int, k as int),
                out_blocks@ == after,
                forall|o: int| 0 <= o < after.len() ==> (#[trigger] after[o]).data@.len() == FRAGMENT_BUFFER
                    && aligned(after[o]),
                forall|row: int, b: int|
                    0 <= row < k && map[row] == 0 && 0 <= b < FRAGMENT_BUFFER
                        ==> #[trigger] after[checks_before(x, k as int, row)].data@[b]
                        == repaired_fragments(item, k as int)[row][b],
                same_blocks(
                    LinkView { ring: l.ring, ..self@ },
                    l,
                ),
                self@.seq == l.seq,
                self@.counters == l.counters,
                self@.events == l.events,
                self@.ring.len() == RX_RING_SIZE,
                forall|q: int| 0 <= q < RX_RING_SIZE && q != r ==> #[trigger] self@.ring[q] == l.ring[q],
                self@.ring[r as int].map == item.map,
                self@.ring[r as int].block_idx == item.block_idx,
                self@.ring[r as int].to_send == item.to_send,
                self@.ring[r as int].has == item.has,
                self@.ring[r as int].fragments.len() == n,
                forall|q: int|
                    0 <= q < n ==> #[trigger] self@.ring[r as int].fragments[q] == (if q < f {
                        repaired_fragments(item, k as int)[q]
                    } else {
                        item.fragments[q]
                    }),
            decreases k - f,
        {
            let ghost ring0 = self@.ring;
            if self.rx_ring[r].fragment_map[f] == 0 {
                assert(x[f as int] >= k);
                proof {
                    lemma_checks_before(x, k as int, f as int, k as int);
                }
                let data: Vec<u8> = copy_range(&out_blocks[ob].data, 0, FRAGMENT_BUFFER);
                assert(data@ =~= repaired_fragments(item, k as int)[f as int]) by {
                    assert(item.fragments[f as int].len() == FRAGMENT_BUFFER);
                    assert forall|b: int| 0 <= b < FRAGMENT_BUFFER implies data@[b]
                        == repaired_fragments(item, k as int)[f as int][b] by {
                        assert(after[checks_before(x, k as int, f as int)].data@[b]
                            == repaired_fragments(item, k as int)[f as int][b]);
                    }
                }
                self.rx_ring[r].fragments[f] = Block { addr: 0, data };
                ob = ob + 1;
            } else {
                assert(!(x[f as int] >= k));
            }
            f = f + 1;
            proof {
                assert forall|q: int| 0 <= q < RX_RING_SIZE && q != r implies #[trigger] self@.ring[q]
                    == l.ring[q] by {
                    assert(ring0[q] == l.ring[q]);
                }
                assert forall|q: int| 0 <= q < n implies #[trigger] self@.ring[r as int].fragments[q]
                    == (if q < f {
                    repaired_fragments(item, k as int)[q]
                } else {
                    item.fragments[q]
                }) by {
                    assert(ring0[r as int].fragments[q] == (if q < f - 1 {
                        repaired_fragments(item, k as int)[q]
                    } else {
                        item.fragments[q]
                    }));
                }
            }
        }
        proof {
            let want = repaired(l, r as int);
            assert(self@.ring[r as int].fragments =~= want.ring[r as int].fragments);
            assert(self@.ring =~= want.ring);
        }
    }

    /// Stores a fragment that has come.
    fn store_fragment(&mut self, r: usize, f: usize, data: &[u8])
        requires
            old(self).wf(),
            r < RX_RING_SIZE,
            old(self)@.active(r as int),
            f < old(self)@.n,
            old(self)@.ring[r as int].map[f as int] == 0,
            WPACKET_HDR_SIZE <= data@.len() <= MAX_FEC_PAYLOAD,
        ensures
            final(self)@ == stored(old(self)@, r as int, f as int, data@),
            final(self).parts_wf(),
    {
        let ghost l = self@;
        assert(l.block_wf(r as int));
        assert(l.ring[r as int].fragments[f as int].len() == FRAGMENT_BUFFER);
        let ghost buffer = l.ring[r as int].fragments[f as int];
        let mut bytes: Vec<u8> = copy_range(data, 0, data.len());
        let mut i: usize = data.len();
        while i < MAX_FEC_PAYLOAD
            invariant
                data@.len() <= i <= MAX_FEC_PAYLOAD,
                bytes@ == data@ + zeros((i - data@.len()) as nat),
            decreases MAX_FEC_PAYLOAD - i,
        {
            bytes.push(0);
            i = i + 1;
            assert(bytes@ =~= data@ + zeros((i - data@.len()) as nat));
        }
        while i < FRAGMENT_BUFFER
            invariant
                MAX_FEC_PAYLOAD <= i <= FRAGMENT_BUFFER,
                data@.len() <= MAX_FEC_PAYLOAD,
                r < RX_RING_SIZE,
                f < l.n,
                self@ == l,
                l.buffers_wf(),
                buffer == l.ring[r as int].fragments[f as int],
                buffer.len() == FRAGMENT_BUFFER,
                bytes@ == data@ + zeros((MAX_FEC_PAYLOAD - data@.len()) as nat) + buffer.subrange(
                    MAX_FEC_PAYLOAD as int,
                    i as int,
                ),
            decreases FRAGMENT_BUFFER - i,
        {
            assert(l.ring[r as int].fragments.len() == l.n);
            bytes.push(self.rx_ring[r].fragments[f].data[i]);
            i = i + 1;
            assert(bytes@ =~= data@ + zeros((MAX_FEC_PAYLOAD - data@.len()) as nat)
                + buffer.subrange(MAX_FEC_PAYLOAD as int, i as int));
        }
        assert(bytes@ =~= filled(buffer, data@));
        self.rx_ring[r].fragments[f] = Block { addr: 0, data: bytes };
        self.rx_ring[r].fragment_map[f] = data.len();
        self.rx_ring[r].has_fragments = self.rx_ring[r].has_fragments + 1;
        proof {
            let want = stored(l, r as int, f as int, data@);
            assert(self@.ring[r as int].fragments =~= want.ring[r as int].fragments);
            assert(self@.ring =~= want.ring);
        }
    }

    /// Sends the next data fragment of ring item `r`.
    fn send_next(&mut self, r: usize)
        requires
            old(self).parts_wf(),
            old(self)@.wf_but(r as int),
            old(self)@.ring[r as int].to_send < old(self)@.k,
        ensures
            final(self)@ == sent_next(old(self)@, r as int),
            final(self).parts_wf(),
    {
        let ghost l = self@;
        let f: usize = self.rx_ring[r].fragment_to_send_idx as usize;
        self.send_packet(r, f);
        self.rx_ring[r].fragment_to_send_idx = self.rx_ring[r].fragment_to_send_idx + 1;
        assert(self@.ring =~= sent_next(l, r as int).ring);
    }

    /// Sends ring item `r`, of which enough has come, with what is before it.
    fn complete_block(&mut self, r: usize)
        requires
            old(self).parts_wf(),
            old(self)@.wf_but(r as int),
            old(self)@.ring[r as int].to_send < old(self)@.k,
            old(self)@.ring[r as int].has == old(self)@.k,
        ensures
            final(self)@ == completed(old(self)@, r as int),
            final(self).wf(),
            final(self)@.k == old(self)@.k,
            final(self)@.n == old(self)@.n,
    {
        let ghost l = self@;
        proof {
            lemma_slot(l, r as int);
            lemma_fronts_flushed(l, r as int);
        }
        while self.rx_ring_front != r
            invariant
                r < RX_RING_SIZE,
                self.parts_wf(),
                self@.wf_but(r as int),
                self@.ring == l.ring,
                self@.k == l.k,
                self@.n == l.n,
                fronts_flushed(self@, self@.behind(r as int)) == fronts_flushed(
                    l,
                    l.behind(r as int),
                ),
            decreases self@.behind(r as int),
        {
            proof {
                lemma_slot(self@, r as int);
                lemma_front_flushed(self@, r as int);
                lemma_sent_present_blocks(
                    self@,
                    self@.front,
                    self@.ring[self@.front].to_send,
                );
            }
            let front: usize = self.rx_ring_front;
            let from: usize = self.rx_ring[front].fragment_to_send_idx as usize;
            self.send_present(front, from);
            self.rx_ring_front = (self.rx_ring_front + 1) % RX_RING_SIZE;
            self.rx_ring_alloc = self.rx_ring_alloc - 1;
        }
        let ghost l1 = self@;
        assert(l1 == fronts_flushed(l, l.behind(r as int))) by {
            lemma_slot(l1, r as int);
        }
        let ghost item = l.ring[r as int];
        let mut missing: u32 = 0;
        let first: usize = self.rx_ring[r].fragment_to_send_idx as usize;
        let mut f: usize = first;
        while f < self.fec_k as usize
            invariant
                self@ == l1,
                self.parts_wf(),
                l1.wf_but(r as int),
                r < RX_RING_SIZE,
                item == l1.ring[r as int],
                0 <= item.to_send <= f <= l1.k,
                missing == f - item.to_send - present(item.map, item.to_send, f as int),
                missing <= f,
            decreases l1.k - f,
        {
            proof {
                lemma_present_split(item.map, item.to_send, item.to_send, f as int);
            }
            if self.rx_ring[r].fragment_map[f] == 0 {
                missing = missing + 1;
            }
            f = f + 1;
        }
        if missing > 0 {
            proof {
                lemma_present_split(item.map, 0, item.to_send, l.k);
                lemma_present_split(item.map, 0, 0, item.to_send);
            }
            self.apply_fec(r);
            proof {
                lemma_repaired_wf(l1, r as int);
            }
        }
        let ghost l2 = self@;
        self.counters.count_p_fec_recovered = self.counters.count_p_fec_recovered.wrapping_add(
            missing,
        );
        let ghost l3 = self@;
        proof {
            assert(l3.wf_but(r as int)) by {
                lemma_counted_wf(l2, l3, r as int);
            }
            lemma_sent_rest(l3, r as int);
        }
        while (self.rx_ring[r].fragment_to_send_idx as usize) < self.fec_k as usize
            invariant
                r < RX_RING_SIZE,
                self.parts_wf(),
                self@.wf_but(r as int),
                self@.front == r,
                self@.k == l.k,
                self@.n == l.n,
                sent_rest(self@, r as int) == sent_rest(l3, r as int),
            decreases self@.k - self@.ring[r as int].to_send,
        {
            proof {
                lemma_sent_next(self@, r as int);
            }
            self.send_next(r);
        }
        proof {
            lemma_front_dropped(self@);
            lemma_slot(self@, r as int);
        }
        self.rx_ring_front = (self.rx_ring_front + 1) % RX_RING_SIZE;
        self.rx_ring_alloc = self.rx_ring_alloc - 1;
    }

    /// Sends what ring item `r`, at the front, has to send without a gap.
    fn drain_front(&mut self, r: usize)
        requires
            old(self).parts_wf(),
            old(self)@.wf_but(r as int),
        ensures
            final(self)@ == drained(old(self)@, r as int),
            final(self).parts_wf(),
    {
        let ghost s = self@;
        while (self.rx_ring[r].fragment_to_send_idx as usize) < self.fec_k as usize
            && self.rx_ring[r].fragment_map[self.rx_ring[r].fragment_to_send_idx as usize] != 0
            invariant
                r < RX_RING_SIZE,
                self.parts_wf(),
                self@.wf_but(r as int),
                self@.ring[r as int].map.len() == self@.n,
                drained(self@, r as int) == drained(s, r as int),
            decreases self@.k - self@.ring[r as int].to_send,
        {
            proof {
                lemma_sent_next(self@, r as int);
            }
            self.send_next(r);
        }
    }

    /// Takes a fragment into ring item `r`.
    fn take_fragment(&mut self, r: usize, f: usize, data: &[u8])
        requires
            old(self).wf(),
            r < RX_RING_SIZE,
            old(self)@.active(r as int),
            f < old(self)@.n,
            WPACKET_HDR_SIZE <= data@.len() <= MAX_FEC_PAYLOAD,
        ensures
            final(self)@ == fragment_taken(old(self)@, r as int, f as int, data@),
            final(self).wf(),
            final(self)@.k == old(self)@.k,
            final(self)@.n == old(self)@.n,
    {
        let ghost l = self@;
        assert(l.ring[r as int].map.len() == l.n);
        if self.rx_ring[r].fragment_map[f] != 0 {
            return;
        }
        proof {
            lemma_stored(l, r as int, f as int, data@);
        }
        self.store_fragment(r, f, data);
        let ghost s = self@;
        if r == self.rx_ring_front {
            proof {
                lemma_drained(s, r as int);
            }
            self.drain_front(r);
            if self.rx_ring[r].fragment_to_send_idx as i32 == self.fec_k {
                proof {
                    lemma_front_dropped(self@);
                    lemma_slot(self@, r as int);
                }
                self.rx_ring_front = (self.rx_ring_front + 1) % RX_RING_SIZE;
                self.rx_ring_alloc = self.rx_ring_alloc - 1;
                return;
            }
        }
        let ghost d = self@;
        if (self.rx_ring[r].fragment_to_send_idx as i32) < self.fec_k
            && self.rx_ring[r].has_fragments as i32 == self.fec_k {
            self.complete_block(r);
        } else {
            proof {
                assert(d.block_wf(r as int));
                assert forall|q: int| 0 <= q < RX_RING_SIZE && d.active(q) implies #[trigger] d.block_wf(
                    q,
                ) by {}
            }
        }
    }

    /// Takes in a fragment of a block.
    pub fn receive_fragment(&mut self, block_idx: u64, f: usize, data: &[u8])
        requires
            old(self).wf(),
            block_idx <= MAX_BLOCK_IDX,
            f < old(self)@.n,
            WPACKET_HDR_SIZE <= data@.len() <= MAX_FEC_PAYLOAD,
        ensures
            final(self)@ == fragment_received(old(self)@, block_idx, f as int, data@),
            final(self).wf(),
            final(self)@.k == old(self)@.k,
            final(self)@.n == old(self)@.n,
    {
        proof {
            lemma_with_block(old(self)@, block_idx);
        }
        if let Some(r) = self.get_block_ring_idx(block_idx) {
            self.take_fragment(r, f, data);
        }
    }

    /// Whether the blocks are in order does not depend on the counters.
    pub proof fn lemma_counters_do_not_matter(&self, before: RxLink)
        requires
            *self == (RxLink { counters: self.counters, ..before }),
        ensures
            self@ == (LinkView { counters: self.counters, ..before@ }),
            self.wf() == before.wf(),
            self.closed() == before.closed(),
    {
        let (a, b) = (self@, before@);
        if a.wf() {
            lemma_same_blocks_wf(b, a);
        }
        if b.wf() {
            lemma_same_blocks_wf(a, b);
        }
    }

    /// Whether the blocks are in order does not depend on the events.
    pub proof fn lemma_events_do_not_matter(&self, before: LinkView)
        requires
            self@ == (LinkView { events: self@.events, ..before }),
        ensures
            self@.wf() == before.wf(),
    {
        if self@.wf() {
            lemma_same_blocks_wf(before, self@);
        }
        if before.wf() {
            lemma_same_blocks_wf(self@, before);
        }
    }
}

} // verus!
