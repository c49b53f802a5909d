//! What holds between a transmitter and a receiver that share keys.
use crate::block::{block_fragment, data_valid, payload_of, payloads_between, stated_size};
use crate::block::lemma_largest;
use crate::bytes::{be_bytes, be_value};
use crate::bytes::{lemma_be_len, lemma_be_round_trip, lemma_byte_range};
use crate::counter_laws::lemma_fragment_counts;
use crate::counter_laws::quiet;
use crate::crypto::{
    aead_opened, box_opened, box_public_key, keyed_hash, AEAD_KEY_BYTES, AEAD_TAG_BYTES,
    BOX_KEY_BYTES, BOX_MAC_BYTES,
};
use crate::rx::{
    announcement_processed, counted, packet_processed, session_acceptable, session_fault,
    session_packet, AggregatorView,
};
use crate::rx_laws::lemma_reported_payloads;
use crate::rx_laws::{only_reported, payloads, restamped};
use crate::rx_ring::lemma_same_blocks_wf;
use crate::rx_ring::{fragment_received, session_started, LinkView, RxCounters, RxEventView, RxFault};
use crate::rx_stats::Reception;
use crate::stream_laws::{
    before, delivered, follows, gathering, handed_on, held, is_next, next_place, stream_valid,
};
use crate::stream_laws::{
    lemma_block_alone, lemma_block_step, lemma_counted_follows, lemma_fragment_received_follows,
    lemma_handed_on_join, lemma_held_insert, lemma_new_session_follows, lemma_none_held,
    lemma_nothing_handed_on, lemma_recounted_delivered, lemma_recounted_gathering,
};
use crate::tx::lemma_tags_size;
use crate::tx::{
    announces, data_fragment, fragment_header, opens_to, sealed_fragment, session_plaintext,
    tags_fit, TxView,
};
use crate::tx_laws::fragment_packets;
use crate::wifibroadcast::{
    MAX_BLOCK_IDX, MAX_FEC_PAYLOAD, MAX_FORWARDER_PACKET_SIZE, MAX_PAYLOAD_SIZE, WBLOCK_HDR_SIZE,
    WFB_FEC_VDM_RS, WFB_PACKET_DATA, WFB_PACKET_FEC_ONLY, WFB_PACKET_SESSION, WPACKET_HDR_SIZE,
    WSESSION_DATA_SIZE, WSESSION_HDR_SIZE,
};
use vstd::prelude::*;

verus! {

/// What the transmitter puts into a data fragment is what the receiver hands on.
pub proof fn lemma_payload_round_trip(flags: u8, payload: Seq<u8>)
    requires
        payload.len() <= MAX_PAYLOAD_SIZE,
        flags & WFB_PACKET_FEC_ONLY == 0,
    ensures
        payload_of(data_fragment(flags, payload)) == seq![payload],
{
    let d = data_fragment(flags, payload);
    assert(stated_size(d) == payload.len());
    assert(d.subrange(3, 3 + stated_size(d)) =~= payload);
    assert(payload_of(d) =~= seq![payload]);
}

/// The payloads that are handed on of a block are those that were put into it.
pub proof fn lemma_block_payloads(
    data: Seq<Seq<u8>>,
    sent: Seq<Seq<u8>>,
    flags: Seq<u8>,
    i: int,
)
    requires
        0 <= i <= data.len(),
        data.len() == sent.len(),
        forall|j: int|
            0 <= j < data.len() ==> #[trigger] data[j] == data_fragment(flags[j], sent[j])
                && sent[j].len() <= MAX_PAYLOAD_SIZE && flags[j] & WFB_PACKET_FEC_ONLY == 0,
    ensures
        payloads_between(data, 0, i) == sent.take(i),
    decreases i,
{
    if i > 0 {
        lemma_block_payloads(data, sent, flags, i - 1);
        assert(data[i - 1] == data_fragment(flags[i - 1], sent[i - 1]));
        lemma_payload_round_trip(flags[i - 1], sent[i - 1]);
        assert(sent.take(i - 1) + seq![sent[i - 1]] =~= sent.take(i));
    } else {
        assert(sent.take(0) =~= Seq::empty());
    }
}

/// The link of the receiver when it looks into a fragment.
pub open spec fn link_counted(a: AggregatorView, packet: Seq<u8>) -> LinkView {
    let c = a.link.counters;
    LinkView {
        counters: RxCounters {
            count_p_all: c.count_p_all.wrapping_add(1),
            count_b_all: c.count_b_all.wrapping_add(packet.len() as u32),
            count_p_data: c.count_p_data.wrapping_add(1),
            ..c
        },
        ..a.link
    }
}

/// A fragment that the transmitter has sealed reaches the receiver's blocks as it was.
pub proof fn lemma_fragment_reaches_blocks(
    a: AggregatorView,
    v: TxView,
    f: int,
    d: Seq<u8>,
    q: Reception,
)
    requires
        a.session_key == v.session_key,
        a.link.n == v.n,
        0 <= f < v.n <= 255,
        v.block_idx <= MAX_BLOCK_IDX,
        WPACKET_HDR_SIZE <= d.len() <= MAX_FEC_PAYLOAD,
        opens_to(v.session_key, sealed_fragment(v, f, d), d),
    ensures
        ({
            let packet = sealed_fragment(v, f, d);
            let next = packet_processed(a, packet, q);
            &&& next.link == fragment_received(link_counted(a, packet), v.block_idx, f, d)
            &&& next.session_key == a.session_key
            &&& next.session_hash == a.session_hash
            &&& next.epoch == a.epoch
            &&& next.channel_id == a.channel_id
            &&& next.rx_secretkey == a.rx_secretkey
            &&& next.tx_publickey == a.tx_publickey
            &&& next.uniq == a.uniq.insert((v.block_idx * 256 + f) as u64)
        }),
{
    let packet = sealed_fragment(v, f, d);
    let h = fragment_header(v.block_idx, f);
    lemma_byte_range();
    lemma_be_len(h.data_nonce as nat, 8);
    lemma_be_round_trip(h.data_nonce as nat, 8);
    assert(packet[0] == h.packet_type);
    assert(packet.subrange(1, 9) =~= be_bytes(h.data_nonce as nat, 8));
    assert(h.data_nonce / 256 == v.block_idx && h.data_nonce % 256 == f);
}

/// An announcement opens the session at a receiver of the channel that has the matching keys and has
/// not yet heard of it: from then on the receiver uses the transmitter's key and code.
pub proof fn lemma_session_reaches_receiver(a: AggregatorView, v: TxView, packet: Seq<u8>, q: Reception)
    requires
        announces(packet, v),
        tags_fit(v.tags),
        v.session_key.len() == AEAD_KEY_BYTES,
        1 <= v.k <= v.n <= 255,
        a.rx_secretkey.len() == BOX_KEY_BYTES,
        v.rx_publickey == box_public_key(a.rx_secretkey),
        a.tx_publickey == box_public_key(v.tx_secretkey),
        a.channel_id == v.channel_id,
        a.epoch <= v.epoch,
        keyed_hash(packet.skip(25), packet.subrange(1, 25)) != a.session_hash,
        a.session_key != v.session_key,
    ensures
        ({
            let next = packet_processed(a, packet, q);
            &&& next.session_key == v.session_key
            &&& next.epoch == v.epoch
            &&& next.channel_id == v.channel_id
            &&& next.session_hash == keyed_hash(packet.skip(25), packet.subrange(1, 25))
            &&& next.link.k == v.k
            &&& next.link.n == v.n
            &&& next.link.alloc == 0
            &&& next.link.last_known_block == u64::MAX
            &&& next.link.seq == 0
            &&& next.link.wf()
            &&& next.link.events == a.link.events.push(
                RxEventView::Session {
                    epoch: v.epoch,
                    fec_type: WFB_FEC_VDM_RS,
                    k: v.k as u8,
                    n: v.n as u8,
                },
            )
        }),
{
    let m = session_plaintext(v);
    lemma_tags_size(v.tags, v.byte_order, v.tags.len() as int);
    lemma_byte_range();
    lemma_be_len(v.epoch as nat, 8);
    lemma_be_len(v.channel_id as nat, 4);
    lemma_be_round_trip(v.epoch as nat, 8);
    lemma_be_round_trip(v.channel_id as nat, 4);
    assert(m.subrange(0, 8) =~= be_bytes(v.epoch as nat, 8));
    assert(m.subrange(8, 12) =~= be_bytes(v.channel_id as nat, 4));
    assert(m[12] == WFB_FEC_VDM_RS);
    assert(m[13] == v.k as u8 && m[14] == v.n as u8);
    assert(m.subrange(15, 47) =~= v.session_key);
    assert(box_opened(
        packet.skip(25),
        packet.subrange(1, 25),
        box_public_key(v.tx_secretkey),
        a.rx_secretkey,
    ) == Some(m));
    let next = packet_processed(a, packet, q);
    let c = a.link.counters;
    let a1 = counted(
        a,
        RxCounters {
            count_p_all: c.count_p_all.wrapping_add(1),
            count_b_all: c.count_b_all.wrapping_add(packet.len() as u32),
            ..c
        },
    );
    let started = session_started(session_packet(a1).link, v.k, v.n);
    crate::rx_ring::lemma_session_started(session_packet(a1).link, v.k, v.n);
    lemma_same_blocks_wf(next.link, started);
}

/// An announcement that has just been heard is only counted, however often it is repeated.
pub proof fn lemma_session_repeated(a: AggregatorView, packet: Seq<u8>, q: Reception)
    requires
        packet[0] == WFB_PACKET_SESSION,
        WSESSION_HDR_SIZE + WSESSION_DATA_SIZE + BOX_MAC_BYTES <= packet.len()
            <= MAX_FORWARDER_PACKET_SIZE,
        keyed_hash(packet.skip(25), packet.subrange(1, 25)) == a.session_hash,
    ensures
        packet_processed(a, packet, q) == counted(a, packet_processed(a, packet, q).link.counters),
{
}

/// A packet of no known kind or of a length that its kind does not have.
pub open spec fn malformed(packet: Seq<u8>) -> bool {
    packet.len() > 0 && {
        ||| packet.len() > MAX_FORWARDER_PACKET_SIZE
        ||| packet[0] != WFB_PACKET_DATA && packet[0] != WFB_PACKET_SESSION
        ||| packet[0] == WFB_PACKET_DATA && packet.len() < WBLOCK_HDR_SIZE + AEAD_TAG_BYTES
            + WPACKET_HDR_SIZE
        ||| packet[0] == WFB_PACKET_SESSION && packet.len() < WSESSION_HDR_SIZE + WSESSION_DATA_SIZE
            + BOX_MAC_BYTES
    }
}

/// A packet that is empty or malformed, or that a receiver with this key cannot open.
pub open spec fn noise(key: Seq<u8>, packet: Seq<u8>) -> bool {
    ||| packet.len() == 0
    ||| malformed(packet)
    ||| packet[0] == WFB_PACKET_DATA && aead_opened(
        key,
        packet.subrange(1, 9),
        packet.take(9),
        packet.skip(9),
    ) is None
}

/// Only the counters differ, and what is wrong may have been reported.
pub open spec fn only_refused(a: AggregatorView, b: AggregatorView) -> bool {
    &&& b == (AggregatorView { link: b.link, ..a })
    &&& only_reported(a.link, b.link)
}

proof fn lemma_fault_pushed(l: LinkView, m: LinkView, fault: RxFault)
    requires
        m == (LinkView {
            counters: m.counters,
            events: l.events.push(RxEventView::Fault(fault)),
            ..l
        }),
    ensures
        only_reported(l, m),
{
    assert(m.events.drop_last() =~= l.events);
}

/// Noise changes nothing but the counters; what is wrong with it is reported.
pub proof fn lemma_noise_counted(a: AggregatorView, packet: Seq<u8>, q: Reception)
    requires
        noise(a.session_key, packet),
    ensures
        only_refused(a, packet_processed(a, packet, q)),
        packet.len() > 0 ==> packet_processed(a, packet, q).link.events.len() == a.link.events.len()
            + 1,
{
    let next = packet_processed(a, packet, q);
    if packet.len() > 0 {
        let fault = next.link.events.last()->Fault_0;
        lemma_fault_pushed(a.link, next.link, fault);
    }
}

/// Session data that is too old, of another channel or with a code that cannot be used begins no
/// session.
pub proof fn lemma_session_refused(a: AggregatorView, packet: Seq<u8>, q: Reception, m: Seq<u8>)
    requires
        packet[0] == WFB_PACKET_SESSION,
        WSESSION_HDR_SIZE + WSESSION_DATA_SIZE + BOX_MAC_BYTES <= packet.len()
            <= MAX_FORWARDER_PACKET_SIZE,
        keyed_hash(packet.skip(25), packet.subrange(1, 25)) != a.session_hash,
        box_opened(packet.skip(25), packet.subrange(1, 25), a.tx_publickey, a.rx_secretkey) == Some(
            m,
        ),
        !session_acceptable(a, m),
    ensures
        only_refused(a, packet_processed(a, packet, q)),
        packet_processed(a, packet, q).link.events == a.link.events.push(
            RxEventView::Fault(session_fault(a, m)),
        ),
{
    lemma_fault_pushed(a.link, packet_processed(a, packet, q).link, session_fault(a, m));
}

/// A packet that brings the receiver neither a fragment nor a new session: noise, or an announcement
/// that is repeated, refused or of the session that is open.
pub open spec fn aside(a: AggregatorView, packet: Seq<u8>) -> bool {
    ||| noise(a.session_key, packet)
    ||| packet.len() > 0 && packet[0] == WFB_PACKET_SESSION && announcement_processed(
        a,
        packet,
    ).session_key == a.session_key
}

/// Announcements that have just been heard, do not open or are refused are such packets.
pub proof fn lemma_announcement_aside(a: AggregatorView, packet: Seq<u8>)
    requires
        packet.len() > 0,
        packet[0] == WFB_PACKET_SESSION,
        keyed_hash(packet.skip(25), packet.subrange(1, 25)) == a.session_hash || match box_opened(
            packet.skip(25),
            packet.subrange(1, 25),
            a.tx_publickey,
            a.rx_secretkey,
        ) {
            None => true,
            Some(m) => !session_acceptable(a, m) || m.subrange(15, 47) == a.session_key,
        },
    ensures
        aside(a, packet),
{
}

/// Such a packet changes nothing but counters and the announcement that is kept, may be reported, and is
/// counted as bad only if it is malformed.
pub proof fn lemma_aside_counted(a: AggregatorView, packet: Seq<u8>, q: Reception)
    requires
        aside(a, packet),
    ensures
        ({
            let next = packet_processed(a, packet, q);
            let (c, d) = (a.link.counters, next.link.counters);
            &&& next == (AggregatorView { session_hash: next.session_hash, link: next.link, ..a })
            &&& only_reported(a.link, next.link)
            &&& d.count_p_fec_recovered == c.count_p_fec_recovered
            &&& d.count_p_lost == c.count_p_lost
            &&& d.count_p_bad == (if malformed(packet) {
                c.count_p_bad.wrapping_add(1)
            } else {
                c.count_p_bad
            })
        }),
{
    let next = packet_processed(a, packet, q);
    if next.link.events.len() > a.link.events.len() {
        lemma_fault_pushed(a.link, next.link, next.link.events.last()->Fault_0);
    }
}

/// The transmitter when it sends block `b`.
pub open spec fn at_block(v: TxView, b: u64) -> TxView {
    TxView { block_idx: b, ..v }
}

/// The packet that carries fragment `f` of block `b` of a stream.
pub open spec fn stream_packet(
    v: TxView,
    blocks: spec_fn(u64) -> Seq<Seq<u8>>,
    b: u64,
    f: int,
) -> Seq<u8> {
    sealed_fragment(at_block(v, b), f, block_fragment(blocks(b), f))
}

/// The packet opens with the session's key.
pub open spec fn packet_opens(
    v: TxView,
    blocks: spec_fn(u64) -> Seq<Seq<u8>>,
    b: u64,
    f: int,
) -> bool {
    opens_to(v.session_key, stream_packet(v, blocks, b, f), block_fragment(blocks(b), f))
}

/// A packet of the stream.
pub open spec fn in_stream(v: TxView, blocks: spec_fn(u64) -> Seq<Seq<u8>>, packet: Seq<u8>) -> bool {
    exists|b: u64, f: int|
        b <= MAX_BLOCK_IDX && 0 <= f < v.n && #[trigger] packet_opens(v, blocks, b, f) && packet
            == stream_packet(v, blocks, b, f)
}

/// The packets that the transmitter sends for a block are packets of its stream.
pub proof fn lemma_sent_packets_in_stream(
    v: TxView,
    blocks: spec_fn(u64) -> Seq<Seq<u8>>,
    f: int,
)
    requires
        v.block_idx <= MAX_BLOCK_IDX,
        0 <= f < v.n,
        opens_to(
            v.session_key,
            sealed_fragment(v, f, block_fragment(blocks(v.block_idx), f)),
            block_fragment(blocks(v.block_idx), f),
        ),
    ensures
        fragment_packets(v, blocks(v.block_idx), 0, v.n)[f] == stream_packet(
            v,
            blocks,
            v.block_idx,
            f,
        ),
        in_stream(v, blocks, fragment_packets(v, blocks(v.block_idx), 0, v.n)[f]),
{
    assert(at_block(v, v.block_idx) == v);
    assert(packet_opens(v, blocks, v.block_idx, f));
}

/// The receiver is in the transmitter's session and follows its stream.
pub open spec fn in_session(
    a: AggregatorView,
    v: TxView,
    blocks: spec_fn(u64) -> Seq<Seq<u8>>,
) -> bool {
    &&& a.session_key == v.session_key
    &&& a.link.k == v.k
    &&& a.link.n == v.n
    &&& follows(a.link, blocks)
}

/// A receiver that has just heard the announcement is in the session, whatever the stream will be.
pub proof fn lemma_in_session(
    a: AggregatorView,
    v: TxView,
    packet: Seq<u8>,
    q: Reception,
    blocks: spec_fn(u64) -> Seq<Seq<u8>>,
)
    requires
        announces(packet, v),
        tags_fit(v.tags),
        v.session_key.len() == AEAD_KEY_BYTES,
        1 <= v.k <= v.n <= 255,
        a.rx_secretkey.len() == BOX_KEY_BYTES,
        v.rx_publickey == box_public_key(a.rx_secretkey),
        a.tx_publickey == box_public_key(v.tx_secretkey),
        a.channel_id == v.channel_id,
        a.epoch <= v.epoch,
        keyed_hash(packet.skip(25), packet.subrange(1, 25)) != a.session_hash,
        a.session_key != v.session_key,
        stream_valid(blocks, v.k),
    ensures
        in_session(packet_processed(a, packet, q), v, blocks),
        next_place(packet_processed(a, packet, q).link) == (0int, 0int),
        is_next(packet_processed(a, packet, q).link, 0),
{
    lemma_session_reaches_receiver(a, v, packet, q);
    lemma_new_session_follows(packet_processed(a, packet, q).link, blocks);
}

/// The receiver after the first `i` of these packets.
pub open spec fn packets_received(
    a: AggregatorView,
    packets: Seq<Seq<u8>>,
    receptions: Seq<Reception>,
    i: int,
) -> AggregatorView
    decreases i,
{
    if i <= 0 {
        a
    } else {
        packet_processed(
            packets_received(a, packets, receptions, i - 1),
            packets[i - 1],
            receptions[i - 1],
        )
    }
}

/// The number of bytes of the first `i` packets.
pub open spec fn bytes_of(packets: Seq<Seq<u8>>, i: int) -> int
    decreases i,
{
    if i <= 0 {
        0
    } else {
        bytes_of(packets, i - 1) + packets[i - 1].len()
    }
}

proof fn lemma_bytes_of(packets: Seq<Seq<u8>>, i: int)
    ensures
        bytes_of(packets, i) >= 0,
    decreases i,
{
    if i > 0 {
        lemma_bytes_of(packets, i - 1);
    }
}

/// Every packet and all its bytes are counted once, whatever becomes of it; an empty one counts as a
/// packet and nothing else.
pub proof fn lemma_packet_counted(a: AggregatorView, packet: Seq<u8>, q: Reception)
    ensures
        ({
            let next = packet_processed(a, packet, q);
            let (c, d) = (a.link.counters, next.link.counters);
            &&& d.count_p_all == c.count_p_all.wrapping_add(1)
            &&& d.count_b_all == c.count_b_all.wrapping_add(packet.len() as u32)
            &&& packet.len() == 0 ==> next == counted(
                a,
                RxCounters { count_p_all: c.count_p_all.wrapping_add(1), ..c },
            )
        }),
{
    let c = a.link.counters;
    let nonce = be_value(packet.subrange(1, 9)) as u64;
    let opened = aead_opened(
        a.session_key,
        packet.subrange(1, 9),
        packet.take(9),
        packet.skip(9),
    );
    if opened is Some {
        let l = LinkView {
            counters: RxCounters {
                count_p_all: c.count_p_all.wrapping_add(1),
                count_b_all: c.count_b_all.wrapping_add(packet.len() as u32),
                count_p_data: c.count_p_data.wrapping_add(1),
                ..c
            },
            ..a.link
        };
        lemma_fragment_counts(l, nonce / 256, (nonce % 256) as int, opened->0);
    }
}

/// Since the last report the counters of packets and bytes are the number of packets and the sum of
/// their lengths, as long as these are in range.
pub proof fn lemma_all_packets_counted(
    a: AggregatorView,
    packets: Seq<Seq<u8>>,
    receptions: Seq<Reception>,
    i: int,
)
    requires
        0 <= i <= packets.len(),
        a.link.counters.count_p_all + i <= u32::MAX,
        a.link.counters.count_b_all + bytes_of(packets, i) <= u32::MAX,
    ensures
        ({
            let c = packets_received(a, packets, receptions, i).link.counters;
            &&& c.count_p_all == a.link.counters.count_p_all + i
            &&& c.count_b_all == a.link.counters.count_b_all + bytes_of(packets, i)
        }),
    decreases i,
{
    if i > 0 {
        lemma_bytes_of(packets, i - 1);
        lemma_all_packets_counted(a, packets, receptions, i - 1);
        lemma_packet_counted(
            packets_received(a, packets, receptions, i - 1),
            packets[i - 1],
            receptions[i - 1],
        );
    }
}

/// A packet of the stream reaches the receiver's blocks.
proof fn lemma_stream_packet_received(
    a: AggregatorView,
    v: TxView,
    blocks: spec_fn(u64) -> Seq<Seq<u8>>,
    b: u64,
    f: int,
    q: Reception,
)
    requires
        in_session(a, v, blocks),
        1 <= v.k <= v.n <= 255,
        b <= MAX_BLOCK_IDX,
        0 <= f < v.n,
        packet_opens(v, blocks, b, f),
    ensures
        ({
            let packet = stream_packet(v, blocks, b, f);
            let next = packet_processed(a, packet, q);
            &&& next.session_key == a.session_key
            &&& next.link == fragment_received(
                link_counted(a, packet),
                b,
                f,
                block_fragment(blocks(b), f),
            )
        }),
{
    let data = blocks(b);
    let packet = stream_packet(v, blocks, b, f);
    lemma_largest(data, data.len() as int);
    assert(data.len() == v.k && data_valid(data));
    assert(opens_to(v.session_key, packet, block_fragment(data, f)));
    assert(opens_to(
        at_block(v, b).session_key,
        sealed_fragment(at_block(v, b), f, block_fragment(data, f)),
        block_fragment(data, f),
    ));
    lemma_fragment_reaches_blocks(a, at_block(v, b), f, block_fragment(data, f), q);
}

/// Any packet but one of a new session keeps the receiver in the session.
proof fn lemma_packet_in_session(
    a: AggregatorView,
    v: TxView,
    blocks: spec_fn(u64) -> Seq<Seq<u8>>,
    packet: Seq<u8>,
    q: Reception,
)
    requires
        in_session(a, v, blocks),
        1 <= v.k <= v.n <= 255,
        in_stream(v, blocks, packet) || aside(a, packet),
    ensures
        ({
            let next = packet_processed(a, packet, q);
            &&& in_session(next, v, blocks)
            &&& handed_on(blocks, a.link, next.link, next_place(next.link))
            &&& !before(next_place(next.link), next_place(a.link))
        }),
{
    let next = packet_processed(a, packet, q);
    if in_stream(v, blocks, packet) {
        let (b, f) = choose|b: u64, f: int|
            b <= MAX_BLOCK_IDX && 0 <= f < v.n && #[trigger] packet_opens(v, blocks, b, f)
                && packet == stream_packet(v, blocks, b, f);
        let l = link_counted(a, packet);
        lemma_counted_follows(a.link, l, blocks);
        lemma_stream_packet_received(a, v, blocks, b, f, q);
        lemma_fragment_received_follows(l, b, f, blocks);
        assert(next_place(l) == next_place(a.link));
        assert(handed_on(blocks, a.link, next.link, next_place(next.link)) == handed_on(
            blocks,
            l,
            next.link,
            next_place(next.link),
        ));
    } else {
        lemma_aside_counted(a, packet, q);
        lemma_reported_payloads(a.link, next.link);
        lemma_counted_follows(a.link, next.link, blocks);
    }
}

/// From end to end: whichever packets of a session reach a receiver that is in it, in whatever order,
/// repeated or mixed with noise and with announcements that begin no new session, what the receiver
/// hands on is a part of the payloads that were sent: nothing else, nothing twice, and everything in
/// order.
pub proof fn lemma_link_in_order(
    a: AggregatorView,
    v: TxView,
    blocks: spec_fn(u64) -> Seq<Seq<u8>>,
    packets: Seq<Seq<u8>>,
    receptions: Seq<Reception>,
    i: int,
)
    requires
        in_session(a, v, blocks),
        1 <= v.k <= v.n <= 255,
        0 <= i <= packets.len(),
        forall|j: int|
            0 <= j < packets.len() ==> in_stream(v, blocks, #[trigger] packets[j]) || aside(
                packets_received(a, packets, receptions, j),
                packets[j],
            ),
    ensures
        ({
            let s = packets_received(a, packets, receptions, i);
            &&& in_session(s, v, blocks)
            &&& handed_on(blocks, a.link, s.link, next_place(s.link))
            &&& !before(next_place(s.link), next_place(a.link))
        }),
    decreases i,
{
    let s = packets_received(a, packets, receptions, i);
    if i > 0 {
        let m = packets_received(a, packets, receptions, i - 1);
        lemma_link_in_order(a, v, blocks, packets, receptions, i - 1);
        lemma_packet_in_session(m, v, blocks, packets[i - 1], receptions[i - 1]);
        lemma_handed_on_join(blocks, a.link, m.link, s.link, next_place(s.link));
    } else {
        lemma_nothing_handed_on(blocks, a.link, s.link, next_place(s.link));
    }
}

/// Each of these packets carries the fragment of block `b` that is given with it, or none and is one
/// that a receiver in the session puts aside.
pub open spec fn around_block(
    a: AggregatorView,
    v: TxView,
    blocks: spec_fn(u64) -> Seq<Seq<u8>>,
    b: u64,
    packets: Seq<Seq<u8>>,
    receptions: Seq<Reception>,
    fragments: Seq<Option<int>>,
) -> bool {
    &&& fragments.len() == packets.len()
    &&& forall|j: int|
        0 <= j < packets.len() ==> match #[trigger] fragments[j] {
            Some(f) => 0 <= f < v.n && packet_opens(v, blocks, b, f) && packets[j] == stream_packet(
                v,
                blocks,
                b,
                f,
            ),
            None => aside(packets_received(a, packets, receptions, j), packets[j]),
        }
}

/// The fragments that the block has taken after the first `i` packets: it takes `k` different ones.
pub open spec fn taken_of(fragments: Seq<Option<int>>, n: int, k: int, i: int) -> Set<int>
    decreases i,
{
    if i <= 0 {
        Set::empty()
    } else {
        let got = taken_of(fragments, n, k, i - 1);
        match fragments[i - 1] {
            Some(f) => if held(got, n) < k {
                got.insert(f)
            } else {
                got
            },
            None => got,
        }
    }
}

/// The number of bad packets after the first `i`: only malformed ones count.
pub open spec fn bad_after(start: u32, packets: Seq<Seq<u8>>, fragments: Seq<Option<int>>, i: int) -> u32
    decreases i,
{
    if i <= 0 {
        start
    } else if fragments[i - 1] is None && malformed(packets[i - 1]) {
        bad_after(start, packets, fragments, i - 1).wrapping_add(1)
    } else {
        bad_after(start, packets, fragments, i - 1)
    }
}

/// The link as it was, with the malformed packets of the first `i` counted.
pub open spec fn with_bad(
    l: LinkView,
    packets: Seq<Seq<u8>>,
    fragments: Seq<Option<int>>,
    i: int,
) -> LinkView {
    LinkView {
        counters: RxCounters {
            count_p_bad: bad_after(l.counters.count_p_bad, packets, fragments, i),
            ..l.counters
        },
        ..l
    }
}

/// How far block `b` has come since `l`, with the fragments `got`.
pub open spec fn block_stage(
    blocks: spec_fn(u64) -> Seq<Seq<u8>>,
    l: LinkView,
    s: LinkView,
    b: u64,
    got: Set<int>,
) -> bool {
    if got == Set::<int>::empty() {
        &&& restamped(l, s)
        &&& s.counters.count_p_fec_recovered == l.counters.count_p_fec_recovered
        &&& quiet(s.counters, l.counters)
    } else if held(got, l.n) < l.k {
        gathering(blocks, l, s, b, got)
    } else {
        delivered(blocks, l, s, b, got)
    }
}

/// A packet that is put aside does not hold a block up.
proof fn lemma_stage_aside(
    blocks: spec_fn(u64) -> Seq<Seq<u8>>,
    l: LinkView,
    s: LinkView,
    l2: LinkView,
    s2: LinkView,
    b: u64,
    got: Set<int>,
)
    requires
        block_stage(blocks, l, s, b, got),
        restamped(l, l2),
        restamped(s, s2),
        s2.counters.count_p_fec_recovered == s.counters.count_p_fec_recovered,
        l2.counters.count_p_fec_recovered == l.counters.count_p_fec_recovered,
        quiet(s.counters, l.counters) ==> quiet(s2.counters, l2.counters),
    ensures
        block_stage(blocks, l2, s2, b, got),
{
    if got == Set::<int>::empty() {
    } else if held(got, l.n) < l.k {
        lemma_recounted_gathering(blocks, l, s, l2, s2, b, got);
    } else {
        lemma_recounted_delivered(blocks, l, s, l2, s2, b, got);
    }
}

/// A packet of the block brings it on.
proof fn lemma_stage_fragment(
    blocks: spec_fn(u64) -> Seq<Seq<u8>>,
    l: LinkView,
    m: LinkView,
    b: u64,
    got: Set<int>,
    f: int,
)
    requires
        block_stage(blocks, l, m, b, got),
        follows(m, blocks),
        l.k >= 1,
        b <= MAX_BLOCK_IDX,
        l.last_known_block == u64::MAX || b > l.last_known_block,
        0 <= f < l.n,
    ensures
        ({
            let next = if held(got, l.n) < l.k {
                got.insert(f)
            } else {
                got
            };
            &&& next != Set::<int>::empty()
            &&& block_stage(
                blocks,
                l,
                fragment_received(m, b, f, block_fragment(blocks(b), f)),
                b,
                next,
            )
        }),
{
    lemma_none_held(l.n);
    assert(got.insert(f).contains(f));
    if got == Set::<int>::empty() {
        let s = fragment_received(m, b, f, block_fragment(blocks(b), f));
        let next = got.insert(f);
        lemma_block_step(blocks, m, m, b, got, f);
        if held(next, l.n) < l.k {
            lemma_recounted_gathering(blocks, m, s, l, s, b, next);
        } else {
            lemma_recounted_delivered(blocks, m, s, l, s, b, next);
        }
    } else {
        lemma_block_step(blocks, l, m, b, got, f);
    }
}

proof fn lemma_block_packets_received(
    a: AggregatorView,
    v: TxView,
    blocks: spec_fn(u64) -> Seq<Seq<u8>>,
    b: u64,
    packets: Seq<Seq<u8>>,
    receptions: Seq<Reception>,
    fragments: Seq<Option<int>>,
    i: int,
)
    requires
        in_session(a, v, blocks),
        1 <= v.k <= v.n <= 255,
        b <= MAX_BLOCK_IDX,
        a.link.last_known_block == u64::MAX || b > a.link.last_known_block,
        around_block(a, v, blocks, b, packets, receptions, fragments),
        0 <= i <= packets.len(),
    ensures
        ({
            let s = packets_received(a, packets, receptions, i);
            &&& in_session(s, v, blocks)
            &&& block_stage(
                blocks,
                with_bad(a.link, packets, fragments, i),
                s.link,
                b,
                taken_of(fragments, v.n, v.k, i),
            )
        }),
    decreases i,
{
    if i > 0 {
        let m = packets_received(a, packets, receptions, i - 1);
        let s = packets_received(a, packets, receptions, i);
        let got = taken_of(fragments, v.n, v.k, i - 1);
        let before_l = with_bad(a.link, packets, fragments, i - 1);
        let l = with_bad(a.link, packets, fragments, i);
        let packet = packets[i - 1];
        let q = receptions[i - 1];
        lemma_block_packets_received(a, v, blocks, b, packets, receptions, fragments, i - 1);
        match fragments[i - 1] {
            Some(f) => {
                let counted_m = link_counted(m, packet);
                lemma_counted_follows(m.link, counted_m, blocks);
                lemma_stage_aside(blocks, before_l, m.link, l, counted_m, b, got);
                lemma_stream_packet_received(m, v, blocks, b, f, q);
                lemma_stage_fragment(blocks, l, counted_m, b, got, f);
                lemma_fragment_received_follows(counted_m, b, f, blocks);
            },
            None => {
                lemma_aside_counted(m, packet, q);
                lemma_reported_payloads(m.link, s.link);
                lemma_counted_follows(m.link, s.link, blocks);
                lemma_stage_aside(blocks, before_l, m.link, l, s.link, b, got);
            },
        }
    }
}

/// From end to end: whichever packets of a new block reach a receiver that is in the session, in whatever
/// order, however often, and with whatever noise and announcements of the session among them: with the
/// `k`th different one it has handed on the block's payloads, all of them, once each and in order, after
/// what is left of the blocks before, and counted as rebuilt the data fragments that were missing.  If
/// the block was the next one, nothing is counted as lost, nothing but malformed packets as bad, and no
/// block is left on its way.
pub proof fn lemma_link_delivers(
    a: AggregatorView,
    v: TxView,
    blocks: spec_fn(u64) -> Seq<Seq<u8>>,
    b: u64,
    packets: Seq<Seq<u8>>,
    receptions: Seq<Reception>,
    fragments: Seq<Option<int>>,
    i: int,
)
    requires
        in_session(a, v, blocks),
        1 <= v.k <= v.n <= 255,
        b <= MAX_BLOCK_IDX,
        a.link.last_known_block == u64::MAX || b > a.link.last_known_block,
        around_block(a, v, blocks, b, packets, receptions, fragments),
        0 <= i <= packets.len(),
        held(taken_of(fragments, v.n, v.k, i), v.n) >= v.k,
    ensures
        ({
            let s = packets_received(a, packets, receptions, i);
            &&& in_session(s, v, blocks)
            &&& delivered(
                blocks,
                with_bad(a.link, packets, fragments, i),
                s.link,
                b,
                taken_of(fragments, v.n, v.k, i),
            )
        }),
{
    lemma_none_held(v.n);
    lemma_block_packets_received(a, v, blocks, b, packets, receptions, fragments, i);
}

/// A choice of different fragments of a block.
pub open spec fn fragment_choice(order: Seq<int>, n: int) -> bool {
    &&& forall|i: int| 0 <= i < order.len() ==> 0 <= #[trigger] order[i] < n
    &&& forall|i: int, j: int| 0 <= i < j < order.len() ==> #[trigger] order[i] != #[trigger] order[j]
}

/// The packets that carry these fragments of a block.
pub open spec fn block_packets(
    v: TxView,
    blocks: spec_fn(u64) -> Seq<Seq<u8>>,
    b: u64,
    order: Seq<int>,
) -> Seq<Seq<u8>> {
    Seq::new(order.len(), |i: int| stream_packet(v, blocks, b, order[i]))
}

/// Different fragments are all taken.
proof fn lemma_choice_taken(order: Seq<int>, n: int, k: int, i: int)
    requires
        fragment_choice(order, n),
        0 <= i <= order.len(),
        i <= k,
    ensures
        ({
            let fragments = Seq::new(order.len(), |j: int| Some(order[j]));
            let got = taken_of(fragments, n, k, i);
            &&& held(got, n) == i
            &&& got == order.take(i).to_set()
        }),
    decreases i,
{
    let fragments = Seq::new(order.len(), |j: int| Some(order[j]));
    lemma_none_held(n);
    if i > 0 {
        let got = taken_of(fragments, n, k, i - 1);
        let f = order[i - 1];
        lemma_choice_taken(order, n, k, i - 1);
        if got.contains(f) {
            let j = choose|j: int| 0 <= j < i - 1 && #[trigger] order.take(i - 1)[j] == f;
            assert(order[j] == order[i - 1]);
        }
        lemma_held_insert(got, n, f);
        assert forall|g: int| #[trigger] got.insert(f).contains(g) == order.take(i).to_set().contains(g) by {
            if got.contains(g) {
                let j = choose|j: int| 0 <= j < i - 1 && #[trigger] order.take(i - 1)[j] == g;
                assert(order.take(i)[j] == g);
            }
            if g == f {
                assert(order.take(i)[i - 1] == g);
            }
            if order.take(i).contains(g) {
                let j = choose|j: int| 0 <= j < i && #[trigger] order.take(i)[j] == g;
                if j < i - 1 {
                    assert(order.take(i - 1)[j] == g);
                }
            }
        }
        assert(got.insert(f) =~= order.take(i).to_set());
    } else {
        assert(order.take(0).to_set() =~= Set::<int>::empty());
    }
}

proof fn lemma_none_bad(start: u32, packets: Seq<Seq<u8>>, fragments: Seq<Option<int>>, i: int)
    requires
        forall|j: int| 0 <= j < i ==> #[trigger] fragments[j] is Some,
    ensures
        bad_after(start, packets, fragments, i) == start,
    decreases i,
{
    if i > 0 {
        lemma_none_bad(start, packets, fragments, i - 1);
    }
}

/// The next block of a session, of which exactly `k` different packets come: the receiver hands on its
/// payloads and nothing else, counts as rebuilt the data fragments that were not among them, and counts
/// nothing as lost or bad; no block is left in the ring.
pub proof fn lemma_next_block_delivered(
    a: AggregatorView,
    v: TxView,
    blocks: spec_fn(u64) -> Seq<Seq<u8>>,
    b: u64,
    order: Seq<int>,
    receptions: Seq<Reception>,
)
    requires
        in_session(a, v, blocks),
        1 <= v.k <= v.n <= 255,
        b <= MAX_BLOCK_IDX,
        is_next(a.link, b),
        next_place(a.link) == (b as int, 0int),
        fragment_choice(order, v.n),
        order.len() == v.k,
        forall|i: int| 0 <= i < order.len() ==> packet_opens(v, blocks, b, #[trigger] order[i]),
    ensures
        ({
            let s = packets_received(a, block_packets(v, blocks, b, order), receptions, v.k);
            let (c, d) = (a.link.counters, s.link.counters);
            &&& in_session(s, v, blocks)
            &&& payloads(s.link.events) == payloads(a.link.events) + payloads_between(
                blocks(b),
                0,
                v.k,
            )
            &&& d.count_p_fec_recovered == c.count_p_fec_recovered.wrapping_add(
                (v.k - held(order.to_set(), v.k)) as u32,
            )
            &&& d.count_p_lost == c.count_p_lost
            &&& d.count_p_bad == c.count_p_bad
            &&& s.link.alloc == 0
            &&& is_next(s.link, (b + 1) as u64)
            &&& next_place(s.link) == (b + 1, 0int)
        }),
{
    let packets = block_packets(v, blocks, b, order);
    let fragments = Seq::new(order.len(), |j: int| Some(order[j]));
    assert forall|j: int| 0 <= j < packets.len() implies match #[trigger] fragments[j] {
        Some(f) => 0 <= f < v.n && packet_opens(v, blocks, b, f) && packets[j] == stream_packet(
            v,
            blocks,
            b,
            f,
        ),
        None => aside(packets_received(a, packets, receptions, j), packets[j]),
    } by {
        assert(fragments[j] == Some(order[j]));
    }
    lemma_choice_taken(order, v.n, v.k, v.k);
    assert(order.take(v.k) =~= order);
    lemma_none_bad(a.link.counters.count_p_bad, packets, fragments, v.k);
    lemma_link_delivers(a, v, blocks, b, packets, receptions, fragments, v.k);
    let l = with_bad(a.link, packets, fragments, v.k);
    let s = packets_received(a, packets, receptions, v.k);
    lemma_block_alone(l, s.link, b, order.to_set(), blocks);
}

/// From a new session on: a receiver that hears the announcement of a transmitter's session and then any
/// `k` different packets of its first block, in any order, hands on exactly the payloads that were put
/// into the block, in order.  It counts as rebuilt the data fragments that were not among them, and
/// nothing as lost or bad, and no block is left in its ring.
pub proof fn lemma_fresh_session_delivers(
    a: AggregatorView,
    v: TxView,
    announcement: Seq<u8>,
    q: Reception,
    data: Seq<Seq<u8>>,
    sent: Seq<Seq<u8>>,
    flags: Seq<u8>,
    order: Seq<int>,
    receptions: Seq<Reception>,
)
    requires
        announces(announcement, v),
        tags_fit(v.tags),
        v.session_key.len() == AEAD_KEY_BYTES,
        1 <= v.k <= v.n <= 255,
        v.block_idx == 0,
        a.rx_secretkey.len() == BOX_KEY_BYTES,
        v.rx_publickey == box_public_key(a.rx_secretkey),
        a.tx_publickey == box_public_key(v.tx_secretkey),
        a.channel_id == v.channel_id,
        a.epoch <= v.epoch,
        keyed_hash(announcement.skip(25), announcement.subrange(1, 25)) != a.session_hash,
        a.session_key != v.session_key,
        data.len() == v.k,
        sent.len() == v.k,
        data_valid(data),
        forall|j: int|
            0 <= j < data.len() ==> #[trigger] data[j] == data_fragment(flags[j], sent[j])
                && sent[j].len() <= MAX_PAYLOAD_SIZE && flags[j] & WFB_PACKET_FEC_ONLY == 0,
        fragment_choice(order, v.n),
        order.len() == v.k,
        forall|i: int|
            0 <= i < order.len() ==> opens_to(
                v.session_key,
                sealed_fragment(v, #[trigger] order[i], block_fragment(data, order[i])),
                block_fragment(data, order[i]),
            ),
    ensures
        ({
            let m = packet_processed(a, announcement, q);
            let packets = Seq::new(
                order.len(),
                |i: int| sealed_fragment(v, order[i], block_fragment(data, order[i])),
            );
            let s = packets_received(m, packets, receptions, v.k);
            let (c, d) = (m.link.counters, s.link.counters);
            &&& payloads(s.link.events) == payloads(m.link.events) + sent
            &&& d.count_p_fec_recovered == c.count_p_fec_recovered.wrapping_add(
                (v.k - held(order.to_set(), v.k)) as u32,
            )
            &&& d.count_p_lost == c.count_p_lost
            &&& d.count_p_bad == c.count_p_bad
            &&& s.link.alloc == 0
        }),
{
    let blocks = |b: u64| data;
    let m = packet_processed(a, announcement, q);
    let packets = Seq::new(
        order.len(),
        |i: int| sealed_fragment(v, order[i], block_fragment(data, order[i])),
    );
    assert(at_block(v, 0) == v);
    assert forall|b: u64| b <= MAX_BLOCK_IDX implies (#[trigger] blocks(b)).len() == v.k && data_valid(
        blocks(b),
    ) by {}
    lemma_in_session(a, v, announcement, q, blocks);
    assert forall|i: int| 0 <= i < order.len() implies packet_opens(v, blocks, 0, #[trigger] order[i]) by {
        assert(opens_to(
            v.session_key,
            sealed_fragment(v, order[i], block_fragment(data, order[i])),
            block_fragment(data, order[i]),
        ));
    }
    lemma_next_block_delivered(m, v, blocks, 0, order, receptions);
    assert(block_packets(v, blocks, 0, order) =~= packets);
    lemma_block_payloads(data, sent, flags, v.k);
    assert(sent.take(v.k) =~= sent);
}

} // verus!
