//! What becomes of each packet that a receiver hears.
use crate::bytes::{be_value, byte_range};
use crate::bytes::lemma_byte_range;
use crate::counter_laws::lemma_fragment_counts;
use crate::crypto::{aead_opened, box_opened, keyed_hash};
use crate::keep_laws::{awaited, bears, handed, kept, waiting, waits};
use crate::keep_laws::{lemma_arrival_kept, lemma_kept_join, lemma_waiting_kept};
use crate::link_laws::packets_received;
use crate::order_laws::lemma_places_increase;
use crate::rx::{packet_processed, AggregatorView};
use crate::rx_ring::{fragment_received, LinkView, RxCounters, RxEventView, RxFault};
use crate::rx_ring::lemma_same_blocks_wf;
use crate::rx_stats::{reception_logged, Reception};
use crate::wifibroadcast::{MAX_BLOCK_IDX, MAX_FEC_PAYLOAD, WPACKET_HDR_SIZE};
use vstd::prelude::*;

verus! {

/// A data packet that can be taken in: of its length, and with the number in its header.
pub open spec fn is_data(packet: Seq<u8>) -> bool {
    28 <= packet.len() <= 4021 && packet[0] == 1
}

/// A session packet of its length.
pub open spec fn is_announcement(packet: Seq<u8>) -> bool {
    88 <= packet.len() <= 4021 && packet[0] == 2
}

/// What a data packet holds for a receiver in the session.
pub open spec fn data_of(a: AggregatorView, packet: Seq<u8>) -> Option<Seq<u8>> {
    aead_opened(a.session_key, packet.subrange(1, 9), packet.take(9), packet.skip(9))
}

/// The hash by which a session packet is known again.
pub open spec fn hash_of(packet: Seq<u8>) -> Seq<u8> {
    keyed_hash(packet.skip(25), packet.subrange(1, 25))
}

/// What a session packet holds for a receiver with these keys.
pub open spec fn session_of(a: AggregatorView, packet: Seq<u8>) -> Option<Seq<u8>> {
    box_opened(packet.skip(25), packet.subrange(1, 25), a.tx_publickey, a.rx_secretkey)
}

/// Session data that is not too old, is of the receiver's channel, and names a code that there is.
pub open spec fn session_fits(a: AggregatorView, m: Seq<u8>) -> bool {
    &&& be_value(m.subrange(0, 8)) >= a.epoch
    &&& be_value(m.subrange(8, 12)) == a.channel_id
    &&& m[12] == 1
    &&& 1 <= m[13]
    &&& m[13] <= m[14]
}

/// The packet announces a session that the receiver takes part in.
pub open spec fn admits(a: AggregatorView, packet: Seq<u8>) -> bool {
    &&& is_announcement(packet)
    &&& hash_of(packet) != a.session_hash
    &&& session_of(a, packet) matches Some(m) && session_fits(a, m)
}

/// One more, in 32 bits, if so.
pub open spec fn one_more(c: u32, more: bool) -> int {
    if more {
        (c + 1) % 0x1_0000_0000
    } else {
        c as int
    }
}

/// A session begins with a packet that announces one that is not too old, of the receiver's channel and
/// with a code that there is, under another key than the last, and with no other packet.  Then its key,
/// its code and its epoch are in force, nothing is in the ring, and the session is reported.
pub proof fn lemma_session_begins(a: AggregatorView, packet: Seq<u8>, q: Reception)
    ensures
        ({
            let next = packet_processed(a, packet, q);
            let m = session_of(a, packet)->0;
            let begins = admits(a, packet) && m.subrange(15, 47) != a.session_key;
            &&& next.channel_id == a.channel_id
            &&& next.rx_secretkey == a.rx_secretkey
            &&& next.tx_publickey == a.tx_publickey
            &&& next.session_hash == (if admits(a, packet) {
                hash_of(packet)
            } else {
                a.session_hash
            })
            &&& begins ==> {
                &&& next.session_key == m.subrange(15, 47)
                &&& next.epoch == be_value(m.subrange(0, 8)) as u64
                &&& next.link.k == m[13]
                &&& next.link.n == m[14]
                &&& next.link.alloc == 0
                &&& next.link.last_known_block == u64::MAX
                &&& next.link.seq == 0
                &&& next.link.events == a.link.events.push(
                    RxEventView::Session {
                        epoch: be_value(m.subrange(0, 8)) as u64,
                        fec_type: 1,
                        k: m[13],
                        n: m[14],
                    },
                )
            }
            &&& !begins ==> {
                &&& next.session_key == a.session_key
                &&& next.epoch == a.epoch
            }
            &&& !begins && !is_data(packet) ==> next.link == (LinkView {
                counters: next.link.counters,
                events: next.link.events,
                ..a.link
            })
        }),
{
}

/// Each packet is counted for what it is: as data if it opens, as a session packet if it announces a
/// session that is known or admitted, as not to be opened if it does not open or announces a session that
/// is not admitted.  The antennas on which data was heard, and its number, are entered for data that
/// opens, and for no other packet.
pub proof fn lemma_packet_kinds(a: AggregatorView, packet: Seq<u8>, q: Reception)
    ensures
        ({
            let next = packet_processed(a, packet, q);
            let (c, d) = (a.link.counters, next.link.counters);
            let data = is_data(packet) && data_of(a, packet) is Some;
            let known = is_announcement(packet) && hash_of(packet) == a.session_hash;
            &&& d.count_p_data == one_more(c.count_p_data, data)
            &&& d.count_p_session == one_more(c.count_p_session, known || admits(a, packet))
            &&& d.count_p_dec_err == one_more(
                c.count_p_dec_err,
                is_data(packet) && !data || is_announcement(packet) && !known && !admits(a, packet),
            )
            &&& !data ==> next.antennas == a.antennas && next.uniq == a.uniq
            &&& data ==> next.antennas == reception_logged(a.antennas, q, 0)
            &&& data && 3 <= data_of(a, packet)->0.len() <= 3996 ==> next.uniq == a.uniq.insert(
                be_value(packet.subrange(1, 9)) as u64,
            )
            &&& data && !(3 <= data_of(a, packet)->0.len() <= 3996) ==> next.uniq == a.uniq
        }),
{
    let c = a.link.counters;
    let nonce = be_value(packet.subrange(1, 9)) as u64;
    if data_of(a, packet) is Some {
        let l = LinkView {
            counters: RxCounters {
                count_p_all: c.count_p_all.wrapping_add(1),
                count_b_all: c.count_b_all.wrapping_add(packet.len() as u32),
                count_p_data: c.count_p_data.wrapping_add(1),
                ..c
            },
            ..a.link
        };
        lemma_fragment_counts(l, nonce / 256, (nonce % 256) as int, data_of(a, packet)->0);
    }
}

/// What is wrong with a packet that is not taken in: the first thing that is.
pub open spec fn wrong_with(a: AggregatorView, packet: Seq<u8>) -> Option<RxFault> {
    let number = be_value(packet.subrange(1, 9)) as u64;
    if packet.len() == 0 {
        None
    } else if packet.len() > 4021 {
        Some(RxFault::LongPacket)
    } else if packet[0] != 1 && packet[0] != 2 {
        Some(RxFault::UnknownType(packet[0]))
    } else if packet[0] == 1 && packet.len() < 28 {
        Some(RxFault::ShortPacket)
    } else if packet[0] == 2 && packet.len() < 88 {
        Some(RxFault::InvalidSessionPacket)
    } else if packet[0] == 1 {
        match data_of(a, packet) {
            None => Some(RxFault::PacketNotOpened(number)),
            Some(m) => if !(3 <= m.len() <= 3996) {
                None
            } else if number >= 0x8000_0000_0000_0000 {
                Some(RxFault::BlockOverflow)
            } else if number % 256 >= a.link.n {
                Some(RxFault::InvalidFragment((number % 256) as u8))
            } else {
                None
            },
        }
    } else if hash_of(packet) == a.session_hash {
        None
    } else {
        match session_of(a, packet) {
            None => Some(RxFault::SessionNotOpened),
            Some(m) => if be_value(m.subrange(0, 8)) < a.epoch {
                Some(
                    RxFault::OldEpoch {
                        session_epoch: be_value(m.subrange(0, 8)) as u64,
                        epoch: a.epoch,
                    },
                )
            } else if be_value(m.subrange(8, 12)) != a.channel_id {
                Some(
                    RxFault::OtherChannel {
                        session_channel: be_value(m.subrange(8, 12)) as u32,
                        channel_id: a.channel_id,
                    },
                )
            } else if m[12] != 1 {
                Some(RxFault::UnsupportedCode(m[12]))
            } else if m[13] == 0 || m[13] > m[14] {
                Some(RxFault::InvalidCode)
            } else {
                None
            },
        }
    }
}

proof fn lemma_be_value_range(s: Seq<u8>)
    ensures
        be_value(s) < byte_range(s.len()),
    decreases s.len(),
{
    if s.len() > 0 {
        lemma_be_value_range(s.drop_last());
    }
}

/// A packet with which something is wrong is reported for that, changes nothing but counters, and counts
/// as bad exactly if it is not one that merely does not open or announces a session that is not admitted.
/// A packet with which nothing is wrong, and that is not data, is reported only where it begins a session.
pub proof fn lemma_faults_reported(a: AggregatorView, packet: Seq<u8>, q: Reception)
    requires
        session_of(a, packet) matches Some(m) ==> m.len() >= 47,
    ensures
        ({
            let next = packet_processed(a, packet, q);
            let (c, d) = (a.link.counters, next.link.counters);
            &&& match wrong_with(a, packet) {
                Some(fault) => {
                    &&& next.link.events == a.link.events.push(RxEventView::Fault(fault))
                    &&& next.link == (LinkView { counters: d, events: next.link.events, ..a.link })
                    &&& d.count_p_bad == one_more(
                        c.count_p_bad,
                        !(is_data(packet) && data_of(a, packet) is None || is_announcement(packet)),
                    )
                    &&& d.count_p_lost == c.count_p_lost
                    &&& d.count_p_outgoing == c.count_p_outgoing
                },
                None => {
                    &&& packet.len() == 0 ==> next.link.events == a.link.events
                    &&& is_announcement(packet) && next.session_key == a.session_key
                        ==> next.link.events == a.link.events && d.count_p_bad == c.count_p_bad
                    &&& is_data(packet) && !(3 <= data_of(a, packet)->0.len() <= 3996)
                        ==> next.link.events == a.link.events && d.count_p_bad == one_more(
                        c.count_p_bad,
                        true,
                    )
                },
            }
        }),
{
    lemma_byte_range();
    if session_of(a, packet) is Some {
        let m = session_of(a, packet)->0;
        lemma_be_value_range(m.subrange(0, 8));
        lemma_be_value_range(m.subrange(8, 12));
    }
}

/// The same payloads wait under other counters and other reports.
proof fn lemma_restamped_kept(l: LinkView, m: LinkView)
    requires
        m == (LinkView { counters: m.counters, events: m.events, ..l }),
        m.events == l.events || m.events.drop_last() == l.events && m.events.len() > 0,
    ensures
        kept(l, m),
{
    assert forall|e: RxEventView| #[trigger] waiting(l, e) implies waiting(m, e) by {
        let r = choose|r: int| waits(l, r, e);
        assert(waits(m, r, e));
    }
    assert forall|i: int| 0 <= i < l.events.len() implies #[trigger] m.events[i] == l.events[i] by {
        if m.events != l.events {
            assert(m.events.drop_last()[i] == l.events[i]);
        }
    }
}

/// A packet that begins no new session gives up nothing that waits.
proof fn lemma_packet_kept(a: AggregatorView, packet: Seq<u8>, q: Reception)
    requires
        a.link.wf(),
        packet_processed(a, packet, q).session_key == a.session_key,
    ensures
        kept(a.link, packet_processed(a, packet, q).link),
{
    let c = a.link.counters;
    let next = packet_processed(a, packet, q).link;
    let l = LinkView {
        counters: RxCounters {
            count_p_all: c.count_p_all.wrapping_add(1),
            count_b_all: c.count_b_all.wrapping_add(packet.len() as u32),
            count_p_data: c.count_p_data.wrapping_add(1),
            ..c
        },
        ..a.link
    };
    let nonce = be_value(packet.subrange(1, 9)) as u64;
    let m = data_of(a, packet)->0;
    lemma_same_blocks_wf(l, a.link);
    if next == fragment_received(l, nonce / 256, (nonce % 256) as int, m) && nonce / 256
        <= MAX_BLOCK_IDX && nonce % 256 < l.n && WPACKET_HDR_SIZE <= m.len() <= MAX_FEC_PAYLOAD {
        lemma_restamped_kept(a.link, l);
        lemma_waiting_kept(l, nonce / 256, (nonce % 256) as int, m);
        lemma_kept_join(a.link, l, next);
    } else {
        if next.events.len() > a.link.events.len() {
            assert(next.events.drop_last() =~= a.link.events);
        }
        lemma_restamped_kept(a.link, next);
    }
}

/// Over any packets within a session, whatever they hold and wherever they come from, no payload that has
/// come is given up: each that waited at the beginning has been handed on or still waits.
pub proof fn lemma_packets_keep(
    a: AggregatorView,
    packets: Seq<Seq<u8>>,
    receptions: Seq<Reception>,
    i: int,
)
    requires
        a.link.wf(),
        0 <= i <= packets.len(),
        forall|j: int|
            0 <= j < i ==> (#[trigger] packets_received(a, packets, receptions, j + 1)).session_key
                == a.session_key,
    ensures
        kept(a.link, packets_received(a, packets, receptions, i).link),
    decreases i,
{
    if i <= 0 {
        lemma_restamped_kept(a.link, a.link);
    } else {
        let s = packets_received(a, packets, receptions, i - 1);
        lemma_packets_keep(a, packets, receptions, i - 1);
        lemma_places_increase(a, packets, receptions, i - 1);
        assert(packets_received(a, packets, receptions, i - 1 + 1).session_key == a.session_key);
        lemma_packet_kept(s, packets[i - 1], receptions[i - 1]);
        lemma_kept_join(
            a.link,
            s.link,
            packets_received(a, packets, receptions, i).link,
        );
    }
}

/// The payload in a data packet that opens, of a fragment that has neither come nor gone by, is handed on
/// at once or waits.
pub proof fn lemma_arrived_payload_kept(
    a: AggregatorView,
    packet: Seq<u8>,
    q: Reception,
    payload: Seq<u8>,
)
    requires
        a.link.wf(),
        is_data(packet),
        data_of(a, packet) matches Some(m) && {
            let number = be_value(packet.subrange(1, 9));
            &&& 3 <= m.len() <= 3996
            &&& bears(m, payload)
            &&& 3 + m[1] * 256 + m[2] <= m.len()
            &&& number < 0x8000_0000_0000_0000
            &&& number % 256 < a.link.k
            &&& awaited(a.link, (number / 256) as u64, (number % 256) as int)
        },
    ensures
        ({
            let number = be_value(packet.subrange(1, 9));
            let next = packet_processed(a, packet, q).link;
            let e = RxEventView::Payload {
                block_idx: (number / 256) as u64,
                fragment_idx: (number % 256) as int,
                payload,
            };
            waiting(next, e) || handed(a.link, next, e)
        }),
{
    let c = a.link.counters;
    let number = be_value(packet.subrange(1, 9)) as u64;
    let l = LinkView {
        counters: RxCounters {
            count_p_all: c.count_p_all.wrapping_add(1),
            count_b_all: c.count_b_all.wrapping_add(packet.len() as u32),
            count_p_data: c.count_p_data.wrapping_add(1),
            ..c
        },
        ..a.link
    };
    lemma_same_blocks_wf(l, a.link);
    let b = number / 256;
    let f = (number % 256) as int;
    assert(awaited(l, b, f)) by {
        if exists|r: int| 0 <= r < 40 && a.link.active(r) && (#[trigger] a.link.ring[r]).block_idx == b {
            let r = choose|r: int|
                0 <= r < 40 && a.link.active(r) && (#[trigger] a.link.ring[r]).block_idx == b;
            assert(l.ring[r].block_idx == b && l.active(r));
        }
        assert forall|r: int|
            0 <= r < 40 && l.active(r) && (#[trigger] l.ring[r]).block_idx == b implies l.ring[r].map[f]
            == 0 && 0 <= l.ring[r].to_send <= f by {
            assert(a.link.active(r) && a.link.ring[r].block_idx == b);
        }
    }
    lemma_arrival_kept(l, b, f, data_of(a, packet)->0, payload);
}

} // verus!
