use wfb_ng::bytes::order_of_one;
use wfb_ng::keygen::{keys_from_seed, LinkKeys};
use wfb_ng::rx::{parse_forwarded, Aggregator, BaseAggregator, Forwarder};
use wfb_ng::rx_ring::{RxEvent, RxFault, RxLink};
use wfb_ng::rx_stats::{RxAntennaItem, RxAntennaKey, SockaddrIn, AF_INET};
use wfb_ng::tx::{TagsItem, TransmitterCore, TxError, TxEvent};
use wfb_ng::wifibroadcast::{MAX_BLOCK_IDX, MAX_PAYLOAD_SIZE, WFB_PACKET_FEC_ONLY};

const CHANNEL: u32 = 0x00abcd07;

fn keys() -> LinkKeys {
    keys_from_seed(&(0..64).collect::<Vec<u8>>())
}

fn transmitter(k: usize, n: usize, epoch: u64) -> TransmitterCore {
    TransmitterCore::new(k, n, &keys().drone_key, epoch, CHANNEL, 0, Vec::new()).ok().unwrap()
}

fn receiver(epoch: u64) -> Aggregator {
    Aggregator::new(&keys().gs_key, epoch, CHANNEL).unwrap()
}

fn packets(events: &[TxEvent]) -> Vec<Vec<u8>> {
    let mut out = Vec::new();
    for e in events {
        if let TxEvent::Inject(p) = e {
            out.push(p.clone());
        }
    }
    out
}

fn send(tx: &mut TransmitterCore, payload: &[u8]) -> Vec<Vec<u8>> {
    let mut events = Vec::new();
    assert_eq!(tx.send_packet(Some(payload), 0, &mut events), Ok(true));
    packets(&events)
}

/// A block of payloads that begin with `first`, and its packets.
fn block(tx: &mut TransmitterCore, first: u8) -> (Vec<Vec<u8>>, Vec<Vec<u8>>) {
    let (k, n) = tx.get_fec();
    let mut payloads = Vec::new();
    let mut out = Vec::new();
    for i in 0..k {
        let payload = vec![first + i as u8; 10 + 7 * i];
        out.extend(send(tx, &payload));
        payloads.push(payload);
    }
    assert_eq!(out.len(), n);
    (payloads, out)
}

fn receive(rx: &mut Aggregator, packet: &[u8]) -> Vec<RxEvent> {
    rx.process_packet(packet, 1, &[0, 1, 0xff, 0xff], &[-50, -60, 0, 0], &[-90, 127, 0, 0], 5180, 3, 20, None)
}

fn payloads_of(events: &[RxEvent]) -> Vec<Vec<u8>> {
    let mut out = Vec::new();
    for e in events {
        if let RxEvent::Payload { payload, .. } = e {
            out.push(payload.clone());
        }
    }
    out
}

fn payload(block_idx: u64, fragment_idx: u8, payload: &[u8]) -> RxEvent {
    RxEvent::Payload { block_idx, fragment_idx, payload: payload.to_vec() }
}

fn fault(events: &[RxEvent]) -> RxFault {
    match events {
        [RxEvent::Fault(f)] => *f,
        _ => panic!("one report"),
    }
}

fn join(rx: &mut Aggregator, tx: &TransmitterCore) {
    let (k, n) = tx.get_fec();
    let events = receive(rx, &tx.send_session_key());
    assert_eq!(
        events,
        vec![RxEvent::Session { epoch: tx.epoch, fec_type: 1, k: k as u8, n: n as u8 }]
    );
}

#[test]
fn payloads_cross_the_link() {
    let mut tx = transmitter(3, 5, 1);
    let mut rx = receiver(0);
    join(&mut rx, &tx);
    for round in 0..5u8 {
        for i in 0..3u8 {
            let bytes = vec![round * 3 + i; 20 + i as usize];
            let out = send(&mut tx, &bytes);
            assert_eq!(out.len(), if i < 2 { 1 } else { 3 });
            assert_eq!(receive(&mut rx, &out[0]), vec![payload(round as u64, i, &bytes)]);
            for check in &out[1..] {
                assert!(receive(&mut rx, check).is_empty());
            }
        }
    }
    let c = rx.link.counters;
    assert_eq!((c.count_p_all, c.count_p_session, c.count_p_data), (26, 1, 25));
    assert_eq!((c.count_p_outgoing, c.count_p_lost, c.count_p_fec_recovered), (15, 0, 0));
    assert_eq!(c.count_b_outgoing, 5 * (20 + 21 + 22));
}

#[test]
fn any_three_of_five_packets_deliver_a_block() {
    for a in 0..5 {
        for b in 0..5 {
            for c in 0..5 {
                if a == b || a == c || b == c {
                    continue;
                }
                let mut tx = transmitter(3, 5, 1);
                let mut rx = receiver(0);
                join(&mut rx, &tx);
                let (payloads, out) = block(&mut tx, 1);
                let mut got = Vec::new();
                for i in [a, b, c] {
                    got.extend(receive(&mut rx, &out[i]));
                }
                assert_eq!(payloads_of(&got), payloads);
                assert_eq!(got.len(), 3);
                // what is left of the block is late
                for p in &out {
                    assert!(receive(&mut rx, p).is_empty());
                }
            }
        }
    }
}

#[test]
fn repeated_packets_count_once() {
    let mut tx = transmitter(2, 3, 1);
    let mut rx = receiver(0);
    join(&mut rx, &tx);
    let (payloads, out) = block(&mut tx, 1);
    assert_eq!(payloads_of(&receive(&mut rx, &out[0])), payloads[..1]);
    assert!(receive(&mut rx, &out[0]).is_empty());
    assert_eq!(payloads_of(&receive(&mut rx, &out[2])), payloads[1..]);
    assert_eq!(rx.count_p_uniq.len(), 2);
    assert_eq!(rx.link.counters.count_p_data, 3);
    assert_eq!(rx.link.counters.count_p_fec_recovered, 1);
}

#[test]
fn losses_are_reported() {
    let mut tx = transmitter(2, 2, 1);
    let mut rx = receiver(0);
    join(&mut rx, &tx);
    let (p0, first) = block(&mut tx, 10);
    let (_, second) = block(&mut tx, 20);
    let (p2, third) = block(&mut tx, 30);
    assert_eq!(payloads_of(&receive(&mut rx, &first[0])), p0[..1]);
    assert_eq!(payloads_of(&receive(&mut rx, &first[1])), p0[1..]);
    // of the second block one packet comes, and waits
    assert!(receive(&mut rx, &second[1]).is_empty());
    assert!(receive(&mut rx, &third[0]).is_empty());
    // the third block is complete: the second goes out as it is
    let events = receive(&mut rx, &third[1]);
    assert_eq!(events[0], RxEvent::Loss { lost_count: 1, last_seq: 1, new_seq: 3 });
    assert_eq!(events[1], payload(1, 1, &[21; 17]));
    assert_eq!(events[2], payload(2, 0, &p2[0]));
    assert_eq!(events[3], payload(2, 1, &p2[1]));
    assert_eq!(events.len(), 4);
    assert_eq!(rx.link.counters.count_p_lost, 1);
    // and what comes of it now is late
    assert!(receive(&mut rx, &second[0]).is_empty());
}

#[test]
fn a_full_ring_gives_up_its_oldest_block() {
    let mut tx = transmitter(2, 3, 1);
    let mut rx = receiver(0);
    join(&mut rx, &tx);
    let (_, first) = block(&mut tx, 1);
    assert!(receive(&mut rx, &first[1]).is_empty());
    let mut last = Vec::new();
    for _ in 0..40 {
        last = block(&mut tx, 100).1;
    }
    let events = receive(&mut rx, &last[1]);
    assert_eq!(payloads_of(&events), vec![vec![2; 17]]);
    assert_eq!(rx.link.counters.count_p_override, 1);
    assert_eq!(rx.link.rx_ring_alloc, 40);
}

#[test]
fn silent_fragments_close_a_block() {
    let mut tx = transmitter(2, 3, 1);
    let mut rx = receiver(0);
    join(&mut rx, &tx);
    let mut events = Vec::new();
    assert_eq!(tx.send_packet(None, WFB_PACKET_FEC_ONLY, &mut events), Ok(false));
    assert!(events.is_empty());
    assert_eq!(tx.send_packet(Some(b"one"), 0, &mut events), Ok(true));
    assert_eq!(tx.send_packet(None, WFB_PACKET_FEC_ONLY, &mut events), Ok(true));
    let out = packets(&events);
    assert_eq!(out.len(), 3);
    assert_eq!(payloads_of(&receive(&mut rx, &out[0])), vec![b"one".to_vec()]);
    assert!(receive(&mut rx, &out[1]).is_empty());
    assert_eq!(rx.link.rx_ring_alloc, 0);
    assert_eq!(tx.block_idx, 1);
}

#[test]
fn marks_and_pauses() {
    let keys = keys();
    let mut tx =
        TransmitterCore::new(2, 4, &keys.drone_key, 0, CHANNEL, 250, Vec::new()).ok().unwrap();
    let mut events = Vec::new();
    tx.send_packet(Some(b"a"), 0, &mut events).ok();
    tx.send_packet(Some(b"b"), 0, &mut events).ok();
    let kinds: Vec<u32> = events
        .iter()
        .map(|e| match e {
            TxEvent::SetMark(m) => *m,
            TxEvent::Inject(_) => 100,
            TxEvent::Delay(d) => *d,
        })
        .collect();
    assert_eq!(kinds, vec![0, 100, 100, 1, 250, 100, 250, 100]);
}

#[test]
fn packets_have_headers_in_the_clear() {
    let mut tx = transmitter(2, 3, 1);
    let (_, out) = block(&mut tx, 1);
    let (_, next) = block(&mut tx, 1);
    for (i, p) in out.iter().enumerate() {
        assert_eq!(p[..9], [1, 0, 0, 0, 0, 0, 0, 0, i as u8]);
    }
    assert_eq!(next[2][..9], [1, 0, 0, 0, 0, 0, 0, 1, 2]);
    // header, fragment and tag
    assert_eq!(out[0].len(), 9 + 3 + 10 + 16);
    // check fragments are as long as the longest
    assert_eq!(out[2].len(), 9 + 3 + 17 + 16);
    // the same fragment under another key or number looks otherwise
    assert_ne!(out[0][9..], next[0][9..]);
}

#[test]
fn the_largest_payload_crosses() {
    let mut tx = transmitter(1, 2, 1);
    let mut rx = receiver(0);
    join(&mut rx, &tx);
    let bytes: Vec<u8> = (0..MAX_PAYLOAD_SIZE).map(|i| i as u8).collect();
    let out = send(&mut tx, &bytes);
    // the check fragment alone is enough
    assert_eq!(receive(&mut rx, &out[1]), vec![payload(0, 0, &bytes)]);
    let empty = send(&mut tx, &[]);
    assert_eq!(receive(&mut rx, &empty[0]), vec![payload(1, 0, &[])]);
}

#[test]
fn a_session_is_announced_once() {
    let tx = transmitter(3, 5, 1);
    let mut rx = receiver(0);
    let announcement = tx.send_session_key();
    assert_eq!(announcement[0], 2);
    assert_eq!(announcement.len(), 25 + 47 + 16);
    join(&mut rx, &tx);
    let hash = rx.session_hash.clone();
    assert_ne!(hash, vec![0u8; 32]);
    assert!(receive(&mut rx, &announcement).is_empty());
    assert_eq!(rx.link.counters.count_p_session, 2);
    assert_eq!(rx.session_hash, hash);
    assert_eq!(rx.session_key, tx.session_key);
}

#[test]
fn a_new_session_replaces_the_old_one() {
    let mut tx = transmitter(2, 3, 1);
    let mut rx = receiver(0);
    join(&mut rx, &tx);
    let (_, old) = block(&mut tx, 1);
    receive(&mut rx, &old[0]);
    assert_eq!(tx.init_session(4, 6), Ok(()));
    join(&mut rx, &tx);
    assert_eq!(rx.link.rx_ring_alloc, 0);
    // the old key is gone
    assert_eq!(fault(&receive(&mut rx, &old[1])), RxFault::PacketNotOpened(1));
    assert_eq!(rx.link.counters.count_p_dec_err, 1);
    let (payloads, out) = block(&mut tx, 40);
    let mut got = Vec::new();
    for i in [5, 4, 1, 0] {
        got.extend(receive(&mut rx, &out[i]));
    }
    assert_eq!(payloads_of(&got), payloads);
}

#[test]
fn sessions_that_are_refused() {
    // an earlier epoch
    let mut rx = receiver(9);
    assert_eq!(
        fault(&receive(&mut rx, &transmitter(2, 3, 8).send_session_key())),
        RxFault::OldEpoch { session_epoch: 8, epoch: 9 }
    );
    assert_eq!(rx.link.counters.count_p_dec_err, 1);
    join(&mut rx, &transmitter(2, 3, 9));
    // another channel
    let mut rx = Aggregator::new(&keys().gs_key, 0, CHANNEL + 1).unwrap();
    assert_eq!(
        fault(&receive(&mut rx, &transmitter(2, 3, 8).send_session_key())),
        RxFault::OtherChannel { session_channel: CHANNEL, channel_id: CHANNEL + 1 }
    );
    assert_eq!(rx.link.counters.count_p_dec_err, 1);
    // other keys
    let other = keys_from_seed(&[9; 64]);
    let mut rx = Aggregator::new(&other.gs_key, 0, CHANNEL).unwrap();
    assert_eq!(
        fault(&receive(&mut rx, &transmitter(2, 3, 8).send_session_key())),
        RxFault::SessionNotOpened
    );
    assert_eq!(rx.link.counters.count_p_dec_err, 1);
    assert!(rx.link.fec.is_none());
    // altered on the way
    let mut rx = receiver(0);
    let mut packet = transmitter(2, 3, 8).send_session_key();
    packet[40] ^= 1;
    assert_eq!(fault(&receive(&mut rx, &packet)), RxFault::SessionNotOpened);
    assert_eq!(rx.link.counters.count_p_dec_err, 1);
    // too short
    assert_eq!(fault(&receive(&mut rx, &packet[..87])), RxFault::InvalidSessionPacket);
    assert_eq!(rx.link.counters.count_p_bad, 1);
}

#[test]
fn session_data_decides() {
    let mut data: Vec<u8> = Vec::new();
    data.extend_from_slice(&5u64.to_be_bytes());
    data.extend_from_slice(&CHANNEL.to_be_bytes());
    data.extend_from_slice(&[1, 2, 3]);
    data.extend_from_slice(&[7; 32]);
    let refused = |at: usize, value: u8, why: RxFault| {
        let mut rx = receiver(5);
        let mut d = data.clone();
        d[at] = value;
        rx.accept_session(vec![1; 32], &d);
        assert_eq!(rx.link.counters.count_p_dec_err, 1);
        assert_eq!(rx.session_hash, vec![0; 32]);
        assert_eq!(fault(&rx.link.events), why);
    };
    refused(7, 4, RxFault::OldEpoch { session_epoch: 4, epoch: 5 });
    let other = (CHANNEL & !0xff) + 8;
    refused(11, 8, RxFault::OtherChannel { session_channel: other, channel_id: CHANNEL });
    refused(12, 2, RxFault::UnsupportedCode(2));
    refused(13, 0, RxFault::InvalidCode);
    refused(13, 4, RxFault::InvalidCode);
    refused(14, 0, RxFault::InvalidCode);
    let mut rx = receiver(5);
    rx.accept_session(vec![1; 32], &data);
    assert_eq!(rx.link.events, vec![RxEvent::Session { epoch: 5, fec_type: 1, k: 2, n: 3 }]);
    assert_eq!((rx.link.fec_k, rx.link.fec_n), (2, 3));
    assert_eq!(rx.session_key, vec![7; 32]);
    // the same key with another packet only changes the hash
    rx.accept_session(vec![2; 32], &data);
    assert_eq!(rx.link.events.len(), 1);
    assert_eq!(rx.session_hash, vec![2; 32]);
    assert_eq!(rx.link.counters.count_p_session, 2);
}

#[test]
fn fragments_decide() {
    let mut rx = receiver(0);
    let tx = transmitter(2, 3, 1);
    join(&mut rx, &tx);
    let accept = |rx: &mut Aggregator, nonce: u64, data: &[u8]| {
        rx.accept_fragment(nonce, data, 0, &[0xff; 4], &[0; 4], &[0; 4], 0, 0, 20, None);
    };
    accept(&mut rx, 0, &[0, 0]);
    assert_eq!(rx.link.counters.count_p_bad, 1);
    assert!(rx.count_p_uniq.is_empty());
    accept(&mut rx, 0, &[0; 3997]);
    assert_eq!(rx.link.counters.count_p_bad, 2);
    accept(&mut rx, 3, &[0, 0, 0]);
    assert_eq!(rx.link.counters.count_p_bad, 3);
    accept(&mut rx, (MAX_BLOCK_IDX + 1) << 8, &[0, 0, 0]);
    assert_eq!(rx.link.counters.count_p_bad, 4);
    assert_eq!(rx.count_p_uniq.len(), 2);
    // a size beyond the largest payload
    accept(&mut rx, 0, &[0, 0xff, 0xff]);
    assert_eq!(rx.link.counters.count_p_bad, 5);
    assert_eq!(
        rx.link.events,
        vec![
            RxEvent::Fault(RxFault::InvalidFragment(3)),
            RxEvent::Fault(RxFault::BlockOverflow),
            RxEvent::Fault(RxFault::CorruptedPacket(0)),
        ]
    );
    // a payload longer than the fragment is filled up with zeros
    accept(&mut rx, 1, &[0, 0, 4, 8]);
    assert_eq!(rx.link.events[3..], [payload(0, 1, &[8, 0, 0, 0])]);
    assert_eq!(rx.link.counters.count_p_data, 6);
}

#[test]
fn noise_is_counted() {
    let mut rx = receiver(0);
    let mut tx = transmitter(2, 3, 1);
    join(&mut rx, &tx);
    assert!(receive(&mut rx, &[]).is_empty());
    assert_eq!(fault(&receive(&mut rx, &[9; 100])), RxFault::UnknownType(9));
    assert_eq!(fault(&receive(&mut rx, &[1; 27])), RxFault::ShortPacket);
    assert_eq!(fault(&receive(&mut rx, &vec![1; 4022])), RxFault::LongPacket);
    assert_eq!(rx.link.counters.count_p_bad, 3);
    let mut packet = send(&mut tx, b"payload").remove(0);
    packet[12] ^= 0x80;
    assert_eq!(fault(&receive(&mut rx, &packet)), RxFault::PacketNotOpened(0));
    assert_eq!(rx.link.counters.count_p_dec_err, 1);
    assert_eq!(rx.link.counters.count_p_all, 6);
    assert_eq!(rx.link.counters.count_b_all, (88 + 100 + 27 + 4022 + packet.len()) as u32);
    packet[12] ^= 0x80;
    assert_eq!(payloads_of(&receive(&mut rx, &packet)), vec![b"payload".to_vec()]);
}

#[test]
fn without_a_session_nothing_opens() {
    let mut rx = receiver(0);
    let mut tx = transmitter(1, 2, 1);
    let out = send(&mut tx, b"early");
    assert_eq!(fault(&receive(&mut rx, &out[0])), RxFault::PacketNotOpened(0));
    assert_eq!(rx.link.counters.count_p_dec_err, 1);
}

#[test]
fn a_stream_with_gaps_stays_in_order() {
    let mut tx = transmitter(3, 5, 1);
    let mut rx = receiver(0);
    join(&mut rx, &tx);
    let mut all = Vec::new();
    let mut sent = Vec::new();
    for i in 0..30u8 {
        let (payloads, out) = block(&mut tx, i * 8);
        sent.extend(payloads);
        all.extend(out);
    }
    // shuffled within a window, with every fourth packet lost and every seventh twice
    let mut got = Vec::new();
    for chunk in all.chunks(11) {
        for (i, p) in chunk.iter().rev().enumerate() {
            if i % 4 == 3 {
                continue;
            }
            got.extend(payloads_of(&receive(&mut rx, p)));
            if i % 7 == 0 {
                assert!(payloads_of(&receive(&mut rx, p)).is_empty());
            }
        }
    }
    let mut at = 0;
    for p in &got {
        let found = sent[at..].iter().position(|s| s == p).unwrap();
        at += found + 1;
    }
    assert!(got.len() > 40);
}

#[test]
fn the_last_block_of_a_session_begins_a_new_one() {
    let mut tx = transmitter(2, 4, 1);
    let mut rx = receiver(0);
    tx.block_idx = MAX_BLOCK_IDX;
    join(&mut rx, &tx);
    let old_key = tx.session_key.clone();
    send(&mut tx, b"a");
    let out = send(&mut tx, b"b");
    // the fragment, two checks and three announcements
    assert_eq!(out.len(), 6);
    assert_eq!(out[0][1..9], [0x7f, 0xff, 0xff, 0xff, 0xff, 0xff, 0xff, 1]);
    assert_eq!(out[3], tx.send_session_key());
    assert_eq!(out[3], out[5]);
    assert_eq!(tx.block_idx, 0);
    assert_ne!(tx.session_key, old_key);
    assert!(!receive(&mut rx, &out[0]).contains(&RxEvent::Session { epoch: 1, fec_type: 1, k: 2, n: 4 }));
    assert_eq!(
        receive(&mut rx, &out[3]),
        vec![RxEvent::Session { epoch: 1, fec_type: 1, k: 2, n: 4 }]
    );
    assert!(receive(&mut rx, &out[4]).is_empty());
}

#[test]
fn tags_lengthen_the_announcement() {
    let tags = vec![TagsItem { id: 7, value: vec![1, 2, 3] }, TagsItem { id: 8, value: Vec::new() }];
    let keys = keys();
    let tx = TransmitterCore::new(2, 4, &keys.drone_key, 3, CHANNEL, 0, tags).ok().unwrap();
    assert_eq!(tx.send_session_key().len(), 88 + 6 + 3);
    assert_eq!(tx.byte_order, order_of_one(&1u16.to_ne_bytes()));
    let mut rx = receiver(0);
    join(&mut rx, &tx);
}

#[test]
fn transmitters_that_cannot_be() {
    let keys = keys();
    let short = TransmitterCore::new(2, 4, &keys.drone_key[..63], 3, CHANNEL, 0, Vec::new());
    assert_eq!(short.err(), Some(TxError::KeyFile));
    // no secret is shared with the point of order one
    let mut weak = keys.drone_key.clone();
    for b in &mut weak[32..] {
        *b = 0;
    }
    let weak = TransmitterCore::new(2, 4, &weak, 3, CHANNEL, 0, Vec::new());
    assert_eq!(weak.err(), Some(TxError::SessionKey));
    assert!(Aggregator::new(&keys.gs_key[..63], 0, CHANNEL).is_none());
}

#[test]
fn session_keys_are_fresh() {
    let a = transmitter(2, 4, 1);
    let b = transmitter(2, 4, 1);
    assert_ne!(a.session_key, b.session_key);
    assert_ne!(a.send_session_key()[1..25], b.send_session_key()[1..25]);
    assert_eq!(a.session_key.len(), 32);
}

#[test]
fn a_forwarded_packet_comes_out_as_it_went_in() {
    let mut f = Forwarder::new();
    let events = f.process_packet(b"abc", 4, &[1, 2, 3, 4], &[-1, -2, -3, -4], &[5, 6, 7, 8], 2412, 9, 40, None);
    let datagram = match &events[..] {
        [RxEvent::Forward(d)] => d.clone(),
        _ => panic!("no datagram"),
    };
    assert_eq!(datagram[..17], [4, 1, 2, 3, 4, 255, 254, 253, 252, 5, 6, 7, 8, 9, 0x6c, 9, 40]);
    assert_eq!(datagram[17..], *b"abc");
    let (h, payload) = parse_forwarded(&datagram).unwrap();
    assert_eq!((h.wlan_idx, h.freq, h.mcs_index, h.bandwidth), (4, 2412, 9, 40));
    assert_eq!((h.antenna, h.rssi, h.noise), ([1, 2, 3, 4], [-1, -2, -3, -4], [5, 6, 7, 8]));
    assert_eq!(payload, b"abc");
    assert!(parse_forwarded(&datagram[..16]).is_none());
    assert_eq!(parse_forwarded(&datagram[..17]).unwrap().1, Vec::<u8>::new());
    assert!(f.dump_stats().is_none());
}

#[test]
fn antennas_are_reported() {
    let mut tx = transmitter(1, 1, 1);
    let mut rx = receiver(0);
    join(&mut rx, &tx);
    let from = SockaddrIn { sin_family: AF_INET, s_addr: 0x0a000001 };
    for rssi in [-50i8, -61, -40] {
        let p = send(&mut tx, b"x").remove(0);
        rx.process_packet(&p, 2, &[0, 5, 0xff, 0], &[rssi, -70, 0, 0], &[-90, 127, 0, 0], 5180, 3, 20, Some(from));
    }
    let report = rx.dump_stats().unwrap();
    assert_eq!(report.count_p_uniq, 3);
    assert_eq!(report.counters.count_p_outgoing, 3);
    let mut lines = report.antennas;
    lines.sort_by_key(|l| l.key.antenna_id);
    assert_eq!(lines.len(), 2);
    let key = RxAntennaKey { freq: 5180, antenna_id: 0x0a00_0001_0000_0200, mcs_index: 3, bandwidth: 20 };
    assert_eq!(lines[0].key, key);
    assert_eq!((lines[0].count_all, lines[0].rssi_min, lines[0].rssi_avg, lines[0].rssi_max), (3, -61, -50, -40));
    assert_eq!((lines[0].snr_min, lines[0].snr_avg, lines[0].snr_max), (29, 39, 50));
    assert_eq!(lines[1].key.antenna_id & 0xff, 5);
    // without noise there is no ratio
    assert_eq!((lines[1].rssi_avg, lines[1].snr_min, lines[1].snr_max), (-70, 0, 0));
    assert_eq!(RxAntennaKey::unpack(key.pack()), key);
    // the next interval begins empty
    let next = rx.dump_stats().unwrap();
    assert!(next.antennas.is_empty());
    assert_eq!((next.count_p_uniq, next.counters.count_p_all), (0, 0));
}

#[test]
fn averages_round_toward_zero() {
    let mut item = RxAntennaItem::new();
    item.log_rssi(-5, 127);
    item.log_rssi(-6, 127);
    assert_eq!((item.count_all, item.rssi_sum, item.rssi_min, item.rssi_max), (2, -11, -6, -5));
    item.log_rssi(100, -100);
    assert_eq!(item.snr_min, -56);
}

#[test]
fn a_new_link_is_closed() {
    let l = RxLink::new();
    assert!(l.fec.is_none());
    assert_eq!((l.fec_k, l.fec_n, l.last_known_block), (-1, -1, u64::MAX));
    assert_eq!((l.seq, l.rx_ring_front, l.rx_ring_alloc, l.rx_ring.len()), (0, 0, 0, 40));
    for item in &l.rx_ring {
        assert_eq!((item.block_idx, item.fragment_to_send_idx, item.has_fragments), (0, 0, 0));
        assert!(item.fragments.is_empty() && item.fragment_map.is_empty());
    }
}

#[test]
fn a_session_starts_with_the_values_drawn() {
    let mut tx = transmitter(2, 3, 1);
    let nonce: Vec<u8> = (100..124).collect();
    assert_eq!(tx.start_session(3, 4, vec![5; 32], nonce.clone()), Ok(()));
    assert_eq!(tx.session_key, vec![5; 32]);
    assert_eq!(tx.send_session_key()[1..25], nonce[..]);
    let first = tx.send_session_key();
    assert_eq!(tx.start_session(3, 4, vec![5; 32], nonce), Ok(()));
    assert_eq!(tx.send_session_key(), first);
    let mut rx = receiver(0);
    join(&mut rx, &tx);
    assert_eq!(rx.session_key, vec![5; 32]);
}

#[test]
fn every_packet_is_counted() {
    let mut tx = transmitter(2, 3, 1);
    let mut rx = receiver(0);
    let announcement = tx.send_session_key();
    let (_, out) = block(&mut tx, 1);
    let mut calls: Vec<Vec<u8>> = vec![Vec::new(), vec![9; 50], announcement.clone(), announcement];
    calls.extend(out);
    calls.push(vec![1; 5000]);
    for p in &calls {
        receive(&mut rx, p);
    }
    let total: usize = calls.iter().map(|p| p.len()).sum();
    assert_eq!(rx.link.counters.count_p_all, calls.len() as u32);
    assert_eq!(rx.link.counters.count_b_all, total as u32);
    rx.dump_stats();
    receive(&mut rx, &[]);
    let c = rx.link.counters;
    assert_eq!((c.count_p_all, c.count_b_all, c.count_p_bad), (1, 0, 0));
}

#[test]
fn counters_of_a_block_with_noise_and_repeats() {
    let mut tx = transmitter(4, 7, 1);
    let mut rx = receiver(0);
    join(&mut rx, &tx);
    for round in 0..3u32 {
        let (payloads, out) = block(&mut tx, 10);
        let announcement = tx.send_session_key();
        let mut got = Vec::new();
        for i in [6, 6, 2, 4, 2, 0, 0, 1, 3, 5] {
            got.extend(receive(&mut rx, &out[i]));
            assert!(receive(&mut rx, &announcement).is_empty());
            assert_eq!(fault(&receive(&mut rx, &[7; 40])), RxFault::UnknownType(7));
        }
        assert_eq!(got.len(), 4);
        assert_eq!(payloads_of(&got), payloads);
        let c = rx.link.counters;
        // fragments 1 and 3 were rebuilt before they came
        assert_eq!(c.count_p_fec_recovered, 2 * (round + 1));
        assert_eq!((c.count_p_lost, c.count_p_bad), (0, 10 * (round + 1)));
        assert_eq!(rx.link.rx_ring_alloc, 0);
    }
}

#[test]
fn blocks_stand_in_order() {
    let mut tx = transmitter(3, 4, 1);
    let mut rx = receiver(0);
    join(&mut rx, &tx);
    let all: Vec<Vec<Vec<u8>>> = (0..60).map(|_| block(&mut tx, 1).1).collect();
    for i in [5usize, 2, 9, 9, 30, 7, 55, 54, 59] {
        receive(&mut rx, &all[i][1]);
        let l = &rx.link;
        let numbers: Vec<u64> = (0..l.rx_ring_alloc)
            .map(|j| l.rx_ring[(l.rx_ring_front + j) % 40].block_idx)
            .collect();
        assert!(numbers.windows(2).all(|w| w[0] < w[1]));
        assert!(numbers.last().map(|b| *b <= l.last_known_block).unwrap_or(true));
    }
}

#[test]
fn numbers_of_packets_increase() {
    let mut tx = transmitter(3, 5, 1);
    let mut last: Option<u64> = None;
    for i in 0..20usize {
        for p in send(&mut tx, &vec![1; i]) {
            let mut n = [0u8; 8];
            n.copy_from_slice(&p[1..9]);
            let n = u64::from_be_bytes(n);
            assert!(last.map(|l| l < n).unwrap_or(true));
            assert!(n % 256 < 5);
            last = Some(n);
        }
    }
    assert_eq!(last, Some(6 * 256 + 1));
}

#[test]
fn places_increase_for_any_fragments() {
    let mut rx = receiver(0);
    let tx = transmitter(3, 5, 1);
    join(&mut rx, &tx);
    // fragments that belong to no one stream, in no order
    let mut x: u32 = 7;
    for _ in 0..3000 {
        x = x.wrapping_mul(1664525).wrapping_add(1013904223);
        let nonce = ((x >> 24) as u64 / 3) << 8 | (x >> 12 & 7) as u64;
        let data = [(x >> 9 & 1) as u8, 0, (x >> 16 & 3) as u8, 1, 2, 3];
        rx.accept_fragment(nonce, &data, 0, &[0xff; 4], &[0; 4], &[0; 4], 0, 0, 20, None);
    }
    let mut last: Option<(u64, u8)> = None;
    let mut count = 0;
    for e in &rx.link.events {
        if let RxEvent::Payload { block_idx, fragment_idx, .. } = e {
            assert!(last.map(|l| l < (*block_idx, *fragment_idx)).unwrap_or(true));
            last = Some((*block_idx, *fragment_idx));
            count += 1;
        }
    }
    assert!(count > 3);
}
