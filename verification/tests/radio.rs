use wfb_ng::keygen::keys_from_seed;
use wfb_ng::run::{
    poll_action, resolve_rx, resolve_tx, ConfigError, LogTimer, PollAction, RxOptions, TxCounters,
    TxOptions,
};
use wfb_ng::rx::{Aggregator, BaseAggregator, RxMode};
use wfb_ng::rx_capture::{parse_capture, CaptureError};
use wfb_ng::rx_ring::RxEvent;
use wfb_ng::tx::TxError;
use wfb_ng::tx_frame::{
    init_radiotap_header, RadioError, RadioEvent, RawSocketInjector, RawSocketTransmitter,
    TxAntennaItem, ENOBUFS,
};
use wfb_ng::wifibroadcast::FRAME_TYPE_DATA;

fn transmitter(k: usize, n: usize) -> RawSocketTransmitter {
    let keys = keys_from_seed(&[3; 64]);
    let header = init_radiotap_header(0, false, false, 20, 1, false, 1).ok().unwrap();
    RawSocketTransmitter::new(
        k,
        n,
        &keys.drone_key,
        0,
        0x11223344,
        0,
        Vec::new(),
        header,
        FRAME_TYPE_DATA,
        true,
        50,
    )
    .ok()
    .unwrap()
}

#[test]
fn ht_headers() {
    let h = init_radiotap_header(0, false, false, 20, 1, false, 1).ok().unwrap();
    assert_eq!(h.header, vec![0, 0, 0x0d, 0, 0, 0x80, 0x08, 0, 0x08, 0, 0x37, 0, 1]);
    let h = init_radiotap_header(2, true, true, 40, 7, false, 1).ok().unwrap();
    assert_eq!(h.header[10..], [0x37, 0x01 | 0x04 | 0x10 | 0x40, 7]);
    assert_eq!((h.stbc, h.ldpc, h.short_gi, h.bandwidth, h.mcs_index), (2, true, true, 40, 7));
    assert_eq!(init_radiotap_header(0, false, false, 10, 1, false, 1).ok().unwrap().header[11], 0);
}

#[test]
fn vht_headers() {
    let h = init_radiotap_header(1, true, true, 80, 9, true, 2).ok().unwrap();
    assert_eq!(h.header.len(), 22);
    assert_eq!(h.header[12], 0x05);
    assert_eq!(h.header[13], 4);
    assert_eq!(h.header[14], 0x91);
    assert_eq!(h.header[18], 1);
    assert!(h.vht_mode);
    let plain = init_radiotap_header(0, false, false, 160, 0, true, 1).ok().unwrap();
    assert_eq!((plain.header[12], plain.header[13], plain.header[14], plain.header[18]), (0, 11, 0, 0));
}

#[test]
fn radio_settings_that_are_refused() {
    let ht = |bandwidth: u8, stbc: u8| init_radiotap_header(stbc, false, false, bandwidth, 1, false, 1).err();
    assert_eq!(ht(80, 0), Some(RadioError::HtBandwidth(80)));
    assert_eq!(ht(20, 4), Some(RadioError::HtStbc(4)));
    assert_eq!(ht(20, 3), None);
    assert_eq!(
        init_radiotap_header(0, false, false, 30, 1, true, 1).err(),
        Some(RadioError::VhtBandwidth(30))
    );
}

#[test]
fn frames_are_numbered_and_marked() {
    let mut tx = transmitter(1, 2);
    let mut out = Vec::new();
    assert_eq!(tx.send_packet(Some(b"hello"), 0, &mut out), Ok(true));
    let mut frames = Vec::new();
    for e in &out {
        match e {
            RadioEvent::Frame { packet, fwmark, payload_len } => {
                assert_eq!(packet.len(), 13 + 24 + payload_len);
                frames.push((packet.clone(), *fwmark));
            }
            RadioEvent::Delay(_) => panic!("no pause"),
        }
    }
    assert_eq!(frames.len(), 2);
    assert_eq!((frames[0].1, frames[1].1), (50, 51));
    let header = &frames[1].0[13..37];
    assert_eq!(
        header,
        [
            8, 1, 0, 0, 0xff, 0xff, 0xff, 0xff, 0xff, 0xff, 0x57, 0x42, 0x11, 0x22, 0x33, 0x44, 0x57, 0x42,
            0x11, 0x22, 0x33, 0x44, 16, 0
        ]
    );
    assert_eq!(frames[0].0[13 + 22], 0);
    assert_eq!(tx.ieee80211_seq, 32);
    tx.ieee80211_seq = 0xfff0;
    let announcement = tx.send_session_key();
    match &announcement[..] {
        [RadioEvent::Frame { packet, fwmark, payload_len }] => {
            assert_eq!(packet[13 + 22..13 + 24], [0xf0, 0xff]);
            assert_eq!(*fwmark, 51);
            assert_eq!(*payload_len, 88);
        }
        _ => panic!("one frame"),
    }
    assert_eq!(tx.ieee80211_seq, 0);
}

#[test]
fn own_frames_are_passed_over_and_others_are_heard() {
    let mut tx = transmitter(1, 1);
    let keys = keys_from_seed(&[3; 64]);
    let mut rx = Aggregator::new(&keys.gs_key, 0, 0x11223344).unwrap();
    let mut frames = tx.send_session_key();
    let mut more = Vec::new();
    tx.send_packet(Some(b"over the air"), 0, &mut more).ok();
    frames.extend(more);
    let mut got = Vec::new();
    for f in &frames {
        if let RadioEvent::Frame { packet, .. } = f {
            assert!(matches!(parse_capture(packet), Err(CaptureError::SelfInjected)));
            // another card captures it behind a header of its own
            let mut heard = vec![0, 0, 9, 0, 0x20, 0, 0, 0, 0xc8];
            heard.extend_from_slice(&packet[13..]);
            let p = parse_capture(&heard).ok().unwrap();
            let i = p.info;
            got.extend(rx.process_packet(
                &p.payload, 0, &i.antenna, &i.rssi, &i.noise, i.freq as u16, i.mcs_index, i.bandwidth, None,
            ));
        }
    }
    assert_eq!(got[1..], [RxEvent::Payload { block_idx: 0, fragment_idx: 0, payload: b"over the air".to_vec() }]);
}

#[test]
fn settings_of_a_transmitter_can_change() {
    let mut tx = transmitter(2, 3);
    assert_eq!(tx.core.get_fec(), (2, 3));
    assert_eq!(tx.init_session(4, 8), Ok(()));
    assert_eq!(tx.core.get_fec(), (4, 8));
    let header = init_radiotap_header(0, true, false, 40, 5, true, 2).ok().unwrap();
    tx.update_radiotap_header(header.clone());
    assert_eq!(tx.get_radiotap_header().header, header.header);
    assert_eq!(tx.get_radiotap_header().vht_nss, 2);
}

#[test]
fn bad_keys_make_no_transmitter() {
    let header = init_radiotap_header(0, false, false, 20, 1, false, 1).ok().unwrap();
    let t = RawSocketTransmitter::new(1, 2, &[1; 10], 0, 0, 0, Vec::new(), header, 8, false, 0);
    assert_eq!(t.err(), Some(TxError::KeyFile));
}

#[test]
fn outputs_are_chosen() {
    let mut tx = transmitter(1, 1);
    assert_eq!(tx.first_output(3), Some(0));
    assert_eq!(tx.next_output(0, true, 3), None);
    tx.select_output(2);
    assert_eq!(tx.first_output(3), Some(2));
    tx.select_output(-1);
    assert_eq!(tx.first_output(3), Some(0));
    assert_eq!(tx.next_output(0, true, 3), Some(1));
    assert_eq!(tx.next_output(1, false, 3), None);
    assert_eq!(tx.next_output(2, true, 3), None);
    assert_eq!(tx.first_output(0), None);
}

#[test]
fn sockets_keep_their_marks() {
    let mut inj = RawSocketInjector::new(vec![7, 8], true);
    assert!(!inj.mark_needed(0, 0));
    assert!(inj.mark_needed(1, 51));
    inj.mark_set(1, 51);
    assert!(!inj.mark_needed(1, 51));
    assert!(inj.mark_needed(1, 50));
    assert!(inj.mark_needed(0, 51));
    let bypass = RawSocketInjector::new(vec![7], false);
    assert!(!bypass.mark_needed(0, 51));
    assert!(RawSocketInjector::send_failed(-1, 5));
    assert!(!RawSocketInjector::send_failed(-1, ENOBUFS));
    assert!(!RawSocketInjector::send_failed(3, 5));
}

#[test]
fn sending_is_reported() {
    let mut tx = transmitter(1, 1);
    tx.log_injection(0, 30, true, 100);
    tx.log_injection(0, 10, true, 50);
    tx.log_injection(0, 22, false, 70);
    tx.log_injection(1, 5, true, 1);
    let mut counters = TxCounters::new();
    counters.count_payload(100, Ok(true));
    counters.count_payload(40, Ok(false));
    counters.count_payload(7, Err(TxError::SessionKey));
    assert_eq!((counters.count_p_incoming, counters.count_b_incoming), (3, 147));
    assert_eq!((counters.count_p_injected, counters.count_b_injected), (1, 100));
    let (mut lines, c) = counters.report(&mut tx);
    lines.sort_by_key(|l| l.key);
    assert_eq!(lines.len(), 2);
    assert_eq!((lines[0].key, lines[1].key), (0xff, 0x1ff));
    assert_eq!((lines[0].count_p_injected, lines[0].count_p_dropped), (2, 1));
    assert_eq!((lines[0].latency_min, lines[0].latency_avg, lines[0].latency_max), (10, 20, 30));
    assert_eq!((c.count_p_injected, c.count_b_injected, c.count_p_dropped), (4, 251, 1));
    assert_eq!(counters, TxCounters::new());
    assert!(tx.antenna_stat.is_empty());
    let mut item = TxAntennaItem::new();
    item.log_latency(4, false, 9);
    assert_eq!((item.latency_min, item.latency_max, item.count_b_injected), (4, 4, 0));
}

fn rx_options() -> RxOptions {
    RxOptions {
        forwarder: false,
        aggregator: None,
        client_port: None,
        radio_port: None,
        rcv_buf: None,
        snd_buf: None,
        log_interval: None,
        link_id: None,
        epoch: None,
        interfaces: 1,
    }
}

#[test]
fn settings_of_a_receiver() {
    let c = resolve_rx(&rx_options()).ok().unwrap();
    assert_eq!((c.rx_mode, c.client_port, c.log_interval, c.channel_id), (RxMode::Local, 5600, 1000, 0));
    let mut o = rx_options();
    o.link_id = Some(0xff123456);
    o.radio_port = Some(9);
    o.forwarder = true;
    let c = resolve_rx(&o).ok().unwrap();
    assert_eq!((c.rx_mode, c.channel_id), (RxMode::Forwarder, 0x12345609));
    o.interfaces = 0;
    assert_eq!(resolve_rx(&o).err(), Some(ConfigError::NoInterfaces));
    o.aggregator = Some(10000);
    let c = resolve_rx(&o).ok().unwrap();
    assert_eq!((c.rx_mode, c.srv_port), (RxMode::Aggregator, 10000));
}

fn tx_options() -> TxOptions {
    TxOptions {
        distributor: false,
        injector: false,
        k: None,
        n: None,
        udp_port: None,
        radio_port: None,
        fec_delay: None,
        log_interval: None,
        bandwidth: None,
        short_gi: false,
        stbc: None,
        ldpc: None,
        mcs_index: None,
        vht_nss: None,
        vht_mode: false,
        use_qdisc: false,
        link_id: None,
        epoch: None,
        interfaces: 1,
    }
}

#[test]
fn settings_of_a_transmitter() {
    let c = resolve_tx(&tx_options()).ok().unwrap();
    assert_eq!((c.k, c.n, c.udp_port, c.fec_delay), (8, 12, 5600, 0));
    assert_eq!((c.radiotap_header.bandwidth, c.radiotap_header.mcs_index), (20, 1));
    let mut o = tx_options();
    o.bandwidth = Some(80);
    o.ldpc = Some(1);
    let c = resolve_tx(&o).ok().unwrap();
    assert!(c.radiotap_header.vht_mode && c.radiotap_header.ldpc);
    o.bandwidth = Some(81);
    assert_eq!(resolve_tx(&o).err(), Some(ConfigError::Radio(RadioError::VhtBandwidth(81))));
    o.interfaces = 0;
    assert_eq!(resolve_tx(&o).err(), Some(ConfigError::NoInterfaces));
    o.injector = true;
    assert_eq!(resolve_tx(&o).err(), Some(ConfigError::UnsupportedMode));
}

#[test]
fn polling() {
    assert_eq!(poll_action(0), PollAction::Nothing);
    assert_eq!(poll_action(1), PollAction::Read);
    assert_eq!(poll_action(9), PollAction::Fail);
    assert_eq!(poll_action(0x20), PollAction::Fail);
    assert_eq!(poll_action(4), PollAction::Nothing);
}

#[test]
fn reports_keep_their_rhythm() {
    let mut t = LogTimer::new(1000, 300);
    assert_eq!(t.timeout(900), 100);
    assert_eq!(t.timeout(2000), 0);
    assert!(!t.due(999));
    assert!(t.due(1000));
    assert_eq!(t.log_send_ts, 1300);
    assert!(t.due(1950));
    assert_eq!(t.log_send_ts, 2200);
    assert!(!t.due(2199));
}
