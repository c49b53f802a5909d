use wfb_ng::keygen::{key_files, keys_from_derived, keys_from_password, keys_from_seed, random_keys};
use wfb_ng::rx::{Aggregator, BaseAggregator};
use wfb_ng::rx_ring::RxEvent;
use wfb_ng::tx::TransmitterCore;
use wfb_ng::tx_cmd::{
    check_response, is_short_gi, CmdError, CmdGetFec, CmdGetRadio, CmdReq, CmdReqArgs, CmdResp,
    CmdRespArgs, RadioOptions, CMD_RESP_SIZE,
};
use wfb_ng::wfb_tun::{InPacketBuffer, OutPacketBuffer, TunError, TunState, MAX_TUN_PACKET, MTU};

#[test]
fn key_files_hold_own_secret_and_other_public_key() {
    let k = key_files(&[1; 32], &[2; 32], &[3; 32], &[4; 32]);
    assert_eq!(k.drone_key[..32], [2; 32]);
    assert_eq!(k.drone_key[32..], [3; 32]);
    assert_eq!(k.gs_key[..32], [4; 32]);
    assert_eq!(k.gs_key[32..], [1; 32]);
}

#[test]
fn keys_depend_on_the_seed() {
    let a = keys_from_seed(&[5; 64]);
    let b = keys_from_seed(&[5; 64]);
    assert_eq!((&a.drone_key, &a.gs_key), (&b.drone_key, &b.gs_key));
    let c = keys_from_seed(&[6; 64]);
    assert_ne!(a.drone_key, c.drone_key);
    // keys are not the seed
    assert_ne!(a.drone_key[..32], [5; 32]);
    // equal halves make equal keys
    assert_eq!(a.drone_key, a.gs_key);
}

fn talk(drone_key: &[u8], gs_key: &[u8]) -> bool {
    let tx = TransmitterCore::new(1, 2, drone_key, 0, 1, 0, Vec::new()).ok().unwrap();
    let mut rx = Aggregator::new(gs_key, 0, 1).unwrap();
    let events = rx.process_packet(
        &tx.send_session_key(),
        0,
        &[0xff; 4],
        &[0; 4],
        &[0; 4],
        0,
        0,
        20,
        None,
    );
    matches!(events[..], [RxEvent::Session { .. }])
}

#[test]
fn random_keys_fit_and_differ() {
    let a = random_keys();
    let b = random_keys();
    assert_eq!((a.drone_key.len(), a.gs_key.len()), (64, 64));
    assert_ne!(a.drone_key, b.drone_key);
    assert!(talk(&a.drone_key, &a.gs_key));
    assert!(talk(&a.gs_key, &a.drone_key));
    assert!(!talk(&a.drone_key, &b.gs_key));
}

#[test]
fn a_password_makes_the_same_keys_again() {
    let a = keys_from_password(b"secret").unwrap();
    let b = keys_from_password(b"secret").unwrap();
    let c = keys_from_password(b"Secret").unwrap();
    assert_eq!((&a.drone_key, &a.gs_key), (&b.drone_key, &b.gs_key));
    assert_ne!(a.drone_key, c.drone_key);
    assert_ne!(a.drone_key, a.gs_key);
    assert!(talk(&a.drone_key, &a.gs_key));
}

#[test]
fn a_derived_seed_makes_keys() {
    assert!(keys_from_derived(None).is_none());
    let seed: Vec<u8> = (0..64).collect();
    let direct = keys_from_seed(&seed);
    let derived = keys_from_derived(Some(seed)).unwrap();
    assert_eq!((direct.drone_key, direct.gs_key), (derived.drone_key, derived.gs_key));
}

#[test]
fn requests_on_the_wire() {
    let r = CmdReq::set_fec(0x01020304, None, Some(16));
    assert_eq!(r.to_bytes(), vec![1, 2, 3, 4, 1, 8, 16]);
    assert_eq!(CmdReq::get_fec(1).to_bytes(), vec![0, 0, 0, 1, 3]);
    assert_eq!(CmdReq::get_radio(2).to_bytes(), vec![0, 0, 0, 2, 4]);
    let mut o = RadioOptions {
        bandwidth: None,
        short_gi: None,
        stbc: None,
        ldpc: None,
        mcs_index: None,
        vht_nss: None,
        vht_mode: false,
    };
    assert_eq!(CmdReq::set_radio(0, &o).to_bytes(), vec![0, 0, 0, 0, 2, 0, 0, 0, 20, 1, 0, 1]);
    o.bandwidth = Some(80);
    o.short_gi = Some(true);
    o.stbc = Some(1);
    o.ldpc = Some(-3);
    o.mcs_index = Some(0x109);
    o.vht_nss = Some(2);
    assert_eq!(CmdReq::set_radio(0, &o).to_bytes(), vec![0, 0, 0, 0, 2, 1, 1, 1, 80, 9, 1, 2]);
    let z = CmdReq::zeroed();
    assert_eq!((z.req_id, z.cmd_id, z.u), (0, 0, CmdReqArgs::Nothing));
}

#[test]
fn responses_come_back() {
    let req = CmdReq::get_fec(77);
    let mut resp = CmdResp::zeroed();
    resp.req_id = 77;
    resp.u = CmdRespArgs::GetFec(CmdGetFec { k: 8, n: 12 });
    let bytes = resp.to_bytes();
    assert_eq!(bytes, vec![0, 0, 0, 77, 0, 0, 0, 0, 8, 12]);
    assert_eq!(check_response(&req, &bytes), Ok(resp));
    let radio = CmdGetRadio {
        stbc: 1,
        ldpc: true,
        short_gi: false,
        bandwidth: 40,
        mcs_index: 3,
        vht_mode: true,
        vht_nss: 2,
    };
    let resp = CmdResp { req_id: 5, rc: 0, u: CmdRespArgs::GetRadio(radio) };
    assert_eq!(resp.to_bytes().len(), CMD_RESP_SIZE);
    assert_eq!(check_response(&CmdReq::get_radio(5), &resp.to_bytes()), Ok(resp));
    let done = CmdResp { req_id: 6, rc: 0, u: CmdRespArgs::Nothing };
    assert_eq!(check_response(&CmdReq::set_fec(6, None, None), &done.to_bytes()), Ok(done));
}

#[test]
fn responses_that_are_not_taken() {
    let req = CmdReq::get_fec(77);
    let ok = CmdResp { req_id: 77, rc: 0, u: CmdRespArgs::GetFec(CmdGetFec { k: 8, n: 12 }) };
    let bytes = ok.to_bytes();
    assert_eq!(check_response(&req, &bytes[..7]), Err(CmdError::InvalidResponse));
    assert_eq!(check_response(&req, &bytes[..9]), Err(CmdError::InvalidResponse));
    assert_eq!(check_response(&CmdReq::get_fec(78), &bytes), Err(CmdError::InvalidResponse));
    assert_eq!(check_response(&CmdReq::set_fec(77, None, None), &bytes), Err(CmdError::InvalidResponse));
    let failed = CmdResp { req_id: 77, rc: 22, u: CmdRespArgs::Nothing };
    assert_eq!(check_response(&req, &failed.to_bytes()), Err(CmdError::Failed(22)));
}

#[test]
fn guard_intervals() {
    assert!(is_short_gi("s"));
    assert!(is_short_gi("Short"));
    assert!(!is_short_gi("long"));
    assert!(!is_short_gi(""));
}

#[test]
fn packets_cross_the_tunnel() {
    let mut b = InPacketBuffer::new();
    assert!(b.next_batch().is_none());
    b.add_packet(&[1, 2, 3]);
    b.add_packet(&[9; 300]);
    let datagram = b.next_batch().unwrap();
    assert_eq!(datagram[..5], [0, 3, 1, 2, 3]);
    assert_eq!(datagram[5..8], [1, 44, 9]);
    b.batch_sent();
    assert!(b.next_batch().is_none());
    let mut out = OutPacketBuffer::new();
    out.receive(&datagram);
    assert!(out.pending());
    assert_eq!(out.next_packet(), Ok(Some(vec![1, 2, 3])));
    out.packet_written();
    assert_eq!(out.next_packet(), Ok(Some(vec![9; 300])));
    // not written yet, so it comes again
    assert_eq!(out.next_packet(), Ok(Some(vec![9; 300])));
    out.packet_written();
    assert_eq!(out.next_packet(), Ok(None));
    assert!(!out.pending());
}

#[test]
fn a_packet_too_many_waits() {
    let mut b = InPacketBuffer::new();
    b.add_packet(&[1; 1000]);
    assert!(b.has_room());
    b.add_packet(&[2; MAX_TUN_PACKET]);
    assert!(!b.has_room());
    assert_eq!(b.next_batch().unwrap().len(), 1002);
    b.batch_sent();
    let rest = b.next_batch().unwrap();
    assert_eq!(rest.len(), MTU);
    assert_eq!(rest[2], 2);
}

#[test]
fn datagrams_that_are_no_packets() {
    let mut out = OutPacketBuffer::new();
    out.receive(&[0]);
    assert_eq!(out.next_packet(), Err(TunError::ShortHeader));
    out.receive(&[0, 2, 7]);
    assert_eq!(out.next_packet(), Err(TunError::ShortPayload));
    // a ping leaves it
    out.receive(&[]);
    assert_eq!(out.data, vec![0, 2, 7]);
}

#[test]
fn pings_fill_silence() {
    let ms: u64 = 1_000_000;
    let mut s = TunState::new(0, 5);
    assert_eq!(s.poll_timeout(0), 500);
    assert!(!s.ping_due(499 * ms));
    assert!(s.ping_due(500 * ms));
    assert!(!s.ping_due(501 * ms));
    // a packet waits for its deadline
    assert!(!s.tun_read(&[1], 600 * ms, false));
    assert_eq!(s.poll_timeout(601 * ms), 4);
    assert!(!s.flush_due(604 * ms));
    assert!(s.flush_due(605 * ms));
    assert!(!s.flush_due(606 * ms));
    assert_eq!(s.start_batch(), Some(vec![0, 1, 1]));
    s.finish_batch(false);
    assert!(s.pending_send);
    assert_eq!(s.start_batch(), Some(vec![0, 1, 1]));
    s.finish_batch(true);
    assert!(!s.pending_send);
    assert_eq!(s.start_batch(), None);
    // something was sent, so the next ping is not needed
    assert!(!s.ping_due(1000 * ms));
    assert!(s.ping_due(1500 * ms));
}

#[test]
fn without_a_delay_packets_go_at_once() {
    let mut s = TunState::new(0, 0);
    assert!(s.tun_read(&[1], 0, false));
    let mut s = TunState::new(0, 5);
    assert!(s.tun_read(&[1; MAX_TUN_PACKET], 0, false));
    assert_eq!(s.agg_deadline, None);
    let mut s = TunState::new(0, 5);
    assert!(s.tun_read(&[1], 0, true));
}
