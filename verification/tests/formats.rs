use wfb_ng::bytes::{from_be_bytes, order_of_one, to_be_bytes, ByteOrder};
use wfb_ng::wifibroadcast::{
    get_time_ms, get_time_us, unix_listen_address, unix_send_address, SocketPathError, TlvHdr, WblockHdr,
    WpacketHdr, Wrxfwd, WsessionData, WsessionHdr, IEEE80211_HEADER, MAX_FEC_PAYLOAD,
    MAX_FORWARDER_PACKET_SIZE, MAX_PAYLOAD_SIZE, MAX_PCAP_PACKET_SIZE, MCS_KNOWN, RADIOTAP_HEADER_HT,
    RADIOTAP_HEADER_VHT, WIFI_MTU,
};

#[test]
fn big_endian_numbers() {
    assert_eq!(to_be_bytes(0x0102, 2), vec![1, 2]);
    assert_eq!(to_be_bytes(0x0102030405060708, 8), vec![1, 2, 3, 4, 5, 6, 7, 8]);
    assert_eq!(from_be_bytes(&[9, 1, 2, 3, 4], 1, 4), 0x01020304);
    assert_eq!(from_be_bytes(&[0xff; 8], 0, 8), u64::MAX);
}

#[test]
fn byte_orders() {
    assert_eq!(order_of_one(&[1, 0]), ByteOrder::LittleEndian);
    assert_eq!(order_of_one(&[0, 1]), ByteOrder::BigEndian);
}

#[test]
fn forwarding_header_bytes() {
    let h = Wrxfwd {
        wlan_idx: 3,
        antenna: [0, 1, 0xff, 0xff],
        rssi: [-50, -60, -128, -128],
        noise: [-95, 127, 127, 127],
        freq: 5825,
        mcs_index: 1,
        bandwidth: 20,
    };
    let bytes = h.to_bytes();
    assert_eq!(
        bytes,
        vec![3, 0, 1, 255, 255, 206, 196, 128, 128, 161, 127, 127, 127, 0x16, 0xc1, 1, 20]
    );
    assert_eq!(Wrxfwd::from_bytes(&bytes), h);
}

#[test]
fn session_header_bytes() {
    let h = WsessionHdr { packet_type: 2, session_nonce: (0..24).collect() };
    let bytes = h.to_bytes();
    assert_eq!(bytes.len(), 25);
    assert_eq!(bytes[0], 2);
    assert_eq!(bytes[1..], (0..24).collect::<Vec<u8>>()[..]);
    assert_eq!(WsessionHdr::from_bytes(&bytes).session_nonce, h.session_nonce);
}

#[test]
fn session_data_bytes() {
    let d = WsessionData {
        epoch: 0x1122334455667788,
        channel_id: 0xaabbccdd,
        fec_type: 1,
        k: 8,
        n: 12,
        session_key: vec![7; 32],
    };
    let bytes = d.to_bytes();
    assert_eq!(bytes.len(), 47);
    assert_eq!(bytes[..8], [0x11, 0x22, 0x33, 0x44, 0x55, 0x66, 0x77, 0x88]);
    assert_eq!(bytes[8..15], [0xaa, 0xbb, 0xcc, 0xdd, 1, 8, 12]);
    assert_eq!(bytes[15..], [7; 32]);
    let back = WsessionData::from_bytes(&bytes);
    assert_eq!((back.epoch, back.channel_id), (d.epoch, d.channel_id));
    assert_eq!((back.fec_type, back.k, back.n), (1, 8, 12));
    assert_eq!(back.session_key, d.session_key);
}

#[test]
fn block_packet_and_tag_headers() {
    let b = WblockHdr { packet_type: 1, data_nonce: 0x0000000000000105 };
    assert_eq!(b.to_bytes(), vec![1, 0, 0, 0, 0, 0, 0, 1, 5]);
    assert_eq!(WblockHdr::from_bytes(&b.to_bytes()), b);
    let p = WpacketHdr { flags: 1, packet_size: 0x0203 };
    assert_eq!(p.to_bytes(), vec![1, 2, 3]);
    assert_eq!(WpacketHdr::from_bytes(&p.to_bytes()), p);
    let t = TlvHdr { id: 9, len: 0x0102 };
    assert_eq!(t.to_bytes(ByteOrder::LittleEndian), vec![9, 2, 1]);
    assert_eq!(t.to_bytes(ByteOrder::BigEndian), vec![9, 1, 2]);
}

#[test]
fn sizes_add_up() {
    assert_eq!(WIFI_MTU - IEEE80211_HEADER.len(), MAX_FORWARDER_PACKET_SIZE);
    assert_eq!(MAX_FORWARDER_PACKET_SIZE - 9 - 16, MAX_FEC_PAYLOAD);
    assert_eq!(MAX_FEC_PAYLOAD - 3, MAX_PAYLOAD_SIZE);
    assert_eq!(MAX_PCAP_PACKET_SIZE, 4301);
    assert_eq!(RADIOTAP_HEADER_HT[10], MCS_KNOWN);
    assert_eq!(RADIOTAP_HEADER_HT[2] as usize, RADIOTAP_HEADER_HT.len());
    assert_eq!(RADIOTAP_HEADER_VHT[2] as usize, RADIOTAP_HEADER_VHT.len());
}

#[test]
fn clock_times() {
    assert_eq!(get_time_ms(12, 345_678_901), 12_345);
    assert_eq!(get_time_us(12, 345_678_901), 12_345_678);
    assert_eq!(get_time_ms(0, 999_999_999), 999);
}

#[test]
fn socket_addresses() {
    let a = unix_listen_address(b"abc").ok().unwrap();
    assert_eq!(a.sun_path, vec![0, b'a', b'b', b'c']);
    assert_eq!(a.addr_len, 6);
    assert!(matches!(unix_listen_address(b"a\0b"), Err(SocketPathError::ContainsNull)));
    assert!(unix_listen_address(&[b'x'; 107]).is_ok());
    assert!(matches!(unix_listen_address(&[b'x'; 108]), Err(SocketPathError::TooLong)));
    assert!(unix_send_address(&[b'x'; 106]).is_ok());
    assert!(matches!(unix_send_address(&[b'x'; 107]), Err(SocketPathError::TooLong)));
    assert_eq!(unix_send_address(b"").ok().unwrap().sun_path, vec![0]);
}
