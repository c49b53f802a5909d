use wfb_ng::radiotap::{
    ieee80211_get_radiotap_len, ieee80211_radiotap_iterator_init, ieee80211_radiotap_iterator_next,
    Ieee80211RadiotapNamespace, Ieee80211RadiotapVendorNamespaces, RadiotapAlignSize, EINVAL, ENOENT,
    IEEE80211_RADIOTAP_ANTENNA, IEEE80211_RADIOTAP_DBM_ANTSIGNAL, IEEE80211_RADIOTAP_FLAGS,
    IEEE80211_RADIOTAP_MCS, IEEE80211_RADIOTAP_TSFT, IEEE80211_RADIOTAP_TX_FLAGS,
    IEEE80211_RADIOTAP_VENDOR_NAMESPACE,
};
use wfb_ng::rx_capture::{parse_capture, CaptureError};
use wfb_ng::tx_frame::init_radiotap_header;

fn none() -> Ieee80211RadiotapVendorNamespaces {
    Ieee80211RadiotapVendorNamespaces { ns: Vec::new() }
}

/// A radiotap header with these bitmaps and fields.
fn header(bitmaps: &[u32], fields: &[u8]) -> Vec<u8> {
    let len = 4 + 4 * bitmaps.len() + fields.len();
    let mut out = vec![0u8, 0, len as u8, (len >> 8) as u8];
    for b in bitmaps {
        out.extend_from_slice(&b.to_le_bytes());
    }
    out.extend_from_slice(fields);
    out
}

fn walk(data: &[u8], vns: &Ieee80211RadiotapVendorNamespaces) -> (Vec<(i32, usize, i32)>, i32) {
    let mut it = ieee80211_radiotap_iterator_init(data, data.len() as i32).ok().unwrap();
    let mut found = Vec::new();
    loop {
        let rc = ieee80211_radiotap_iterator_next(&mut it, data, vns);
        if rc != 0 {
            return (found, rc);
        }
        found.push((it.this_arg_index, it.this_arg.unwrap(), it.this_arg_size));
    }
}

#[test]
fn header_length_is_little_endian() {
    assert_eq!(ieee80211_get_radiotap_len(&[0, 0, 0x0d, 0x01]), 0x010d);
}

#[test]
fn malformed_headers_are_refused() {
    let good = header(&[0], &[]);
    assert!(ieee80211_radiotap_iterator_init(&good, 8).is_ok());
    assert_eq!(ieee80211_radiotap_iterator_init(&good, 7).err(), Some(-EINVAL));
    let mut version = good.clone();
    version[0] = 1;
    assert_eq!(ieee80211_radiotap_iterator_init(&version, 8).err(), Some(-EINVAL));
    let mut long = good.clone();
    long[2] = 9;
    assert_eq!(ieee80211_radiotap_iterator_init(&long, 8).err(), Some(-EINVAL));
    let unfinished = header(&[0x8000_0000], &[]);
    assert_eq!(ieee80211_radiotap_iterator_init(&unfinished, 8).err(), Some(-EINVAL));
    let still_unfinished = header(&[0x8000_0000, 0x8000_0000], &[]);
    assert_eq!(ieee80211_radiotap_iterator_init(&still_unfinished, 12).err(), Some(-EINVAL));
}

#[test]
fn fields_are_aligned() {
    // flags, then TSFT would need eight bytes of alignment
    let data = header(&[(1 << 1) | (1 << 3) | (1 << 5)], &[0x10, 0, 0x71, 0x16, 0, 0, 0xce]);
    let (found, rc) = walk(&data, &none());
    assert_eq!(found, vec![(1, 8, 1), (3, 10, 4), (5, 14, 1)]);
    assert_eq!(rc, -ENOENT);
}

#[test]
fn fields_beyond_the_header_are_malformed() {
    let data = header(&[1 << IEEE80211_RADIOTAP_TSFT], &[0; 7]);
    let (found, rc) = walk(&data, &none());
    assert!(found.is_empty());
    assert_eq!(rc, -EINVAL);
}

#[test]
fn unknown_standard_field_ends_the_walk() {
    let data = header(&[(1 << 1) | (1 << 23)], &[7]);
    let (found, rc) = walk(&data, &none());
    assert_eq!(found, vec![(1, 8, 1)]);
    assert_eq!(rc, -ENOENT);
}

#[test]
fn own_frames_carry_transmit_flags() {
    for vht in [false, true] {
        let h = init_radiotap_header(1, true, true, 40, 3, vht, 2).ok().unwrap();
        let (found, rc) = walk(&h.header, &none());
        assert_eq!(rc, -ENOENT);
        assert_eq!(found[0].0, IEEE80211_RADIOTAP_TX_FLAGS);
        assert_eq!(found[1].0, if vht { 21 } else { IEEE80211_RADIOTAP_MCS });
        assert_eq!(found.len(), 2);
    }
}

#[test]
fn vendor_fields_are_skipped_or_walked() {
    let vendor_bitmap = (1u32 << 30) | (1 << 31);
    let fields = [0x00, 0x11, 0x22, 0x05, 3, 0, 0xaa, 0xbb, 0xcc];
    // not known: one field with its data
    let data = header(&[vendor_bitmap, 0], &fields);
    let (found, rc) = walk(&data, &none());
    assert_eq!(found, vec![(IEEE80211_RADIOTAP_VENDOR_NAMESPACE, 12, 9)]);
    assert_eq!(rc, -ENOENT);
    // known: its second field is found
    let known = Ieee80211RadiotapVendorNamespaces {
        ns: vec![Ieee80211RadiotapNamespace {
            align_size: vec![
                RadiotapAlignSize { align: 1, size: 1 },
                RadiotapAlignSize { align: 2, size: 2 },
            ],
            oui: 0x001122,
            subns: 5,
        }],
    };
    let data = header(&[vendor_bitmap, 0b10], &fields);
    let (found, rc) = walk(&data, &known);
    assert_eq!(found, vec![(1, 18, 2)]);
    assert_eq!(rc, -ENOENT);
}

fn captured(radiotap: Vec<u8>, payload: &[u8]) -> Vec<u8> {
    let mut frame = radiotap;
    frame.extend_from_slice(&[0u8; 24]);
    frame.extend_from_slice(payload);
    frame
}

#[test]
fn capture_of_one_antenna() {
    // flags, channel, signal, noise, antenna, MCS
    let bits = (1 << 1) | (1 << 3) | (1 << 5) | (1 << 6) | (1 << 11) | (1 << 19);
    let fields = [0u8, 0, 0x71, 0x16, 0x40, 0x01, 0xce, 0xa1, 2, 0x03, 0x01, 0x87];
    let frame = captured(header(&[bits], &fields), &[1, 2, 3, 4, 5]);
    let p = parse_capture(&frame).ok().unwrap();
    assert_eq!(p.payload, vec![1, 2, 3, 4, 5]);
    assert_eq!(p.info.freq, 0x1671);
    assert_eq!(p.info.antenna, [2, 0xff, 0xff, 0xff]);
    // signal and noise were read before the antenna
    assert_eq!(p.info.rssi, [-50, -128, -128, -128]);
    assert_eq!(p.info.noise, [-95, 127, 127, 127]);
    assert_eq!(p.info.mcs_index, 7);
    assert_eq!(p.info.bandwidth, 40);
}

#[test]
fn capture_of_two_antennas() {
    let first = (1u32 << IEEE80211_RADIOTAP_FLAGS) | (1 << 29) | (1 << 31);
    let second = (1u32 << IEEE80211_RADIOTAP_DBM_ANTSIGNAL) | (1 << IEEE80211_RADIOTAP_ANTENNA) | (1 << 29)
        | (1 << 31);
    let third = (1u32 << IEEE80211_RADIOTAP_DBM_ANTSIGNAL) | (1 << IEEE80211_RADIOTAP_ANTENNA);
    let fields = [0x10, 0xce, 0, 0xc4, 1];
    let mut payload = vec![9u8; 30];
    payload.extend_from_slice(&[0xfc; 4]);
    let frame = captured(header(&[first, second, third], &fields), &payload);
    let p = parse_capture(&frame).ok().unwrap();
    // the checksum behind the frame is cut off
    assert_eq!(p.payload, vec![9u8; 30]);
    assert_eq!(p.info.ant_idx, 2);
    assert_eq!(p.info.antenna, [0, 1, 0xff, 0xff]);
    assert_eq!(p.info.rssi, [-50, -60, -128, -128]);
}

#[test]
fn capture_of_a_vht_frame() {
    let mut fields = [0u8; 12];
    fields[0] = 0x40;
    fields[3] = 4;
    fields[4] = 0x93;
    let frame = captured(header(&[1 << 21], &fields), &[1]);
    let p = parse_capture(&frame).ok().unwrap();
    assert_eq!((p.info.bandwidth, p.info.mcs_index), (80, 9));
    fields[3] = 2;
    let frame = captured(header(&[1 << 21], &fields), &[1]);
    assert_eq!(parse_capture(&frame).ok().unwrap().info.bandwidth, 40);
    fields[0] = 0;
    let frame = captured(header(&[1 << 21], &fields), &[1]);
    assert_eq!(parse_capture(&frame).ok().unwrap().info.bandwidth, 20);
}

#[test]
fn captures_that_are_passed_over() {
    assert!(matches!(parse_capture(&[]), Err(CaptureError::NoRadiotapHeader)));
    let broken = captured(header(&[1 << 0], &[0; 7]), &[1, 2]);
    // the field runs past the header
    assert!(matches!(parse_capture(&broken), Err(CaptureError::BadRadiotapHeader)));
    let own = captured(header(&[1 << 15], &[8, 0]), &[1, 2]);
    assert!(matches!(parse_capture(&own), Err(CaptureError::SelfInjected)));
    let bad = captured(header(&[1 << 1], &[0x40]), &[1, 2]);
    assert!(matches!(parse_capture(&bad), Err(CaptureError::BadChecksum)));
    let short = captured(header(&[1 << 1], &[0]), &[]);
    assert!(matches!(parse_capture(&short), Err(CaptureError::ShortPacket)));
    let checksum_only = captured(header(&[1 << 1], &[0x10]), &[1, 2, 3, 4]);
    assert!(matches!(parse_capture(&checksum_only), Err(CaptureError::ShortPacket)));
}

#[test]
fn a_whole_walk_reports_the_set_bits() {
    // all standard fields but one, with room for them
    let bits: u32 = 0x007f_ffff & !(1 << 18);
    let data = header(&[bits], &[0; 100]);
    let (found, rc) = walk(&data, &none());
    assert_eq!(rc, -ENOENT);
    let numbers: Vec<i32> = found.iter().map(|f| f.0).collect();
    let want: Vec<i32> = (0..23).filter(|i| *i != 18).collect();
    assert_eq!(numbers, want);
    assert!(found.iter().all(|f| f.1 >= 8 && f.1 + f.2 as usize <= data.len()));
    assert_eq!(found[0], (0, 8, 8));
    assert_eq!(found[21], (22, 72, 12));
}

#[test]
fn a_field_past_the_end_is_still_noted() {
    let data = header(&[(1 << 1) | (1 << 22)], &[5, 0, 0, 0]);
    let mut it = ieee80211_radiotap_iterator_init(&data, data.len() as i32).ok().unwrap();
    assert_eq!(ieee80211_radiotap_iterator_next(&mut it, &data, &none()), 0);
    assert_eq!(ieee80211_radiotap_iterator_next(&mut it, &data, &none()), -EINVAL);
    assert_eq!((it.this_arg_index, it.this_arg, it.this_arg_size), (22, Some(16), 12));
}
