//! The frame formats of the link: constants and packet headers.
//!
//! A datagram on the air is a radiotap header, an IEEE 802.11 header and a packet of the link.  A
//! packet of the link announces a session or carries a sealed fragment of a block.
use crate::bytes::{ordered_bytes, ByteOrder};
use crate::bytes::{
    append_bytes, be_bytes, be_value, byte_of_i8, byte_to_i8, copy_range, from_be_bytes, i8_to_byte,
    to_be_bytes,
};
use crate::bytes::{lemma_be_bytes_of_value, lemma_be_len, lemma_be_round_trip, lemma_byte_range};
use crate::crypto::{AEAD_KEY_BYTES, BOX_NONCE_BYTES};
use vstd::prelude::*;

verus! {

pub const IEEE80211_RADIOTAP_MCS_HAVE_BW: u8 = 0x01;
pub const IEEE80211_RADIOTAP_MCS_HAVE_MCS: u8 = 0x02;
pub const IEEE80211_RADIOTAP_MCS_HAVE_GI: u8 = 0x04;
pub const IEEE80211_RADIOTAP_MCS_HAVE_FMT: u8 = 0x08;
pub const IEEE80211_RADIOTAP_MCS_HAVE_FEC: u8 = 0x10;
pub const IEEE80211_RADIOTAP_MCS_HAVE_STBC: u8 = 0x20;

pub const IEEE80211_RADIOTAP_MCS_BW_20: u8 = 0;
pub const IEEE80211_RADIOTAP_MCS_BW_40: u8 = 1;
pub const IEEE80211_RADIOTAP_MCS_BW_20L: u8 = 2;
pub const IEEE80211_RADIOTAP_MCS_BW_20U: u8 = 3;
pub const IEEE80211_RADIOTAP_MCS_SGI: u8 = 0x04;
pub const IEEE80211_RADIOTAP_MCS_FMT_GF: u8 = 0x08;

pub const IEEE80211_RADIOTAP_MCS_FEC_LDPC: u8 = 0x10;
pub const IEEE80211_RADIOTAP_MCS_STBC_MASK: u8 = 0x60;
pub const IEEE80211_RADIOTAP_MCS_STBC_1: u8 = 1;
pub const IEEE80211_RADIOTAP_MCS_STBC_2: u8 = 2;
pub const IEEE80211_RADIOTAP_MCS_STBC_3: u8 = 3;
pub const IEEE80211_RADIOTAP_MCS_STBC_SHIFT: u8 = 5;

pub const IEEE80211_RADIOTAP_VHT_FLAG_STBC: u8 = 0x01;
pub const IEEE80211_RADIOTAP_VHT_FLAG_SGI: u8 = 0x04;
pub const IEEE80211_RADIOTAP_VHT_MCS_MASK: u8 = 0xF0;
pub const IEEE80211_RADIOTAP_VHT_NSS_MASK: u8 = 0x0F;
pub const IEEE80211_RADIOTAP_VHT_MCS_SHIFT: u8 = 4;
pub const IEEE80211_RADIOTAP_VHT_NSS_SHIFT: u8 = 0;
pub const IEEE80211_RADIOTAP_VHT_BW_20M: u8 = 0x00;
pub const IEEE80211_RADIOTAP_VHT_BW_40M: u8 = 0x01;
pub const IEEE80211_RADIOTAP_VHT_BW_80M: u8 = 0x04;
pub const IEEE80211_RADIOTAP_VHT_BW_160M: u8 = 0x0B;
pub const IEEE80211_RADIOTAP_VHT_CODING_LDPC_USER0: u8 = 0x01;

/// The fields of the MCS element that are given: index, bandwidth, guard interval, STBC and FEC.
pub const MCS_KNOWN: u8 = 0x37;

/// Radiotap header for HT frames: version, length, presence, transmit flags, MCS.
pub const RADIOTAP_HEADER_HT: [u8; 13] = [
    0x00, 0x00, 0x0d, 0x00, 0x00, 0x80, 0x08, 0x00, 0x08, 0x00, 0x37, 0x00, 0x00,
];

/// Radiotap header for VHT frames: version, length, presence, transmit flags, then what is known,
/// flags, bandwidth, rate and streams of four users, coding, group and partial association.
pub const RADIOTAP_HEADER_VHT: [u8; 22] = [
    0x00, 0x00, 0x16, 0x00, 0x00, 0x80, 0x20, 0x00, 0x08, 0x00, 0x45, 0x00, 0x00, 0x04, 0x00, 0x00,
    0x00, 0x00, 0x00, 0x00, 0x00, 0x00,
];

pub const WIFI_MTU: usize = 4045;
pub const PACKET_INJECTION_TIMEOUT_MS: u64 = 5;
pub const MAX_RX_INTERFACES: usize = 8;

pub const MCS_FLAGS_OFF: usize = 11;
pub const MCS_IDX_OFF: usize = 12;

pub const VHT_FLAGS_OFF: usize = 12;
pub const VHT_BW_OFF: usize = 13;
pub const VHT_MCSNSS0_OFF: usize = 14;
pub const VHT_CODING_OFF: usize = 18;

pub const SRC_MAC_THIRD_BYTE: usize = 12;
pub const DST_MAC_THIRD_BYTE: usize = 18;
pub const FRAME_SEQ_LB: usize = 22;
pub const FRAME_SEQ_HB: usize = 23;

pub const FRAME_TYPE_DATA: u8 = 0x08;
pub const FRAME_TYPE_RTS: u8 = 0xb4;

pub const IEEE80211_HEADER_LEN: usize = 24;

/// Header of an IEEE 802.11 data frame, to everyone, from and to the addresses of the link.
pub const IEEE80211_HEADER: [u8; 24] = [
    0x08, 0x01, 0x00, 0x00, 0xFF, 0xFF, 0xFF, 0xFF, 0xFF, 0xFF, 0x57, 0x42, 0xaa, 0xbb, 0xcc, 0xdd,
    0x57, 0x42, 0xaa, 0xbb, 0xcc, 0xdd, 0x00, 0x00,
];

pub const BLOCK_IDX_MASK: u64 = 0x00ff_ffff_ffff_ffff;
pub const MAX_BLOCK_IDX: u64 = 0x007f_ffff_ffff_ffff;

pub const WFB_PACKET_DATA: u8 = 0x1;
pub const WFB_PACKET_SESSION: u8 = 0x2;
pub const WFB_FEC_VDM_RS: u8 = 0x1;
pub const WFB_PACKET_FEC_ONLY: u8 = 0x1;

pub const SESSION_KEY_ANNOUNCE_MSEC: u64 = 1000;
pub const RX_ANT_MAX: usize = 4;

/// Sizes of the headers on the wire.
pub const WRXFWD_SIZE: usize = 17;
pub const WSESSION_HDR_SIZE: usize = 25;
pub const WSESSION_DATA_SIZE: usize = 47;
pub const TLV_HDR_SIZE: usize = 3;
pub const WBLOCK_HDR_SIZE: usize = 9;
pub const WPACKET_HDR_SIZE: usize = 3;

/// What is left of a frame for a payload, for a fragment, and for a packet of the link.
pub const MAX_PAYLOAD_SIZE: usize = 3993;
pub const MAX_FEC_PAYLOAD: usize = 3996;
pub const MAX_FORWARDER_PACKET_SIZE: usize = 4021;
pub const MAX_SESSION_PACKET_SIZE: usize = 4021;
pub const MIN_DISTRIBUTION_PACKET_SIZE: usize = 41;
pub const MAX_DISTRIBUTION_PACKET_SIZE: usize = 4071;
pub const MAX_PCAP_PACKET_SIZE: usize = 4301;

/// The sizes are what the frame leaves after the headers around them.
pub proof fn lemma_packet_sizes()
    ensures
        MAX_FORWARDER_PACKET_SIZE == WIFI_MTU - IEEE80211_HEADER_LEN,
        MAX_SESSION_PACKET_SIZE == WIFI_MTU - IEEE80211_HEADER_LEN,
        MAX_FEC_PAYLOAD == MAX_FORWARDER_PACKET_SIZE - WBLOCK_HDR_SIZE
            - crate::crypto::AEAD_TAG_BYTES,
        MAX_PAYLOAD_SIZE == MAX_FEC_PAYLOAD - WPACKET_HDR_SIZE,
        MIN_DISTRIBUTION_PACKET_SIZE == 4 + RADIOTAP_HEADER_HT@.len() + IEEE80211_HEADER@.len(),
        MAX_DISTRIBUTION_PACKET_SIZE == 4 + RADIOTAP_HEADER_VHT@.len() + WIFI_MTU,
        MAX_PCAP_PACKET_SIZE == WIFI_MTU + 256,
        MCS_KNOWN == IEEE80211_RADIOTAP_MCS_HAVE_MCS + IEEE80211_RADIOTAP_MCS_HAVE_BW
            + IEEE80211_RADIOTAP_MCS_HAVE_GI + IEEE80211_RADIOTAP_MCS_HAVE_STBC
            + IEEE80211_RADIOTAP_MCS_HAVE_FEC,
{
}

/// What a forwarder puts in front of a packet: where and how it was heard.
#[derive(Clone, Copy, Debug, PartialEq, Eq)]
pub struct Wrxfwd {
    pub wlan_idx: u8,
    pub antenna: [u8; 4],
    pub rssi: [i8; 4],
    pub noise: [i8; 4],
    pub freq: u16,
    pub mcs_index: u8,
    pub bandwidth: u8,
}

/// The bytes of four signed numbers.
pub open spec fn i8_bytes(s: Seq<i8>) -> Seq<u8> {
    Seq::new(s.len(), |i: int| byte_of_i8(s[i]))
}

impl Wrxfwd {
    pub open spec fn bytes(&self) -> Seq<u8> {
        seq![self.wlan_idx] + self.antenna@ + i8_bytes(self.rssi@) + i8_bytes(self.noise@)
            + be_bytes(self.freq as nat, 2) + seq![self.mcs_index, self.bandwidth]
    }

    pub fn to_bytes(&self) -> (out: Vec<u8>)
        ensures
            out@ == self.bytes(),
            out@.len() == WRXFWD_SIZE,
    {
        let mut out: Vec<u8> = Vec::new();
        out.push(self.wlan_idx);
        append_bytes(&mut out, &self.antenna);
        let mut i: usize = 0;
        while i < 4
            invariant
                i <= 4,
                out@ == seq![self.wlan_idx] + self.antenna@ + i8_bytes(self.rssi@).take(i as int),
            decreases 4 - i,
        {
            out.push(i8_to_byte(self.rssi[i]));
            i = i + 1;
            assert(out@ =~= seq![self.wlan_idx] + self.antenna@ + i8_bytes(self.rssi@).take(
                i as int,
            ));
        }
        i = 0;
        while i < 4
            invariant
                i <= 4,
                out@ == seq![self.wlan_idx] + self.antenna@ + i8_bytes(self.rssi@) + i8_bytes(
                    self.noise@,
                ).take(i as int),
            decreases 4 - i,
        {
            out.push(i8_to_byte(self.noise[i]));
            i = i + 1;
            assert(out@ =~= seq![self.wlan_idx] + self.antenna@ + i8_bytes(self.rssi@) + i8_bytes(
                self.noise@,
            ).take(i as int));
        }
        let freq = to_be_bytes(self.freq as u64, 2);
        append_bytes(&mut out, &freq);
        out.push(self.mcs_index);
        out.push(self.bandwidth);
        assert(out@ =~= self.bytes());
        out
    }

    /// The header that begins these bytes.
    pub fn from_bytes(s: &[u8]) -> (h: Wrxfwd)
        requires
            s@.len() >= WRXFWD_SIZE,
        ensures
            h.bytes() == s@.take(WRXFWD_SIZE as int),
    {
        proof {
            lemma_byte_range();
        }
        let freq: u64 = from_be_bytes(s, 13, 2);
        let h = Wrxfwd {
            wlan_idx: s[0],
            antenna: [s[1], s[2], s[3], s[4]],
            rssi: [byte_to_i8(s[5]), byte_to_i8(s[6]), byte_to_i8(s[7]), byte_to_i8(s[8])],
            noise: [byte_to_i8(s[9]), byte_to_i8(s[10]), byte_to_i8(s[11]), byte_to_i8(s[12])],
            freq: freq as u16,
            mcs_index: s[15],
            bandwidth: s[16],
        };
        proof {
            lemma_be_bytes_of_value(s@.subrange(13, 15));
            lemma_be_len(freq as nat, 2);
            assert(h.bytes() =~= s@.take(17));
        }
        h
    }
}

/// Different forwarding headers have different bytes.
pub proof fn lemma_wrxfwd_injective(a: Wrxfwd, b: Wrxfwd)
    requires
        a.bytes() == b.bytes(),
    ensures
        a.wlan_idx == b.wlan_idx,
        a.antenna@ == b.antenna@,
        a.rssi@ == b.rssi@,
        a.noise@ == b.noise@,
        a.freq == b.freq,
        a.mcs_index == b.mcs_index,
        a.bandwidth == b.bandwidth,
{
    lemma_byte_range();
    lemma_be_len(a.freq as nat, 2);
    lemma_be_len(b.freq as nat, 2);
    lemma_be_round_trip(a.freq as nat, 2);
    lemma_be_round_trip(b.freq as nat, 2);
    let (x, y) = (a.bytes(), b.bytes());
    assert(x[0] == a.wlan_idx && y[0] == b.wlan_idx);
    assert(x.subrange(1, 5) =~= a.antenna@ && y.subrange(1, 5) =~= b.antenna@);
    assert(x.subrange(13, 15) =~= be_bytes(a.freq as nat, 2));
    assert(y.subrange(13, 15) =~= be_bytes(b.freq as nat, 2));
    assert(x[15] == a.mcs_index && y[15] == b.mcs_index);
    assert(x[16] == a.bandwidth && y[16] == b.bandwidth);
    assert forall|i: int| 0 <= i < 4 implies a.rssi@[i] == b.rssi@[i] && a.noise@[i] == b.noise@[i] by {
        assert(x[5 + i] == byte_of_i8(a.rssi@[i]) && y[5 + i] == byte_of_i8(b.rssi@[i]));
        assert(x[9 + i] == byte_of_i8(a.noise@[i]) && y[9 + i] == byte_of_i8(b.noise@[i]));
    }
    assert(a.rssi@ =~= b.rssi@);
    assert(a.noise@ =~= b.noise@);
}

/// What begins a session packet.
#[derive(Clone, Debug)]
pub struct WsessionHdr {
    pub packet_type: u8,
    pub session_nonce: Vec<u8>,
}

impl WsessionHdr {
    pub open spec fn bytes(&self) -> Seq<u8> {
        seq![self.packet_type] + self.session_nonce@
    }

    pub fn to_bytes(&self) -> (out: Vec<u8>)
        ensures
            out@ == self.bytes(),
    {
        let mut out: Vec<u8> = Vec::new();
        out.push(self.packet_type);
        append_bytes(&mut out, &self.session_nonce);
        assert(out@ =~= self.bytes());
        out
    }

    pub fn from_bytes(s: &[u8]) -> (h: WsessionHdr)
        requires
            s@.len() >= WSESSION_HDR_SIZE,
        ensures
            h.bytes() == s@.take(WSESSION_HDR_SIZE as int),
            h.packet_type == s@[0],
            h.session_nonce@ == s@.subrange(1, WSESSION_HDR_SIZE as int),
            h.session_nonce@.len() == BOX_NONCE_BYTES,
    {
        let h = WsessionHdr { packet_type: s[0], session_nonce: copy_range(s, 1, WSESSION_HDR_SIZE) };
        assert(h.bytes() =~= s@.take(25));
        h
    }
}

/// What a session packet seals: who may use the session, its code and its key.
#[derive(Clone, Debug)]
pub struct WsessionData {
    pub epoch: u64,
    pub channel_id: u32,
    pub fec_type: u8,
    pub k: u8,
    pub n: u8,
    pub session_key: Vec<u8>,
}

impl WsessionData {
    pub open spec fn bytes(&self) -> Seq<u8> {
        be_bytes(self.epoch as nat, 8) + be_bytes(self.channel_id as nat, 4) + seq![
            self.fec_type,
            self.k,
            self.n,
        ] + self.session_key@
    }

    pub fn to_bytes(&self) -> (out: Vec<u8>)
        ensures
            out@ == self.bytes(),
            out@.len() == 15 + self.session_key@.len(),
    {
        let mut out: Vec<u8> = to_be_bytes(self.epoch, 8);
        let channel = to_be_bytes(self.channel_id as u64, 4);
        append_bytes(&mut out, &channel);
        out.push(self.fec_type);
        out.push(self.k);
        out.push(self.n);
        append_bytes(&mut out, &self.session_key);
        assert(out@ =~= self.bytes());
        out
    }

    pub fn from_bytes(s: &[u8]) -> (d: WsessionData)
        requires
            s@.len() >= WSESSION_DATA_SIZE,
        ensures
            d.bytes() == s@.take(WSESSION_DATA_SIZE as int),
            d.session_key@.len() == AEAD_KEY_BYTES,
    {
        proof {
            lemma_byte_range();
        }
        let epoch: u64 = from_be_bytes(s, 0, 8);
        let channel: u64 = from_be_bytes(s, 8, 4);
        let d = WsessionData {
            epoch,
            channel_id: channel as u32,
            fec_type: s[12],
            k: s[13],
            n: s[14],
            session_key: copy_range(s, 15, WSESSION_DATA_SIZE),
        };
        proof {
            lemma_be_bytes_of_value(s@.subrange(0, 8));
            lemma_be_bytes_of_value(s@.subrange(8, 12));
            assert(d.bytes() =~= s@.take(47));
        }
        d
    }
}

/// Session data is read back as it was written.
pub proof fn lemma_wsession_data_injective(a: WsessionData, b: WsessionData)
    requires
        a.bytes() == b.bytes(),
    ensures
        a.epoch == b.epoch,
        a.channel_id == b.channel_id,
        a.fec_type == b.fec_type,
        a.k == b.k,
        a.n == b.n,
        a.session_key@ == b.session_key@,
{
    lemma_byte_range();
    lemma_be_len(a.epoch as nat, 8);
    lemma_be_len(b.epoch as nat, 8);
    lemma_be_len(a.channel_id as nat, 4);
    lemma_be_len(b.channel_id as nat, 4);
    lemma_be_round_trip(a.epoch as nat, 8);
    lemma_be_round_trip(b.epoch as nat, 8);
    lemma_be_round_trip(a.channel_id as nat, 4);
    lemma_be_round_trip(b.channel_id as nat, 4);
    let (x, y) = (a.bytes(), b.bytes());
    assert(x.subrange(0, 8) =~= be_bytes(a.epoch as nat, 8));
    assert(y.subrange(0, 8) =~= be_bytes(b.epoch as nat, 8));
    assert(x.subrange(8, 12) =~= be_bytes(a.channel_id as nat, 4));
    assert(y.subrange(8, 12) =~= be_bytes(b.channel_id as nat, 4));
    assert(x[12] == a.fec_type && y[12] == b.fec_type);
    assert(x[13] == a.k && y[13] == b.k);
    assert(x[14] == a.n && y[14] == b.n);
    assert(x.skip(15) =~= a.session_key@ && y.skip(15) =~= b.session_key@);
}

/// What begins a tag of a session: its number and the length of its value.
#[derive(Clone, Copy, Debug, PartialEq, Eq, Structural)]
pub struct TlvHdr {
    pub id: u8,
    pub len: u16,
}

impl TlvHdr {
    /// The length goes in the order of the machine that sends it.
    pub open spec fn bytes(&self, order: ByteOrder) -> Seq<u8> {
        seq![self.id] + ordered_bytes(self.len, order)
    }

    pub fn to_bytes(&self, order: ByteOrder) -> (out: Vec<u8>)
        ensures
            out@ == self.bytes(order),
    {
        let mut out: Vec<u8> = Vec::new();
        let low: u8 = (self.len % 256) as u8;
        let high: u8 = (self.len / 256) as u8;
        out.push(self.id);
        match order {
            ByteOrder::LittleEndian => {
                out.push(low);
                out.push(high);
            },
            ByteOrder::BigEndian => {
                out.push(high);
                out.push(low);
            },
        }
        assert(out@ =~= self.bytes(order));
        out
    }
}

/// What begins a data packet.  The nonce holds the block's index and the fragment's.
#[derive(Clone, Copy, Debug, PartialEq, Eq, Structural)]
pub struct WblockHdr {
    pub packet_type: u8,
    pub data_nonce: u64,
}

impl WblockHdr {
    pub open spec fn bytes(&self) -> Seq<u8> {
        seq![self.packet_type] + be_bytes(self.data_nonce as nat, 8)
    }

    pub fn to_bytes(&self) -> (out: Vec<u8>)
        ensures
            out@ == self.bytes(),
            out@.len() == WBLOCK_HDR_SIZE,
    {
        let mut out: Vec<u8> = Vec::new();
        out.push(self.packet_type);
        let nonce = to_be_bytes(self.data_nonce, 8);
        append_bytes(&mut out, &nonce);
        assert(out@ =~= self.bytes());
        out
    }

    pub fn from_bytes(s: &[u8]) -> (h: WblockHdr)
        requires
            s@.len() >= WBLOCK_HDR_SIZE,
        ensures
            h.bytes() == s@.take(WBLOCK_HDR_SIZE as int),
            h.packet_type == s@[0],
            h.data_nonce == be_value(s@.subrange(1, 9)),
    {
        let nonce: u64 = from_be_bytes(s, 1, 8);
        let h = WblockHdr { packet_type: s[0], data_nonce: nonce };
        proof {
            lemma_be_bytes_of_value(s@.subrange(1, 9));
            assert(h.bytes() =~= s@.take(9));
        }
        h
    }
}

pub proof fn lemma_wblock_hdr_injective(a: WblockHdr, b: WblockHdr)
    requires
        a.bytes() == b.bytes(),
    ensures
        a == b,
{
    lemma_byte_range();
    lemma_be_len(a.data_nonce as nat, 8);
    lemma_be_len(b.data_nonce as nat, 8);
    lemma_be_round_trip(a.data_nonce as nat, 8);
    lemma_be_round_trip(b.data_nonce as nat, 8);
    let (x, y) = (a.bytes(), b.bytes());
    assert(x[0] == a.packet_type && y[0] == b.packet_type);
    assert(x.skip(1) =~= be_bytes(a.data_nonce as nat, 8));
    assert(y.skip(1) =~= be_bytes(b.data_nonce as nat, 8));
}

/// What begins a fragment: flags and the size of the payload behind it.
#[derive(Clone, Copy, Debug, PartialEq, Eq, Structural)]
pub struct WpacketHdr {
    pub flags: u8,
    pub packet_size: u16,
}

impl WpacketHdr {
    pub open spec fn bytes(&self) -> Seq<u8> {
        seq![self.flags, (self.packet_size / 256) as u8, (self.packet_size % 256) as u8]
    }

    pub fn to_bytes(&self) -> (out: Vec<u8>)
        ensures
            out@ == self.bytes(),
            out@.len() == WPACKET_HDR_SIZE,
    {
        let mut out: Vec<u8> = Vec::new();
        out.push(self.flags);
        out.push((self.packet_size / 256) as u8);
        out.push((self.packet_size % 256) as u8);
        assert(out@ =~= self.bytes());
        out
    }

    pub fn from_bytes(s: &[u8]) -> (h: WpacketHdr)
        requires
            s@.len() >= WPACKET_HDR_SIZE,
        ensures
            h.bytes() == s@.take(WPACKET_HDR_SIZE as int),
            h.flags == s@[0],
            h.packet_size == s@[1] * 256 + s@[2],
    {
        let h = WpacketHdr { flags: s[0], packet_size: s[1] as u16 * 256 + s[2] as u16 };
        assert(h.bytes() =~= s@.take(3));
        h
    }
}

pub proof fn lemma_wpacket_hdr_injective(a: WpacketHdr, b: WpacketHdr)
    requires
        a.bytes() == b.bytes(),
    ensures
        a == b,
{
    let (x, y) = (a.bytes(), b.bytes());
    assert(x[0] == a.flags && y[0] == b.flags);
    assert(x[1] == y[1] && x[2] == y[2]);
}

/// The time in milliseconds of a clock that shows seconds and nanoseconds.
pub fn get_time_ms(tv_sec: u64, tv_nsec: u64) -> (ms: u64)
    ensures
        tv_sec * 1000 + tv_nsec / 1_000_000 <= u64::MAX ==> ms == tv_sec * 1000 + tv_nsec / 1_000_000,
        ms == tv_sec.wrapping_mul(1000).wrapping_add(tv_nsec / 1_000_000),
{
    tv_sec.wrapping_mul(1000).wrapping_add(tv_nsec / 1_000_000)
}

/// The time in microseconds of a clock that shows seconds and nanoseconds.
pub fn get_time_us(tv_sec: u64, tv_nsec: u64) -> (us: u64)
    ensures
        tv_sec * 1_000_000 + tv_nsec / 1_000 <= u64::MAX ==> us == tv_sec * 1_000_000 + tv_nsec / 1_000,
        us == tv_sec.wrapping_mul(1_000_000).wrapping_add(tv_nsec / 1_000),
{
    tv_sec.wrapping_mul(1_000_000).wrapping_add(tv_nsec / 1_000)
}

/// Bytes of a path in a Unix socket address.
pub const SUN_PATH_LEN: usize = 108;

/// Why a path cannot name a socket.
#[derive(Clone, Copy, Debug, PartialEq, Eq, Structural)]
pub enum SocketPathError {
    ContainsNull,
    TooLong,
}

/// An address in the abstract namespace: a zero byte and the path.
#[derive(Clone, Debug)]
pub struct UnixAddress {
    pub sun_path: Vec<u8>,
    /// The length of the address with its two bytes of family.
    pub addr_len: u32,
}

impl UnixAddress {
    pub open spec fn names(&self, path: Seq<u8>) -> bool {
        &&& self.sun_path@ == seq![0u8] + path
        &&& self.addr_len == path.len() + 3
    }
}

fn abstract_address(path: &[u8]) -> (a: UnixAddress)
    requires
        path@.len() < SUN_PATH_LEN,
    ensures
        a.names(path@),
{
    let mut sun_path: Vec<u8> = Vec::new();
    sun_path.push(0);
    append_bytes(&mut sun_path, path);
    assert(sun_path@ =~= seq![0u8] + path@);
    UnixAddress { sun_path, addr_len: (path.len() + 3) as u32 }
}

/// The address on which a socket with this path listens.
pub fn unix_listen_address(path: &[u8]) -> (r: Result<UnixAddress, SocketPathError>)
    ensures
        if path@.contains(0) {
            r == Err::<UnixAddress, _>(SocketPathError::ContainsNull)
        } else if path@.len() + 1 > SUN_PATH_LEN {
            r == Err::<UnixAddress, _>(SocketPathError::TooLong)
        } else {
            r is Ok && r->Ok_0.names(path@)
        },
{
    let mut i: usize = 0;
    while i < path.len()
        invariant
            i <= path@.len(),
            forall|j: int| 0 <= j < i ==> #[trigger] path@[j] != 0,
        decreases path@.len() - i,
    {
        if path[i] == 0 {
            assert(path@[i as int] == 0);
            return Err(SocketPathError::ContainsNull);
        }
        i = i + 1;
    }
    if path.len() >= SUN_PATH_LEN {
        return Err(SocketPathError::TooLong);
    }
    Ok(abstract_address(path))
}

/// The address to which datagrams for this path go.
pub fn unix_send_address(path: &[u8]) -> (r: Result<UnixAddress, SocketPathError>)
    ensures
        if path@.len() + 1 >= SUN_PATH_LEN {
            r == Err::<UnixAddress, _>(SocketPathError::TooLong)
        } else {
            r is Ok && r->Ok_0.names(path@)
        },
{
    if path.len() >= SUN_PATH_LEN - 1 {
        return Err(SocketPathError::TooLong);
    }
    Ok(abstract_address(path))
}

} // verus!
