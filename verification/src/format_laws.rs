//! Where the parts of packets are, byte by byte.
use crate::bytes::{be_bytes, byte_of_i8, i8_of_byte, le16, le32, ordered_bytes, ByteOrder};
use crate::bytes::{lemma_be4, lemma_be8, lemma_be_len, lemma_be_round_trip, lemma_byte_range};
use crate::bytes::lemma_be_value_last;
use crate::run::{no_tx_counts, POLLERR, POLLIN, POLLNVAL};
use crate::rx_ring::{no_counts, RX_RING_SIZE};
use crate::rx_stats::AF_INET;
use crate::tx::{
    data_fragment, payload_bytes, session_plaintext, tags_bytes, tags_fit, tags_size, TagsItem, TxView,
};
use crate::tx::lemma_tags_size;
use crate::tx_cmd::{CMD_GET_FEC, CMD_GET_RADIO, CMD_SET_FEC, CMD_SET_RADIO};
use crate::tx_frame::ENOBUFS;
use crate::wfb_tun::{framed, later, packet_at, TunError, MAX_TUN_PACKET, MTU, PING_INTERVAL_NS};
use crate::wifibroadcast::{
    TlvHdr, UnixAddress, WblockHdr, Wrxfwd, WsessionData, WsessionHdr, FRAME_TYPE_DATA,
    FRAME_TYPE_RTS, MAX_BLOCK_IDX, MAX_FEC_PAYLOAD, MAX_FORWARDER_PACKET_SIZE, MAX_PAYLOAD_SIZE,
    MAX_SESSION_PACKET_SIZE, SESSION_KEY_ANNOUNCE_MSEC, SUN_PATH_LEN,
};
use vstd::prelude::*;

verus! {

/// A signed number and its byte differ by a multiple of 256, and each gives the other back.
pub proof fn lemma_signed_bytes(v: i8, b: u8)
    ensures
        (byte_of_i8(v) - v) % 256 == 0,
        (i8_of_byte(b) - b) % 256 == 0,
        i8_of_byte(byte_of_i8(v)) == v,
        byte_of_i8(i8_of_byte(b)) == b,
{
}

/// The header of a forwarded packet: interface, four antennas, their signals, their noises, the
/// frequency, highest byte first, the rate and the bandwidth.
pub proof fn lemma_forward_layout(h: Wrxfwd)
    ensures
        ({
            let b = h.bytes();
            &&& b.len() == 17
            &&& b[0] == h.wlan_idx
            &&& forall|i: int| 0 <= i < 4 ==> #[trigger] b[1 + i] == h.antenna@[i]
            &&& forall|i: int| 0 <= i < 4 ==> i8_of_byte(#[trigger] b[5 + i]) == h.rssi@[i]
            &&& forall|i: int| 0 <= i < 4 ==> i8_of_byte(#[trigger] b[9 + i]) == h.noise@[i]
            &&& b[13] * 256 + b[14] == h.freq
            &&& b[15] == h.mcs_index
            &&& b[16] == h.bandwidth
        }),
{
    let b = h.bytes();
    let freq = be_bytes(h.freq as nat, 2);
    lemma_byte_range();
    lemma_be_len(h.freq as nat, 2);
    lemma_be_round_trip(h.freq as nat, 2);
    lemma_be_value_last(freq);
    lemma_be_value_last(freq.drop_last());
    assert(freq.drop_last().drop_last() =~= Seq::empty());
    assert(b[13] == freq[0] && b[14] == freq[1]);
    assert forall|i: int| 0 <= i < 4 implies i8_of_byte(#[trigger] b[5 + i]) == h.rssi@[i] by {
        assert(b[5 + i] == byte_of_i8(h.rssi@[i]));
    }
    assert forall|i: int| 0 <= i < 4 implies i8_of_byte(#[trigger] b[9 + i]) == h.noise@[i] by {
        assert(b[9 + i] == byte_of_i8(h.noise@[i]));
    }
}

/// The header of a session packet: its type and its nonce.
pub proof fn lemma_session_header_layout(h: WsessionHdr)
    ensures
        h.bytes().len() == 1 + h.session_nonce@.len(),
        h.bytes()[0] == h.packet_type,
        h.bytes().skip(1) == h.session_nonce@,
{
    assert(h.bytes().skip(1) =~= h.session_nonce@);
}

/// Session data: epoch and channel, highest bytes first, the code with its two numbers, and the key.
pub proof fn lemma_session_data_layout(d: WsessionData)
    ensures
        ({
            let b = d.bytes();
            &&& b.len() == 15 + d.session_key@.len()
            &&& (b[0] * 0x100_0000 + b[1] * 0x1_0000 + b[2] * 0x100 + b[3]) * 0x1_0000_0000 + (b[4]
                * 0x100_0000 + b[5] * 0x1_0000 + b[6] * 0x100 + b[7]) == d.epoch
            &&& b[8] * 0x100_0000 + b[9] * 0x1_0000 + b[10] * 0x100 + b[11] == d.channel_id
            &&& b[12] == d.fec_type
            &&& b[13] == d.k
            &&& b[14] == d.n
            &&& b.skip(15) == d.session_key@
        }),
{
    let b = d.bytes();
    lemma_be8(d.epoch as nat);
    lemma_be4(d.channel_id as nat);
    let e = be_bytes(d.epoch as nat, 8);
    let c = be_bytes(d.channel_id as nat, 4);
    assert(forall|i: int| 0 <= i < 8 ==> b[i] == e[i]);
    assert(forall|i: int| 0 <= i < 4 ==> b[8 + i] == c[i]);
    assert(b[8] == c[0] && b[9] == c[1] && b[10] == c[2] && b[11] == c[3]);
    assert(b.skip(15) =~= d.session_key@);
}

/// What is announced is the session data of the transmitter, for the one code that there is, and behind
/// it the tags.
pub proof fn lemma_announced_data(v: TxView, d: WsessionData)
    requires
        d.epoch == v.epoch,
        d.channel_id == v.channel_id,
        d.fec_type == 1,
        d.k == v.k as u8,
        d.n == v.n as u8,
        d.session_key@ == v.session_key,
    ensures
        session_plaintext(v) == d.bytes() + tags_bytes(v.tags, v.byte_order, v.tags.len() as int),
{
    assert(session_plaintext(v) =~= d.bytes() + tags_bytes(
        v.tags,
        v.byte_order,
        v.tags.len() as int,
    ));
}

/// The header of a data packet: its type and the number, highest byte first.
pub proof fn lemma_block_header_layout(h: WblockHdr)
    ensures
        ({
            let b = h.bytes();
            &&& b.len() == 9
            &&& b[0] == h.packet_type
            &&& (b[1] * 0x100_0000 + b[2] * 0x1_0000 + b[3] * 0x100 + b[4]) * 0x1_0000_0000 + (b[5]
                * 0x100_0000 + b[6] * 0x1_0000 + b[7] * 0x100 + b[8]) == h.data_nonce
        }),
{
    let b = h.bytes();
    lemma_be8(h.data_nonce as nat);
    let e = be_bytes(h.data_nonce as nat, 8);
    assert(forall|i: int| 0 <= i < 8 ==> b[1 + i] == e[i]);
    assert(b[1] == e[0] && b[2] == e[1] && b[3] == e[2] && b[4] == e[3]);
    assert(b[5] == e[4] && b[6] == e[5] && b[7] == e[6] && b[8] == e[7]);
}

/// A fragment: its flags, the size of its payload, highest byte first, and the payload.
pub proof fn lemma_fragment_layout(flags: u8, payload: Seq<u8>)
    requires
        payload.len() < 0x1_0000,
    ensures
        ({
            let d = data_fragment(flags, payload);
            &&& d.len() == 3 + payload.len()
            &&& d[0] == flags
            &&& d[1] * 256 + d[2] == payload.len()
            &&& d.skip(3) == payload
        }),
{
    assert(data_fragment(flags, payload).skip(3) =~= payload);
}

/// The two bytes of a number are its bytes, in the one order or in the other.
pub proof fn lemma_two_bytes(v: u16)
    ensures
        ordered_bytes(v, ByteOrder::LittleEndian).len() == 2,
        ordered_bytes(v, ByteOrder::BigEndian).len() == 2,
        ordered_bytes(v, ByteOrder::LittleEndian)[0] + 256 * ordered_bytes(
            v,
            ByteOrder::LittleEndian,
        )[1] == v,
        ordered_bytes(v, ByteOrder::BigEndian)[0] * 256 + ordered_bytes(v, ByteOrder::BigEndian)[1] == v,
{
}

proof fn lemma_tags_grow(tags: Seq<TagsItem>, order: ByteOrder, i: int, n: int)
    requires
        0 <= i <= n <= tags.len(),
    ensures
        tags_bytes(tags, order, i).len() <= tags_bytes(tags, order, n).len(),
        tags_bytes(tags, order, n).take(tags_bytes(tags, order, i).len() as int) == tags_bytes(
            tags,
            order,
            i,
        ),
    decreases n - i,
{
    if i < n {
        lemma_tags_grow(tags, order, i, n - 1);
        let (a, b, c) = (
            tags_bytes(tags, order, i),
            tags_bytes(tags, order, n - 1),
            tags_bytes(tags, order, n),
        );
        assert(c.take(a.len() as int) =~= b.take(a.len() as int));
    } else {
        let a = tags_bytes(tags, order, i);
        assert(a.take(a.len() as int) =~= a);
    }
}

/// Tags are read back one by one: behind the tags before it stand a tag's number, the length of its value
/// in the sender's byte order, and the value.
pub proof fn lemma_tags_read_back(tags: Seq<TagsItem>, order: ByteOrder, i: int, n: int)
    requires
        0 <= i < n <= tags.len(),
        tags[i].value@.len() < 0x1_0000,
    ensures
        ({
            let b = tags_bytes(tags, order, n);
            let at = tags_bytes(tags, order, i).len() as int;
            let len = tags[i].value@.len() as int;
            &&& at == tags_size(tags, i)
            &&& at + 3 + len <= b.len()
            &&& b[at] == tags[i].id
            &&& order == ByteOrder::LittleEndian ==> b[at + 1] + 256 * b[at + 2] == len
            &&& order == ByteOrder::BigEndian ==> b[at + 1] * 256 + b[at + 2] == len
            &&& b.subrange(at + 3, at + 3 + len) == tags[i].value@
            &&& tags_bytes(tags, order, i + 1).len() == at + 3 + len
        }),
{
    let b = tags_bytes(tags, order, n);
    let next = tags_bytes(tags, order, i + 1);
    let at = tags_bytes(tags, order, i).len() as int;
    let t = tags[i];
    let h = TlvHdr { id: t.id, len: t.value@.len() as u16 };
    lemma_tags_size(tags, order, i);
    lemma_tags_grow(tags, order, i + 1, n);
    lemma_two_bytes(h.len);
    let head = b.take(next.len() as int);
    assert(head == next);
    assert(h.bytes(order).len() == 3);
    assert(head[at] == t.id && head[at + 1] == ordered_bytes(h.len, order)[0] && head[at + 2]
        == ordered_bytes(h.len, order)[1]);
    assert(b[at] == head[at] && b[at + 1] == head[at + 1] && b[at + 2] == head[at + 2]);
    assert(head.subrange(at + 3, at + 3 + t.value@.len()) =~= t.value@);
    assert(b.subrange(at + 3, at + 3 + t.value@.len()) =~= head.subrange(
        at + 3,
        at + 3 + t.value@.len(),
    ));
}

/// A packet in the tunnel: its size, highest byte first, and its bytes.
pub proof fn lemma_tunnel_layout(p: Seq<u8>)
    requires
        p.len() < 0x1_0000,
    ensures
        framed(p).len() == 2 + p.len(),
        framed(p)[0] * 256 + framed(p)[1] == p.len(),
        framed(p).skip(2) == p,
{
    assert(framed(p).skip(2) =~= p);
}

/// An address in the abstract namespace: a zero byte, the path, and a length that counts them and the two
/// bytes of the family.
pub proof fn lemma_address_layout(a: UnixAddress, path: Seq<u8>)
    requires
        a.names(path),
    ensures
        a.sun_path@.len() == 1 + path.len(),
        a.sun_path@[0] == 0,
        a.sun_path@.skip(1) == path,
        a.addr_len == 2 + a.sun_path@.len(),
{
    assert(a.sun_path@.skip(1) =~= path);
}

/// The limits and the intervals of the link and of the tunnel.
pub proof fn lemma_limits()
    ensures
        MAX_PAYLOAD_SIZE == 3993,
        MAX_FEC_PAYLOAD == 3996,
        MAX_FORWARDER_PACKET_SIZE == 4021,
        MAX_SESSION_PACKET_SIZE == 4021,
        MAX_BLOCK_IDX == 0x007f_ffff_ffff_ffff,
        SESSION_KEY_ANNOUNCE_MSEC == 1000,
        RX_RING_SIZE == 40,
        MTU == 1445,
        MAX_TUN_PACKET == MTU - 2,
        PING_INTERVAL_NS == 500 * 1_000_000,
        CMD_SET_FEC == 1,
        CMD_SET_RADIO == 2,
        CMD_GET_FEC == 3,
        CMD_GET_RADIO == 4,
        SUN_PATH_LEN == 108,
        FRAME_TYPE_DATA == 0x08,
        FRAME_TYPE_RTS == 0xb4,
        AF_INET == 2,
        ENOBUFS == 105,
        POLLIN == 1,
        POLLERR == 8,
        POLLNVAL == 0x20,
{
}

/// Numbers with their lowest byte first: each further byte weighs 256 times as much.
pub proof fn lemma_little_endian(s: Seq<u8>, i: int)
    ensures
        le16(s, i) == s[i] + 256 * s[i + 1],
        le32(s, i) == s[i] + 256 * (s[i + 1] + 256 * (s[i + 2] + 256 * s[i + 3])),
{
}

/// Without a payload a fragment has no bytes behind its header.
pub proof fn lemma_payload_given(b: &[u8])
    ensures
        payload_bytes(Some(b)) == b@,
        payload_bytes(None).len() == 0,
{
}

/// Tags fit as long as they leave room in a session packet for the headers, the session data and what the
/// seal adds.
pub proof fn lemma_tags_room(tags: Seq<TagsItem>)
    ensures
        tags_fit(tags) <==> 25 + 16 + 47 + tags_size(tags, tags.len() as int) <= 4021,
{
}

/// A datagram that ends within a header or within a packet is not taken apart: with one byte left there is
/// no header, with fewer bytes behind the header than it states there is no packet.
pub proof fn lemma_datagram_cut(data: Seq<u8>, offset: int)
    requires
        0 <= offset,
    ensures
        offset >= data.len() ==> packet_at(data, offset) == Ok::<Option<Seq<u8>>, TunError>(None),
        offset + 1 == data.len() ==> packet_at(data, offset) == Err::<Option<Seq<u8>>, TunError>(
            TunError::ShortHeader,
        ),
        offset + 2 <= data.len() && data.len() - offset - 2 < data[offset] * 256 + data[offset + 1]
            ==> packet_at(data, offset) == Err::<Option<Seq<u8>>, TunError>(TunError::ShortPayload),
        packet_at(data, offset) matches Ok(Some(p)) ==> p.len() == data[offset] * 256 + data[offset + 1]
            && p == data.subrange(offset + 2, offset + 2 + p.len()),
{
}

/// A later time is as much later, up to the last time that there is.
pub proof fn lemma_later(now: u64, ns: u64)
    ensures
        now + ns <= u64::MAX ==> later(now, ns) == now + ns,
        now + ns > u64::MAX ==> later(now, ns) == u64::MAX,
{
}

/// A log interval begins with every counter at zero.
pub proof fn lemma_counts_begin()
    ensures
        no_counts().count_p_all == 0,
        no_counts().count_b_all == 0,
        no_counts().count_p_dec_err == 0,
        no_counts().count_p_session == 0,
        no_counts().count_p_data == 0,
        no_counts().count_p_fec_recovered == 0,
        no_counts().count_p_lost == 0,
        no_counts().count_p_bad == 0,
        no_counts().count_p_override == 0,
        no_counts().count_p_outgoing == 0,
        no_counts().count_b_outgoing == 0,
        no_tx_counts().count_p_incoming == 0,
        no_tx_counts().count_b_incoming == 0,
        no_tx_counts().count_p_injected == 0,
        no_tx_counts().count_b_injected == 0,
        no_tx_counts().count_p_dropped == 0,
{
}

} // verus!
