//! Putting packets of the link into frames, and the statistics of sending them.
use crate::block::{block_fragment, data_valid};
use crate::bytes::{append_bytes, be_bytes, be_value, to_be_bytes};
use crate::bytes::{lemma_be_len, lemma_be_round_trip, lemma_byte_range};
use crate::crypto::keys_agree;
use crate::tables::{pairs_of, table_pairs};
use crate::tx::{
    announced, announces, data_fragment, opens_to, packet_sent, payload_bytes, same_setup,
    sealed_fragment, tags_fit, tx_events_view, TagsItem, TransmitterCore, TxError, TxEvent, TxEventView, TxView,
};
use crate::wifibroadcast::{
    DST_MAC_THIRD_BYTE, FRAME_SEQ_HB, FRAME_SEQ_LB, IEEE80211_HEADER, IEEE80211_RADIOTAP_MCS_BW_20,
    IEEE80211_RADIOTAP_MCS_BW_40, IEEE80211_RADIOTAP_MCS_FEC_LDPC, IEEE80211_RADIOTAP_MCS_SGI,
    IEEE80211_RADIOTAP_VHT_BW_160M, IEEE80211_RADIOTAP_VHT_BW_20M, IEEE80211_RADIOTAP_VHT_BW_40M,
    IEEE80211_RADIOTAP_VHT_BW_80M, IEEE80211_RADIOTAP_VHT_CODING_LDPC_USER0,
    IEEE80211_RADIOTAP_VHT_FLAG_SGI, IEEE80211_RADIOTAP_VHT_FLAG_STBC, MAX_BLOCK_IDX,
    MAX_PAYLOAD_SIZE, MCS_FLAGS_OFF, MCS_IDX_OFF, RADIOTAP_HEADER_HT, RADIOTAP_HEADER_VHT,
    SRC_MAC_THIRD_BYTE, VHT_BW_OFF, VHT_CODING_OFF, VHT_FLAGS_OFF, VHT_MCSNSS0_OFF,
    WFB_PACKET_FEC_ONLY,
};
use std::collections::HashMap;
use vstd::prelude::*;

verus! {

/// A radiotap header and the settings that it stands for.
#[derive(Clone, Debug)]
pub struct RadiotapHeader {
    pub header: Vec<u8>,
    pub stbc: u8,
    pub ldpc: bool,
    pub short_gi: bool,
    pub bandwidth: u8,
    pub mcs_index: u8,
    pub vht_mode: bool,
    pub vht_nss: u8,
}

/// A setting that the radio does not have.
#[derive(Clone, Copy, Debug, PartialEq, Eq, Structural)]
pub enum RadioError {
    HtBandwidth(u8),
    HtStbc(u8),
    VhtBandwidth(u8),
}

/// The flags of an HT frame.
pub open spec fn ht_flags(stbc: u8, ldpc: bool, short_gi: bool, bandwidth: u8) -> u8 {
    ((if bandwidth == 40 {
        IEEE80211_RADIOTAP_MCS_BW_40
    } else {
        IEEE80211_RADIOTAP_MCS_BW_20
    }) + (if short_gi {
        IEEE80211_RADIOTAP_MCS_SGI
    } else {
        0
    }) + stbc * 32 + (if ldpc {
        IEEE80211_RADIOTAP_MCS_FEC_LDPC
    } else {
        0
    })) as u8
}

/// The flags of a VHT frame.
pub open spec fn vht_flags(stbc: u8, short_gi: bool) -> u8 {
    ((if short_gi {
        IEEE80211_RADIOTAP_VHT_FLAG_SGI
    } else {
        0
    }) + (if stbc > 0 {
        IEEE80211_RADIOTAP_VHT_FLAG_STBC
    } else {
        0
    })) as u8
}

/// The code of a VHT bandwidth.
pub open spec fn vht_bandwidth_code(bandwidth: u8) -> Option<u8> {
    if bandwidth == 10 || bandwidth == 20 {
        Some(IEEE80211_RADIOTAP_VHT_BW_20M)
    } else if bandwidth == 40 {
        Some(IEEE80211_RADIOTAP_VHT_BW_40M)
    } else if bandwidth == 80 {
        Some(IEEE80211_RADIOTAP_VHT_BW_80M)
    } else if bandwidth == 160 {
        Some(IEEE80211_RADIOTAP_VHT_BW_160M)
    } else {
        None
    }
}

/// The radiotap header for these settings, or the setting that is not to be had.
pub open spec fn radiotap_bytes(
    stbc: u8,
    ldpc: bool,
    short_gi: bool,
    bandwidth: u8,
    mcs_index: u8,
    vht_mode: bool,
    vht_nss: u8,
) -> Result<Seq<u8>, RadioError> {
    if !vht_mode {
        if !(bandwidth == 10 || bandwidth == 20 || bandwidth == 40) {
            Err(RadioError::HtBandwidth(bandwidth))
        } else if stbc > 3 {
            Err(RadioError::HtStbc(stbc))
        } else {
            Ok(
                RADIOTAP_HEADER_HT@.update(
                    MCS_FLAGS_OFF as int,
                    ht_flags(stbc, ldpc, short_gi, bandwidth),
                ).update(MCS_IDX_OFF as int, mcs_index),
            )
        }
    } else {
        match vht_bandwidth_code(bandwidth) {
            None => Err(RadioError::VhtBandwidth(bandwidth)),
            Some(code) => Ok(
                RADIOTAP_HEADER_VHT@.update(VHT_BW_OFF as int, code).update(
                    VHT_FLAGS_OFF as int,
                    vht_flags(stbc, short_gi),
                ).update(
                    VHT_MCSNSS0_OFF as int,
                    (mcs_index % 16 * 16 + vht_nss.wrapping_sub(1) % 16) as u8,
                ).update(
                    VHT_CODING_OFF as int,
                    if ldpc {
                        IEEE80211_RADIOTAP_VHT_CODING_LDPC_USER0
                    } else {
                        0
                    },
                ),
            ),
        }
    }
}

/// Makes the radiotap header for these settings.
pub fn init_radiotap_header(
    stbc: u8,
    ldpc: bool,
    short_gi: bool,
    bandwidth: u8,
    mcs_index: u8,
    vht_mode: bool,
    vht_nss: u8,
) -> (r: Result<RadiotapHeader, RadioError>)
    ensures
        match radiotap_bytes(stbc, ldpc, short_gi, bandwidth, mcs_index, vht_mode, vht_nss) {
            Ok(bytes) => {
                &&& r is Ok
                &&& r->Ok_0.header@ == bytes
                &&& r->Ok_0.stbc == stbc
                &&& r->Ok_0.ldpc == ldpc
                &&& r->Ok_0.short_gi == short_gi
                &&& r->Ok_0.bandwidth == bandwidth
                &&& r->Ok_0.mcs_index == mcs_index
                &&& r->Ok_0.vht_mode == vht_mode
                &&& r->Ok_0.vht_nss == vht_nss
            },
            Err(e) => r == Err::<RadiotapHeader, RadioError>(e),
        },
{
    let mut header: Vec<u8> = Vec::new();
    if !vht_mode {
        let mut flags: u8 = match bandwidth {
            10 | 20 => IEEE80211_RADIOTAP_MCS_BW_20,
            40 => IEEE80211_RADIOTAP_MCS_BW_40,
            _ => {
                return Err(RadioError::HtBandwidth(bandwidth));
            },
        };
        if short_gi {
            flags = flags + IEEE80211_RADIOTAP_MCS_SGI;
        }
        if stbc > 3 {
            return Err(RadioError::HtStbc(stbc));
        }
        flags = flags + stbc * 32;
        if ldpc {
            flags = flags + IEEE80211_RADIOTAP_MCS_FEC_LDPC;
        }
        append_bytes(&mut header, &RADIOTAP_HEADER_HT);
        header.set(MCS_FLAGS_OFF, flags);
        header.set(MCS_IDX_OFF, mcs_index);
        assert(header@ =~= RADIOTAP_HEADER_HT@.update(11, flags).update(12, mcs_index));
    } else {
        append_bytes(&mut header, &RADIOTAP_HEADER_VHT);
        let mut flags: u8 = 0;
        if short_gi {
            flags = flags + IEEE80211_RADIOTAP_VHT_FLAG_SGI;
        }
        if stbc > 0 {
            flags = flags + IEEE80211_RADIOTAP_VHT_FLAG_STBC;
        }
        let code: u8 = match bandwidth {
            10 | 20 => IEEE80211_RADIOTAP_VHT_BW_20M,
            40 => IEEE80211_RADIOTAP_VHT_BW_40M,
            80 => IEEE80211_RADIOTAP_VHT_BW_80M,
            160 => IEEE80211_RADIOTAP_VHT_BW_160M,
            _ => {
                return Err(RadioError::VhtBandwidth(bandwidth));
            },
        };
        header.set(VHT_BW_OFF, code);
        header.set(VHT_FLAGS_OFF, flags);
        let mcs_nss: u8 = mcs_index % 16 * 16 + vht_nss.wrapping_sub(1) % 16;
        header.set(VHT_MCSNSS0_OFF, mcs_nss);
        if ldpc {
            header.set(VHT_CODING_OFF, IEEE80211_RADIOTAP_VHT_CODING_LDPC_USER0);
        }
        assert(header@ =~= radiotap_bytes(
            stbc,
            ldpc,
            short_gi,
            bandwidth,
            mcs_index,
            vht_mode,
            vht_nss,
        )->Ok_0);
    }
    Ok(
        RadiotapHeader {
            header,
            stbc,
            ldpc,
            short_gi,
            bandwidth,
            mcs_index,
            vht_mode,
            vht_nss,
        },
    )
}

/// The IEEE 802.11 header of a frame: its channel is in the sender's and the receiver's address.
pub open spec fn ieee_header(frame_type: u8, channel_id: u32, seq: u16) -> Seq<u8> {
    seq![frame_type, 0x01u8, 0, 0, 0xff, 0xff, 0xff, 0xff, 0xff, 0xff, 0x57, 0x42] + be_bytes(
        channel_id as nat,
        4,
    ) + seq![0x57u8, 0x42] + be_bytes(channel_id as nat, 4) + seq![
        (seq % 256) as u8,
        (seq / 256) as u8,
    ]
}

/// Receivers of a channel tell its frames by the sender's address, and no other channel's.
pub proof fn lemma_header_names_channel(frame_type: u8, channel_id: u32, seq: u16)
    ensures
        ieee_header(frame_type, channel_id, seq).len() == 24,
        ieee_header(frame_type, channel_id, seq)[10] == 0x57,
        ieee_header(frame_type, channel_id, seq)[11] == 0x42,
        be_value(ieee_header(frame_type, channel_id, seq).subrange(12, 16)) == channel_id,
{
    lemma_byte_range();
    lemma_be_len(channel_id as nat, 4);
    lemma_be_round_trip(channel_id as nat, 4);
    assert(ieee_header(frame_type, channel_id, seq).subrange(12, 16) =~= be_bytes(
        channel_id as nat,
        4,
    ));
}

/// What goes out on the air: frames with their marks, and pauses.
#[derive(Clone, Debug, PartialEq, Eq)]
pub enum RadioEvent {
    Frame { packet: Vec<u8>, fwmark: u32, payload_len: usize },
    Delay(u32),
}

pub enum RadioEventView {
    Frame { packet: Seq<u8>, fwmark: u32, payload_len: int },
    Delay(u32),
}

impl View for RadioEvent {
    type V = RadioEventView;

    open spec fn view(&self) -> RadioEventView {
        match *self {
            RadioEvent::Frame { packet, fwmark, payload_len } => RadioEventView::Frame {
                packet: packet@,
                fwmark,
                payload_len: payload_len as int,
            },
            RadioEvent::Delay(d) => RadioEventView::Delay(d),
        }
    }
}

pub open spec fn radio_events_view(events: Seq<RadioEvent>) -> Seq<RadioEventView> {
    Seq::new(events.len(), |i: int| events[i]@)
}

/// What sending on an interface has come to.  Sums and counts wrap around.
#[derive(Clone, Copy, Debug, PartialEq, Eq, Structural)]
pub struct TxAntennaItem {
    pub count_p_injected: u32,
    pub count_b_injected: u32,
    pub count_p_dropped: u32,
    pub latency_sum: u64,
    pub latency_min: u64,
    pub latency_max: u64,
}

pub open spec fn nothing_sent() -> TxAntennaItem {
    TxAntennaItem {
        count_p_injected: 0,
        count_b_injected: 0,
        count_p_dropped: 0,
        latency_sum: 0,
        latency_min: 0,
        latency_max: 0,
    }
}

/// After a frame was handed over, in so much time, with or without success.
pub open spec fn handed_over(i: TxAntennaItem, latency: u64, succeeded: bool, packet_size: usize) -> TxAntennaItem {
    let first = i.count_p_injected.wrapping_add(i.count_p_dropped) == 0;
    TxAntennaItem {
        latency_min: if first || latency < i.latency_min {
            latency
        } else {
            i.latency_min
        },
        latency_max: if first || latency > i.latency_max {
            latency
        } else {
            i.latency_max
        },
        latency_sum: i.latency_sum.wrapping_add(latency),
        count_p_injected: if succeeded {
            i.count_p_injected.wrapping_add(1)
        } else {
            i.count_p_injected
        },
        count_b_injected: if succeeded {
            i.count_b_injected.wrapping_add(packet_size as u32)
        } else {
            i.count_b_injected
        },
        count_p_dropped: if succeeded {
            i.count_p_dropped
        } else {
            i.count_p_dropped.wrapping_add(1)
        },
    }
}

impl TxAntennaItem {
    pub fn new() -> (i: TxAntennaItem)
        ensures
            i == nothing_sent(),
    {
        TxAntennaItem {
            count_p_injected: 0,
            count_b_injected: 0,
            count_p_dropped: 0,
            latency_sum: 0,
            latency_min: 0,
            latency_max: 0,
        }
    }

    pub fn log_latency(&mut self, latency: u64, succeeded: bool, packet_size: usize)
        ensures
            *final(self) == handed_over(*old(self), latency, succeeded, packet_size),
    {
        if self.count_p_injected.wrapping_add(self.count_p_dropped) == 0 {
            self.latency_min = latency;
            self.latency_max = latency;
        } else {
            if latency < self.latency_min {
                self.latency_min = latency;
            }
            if latency > self.latency_max {
                self.latency_max = latency;
            }
        }
        self.latency_sum = self.latency_sum.wrapping_add(latency);
        if succeeded {
            self.count_p_injected = self.count_p_injected.wrapping_add(1);
            self.count_b_injected = self.count_b_injected.wrapping_add(packet_size as u32);
        } else {
            self.count_p_dropped = self.count_p_dropped.wrapping_add(1);
        }
    }
}

/// The sockets of the interfaces and the marks that are set on them.
pub struct RawSocketInjector {
    pub sockfds: Vec<i32>,
    pub fd_fwmarks: HashMap<i32, u32>,
    pub use_qdisc: bool,
}

/// Whether the mark of a socket has to be set before sending: marks count only where the queueing
/// discipline is in use.
pub open spec fn mark_due(marks: Map<i32, u32>, use_qdisc: bool, fd: i32, fwmark: u32) -> bool {
    use_qdisc && (if marks.contains_key(fd) {
        marks[fd]
    } else {
        0
    }) != fwmark
}

/// The error code of a full queue, which does not count as a failure.
pub const ENOBUFS: i32 = 105;

impl RawSocketInjector {
    /// Takes over open sockets, none of them marked.
    pub fn new(sockfds: Vec<i32>, use_qdisc: bool) -> (r: RawSocketInjector)
        ensures
            r.sockfds@ == sockfds@,
            r.use_qdisc == use_qdisc,
            forall|fd: i32| #[trigger]
                r.fd_fwmarks@.contains_key(fd) <==> sockfds@.contains(fd),
            forall|fd: i32| #[trigger]
                r.fd_fwmarks@.contains_key(fd) ==> r.fd_fwmarks@[fd] == 0,
    {
        broadcast use vstd::std_specs::hash::group_hash_axioms;

        let mut fd_fwmarks: HashMap<i32, u32> = HashMap::new();
        let mut i: usize = 0;
        while i < sockfds.len()
            invariant
                i <= sockfds@.len(),
                forall|fd: i32| #[trigger]
                    fd_fwmarks@.contains_key(fd) <==> sockfds@.take(i as int).contains(fd),
                forall|fd: i32| #[trigger]
                    fd_fwmarks@.contains_key(fd) ==> fd_fwmarks@[fd] == 0,
            decreases sockfds@.len() - i,
        {
            broadcast use vstd::std_specs::hash::group_hash_axioms;

            fd_fwmarks.insert(sockfds[i], 0);
            proof {
                let more = sockfds@.take(i + 1);
                assert(more =~= sockfds@.take(i as int).push(sockfds@[i as int]));
                assert(more[i as int] == sockfds@[i as int]);
                assert forall|fd: i32| #[trigger] fd_fwmarks@.contains_key(fd) <==> more.contains(fd) by {
                    if sockfds@.take(i as int).contains(fd) {
                        let j = choose|j: int| 0 <= j < i && sockfds@.take(i as int)[j] == fd;
                        assert(more[j] == fd);
                    }
                    if more.contains(fd) {
                        let j = choose|j: int| 0 <= j < i + 1 && more[j] == fd;
                        if j < i {
                            assert(sockfds@.take(i as int)[j] == fd);
                        }
                    }
                }
            }
            i = i + 1;
        }
        assert(sockfds@.take(i as int) =~= sockfds@);
        RawSocketInjector { sockfds, fd_fwmarks, use_qdisc }
    }

    /// Whether the mark of an interface's socket has to be set before sending.
    pub fn mark_needed(&self, wlan_idx: usize, fwmark: u32) -> (r: bool)
        requires
            wlan_idx < self.sockfds@.len(),
        ensures
            r == mark_due(
                self.fd_fwmarks@,
                self.use_qdisc,
                self.sockfds@[wlan_idx as int],
                fwmark,
            ),
    {
        broadcast use vstd::std_specs::hash::group_hash_axioms;

        let fd: i32 = self.sockfds[wlan_idx];
        let mark: u32 = match self.fd_fwmarks.get(&fd) {
            Some(m) => *m,
            None => 0,
        };
        self.use_qdisc && mark != fwmark
    }

    /// Notes that the mark of an interface's socket has been set.
    pub fn mark_set(&mut self, wlan_idx: usize, fwmark: u32)
        requires
            wlan_idx < old(self).sockfds@.len(),
        ensures
            final(self).fd_fwmarks@ == old(self).fd_fwmarks@.insert(
                old(self).sockfds@[wlan_idx as int],
                fwmark,
            ),
            final(self).sockfds == old(self).sockfds,
            final(self).use_qdisc == old(self).use_qdisc,
    {
        broadcast use vstd::std_specs::hash::group_hash_axioms;

        let fd: i32 = self.sockfds[wlan_idx];
        self.fd_fwmarks.insert(fd, fwmark);
    }

    /// Whether sending has failed, from what it returned and the error code.
    pub fn send_failed(rc: i64, errno: i32) -> (r: bool)
        ensures
            r == (rc < 0 && errno != ENOBUFS),
    {
        rc < 0 && errno != ENOBUFS
    }
}

/// After its mark has been set, a socket needs no mark until another one is asked for.
pub proof fn lemma_mark_stays(marks: Map<i32, u32>, use_qdisc: bool, fd: i32, fwmark: u32)
    ensures
        !mark_due(marks.insert(fd, fwmark), use_qdisc, fd, fwmark),
{
}

/// A transmitter that sends frames on network interfaces.
pub struct RawSocketTransmitter {
    pub core: TransmitterCore,
    pub channel_id: u32,
    pub current_output: i32,
    pub ieee80211_seq: u16,
    pub antenna_stat: HashMap<u64, TxAntennaItem>,
    pub radiotap_header: RadiotapHeader,
    pub frame_type: u8,
    pub use_qdisc: bool,
    pub fwmark_base: u32,
    pub fwmark: u32,
}

/// What numbering and marking frames goes by.
pub struct FrameView {
    pub radiotap: Seq<u8>,
    pub frame_type: u8,
    pub channel_id: u32,
    pub fwmark_base: u32,
    pub seq: u16,
    pub fwmark: u32,
}

/// The frame that carries a packet.
pub open spec fn frame_of(s: FrameView, packet: Seq<u8>) -> Seq<u8> {
    s.radiotap + ieee_header(s.frame_type, s.channel_id, s.seq) + packet
}

/// After an event.
pub open spec fn after_event(s: FrameView, e: TxEventView) -> FrameView {
    match e {
        TxEventView::SetMark(m) => FrameView { fwmark: s.fwmark_base.wrapping_add(m), ..s },
        TxEventView::Inject(_) => FrameView { seq: s.seq.wrapping_add(16), ..s },
        TxEventView::Delay(_) => s,
    }
}

/// After the first `i` events.
pub open spec fn after_events(s: FrameView, events: Seq<TxEventView>, i: int) -> FrameView
    decreases i,
{
    if i <= 0 {
        s
    } else {
        after_event(after_events(s, events, i - 1), events[i - 1])
    }
}

/// What goes out on the air for the first `i` events: each packet in a frame of its own, numbered
/// and marked.
pub open spec fn on_air(s: FrameView, events: Seq<TxEventView>, i: int) -> Seq<RadioEventView>
    decreases i,
{
    if i <= 0 {
        Seq::empty()
    } else {
        let now = after_events(s, events, i - 1);
        on_air(s, events, i - 1) + match events[i - 1] {
            TxEventView::SetMark(_) => Seq::empty(),
            TxEventView::Inject(p) => seq![
                RadioEventView::Frame {
                    packet: frame_of(now, p),
                    fwmark: now.fwmark,
                    payload_len: p.len() as int,
                },
            ],
            TxEventView::Delay(d) => seq![RadioEventView::Delay(d)],
        }
    }
}

impl RawSocketTransmitter {
    pub open spec fn wf(&self) -> bool {
        &&& self.core.wf()
        &&& self.core.channel_id == self.channel_id
    }

    pub open spec fn frame_view(&self) -> FrameView {
        FrameView {
            radiotap: self.radiotap_header.header@,
            frame_type: self.frame_type,
            channel_id: self.channel_id,
            fwmark_base: self.fwmark_base,
            seq: self.ieee80211_seq,
            fwmark: self.fwmark,
        }
    }

    /// All but the core and the numbering of frames is as before.
    pub open spec fn same_radio(&self, before: RawSocketTransmitter) -> bool {
        &&& self.channel_id == before.channel_id
        &&& self.current_output == before.current_output
        &&& self.antenna_stat@ == before.antenna_stat@
        &&& self.radiotap_header == before.radiotap_header
        &&& self.frame_type == before.frame_type
        &&& self.use_qdisc == before.use_qdisc
        &&& self.fwmark_base == before.fwmark_base
    }

    pub fn new(
        k: usize,
        n: usize,
        keypair: &[u8],
        epoch: u64,
        channel_id: u32,
        fec_delay: u32,
        tags: Vec<TagsItem>,
        radiotap_header: RadiotapHeader,
        frame_type: u8,
        use_qdisc: bool,
        fwmark_base: u32,
    ) -> (r: Result<RawSocketTransmitter, TxError>)
        requires
            1 <= (k as u16) <= (n as u16) < 256,
            tags_fit(tags@),
        ensures
            r is Err <==> keypair@.len() < 64 || !keys_agree(
                keypair@.subrange(32, 64),
                keypair@.subrange(0, 32),
            ),
            r matches Err(e) ==> e == (if keypair@.len() < 64 {
                TxError::KeyFile
            } else {
                TxError::SessionKey
            }),
            r matches Ok(t) ==> {
                &&& t.wf()
                &&& t.core@.k == k as u16
                &&& t.core@.n == n as u16
                &&& t.core@.block_idx == 0
                &&& t.core@.data == Seq::<Seq<u8>>::empty()
                &&& t.core@.epoch == epoch
                &&& t.core@.channel_id == channel_id
                &&& t.core@.fec_delay == fec_delay
                &&& t.core@.tx_secretkey == keypair@.subrange(0, 32)
                &&& t.core@.rx_publickey == keypair@.subrange(32, 64)
                &&& t.core@.tags == tags@
                &&& announces(t.core@.announcement, t.core@)
                &&& t.channel_id == channel_id
                &&& t.current_output == 0
                &&& t.ieee80211_seq == 0
                &&& t.antenna_stat@ == Map::<u64, TxAntennaItem>::empty()
                &&& t.radiotap_header == radiotap_header
                &&& t.frame_type == frame_type
                &&& t.use_qdisc == use_qdisc
                &&& t.fwmark_base == fwmark_base
                &&& t.fwmark == fwmark_base
            },
    {
        broadcast use vstd::std_specs::hash::group_hash_axioms;

        match TransmitterCore::new(k, n, keypair, epoch, channel_id, fec_delay, tags) {
            Err(e) => Err(e),
            Ok(core) => Ok(
                RawSocketTransmitter {
                    core,
                    channel_id,
                    current_output: 0,
                    ieee80211_seq: 0,
                    antenna_stat: HashMap::new(),
                    radiotap_header,
                    frame_type,
                    use_qdisc,
                    fwmark_base,
                    fwmark: fwmark_base,
                },
            ),
        }
    }

    fn set_mark(&mut self, idx: u32)
        ensures
            *final(self) == (RawSocketTransmitter {
                fwmark: old(self).fwmark_base.wrapping_add(idx),
                ..*old(self)
            }),
    {
        self.fwmark = self.fwmark_base.wrapping_add(idx);
    }

    /// Sends on interface `idx` from now on, or on all of them if it is negative.
    pub fn select_output(&mut self, idx: i32)
        ensures
            *final(self) == (RawSocketTransmitter { current_output: idx, ..*old(self) }),
    {
        self.current_output = idx;
    }

    pub fn update_radiotap_header(&mut self, header: RadiotapHeader)
        ensures
            *final(self) == (RawSocketTransmitter { radiotap_header: header, ..*old(self) }),
    {
        self.radiotap_header = header;
    }

    pub fn get_radiotap_header(&self) -> (h: RadiotapHeader)
        ensures
            h.header@ == self.radiotap_header.header@,
            h.stbc == self.radiotap_header.stbc,
            h.ldpc == self.radiotap_header.ldpc,
            h.short_gi == self.radiotap_header.short_gi,
            h.bandwidth == self.radiotap_header.bandwidth,
            h.mcs_index == self.radiotap_header.mcs_index,
            h.vht_mode == self.radiotap_header.vht_mode,
            h.vht_nss == self.radiotap_header.vht_nss,
    {
        let h = &self.radiotap_header;
        let header: Vec<u8> = crate::bytes::copy_range(&h.header, 0, h.header.len());
        assert(header@ =~= h.header@);
        RadiotapHeader {
            header,
            stbc: h.stbc,
            ldpc: h.ldpc,
            short_gi: h.short_gi,
            bandwidth: h.bandwidth,
            mcs_index: h.mcs_index,
            vht_mode: h.vht_mode,
            vht_nss: h.vht_nss,
        }
    }

    /// Puts a packet into the next frame.
    fn inject_packet(&mut self, buf: &[u8]) -> (packet: Vec<u8>)
        ensures
            packet@ == frame_of(old(self).frame_view(), buf@),
            *final(self) == (RawSocketTransmitter {
                ieee80211_seq: old(self).ieee80211_seq.wrapping_add(16),
                ..*old(self)
            }),
    {
        let mut header: Vec<u8> = Vec::new();
        append_bytes(&mut header, &IEEE80211_HEADER);
        header.set(0, self.frame_type);
        let channel: Vec<u8> = to_be_bytes(self.channel_id as u64, 4);
        let mut i: usize = 0;
        while i < 4
            invariant
                i <= 4,
                channel@.len() == 4,
                header@.len() == 24,
                header@[0] == self.frame_type,
                forall|j: int|
                    0 < j < 24 ==> #[trigger] header@[j] == (if 12 <= j < 12 + i {
                        channel@[j - 12]
                    } else if 18 <= j < 18 + i {
                        channel@[j - 18]
                    } else {
                        IEEE80211_HEADER@[j]
                    }),
            decreases 4 - i,
        {
            header.set(SRC_MAC_THIRD_BYTE + i, channel[i]);
            header.set(DST_MAC_THIRD_BYTE + i, channel[i]);
            i = i + 1;
        }
        header.set(FRAME_SEQ_LB, (self.ieee80211_seq % 256) as u8);
        header.set(FRAME_SEQ_HB, (self.ieee80211_seq / 256) as u8);
        assert(header@ =~= ieee_header(self.frame_type, self.channel_id, self.ieee80211_seq));
        let mut packet: Vec<u8> = Vec::new();
        append_bytes(&mut packet, &self.radiotap_header.header);
        append_bytes(&mut packet, &header);
        append_bytes(&mut packet, buf);
        assert(packet@ =~= frame_of(self.frame_view(), buf@));
        self.ieee80211_seq = self.ieee80211_seq.wrapping_add(16);
        packet
    }

    /// Puts what the core sends on the air.
    fn put_on_air(&mut self, events: &Vec<TxEvent>) -> (out: Vec<RadioEvent>)
        ensures
            radio_events_view(out@) == on_air(
                old(self).frame_view(),
                tx_events_view(events@),
                events@.len() as int,
            ),
            final(self).frame_view() == after_events(
                old(self).frame_view(),
                tx_events_view(events@),
                events@.len() as int,
            ),
            final(self).same_radio(*old(self)),
            final(self).core == old(self).core,
    {
        let ghost s = self.frame_view();
        let ghost all = tx_events_view(events@);
        let mut out: Vec<RadioEvent> = Vec::new();
        assert(radio_events_view(out@) =~= on_air(s, all, 0));
        let mut i: usize = 0;
        while i < events.len()
            invariant
                i <= events@.len(),
                all == tx_events_view(events@),
                radio_events_view(out@) == on_air(s, all, i as int),
                self.frame_view() == after_events(s, all, i as int),
                self.same_radio(*old(self)),
                self.core == old(self).core,
            decreases events@.len() - i,
        {
            let ghost before = radio_events_view(out@);
            assert(all[i as int] == events@[i as int]@);
            match &events[i] {
                TxEvent::SetMark(m) => {
                    self.set_mark(*m);
                    assert(before + Seq::<RadioEventView>::empty() =~= before);
                },
                TxEvent::Inject(p) => {
                    let fwmark: u32 = self.fwmark;
                    let packet: Vec<u8> = self.inject_packet(p);
                    let frame = RadioEvent::Frame { packet, fwmark, payload_len: p.len() };
                    out.push(frame);
                    assert(radio_events_view(out@) =~= before.push(frame@));
                    assert(before.push(frame@) =~= before + seq![frame@]);
                },
                TxEvent::Delay(d) => {
                    out.push(RadioEvent::Delay(*d));
                    assert(radio_events_view(out@) =~= before + seq![RadioEventView::Delay(*d)]);
                },
            }
            i = i + 1;
        }
        out
    }

    /// Takes in a payload and says what is to go out on the air for it.
    pub fn send_packet(&mut self, buf: Option<&[u8]>, flags: u8, out: &mut Vec<RadioEvent>) -> (r: Result<
        bool,
        TxError,
    >)
        requires
            old(self).wf(),
            buf matches Some(b) ==> b@.len() <= MAX_PAYLOAD_SIZE,
        ensures
            final(self).wf(),
            final(self).same_radio(*old(self)),
            ({
                let v = old(self).core@;
                let d = data_fragment(flags, payload_bytes(buf));
                let data = v.data.push(d);
                let next = final(self).core@;
                let last = v.data.len() + 1 == v.k && v.block_idx == MAX_BLOCK_IDX;
                let events = if v.data.len() == 0 && flags & WFB_PACKET_FEC_ONLY != 0 {
                    Seq::empty()
                } else {
                    packet_sent(v, d) + (if last && r is Ok {
                        announced(next.announcement, v.n - v.k + 1)
                    } else {
                        Seq::empty()
                    })
                };
                let s = old(self).frame_view();
                &&& radio_events_view(final(out)@) == on_air(s, events, events.len() as int)
                &&& final(self).frame_view() == after_events(s, events, events.len() as int)
                &&& !(v.data.len() == 0 && flags & WFB_PACKET_FEC_ONLY != 0) ==> {
                    &&& opens_to(v.session_key, sealed_fragment(v, v.data.len() as int, d), d)
                    &&& data_valid(data)
                    &&& v.data.len() + 1 == v.k ==> forall|f: int|
                        v.k <= f < v.n ==> opens_to(
                            v.session_key,
                            sealed_fragment(v, f, #[trigger] block_fragment(data, f)),
                            block_fragment(data, f),
                        )
                }
                &&& if v.data.len() == 0 && flags & WFB_PACKET_FEC_ONLY != 0 {
                    r == Ok::<bool, TxError>(false) && next == v
                } else if last {
                    &&& r == (if keys_agree(v.rx_publickey, v.tx_secretkey) {
                        Ok::<bool, TxError>(true)
                    } else {
                        Err::<bool, TxError>(TxError::SessionKey)
                    })
                    &&& same_setup(next, v)
                    &&& next.k == v.k
                    &&& next.n == v.n
                    &&& next.block_idx == 0
                    &&& next.data == Seq::<Seq<u8>>::empty()
                    &&& r is Ok ==> announces(next.announcement, next)
                } else {
                    &&& r == Ok::<bool, TxError>(true)
                    &&& next == (if v.data.len() + 1 < v.k {
                        TxView { data: v.data.push(d), ..v }
                    } else {
                        TxView { data: Seq::empty(), block_idx: (v.block_idx + 1) as u64, ..v }
                    })
                }
            }),
    {
        let ghost v = self.core@;
        let mut events: Vec<TxEvent> = Vec::new();
        assert(tx_events_view(events@) =~= Seq::empty());
        let r = self.core.send_packet(buf, flags, &mut events);
        proof {
            let d = data_fragment(flags, payload_bytes(buf));
            assert(Seq::<TxEventView>::empty() + packet_sent(v, d) =~= packet_sent(v, d));
            assert(packet_sent(v, d) + Seq::<TxEventView>::empty() =~= packet_sent(v, d));
        }
        *out = self.put_on_air(&events);
        r
    }

    /// The frame that announces the session.
    pub fn send_session_key(&mut self) -> (out: Vec<RadioEvent>)
        requires
            old(self).wf(),
        ensures
            final(self).wf(),
            final(self).same_radio(*old(self)),
            final(self).core == old(self).core,
            radio_events_view(out@) == seq![
                RadioEventView::Frame {
                    packet: frame_of(old(self).frame_view(), old(self).core@.announcement),
                    fwmark: old(self).fwmark,
                    payload_len: old(self).core@.announcement.len() as int,
                },
            ],
            final(self).ieee80211_seq == old(self).ieee80211_seq.wrapping_add(16),
            final(self).fwmark == old(self).fwmark,
    {
        let announcement: Vec<u8> = self.core.send_session_key();
        let fwmark: u32 = self.fwmark;
        let packet: Vec<u8> = self.inject_packet(&announcement);
        let mut out: Vec<RadioEvent> = Vec::new();
        let frame = RadioEvent::Frame { packet, fwmark, payload_len: announcement.len() };
        out.push(frame);
        assert(radio_events_view(out@) =~= seq![frame@]);
        out
    }

    /// Begins a new session.
    pub fn init_session(&mut self, k: usize, n: usize) -> (r: Result<(), TxError>)
        requires
            old(self).wf(),
            1 <= (k as u8) <= (n as u8),
        ensures
            final(self).wf(),
            final(self).same_radio(*old(self)),
            final(self).frame_view() == old(self).frame_view(),
            r is Ok <==> keys_agree(old(self).core@.rx_publickey, old(self).core@.tx_secretkey),
            r matches Err(e) ==> e == TxError::SessionKey,
            same_setup(final(self).core@, old(self).core@),
            final(self).core@.k == k as u8,
            final(self).core@.n == n as u8,
            final(self).core@.block_idx == 0,
            final(self).core@.data == Seq::<Seq<u8>>::empty(),
            r is Ok ==> announces(final(self).core@.announcement, final(self).core@),
    {
        self.core.init_session(k as u8, n as u8)
    }

    /// The first interface to send a frame on, of `count`.
    pub fn first_output(&self, count: usize) -> (r: Option<usize>)
        requires
            self.current_output < count,
        ensures
            r == (if self.current_output >= 0 {
                Some(self.current_output as usize)
            } else if count > 0 {
                Some(0usize)
            } else {
                None::<usize>
            }),
    {
        if self.current_output >= 0 {
            Some(self.current_output as usize)
        } else if count > 0 {
            Some(0)
        } else {
            None
        }
    }

    /// The interface to send a frame on after `idx`: the next one if frames go out on all of them
    /// and sending has not failed.
    pub fn next_output(&self, idx: usize, succeeded: bool, count: usize) -> (r: Option<usize>)
        requires
            idx < count,
        ensures
            r == (if self.current_output < 0 && succeeded && idx + 1 < count {
                Some((idx + 1) as usize)
            } else {
                None::<usize>
            }),
    {
        if self.current_output < 0 && succeeded && idx + 1 < count {
            Some(idx + 1)
        } else {
            None
        }
    }

    /// Enters the sending of a frame on interface `idx` into the statistics.
    pub fn log_injection(&mut self, idx: usize, latency: u64, succeeded: bool, payload_len: usize)
        requires
            idx <= 0xff_ffff_ffff_ffff,
        ensures
            ({
                let m = old(self).antenna_stat@;
                let key = (idx * 256 + 255) as u64;
                let before = if m.contains_key(key) {
                    m[key]
                } else {
                    nothing_sent()
                };
                final(self).antenna_stat@ == m.insert(
                    key,
                    handed_over(before, latency, succeeded, payload_len),
                )
            }),
            final(self).core == old(self).core,
            final(self).frame_view() == old(self).frame_view(),
            final(self).current_output == old(self).current_output,
            final(self).use_qdisc == old(self).use_qdisc,
            final(self).radiotap_header == old(self).radiotap_header,
    {
        broadcast use vstd::std_specs::hash::group_hash_axioms;

        let key: u64 = idx as u64 * 256 + 255;
        let mut item = match self.antenna_stat.get(&key) {
            Some(i) => *i,
            None => TxAntennaItem::new(),
        };
        item.log_latency(latency, succeeded, payload_len);
        self.antenna_stat.insert(key, item);
    }

    /// Reports the interfaces that have sent, adds to the counters and begins a new log interval.
    pub fn dump_stats(
        &mut self,
        injected_packets: &mut u32,
        dropped_packets: &mut u32,
        injected_bytes: &mut u32,
    ) -> (lines: Vec<TxAntReport>)
        ensures
            tx_report_of(lines@, old(self).antenna_stat@),
            *final(injected_packets) == sum_injected(
                lines@,
                *old(injected_packets),
                lines@.len() as int,
            ),
            *final(dropped_packets) == sum_dropped(
                lines@,
                *old(dropped_packets),
                lines@.len() as int,
            ),
            *final(injected_bytes) == sum_bytes(lines@, *old(injected_bytes), lines@.len() as int),
            final(self).antenna_stat@ == Map::<u64, TxAntennaItem>::empty(),
            final(self).core == old(self).core,
            final(self).frame_view() == old(self).frame_view(),
            final(self).current_output == old(self).current_output,
            final(self).use_qdisc == old(self).use_qdisc,
            final(self).radiotap_header == old(self).radiotap_header,
    {
        broadcast use vstd::std_specs::hash::group_hash_axioms;

        let lines = tx_antenna_report(&self.antenna_stat);
        let mut i: usize = 0;
        while i < lines.len()
            invariant
                i <= lines@.len(),
                *injected_packets == sum_injected(lines@, *old(injected_packets), i as int),
                *dropped_packets == sum_dropped(lines@, *old(dropped_packets), i as int),
                *injected_bytes == sum_bytes(lines@, *old(injected_bytes), i as int),
            decreases lines@.len() - i,
        {
            *injected_packets = injected_packets.wrapping_add(lines[i].count_p_injected);
            *dropped_packets = dropped_packets.wrapping_add(lines[i].count_p_dropped);
            *injected_bytes = injected_bytes.wrapping_add(lines[i].count_b_injected);
            i = i + 1;
        }
        self.antenna_stat.clear();
        lines
    }
}

/// The line of an interface in the report.
#[derive(Clone, Copy, Debug, PartialEq, Eq, Structural)]
pub struct TxAntReport {
    pub key: u64,
    pub count_p_injected: u32,
    pub count_p_dropped: u32,
    pub count_b_injected: u32,
    pub latency_min: u64,
    pub latency_avg: u64,
    pub latency_max: u64,
}

/// What the packets of the first `i` lines come to, on top of a count.
pub open spec fn sum_injected(lines: Seq<TxAntReport>, start: u32, i: int) -> u32
    decreases i,
{
    if i <= 0 {
        start
    } else {
        sum_injected(lines, start, i - 1).wrapping_add(lines[i - 1].count_p_injected)
    }
}

pub open spec fn sum_dropped(lines: Seq<TxAntReport>, start: u32, i: int) -> u32
    decreases i,
{
    if i <= 0 {
        start
    } else {
        sum_dropped(lines, start, i - 1).wrapping_add(lines[i - 1].count_p_dropped)
    }
}

pub open spec fn sum_bytes(lines: Seq<TxAntReport>, start: u32, i: int) -> u32
    decreases i,
{
    if i <= 0 {
        start
    } else {
        sum_bytes(lines, start, i - 1).wrapping_add(lines[i - 1].count_b_injected)
    }
}

/// The line of an interface.
pub open spec fn tx_line(key: u64, i: TxAntennaItem) -> TxAntReport {
    TxAntReport {
        key,
        count_p_injected: i.count_p_injected,
        count_p_dropped: i.count_p_dropped,
        count_b_injected: i.count_b_injected,
        latency_min: i.latency_min,
        latency_avg: i.latency_sum / (i.count_p_injected.wrapping_add(i.count_p_dropped) as u64),
        latency_max: i.latency_max,
    }
}

/// The lines of all interfaces that have sent, one for each, in any order.
pub open spec fn tx_report_of(lines: Seq<TxAntReport>, m: Map<u64, TxAntennaItem>) -> bool {
    &&& forall|i: int|
        0 <= i < lines.len() ==> {
            let k = (#[trigger] lines[i]).key;
            &&& m.contains_key(k)
            &&& m[k].count_p_injected.wrapping_add(m[k].count_p_dropped) != 0
            &&& lines[i] == tx_line(k, m[k])
        }
    &&& forall|i: int, j: int|
        0 <= i < j < lines.len() ==> (#[trigger] lines[i]).key != (#[trigger] lines[j]).key
    &&& forall|k: u64| #[trigger]
        m.contains_key(k) && m[k].count_p_injected.wrapping_add(m[k].count_p_dropped) != 0
            ==> exists|i: int| 0 <= i < lines.len() && (#[trigger] lines[i]).key == k
}

fn tx_antenna_report(antenna_stat: &HashMap<u64, TxAntennaItem>) -> (lines: Vec<TxAntReport>)
    ensures
        tx_report_of(lines@, antenna_stat@),
{
    broadcast use vstd::std_specs::hash::group_hash_axioms;

    let pairs = table_pairs(antenna_stat);
    let mut lines: Vec<TxAntReport> = Vec::new();
    let ghost m = antenna_stat@;
    let mut at: usize = 0;
    while at < pairs.len()
        invariant
            at <= pairs@.len(),
            pairs_of(pairs@, m),
            forall|i: int|
                0 <= i < lines@.len() ==> {
                    let k = (#[trigger] lines@[i]).key;
                    &&& m.contains_key(k)
                    &&& m[k].count_p_injected.wrapping_add(m[k].count_p_dropped) != 0
                    &&& lines@[i] == tx_line(k, m[k])
                },
            forall|i: int|
                0 <= i < lines@.len() ==> exists|j: int|
                    0 <= j < at && (#[trigger] pairs@[j]).0 == (#[trigger] lines@[i]).key,
            forall|i: int, j: int|
                0 <= i < j < lines@.len() ==> (#[trigger] lines@[i]).key != (#[trigger] lines@[j]).key,
            forall|j: int|
                0 <= j < at && (#[trigger] pairs@[j]).1.count_p_injected.wrapping_add(
                    pairs@[j].1.count_p_dropped,
                ) != 0 ==> exists|i: int|
                    0 <= i < lines@.len() && (#[trigger] lines@[i]).key == pairs@[j].0,
        decreases pairs@.len() - at,
    {
        let (key, item) = pairs[at];
        let ghost before = lines@;
        assert(m.contains_key(pairs@[at as int].0));
        let total: u32 = item.count_p_injected.wrapping_add(item.count_p_dropped);
        if total != 0 {
            lines.push(
                TxAntReport {
                    key,
                    count_p_injected: item.count_p_injected,
                    count_p_dropped: item.count_p_dropped,
                    count_b_injected: item.count_b_injected,
                    latency_min: item.latency_min,
                    latency_avg: item.latency_sum / (total as u64),
                    latency_max: item.latency_max,
                },
            );
        }
        proof {
            assert forall|i: int| 0 <= i < lines@.len() implies exists|j: int|
                0 <= j < at + 1 && (#[trigger] pairs@[j]).0 == (#[trigger] lines@[i]).key by {
                if i < before.len() {
                    let j = choose|j: int|
                        0 <= j < at && (#[trigger] pairs@[j]).0 == (#[trigger] before[i]).key;
                    assert(pairs@[j].0 == lines@[i].key);
                } else {
                    assert(pairs@[at as int].0 == lines@[i].key);
                }
            }
            assert forall|i: int, j: int| 0 <= i < j < lines@.len() implies (#[trigger] lines@[i]).key
                != (#[trigger] lines@[j]).key by {
                if j == before.len() {
                    let h = choose|h: int|
                        0 <= h < at && (#[trigger] pairs@[h]).0 == (#[trigger] before[i]).key;
                    assert(pairs@[h].0 != pairs@[at as int].0);
                }
            }
            assert forall|j: int|
                0 <= j < at + 1 && (#[trigger] pairs@[j]).1.count_p_injected.wrapping_add(
                    pairs@[j].1.count_p_dropped,
                ) != 0 implies exists|i: int|
                0 <= i < lines@.len() && (#[trigger] lines@[i]).key == pairs@[j].0 by {
                if j < at {
                    let i = choose|i: int|
                        0 <= i < before.len() && (#[trigger] before[i]).key == pairs@[j].0;
                    assert(lines@[i].key == pairs@[j].0);
                } else {
                    assert(lines@[before.len() as int].key == pairs@[j].0);
                }
            }
        }
        at = at + 1;
    }
    proof {
        assert forall|k: u64| #[trigger]
            m.contains_key(k) && m[k].count_p_injected.wrapping_add(m[k].count_p_dropped) != 0 implies exists|
            i: int,
        | 0 <= i < lines@.len() && (#[trigger] lines@[i]).key == k by {
            let j = choose|j: int| 0 <= j < pairs@.len() && (#[trigger] pairs@[j]).0 == k;
            assert(pairs@[j].1.count_p_injected.wrapping_add(pairs@[j].1.count_p_dropped) != 0);
        }
    }
    lines
}

} // verus!
