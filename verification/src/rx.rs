//! The receiver: packets of the link come in, payloads go out.
use crate::bytes::{be_value, bytes_equal, copy_range};
use crate::bytes::lemma_byte_range;
use crate::crypto::{
    aead_decrypt, aead_opened, box_open_easy, box_opened, generic_hash, keyed_hash, AEAD_KEY_BYTES,
    AEAD_TAG_BYTES, BOX_KEY_BYTES, BOX_MAC_BYTES, HASH_BYTES,
};
use crate::rx_ring::{
    events_view, fragment_received, new_link, no_counts, session_started, LinkView, RxCounters, RxEvent,
    RxEventView, RxFault, RxLink,
};
use crate::rx_stats::{
    antenna_report, log_rssi, reception_logged, report_of, stats_wf, Reception, RxAntReport,
    RxAntennaItem, SockaddrIn,
};
use crate::wifibroadcast::{
    WblockHdr, Wrxfwd, WsessionData, WsessionHdr, MAX_BLOCK_IDX, MAX_FEC_PAYLOAD,
    MAX_FORWARDER_PACKET_SIZE, MAX_SESSION_PACKET_SIZE, WBLOCK_HDR_SIZE, WFB_FEC_VDM_RS,
    WFB_PACKET_DATA, WFB_PACKET_SESSION, WPACKET_HDR_SIZE, WRXFWD_SIZE, WSESSION_DATA_SIZE,
    WSESSION_HDR_SIZE,
};
use std::collections::{HashMap, HashSet};
use vstd::prelude::*;

verus! {

/// Someone who wants to hear of lost packets.
pub trait PacketLossListener {
    fn on_packet_loss(&mut self, lost_count: u32, last_seq: u32, new_seq: u32);
}

/// The counters of a log interval and what was heard on each antenna.
#[derive(Clone, Debug)]
pub struct RxReport {
    pub antennas: Vec<RxAntReport>,
    pub counters: RxCounters,
    /// The number of different fragments.
    pub count_p_uniq: u32,
}

/// What takes in packets.
pub trait BaseAggregator {
    /// It is in order.
    spec fn valid(&self) -> bool;

    /// Takes in a packet and says what is to be done.
    fn process_packet(
        &mut self,
        buf: &[u8],
        wlan_idx: u8,
        antenna: &[u8; 4],
        rssi: &[i8; 4],
        noise: &[i8; 4],
        freq: u16,
        mcs_index: u8,
        bandwidth: u8,
        sockaddr: Option<SockaddrIn>,
    ) -> (events: Vec<RxEvent>)
        requires
            old(self).valid(),
        ensures
            final(self).valid(),
    ;

    /// Reports the log interval that ends, if there is anything to report, and begins a new one.
    fn dump_stats(&mut self) -> (report: Option<RxReport>)
        requires
            old(self).valid(),
        ensures
            final(self).valid(),
    ;
}

#[derive(Clone, Copy, Debug, PartialEq, Eq, Structural)]
pub enum RxMode {
    Local,
    Forwarder,
    Aggregator,
}

/// Hands packets on to an aggregator elsewhere.
pub struct Forwarder {}

impl Forwarder {
    pub fn new() -> (f: Forwarder)
        ensures
            f.valid(),
    {
        Forwarder {  }
    }
}

/// The datagram that carries a packet to an aggregator.
pub open spec fn forwarded(h: Wrxfwd, buf: Seq<u8>) -> Seq<u8> {
    h.bytes() + buf
}

impl BaseAggregator for Forwarder {
    open spec fn valid(&self) -> bool {
        true
    }

    fn process_packet(
        &mut self,
        buf: &[u8],
        wlan_idx: u8,
        antenna: &[u8; 4],
        rssi: &[i8; 4],
        noise: &[i8; 4],
        freq: u16,
        mcs_index: u8,
        bandwidth: u8,
        sockaddr: Option<SockaddrIn>,
    ) -> (events: Vec<RxEvent>)
        ensures
            events_view(events@) == seq![
                RxEventView::Forward(
                    forwarded(
                        (Wrxfwd {
                            wlan_idx,
                            antenna: *antenna,
                            rssi: *rssi,
                            noise: *noise,
                            freq,
                            mcs_index,
                            bandwidth,
                        }),
                        buf@,
                    ),
                ),
            ],
    {
        let header = Wrxfwd {
            wlan_idx,
            antenna: *antenna,
            rssi: *rssi,
            noise: *noise,
            freq,
            mcs_index,
            bandwidth,
        };
        let mut datagram: Vec<u8> = header.to_bytes();
        crate::bytes::append_bytes(&mut datagram, buf);
        let mut events: Vec<RxEvent> = Vec::new();
        events.push(RxEvent::Forward(datagram));
        assert(events_view(events@) =~= seq![RxEventView::Forward(forwarded(header, buf@))]);
        events
    }

    fn dump_stats(&mut self) -> (report: Option<RxReport>)
        ensures
            report is None,
    {
        None
    }
}

/// Takes a forwarded datagram apart; one that is too short for its header is none.
pub fn parse_forwarded(datagram: &[u8]) -> (r: Option<(Wrxfwd, Vec<u8>)>)
    ensures
        r is None <==> datagram@.len() < WRXFWD_SIZE,
        r matches Some(p) ==> datagram@ == forwarded(p.0, p.1@),
{
    if datagram.len() < WRXFWD_SIZE {
        return None;
    }
    let header = Wrxfwd::from_bytes(datagram);
    let payload = copy_range(datagram, WRXFWD_SIZE, datagram.len());
    assert(datagram@ =~= header.bytes() + payload@);
    Some((header, payload))
}

/// A forwarded packet comes out as it went in.
pub proof fn lemma_forwarded_round_trip(a: Wrxfwd, p: Seq<u8>, b: Wrxfwd, q: Seq<u8>)
    requires
        forwarded(a, p) == forwarded(b, q),
    ensures
        a.wlan_idx == b.wlan_idx,
        a.antenna@ == b.antenna@,
        a.rssi@ == b.rssi@,
        a.noise@ == b.noise@,
        a.freq == b.freq,
        a.mcs_index == b.mcs_index,
        a.bandwidth == b.bandwidth,
        p == q,
{
    crate::bytes::lemma_be_len(a.freq as nat, 2);
    crate::bytes::lemma_be_len(b.freq as nat, 2);
    assert(forwarded(a, p).take(17) =~= a.bytes());
    assert(forwarded(b, q).take(17) =~= b.bytes());
    crate::wifibroadcast::lemma_wrxfwd_injective(a, b);
    assert(forwarded(a, p).skip(17) =~= p);
    assert(forwarded(b, q).skip(17) =~= q);
}

/// Opens packets, puts blocks together and hands their payloads on.
pub struct Aggregator {
    pub link: RxLink,
    pub antenna_stat: HashMap<u128, RxAntennaItem>,
    pub count_p_uniq: HashSet<u64>,
    pub session_hash: Vec<u8>,
    pub epoch: u64,
    pub channel_id: u32,
    pub rx_secretkey: Vec<u8>,
    pub tx_publickey: Vec<u8>,
    pub session_key: Vec<u8>,
}

/// The same in mathematical terms.
pub struct AggregatorView {
    pub link: LinkView,
    pub antennas: Map<u128, RxAntennaItem>,
    pub uniq: Set<u64>,
    pub session_hash: Seq<u8>,
    pub epoch: u64,
    pub channel_id: u32,
    pub rx_secretkey: Seq<u8>,
    pub tx_publickey: Seq<u8>,
    pub session_key: Seq<u8>,
}

impl View for Aggregator {
    type V = AggregatorView;

    open spec fn view(&self) -> AggregatorView {
        AggregatorView {
            link: self.link@,
            antennas: self.antenna_stat@,
            uniq: self.count_p_uniq@,
            session_hash: self.session_hash@,
            epoch: self.epoch,
            channel_id: self.channel_id,
            rx_secretkey: self.rx_secretkey@,
            tx_publickey: self.tx_publickey@,
            session_key: self.session_key@,
        }
    }
}

/// With other counters.
pub open spec fn counted(a: AggregatorView, c: RxCounters) -> AggregatorView {
    AggregatorView { link: LinkView { counters: c, ..a.link }, ..a }
}

/// After a bad packet.
pub open spec fn bad_packet(a: AggregatorView) -> AggregatorView {
    let c = a.link.counters;
    counted(a, RxCounters { count_p_bad: c.count_p_bad.wrapping_add(1), ..c })
}

/// After a report of what is wrong.
pub open spec fn reported(a: AggregatorView, fault: RxFault) -> AggregatorView {
    AggregatorView {
        link: LinkView { events: a.link.events.push(RxEventView::Fault(fault)), ..a.link },
        ..a
    }
}

/// After a packet that could not be opened or is not for this receiver.
pub open spec fn refused_packet(a: AggregatorView) -> AggregatorView {
    let c = a.link.counters;
    counted(a, RxCounters { count_p_dec_err: c.count_p_dec_err.wrapping_add(1), ..c })
}

/// After a session packet that is in order.
pub open spec fn session_packet(a: AggregatorView) -> AggregatorView {
    let c = a.link.counters;
    counted(a, RxCounters { count_p_session: c.count_p_session.wrapping_add(1), ..c })
}

/// Whether session data is for this receiver and names a code that it can use.
pub open spec fn session_acceptable(a: AggregatorView, m: Seq<u8>) -> bool {
    &&& be_value(m.subrange(0, 8)) >= a.epoch
    &&& be_value(m.subrange(8, 12)) == a.channel_id
    &&& m[12] == WFB_FEC_VDM_RS
    &&& 1 <= m[13] <= m[14]
}

/// What is wrong with session data, the first of these that there is.
pub open spec fn session_fault(a: AggregatorView, m: Seq<u8>) -> RxFault {
    let epoch = be_value(m.subrange(0, 8)) as u64;
    let channel = be_value(m.subrange(8, 12)) as u32;
    if epoch < a.epoch {
        RxFault::OldEpoch { session_epoch: epoch, epoch: a.epoch }
    } else if channel != a.channel_id {
        RxFault::OtherChannel { session_channel: channel, channel_id: a.channel_id }
    } else if m[12] != WFB_FEC_VDM_RS {
        RxFault::UnsupportedCode(m[12])
    } else {
        RxFault::InvalidCode
    }
}

/// After session data has been opened: acceptable data with a new key begins a session.
pub open spec fn session_opened(a: AggregatorView, hash: Seq<u8>, m: Seq<u8>) -> AggregatorView {
    let key = m.subrange(15, 47);
    if !session_acceptable(a, m) {
        reported(refused_packet(a), session_fault(a, m))
    } else if key == a.session_key {
        AggregatorView { session_hash: hash, ..session_packet(a) }
    } else {
        let epoch = be_value(m.subrange(0, 8)) as u64;
        let c = session_packet(a);
        let l = session_started(c.link, m[13] as int, m[14] as int);
        AggregatorView {
            session_hash: hash,
            session_key: key,
            epoch,
            link: LinkView {
                events: l.events.push(
                    RxEventView::Session { epoch, fec_type: WFB_FEC_VDM_RS, k: m[13], n: m[14] },
                ),
                ..l
            },
            ..c
        }
    }
}

/// After a fragment has been opened.
pub open spec fn fragment_opened(a: AggregatorView, nonce: u64, m: Seq<u8>, q: Reception) -> AggregatorView {
    let c = a.link.counters;
    let a1 = AggregatorView {
        antennas: reception_logged(a.antennas, q, 0),
        ..counted(a, RxCounters { count_p_data: c.count_p_data.wrapping_add(1), ..c })
    };
    let a2 = AggregatorView { uniq: a1.uniq.insert(nonce), ..a1 };
    if m.len() < WPACKET_HDR_SIZE || m.len() > MAX_FEC_PAYLOAD {
        bad_packet(a1)
    } else if nonce / 256 > MAX_BLOCK_IDX {
        reported(bad_packet(a2), RxFault::BlockOverflow)
    } else if nonce % 256 >= a.link.n {
        reported(bad_packet(a2), RxFault::InvalidFragment((nonce % 256) as u8))
    } else {
        AggregatorView {
            link: fragment_received(a2.link, nonce / 256, (nonce % 256) as int, m),
            ..a2
        }
    }
}

/// After a session packet: one that has just been heard is only counted.
pub open spec fn announcement_processed(a: AggregatorView, buf: Seq<u8>) -> AggregatorView {
    let nonce = buf.subrange(1, 25);
    let hash = keyed_hash(buf.skip(25), nonce);
    if hash == a.session_hash {
        session_packet(a)
    } else {
        match box_opened(buf.skip(25), nonce, a.tx_publickey, a.rx_secretkey) {
            None => reported(refused_packet(a), RxFault::SessionNotOpened),
            Some(m) => session_opened(a, hash, m),
        }
    }
}

/// After a packet.
pub open spec fn packet_processed(a: AggregatorView, buf: Seq<u8>, q: Reception) -> AggregatorView {
    let c = a.link.counters;
    let a1 = counted(
        a,
        RxCounters {
            count_p_all: c.count_p_all.wrapping_add(1),
            count_b_all: c.count_b_all.wrapping_add(buf.len() as u32),
            ..c
        },
    );
    if buf.len() == 0 {
        a1
    } else if buf.len() > MAX_FORWARDER_PACKET_SIZE {
        reported(bad_packet(a1), RxFault::LongPacket)
    } else if buf[0] == WFB_PACKET_DATA {
        if buf.len() < WBLOCK_HDR_SIZE + AEAD_TAG_BYTES + WPACKET_HDR_SIZE {
            reported(bad_packet(a1), RxFault::ShortPacket)
        } else {
            let number = be_value(buf.subrange(1, 9)) as u64;
            match aead_opened(a.session_key, buf.subrange(1, 9), buf.take(9), buf.skip(9)) {
                None => reported(refused_packet(a1), RxFault::PacketNotOpened(number)),
                Some(m) => fragment_opened(a1, number, m, q),
            }
        }
    } else if buf[0] == WFB_PACKET_SESSION {
        if buf.len() < WSESSION_HDR_SIZE + WSESSION_DATA_SIZE + BOX_MAC_BYTES {
            reported(bad_packet(a1), RxFault::InvalidSessionPacket)
        } else {
            announcement_processed(a1, buf)
        }
    } else {
        reported(bad_packet(a1), RxFault::UnknownType(buf[0]))
    }
}

/// With nothing left to do.
pub open spec fn without_events(a: AggregatorView) -> AggregatorView {
    AggregatorView { link: LinkView { events: Seq::empty(), ..a.link }, ..a }
}

impl Aggregator {
    /// Keys have their lengths, and a session, if there is one, is in order.
    pub open spec fn wf(&self) -> bool {
        &&& self.link.closed() || self.link.wf()
        &&& stats_wf(self.antenna_stat@)
        &&& self.session_hash@.len() == HASH_BYTES
        &&& self.rx_secretkey@.len() == BOX_KEY_BYTES
        &&& self.tx_publickey@.len() == BOX_KEY_BYTES
        &&& self.session_key@.len() == AEAD_KEY_BYTES
    }

    /// A receiver for a channel.  The key file holds its secret key and the transmitter's public
    /// key; one that is too short makes none.
    pub fn new(keypair: &[u8], epoch: u64, channel_id: u32) -> (r: Option<Aggregator>)
        ensures
            r is None <==> keypair@.len() < 2 * BOX_KEY_BYTES,
            r matches Some(a) ==> {
                &&& a.wf()
                &&& a.valid()
                &&& a.link.closed()
                &&& a@.link == new_link()
                &&& a@.antennas == Map::<u128, RxAntennaItem>::empty()
                &&& a@.uniq == Set::<u64>::empty()
                &&& a@.session_hash == crate::bytes::zeros(HASH_BYTES as nat)
                &&& a@.session_key == crate::bytes::zeros(AEAD_KEY_BYTES as nat)
                &&& a@.epoch == epoch
                &&& a@.channel_id == channel_id
                &&& a@.rx_secretkey == keypair@.subrange(0, 32)
                &&& a@.tx_publickey == keypair@.subrange(32, 64)
            },
    {
        broadcast use vstd::std_specs::hash::group_hash_axioms;

        if keypair.len() < 2 * BOX_KEY_BYTES {
            return None;
        }
        let a = Aggregator {
            link: RxLink::new(),
            antenna_stat: HashMap::new(),
            count_p_uniq: HashSet::new(),
            session_hash: vec![0u8; HASH_BYTES],
            epoch,
            channel_id,
            rx_secretkey: copy_range(keypair, 0, BOX_KEY_BYTES),
            tx_publickey: copy_range(keypair, BOX_KEY_BYTES, 2 * BOX_KEY_BYTES),
            session_key: vec![0u8; AEAD_KEY_BYTES],
        };
        assert(a.link@.events.len() == 0);
        assert(a.session_hash@ =~= crate::bytes::zeros(HASH_BYTES as nat));
        assert(a.session_key@ =~= crate::bytes::zeros(AEAD_KEY_BYTES as nat));
        Some(a)
    }

    fn bad(&mut self)
        ensures
            final(self)@ == bad_packet(old(self)@),
            final(self).wf() == old(self).wf(),
    {
        self.link.counters.count_p_bad = self.link.counters.count_p_bad.wrapping_add(1);
        proof {
            self.link.lemma_counters_do_not_matter(old(self).link);
        }
    }

    fn report(&mut self, fault: RxFault)
        ensures
            final(self)@ == reported(old(self)@, fault),
            final(self).wf() == old(self).wf(),
    {
        let ghost before = self.link@;
        self.link.events.push(RxEvent::Fault(fault));
        assert(self.link@.events =~= before.events.push(RxEventView::Fault(fault)));
        proof {
            self.link.lemma_events_do_not_matter(before);
        }
    }

    fn bad_for(&mut self, fault: RxFault)
        ensures
            final(self)@ == reported(bad_packet(old(self)@), fault),
            final(self).wf() == old(self).wf(),
    {
        self.bad();
        self.report(fault);
    }

    fn refuse(&mut self, fault: RxFault)
        ensures
            final(self)@ == reported(refused_packet(old(self)@), fault),
            final(self).wf() == old(self).wf(),
    {
        self.link.counters.count_p_dec_err = self.link.counters.count_p_dec_err.wrapping_add(1);
        proof {
            self.link.lemma_counters_do_not_matter(old(self).link);
        }
        self.report(fault);
    }

    /// Takes in session data that has been opened, with the hash of its packet.
    pub fn accept_session(&mut self, hash: Vec<u8>, data: &[u8])
        requires
            old(self).wf(),
            hash@.len() == HASH_BYTES,
            data@.len() >= WSESSION_DATA_SIZE,
        ensures
            final(self)@ == session_opened(old(self)@, hash@, data@),
            final(self).wf(),
            final(self).epoch >= old(self).epoch,
    {
        let ghost a = self@;
        let d = WsessionData::from_bytes(data);
        proof {
            lemma_session_fields(d, data@);
        }
        if d.epoch < self.epoch {
            self.refuse(RxFault::OldEpoch { session_epoch: d.epoch, epoch: self.epoch });
            return;
        }
        if d.channel_id != self.channel_id {
            self.refuse(
                RxFault::OtherChannel {
                    session_channel: d.channel_id,
                    channel_id: self.channel_id,
                },
            );
            return;
        }
        if d.fec_type != WFB_FEC_VDM_RS {
            self.refuse(RxFault::UnsupportedCode(d.fec_type));
            return;
        }
        if d.n < 1 || d.k < 1 || d.k > d.n {
            self.refuse(RxFault::InvalidCode);
            return;
        }
        self.link.counters.count_p_session = self.link.counters.count_p_session.wrapping_add(1);
        proof {
            self.link.lemma_counters_do_not_matter(old(self).link);
        }
        if !bytes_equal(&self.session_key, &d.session_key) {
            self.epoch = d.epoch;
            self.session_key = d.session_key;
            let ghost l = self.link@;
            if self.link.fec.is_some() {
                self.link.deinit_fec();
            }
            self.link.init_fec(d.k, d.n);
            let ghost started = self.link@;
            assert(started == session_started(l, d.k as int, d.n as int));
            self.link.events.push(
                RxEvent::Session { epoch: d.epoch, fec_type: WFB_FEC_VDM_RS, k: d.k, n: d.n },
            );
            assert(self.link@.events =~= started.events.push(
                RxEventView::Session { epoch: d.epoch, fec_type: WFB_FEC_VDM_RS, k: d.k, n: d.n },
            ));
            proof {
                self.link.lemma_events_do_not_matter(started);
            }
        }
        self.session_hash = hash;
    }

    /// Takes in a fragment that has been opened.
    pub fn accept_fragment(
        &mut self,
        nonce: u64,
        data: &[u8],
        wlan_idx: u8,
        antenna: &[u8; 4],
        rssi: &[i8; 4],
        noise: &[i8; 4],
        freq: u16,
        mcs_index: u8,
        bandwidth: u8,
        sockaddr: Option<SockaddrIn>,
    )
        requires
            old(self).wf(),
        ensures
            final(self)@ == fragment_opened(
                old(self)@,
                nonce,
                data@,
                (Reception {
                    sockaddr,
                    wlan_idx,
                    antenna: antenna@,
                    rssi: rssi@,
                    noise: noise@,
                    freq,
                    mcs_index,
                    bandwidth,
                }),
            ),
            final(self).wf(),
    {
        broadcast use vstd::std_specs::hash::group_hash_axioms;

        self.link.counters.count_p_data = self.link.counters.count_p_data.wrapping_add(1);
        proof {
            self.link.lemma_counters_do_not_matter(old(self).link);
        }
        log_rssi(
            &mut self.antenna_stat,
            sockaddr,
            wlan_idx,
            antenna,
            rssi,
            noise,
            freq,
            mcs_index,
            bandwidth,
        );
        if data.len() < WPACKET_HDR_SIZE || data.len() > MAX_FEC_PAYLOAD {
            self.bad();
            return;
        }
        let block_idx: u64 = nonce / 256;
        let fragment_idx: usize = (nonce % 256) as usize;
        self.count_p_uniq.insert(nonce);
        if block_idx > MAX_BLOCK_IDX {
            self.bad_for(RxFault::BlockOverflow);
            return;
        }
        if fragment_idx as i32 >= self.link.fec_n {
            self.bad_for(RxFault::InvalidFragment(fragment_idx as u8));
            return;
        }
        self.link.receive_fragment(block_idx, fragment_idx, data);
    }

    /// Opens a session packet.
    fn process_session(&mut self, buf: &[u8])
        requires
            old(self).wf(),
            88 <= buf@.len() <= MAX_SESSION_PACKET_SIZE,
        ensures
            final(self).wf(),
            final(self)@ == announcement_processed(old(self)@, buf@),
            final(self).epoch >= old(self).epoch,
    {
        let header = WsessionHdr::from_bytes(buf);
        let sealed: Vec<u8> = copy_range(buf, WSESSION_HDR_SIZE, buf.len());
        assert(sealed@ =~= buf@.skip(25));
        let hash: Vec<u8> = generic_hash(&sealed, &header.session_nonce);
        if bytes_equal(&self.session_hash, &hash) {
            self.link.counters.count_p_session = self.link.counters.count_p_session.wrapping_add(1);
            proof {
                self.link.lemma_counters_do_not_matter(old(self).link);
            }
            return;
        }
        match box_open_easy(&sealed, &header.session_nonce, &self.tx_publickey, &self.rx_secretkey) {
            Some(data) => self.accept_session(hash, &data),
            None => self.refuse(RxFault::SessionNotOpened),
        }
    }

    fn clear_stats(&mut self)
        requires
            old(self).wf(),
        ensures
            final(self)@ == (AggregatorView {
                antennas: Map::empty(),
                uniq: Set::empty(),
                ..counted(old(self)@, no_counts())
            }),
            final(self).wf(),
            final(self).link.events == old(self).link.events,
    {
        broadcast use vstd::std_specs::hash::group_hash_axioms;

        self.antenna_stat.clear();
        self.count_p_uniq.clear();
        self.link.counters = RxCounters::new();
        proof {
            self.link.lemma_counters_do_not_matter(old(self).link);
        }
    }
}

proof fn lemma_session_fields(d: WsessionData, m: Seq<u8>)
    requires
        m.len() >= WSESSION_DATA_SIZE,
        d.bytes() == m.take(47),
        d.session_key@.len() == AEAD_KEY_BYTES,
    ensures
        d.epoch == be_value(m.subrange(0, 8)),
        d.channel_id == be_value(m.subrange(8, 12)),
        d.fec_type == m[12],
        d.k == m[13],
        d.n == m[14],
        d.session_key@ == m.subrange(15, 47),
{
    lemma_byte_range();
    crate::bytes::lemma_be_len(d.epoch as nat, 8);
    crate::bytes::lemma_be_len(d.channel_id as nat, 4);
    crate::bytes::lemma_be_round_trip(d.epoch as nat, 8);
    crate::bytes::lemma_be_round_trip(d.channel_id as nat, 4);
    let b = d.bytes();
    assert(b.subrange(0, 8) =~= crate::bytes::be_bytes(d.epoch as nat, 8));
    assert(m.subrange(0, 8) =~= b.subrange(0, 8));
    assert(b.subrange(8, 12) =~= crate::bytes::be_bytes(d.channel_id as nat, 4));
    assert(m.subrange(8, 12) =~= b.subrange(8, 12));
    assert(b[12] == m[12] && b[13] == m[13] && b[14] == m[14]);
    assert(b.subrange(15, 47) =~= d.session_key@);
    assert(m.subrange(15, 47) =~= b.subrange(15, 47));
}

impl BaseAggregator for Aggregator {
    open spec fn valid(&self) -> bool {
        self.wf() && self.link.events@.len() == 0
    }

    fn process_packet(
        &mut self,
        buf: &[u8],
        wlan_idx: u8,
        antenna: &[u8; 4],
        rssi: &[i8; 4],
        noise: &[i8; 4],
        freq: u16,
        mcs_index: u8,
        bandwidth: u8,
        sockaddr: Option<SockaddrIn>,
    ) -> (events: Vec<RxEvent>)
        ensures
            ({
                let next = packet_processed(
                    old(self)@,
                    buf@,
                    Reception {
                        sockaddr,
                        wlan_idx,
                        antenna: antenna@,
                        rssi: rssi@,
                        noise: noise@,
                        freq,
                        mcs_index,
                        bandwidth,
                    },
                );
                &&& events_view(events@) == next.link.events
                &&& final(self)@ == without_events(next)
            }),
            final(self).epoch >= old(self).epoch,
    {
        let ghost a = self@;
        let ghost q = Reception {
            sockaddr,
            wlan_idx,
            antenna: antenna@,
            rssi: rssi@,
            noise: noise@,
            freq,
            mcs_index,
            bandwidth,
        };
        self.link.counters.count_p_all = self.link.counters.count_p_all.wrapping_add(1);
        self.link.counters.count_b_all = self.link.counters.count_b_all.wrapping_add(
            buf.len() as u32,
        );
        proof {
            self.link.lemma_counters_do_not_matter(old(self).link);
        }
        if buf.len() > 0 {
            if buf.len() > MAX_FORWARDER_PACKET_SIZE {
                self.bad_for(RxFault::LongPacket);
            } else if buf[0] == WFB_PACKET_DATA {
                if buf.len() < WBLOCK_HDR_SIZE + AEAD_TAG_BYTES + WPACKET_HDR_SIZE {
                    self.bad_for(RxFault::ShortPacket);
                } else {
                    let header = WblockHdr::from_bytes(buf);
                    let ad: Vec<u8> = copy_range(buf, 0, WBLOCK_HDR_SIZE);
                    let nonce: Vec<u8> = copy_range(buf, 1, WBLOCK_HDR_SIZE);
                    let sealed: Vec<u8> = copy_range(buf, WBLOCK_HDR_SIZE, buf.len());
                    assert(ad@ =~= buf@.take(9));
                    assert(sealed@ =~= buf@.skip(9));
                    match aead_decrypt(&self.session_key, &nonce, &ad, &sealed) {
                        Some(data) => self.accept_fragment(
                            header.data_nonce,
                            &data,
                            wlan_idx,
                            antenna,
                            rssi,
                            noise,
                            freq,
                            mcs_index,
                            bandwidth,
                            sockaddr,
                        ),
                        None => self.refuse(RxFault::PacketNotOpened(header.data_nonce)),
                    }
                }
            } else if buf[0] == WFB_PACKET_SESSION {
                if buf.len() < WSESSION_HDR_SIZE + WSESSION_DATA_SIZE + BOX_MAC_BYTES || buf.len()
                    > MAX_SESSION_PACKET_SIZE {
                    self.bad_for(RxFault::InvalidSessionPacket);
                } else {
                    self.process_session(buf);
                }
            } else {
                self.bad_for(RxFault::UnknownType(buf[0]));
            }
        }
        assert(self@ == packet_processed(a, buf@, q));
        let mut events: Vec<RxEvent> = Vec::new();
        let ghost before = self.link;
        core::mem::swap(&mut events, &mut self.link.events);
        proof {
            assert(self.link@.events =~= Seq::empty());
            self.link.lemma_events_do_not_matter(before@);
        }
        events
    }

    fn dump_stats(&mut self) -> (report: Option<RxReport>)
        ensures
            report matches Some(r) && report_of(r.antennas@, old(self)@.antennas) && r.counters
                == old(self)@.link.counters && r.count_p_uniq == old(self)@.uniq.len() as u32,
            final(self)@ == (AggregatorView {
                antennas: Map::empty(),
                uniq: Set::empty(),
                ..counted(old(self)@, no_counts())
            }),
    {
        broadcast use vstd::std_specs::hash::group_hash_axioms;

        let report = RxReport {
            antennas: antenna_report(&self.antenna_stat),
            counters: self.link.counters,
            count_p_uniq: self.count_p_uniq.len() as u32,
        };
        self.clear_stats();
        Some(report)
    }
}

} // verus!
