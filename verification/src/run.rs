//! Settings and main loops of the receiver and the transmitter.
use crate::rx::RxMode;
use crate::tx::{TxError, TxMode};
use crate::tx_frame::{
    init_radiotap_header, radiotap_bytes, sum_bytes, sum_dropped, sum_injected, tx_report_of,
    RadioError, RadiotapHeader, RawSocketTransmitter, TxAntReport, TxAntennaItem,
};
use vstd::prelude::*;

verus! {

/// The channel of a link and a port on it.  Links have 24 bits.
pub open spec fn channel_of(link_id: u32, radio_port: u8) -> u32 {
    (link_id % 0x100_0000 * 256 + radio_port) as u32
}

fn make_channel_id(link_id: u32, radio_port: u8) -> (c: u32)
    ensures
        c == channel_of(link_id, radio_port),
{
    link_id % 0x100_0000 * 256 + radio_port as u32
}

/// Different links or ports have different channels.
pub proof fn lemma_channels_distinct(a: u32, p: u8, b: u32, q: u8)
    requires
        channel_of(a, p) == channel_of(b, q),
    ensures
        a % 0x100_0000 == b % 0x100_0000,
        p == q,
{
}

/// The port is the lowest byte of a channel, and the link is what is above it.
pub proof fn lemma_channel_parts(link_id: u32, radio_port: u8)
    ensures
        channel_of(link_id, radio_port) % 256 == radio_port,
        channel_of(link_id, radio_port) / 256 == link_id % 0x100_0000,
        link_id < 0x100_0000 ==> channel_of(link_id, radio_port) / 256 == link_id,
{
}

/// The settings of a receiver as they were given.
#[derive(Clone, Debug)]
pub struct RxOptions {
    pub forwarder: bool,
    /// The port to listen on for forwarders; zero where it is no number.
    pub aggregator: Option<i32>,
    pub client_port: Option<i32>,
    pub radio_port: Option<u8>,
    pub rcv_buf: Option<i32>,
    pub snd_buf: Option<i32>,
    pub log_interval: Option<i32>,
    pub link_id: Option<u32>,
    pub epoch: Option<u64>,
    pub interfaces: usize,
}

/// The settings of a receiver.
#[derive(Clone, Copy, Debug, PartialEq, Eq, Structural)]
pub struct RxConfig {
    pub rx_mode: RxMode,
    pub srv_port: i32,
    pub client_port: i32,
    pub rcv_buf: i32,
    pub snd_buf: i32,
    pub log_interval: i32,
    pub channel_id: u32,
    pub epoch: u64,
}

/// Why a program does not start.
#[derive(Clone, Copy, Debug, PartialEq, Eq, Structural)]
pub enum ConfigError {
    NoInterfaces,
    /// Only local mode is there.
    UnsupportedMode,
    Radio(RadioError),
}

pub open spec fn given_i32(o: Option<i32>, default: i32) -> i32 {
    if o is Some {
        o->0
    } else {
        default
    }
}

/// The settings that the options come to.
pub open spec fn rx_config(o: RxOptions) -> RxConfig {
    RxConfig {
        rx_mode: if o.aggregator is Some {
            RxMode::Aggregator
        } else if o.forwarder {
            RxMode::Forwarder
        } else {
            RxMode::Local
        },
        srv_port: given_i32(o.aggregator, 0),
        client_port: given_i32(o.client_port, 5600),
        rcv_buf: given_i32(o.rcv_buf, 0),
        snd_buf: given_i32(o.snd_buf, 0),
        log_interval: given_i32(o.log_interval, 1000),
        channel_id: channel_of(
            if o.link_id is Some {
                o.link_id->0
            } else {
                0
            },
            if o.radio_port is Some {
                o.radio_port->0
            } else {
                0
            },
        ),
        epoch: if o.epoch is Some {
            o.epoch->0
        } else {
            0
        },
    }
}

/// Every option of a receiver that is given is in force, and each that is not has its default.  It is an
/// aggregator if the port for forwarders is given, also where it is asked to be a forwarder.
pub proof fn lemma_rx_options_in_force(o: RxOptions)
    ensures
        o.aggregator matches Some(p) ==> rx_config(o).rx_mode == RxMode::Aggregator && rx_config(
            o,
        ).srv_port == p,
        o.aggregator is None ==> rx_config(o).srv_port == 0,
        o.aggregator is None && o.forwarder ==> rx_config(o).rx_mode == RxMode::Forwarder,
        o.aggregator is None && !o.forwarder ==> rx_config(o).rx_mode == RxMode::Local,
        o.client_port matches Some(x) ==> rx_config(o).client_port == x,
        o.client_port is None ==> rx_config(o).client_port == 5600,
        o.rcv_buf matches Some(x) ==> rx_config(o).rcv_buf == x,
        o.rcv_buf is None ==> rx_config(o).rcv_buf == 0,
        o.snd_buf matches Some(x) ==> rx_config(o).snd_buf == x,
        o.snd_buf is None ==> rx_config(o).snd_buf == 0,
        o.log_interval matches Some(x) ==> rx_config(o).log_interval == x,
        o.log_interval is None ==> rx_config(o).log_interval == 1000,
        o.epoch matches Some(x) ==> rx_config(o).epoch == x,
        o.epoch is None ==> rx_config(o).epoch == 0,
        o.radio_port matches Some(x) ==> rx_config(o).channel_id % 256 == x,
        o.radio_port is None ==> rx_config(o).channel_id % 256 == 0,
        o.link_id matches Some(x) ==> rx_config(o).channel_id / 256 == x % 0x100_0000,
        o.link_id is None ==> rx_config(o).channel_id / 256 == 0,
{
    lemma_channel_parts(
        if o.link_id is Some {
            o.link_id->0
        } else {
            0
        },
        if o.radio_port is Some {
            o.radio_port->0
        } else {
            0
        },
    );
}

/// Settles the settings of a receiver.  All but an aggregator need an interface.
pub fn resolve_rx(o: &RxOptions) -> (r: Result<RxConfig, ConfigError>)
    ensures
        r == (if o.aggregator is None && o.interfaces == 0 {
            Err::<RxConfig, ConfigError>(ConfigError::NoInterfaces)
        } else {
            Ok::<RxConfig, ConfigError>(rx_config(*o))
        }),
{
    let rx_mode = if o.aggregator.is_some() {
        RxMode::Aggregator
    } else if o.forwarder {
        RxMode::Forwarder
    } else {
        RxMode::Local
    };
    if rx_mode != RxMode::Aggregator && o.interfaces == 0 {
        return Err(ConfigError::NoInterfaces);
    }
    Ok(
        RxConfig {
            rx_mode,
            srv_port: o.aggregator.unwrap_or(0),
            client_port: o.client_port.unwrap_or(5600),
            rcv_buf: o.rcv_buf.unwrap_or(0),
            snd_buf: o.snd_buf.unwrap_or(0),
            log_interval: o.log_interval.unwrap_or(1000),
            channel_id: make_channel_id(o.link_id.unwrap_or(0), o.radio_port.unwrap_or(0)),
            epoch: o.epoch.unwrap_or(0),
        },
    )
}

/// The settings of a transmitter as they were given.
#[derive(Clone, Debug)]
pub struct TxOptions {
    pub distributor: bool,
    pub injector: bool,
    pub k: Option<usize>,
    pub n: Option<usize>,
    pub udp_port: Option<i32>,
    pub radio_port: Option<u8>,
    pub fec_delay: Option<u32>,
    pub log_interval: Option<i32>,
    pub bandwidth: Option<u8>,
    pub short_gi: bool,
    pub stbc: Option<u8>,
    pub ldpc: Option<i32>,
    pub mcs_index: Option<u8>,
    pub vht_nss: Option<u8>,
    pub vht_mode: bool,
    pub use_qdisc: bool,
    pub link_id: Option<u32>,
    pub epoch: Option<u64>,
    pub interfaces: usize,
}

/// The settings of a transmitter.
#[derive(Clone, Debug)]
pub struct TxConfig {
    pub k: usize,
    pub n: usize,
    pub udp_port: i32,
    pub fec_delay: u32,
    pub log_interval: i32,
    pub channel_id: u32,
    pub epoch: u64,
    pub use_qdisc: bool,
    pub radiotap_header: RadiotapHeader,
}

pub open spec fn given_u8(o: Option<u8>, default: u8) -> u8 {
    if o is Some {
        o->0
    } else {
        default
    }
}

/// The radiotap header that the options come to.  Bandwidths from 80 up imply VHT mode.
pub open spec fn tx_radiotap(o: TxOptions) -> Result<Seq<u8>, RadioError> {
    radiotap_bytes(
        given_u8(o.stbc, 0),
        o.ldpc is Some && o.ldpc->0 != 0,
        o.short_gi,
        given_u8(o.bandwidth, 20),
        given_u8(o.mcs_index, 1),
        o.vht_mode || given_u8(o.bandwidth, 20) >= 80,
        given_u8(o.vht_nss, 1),
    )
}

/// The mode that the options ask for.
pub open spec fn tx_mode(o: TxOptions) -> TxMode {
    if o.injector {
        TxMode::Injector
    } else if o.distributor {
        TxMode::Distributor
    } else {
        TxMode::Local
    }
}

/// Every radio option of a transmitter that is given is in the header, and each that is not has its
/// default.  VHT mode is chosen exactly if it is asked for or the bandwidth is one that only VHT has.  A
/// transmitter is local if it is asked to be nothing else.
pub proof fn lemma_tx_options_in_force(o: TxOptions)
    ensures
        ({
            let bandwidth = match o.bandwidth {
                Some(b) => b,
                None => 20u8,
            };
            tx_radiotap(o) == radiotap_bytes(
                match o.stbc {
                    Some(x) => x,
                    None => 0u8,
                },
                match o.ldpc {
                    Some(x) => x != 0,
                    None => false,
                },
                o.short_gi,
                bandwidth,
                match o.mcs_index {
                    Some(x) => x,
                    None => 1u8,
                },
                o.vht_mode || bandwidth == 80 || bandwidth == 160 || bandwidth > 80,
                match o.vht_nss {
                    Some(x) => x,
                    None => 1u8,
                },
            )
        }),
        tx_mode(o) == TxMode::Local <==> !o.injector && !o.distributor,
        o.injector ==> tx_mode(o) == TxMode::Injector,
        o.distributor && !o.injector ==> tx_mode(o) == TxMode::Distributor,
{
}

/// Settles the settings of a transmitter.
pub fn resolve_tx(o: &TxOptions) -> (r: Result<TxConfig, ConfigError>)
    ensures
        match tx_radiotap(*o) {
            _ if tx_mode(*o) != TxMode::Local => r == Err::<TxConfig, ConfigError>(
                ConfigError::UnsupportedMode,
            ),
            _ if o.interfaces == 0 => r == Err::<TxConfig, ConfigError>(ConfigError::NoInterfaces),
            Err(e) => r == Err::<TxConfig, ConfigError>(ConfigError::Radio(e)),
            Ok(header) => {
                &&& r is Ok
                &&& r->Ok_0.radiotap_header.header@ == header
                &&& r->Ok_0.radiotap_header.bandwidth == given_u8(o.bandwidth, 20)
                &&& r->Ok_0.radiotap_header.stbc == given_u8(o.stbc, 0)
                &&& r->Ok_0.radiotap_header.mcs_index == given_u8(o.mcs_index, 1)
                &&& r->Ok_0.radiotap_header.vht_nss == given_u8(o.vht_nss, 1)
                &&& r->Ok_0.radiotap_header.short_gi == o.short_gi
                &&& r->Ok_0.radiotap_header.ldpc == (o.ldpc is Some && o.ldpc->0 != 0)
                &&& r->Ok_0.radiotap_header.vht_mode == (o.vht_mode || given_u8(o.bandwidth, 20)
                    >= 80)
                &&& r->Ok_0.k == (if o.k is Some {
                    o.k->0
                } else {
                    8
                })
                &&& r->Ok_0.n == (if o.n is Some {
                    o.n->0
                } else {
                    12
                })
                &&& r->Ok_0.udp_port == given_i32(o.udp_port, 5600)
                &&& r->Ok_0.fec_delay == (if o.fec_delay is Some {
                    o.fec_delay->0
                } else {
                    0
                })
                &&& r->Ok_0.log_interval == given_i32(o.log_interval, 1000)
                &&& r->Ok_0.channel_id == channel_of(
                    if o.link_id is Some {
                        o.link_id->0
                    } else {
                        0
                    },
                    given_u8(o.radio_port, 0),
                )
                &&& r->Ok_0.epoch == (if o.epoch is Some {
                    o.epoch->0
                } else {
                    0
                })
                &&& r->Ok_0.use_qdisc == o.use_qdisc
            },
        },
{
    if o.injector || o.distributor {
        return Err(ConfigError::UnsupportedMode);
    }
    if o.interfaces == 0 {
        return Err(ConfigError::NoInterfaces);
    }
    let bandwidth: u8 = o.bandwidth.unwrap_or(20);
    let ldpc: i32 = o.ldpc.unwrap_or(0);
    let radiotap_header = match init_radiotap_header(
        o.stbc.unwrap_or(0),
        ldpc != 0,
        o.short_gi,
        bandwidth,
        o.mcs_index.unwrap_or(1),
        o.vht_mode || bandwidth >= 80,
        o.vht_nss.unwrap_or(1),
    ) {
        Ok(h) => h,
        Err(e) => {
            return Err(ConfigError::Radio(e));
        },
    };
    Ok(
        TxConfig {
            k: o.k.unwrap_or(8),
            n: o.n.unwrap_or(12),
            udp_port: o.udp_port.unwrap_or(5600),
            fec_delay: o.fec_delay.unwrap_or(0),
            log_interval: o.log_interval.unwrap_or(1000),
            channel_id: make_channel_id(o.link_id.unwrap_or(0), o.radio_port.unwrap_or(0)),
            epoch: o.epoch.unwrap_or(0),
            use_qdisc: o.use_qdisc,
            radiotap_header,
        },
    )
}

/// What to do about a socket after waiting.
#[derive(Clone, Copy, Debug, PartialEq, Eq, Structural)]
pub enum PollAction {
    /// It is broken.
    Fail,
    /// There is something to read.
    Read,
    Nothing,
}

pub const POLLIN: i16 = 0x01;
pub const POLLERR: i16 = 0x08;
pub const POLLNVAL: i16 = 0x20;

/// What the events of a socket ask for.
pub fn poll_action(revents: i16) -> (r: PollAction)
    ensures
        r == (if revents & (POLLERR | POLLNVAL) != 0 {
            PollAction::Fail
        } else if revents & POLLIN != 0 {
            PollAction::Read
        } else {
            PollAction::Nothing
        }),
{
    if (revents & (POLLERR | POLLNVAL)) != 0 {
        PollAction::Fail
    } else if (revents & POLLIN) != 0 {
        PollAction::Read
    } else {
        PollAction::Nothing
    }
}

/// When the next report is due.  Times are in milliseconds.
#[derive(Clone, Copy, Debug, PartialEq, Eq, Structural)]
pub struct LogTimer {
    pub log_send_ts: u64,
    pub log_interval: i32,
}

/// The interval as the clock counts it.
pub open spec fn interval_ms(log_interval: i32) -> u64 {
    log_interval as u64
}

impl LogTimer {
    pub fn new(now: u64, log_interval: i32) -> (t: LogTimer)
        ensures
            t == (LogTimer { log_send_ts: now, log_interval }),
    {
        LogTimer { log_send_ts: now, log_interval }
    }

    /// How long to wait for packets: until the report.
    pub fn timeout(&self, now: u64) -> (ms: i32)
        ensures
            ms == (if self.log_send_ts > now {
                (self.log_send_ts - now) as i32
            } else {
                0
            }),
    {
        if self.log_send_ts > now {
            (self.log_send_ts - now) as i32
        } else {
            0
        }
    }

    /// Whether the report is due; then the next one is due at the next multiple of the interval.
    pub fn due(&mut self, now: u64) -> (r: bool)
        requires
            interval_ms(old(self).log_interval) != 0,
        ensures
            r == (now >= old(self).log_send_ts),
            final(self).log_interval == old(self).log_interval,
            !r ==> final(self).log_send_ts == old(self).log_send_ts,
            r ==> final(self).log_send_ts == now.wrapping_add(
                interval_ms(old(self).log_interval),
            ).wrapping_sub(
                ((now - old(self).log_send_ts) % interval_ms(old(self).log_interval) as int) as u64,
            ),
    {
        if now >= self.log_send_ts {
            let interval: u64 = self.log_interval as u64;
            let late: u64 = (now - self.log_send_ts) % interval;
            self.log_send_ts = now.wrapping_add(interval).wrapping_sub(late);
            return true;
        }
        false
    }
}

/// The next report is later than now by at most an interval, and the two reports are a whole number
/// of intervals apart.
pub proof fn lemma_reports_on_schedule(before: LogTimer, now: u64, after: LogTimer)
    requires
        before.log_interval > 0,
        now >= before.log_send_ts,
        now + before.log_interval <= u64::MAX,
        after.log_send_ts == now.wrapping_add(interval_ms(before.log_interval)).wrapping_sub(
            ((now - before.log_send_ts) % interval_ms(before.log_interval) as int) as u64,
        ),
    ensures
        now < after.log_send_ts <= now + before.log_interval,
        (after.log_send_ts - before.log_send_ts) % (before.log_interval as int) == 0,
{
    let i = before.log_interval as int;
    let d = now - before.log_send_ts;
    assert(interval_ms(before.log_interval) == i);
    vstd::arithmetic::div_mod::lemma_mod_bound(d, i);
    vstd::arithmetic::div_mod::lemma_fundamental_div_mod(d, i);
    assert(after.log_send_ts == now + i - d % i);
    vstd::arithmetic::div_mod::lemma_mod_multiples_basic(d / i + 1, i);
    assert(after.log_send_ts - before.log_send_ts == (d / i + 1) * i) by (nonlinear_arith)
        requires
            after.log_send_ts - before.log_send_ts == d + i - d % i,
            d == i * (d / i) + d % i,
    ;
}

/// The counters of a transmitter's log interval.  They wrap around.
#[derive(Clone, Copy, Debug, PartialEq, Eq, Structural)]
pub struct TxCounters {
    pub count_p_incoming: u32,
    pub count_b_incoming: u32,
    pub count_p_injected: u32,
    pub count_b_injected: u32,
    pub count_p_dropped: u32,
}

pub open spec fn no_tx_counts() -> TxCounters {
    TxCounters {
        count_p_incoming: 0,
        count_b_incoming: 0,
        count_p_injected: 0,
        count_b_injected: 0,
        count_p_dropped: 0,
    }
}

impl TxCounters {
    pub fn new() -> (c: TxCounters)
        ensures
            c == no_tx_counts(),
    {
        TxCounters {
            count_p_incoming: 0,
            count_b_incoming: 0,
            count_p_injected: 0,
            count_b_injected: 0,
            count_p_dropped: 0,
        }
    }

    /// After a payload has come in.
    pub open spec fn incoming(&self, len: usize) -> TxCounters {
        TxCounters {
            count_p_incoming: self.count_p_incoming.wrapping_add(1),
            count_b_incoming: self.count_b_incoming.wrapping_add(len as u32),
            ..*self
        }
    }

    /// After a payload has gone out.
    pub open spec fn outgoing(&self, len: usize) -> TxCounters {
        TxCounters {
            count_p_injected: self.count_p_injected.wrapping_add(1),
            count_b_injected: self.count_b_injected.wrapping_add(len as u32),
            ..*self
        }
    }

    /// Counts a payload by what sending it has come to.
    pub fn count_payload(&mut self, len: usize, sent: Result<bool, TxError>)
        ensures
            *final(self) == (if sent == Ok::<bool, TxError>(true) {
                old(self).incoming(len).outgoing(len)
            } else {
                old(self).incoming(len)
            }),
            final(self).count_p_incoming == (old(self).count_p_incoming + 1) % 0x1_0000_0000,
            len <= u32::MAX ==> final(self).count_b_incoming == (old(self).count_b_incoming + len)
                % 0x1_0000_0000,
            sent == Ok::<bool, TxError>(true) ==> final(self).count_p_injected == (
            old(self).count_p_injected + 1) % 0x1_0000_0000,
            sent == Ok::<bool, TxError>(true) && len <= u32::MAX ==> final(self).count_b_injected == (
            old(self).count_b_injected + len) % 0x1_0000_0000,
            sent != Ok::<bool, TxError>(true) ==> final(self).count_p_injected
                == old(self).count_p_injected && final(self).count_b_injected == old(
                self,
            ).count_b_injected,
            final(self).count_p_dropped == old(self).count_p_dropped,
    {
        self.count_p_incoming = self.count_p_incoming.wrapping_add(1);
        self.count_b_incoming = self.count_b_incoming.wrapping_add(len as u32);
        if let Ok(true) = sent {
            self.count_p_injected = self.count_p_injected.wrapping_add(1);
            self.count_b_injected = self.count_b_injected.wrapping_add(len as u32);
        }
    }

    /// Adds what the interfaces have sent, and hands the counters over for the report.
    pub fn report(&mut self, tx: &mut RawSocketTransmitter) -> (r: (Vec<TxAntReport>, TxCounters))
        ensures
            ({
                let (lines, c) = r;
                let n = lines@.len() as int;
                &&& tx_report_of(lines@, old(tx).antenna_stat@)
                &&& c == (TxCounters {
                    count_p_injected: sum_injected(lines@, old(self).count_p_injected, n),
                    count_p_dropped: sum_dropped(lines@, old(self).count_p_dropped, n),
                    count_b_injected: sum_bytes(lines@, old(self).count_b_injected, n),
                    ..*old(self)
                })
            }),
            *final(self) == no_tx_counts(),
            final(tx).antenna_stat@ == Map::<u64, TxAntennaItem>::empty(),
            final(tx).core == old(tx).core,
            final(tx).frame_view() == old(tx).frame_view(),
            final(tx).current_output == old(tx).current_output,
    {
        let mut packets: u32 = self.count_p_injected;
        let mut dropped: u32 = self.count_p_dropped;
        let mut bytes: u32 = self.count_b_injected;
        let lines = tx.dump_stats(&mut packets, &mut dropped, &mut bytes);
        let counters = TxCounters {
            count_p_incoming: self.count_p_incoming,
            count_b_incoming: self.count_b_incoming,
            count_p_injected: packets,
            count_b_injected: bytes,
            count_p_dropped: dropped,
        };
        *self = TxCounters::new();
        (lines, counters)
    }
}

} // verus!
