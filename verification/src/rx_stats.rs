//! Reception statistics of the antennas.
use crate::tables::{pairs_of, table_pairs};
use std::collections::HashMap;
use vstd::prelude::*;

verus! {

pub const AF_INET: u16 = 2;

/// Where a forwarded packet came from: address family and, in host order, IPv4 address.
#[derive(Clone, Copy, Debug, PartialEq, Eq, Structural)]
pub struct SockaddrIn {
    pub sin_family: u16,
    pub s_addr: u32,
}

/// What was heard on an antenna.  Sums and counts wrap around.
#[derive(Clone, Copy, Debug, PartialEq, Eq, Structural)]
pub struct RxAntennaItem {
    pub count_all: i32,
    pub rssi_sum: i32,
    pub rssi_min: i8,
    pub rssi_max: i8,
    pub snr_sum: i32,
    pub snr_min: i8,
    pub snr_max: i8,
}

pub open spec fn min_i8(a: i8, b: i8) -> i8 {
    if a <= b {
        a
    } else {
        b
    }
}

pub open spec fn max_i8(a: i8, b: i8) -> i8 {
    if a >= b {
        a
    } else {
        b
    }
}

/// Nothing heard.
pub open spec fn no_reception() -> RxAntennaItem {
    RxAntennaItem {
        count_all: 0,
        rssi_sum: 0,
        rssi_min: 0,
        rssi_max: 0,
        snr_sum: 0,
        snr_min: 0,
        snr_max: 0,
    }
}

/// After a packet with this signal and noise; without noise the ratio counts as zero.
pub open spec fn heard(i: RxAntennaItem, rssi: i8, noise: i8) -> RxAntennaItem {
    let snr = if noise != i8::MAX {
        rssi.wrapping_sub(noise)
    } else {
        0
    };
    let first = i.count_all == 0;
    RxAntennaItem {
        count_all: i.count_all.wrapping_add(1),
        rssi_sum: i.rssi_sum.wrapping_add(rssi as i32),
        rssi_min: if first {
            rssi
        } else {
            min_i8(i.rssi_min, rssi)
        },
        rssi_max: if first {
            rssi
        } else {
            max_i8(i.rssi_max, rssi)
        },
        snr_sum: i.snr_sum.wrapping_add(snr as i32),
        snr_min: if first {
            snr
        } else {
            min_i8(i.snr_min, snr)
        },
        snr_max: if first {
            snr
        } else {
            max_i8(i.snr_max, snr)
        },
    }
}

impl RxAntennaItem {
    pub fn new() -> (i: RxAntennaItem)
        ensures
            i == no_reception(),
    {
        RxAntennaItem {
            count_all: 0,
            rssi_sum: 0,
            rssi_min: 0,
            rssi_max: 0,
            snr_sum: 0,
            snr_min: 0,
            snr_max: 0,
        }
    }

    pub fn log_rssi(&mut self, rssi: i8, noise: i8)
        ensures
            *final(self) == heard(*old(self), rssi, noise),
    {
        let snr: i8 = if noise != i8::MAX {
            rssi.wrapping_sub(noise)
        } else {
            0
        };
        if self.count_all == 0 {
            self.rssi_min = rssi;
            self.rssi_max = rssi;
            self.snr_min = snr;
            self.snr_max = snr;
        } else {
            if rssi < self.rssi_min {
                self.rssi_min = rssi;
            }
            if rssi > self.rssi_max {
                self.rssi_max = rssi;
            }
            if snr < self.snr_min {
                self.snr_min = snr;
            }
            if snr > self.snr_max {
                self.snr_max = snr;
            }
        }
        self.rssi_sum = self.rssi_sum.wrapping_add(rssi as i32);
        self.snr_sum = self.snr_sum.wrapping_add(snr as i32);
        self.count_all = self.count_all.wrapping_add(1);
    }
}

/// What the statistics of an antenna are kept by.
#[derive(Clone, Copy, Debug, PartialEq, Eq, Structural)]
pub struct RxAntennaKey {
    pub freq: u16,
    pub antenna_id: u64,
    pub mcs_index: u8,
    pub bandwidth: u8,
}

impl RxAntennaKey {
    /// The key as a number.
    pub open spec fn packed(&self) -> u128 {
        (self.antenna_id * 0x1_0000_0000 + self.freq * 0x1_0000 + self.mcs_index * 0x100
            + self.bandwidth) as u128
    }

    pub fn pack(&self) -> (k: u128)
        ensures
            k == self.packed(),
    {
        self.antenna_id as u128 * 0x1_0000_0000 + self.freq as u128 * 0x1_0000 + self.mcs_index as u128
            * 0x100 + self.bandwidth as u128
    }

    pub fn unpack(k: u128) -> (key: RxAntennaKey)
        requires
            k <= 0xffff_ffff_ffff_ffff_ffff_ffff,
        ensures
            key.packed() == k,
    {
        let without_bandwidth: u128 = k / 0x100;
        let without_mcs: u128 = without_bandwidth / 0x100;
        let antenna_id: u128 = without_mcs / 0x1_0000;
        RxAntennaKey {
            antenna_id: antenna_id as u64,
            freq: (without_mcs % 0x1_0000) as u16,
            mcs_index: (without_bandwidth % 0x100) as u8,
            bandwidth: (k % 0x100) as u8,
        }
    }
}

/// Different keys have different numbers.
pub proof fn lemma_packed_injective(a: RxAntennaKey, b: RxAntennaKey)
    requires
        a.packed() == b.packed(),
    ensures
        a == b,
{
}

/// The number of an antenna: the forwarder's address, the interface and the antenna on it.
pub open spec fn antenna_id(sockaddr: Option<SockaddrIn>, wlan_idx: u8, ant: u8) -> u64 {
    let host = match sockaddr {
        Some(a) => if a.sin_family == AF_INET {
            a.s_addr
        } else {
            0
        },
        None => 0,
    };
    (host * 0x1_0000_0000 + wlan_idx * 0x100 + ant) as u64
}

/// How a packet was received.
pub struct Reception {
    pub sockaddr: Option<SockaddrIn>,
    pub wlan_idx: u8,
    pub antenna: Seq<u8>,
    pub rssi: Seq<i8>,
    pub noise: Seq<i8>,
    pub freq: u16,
    pub mcs_index: u8,
    pub bandwidth: u8,
}

/// The key of antenna `i` of a reception.
pub open spec fn reception_key(q: Reception, i: int) -> u128 {
    RxAntennaKey {
        freq: q.freq,
        antenna_id: antenna_id(q.sockaddr, q.wlan_idx, q.antenna[i]),
        mcs_index: q.mcs_index,
        bandwidth: q.bandwidth,
    }.packed()
}

/// The statistics after a packet was received on the antennas from `i` on, up to the first that is
/// none.
pub open spec fn reception_logged(m: Map<u128, RxAntennaItem>, q: Reception, i: int) -> Map<
    u128,
    RxAntennaItem,
>
    decreases 4 - i,
{
    if i >= 4 || q.antenna[i] == 0xff {
        m
    } else {
        let key = reception_key(q, i);
        let before = if m.contains_key(key) {
            m[key]
        } else {
            no_reception()
        };
        reception_logged(m.insert(key, heard(before, q.rssi[i], q.noise[i])), q, i + 1)
    }
}

/// Keys are numbers of keys.
pub open spec fn stats_wf(m: Map<u128, RxAntennaItem>) -> bool {
    forall|k: u128| #[trigger] m.contains_key(k) ==> k <= 0xffff_ffff_ffff_ffff_ffff_ffff
}

/// Enters a packet into the statistics.
pub fn log_rssi(
    antenna_stat: &mut HashMap<u128, RxAntennaItem>,
    sockaddr: Option<SockaddrIn>,
    wlan_idx: u8,
    ant: &[u8; 4],
    rssi: &[i8; 4],
    noise: &[i8; 4],
    freq: u16,
    mcs_index: u8,
    bandwidth: u8,
)
    requires
        stats_wf(old(antenna_stat)@),
    ensures
        final(antenna_stat)@ == reception_logged(
            old(antenna_stat)@,
            (Reception {
                sockaddr,
                wlan_idx,
                antenna: ant@,
                rssi: rssi@,
                noise: noise@,
                freq,
                mcs_index,
                bandwidth,
            }),
            0,
        ),
        stats_wf(final(antenna_stat)@),
{
    broadcast use vstd::std_specs::hash::group_hash_axioms;

    let ghost q = Reception {
        sockaddr,
        wlan_idx,
        antenna: ant@,
        rssi: rssi@,
        noise: noise@,
        freq,
        mcs_index,
        bandwidth,
    };
    let mut i: usize = 0;
    while i < 4 && ant[i] != 0xff
        invariant
            i <= 4,
            q == (Reception {
                sockaddr,
                wlan_idx,
                antenna: ant@,
                rssi: rssi@,
                noise: noise@,
                freq,
                mcs_index,
                bandwidth,
            }),
            stats_wf(antenna_stat@),
            reception_logged(antenna_stat@, q, i as int) == reception_logged(
                old(antenna_stat)@,
                q,
                0,
            ),
        decreases 4 - i,
    {
        let mut host: u32 = 0;
        if let Some(addr) = sockaddr {
            if addr.sin_family == AF_INET {
                host = addr.s_addr;
            }
        }
        let id: u64 = host as u64 * 0x1_0000_0000 + wlan_idx as u64 * 0x100 + ant[i] as u64;
        let key = RxAntennaKey { freq, antenna_id: id, mcs_index, bandwidth };
        let number: u128 = key.pack();
        let mut item = match antenna_stat.get(&number) {
            Some(item) => *item,
            None => RxAntennaItem::new(),
        };
        item.log_rssi(rssi[i], noise[i]);
        antenna_stat.insert(number, item);
        i = i + 1;
    }
}

/// The quotient rounded toward zero.
pub open spec fn quotient(a: int, b: int) -> int {
    if a >= 0 && b > 0 {
        a / b
    } else if a < 0 && b > 0 {
        -((-a) / b)
    } else if a >= 0 {
        -(a / (-b))
    } else {
        (-a) / (-b)
    }
}

fn average(sum: i32, count: i32) -> (r: i64)
    requires
        count != 0,
    ensures
        r == quotient(sum as int, count as int),
{
    let a: u64 = if sum < 0 {
        (-(sum as i64)) as u64
    } else {
        sum as u64
    };
    let b: u64 = if count < 0 {
        (-(count as i64)) as u64
    } else {
        count as u64
    };
    proof {
        assert(a / b <= a) by (nonlinear_arith)
            requires
                b > 0,
        ;
    }
    let q: i64 = (a / b) as i64;
    if (sum < 0) == (count < 0) {
        q
    } else {
        -q
    }
}

/// The line of an antenna in the report.
#[derive(Clone, Copy, Debug, PartialEq, Eq, Structural)]
pub struct RxAntReport {
    pub key: RxAntennaKey,
    pub count_all: i32,
    pub rssi_min: i8,
    pub rssi_avg: i64,
    pub rssi_max: i8,
    pub snr_min: i8,
    pub snr_avg: i64,
    pub snr_max: i8,
}

/// The line tells what was heard on the antenna: extremes and averages.
pub open spec fn line_of(line: RxAntReport, item: RxAntennaItem) -> bool {
    &&& line.count_all == item.count_all
    &&& line.rssi_min == item.rssi_min
    &&& line.rssi_avg == quotient(item.rssi_sum as int, item.count_all as int)
    &&& line.rssi_max == item.rssi_max
    &&& line.snr_min == item.snr_min
    &&& line.snr_avg == quotient(item.snr_sum as int, item.count_all as int)
    &&& line.snr_max == item.snr_max
}

/// The lines of all antennas on which something was heard, one for each, in any order.
pub open spec fn report_of(lines: Seq<RxAntReport>, m: Map<u128, RxAntennaItem>) -> bool {
    &&& forall|i: int|
        0 <= i < lines.len() ==> {
            let k = (#[trigger] lines[i]).key.packed();
            m.contains_key(k) && m[k].count_all != 0 && line_of(lines[i], m[k])
        }
    &&& forall|i: int, j: int|
        0 <= i < j < lines.len() ==> (#[trigger] lines[i]).key != (#[trigger] lines[j]).key
    &&& forall|k: u128| #[trigger]
        m.contains_key(k) && m[k].count_all != 0 ==> exists|i: int|
            0 <= i < lines.len() && (#[trigger] lines[i]).key.packed() == k
}

/// Reports what was heard on each antenna.
pub fn antenna_report(antenna_stat: &HashMap<u128, RxAntennaItem>) -> (lines: Vec<RxAntReport>)
    requires
        stats_wf(antenna_stat@),
    ensures
        report_of(lines@, antenna_stat@),
{
    broadcast use vstd::std_specs::hash::group_hash_axioms;

    let pairs = table_pairs(antenna_stat);
    let mut lines: Vec<RxAntReport> = Vec::new();
    let ghost m = antenna_stat@;
    let mut at: usize = 0;
    while at < pairs.len()
        invariant
            at <= pairs@.len(),
            m == antenna_stat@,
            stats_wf(m),
            pairs_of(pairs@, m),
            forall|i: int|
                0 <= i < lines@.len() ==> {
                    let k = (#[trigger] lines@[i]).key.packed();
                    m.contains_key(k) && m[k].count_all != 0 && line_of(lines@[i], m[k])
                },
            forall|i: int|
                0 <= i < lines@.len() ==> pairs@.take(at as int).contains(
                    ((#[trigger] lines@[i]).key.packed(), m[lines@[i].key.packed()]),
                ),
            forall|i: int, j: int|
                0 <= i < j < lines@.len() ==> (#[trigger] lines@[i]).key != (#[trigger] lines@[j]).key,
            forall|j: int|
                0 <= j < at && (#[trigger] pairs@[j]).1.count_all != 0 ==> exists|i: int|
                    0 <= i < lines@.len() && (#[trigger] lines@[i]).key.packed() == pairs@[j].0,
        decreases pairs@.len() - at,
    {
        let (k, item) = pairs[at];
        let ghost before = lines@;
        assert(m.contains_key(pairs@[at as int].0));
        if item.count_all != 0 {
            let line = RxAntReport {
                key: RxAntennaKey::unpack(k),
                count_all: item.count_all,
                rssi_min: item.rssi_min,
                rssi_avg: average(item.rssi_sum, item.count_all),
                rssi_max: item.rssi_max,
                snr_min: item.snr_min,
                snr_avg: average(item.snr_sum, item.count_all),
                snr_max: item.snr_max,
            };
            lines.push(line);
        }
        proof {
            let more = pairs@.take(at + 1);
            assert forall|i: int| 0 <= i < lines@.len() implies more.contains(
                ((#[trigger] lines@[i]).key.packed(), m[lines@[i].key.packed()]),
            ) by {
                if i < before.len() {
                    let p = (before[i].key.packed(), m[before[i].key.packed()]);
                    assert(pairs@.take(at as int).contains(p));
                    let j = choose|j: int| 0 <= j < at && pairs@.take(at as int)[j] == p;
                    assert(more[j] == p);
                } else {
                    assert(more[at as int] == pairs@[at as int]);
                }
            }
            assert forall|i: int, j: int| 0 <= i < j < lines@.len() implies (#[trigger] lines@[i]).key
                != (#[trigger] lines@[j]).key by {
                if j == before.len() {
                    let p = (before[i].key.packed(), m[before[i].key.packed()]);
                    assert(pairs@.take(at as int).contains(p));
                    let h = choose|h: int| 0 <= h < at && pairs@.take(at as int)[h] == p;
                    assert(pairs@[h].0 != pairs@[at as int].0);
                }
            }
            assert forall|j: int| 0 <= j < at + 1 && (#[trigger] pairs@[j]).1.count_all != 0 implies exists|
                i: int,
            | 0 <= i < lines@.len() && (#[trigger] lines@[i]).key.packed() == pairs@[j].0 by {
                if j < at {
                    let i = choose|i: int|
                        0 <= i < before.len() && (#[trigger] before[i]).key.packed() == pairs@[j].0;
                    assert(lines@[i].key.packed() == pairs@[j].0);
                } else {
                    assert(lines@[before.len() as int].key.packed() == pairs@[j].0);
                }
            }
        }
        at = at + 1;
    }
    proof {
        assert forall|k: u128| #[trigger] m.contains_key(k) && m[k].count_all != 0 implies exists|i: int|
            0 <= i < lines@.len() && (#[trigger] lines@[i]).key.packed() == k by {
            let j = choose|j: int| 0 <= j < pairs@.len() && (#[trigger] pairs@[j]).0 == k;
            assert(pairs@[j].1.count_all != 0);
        }
    }
    lines
}

} // verus!
