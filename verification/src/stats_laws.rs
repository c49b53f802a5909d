//! What the statistics of the antennas tell of the packets that were heard.
use crate::rx_stats::{
    antenna_id, heard, no_reception, quotient, reception_key, reception_logged, report_of, Reception,
    RxAntReport, RxAntennaItem, RxAntennaKey, SockaddrIn,
};
use crate::rx_stats::lemma_packed_injective;
use vstd::prelude::*;

verus! {

/// An antenna, and how it was heard on.
pub struct Place {
    /// The forwarder's IPv4 address; zero where there is none.
    pub host: u32,
    pub wlan_idx: u8,
    pub antenna: u8,
    pub freq: u16,
    pub mcs_index: u8,
    pub bandwidth: u8,
}

/// Where antenna `i` of a reception is.
pub open spec fn place_of(q: Reception, i: int) -> Place {
    Place {
        host: match q.sockaddr {
            Some(a) if a.sin_family == 2 => a.s_addr,
            _ => 0,
        },
        wlan_idx: q.wlan_idx,
        antenna: q.antenna[i],
        freq: q.freq,
        mcs_index: q.mcs_index,
        bandwidth: q.bandwidth,
    }
}

/// The key under which the report speaks of a place.
pub open spec fn place_key(w: Place) -> RxAntennaKey {
    RxAntennaKey {
        freq: w.freq,
        antenna_id: (w.host * 0x1_0000_0000 + w.wlan_idx * 0x100 + w.antenna) as u64,
        mcs_index: w.mcs_index,
        bandwidth: w.bandwidth,
    }
}

/// Signal and noise of a reception at a place, on its antennas from `i` on up to the first that is none.
pub open spec fn heard_from(q: Reception, i: int, w: Place) -> Seq<(i8, i8)>
    decreases 4 - i,
{
    if i >= 4 || q.antenna[i] == 0xff {
        Seq::empty()
    } else if place_of(q, i) == w {
        seq![(q.rssi[i], q.noise[i])] + heard_from(q, i + 1, w)
    } else {
        heard_from(q, i + 1, w)
    }
}

/// Signal and noise of the first `n` receptions at a place, in order.
pub open spec fn signals(qs: Seq<Reception>, n: int, w: Place) -> Seq<(i8, i8)>
    decreases n,
{
    if n <= 0 {
        Seq::empty()
    } else {
        signals(qs, n - 1, w) + heard_from(qs[n - 1], 0, w)
    }
}

/// The statistics after the first `n` receptions.
pub open spec fn all_logged(qs: Seq<Reception>, n: int) -> Map<u128, RxAntennaItem>
    decreases n,
{
    if n <= 0 {
        Map::empty()
    } else {
        reception_logged(all_logged(qs, n - 1), qs[n - 1], 0)
    }
}

/// The signal over the noise, in eight bits; without noise it is zero.
pub open spec fn ratio(s: (i8, i8)) -> i8 {
    if s.1 == 127 {
        0
    } else {
        s.0.wrapping_sub(s.1)
    }
}

pub open spec fn rssis(s: Seq<(i8, i8)>) -> Seq<i8> {
    Seq::new(s.len(), |i: int| s[i].0)
}

pub open spec fn ratios(s: Seq<(i8, i8)>) -> Seq<i8> {
    Seq::new(s.len(), |i: int| ratio(s[i]))
}

pub open spec fn total(s: Seq<i8>) -> int
    decreases s.len(),
{
    if s.len() == 0 {
        0
    } else {
        total(s.drop_last()) + s.last()
    }
}

/// The two numbers are the least and the greatest of these.
pub open spec fn extremes(s: Seq<i8>, least: i8, greatest: i8) -> bool {
    &&& s.contains(least)
    &&& s.contains(greatest)
    &&& forall|i: int| 0 <= i < s.len() ==> least <= #[trigger] s[i] <= greatest
}

/// What is kept of an antenna tells how many packets were heard on it and how.
pub open spec fn tells(item: RxAntennaItem, s: Seq<(i8, i8)>) -> bool {
    &&& item.count_all == s.len()
    &&& item.rssi_sum == total(rssis(s))
    &&& item.snr_sum == total(ratios(s))
    &&& extremes(rssis(s), item.rssi_min, item.rssi_max)
    &&& extremes(ratios(s), item.snr_min, item.snr_max)
}

/// The table has an item for each place at which something was heard, and no other; as long as the sums
/// are in range, it tells what.
pub open spec fn table_tells(m: Map<u128, RxAntennaItem>, s: spec_fn(Place) -> Seq<(i8, i8)>) -> bool {
    &&& forall|w: Place|
        #![trigger s(w)]
        m.contains_key(place_key(w).packed()) == (s(w).len() > 0)
    &&& forall|w: Place|
        #![trigger s(w)]
        0 < s(w).len() < 0x100_0000 ==> tells(m[place_key(w).packed()], s(w))
}

/// Antennas of different interfaces are told apart, whoever forwards them: equal numbers mean the same
/// interface and the same antenna on it.  The interface and the antenna are the two lowest bytes of the
/// number, the forwarder's address is the upper half.
pub proof fn lemma_antennas_told_apart(
    s: Option<SockaddrIn>,
    wlan_idx: u8,
    ant: u8,
    t: Option<SockaddrIn>,
    other_wlan: u8,
    other_ant: u8,
)
    ensures
        antenna_id(s, wlan_idx, ant) % 256 == ant,
        antenna_id(s, wlan_idx, ant) / 256 % 256 == wlan_idx,
        antenna_id(s, wlan_idx, ant) / 0x1_0000 % 0x1_0000 == 0,
        antenna_id(s, wlan_idx, ant) / 0x1_0000_0000 == (match s {
            Some(a) if a.sin_family == 2 => a.s_addr,
            _ => 0u32,
        }),
        antenna_id(s, wlan_idx, ant) == antenna_id(t, other_wlan, other_ant) ==> wlan_idx == other_wlan
            && ant == other_ant,
{
    lemma_antenna_number(s, wlan_idx, ant);
    lemma_antenna_number(t, other_wlan, other_ant);
}

proof fn lemma_antenna_number(s: Option<SockaddrIn>, wlan_idx: u8, ant: u8)
    ensures
        antenna_id(s, wlan_idx, ant) % 256 == ant,
        antenna_id(s, wlan_idx, ant) / 256 % 256 == wlan_idx,
        antenna_id(s, wlan_idx, ant) / 0x1_0000 % 0x1_0000 == 0,
        antenna_id(s, wlan_idx, ant) / 0x1_0000_0000 == (match s {
            Some(a) if a.sin_family == 2 => a.s_addr,
            _ => 0u32,
        }),
{
    let host: u32 = match s {
        Some(a) if a.sin_family == 2 => a.s_addr,
        _ => 0u32,
    };
    let low = wlan_idx * 0x100 + ant;
    let id = host * 0x1_0000_0000 + low;
    assert(antenna_id(s, wlan_idx, ant) == id);
    assert(id / 0x1_0000_0000 == host);
    assert(id / 0x100 == host * 0x100_0000 + wlan_idx);
    assert(id / 0x1_0000 == host * 0x1_0000);
}

proof fn lemma_place_keys(w: Place, v: Place)
    ensures
        place_key(w).packed() == place_key(v).packed() ==> w == v,
{
    if place_key(w).packed() == place_key(v).packed() {
        lemma_packed_injective(place_key(w), place_key(v));
    }
}

proof fn lemma_total_range(s: Seq<i8>)
    ensures
        -128 * s.len() <= total(s) <= 127 * s.len(),
    decreases s.len(),
{
    if s.len() > 0 {
        lemma_total_range(s.drop_last());
    }
}

proof fn lemma_extremes_push(s: Seq<i8>, least: i8, greatest: i8, x: i8)
    requires
        s.len() == 0 || extremes(s, least, greatest),
    ensures
        extremes(
            s.push(x),
            if s.len() == 0 || x < least {
                x
            } else {
                least
            },
            if s.len() == 0 || x > greatest {
                x
            } else {
                greatest
            },
        ),
{
    let t = s.push(x);
    assert(t[s.len() as int] == x);
    if s.len() > 0 {
        let i = choose|i: int| 0 <= i < s.len() && s[i] == least;
        let j = choose|j: int| 0 <= j < s.len() && s[j] == greatest;
        assert(t[i] == least && t[j] == greatest);
        assert forall|h: int| 0 <= h < t.len() implies (if x < least {
            x
        } else {
            least
        }) <= #[trigger] t[h] <= (if x > greatest {
            x
        } else {
            greatest
        }) by {
            if h < s.len() {
                assert(t[h] == s[h]);
            }
        }
    }
}

/// One more packet on an antenna.
proof fn lemma_one_more(item: RxAntennaItem, s: Seq<(i8, i8)>, x: (i8, i8))
    requires
        s.len() + 1 < 0x100_0000,
        if s.len() == 0 {
            item == no_reception()
        } else {
            tells(item, s)
        },
    ensures
        tells(heard(item, x.0, x.1), s.push(x)),
{
    let t = s.push(x);
    assert(rssis(t) =~= rssis(s).push(x.0));
    assert(ratios(t) =~= ratios(s).push(ratio(x)));
    assert(rssis(t).drop_last() =~= rssis(s));
    assert(ratios(t).drop_last() =~= ratios(s));
    lemma_total_range(rssis(s));
    lemma_total_range(ratios(s));
    lemma_total_range(rssis(t));
    lemma_total_range(ratios(t));
    lemma_extremes_push(rssis(s), item.rssi_min, item.rssi_max, x.0);
    lemma_extremes_push(ratios(s), item.snr_min, item.snr_max, ratio(x));
}

proof fn lemma_reception_tells(
    m: Map<u128, RxAntennaItem>,
    q: Reception,
    i: int,
    s: spec_fn(Place) -> Seq<(i8, i8)>,
    t: spec_fn(Place) -> Seq<(i8, i8)>,
)
    requires
        0 <= i <= 4,
        table_tells(m, s),
        forall|w: Place| #[trigger] t(w) == s(w) + heard_from(q, i, w),
    ensures
        table_tells(reception_logged(m, q, i), t),
    decreases 4 - i,
{
    if i >= 4 || q.antenna[i] == 0xff {
        assert forall|w: Place| #[trigger] t(w) == s(w) by {
            assert(s(w) + Seq::<(i8, i8)>::empty() =~= s(w));
        }
    } else {
        let key = reception_key(q, i);
        let v = place_of(q, i);
        let x = (q.rssi[i], q.noise[i]);
        assert(key == place_key(v).packed());
        let before = if m.contains_key(key) {
            m[key]
        } else {
            no_reception()
        };
        let next = m.insert(key, heard(before, x.0, x.1));
        let u = |w: Place|
            if w == v {
                s(w).push(x)
            } else {
                s(w)
            };
        assert(s(v).len() >= 0);
        if s(v).len() + 1 < 0x100_0000 {
            lemma_one_more(before, s(v), x);
        }
        assert forall|w: Place|
            #![trigger u(w)]
            {
                &&& next.contains_key(place_key(w).packed()) == (u(w).len() > 0)
                &&& 0 < u(w).len() < 0x100_0000 ==> tells(next[place_key(w).packed()], u(w))
            } by {
            lemma_place_keys(w, v);
            assert(s(w).len() >= 0);
        }
        assert forall|w: Place| #[trigger] t(w) == u(w) + heard_from(q, i + 1, w) by {
            assert(t(w) =~= u(w) + heard_from(q, i + 1, w));
        }
        lemma_reception_tells(next, q, i + 1, u, t);
    }
}

/// After any receptions the statistics tell of each place how many packets were heard at it, the sum, the
/// least and the greatest of their signals, and the same of the ratio of signal and noise; of other
/// places there is nothing.
pub proof fn lemma_statistics_tell(qs: Seq<Reception>, n: int)
    requires
        0 <= n <= qs.len(),
    ensures
        table_tells(all_logged(qs, n), |w: Place| signals(qs, n, w)),
    decreases n,
{
    let s = |w: Place| signals(qs, n, w);
    if n == 0 {
        assert forall|w: Place| #[trigger] s(w).len() == 0 by {}
    } else {
        lemma_statistics_tell(qs, n - 1);
        let before = |w: Place| signals(qs, n - 1, w);
        assert forall|w: Place| #[trigger] s(w) == before(w) + heard_from(qs[n - 1], 0, w) by {}
        lemma_reception_tells(all_logged(qs, n - 1), qs[n - 1], 0, before, s);
    }
}

/// `q` is the quotient rounded toward zero.
pub open spec fn rounds(q: int, sum: int, count: int) -> bool {
    if sum >= 0 {
        q * count <= sum < (q + 1) * count
    } else {
        (q - 1) * count < sum <= q * count
    }
}

/// The line is that of the place, and tells the number, the extremes and the averages of these signals.
pub open spec fn line_tells(line: RxAntReport, w: Place, s: Seq<(i8, i8)>) -> bool {
    &&& line.key.antenna_id == w.host * 0x1_0000_0000 + w.wlan_idx * 0x100 + w.antenna
    &&& line.key.freq == w.freq
    &&& line.key.mcs_index == w.mcs_index
    &&& line.key.bandwidth == w.bandwidth
    &&& line.count_all == s.len()
    &&& extremes(rssis(s), line.rssi_min, line.rssi_max)
    &&& extremes(ratios(s), line.snr_min, line.snr_max)
    &&& rounds(line.rssi_avg as int, total(rssis(s)), s.len() as int)
    &&& rounds(line.snr_avg as int, total(ratios(s)), s.len() as int)
}

proof fn lemma_rounds(sum: int, count: int)
    requires
        count > 0,
    ensures
        rounds(quotient(sum, count), sum, count),
{
    let a = if sum >= 0 {
        sum
    } else {
        -sum
    };
    vstd::arithmetic::div_mod::lemma_fundamental_div_mod(a, count);
    vstd::arithmetic::div_mod::lemma_mod_bound(a, count);
    let d = a / count;
    assert(d * count <= a < (d + 1) * count) by (nonlinear_arith)
        requires
            a == count * d + a % count,
            0 <= a % count < count,
    ;
    assert(-(d * count) == (-d) * count) by (nonlinear_arith);
    assert(-((d + 1) * count) == (-d - 1) * count) by (nonlinear_arith);
}

/// The report has a line for each place at which packets were heard, one and no more, and it tells how
/// many and how strong they were.
pub proof fn lemma_report_tells(qs: Seq<Reception>, lines: Seq<RxAntReport>, w: Place)
    requires
        report_of(lines, all_logged(qs, qs.len() as int)),
        signals(qs, qs.len() as int, w).len() < 0x100_0000,
    ensures
        signals(qs, qs.len() as int, w).len() == 0 ==> forall|i: int|
            0 <= i < lines.len() ==> (#[trigger] lines[i]).key != place_key(w),
        signals(qs, qs.len() as int, w).len() > 0 ==> exists|i: int|
            {
                &&& 0 <= i < lines.len()
                &&& line_tells(#[trigger] lines[i], w, signals(qs, qs.len() as int, w))
                &&& forall|j: int| 0 <= j < lines.len() && j != i ==> (#[trigger] lines[j]).key != lines[i].key
            },
{
    let n = qs.len() as int;
    let s = |w: Place| signals(qs, n, w);
    let m = all_logged(qs, n);
    let k = place_key(w).packed();
    lemma_statistics_tell(qs, n);
    assert(s(w) == signals(qs, n, w));
    assert(m.contains_key(k) == (s(w).len() > 0));
    if s(w).len() > 0 {
        assert(tells(m[k], s(w)));
        let i = choose|i: int| 0 <= i < lines.len() && (#[trigger] lines[i]).key.packed() == k;
        lemma_packed_injective(lines[i].key, place_key(w));
        lemma_rounds(total(rssis(s(w))), s(w).len() as int);
        lemma_rounds(total(ratios(s(w))), s(w).len() as int);
        assert(line_tells(lines[i], w, signals(qs, n, w)));
    }
}

} // verus!
