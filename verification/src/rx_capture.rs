//! Reading captured frames.
use crate::bytes::{byte_to_i8, copy_range, get_unaligned_le32, i8_of_byte, le32};
use crate::radiotap::{
    ieee80211_radiotap_iterator_init, ieee80211_radiotap_iterator_next, lemma_radiotap_walk,
    radiotap_accepts, radiotap_len, radiotap_start, radiotap_walk, Ieee80211RadiotapIterator,
    Ieee80211RadiotapNamespace, Ieee80211RadiotapVendorNamespaces, RadiotapStep, ENOENT, IEEE80211_RADIOTAP_ANTENNA,
    IEEE80211_RADIOTAP_CHANNEL, IEEE80211_RADIOTAP_DBM_ANTNOISE, IEEE80211_RADIOTAP_DBM_ANTSIGNAL,
    IEEE80211_RADIOTAP_FLAGS, IEEE80211_RADIOTAP_MCS, IEEE80211_RADIOTAP_TX_FLAGS,
    IEEE80211_RADIOTAP_VHT, RTAP_SIZES,
};
use crate::wifibroadcast::{IEEE80211_HEADER_LEN, IEEE80211_RADIOTAP_MCS_HAVE_MCS, RX_ANT_MAX};
use vstd::prelude::*;

verus! {

/// How a packet was heard.
#[derive(Clone, Copy, Debug, PartialEq, Eq)]
pub struct RadioInfo {
    /// The number of antennas that the header names.
    pub ant_idx: usize,
    pub freq: u32,
    /// Antennas, with 255 for none, and the signal and noise of each.
    pub antenna: [u8; 4],
    pub rssi: [i8; 4],
    pub noise: [i8; 4],
    pub flags: u8,
    pub self_injected: bool,
    pub mcs_index: u8,
    pub bandwidth: u8,
}

/// The same in mathematical terms.
pub struct RadioInfoView {
    pub ant_idx: int,
    pub freq: u32,
    pub antenna: Seq<u8>,
    pub rssi: Seq<i8>,
    pub noise: Seq<i8>,
    pub flags: u8,
    pub self_injected: bool,
    pub mcs_index: u8,
    pub bandwidth: u8,
}

impl View for RadioInfo {
    type V = RadioInfoView;

    open spec fn view(&self) -> RadioInfoView {
        RadioInfoView {
            ant_idx: self.ant_idx as int,
            freq: self.freq,
            antenna: self.antenna@,
            rssi: self.rssi@,
            noise: self.noise@,
            flags: self.flags,
            self_injected: self.self_injected,
            mcs_index: self.mcs_index,
            bandwidth: self.bandwidth,
        }
    }
}

/// A packet of the link with what is known of its reception.
#[derive(Clone, Debug)]
pub struct CapturedPacket {
    pub payload: Vec<u8>,
    pub info: RadioInfo,
}

/// Why a captured frame is passed over.
#[derive(Clone, Copy, Debug, PartialEq, Eq, Structural)]
pub enum CaptureError {
    NoRadiotapHeader,
    BadRadiotapHeader,
    SelfInjected,
    BadChecksum,
    ShortPacket,
}

/// Nothing heard yet.
pub open spec fn no_info() -> RadioInfoView {
    RadioInfoView {
        ant_idx: 0,
        freq: 0,
        antenna: seq![0xffu8, 0xff, 0xff, 0xff],
        rssi: seq![-128i8, -128i8, -128i8, -128i8],
        noise: seq![127i8, 127i8, 127i8, 127i8],
        flags: 0,
        self_injected: false,
        mcs_index: 0,
        bandwidth: 20,
    }
}

/// The bandwidth that a VHT field states, if it states one.
pub open spec fn vht_bandwidth(known: u8, code: u8, before: u8) -> u8 {
    let b = code & 0x1f;
    if known & 0x40 != 0 && 1 <= b <= 3 {
        40
    } else if known & 0x40 != 0 && 4 <= b <= 10 {
        80
    } else {
        before
    }
}

/// What the field at the iterator's position adds.
pub open spec fn noted(data: Seq<u8>, it: Ieee80211RadiotapIterator, i: RadioInfoView) -> RadioInfoView {
    let a = it.this_arg->0 as int;
    let f = it.this_arg_index;
    if f == IEEE80211_RADIOTAP_ANTENNA {
        RadioInfoView { antenna: i.antenna.update(i.ant_idx, data[a]), ant_idx: i.ant_idx + 1, ..i }
    } else if f == IEEE80211_RADIOTAP_CHANNEL {
        RadioInfoView { freq: le32(data, a) & 0xffff, ..i }
    } else if f == IEEE80211_RADIOTAP_DBM_ANTSIGNAL {
        RadioInfoView { rssi: i.rssi.update(i.ant_idx, i8_of_byte(data[a])), ..i }
    } else if f == IEEE80211_RADIOTAP_DBM_ANTNOISE {
        RadioInfoView { noise: i.noise.update(i.ant_idx, i8_of_byte(data[a])), ..i }
    } else if f == IEEE80211_RADIOTAP_FLAGS {
        RadioInfoView { flags: data[a], ..i }
    } else if f == IEEE80211_RADIOTAP_TX_FLAGS {
        RadioInfoView { self_injected: true, ..i }
    } else if f == IEEE80211_RADIOTAP_MCS {
        RadioInfoView {
            mcs_index: if data[a] & IEEE80211_RADIOTAP_MCS_HAVE_MCS != 0 {
                data[a + 2] & 0x7f
            } else {
                i.mcs_index
            },
            bandwidth: if data[a] & 1 != 0 && data[a + 1] & 1 != 0 {
                40
            } else {
                i.bandwidth
            },
            ..i
        }
    } else if f == IEEE80211_RADIOTAP_VHT {
        RadioInfoView {
            bandwidth: vht_bandwidth(data[a], data[a + 3], i.bandwidth),
            mcs_index: (data[a + 4] >> 4) & 0x0f,
            ..i
        }
    } else {
        i
    }
}

/// What all fields say, up to the fourth antenna, and the code with which the walk ended (zero if
/// the antennas ended it).
pub open spec fn radio_info(data: Seq<u8>, it: Ieee80211RadiotapIterator, i: RadioInfoView) -> (
    RadioInfoView,
    i32,
)
    decreases data.len() + 16 - it.next_bitmap, 32 - it.arg_index % 32,
        when it.wf(data, Seq::empty())
        via radio_info_decreases
{
    if i.ant_idx >= RX_ANT_MAX {
        (i, 0)
    } else {
        match radiotap_walk(data, Seq::empty(), it) {
            RadiotapStep::Found(next) => radio_info(data, next, noted(data, next, i)),
            RadiotapStep::End(e, _) => (i, e),
            RadiotapStep::Further(_) => (i, 0),
        }
    }
}

#[via_fn]
proof fn radio_info_decreases(data: Seq<u8>, it: Ieee80211RadiotapIterator, i: RadioInfoView) {
    lemma_radiotap_walk(data, Seq::empty(), it);
}

/// What a captured frame comes to.
pub open spec fn capture_outcome(data: Seq<u8>) -> Result<(Seq<u8>, RadioInfoView), CaptureError> {
    let (info, code) = radio_info(data, radiotap_start(data), no_info());
    let header = radiotap_len(data) + IEEE80211_HEADER_LEN;
    let end = if info.flags & 0x10 != 0 {
        data.len() - 4
    } else {
        data.len() as int
    };
    if !radiotap_accepts(data, data.len() as int) {
        Err(CaptureError::NoRadiotapHeader)
    } else if code != -ENOENT && info.ant_idx < RX_ANT_MAX {
        Err(CaptureError::BadRadiotapHeader)
    } else if info.self_injected {
        Err(CaptureError::SelfInjected)
    } else if info.flags & 0x40 != 0 {
        Err(CaptureError::BadChecksum)
    } else if end <= header {
        Err(CaptureError::ShortPacket)
    } else {
        Ok((data.subrange(header, end), info))
    }
}

fn note_field(data: &[u8], a: usize, f: i32, info: &mut RadioInfo, Ghost(it): Ghost<Ieee80211RadiotapIterator>)
    requires
        it.this_arg == Some(a),
        it.this_arg_index == f,
        a + it.this_arg_size <= data@.len() <= i32::MAX,
        f == 30 || (0 <= f < 23 && it.this_arg_size == RTAP_SIZES@[f as int]),
        old(info).ant_idx < RX_ANT_MAX,
    ensures
        final(info)@ == noted(data@, it, old(info)@),
        final(info).ant_idx <= RX_ANT_MAX,
{
    let at: usize = info.ant_idx;
    if f == IEEE80211_RADIOTAP_ANTENNA {
        info.antenna[at] = data[a];
        info.ant_idx = at + 1;
    } else if f == IEEE80211_RADIOTAP_CHANNEL {
        info.freq = get_unaligned_le32(data, a) & 0xffff;
    } else if f == IEEE80211_RADIOTAP_DBM_ANTSIGNAL {
        info.rssi[at] = byte_to_i8(data[a]);
    } else if f == IEEE80211_RADIOTAP_DBM_ANTNOISE {
        info.noise[at] = byte_to_i8(data[a]);
    } else if f == IEEE80211_RADIOTAP_FLAGS {
        info.flags = data[a];
    } else if f == IEEE80211_RADIOTAP_TX_FLAGS {
        info.self_injected = true;
    } else if f == IEEE80211_RADIOTAP_MCS {
        let mcs_have: u8 = data[a];
        if (mcs_have & IEEE80211_RADIOTAP_MCS_HAVE_MCS) != 0 {
            info.mcs_index = data[a + 2] & 0x7f;
        }
        if (mcs_have & 1) != 0 && (data[a + 1] & 1) != 0 {
            info.bandwidth = 40;
        }
    } else if f == IEEE80211_RADIOTAP_VHT {
        let known: u8 = data[a];
        if (known & 0x40) != 0 {
            let bwidth: u8 = data[a + 3] & 0x1f;
            if bwidth >= 1 && bwidth <= 3 {
                info.bandwidth = 40;
            } else if bwidth >= 4 && bwidth <= 10 {
                info.bandwidth = 80;
            }
        }
        info.mcs_index = (data[a + 4] >> 4) & 0x0f;
    }
}

/// Takes a captured frame apart: the packet behind its radiotap and IEEE 802.11 headers, and what
/// the radiotap header says.
pub fn parse_capture(data: &[u8]) -> (r: Result<CapturedPacket, CaptureError>)
    requires
        data@.len() <= i32::MAX,
    ensures
        match capture_outcome(data@) {
            Ok(p) => r is Ok && r->Ok_0.payload@ == p.0 && r->Ok_0.info@ == p.1,
            Err(e) => r == Err::<CapturedPacket, CaptureError>(e),
        },
{
    let vns = Ieee80211RadiotapVendorNamespaces { ns: Vec::new() };
    let mut info = RadioInfo {
        ant_idx: 0,
        freq: 0,
        antenna: [0xffu8, 0xffu8, 0xffu8, 0xffu8],
        rssi: [-128i8, -128i8, -128i8, -128i8],
        noise: [127i8, 127i8, 127i8, 127i8],
        flags: 0,
        self_injected: false,
        mcs_index: 0,
        bandwidth: 20,
    };
    let mut iterator = match ieee80211_radiotap_iterator_init(data, data.len() as i32) {
        Ok(it) => it,
        Err(_) => {
            return Err(CaptureError::NoRadiotapHeader);
        },
    };
    let mut ret: i32 = 0;
    while ret == 0 && info.ant_idx < RX_ANT_MAX
        invariant
            vns.ns@ == Seq::<Ieee80211RadiotapNamespace>::empty(),
            iterator.wf(data@, Seq::empty()) || ret != 0,
            info.ant_idx <= RX_ANT_MAX,
            data@.len() <= i32::MAX,
            iterator.max_length == radiotap_len(data@),
            ret == 0 ==> radio_info(data@, iterator, info@) == radio_info(
                data@,
                radiotap_start(data@),
                no_info(),
            ),
            ret != 0 ==> (info@, ret) == radio_info(data@, radiotap_start(data@), no_info()),
        decreases
                if ret == 0 {
                    1int
                } else {
                    0int
                }, data@.len() + 16 - iterator.next_bitmap, 32 - iterator.arg_index % 32,
    {
        proof {
            lemma_radiotap_walk(data@, Seq::empty(), iterator);
        }
        ret = ieee80211_radiotap_iterator_next(&mut iterator, data, &vns);
        if ret == 0 {
            if let Some(a) = iterator.this_arg {
                note_field(data, a, iterator.this_arg_index, &mut info, Ghost(iterator));
            }
        }
    }
    if ret != -ENOENT && info.ant_idx < RX_ANT_MAX {
        return Err(CaptureError::BadRadiotapHeader);
    }
    if info.self_injected {
        return Err(CaptureError::SelfInjected);
    }
    let mut end: i32 = data.len() as i32;
    if (info.flags & 0x10) != 0 {
        end = end - 4;
    }
    if (info.flags & 0x40) != 0 {
        return Err(CaptureError::BadChecksum);
    }
    let header: i32 = iterator.max_length + IEEE80211_HEADER_LEN as i32;
    if end <= header {
        return Err(CaptureError::ShortPacket);
    }
    Ok(CapturedPacket { payload: copy_range(data, header as usize, end as usize), info })
}

} // verus!
