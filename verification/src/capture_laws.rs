//! What a receiver makes of captured frames, those of its own side among them.
use crate::bytes::{i8_of_byte, le16, le32};
use crate::radiotap::{
    next_bit, radiotap_accepts, radiotap_len, radiotap_start, radiotap_step, radiotap_walk, Ieee80211RadiotapIterator,
    Ieee80211RadiotapNamespace, RadiotapStep, ENOENT, RTAP_ALIGNMENTS, RTAP_SIZES,
};
use crate::radiotap::{lemma_fields_aligned, lemma_radiotap_step};
use crate::radio_laws::{lemma_ht_settings_read_back, lemma_vht_settings_read_back};
use crate::radiotap_laws::{at_bit, bit_set, field_at, fields_end, standard_bitmap};
use crate::radiotap_laws::{lemma_shift_again, lemma_shifts, lemma_walk_bit, lemma_walk_start};
use crate::rx_capture::{capture_outcome, no_info, noted, radio_info, CaptureError, RadioInfoView};
use crate::tx_frame::radiotap_bytes;
use crate::wifibroadcast::{RADIOTAP_HEADER_HT, RADIOTAP_HEADER_VHT};
use vstd::prelude::*;

verus! {

/// `n` bits further.
spec fn bits_skipped(it: Ieee80211RadiotapIterator, n: int) -> Ieee80211RadiotapIterator {
    Ieee80211RadiotapIterator {
        bitmap_shifter: it.bitmap_shifter >> (n as u32),
        arg_index: (it.arg_index + n) as i32,
        ..it
    }
}

/// Bits that are not set are passed over.
#[verifier::rlimit(40)]
proof fn lemma_walk_skips(
    data: Seq<u8>,
    ns: Seq<Ieee80211RadiotapNamespace>,
    it: Ieee80211RadiotapIterator,
    n: int,
)
    requires
        it.wf(data, ns),
        0 <= n,
        it.arg_index % 32 + n <= 31,
        forall|j: u32| j < n ==> !#[trigger] bit_set(it.bitmap_shifter, j),
    ensures
        bits_skipped(it, n).wf(data, ns),
        radiotap_walk(data, ns, it) == radiotap_walk(data, ns, bits_skipped(it, n)),
    decreases n,
{
    lemma_shifts(it.bitmap_shifter, 1);
    if n > 0 {
        let next = next_bit(it);
        assert(!bit_set(it.bitmap_shifter, 0));
        lemma_radiotap_step(data, ns, it);
        assert(radiotap_step(data, ns, it) == RadiotapStep::Further(next));
        assert forall|j: u32| j < n - 1 implies !#[trigger] bit_set(next.bitmap_shifter, j) by {
            lemma_shifts(it.bitmap_shifter, (j + 1) as u32);
            assert(!bit_set(it.bitmap_shifter, (j + 1) as u32));
        }
        lemma_walk_skips(data, ns, next, n - 1);
        lemma_shifts(it.bitmap_shifter, n as u32);
        assert(bits_skipped(next, n - 1) == bits_skipped(it, n));
    }
}

/// The bitmaps of the headers that are sent: transmit flags, then MCS or VHT.
proof fn lemma_sent_bitmaps(j: u32)
    by (bit_vector)
    requires
        j < 32,
    ensures
        ((0x0008_8000u32 >> j) & 1 != 0) == (j == 15 || j == 19),
        ((0x0020_8000u32 >> j) & 1 != 0) == (j == 15 || j == 21),
{
}

/// A header with transmit flags and one more field, MCS or VHT, and nothing else.
proof fn lemma_transmit_header(data: Seq<u8>, field: int, len: int)
    requires
        len <= data.len(),
        data[0] == 0,
        le16(data, 2) == len,
        field == 19 && len == 13 && le32(data, 4) == 0x0008_8000 || field == 21 && len == 22 && le32(
            data,
            4,
        ) == 0x0020_8000,
    ensures
        capture_outcome(data) == Err::<(Seq<u8>, RadioInfoView), CaptureError>(CaptureError::SelfInjected),
{
    let ns = Seq::<Ieee80211RadiotapNamespace>::empty();
    let bitmap = le32(data, 4);
    let start = radiotap_start(data);
    assert forall|j: u32| j < 32 implies #[trigger] bit_set(bitmap, j) == (j == 15 || j == field) by {
        lemma_sent_bitmaps(j);
    }
    lemma_shifts(bitmap, 31);
    assert(!bit_set(bitmap, 31));
    assert(start.ext_bit() == 0);
    assert(start.wf(data, ns));
    // The transmit flags.
    lemma_walk_skips(data, ns, start, 15);
    let at_flags = bits_skipped(start, 15);
    assert(bit_set(bitmap, 15));
    lemma_bit_low(bitmap >> 15);
    lemma_fields_aligned(8, 2);
    lemma_aligned_offsets();
    let flags = next_bit(
        Ieee80211RadiotapIterator {
            this_arg: Some(8usize),
            this_arg_index: 15,
            this_arg_size: 2,
            arg: Some(10usize),
            ..at_flags
        },
    );
    assert(RTAP_ALIGNMENTS@[15] == 2 && RTAP_SIZES@[15] == 2);
    assert(radiotap_step(data, ns, at_flags) == RadiotapStep::Found(flags));
    lemma_radiotap_step(data, ns, at_flags);
    assert(radiotap_walk(data, ns, start) == RadiotapStep::Found(flags));
    // The other field.
    lemma_shift_again(bitmap, 15, 1);
    assert(flags.bitmap_shifter == bitmap >> 16);
    let gap = field - 16;
    assert forall|j: u32| j < gap implies !#[trigger] bit_set(flags.bitmap_shifter, j) by {
        lemma_shift_again(bitmap, 16, j);
        assert(!bit_set(bitmap, (16 + j) as u32));
    }
    lemma_walk_skips(data, ns, flags, gap);
    let at_field = bits_skipped(flags, gap);
    lemma_shift_again(bitmap, 16, gap as u32);
    assert(bit_set(bitmap, field as u32));
    lemma_bit_low(bitmap >> (field as u32));
    assert(RTAP_ALIGNMENTS@[19] == 1 && RTAP_SIZES@[19] == 3);
    assert(RTAP_ALIGNMENTS@[21] == 2 && RTAP_SIZES@[21] == 12);
    let last = next_bit(
        Ieee80211RadiotapIterator {
            this_arg: Some(10usize),
            this_arg_index: field as i32,
            this_arg_size: (len - 10) as i32,
            arg: Some(len as usize),
            ..at_field
        },
    );
    assert(radiotap_step(data, ns, at_field) == RadiotapStep::Found(last));
    lemma_radiotap_step(data, ns, at_field);
    assert(radiotap_walk(data, ns, flags) == RadiotapStep::Found(last));
    // The end.
    lemma_shift_again(bitmap, field as u32, 1);
    let rest = 30 - field;
    assert forall|j: u32| j <= rest implies !#[trigger] bit_set(last.bitmap_shifter, j) by {
        lemma_shift_again(bitmap, (field + 1) as u32, j);
        assert(!bit_set(bitmap, (field + 1 + j) as u32));
    }
    lemma_walk_skips(data, ns, last, rest);
    let end = bits_skipped(last, rest);
    assert(!bit_set(last.bitmap_shifter, rest as u32));
    lemma_bit_low(end.bitmap_shifter);
    assert(radiotap_step(data, ns, end) == RadiotapStep::End((-ENOENT) as i32, end));
    assert(radiotap_walk(data, ns, last) == RadiotapStep::End((-ENOENT) as i32, end));
    let i1 = noted(data, flags, no_info());
    let i2 = noted(data, last, i1);
    assert(i1.self_injected && i1.ant_idx == 0);
    assert(i2.self_injected && i2.ant_idx == 0);
    assert(radio_info(data, last, i2) == (i2, (-ENOENT) as i32));
    assert(radio_info(data, flags, i1) == (i2, (-ENOENT) as i32));
    assert(radio_info(data, start, no_info()) == (i2, (-ENOENT) as i32));
}

proof fn lemma_bit_low(x: u32)
    by (bit_vector)
    ensures
        x & 1 == 0 || x & 1 == 1,
        x >> 0 == x,
{
}

proof fn lemma_aligned_offsets()
    by (bit_vector)
    ensures
        8u32 & 1u32 == 0,
        10u32 & 1u32 == 0,
        10u32 & 0u32 == 0,
{
}

/// A frame behind a radiotap header for sending is passed over where it is captured: a receiver does
/// not hear what its own side sends, whatever the settings.
pub proof fn lemma_own_frames_ignored(
    stbc: u8,
    ldpc: bool,
    short_gi: bool,
    bandwidth: u8,
    mcs_index: u8,
    vht_mode: bool,
    vht_nss: u8,
    frame: Seq<u8>,
)
    requires
        radiotap_bytes(stbc, ldpc, short_gi, bandwidth, mcs_index, vht_mode, vht_nss) is Ok,
    ensures
        capture_outcome(
            radiotap_bytes(
                stbc,
                ldpc,
                short_gi,
                bandwidth,
                mcs_index,
                vht_mode,
                vht_nss,
            )->Ok_0 + frame,
        ) == Err::<(Seq<u8>, RadioInfoView), CaptureError>(CaptureError::SelfInjected),
{
    let header = radiotap_bytes(
        stbc,
        ldpc,
        short_gi,
        bandwidth,
        mcs_index,
        vht_mode,
        vht_nss,
    )->Ok_0;
    let data = header + frame;
    if vht_mode {
        assert forall|i: int| 0 <= i < 12 implies data[i] == RADIOTAP_HEADER_VHT@[i] by {}
        lemma_transmit_header(data, 21, 22);
    } else {
        assert forall|i: int| 0 <= i < 11 implies data[i] == RADIOTAP_HEADER_HT@[i] by {}
        lemma_transmit_header(data, 19, 13);
    }
}

/// Whether a header announces field `f`, and bits below `i` count.
pub open spec fn told(data: Seq<u8>, i: int, f: int) -> bool {
    f < i && bit_set(le32(data, 4), f as u32)
}

/// Byte `j` of field `f`.
pub open spec fn field_byte(data: Seq<u8>, f: int, j: int) -> u8 {
    data[field_at(le32(data, 4), f) + j]
}

/// The bandwidth that the MCS field of a header states: 40 if it says that the bandwidth is known and its
/// flags state 40, and 20 otherwise.
pub open spec fn ht_bandwidth(data: Seq<u8>, i: int) -> u8 {
    if told(data, i, 19) && field_byte(data, 19, 0) & 1 != 0 && field_byte(data, 19, 1) & 1 != 0 {
        40
    } else {
        20
    }
}

/// The index of the rate that the MCS field of a header states; zero if it states none.
pub open spec fn ht_index(data: Seq<u8>, i: int) -> u8 {
    if told(data, i, 19) && field_byte(data, 19, 0) & 2 != 0 {
        field_byte(data, 19, 2) & 0x7f
    } else {
        0
    }
}

/// The information is what the fields below `i` of a header say, and nothing of what they do not say.
pub open spec fn says(data: Seq<u8>, i: int, info: RadioInfoView) -> bool {
    let code = field_byte(data, 21, 3) & 0x1f;
    let vht_known = told(data, i, 21) && field_byte(data, 21, 0) & 0x40 != 0;
    &&& info.flags == (if told(data, i, 1) {
        field_byte(data, 1, 0)
    } else {
        0
    })
    &&& info.freq == (if told(data, i, 3) {
        field_byte(data, 3, 0) + 256 * field_byte(data, 3, 1)
    } else {
        0
    })
    &&& info.rssi.len() == 4
    &&& info.rssi[0] == (if told(data, i, 5) {
        i8_of_byte(field_byte(data, 5, 0))
    } else {
        -128i8
    })
    &&& info.rssi.skip(1) == seq![-128i8, -128i8, -128i8]
    &&& info.noise.len() == 4
    &&& info.noise[0] == (if told(data, i, 6) {
        i8_of_byte(field_byte(data, 6, 0))
    } else {
        127
    })
    &&& info.noise.skip(1) == seq![127i8, 127i8, 127i8]
    &&& info.antenna.len() == 4
    &&& info.antenna[0] == (if told(data, i, 11) {
        field_byte(data, 11, 0)
    } else {
        255
    })
    &&& info.antenna.skip(1) == seq![255u8, 255, 255]
    &&& info.ant_idx == (if told(data, i, 11) {
        1int
    } else {
        0int
    })
    &&& info.self_injected == told(data, i, 15)
    &&& info.mcs_index == (if told(data, i, 21) {
        field_byte(data, 21, 4) / 16
    } else {
        ht_index(data, i)
    })
    &&& info.bandwidth == (if vht_known && 1 <= code <= 3 {
        40
    } else if vht_known && 4 <= code <= 10 {
        80
    } else {
        ht_bandwidth(data, i)
    })
}

proof fn lemma_low_half(x: u32)
    by (bit_vector)
    ensures
        x & 0xffff == x % 0x1_0000,
{
}

proof fn lemma_high_bits(x: u8)
    by (bit_vector)
    ensures
        (x >> 4) & 0x0f == x / 16,
{
}

/// One more field is noted where it is announced.
#[verifier::spinoff_prover]
#[verifier::rlimit(60)]
proof fn lemma_field_says(
    data: Seq<u8>,
    next: Ieee80211RadiotapIterator,
    i: int,
    info: RadioInfoView,
)
    requires
        0 <= i < 23,
        i != 18,
        says(data, i, info),
        bit_set(le32(data, 4), i as u32),
        next.this_arg_index == i,
        next.this_arg is Some,
        next.this_arg->0 == field_at(le32(data, 4), i),
    ensures
        says(data, i + 1, noted(data, next, info)),
{
    let a = field_at(le32(data, 4), i);
    let m = noted(data, next, info);
    lemma_low_half(le32(data, a));
    lemma_high_bits(data[a + 4]);
    assert(m.antenna.skip(1) =~= info.antenna.skip(1));
    assert(m.rssi.skip(1) =~= info.rssi.skip(1));
    assert(m.noise.skip(1) =~= info.noise.skip(1));
    assert forall|f: int| f != i implies #[trigger] told(data, i + 1, f) == told(data, i, f) by {}
    assert(told(data, i + 1, i) && !told(data, i, i));
    if i == 3 {
        assert(le32(data, a) % 0x1_0000 == data[a] + 256 * data[a + 1]);
    }
}

/// Nothing is noted where no field is announced.
proof fn lemma_nothing_says(data: Seq<u8>, i: int, info: RadioInfoView)
    requires
        0 <= i < 32,
        says(data, i, info),
        !bit_set(le32(data, 4), i as u32),
    ensures
        says(data, i + 1, info),
{
    assert forall|f: int| #[trigger] told(data, i + 1, f) == told(data, i, f) by {}
}

proof fn lemma_info_says(data: Seq<u8>, it: Ieee80211RadiotapIterator, i: int, info: RadioInfoView)
    requires
        standard_bitmap(le32(data, 4)),
        fields_end(le32(data, 4), 23) <= radiotap_len(data),
        0 <= i < 32,
        at_bit(data, it, i),
        says(data, i, info),
    ensures
        radio_info(data, it, info).1 == -ENOENT,
        says(data, 32, radio_info(data, it, info).0),
    decreases 32 - i,
{
    let ns = Seq::<Ieee80211RadiotapNamespace>::empty();
    let bitmap = le32(data, 4);
    lemma_walk_bit(data, it, i);
    if bit_set(bitmap, i as u32) {
        let next = radiotap_walk(data, ns, it)->Found_0;
        lemma_field_says(data, next, i, info);
        lemma_info_says(data, next, i + 1, noted(data, next, info));
    } else {
        lemma_nothing_says(data, i, info);
        if i < 31 {
            let next = next_bit(it);
            lemma_info_says(data, next, i + 1, info);
            assert(radio_info(data, it, info) == radio_info(data, next, info));
        }
    }
}

/// What a receiver hears of a frame behind a header of standard fields is what the fields say: the
/// antenna with its signal and noise, the frequency, the rate and the bandwidth.  A frame with transmit
/// flags is of the own side and passed over, one marked as damaged is passed over, and of any other the
/// packet is what is behind the two headers, without the checksum if there is one.
pub proof fn lemma_capture_says(data: Seq<u8>)
    requires
        radiotap_accepts(data, data.len() as int),
        standard_bitmap(le32(data, 4)),
        fields_end(le32(data, 4), 23) <= radiotap_len(data),
    ensures
        ({
            let flags = if told(data, 32, 1) {
                field_byte(data, 1, 0)
            } else {
                0
            };
            let first = radiotap_len(data) + 24;
            let end = data.len() - (if flags & 0x10 != 0 {
                4int
            } else {
                0int
            });
            if told(data, 32, 15) {
                capture_outcome(data) == Err::<(Seq<u8>, RadioInfoView), _>(CaptureError::SelfInjected)
            } else if flags & 0x40 != 0 {
                capture_outcome(data) == Err::<(Seq<u8>, RadioInfoView), _>(CaptureError::BadChecksum)
            } else if end <= first {
                capture_outcome(data) == Err::<(Seq<u8>, RadioInfoView), _>(CaptureError::ShortPacket)
            } else {
                capture_outcome(data) matches Ok(p) && p.0 == data.subrange(first, end) && says(
                    data,
                    32,
                    p.1,
                )
            }
        }),
{
    let start = radiotap_start(data);
    lemma_walk_start(data);
    let none = no_info();
    assert(none.antenna.skip(1) =~= seq![255u8, 255, 255]);
    assert(none.rssi.skip(1) =~= seq![-128i8, -128i8, -128i8]);
    assert(none.noise.skip(1) =~= seq![127i8, 127i8, 127i8]);
    lemma_info_says(data, start, 0, none);
}

proof fn lemma_flag_bits(x: u8)
    by (bit_vector)
    ensures
        x & 3 == 1 ==> x & 1 != 0,
        x & 3 == 0 ==> x & 1 == 0,
        0x37u8 & 1 != 0,
        0x37u8 & 2 != 0,
        0x45u8 & 0x40 != 0,
        0u8 & 0x1f == 0,
        1u8 & 0x1f == 1,
        4u8 & 0x1f == 4,
        11u8 & 0x1f == 11,
        x >> 4 == x / 16,
{
}

/// The rate that a transmitter sets is the rate that a receiver reports, where the radio passes the MCS
/// field on: a bandwidth of 40 is heard as 40, one of 10 or 20 as 20.
pub proof fn lemma_ht_rate_heard(
    data: Seq<u8>,
    stbc: u8,
    ldpc: bool,
    short_gi: bool,
    bandwidth: u8,
    mcs_index: u8,
    vht_nss: u8,
)
    requires
        radiotap_accepts(data, data.len() as int),
        standard_bitmap(le32(data, 4)),
        fields_end(le32(data, 4), 23) <= radiotap_len(data),
        told(data, 32, 19),
        !told(data, 32, 21),
        radiotap_bytes(stbc, ldpc, short_gi, bandwidth, mcs_index, false, vht_nss) matches Ok(h)
            && forall|j: int| 0 <= j < 3 ==> #[trigger] field_byte(data, 19, j) == h[10 + j],
        capture_outcome(data) is Ok,
    ensures
        capture_outcome(data)->Ok_0.1.bandwidth == (if bandwidth == 40 {
            40u8
        } else {
            20u8
        }),
        capture_outcome(data)->Ok_0.1.mcs_index == mcs_index & 0x7f,
{
    let h = radiotap_bytes(stbc, ldpc, short_gi, bandwidth, mcs_index, false, vht_nss)->Ok_0;
    lemma_capture_says(data);
    lemma_ht_settings_read_back(stbc, ldpc, short_gi, bandwidth, mcs_index, vht_nss);
    lemma_flag_bits(h[11]);
    assert(h.take(11)[10] == 0x37);
    assert(field_byte(data, 19, 0) == h[10]);
    assert(field_byte(data, 19, 1) == h[11]);
    assert(field_byte(data, 19, 2) == h[12]);
}

/// The same of VHT: 40 is heard as 40 and 80 as 80.  There is no word for 160, which is heard as the
/// bandwidth that is assumed where nothing is stated.
pub proof fn lemma_vht_rate_heard(
    data: Seq<u8>,
    stbc: u8,
    ldpc: bool,
    short_gi: bool,
    bandwidth: u8,
    mcs_index: u8,
    vht_nss: u8,
)
    requires
        radiotap_accepts(data, data.len() as int),
        standard_bitmap(le32(data, 4)),
        fields_end(le32(data, 4), 23) <= radiotap_len(data),
        !told(data, 32, 19),
        told(data, 32, 21),
        radiotap_bytes(stbc, ldpc, short_gi, bandwidth, mcs_index, true, vht_nss) matches Ok(h)
            && forall|j: int| 0 <= j < 12 ==> #[trigger] field_byte(data, 21, j) == h[10 + j],
        capture_outcome(data) is Ok,
    ensures
        capture_outcome(data)->Ok_0.1.bandwidth == (if bandwidth == 40 || bandwidth == 80 {
            bandwidth
        } else {
            20u8
        }),
        capture_outcome(data)->Ok_0.1.mcs_index == mcs_index & 0x0f,
{
    let h = radiotap_bytes(stbc, ldpc, short_gi, bandwidth, mcs_index, true, vht_nss)->Ok_0;
    lemma_capture_says(data);
    lemma_vht_settings_read_back(stbc, ldpc, short_gi, bandwidth, mcs_index, vht_nss);
    lemma_flag_bits(h[14]);
    assert(h.take(12)[10] == 0x45);
    assert(field_byte(data, 21, 0) == h[10]);
    assert(field_byte(data, 21, 3) == h[13]);
    assert(field_byte(data, 21, 4) == h[14]);
}

/// What a field adds, wherever in a header it stands.  Signal and noise are those of the antenna that is
/// named next, and an antenna that is named takes the next place, so that further antennas do not touch
/// those before.
pub proof fn lemma_field_adds(data: Seq<u8>, it: Ieee80211RadiotapIterator, i: RadioInfoView)
    requires
        it.this_arg is Some,
        0 <= i.ant_idx < 4,
        i.antenna.len() == 4,
        i.rssi.len() == 4,
        i.noise.len() == 4,
    ensures
        ({
            let a = it.this_arg->0 as int;
            let f = it.this_arg_index;
            let m = noted(data, it, i);
            &&& m.ant_idx == (if f == 11 {
                i.ant_idx + 1
            } else {
                i.ant_idx
            })
            &&& forall|j: int|
                0 <= j < 4 ==> #[trigger] m.antenna[j] == (if f == 11 && j == i.ant_idx {
                    data[a]
                } else {
                    i.antenna[j]
                })
            &&& forall|j: int|
                0 <= j < 4 ==> #[trigger] m.rssi[j] == (if f == 5 && j == i.ant_idx {
                    i8_of_byte(data[a])
                } else {
                    i.rssi[j]
                })
            &&& forall|j: int|
                0 <= j < 4 ==> #[trigger] m.noise[j] == (if f == 6 && j == i.ant_idx {
                    i8_of_byte(data[a])
                } else {
                    i.noise[j]
                })
            &&& m.flags == (if f == 1 {
                data[a]
            } else {
                i.flags
            })
            &&& m.self_injected == (i.self_injected || f == 15)
            &&& m.freq == (if f == 3 {
                data[a] + 256 * data[a + 1]
            } else {
                i.freq as int
            })
            &&& f != 19 && f != 21 ==> m.mcs_index == i.mcs_index && m.bandwidth == i.bandwidth
            &&& f == 19 ==> m.bandwidth == (if data[a] & 1 != 0 && data[a + 1] & 1 != 0 {
                40
            } else {
                i.bandwidth
            })
            &&& f == 19 ==> m.mcs_index == (if data[a] & 2 != 0 {
                data[a + 2] & 0x7f
            } else {
                i.mcs_index
            })
            &&& f == 21 ==> m.mcs_index == data[a + 4] / 16
            &&& f == 21 ==> m.bandwidth == (if data[a] & 0x40 == 0 || data[a + 3] & 0x1f == 0 || data[a
                + 3] & 0x1f > 10 {
                i.bandwidth
            } else if data[a + 3] & 0x1f > 3 {
                80
            } else {
                40
            })
        }),
{
    let a = it.this_arg->0 as int;
    lemma_low_half(le32(data, a));
    lemma_high_bits(data[a + 4]);
    assert(le32(data, a) % 0x1_0000 == data[a] + 256 * data[a + 1]);
}

/// A frame is passed over for the first of these that holds: it has no header that can be walked, the walk
/// ends early for another reason than that there are no more fields, it is of the own side, its checksum is
/// wrong, or nothing is behind its headers.
pub proof fn lemma_capture_refused(data: Seq<u8>)
    ensures
        ({
            let (info, code) = radio_info(data, radiotap_start(data), no_info());
            let end = data.len() - (if info.flags & 0x10 != 0 {
                4int
            } else {
                0int
            });
            let e = if !radiotap_accepts(data, data.len() as int) {
                Some(CaptureError::NoRadiotapHeader)
            } else if info.ant_idx < 4 && code != -2 {
                Some(CaptureError::BadRadiotapHeader)
            } else if info.self_injected {
                Some(CaptureError::SelfInjected)
            } else if info.flags & 0x40 != 0 {
                Some(CaptureError::BadChecksum)
            } else if end <= data[2] + 256 * data[3] + 24 {
                Some(CaptureError::ShortPacket)
            } else {
                None
            };
            match e {
                Some(e) => capture_outcome(data) == Err::<(Seq<u8>, RadioInfoView), _>(e),
                None => capture_outcome(data) == Ok::<_, CaptureError>(
                    (data.subrange(data[2] + 256 * data[3] + 24, end), info),
                ),
            }
        }),
{
}

} // verus!
