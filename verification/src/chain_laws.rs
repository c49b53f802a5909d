//! What a receiver makes of headers that speak of several antennas, in a bitmap for each.
use crate::bytes::{i8_of_byte, le32};
use crate::capture_laws::lemma_field_adds;
use crate::radiotap::{
    align_up, bitmaps_end, next_bit, radiotap_accepts, radiotap_len, radiotap_start,
    radiotap_step, radiotap_walk, Ieee80211RadiotapIterator, Ieee80211RadiotapNamespace,
    RadiotapStep, ENOENT, RTAP_ALIGNMENTS, RTAP_SIZES,
};
use crate::radiotap::{lemma_fields_aligned, lemma_radiotap_step, lemma_standard_alignment};
use crate::radiotap_laws::bit_set;
use crate::radiotap_laws::{lemma_last_bit, lemma_shift_again, lemma_shifts};
use crate::rx_capture::{no_info, noted, radio_info, RadioInfoView};
use vstd::prelude::*;

verus! {

/// Bitmap `j` of a header.
pub open spec fn word(data: Seq<u8>, j: int) -> u32 {
    le32(data, 4 + 4 * j)
}

/// Behind the first bitmap of a header follow `m` more, each of which begins anew with the standard
/// fields.
pub open spec fn chained(data: Seq<u8>, m: int) -> bool {
    &&& 0 <= m
    &&& forall|j: int, i: u32|
        0 <= j <= m && i < 32 && #[trigger] bit_set(word(data, j), i) ==> {
            ||| i < 23 && i != 18 && (i > 0 || j == 0)
            ||| j < m && (i == 29 || i == 31)
        }
    &&& forall|j: int|
        0 <= j < m ==> #[trigger] bit_set(word(data, j), 29) && bit_set(word(data, j), 31)
}

/// Where the fields below `i` of a bitmap end, if they begin at `start`.
pub open spec fn ends(bitmap: u32, start: int, i: int) -> int
    decreases i,
{
    if i <= 0 {
        start
    } else if i <= 23 && bit_set(bitmap, (i - 1) as u32) {
        align_up(ends(bitmap, start, i - 1), RTAP_ALIGNMENTS@[i - 1] as int) + RTAP_SIZES@[i - 1]
    } else {
        ends(bitmap, start, i - 1)
    }
}

/// Where the fields of bitmap `j` begin: behind all bitmaps and the fields of those before.
pub open spec fn starts(data: Seq<u8>, m: int, j: int) -> int
    decreases j,
{
    if j <= 0 {
        8 + 4 * m
    } else {
        ends(word(data, j - 1), starts(data, m, j - 1), 23)
    }
}

/// Where field `i` of bitmap `j` begins.
pub open spec fn place(data: Seq<u8>, m: int, j: int, i: int) -> int {
    align_up(ends(word(data, j), starts(data, m, j), i), RTAP_ALIGNMENTS@[i] as int)
}

/// The walk is at bit `i` of bitmap `j`.
spec fn at_word(data: Seq<u8>, m: int, j: int, i: int, it: Ieee80211RadiotapIterator) -> bool {
    &&& it.wf(data, Seq::empty())
    &&& it.current_namespace is Standard
    &&& it.arg_index == i
    &&& it.bitmap_shifter == word(data, j) >> (i as u32)
    &&& it.arg == Some(ends(word(data, j), starts(data, m, j), i) as usize)
    &&& it.next_bitmap == 8 + 4 * j
    &&& it.max_length == radiotap_len(data)
    &&& it.reset_on_ext == (j < m && i > 29)
}

/// The header has room for its bitmaps and their fields.
pub open spec fn chain_fits(data: Seq<u8>, m: int) -> bool {
    &&& radiotap_accepts(data, data.len() as int)
    &&& chained(data, m)
    &&& m <= 4
    &&& starts(data, m, m + 1) <= radiotap_len(data)
}

proof fn lemma_ends(data: Seq<u8>, m: int, j: int, i: int, start: int)
    requires
        chained(data, m),
        0 <= j <= m,
        0 <= i <= 32,
        8 <= start <= 100_000,
    ensures
        start <= ends(word(data, j), start, i) <= start + 20 * i,
        i > 0 ==> ends(word(data, j), start, i - 1) <= ends(word(data, j), start, i),
        i >= 23 ==> ends(word(data, j), start, i) == ends(word(data, j), start, 23),
    decreases i,
{
    if i > 0 {
        lemma_ends(data, m, j, i - 1, start);
        if i <= 23 && bit_set(word(data, j), (i - 1) as u32) {
            lemma_standard_alignment(i - 1);
            lemma_fields_aligned(ends(word(data, j), start, i - 1), RTAP_ALIGNMENTS@[i - 1] as int);
        }
    }
}

proof fn lemma_ends_grow(data: Seq<u8>, m: int, j: int, i: int, h: int, start: int)
    requires
        chained(data, m),
        0 <= j <= m,
        0 <= i <= h <= 32,
        8 <= start <= 100_000,
    ensures
        ends(word(data, j), start, i) <= ends(word(data, j), start, h),
    decreases h - i,
{
    if i < h {
        lemma_ends_grow(data, m, j, i, h - 1, start);
        lemma_ends(data, m, j, h, start);
    }
}

proof fn lemma_starts(data: Seq<u8>, m: int, j: int)
    requires
        chained(data, m),
        m <= 4,
        0 <= j <= m + 1,
    ensures
        8 <= starts(data, m, j) <= 24 + 460 * j,
        j > 0 ==> starts(data, m, j - 1) <= starts(data, m, j),
    decreases j,
{
    if j > 0 {
        lemma_starts(data, m, j - 1);
        lemma_ends(data, m, j - 1, 23, starts(data, m, j - 1));
    }
}

proof fn lemma_starts_grow(data: Seq<u8>, m: int, j: int, h: int)
    requires
        chained(data, m),
        m <= 4,
        0 <= j <= h <= m + 1,
    ensures
        starts(data, m, j) <= starts(data, m, h),
    decreases h - j,
{
    if j < h {
        lemma_starts_grow(data, m, j, h - 1);
        lemma_starts(data, m, h);
    }
}

proof fn lemma_low(x: u32)
    by (bit_vector)
    ensures
        x & 1 == 0 || x & 1 == 1,
{
}

/// What the walk does at a bit of one of the bitmaps.
proof fn lemma_chain_bit(data: Seq<u8>, m: int, j: int, i: int, it: Ieee80211RadiotapIterator)
    requires
        chain_fits(data, m),
        0 <= j <= m,
        0 <= i < 32,
        at_word(data, m, j, i, it),
    ensures
        ({
            let walk = radiotap_walk(data, Seq::empty(), it);
            let step = radiotap_step(data, Seq::empty(), it);
            if i < 23 && bit_set(word(data, j), i as u32) {
                walk matches RadiotapStep::Found(next) && {
                    &&& at_word(data, m, j, i + 1, next)
                    &&& next.this_arg_index == i
                    &&& next.this_arg is Some
                    &&& next.this_arg->0 == place(data, m, j, i)
                }
            } else if i < 31 {
                step matches RadiotapStep::Further(next) && {
                    &&& walk == radiotap_walk(data, Seq::empty(), next)
                    &&& at_word(data, m, j, i + 1, next)
                }
            } else if j < m {
                step matches RadiotapStep::Further(next) && {
                    &&& walk == radiotap_walk(data, Seq::empty(), next)
                    &&& at_word(data, m, j + 1, 1, next)
                }
            } else {
                walk == RadiotapStep::End((-ENOENT) as i32, it)
            }
        }),
{
    let ns = Seq::<Ieee80211RadiotapNamespace>::empty();
    let w = word(data, j);
    let start = starts(data, m, j);
    lemma_starts(data, m, j);
    lemma_starts_grow(data, m, j + 1, m + 1);
    lemma_ends(data, m, j, i, start);
    lemma_ends(data, m, j, i + 1, start);
    lemma_radiotap_step(data, ns, it);
    lemma_low(it.bitmap_shifter);
    assert(bit_set(w, i as u32) == (it.bitmap_shifter & 1 != 0));
    if i < 31 {
        lemma_shift_again(w, i as u32, 1);
    }
    if i < 23 && bit_set(w, i as u32) {
        lemma_standard_alignment(i);
        lemma_ends_grow(data, m, j, i + 1, 23, start);
        let at = place(data, m, j, i);
        lemma_fields_aligned(ends(w, start, i), RTAP_ALIGNMENTS@[i] as int);
        let next = next_bit(
            Ieee80211RadiotapIterator {
                this_arg: Some(at as usize),
                this_arg_index: i as i32,
                this_arg_size: RTAP_SIZES@[i] as i32,
                arg: Some(ends(w, start, i + 1) as usize),
                ..it
            },
        );
        assert(radiotap_step(data, ns, it) == RadiotapStep::Found(next));
    } else if bit_set(w, i as u32) {
        assert(j < m && (i == 29 || i == 31));
        let a = ends(w, start, i);
        assert(a == ends(w, start, 23));
        assert(a <= radiotap_len(data));
        if i == 29 {
            let next = radiotap_step(data, ns, it)->Further_0;
            assert(radiotap_step(data, ns, it) is Further);
            assert(at_word(data, m, j, i + 1, next));
        } else {
            assert(radiotap_step(data, ns, it) is Further);
            let next = radiotap_step(data, ns, it)->Further_0;
            assert(word(data, j + 1) == le32(data, it.next_bitmap as int));
            assert(!bit_set(word(data, j + 1), 0)) by {
                if bit_set(word(data, j + 1), 0) {
                    assert(false);
                }
            }
            assert(ends(word(data, j + 1), starts(data, m, j + 1), 0) == starts(data, m, j + 1));
            assert(ends(word(data, j + 1), starts(data, m, j + 1), 1) == starts(data, m, j + 1));
        }
    } else if i < 31 {
        assert(radiotap_step(data, ns, it) == RadiotapStep::Further(next_bit(it)));
    } else {
        assert(j == m) by {
            if j < m {
                assert(bit_set(word(data, j), 29));
            }
        }
        assert(radiotap_step(data, ns, it) == RadiotapStep::End((-ENOENT) as i32, it));
    }
}

/// Where the bitmaps of such a header end.
proof fn lemma_chain_bitmaps(data: Seq<u8>, m: int, j: int)
    requires
        chained(data, m),
        1 <= j <= m,
        8 + 4 * m <= radiotap_len(data),
    ensures
        bitmaps_end(data, 4 + 4 * j, radiotap_len(data)) == 8 + 4 * m,
    decreases m - j,
{
    lemma_last_bit(word(data, j));
    if j < m {
        assert(bit_set(word(data, j), 29));
        lemma_chain_bitmaps(data, m, j + 1);
    } else {
        assert(!bit_set(word(data, m), 31));
    }
}

proof fn lemma_chain_start(data: Seq<u8>, m: int)
    requires
        chain_fits(data, m),
    ensures
        at_word(data, m, 0, 0, radiotap_start(data)),
{
    let start = radiotap_start(data);
    let w = word(data, 0);
    lemma_last_bit(w);
    lemma_shifts(w, 31);
    lemma_starts(data, m, 0);
    lemma_starts_grow(data, m, 0, m + 1);
    if m > 0 {
        assert(bit_set(w, 29));
        lemma_chain_bitmaps(data, m, 1);
    } else {
        assert(!bit_set(w, 31));
    }
    assert(start.ext_bit() == (w >> 31) & 1);
}

/// The first bitmap names no antenna, and each of the `m` others one with its signal.
pub open spec fn antenna_chain(data: Seq<u8>, m: int) -> bool {
    &&& chain_fits(data, m)
    &&& 1 <= m
    &&& !bit_set(word(data, 0), 11)
    &&& forall|j: int|
        1 <= j <= m ==> #[trigger] bit_set(word(data, j), 5) && bit_set(word(data, j), 11)
}

/// Antenna `j`, its signal and, if there is one, its noise are those of bitmap `j`.
pub open spec fn antenna_heard(data: Seq<u8>, m: int, j: int, info: RadioInfoView) -> bool {
    &&& info.antenna[j - 1] == data[place(data, m, j, 11)]
    &&& info.rssi[j - 1] == i8_of_byte(data[place(data, m, j, 5)])
    &&& bit_set(word(data, j), 6) ==> info.noise[j - 1] == i8_of_byte(data[place(data, m, j, 6)])
}

/// What is known at bit `i` of bitmap `j`.
spec fn heard_so_far(data: Seq<u8>, m: int, j: int, i: int, info: RadioInfoView) -> bool {
    &&& info.antenna.len() == 4
    &&& info.rssi.len() == 4
    &&& info.noise.len() == 4
    &&& info.ant_idx == (if j == 0 {
        0
    } else if i > 11 {
        j
    } else {
        j - 1
    })
    &&& forall|h: int|
        1 <= h < j || (h == j && 1 <= h && i > 11) ==> #[trigger] antenna_heard(data, m, h, info)
    &&& j >= 1 && i > 5 ==> info.rssi[j - 1] == i8_of_byte(data[place(data, m, j, 5)])
    &&& j >= 1 && i > 6 && bit_set(word(data, j), 6) ==> info.noise[j - 1] == i8_of_byte(
        data[place(data, m, j, 6)],
    )
    &&& forall|h: int|
        info.ant_idx <= h < 4 ==> #[trigger] info.antenna[h] == 255
}

proof fn lemma_field_heard(
    data: Seq<u8>,
    m: int,
    j: int,
    i: int,
    next: Ieee80211RadiotapIterator,
    info: RadioInfoView,
)
    requires
        antenna_chain(data, m),
        0 <= j <= m,
        0 <= i < 23,
        bit_set(word(data, j), i as u32),
        heard_so_far(data, m, j, i, info),
        info.ant_idx < 4,
        next.this_arg_index == i,
        next.this_arg is Some,
        next.this_arg->0 == place(data, m, j, i),
    ensures
        heard_so_far(data, m, j, i + 1, noted(data, next, info)),
{
    let n = noted(data, next, info);
    lemma_field_adds(data, next, info);
    assert forall|h: int| 1 <= h < j || (h == j && 1 <= h && i + 1 > 11) implies #[trigger] antenna_heard(
        data,
        m,
        h,
        n,
    ) by {
        if h < j || i > 11 {
            assert(antenna_heard(data, m, h, info));
        }
        assert(n.antenna[h - 1] == data[place(data, m, h, 11)]);
        assert(n.rssi[h - 1] == i8_of_byte(data[place(data, m, h, 5)]));
    }
    assert(n.antenna.len() == 4 && n.rssi.len() == 4 && n.noise.len() == 4);
    assert forall|h: int| n.ant_idx <= h < 4 implies #[trigger] n.antenna[h] == 255 by {
        assert(info.antenna[h] == 255);
    }
    if j >= 1 {
        assert(n.rssi[j - 1] == n.rssi[j - 1] && n.noise[j - 1] == n.noise[j - 1]);
    }
}

/// A bit that is not set changes nothing.
proof fn lemma_bit_unheard(data: Seq<u8>, m: int, j: int, i: int, info: RadioInfoView)
    requires
        antenna_chain(data, m),
        0 <= j <= m,
        0 <= i < 32,
        i >= 23 || !bit_set(word(data, j), i as u32),
        heard_so_far(data, m, j, i, info),
    ensures
        heard_so_far(data, m, j, i + 1, info),
{
    if j >= 1 {
        assert(bit_set(word(data, j), 5) && bit_set(word(data, j), 11));
    }
}

proof fn lemma_chain_heard(
    data: Seq<u8>,
    m: int,
    j: int,
    i: int,
    it: Ieee80211RadiotapIterator,
    info: RadioInfoView,
)
    requires
        antenna_chain(data, m),
        0 <= j <= m,
        0 <= i < 32,
        at_word(data, m, j, i, it),
        heard_so_far(data, m, j, i, info),
    ensures
        ({
            let r = radio_info(data, it, info);
            &&& r.0.ant_idx == m
            &&& r.1 == -ENOENT || m == 4
            &&& forall|h: int| 1 <= h <= m ==> #[trigger] antenna_heard(data, m, h, r.0)
            &&& forall|h: int| m <= h < 4 ==> #[trigger] r.0.antenna[h] == 255
        }),
    decreases m - j, 32 - i,
{
    let ns = Seq::<Ieee80211RadiotapNamespace>::empty();
    if info.ant_idx < 4 {
        lemma_chain_bit(data, m, j, i, it);
        if i < 23 && bit_set(word(data, j), i as u32) {
            let next = radiotap_walk(data, ns, it)->Found_0;
            if j == 0 {
                assert(i != 11);
            }
            lemma_field_heard(data, m, j, i, next, info);
            lemma_chain_heard(data, m, j, i + 1, next, noted(data, next, info));
        } else if i < 31 {
            let next = radiotap_step(data, ns, it)->Further_0;
            lemma_bit_unheard(data, m, j, i, info);
            lemma_chain_heard(data, m, j, i + 1, next, info);
            assert(radio_info(data, it, info) == radio_info(data, next, info));
        } else if j < m {
            let next = radiotap_step(data, ns, it)->Further_0;
            assert(heard_so_far(data, m, j + 1, 1, info));
            lemma_chain_heard(data, m, j + 1, 1, next, info);
            assert(radio_info(data, it, info) == radio_info(data, next, info));
        }
    } else {
        assert(m == 4 && j == 4);
    }
}

/// A header that speaks of up to four antennas, each in a bitmap of its own, is heard as that many: each
/// antenna in its order, with the signal and the noise that stand beside it, and no others.
pub proof fn lemma_antennas_heard(data: Seq<u8>, m: int)
    requires
        antenna_chain(data, m),
    ensures
        ({
            let r = radio_info(data, radiotap_start(data), no_info());
            &&& r.0.ant_idx == m
            &&& r.1 == -ENOENT || m == 4
            &&& forall|h: int| 1 <= h <= m ==> #[trigger] antenna_heard(data, m, h, r.0)
            &&& forall|h: int| m <= h < 4 ==> #[trigger] r.0.antenna[h] == 255
        }),
{
    lemma_chain_start(data, m);
    lemma_chain_heard(data, m, 0, 0, radiotap_start(data), no_info());
}

} // verus!
