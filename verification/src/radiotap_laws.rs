//! What the walk over a whole radiotap header reports.
use crate::bytes::le32;
use crate::radiotap::{
    align_up, bitmaps_end, bitmaps_fit, find_namespace, has_ext, next_bit, radiotap_accepts, radiotap_len, radiotap_start, radiotap_step,
    radiotap_walk, Ieee80211RadiotapIterator, Ieee80211RadiotapNamespace, Namespaces, RadiotapNamespace, RadiotapStep, ENOENT,
    RTAP_ALIGNMENTS, RTAP_SIZES,
};
use crate::radiotap::{
    lemma_fields_aligned, lemma_radiotap_step, lemma_radiotap_walk, lemma_standard_alignment,
};
use vstd::prelude::*;

verus! {

/// Bit `i` of a bitmap.
pub open spec fn bit_set(bitmap: u32, i: u32) -> bool {
    (bitmap >> i) & 1 != 0
}

pub proof fn lemma_shifts(x: u32, n: u32)
    by (bit_vector)
    requires
        0 < n < 32,
    ensures
        x >> 0 == x,
        (x >> 1) >> ((n - 1) as u32) == x >> n,
{
}

pub proof fn lemma_shift_again(x: u32, m: u32, n: u32)
    by (bit_vector)
    requires
        m <= 32,
        n <= 32,
        m + n < 32,
    ensures
        (x >> m) >> n == x >> ((m + n) as u32),
{
}

pub proof fn lemma_last_bit(x: u32)
    by (bit_vector)
    ensures
        (x >= 0x8000_0000) == ((x >> 31) & 1 != 0),
        (x >> 31) & 1 == 0 || (x >> 31) & 1 == 1,
        x >> 0 == x,
{
}

/// Only standard fields are announced, and no other bitmap.
pub open spec fn standard_bitmap(bitmap: u32) -> bool {
    forall|i: u32| i < 32 && #[trigger] bit_set(bitmap, i) ==> i < 23 && i != 18
}

/// Where the fields below `i` end, each at its alignment behind the one before.
pub open spec fn fields_end(bitmap: u32, i: int) -> int
    decreases i,
{
    if i <= 0 {
        8
    } else if bit_set(bitmap, (i - 1) as u32) {
        align_up(fields_end(bitmap, i - 1), RTAP_ALIGNMENTS@[i - 1] as int) + RTAP_SIZES@[i - 1]
    } else {
        fields_end(bitmap, i - 1)
    }
}

/// The fields from `i` on that a bitmap announces: number, offset and size of each, ascending.
pub open spec fn fields_from(bitmap: u32, i: int) -> Seq<(int, int, int)>
    decreases 32 - i,
{
    if i >= 32 {
        Seq::empty()
    } else if bit_set(bitmap, i as u32) {
        seq![
            (
                i,
                align_up(fields_end(bitmap, i), RTAP_ALIGNMENTS@[i] as int),
                RTAP_SIZES@[i] as int,
            ),
        ] + fields_from(bitmap, i + 1)
    } else {
        fields_from(bitmap, i + 1)
    }
}

/// All fields that a walk from a position on finds, and the code with which it ends.
pub open spec fn walked(data: Seq<u8>, it: Ieee80211RadiotapIterator) -> (Seq<(int, int, int)>, i32)
    decreases data.len() + 16 - it.next_bitmap, 32 - it.arg_index % 32,
        when it.wf(data, Seq::empty())
        via walked_decreases
{
    match radiotap_walk(data, Seq::empty(), it) {
        RadiotapStep::Found(next) => (
            seq![
                (
                    next.this_arg_index as int,
                    next.this_arg->0 as int,
                    next.this_arg_size as int,
                ),
            ] + walked(data, next).0,
            walked(data, next).1,
        ),
        RadiotapStep::End(e, _) => (Seq::empty(), e),
        RadiotapStep::Further(_) => (Seq::empty(), 0),
    }
}

#[via_fn]
proof fn walked_decreases(data: Seq<u8>, it: Ieee80211RadiotapIterator) {
    lemma_radiotap_walk(data, Seq::empty(), it);
}

/// Where field `i` begins: at its alignment behind the fields before it.
pub open spec fn field_at(bitmap: u32, i: int) -> int {
    align_up(fields_end(bitmap, i), RTAP_ALIGNMENTS@[i] as int)
}

/// The walk is at bit `i` of the bitmap, behind the fields before.
pub open spec fn at_bit(data: Seq<u8>, it: Ieee80211RadiotapIterator, i: int) -> bool {
    let bitmap = le32(data, 4);
    &&& it.wf(data, Seq::empty())
    &&& it.current_namespace is Standard
    &&& it.arg_index == i
    &&& it.bitmap_shifter == bitmap >> (i as u32)
    &&& it.arg == Some(fields_end(bitmap, i) as usize)
    &&& it.max_length == radiotap_len(data)
}

proof fn lemma_fields_end(bitmap: u32, i: int)
    requires
        standard_bitmap(bitmap),
        0 <= i <= 32,
    ensures
        8 <= fields_end(bitmap, i) <= 8 + 20 * i,
        i > 0 ==> fields_end(bitmap, i - 1) <= fields_end(bitmap, i),
    decreases i,
{
    if i > 0 {
        lemma_fields_end(bitmap, i - 1);
        if bit_set(bitmap, (i - 1) as u32) {
            lemma_standard_alignment(i - 1);
            lemma_fields_aligned(fields_end(bitmap, i - 1), RTAP_ALIGNMENTS@[i - 1] as int);
        }
    }
}

proof fn lemma_fields_end_grows(bitmap: u32, i: int, j: int)
    requires
        standard_bitmap(bitmap),
        0 <= i <= j <= 32,
    ensures
        fields_end(bitmap, i) <= fields_end(bitmap, j),
    decreases j - i,
{
    if i < j {
        lemma_fields_end_grows(bitmap, i, j - 1);
        lemma_fields_end(bitmap, j);
    }
}

/// What the walk does at a bit: it reports the field of a bit that is set, passes over one that is not,
/// and ends behind the last.
pub proof fn lemma_walk_bit(data: Seq<u8>, it: Ieee80211RadiotapIterator, i: int)
    requires
        standard_bitmap(le32(data, 4)),
        fields_end(le32(data, 4), 23) <= radiotap_len(data),
        0 <= i < 32,
        at_bit(data, it, i),
    ensures
        ({
            let bitmap = le32(data, 4);
            let walk = radiotap_walk(data, Seq::empty(), it);
            if bit_set(bitmap, i as u32) {
                walk matches RadiotapStep::Found(next) && {
                    &&& at_bit(data, next, i + 1)
                    &&& next.this_arg_index == i
                    &&& next.this_arg == Some(field_at(bitmap, i) as usize)
                    &&& next.this_arg->0 == field_at(bitmap, i)
                    &&& next.this_arg_size == RTAP_SIZES@[i]
                    &&& 8 <= field_at(bitmap, i)
                    &&& field_at(bitmap, i) + RTAP_SIZES@[i] <= radiotap_len(data)
                    &&& i < 23 && i != 18
                }
            } else if i < 31 {
                &&& walk == radiotap_walk(data, Seq::empty(), next_bit(it))
                &&& at_bit(data, next_bit(it), i + 1)
            } else {
                walk == RadiotapStep::End((-ENOENT) as i32, it)
            }
        }),
{
    let ns = Seq::<Ieee80211RadiotapNamespace>::empty();
    let bitmap = le32(data, 4);
    lemma_radiotap_step(data, ns, it);
    lemma_fields_end(bitmap, i);
    if bit_set(bitmap, i as u32) {
        lemma_standard_alignment(i);
        lemma_fields_end(bitmap, i + 1);
        lemma_fields_end_grows(bitmap, i + 1, 23);
        lemma_shift_again(bitmap, i as u32, 1);
        let at = field_at(bitmap, i);
        lemma_fields_aligned(fields_end(bitmap, i), RTAP_ALIGNMENTS@[i] as int);
        let next = next_bit(
            Ieee80211RadiotapIterator {
                this_arg: Some(at as usize),
                this_arg_index: i as i32,
                this_arg_size: RTAP_SIZES@[i] as i32,
                arg: Some(fields_end(bitmap, i + 1) as usize),
                ..it
            },
        );
        assert(radiotap_step(data, ns, it) == RadiotapStep::Found(next));
        assert(radiotap_walk(data, ns, it) == RadiotapStep::Found(next));
    } else if i < 31 {
        let next = next_bit(it);
        lemma_shift_again(bitmap, i as u32, 1);
        assert(radiotap_step(data, ns, it) == RadiotapStep::Further(next));
        assert(radiotap_walk(data, ns, it) == radiotap_walk(data, ns, next));
    } else {
        assert(radiotap_walk(data, ns, it) == RadiotapStep::End((-ENOENT) as i32, it));
    }
}

proof fn lemma_walk_from(data: Seq<u8>, it: Ieee80211RadiotapIterator, i: int)
    requires
        standard_bitmap(le32(data, 4)),
        fields_end(le32(data, 4), 23) <= radiotap_len(data),
        0 <= i < 32,
        at_bit(data, it, i),
    ensures
        walked(data, it) == (fields_from(le32(data, 4), i), (-ENOENT) as i32),
    decreases 32 - i,
{
    let ns = Seq::<Ieee80211RadiotapNamespace>::empty();
    let bitmap = le32(data, 4);
    lemma_walk_bit(data, it, i);
    if bit_set(bitmap, i as u32) {
        lemma_walk_from(data, radiotap_walk(data, ns, it)->Found_0, i + 1);
    } else if i < 31 {
        lemma_walk_from(data, next_bit(it), i + 1);
    } else {
        assert(fields_from(bitmap, 32) =~= Seq::empty());
    }
}

/// The walk over a header of standard fields begins at the first bit.
pub proof fn lemma_walk_start(data: Seq<u8>)
    requires
        radiotap_accepts(data, data.len() as int),
        standard_bitmap(le32(data, 4)),
        fields_end(le32(data, 4), 23) <= radiotap_len(data),
    ensures
        at_bit(data, radiotap_start(data), 0),
{
    let bitmap = le32(data, 4);
    let start = radiotap_start(data);
    lemma_last_bit(bitmap);
    lemma_shifts(bitmap, 31);
    lemma_fields_end(bitmap, 23);
    assert(!bit_set(bitmap, 31));
    assert(start.ext_bit() == 0);
}

/// No other bitmap follows one of standard fields.
pub proof fn lemma_standard_alone(bitmap: u32)
    requires
        standard_bitmap(bitmap),
    ensures
        !has_ext(bitmap),
{
    lemma_last_bit(bitmap);
    assert(!bit_set(bitmap, 31));
}

/// A field that is announced lies within a header that has room for its fields.
pub proof fn lemma_field_within(data: Seq<u8>, f: int)
    requires
        standard_bitmap(le32(data, 4)),
        fields_end(le32(data, 4), 23) <= radiotap_len(data),
        0 <= f < 32,
        bit_set(le32(data, 4), f as u32),
    ensures
        f < 23,
        8 <= field_at(le32(data, 4), f),
        field_at(le32(data, 4), f) + RTAP_SIZES@[f] <= radiotap_len(data),
{
    let bitmap = le32(data, 4);
    lemma_fields_end(bitmap, f);
    lemma_standard_alignment(f);
    lemma_fields_aligned(fields_end(bitmap, f), RTAP_ALIGNMENTS@[f] as int);
    lemma_fields_end(bitmap, f + 1);
    lemma_fields_end_grows(bitmap, f + 1, 23);
}

/// Alignments and sizes of the standard fields that the receiver reads: flags, channel, signal, noise,
/// antenna, transmit flags, MCS and VHT.
pub proof fn lemma_field_sizes()
    ensures
        RTAP_ALIGNMENTS@ == seq![
            8u8, 1, 1, 2, 2, 1, 1, 2, 2, 2, 1, 1, 1, 1, 2, 2, 1, 1, 0, 1, 4, 2, 8,
        ],
        RTAP_SIZES@ == seq![
            8u8, 1, 1, 4, 2, 1, 1, 2, 2, 2, 1, 1, 1, 1, 2, 2, 1, 1, 0, 3, 8, 12, 12,
        ],
{
    assert(RTAP_ALIGNMENTS@ =~= seq![
        8u8, 1, 1, 2, 2, 1, 1, 2, 2, 2, 1, 1, 1, 1, 2, 2, 1, 1, 0, 1, 4, 2, 8,
    ]);
    assert(RTAP_SIZES@ =~= seq![
        8u8, 1, 1, 4, 2, 1, 1, 2, 2, 2, 1, 1, 1, 1, 2, 2, 1, 1, 0, 3, 8, 12, 12,
    ]);
}

/// The walk over a header with room for the standard fields that it announces reports exactly these,
/// each once and in ascending order, at its aligned offset and with its size, and ends where there are
/// no more.
pub proof fn lemma_whole_walk(data: Seq<u8>)
    requires
        radiotap_accepts(data, data.len() as int),
        standard_bitmap(le32(data, 4)),
        fields_end(le32(data, 4), 23) <= radiotap_len(data),
    ensures
        walked(data, radiotap_start(data)) == (fields_from(le32(data, 4), 0), (-ENOENT) as i32),
{
    lemma_walk_start(data);
    lemma_walk_from(data, radiotap_start(data), 0);
}

/// What the walk reports are the set bits.
pub proof fn lemma_fields_are_set_bits(bitmap: u32, i: int)
    requires
        0 <= i <= 32,
    ensures
        forall|j: int|
            0 <= j < fields_from(bitmap, i).len() ==> {
                let f = (#[trigger] fields_from(bitmap, i)[j]).0;
                i <= f < 32 && bit_set(bitmap, f as u32)
            },
        forall|j: int, l: int|
            0 <= j < l < fields_from(bitmap, i).len() ==> (#[trigger] fields_from(bitmap, i)[j]).0 < (
            #[trigger] fields_from(bitmap, i)[l]).0,
        forall|b: u32|
            i <= b < 32 && #[trigger] bit_set(bitmap, b) ==> exists|j: int|
                0 <= j < fields_from(bitmap, i).len() && (#[trigger] fields_from(bitmap, i)[j]).0 == b,
    decreases 32 - i,
{
    if i < 32 {
        let rest = fields_from(bitmap, i + 1);
        let all = fields_from(bitmap, i);
        lemma_fields_are_set_bits(bitmap, i + 1);
        if bit_set(bitmap, i as u32) {
            assert forall|j: int| 0 <= j < all.len() implies i <= (#[trigger] all[j]).0 < 32 && bit_set(
                bitmap,
                all[j].0 as u32,
            ) by {
                if j > 0 {
                    assert(all[j] == rest[j - 1]);
                }
            }
            assert forall|j: int, l: int| 0 <= j < l < all.len() implies (#[trigger] all[j]).0 < (
            #[trigger] all[l]).0 by {
                assert(all[l] == rest[l - 1]);
                if j > 0 {
                    assert(all[j] == rest[j - 1]);
                }
            }
            assert forall|b: u32| i <= b < 32 && #[trigger] bit_set(bitmap, b) implies exists|j: int|
                0 <= j < all.len() && (#[trigger] all[j]).0 == b by {
                if b == i {
                    assert(all[0].0 == b);
                } else {
                    let j = choose|j: int| 0 <= j < rest.len() && (#[trigger] rest[j]).0 == b;
                    assert(all[j + 1] == rest[j]);
                }
            }
        } else {
            assert(all == rest);
            assert forall|b: u32| i <= b < 32 && #[trigger] bit_set(bitmap, b) implies exists|j: int|
                0 <= j < all.len() && (#[trigger] all[j]).0 == b by {
                assert(b != i);
            }
        }
    }
}

/// The bitmaps from `at` on are complete with the one that is `m` behind it: that is the first that no other
/// follows.
pub open spec fn last_bitmap(data: Seq<u8>, at: int, m: int) -> bool {
    &&& 0 <= m
    &&& le32(data, at + 4 * m) < 0x8000_0000
    &&& forall|j: int| 0 <= j < m ==> le32(data, #[trigger] (at + 4 * j)) >= 0x8000_0000
}

/// Bitmaps lie within a header exactly if the last of them does.
proof fn lemma_bitmaps_within(data: Seq<u8>, at: int, m: int, max: int)
    requires
        last_bitmap(data, at, m),
    ensures
        bitmaps_fit(data, at, max) == (at + 4 * m + 4 <= max),
        at + 4 * m + 4 <= max ==> bitmaps_end(data, at, max) == at + 4 * m + 4,
    decreases m,
{
    if m > 0 {
        assert(le32(data, at + 4 * 0int) >= 0x8000_0000);
        assert forall|j: int| 0 <= j < m - 1 implies le32(data, #[trigger] (at + 4 + 4 * j))
            >= 0x8000_0000 by {
            assert(at + 4 + 4 * j == at + 4 * (j + 1));
        }
        assert(at + 4 + 4 * (m - 1) == at + 4 * m);
        lemma_bitmaps_within(data, at + 4, m - 1, max);
    }
}

/// A header is walked exactly if it is whole, of version zero, no longer than what was captured, and long
/// enough for all its bitmaps, and its fields begin behind the last of them.
pub proof fn lemma_header_accepted(data: Seq<u8>, max_length: int, m: int)
    requires
        last_bitmap(data, 4, m),
    ensures
        radiotap_accepts(data, max_length) <==> {
            &&& max_length >= 8
            &&& data[0] == 0
            &&& data[2] + 256 * data[3] <= max_length
            &&& m > 0 ==> 8 + 4 * m <= data[2] + 256 * data[3]
        },
        radiotap_accepts(data, max_length) ==> radiotap_start(data).arg == Some((8 + 4 * m) as usize),
{
    if m > 0 {
        assert(le32(data, 4 + 4 * 0int) >= 0x8000_0000);
        assert forall|j: int| 0 <= j < m - 1 implies le32(data, #[trigger] (8 + 4 * j)) >= 0x8000_0000 by {
            assert(8 + 4 * j == 4 + 4 * (j + 1));
        }
        assert(8 + 4 * (m - 1) == 4 + 4 * m);
        lemma_bitmaps_within(data, 8, m - 1, radiotap_len(data));
    }
}

/// A vendor is known exactly if its number and its kind of fields are listed, and then by the first entry
/// that has both.
pub proof fn lemma_vendor_found(ns: Namespaces, oui: u32, subns: u8, from: int)
    requires
        0 <= from,
        ns.len() <= usize::MAX,
    ensures
        match find_namespace(ns, oui, subns, from) {
            RadiotapNamespace::Vendor(v) => {
                &&& from <= v < ns.len()
                &&& ns[v as int].oui == oui
                &&& ns[v as int].subns == subns
                &&& forall|j: int|
                    from <= j < v ==> (#[trigger] ns[j]).oui != oui || ns[j].subns != subns
            },
            RadiotapNamespace::Unknown => forall|j: int|
                from <= j < ns.len() ==> (#[trigger] ns[j]).oui != oui || ns[j].subns != subns,
            RadiotapNamespace::Standard => false,
        },
    decreases ns.len() - from,
{
    if from < ns.len() {
        lemma_vendor_found(ns, oui, subns, from + 1);
    }
}

/// The fields of a vendor that is not known are passed over: they are reported as one field, of the six
/// bytes that announce them and as many more as these state, and what follows is read behind them.
pub proof fn lemma_unknown_vendor_passed(data: Seq<u8>, ns: Namespaces, it: Ieee80211RadiotapIterator)
    requires
        it.wf(data, ns),
        it.arg_index % 32 == 30,
        it.bitmap_shifter & 1 == 1,
        it.arg is Some,
        ({
            let a = it.arg->0 as int;
            let at = a + a % 2;
            &&& at + 6 + data[at + 4] + 256 * data[at + 5] <= it.max_length
            &&& forall|j: int|
                0 <= j < ns.len() ==> (#[trigger] ns[j]).oui != data[at] * 0x1_0000 + data[at + 1] * 0x100
                    + data[at + 2] || ns[j].subns != data[at + 3]
        }),
    ensures
        ({
            let a = it.arg->0 as int;
            let at = a + a % 2;
            let end = at + 6 + data[at + 4] + 256 * data[at + 5];
            radiotap_step(data, ns, it) matches RadiotapStep::Found(next) && {
                &&& next.this_arg_index == 30
                &&& next.this_arg == Some(at as usize)
                &&& next.this_arg_size == end - at
                &&& next.arg == Some(end as usize)
                &&& next.reset_on_ext
                &&& !next.is_radiotap_ns
            }
        }),
{
    let a = it.arg->0 as int;
    let at = a + a % 2;
    lemma_fields_aligned(a, 2);
    assert(align_up(a, 2) == at);
    let oui = (data[at] * 0x1_0000 + data[at + 1] * 0x100 + data[at + 2]) as u32;
    lemma_vendor_found(ns, oui, data[at + 3], 0);
    assert(find_namespace(ns, oui, data[at + 3], 0) is Unknown);
}

/// A standard field that reaches beyond its header ends the walk as malformed, and a bit that stands for no
/// standard field ends it as one that has no more fields.
pub proof fn lemma_walk_stops(data: Seq<u8>, ns: Namespaces, it: Ieee80211RadiotapIterator)
    requires
        it.wf(data, ns),
        it.current_namespace is Standard,
        it.bitmap_shifter & 1 == 1,
        it.arg is Some,
    ensures
        0 <= it.arg_index < 23 && it.arg_index != 18 && align_up(
            it.arg->0 as int,
            RTAP_ALIGNMENTS@[it.arg_index as int] as int,
        ) + RTAP_SIZES@[it.arg_index as int] > it.max_length ==> (radiotap_step(data, ns, it)
            matches RadiotapStep::End(e, _) && e == -22),
        it.arg_index >= 23 && it.arg_index % 32 < 29 ==> (radiotap_step(data, ns, it)
            matches RadiotapStep::End(e, _) && e == -2),
{
    if 0 <= it.arg_index < 23 {
        lemma_standard_alignment(it.arg_index as int);
    }
}

} // verus!
