//! Walking the fields of a radiotap header.
//!
//! A radiotap header begins with its version, its length and a bitmap of the fields that follow.
//! The last bit of a bitmap says that another bitmap follows it.  Fields come in the order of their
//! bits, each aligned to its natural boundary from the beginning of the header.
use crate::bytes::{get_unaligned_le16, get_unaligned_le32, le16, le32};
use vstd::prelude::*;

verus! {

pub const IEEE80211_RADIOTAP_TSFT: i32 = 0;
pub const IEEE80211_RADIOTAP_FLAGS: i32 = 1;
pub const IEEE80211_RADIOTAP_RATE: i32 = 2;
pub const IEEE80211_RADIOTAP_CHANNEL: i32 = 3;
pub const IEEE80211_RADIOTAP_FHSS: i32 = 4;
pub const IEEE80211_RADIOTAP_DBM_ANTSIGNAL: i32 = 5;
pub const IEEE80211_RADIOTAP_DBM_ANTNOISE: i32 = 6;
pub const IEEE80211_RADIOTAP_LOCK_QUALITY: i32 = 7;
pub const IEEE80211_RADIOTAP_TX_ATTENUATION: i32 = 8;
pub const IEEE80211_RADIOTAP_DB_TX_ATTENUATION: i32 = 9;
pub const IEEE80211_RADIOTAP_DBM_TX_POWER: i32 = 10;
pub const IEEE80211_RADIOTAP_ANTENNA: i32 = 11;
pub const IEEE80211_RADIOTAP_DB_ANTSIGNAL: i32 = 12;
pub const IEEE80211_RADIOTAP_DB_ANTNOISE: i32 = 13;
pub const IEEE80211_RADIOTAP_RX_FLAGS: i32 = 14;
pub const IEEE80211_RADIOTAP_TX_FLAGS: i32 = 15;
pub const IEEE80211_RADIOTAP_RTS_RETRIES: i32 = 16;
pub const IEEE80211_RADIOTAP_DATA_RETRIES: i32 = 17;
pub const IEEE80211_RADIOTAP_MCS: i32 = 19;
pub const IEEE80211_RADIOTAP_AMPDU_STATUS: i32 = 20;
pub const IEEE80211_RADIOTAP_VHT: i32 = 21;
pub const IEEE80211_RADIOTAP_TIMESTAMP: i32 = 22;
pub const IEEE80211_RADIOTAP_RADIOTAP_NAMESPACE: i32 = 29;
pub const IEEE80211_RADIOTAP_VENDOR_NAMESPACE: i32 = 30;
pub const IEEE80211_RADIOTAP_EXT: i32 = 31;

/// Codes of a refusal: a malformed header, and no more fields.
pub const EINVAL: i32 = 22;
pub const ENOENT: i32 = 2;

/// The fixed part of a radiotap header.
#[derive(Clone, Copy, Debug, PartialEq, Eq, Structural)]
pub struct Ieee80211RadiotapHeader {
    pub it_version: u8,
    pub it_pad: u8,
    pub it_len: u16,
    pub it_present: u32,
}

pub const RADIOTAP_HEADER_SIZE: usize = 8;

/// Alignment and size of a field.  Alignment zero marks a field that is not known.
#[derive(Clone, Copy, Debug, PartialEq, Eq, Structural)]
pub struct RadiotapAlignSize {
    pub align: u8,
    pub size: u8,
}

/// The fields of a vendor.
#[derive(Clone, Debug)]
pub struct Ieee80211RadiotapNamespace {
    pub align_size: Vec<RadiotapAlignSize>,
    pub oui: u32,
    pub subns: u8,
}

/// The vendors whose fields are known.
#[derive(Clone, Debug)]
pub struct Ieee80211RadiotapVendorNamespaces {
    pub ns: Vec<Ieee80211RadiotapNamespace>,
}

/// The namespaces that are known, in order.
pub type Namespaces = Seq<Ieee80211RadiotapNamespace>;

/// Whose fields the bits of the bitmap stand for.
#[derive(Clone, Copy, Debug, PartialEq, Eq, Structural)]
pub enum RadiotapNamespace {
    Standard,
    Vendor(usize),
    Unknown,
}

/// A position in a radiotap header.  Places are offsets from its beginning.
#[derive(Clone, Debug)]
pub struct Ieee80211RadiotapIterator {
    pub current_namespace: RadiotapNamespace,
    /// Where the next field begins, if that is known.
    pub arg: Option<usize>,
    /// Where the fields of the current vendor end.
    pub next_ns_data: Option<usize>,
    pub next_bitmap: usize,
    pub this_arg: Option<usize>,
    pub this_arg_index: i32,
    pub this_arg_size: i32,
    pub is_radiotap_ns: bool,
    pub max_length: i32,
    pub arg_index: i32,
    pub bitmap_shifter: u32,
    pub reset_on_ext: bool,
}

/// Alignments of the standard fields.
pub const RTAP_ALIGNMENTS: [u8; 23] = [
    8, 1, 1, 2, 2, 1, 1, 2, 2, 2, 1, 1, 1, 1, 2, 2, 1, 1, 0, 1, 4, 2, 8,
];

/// Sizes of the standard fields.
pub const RTAP_SIZES: [u8; 23] = [
    8, 1, 1, 4, 2, 1, 1, 2, 2, 2, 1, 1, 1, 1, 2, 2, 1, 1, 0, 3, 8, 12, 12,
];

/// The length that a radiotap header states.
pub open spec fn radiotap_len(data: Seq<u8>) -> int {
    le16(data, 2) as int
}

/// The length that a radiotap header states.
pub fn ieee80211_get_radiotap_len(data: &[u8]) -> (len: i32)
    requires
        data@.len() >= 4,
    ensures
        len == radiotap_len(data@),
{
    get_unaligned_le16(data, 2) as i32
}

/// Whether another bitmap follows this one.
pub open spec fn has_ext(bitmap: u32) -> bool {
    bitmap >= 0x8000_0000
}

/// The bitmaps from `at` on lie within `max` bytes, down to one that no other follows.
pub open spec fn bitmaps_fit(data: Seq<u8>, at: int, max: int) -> bool
    decreases max - at,
{
    at + 4 <= max && (has_ext(le32(data, at)) ==> bitmaps_fit(data, at + 4, max))
}

/// Where the bitmaps from `at` on end.
pub open spec fn bitmaps_end(data: Seq<u8>, at: int, max: int) -> int
    decreases max - at,
{
    if at + 4 <= max && has_ext(le32(data, at)) {
        bitmaps_end(data, at + 4, max)
    } else {
        at + 4
    }
}

/// Whether a header can be walked: it is complete, of version zero, and its bitmaps lie within it.
pub open spec fn radiotap_accepts(data: Seq<u8>, max_length: int) -> bool {
    &&& max_length >= RADIOTAP_HEADER_SIZE
    &&& data[0] == 0
    &&& radiotap_len(data) <= max_length
    &&& has_ext(le32(data, 4)) ==> bitmaps_fit(data, 8, radiotap_len(data))
}

impl Ieee80211RadiotapIterator {
    /// The last bit of the bitmap that is being walked.
    pub open spec fn ext_bit(&self) -> u32 {
        (self.bitmap_shifter >> ((31 - self.arg_index % 32) as u32)) & 1
    }

    /// The position belongs to this header: whenever another bitmap is announced, it is there.
    pub open spec fn wf(&self, data: Seq<u8>, ns: Namespaces) -> bool {
        &&& ns.len() <= usize::MAX
        &&& 0 <= self.max_length <= data.len()
        &&& self.max_length <= 65535
        &&& 8 <= self.next_bitmap
        &&& self.next_bitmap % 4 == 0
        &&& self.next_bitmap <= self.max_length + 8
        &&& 0 <= self.arg_index < 8 * self.next_bitmap - 32
        &&& self.ext_bit() == 1 ==> bitmaps_fit(
            data,
            self.next_bitmap as int,
            self.max_length as int,
        )
        &&& self.arg matches Some(a) ==> 8 <= a <= 200_000
        &&& self.next_ns_data matches Some(a) ==> 8 <= a <= 200_000
        &&& self.current_namespace matches RadiotapNamespace::Vendor(v) ==> v < ns.len()
    }
}

/// The position before the first field of a header that can be walked.
pub open spec fn radiotap_start(data: Seq<u8>) -> Ieee80211RadiotapIterator {
    let first: usize = if has_ext(le32(data, 4)) {
        bitmaps_end(data, 8, radiotap_len(data)) as usize
    } else {
        8
    };
    Ieee80211RadiotapIterator {
        current_namespace: RadiotapNamespace::Standard,
        arg: Some(first),
        next_ns_data: None,
        next_bitmap: 8,
        this_arg: Some(first),
        this_arg_index: 0,
        this_arg_size: 0,
        is_radiotap_ns: true,
        max_length: radiotap_len(data) as i32,
        arg_index: 0,
        bitmap_shifter: le32(data, 4),
        reset_on_ext: false,
    }
}

proof fn lemma_bits_top(x: u32)
    by (bit_vector)
    ensures
        (x >= 0x8000_0000) == ((x >> 31) & 1 == 1),
        (x & (1u32 << 31) != 0) == (x >= 0x8000_0000),
{
}

proof fn lemma_bits_shift(x: u32, s: u32)
    by (bit_vector)
    requires
        0 < s < 32,
    ensures
        ((x >> 1) >> ((s - 1) as u32)) & 1 == (x >> s) & 1,
{
}

proof fn lemma_bits_zero_shift(x: u32)
    by (bit_vector)
    ensures
        x >> 0 == x,
{
}

/// Puts an iterator before the first field of the header that begins `radiotap_header`.
pub fn ieee80211_radiotap_iterator_init(radiotap_header: &[u8], max_length: i32) -> (r: Result<
    Ieee80211RadiotapIterator,
    i32,
>)
    requires
        max_length <= radiotap_header@.len(),
    ensures
        r is Ok <==> radiotap_accepts(radiotap_header@, max_length as int),
        r matches Ok(it) ==> it == radiotap_start(radiotap_header@) && forall|ns: Namespaces|
            ns.len() <= usize::MAX ==> #[trigger] it.wf(radiotap_header@, ns),
        r matches Err(e) ==> e == -EINVAL,
{
    let data: &[u8] = radiotap_header;
    if max_length < RADIOTAP_HEADER_SIZE as i32 {
        return Err(-EINVAL);
    }
    if data[0] != 0 {
        return Err(-EINVAL);
    }
    let it_len: i32 = ieee80211_get_radiotap_len(data);
    if max_length < it_len {
        return Err(-EINVAL);
    }
    let present: u32 = get_unaligned_le32(data, 4);
    let mut arg: usize = 8;
    proof {
        lemma_bits_top(present);
    }
    if present & (1u32 << 31) != 0 {
        if arg + 4 > it_len as usize {
            return Err(-EINVAL);
        }
        let mut word: u32 = get_unaligned_le32(data, arg);
        proof {
            lemma_bits_top(word);
        }
        while word & (1u32 << 31) != 0
            invariant
                8 <= arg,
                arg + 4 <= it_len <= max_length <= data@.len(),
                it_len <= 65535,
                max_length >= 8,
                it_len == radiotap_len(data@),
                data@ == radiotap_header@,
                has_ext(le32(data@, 4)),
                data@[0] == 0,
                word == le32(data@, arg as int),
                (word & (1u32 << 31) != 0) == has_ext(word),
                bitmaps_fit(data@, 8, it_len as int) == bitmaps_fit(
                    data@,
                    arg as int,
                    it_len as int,
                ),
                bitmaps_end(data@, 8, it_len as int) == bitmaps_end(
                    data@,
                    arg as int,
                    it_len as int,
                ),
            decreases it_len - arg,
        {
            arg = arg + 4;
            if arg + 4 > it_len as usize {
                assert(!bitmaps_fit(data@, arg as int, it_len as int));
                return Err(-EINVAL);
            }
            word = get_unaligned_le32(data, arg);
            proof {
                lemma_bits_top(word);
            }
        }
        arg = arg + 4;
    }
    let it = Ieee80211RadiotapIterator {
        current_namespace: RadiotapNamespace::Standard,
        arg: Some(arg),
        next_ns_data: None,
        next_bitmap: 8,
        this_arg: Some(arg),
        this_arg_index: 0,
        this_arg_size: 0,
        is_radiotap_ns: true,
        max_length: it_len,
        arg_index: 0,
        bitmap_shifter: present,
        reset_on_ext: false,
    };
    Ok(it)
}

/// The offset `a` brought up to an alignment: for a power of two, to its next multiple.
pub open spec fn align_up(a: int, align: int) -> int {
    let pad = a as u32 & (align - 1) as u32;
    if pad == 0 {
        a
    } else {
        a + align - pad
    }
}

/// The first known namespace with this number, if there is one from `from` on.
pub open spec fn find_namespace(
    ns: Namespaces,
    oui: u32,
    subns: u8,
    from: int,
) -> RadiotapNamespace
    decreases ns.len() - from,
{
    if from >= ns.len() {
        RadiotapNamespace::Unknown
    } else if ns[from].oui == oui && ns[from].subns == subns {
        RadiotapNamespace::Vendor(from as usize)
    } else {
        find_namespace(ns, oui, subns, from + 1)
    }
}

/// The fields of the current namespace.
pub open spec fn namespace_field(ns: Namespaces, it: Ieee80211RadiotapIterator) -> Option<RadiotapAlignSize> {
    match it.current_namespace {
        RadiotapNamespace::Standard => if it.arg_index < 23 {
            Some(
                RadiotapAlignSize {
                    align: RTAP_ALIGNMENTS@[it.arg_index as int],
                    size: RTAP_SIZES@[it.arg_index as int],
                },
            )
        } else {
            None
        },
        RadiotapNamespace::Vendor(v) => {
            let table = ns[v as int].align_size@;
            if it.arg_index < table.len() {
                Some(table[it.arg_index as int])
            } else {
                None
            }
        },
        RadiotapNamespace::Unknown => None,
    }
}

/// One bit further.
pub open spec fn next_bit(it: Ieee80211RadiotapIterator) -> Ieee80211RadiotapIterator {
    Ieee80211RadiotapIterator {
        bitmap_shifter: it.bitmap_shifter >> 1,
        arg_index: (it.arg_index + 1) as i32,
        ..it
    }
}

/// What looking at one bit comes to.
pub enum RadiotapStep {
    /// Nothing to report yet.
    Further(Ieee80211RadiotapIterator),
    /// A field was found.
    Found(Ieee80211RadiotapIterator),
    /// The walk ends with this code and leaves the position here.
    End(i32, Ieee80211RadiotapIterator),
}

/// Takes the field of `size` bytes at `at` that the current bit stands for.
pub open spec fn take_field(
    data: Seq<u8>,
    it: Ieee80211RadiotapIterator,
    at: int,
    size: int,
) -> RadiotapStep {
    let m = it.arg_index % 32;
    let end = at + size;
    let taken = Ieee80211RadiotapIterator {
        this_arg: Some(at as usize),
        this_arg_index: it.arg_index,
        this_arg_size: size as i32,
        arg: Some(end as usize),
        ..it
    };
    if end > it.max_length {
        RadiotapStep::End((-EINVAL) as i32, taken)
    } else if m == 30 {
        let v = Ieee80211RadiotapIterator {
            reset_on_ext: true,
            is_radiotap_ns: false,
            this_arg_index: 30,
            ..taken
        };
        if it.current_namespace is Unknown {
            RadiotapStep::Found(next_bit(v))
        } else {
            RadiotapStep::Further(next_bit(v))
        }
    } else if m == 29 {
        RadiotapStep::Further(
            next_bit(
                Ieee80211RadiotapIterator {
                    reset_on_ext: true,
                    is_radiotap_ns: true,
                    current_namespace: RadiotapNamespace::Standard,
                    ..taken
                },
            ),
        )
    } else if m == 31 {
        RadiotapStep::Further(
            next_bit(
                Ieee80211RadiotapIterator {
                    bitmap_shifter: le32(data, it.next_bitmap as int),
                    next_bitmap: (it.next_bitmap + 4) as usize,
                    arg_index: if it.reset_on_ext {
                        0
                    } else {
                        (it.arg_index + 1) as i32
                    },
                    reset_on_ext: false,
                    ..taken
                },
            ),
        )
    } else {
        RadiotapStep::Found(next_bit(taken))
    }
}

/// The vendor that the bytes at `at` announce, with the end of its fields.
pub open spec fn enter_vendor(
    data: Seq<u8>,
    ns: Namespaces,
    it: Ieee80211RadiotapIterator,
    at: int,
) -> Ieee80211RadiotapIterator {
    let oui = (data[at] * 0x1_0000 + data[at + 1] * 0x100 + data[at + 2]) as u32;
    Ieee80211RadiotapIterator {
        current_namespace: find_namespace(ns, oui, data[at + 3], 0),
        next_ns_data: Some((at + 6 + le16(data, at + 4)) as usize),
        ..it
    }
}

/// Looks at one bit of the bitmap.
pub open spec fn radiotap_step(data: Seq<u8>, ns: Namespaces, it: Ieee80211RadiotapIterator) -> RadiotapStep {
    let m = it.arg_index % 32;
    if it.bitmap_shifter & 1 == 0 {
        if m == 31 {
            RadiotapStep::End((-ENOENT) as i32, it)
        } else {
            RadiotapStep::Further(next_bit(it))
        }
    } else if m == 29 || m == 31 {
        match it.arg {
            Some(a) => take_field(data, it, a as int, 0),
            None => RadiotapStep::End((-EINVAL) as i32, it),
        }
    } else if m == 30 {
        match it.arg {
            Some(a) => {
                let at = align_up(a as int, 2);
                if at + 6 > it.max_length {
                    RadiotapStep::End(
                        (-EINVAL) as i32,
                        Ieee80211RadiotapIterator { arg: Some(at as usize), ..it },
                    )
                } else {
                    let v = enter_vendor(data, ns, it, at);
                    take_field(
                        data,
                        v,
                        at,
                        if v.current_namespace is Unknown {
                            6 + le16(data, at + 4)
                        } else {
                            6
                        },
                    )
                }
            },
            None => RadiotapStep::End((-EINVAL) as i32, it),
        }
    } else if namespace_field(ns, it) is None && it.current_namespace is Standard {
        RadiotapStep::End((-ENOENT) as i32, it)
    } else if namespace_field(ns, it) is None || namespace_field(ns, it)->0.align == 0 {
        RadiotapStep::Further(
            next_bit(
                Ieee80211RadiotapIterator {
                    arg: it.next_ns_data,
                    current_namespace: RadiotapNamespace::Unknown,
                    ..it
                },
            ),
        )
    } else {
        let field = namespace_field(ns, it)->0;
        match it.arg {
            Some(a) => take_field(
                data,
                it,
                align_up(a as int, field.align as int),
                field.size as int,
            ),
            None => RadiotapStep::End((-EINVAL) as i32, it),
        }
    }
}

/// Looks at bits until a field is found or the walk ends.
pub open spec fn radiotap_walk(data: Seq<u8>, ns: Namespaces, it: Ieee80211RadiotapIterator) -> RadiotapStep
    decreases data.len() + 16 - it.next_bitmap, 32 - it.arg_index % 32,
        when it.wf(data, ns)
        via radiotap_walk_decreases
{
    match radiotap_step(data, ns, it) {
        RadiotapStep::Further(next) => radiotap_walk(data, ns, next),
        other => other,
    }
}

#[via_fn]
proof fn radiotap_walk_decreases(data: Seq<u8>, ns: Namespaces, it: Ieee80211RadiotapIterator) {
    lemma_radiotap_step(data, ns, it);
}

proof fn lemma_align_up(a: int, align: int)
    requires
        0 <= a <= 200_000,
        1 <= align <= 255,
    ensures
        a <= align_up(a, align) < a + align,
{
    lemma_bits_masked(a as u32, (align - 1) as u32);
}

proof fn lemma_bits_masked(a: u32, m: u32)
    by (bit_vector)
    ensures
        a & m <= m,
{
}

proof fn lemma_bits_multiple(a: u32)
    by (bit_vector)
    ensures
        a & 0 == 0,
        a & 1 == a % 2,
        a & 3 == a % 4,
        a & 7 == a % 8,
{
}

/// Fields stand at multiples of their alignment.
pub proof fn lemma_fields_aligned(a: int, align: int)
    requires
        0 <= a <= 200_000,
        align == 1 || align == 2 || align == 4 || align == 8,
    ensures
        align_up(a, align) % align == 0,
        a <= align_up(a, align) < a + align,
{
    lemma_align_up(a, align);
    lemma_bits_multiple(a as u32);
}

proof fn lemma_find_namespace(
    ns: Namespaces,
    oui: u32,
    subns: u8,
    from: int,
)
    requires
        0 <= from,
        ns.len() <= usize::MAX,
    ensures
        find_namespace(ns, oui, subns, from) matches RadiotapNamespace::Vendor(v) ==> v
            < ns.len(),
    decreases ns.len() - from,
{
    if from < ns.len() {
        lemma_find_namespace(ns, oui, subns, from + 1);
    }
}

/// Moving on by one bit keeps the bitmap in step.
proof fn lemma_next_bit(it: Ieee80211RadiotapIterator)
    requires
        0 <= it.arg_index < 0x7fff_ffff,
        it.arg_index % 32 != 31,
    ensures
        next_bit(it).ext_bit() == it.ext_bit(),
        next_bit(it).arg_index % 32 == it.arg_index % 32 + 1,
{
    let s = (31 - it.arg_index % 32) as u32;
    lemma_bits_shift(it.bitmap_shifter, s);
}

/// Looking at a bit keeps the position within the header and makes progress.
#[verifier::rlimit(40)]
pub proof fn lemma_radiotap_step(data: Seq<u8>, ns: Namespaces, it: Ieee80211RadiotapIterator)
    requires
        it.wf(data, ns),
    ensures
        match radiotap_step(data, ns, it) {
            RadiotapStep::Further(next) => next.wf(data, ns) && next.max_length == it.max_length
                && (next.next_bitmap > it.next_bitmap || (next.next_bitmap
                == it.next_bitmap && next.arg_index % 32 > it.arg_index % 32)) && next.next_bitmap
                <= data.len() + 8,
            RadiotapStep::Found(next) => next.wf(data, ns) && next.max_length == it.max_length
                && next.this_arg is Some && next.this_arg->0 >= 8 && next.this_arg_size >= 0
                && next.this_arg->0 + next.this_arg_size <= it.max_length,
            RadiotapStep::End(e, last) => (e == -ENOENT || e == -EINVAL) && last.max_length
                == it.max_length,
        },
{
    let m = it.arg_index % 32;
    if it.arg is Some {
        lemma_align_up(it.arg->0 as int, 2);
        if namespace_field(ns, it) is Some && namespace_field(ns, it)->0.align > 0 {
            lemma_align_up(it.arg->0 as int, namespace_field(ns, it)->0.align as int);
        }
    }
    if m != 31 {
        lemma_next_bit(it);
        if m == 30 && it.arg is Some {
            let at = align_up(it.arg->0 as int, 2);
            let oui = (data[at] * 0x1_0000 + data[at + 1] * 0x100 + data[at + 2]) as u32;
            lemma_find_namespace(ns, oui, data[at + 3], 0);
        }
    } else {
        lemma_bits_zero_shift(it.bitmap_shifter);
        if it.bitmap_shifter & 1 != 0 {
            lemma_bits_low(it.bitmap_shifter);
            assert(it.ext_bit() == 1);
            let w = le32(data, it.next_bitmap as int);
            lemma_bits_shift(w, 31);
            lemma_bits_top(w);
        }
    }
}

/// The known namespace with this number.
fn find_ns(vns: &Ieee80211RadiotapVendorNamespaces, oui: u32, subns: u8) -> (r: RadiotapNamespace)
    ensures
        r == find_namespace(vns.ns@, oui, subns, 0),
{
    let mut i: usize = 0;
    while i < vns.ns.len()
        invariant
            i <= vns.ns@.len(),
            find_namespace(vns.ns@, oui, subns, 0) == find_namespace(vns.ns@, oui, subns, i as int),
        decreases vns.ns@.len() - i,
    {
        if vns.ns[i].oui == oui && vns.ns[i].subns == subns {
            return RadiotapNamespace::Vendor(i);
        }
        i = i + 1;
    }
    RadiotapNamespace::Unknown
}

fn field_of(vns: &Ieee80211RadiotapVendorNamespaces, it: &Ieee80211RadiotapIterator) -> (r: Option<RadiotapAlignSize>)
    requires
        it.arg_index >= 0,
        it.current_namespace matches RadiotapNamespace::Vendor(v) ==> v < vns.ns@.len(),
    ensures
        r == namespace_field(vns.ns@, *it),
{
    let i: usize = it.arg_index as usize;
    match it.current_namespace {
        RadiotapNamespace::Standard => if i < 23 {
            Some(RadiotapAlignSize { align: RTAP_ALIGNMENTS[i], size: RTAP_SIZES[i] })
        } else {
            None
        },
        RadiotapNamespace::Vendor(v) => if i < vns.ns[v].align_size.len() {
            Some(vns.ns[v].align_size[i])
        } else {
            None
        },
        RadiotapNamespace::Unknown => None,
    }
}

fn align_offset(a: usize, align: usize) -> (r: usize)
    requires
        align > 0,
        a <= 200_000,
        align <= 255,
    ensures
        r == align_up(a as int, align as int),
        align == 1 ==> r == a,
{
    let pad: usize = (a as u32 & (align - 1) as u32) as usize;
    proof {
        lemma_bits_masked(a as u32, (align - 1) as u32);
        lemma_bits_multiple(a as u32);
    }
    if pad != 0 {
        a + align - pad
    } else {
        a
    }
}

/// Takes the field at `at`, as `take_field` says.  `Some` is the code to end with or, for a field
/// that was found, zero.
fn take(it: &mut Ieee80211RadiotapIterator, data: &[u8], at: usize, size: usize) -> (r: Option<i32>)
    requires
        0 <= old(it).max_length <= data@.len(),
        at <= 300_000,
        size <= 100_000,
        0 <= old(it).arg_index < 0x7fff_0000,
        old(it).next_bitmap <= 200_000,
        old(it).arg_index % 32 == 31 && at + size <= old(it).max_length ==> old(it).next_bitmap + 4
            <= data@.len(),
    ensures
        match take_field(data@, *old(it), at as int, size as int) {
            RadiotapStep::Further(next) => r is None && *final(it) == next,
            RadiotapStep::Found(next) => r == Some(0i32) && *final(it) == next,
            RadiotapStep::End(e, last) => r == Some(e) && *final(it) == last,
        },
{
    let end: usize = at + size;
    let m: i32 = it.arg_index % 32;
    let mut hit: bool = false;
    it.this_arg_index = it.arg_index;
    it.this_arg = Some(at);
    it.this_arg_size = size as i32;
    it.arg = Some(end);
    if end > it.max_length as usize {
        return Some(-EINVAL);
    }
    if m == IEEE80211_RADIOTAP_VENDOR_NAMESPACE {
        it.reset_on_ext = true;
        it.is_radiotap_ns = false;
        it.this_arg_index = IEEE80211_RADIOTAP_VENDOR_NAMESPACE;
        if matches!(it.current_namespace, RadiotapNamespace::Unknown) {
            hit = true;
        }
    } else if m == IEEE80211_RADIOTAP_RADIOTAP_NAMESPACE {
        it.reset_on_ext = true;
        it.current_namespace = RadiotapNamespace::Standard;
        it.is_radiotap_ns = true;
    } else if m == IEEE80211_RADIOTAP_EXT {
        it.bitmap_shifter = get_unaligned_le32(data, it.next_bitmap);
        it.next_bitmap = it.next_bitmap + 4;
        if it.reset_on_ext {
            it.arg_index = 0;
        } else {
            it.arg_index = it.arg_index + 1;
        }
        it.reset_on_ext = false;
    } else {
        hit = true;
    }
    it.bitmap_shifter = it.bitmap_shifter >> 1;
    it.arg_index = it.arg_index + 1;
    if hit {
        Some(0)
    } else {
        None
    }
}

/// Moves to the next field of the header `data`.  Zero says that there is one; `-ENOENT`, that
/// there are no more; `-EINVAL`, that the header is malformed.  With a code other than zero the
/// position stays at the bit that ended the walk; a field that runs past the header is still noted.
pub fn ieee80211_radiotap_iterator_next(
    iterator: &mut Ieee80211RadiotapIterator,
    data: &[u8],
    vns: &Ieee80211RadiotapVendorNamespaces,
) -> (r: i32)
    requires
        old(iterator).wf(data@, vns.ns@),
    ensures
        match radiotap_walk(data@, vns.ns@, *old(iterator)) {
            RadiotapStep::Found(next) => r == 0 && *final(iterator) == next && next.wf(data@, vns.ns@),
            RadiotapStep::End(e, last) => r == e && r != 0 && *final(iterator) == last,
            RadiotapStep::Further(next) => false,
        },
        r == 0 || r == -ENOENT || r == -EINVAL,
        final(iterator).max_length == old(iterator).max_length,
{
    loop
        invariant
            iterator.wf(data@, vns.ns@),
            iterator.max_length == old(iterator).max_length,
            radiotap_walk(data@, vns.ns@, *iterator) == radiotap_walk(data@, vns.ns@, *old(iterator)),
        decreases data@.len() + 16 - iterator.next_bitmap, 32 - iterator.arg_index % 32,
    {
        let ghost before = *iterator;
        proof {
            lemma_radiotap_step(data@, vns.ns@, before);
            lemma_bits_low(before.bitmap_shifter);
            if before.arg is Some {
                lemma_align_up(before.arg->0 as int, 2);
            }
        }
        let m: i32 = iterator.arg_index % 32;
        if iterator.bitmap_shifter & 1 == 0 {
            if m == IEEE80211_RADIOTAP_EXT {
                return -ENOENT;
            }
            iterator.bitmap_shifter = iterator.bitmap_shifter >> 1;
            iterator.arg_index = iterator.arg_index + 1;
            continue;
        }
        let mut align: usize = 1;
        let mut size: usize = 0;
        if m == IEEE80211_RADIOTAP_VENDOR_NAMESPACE {
            align = 2;
            size = 6;
        } else if m != IEEE80211_RADIOTAP_RADIOTAP_NAMESPACE && m != IEEE80211_RADIOTAP_EXT {
            match field_of(vns, iterator) {
                None => {
                    if matches!(iterator.current_namespace, RadiotapNamespace::Standard) {
                        return -ENOENT;
                    }
                    align = 0;
                },
                Some(field) => {
                    align = field.align as usize;
                    size = field.size as usize;
                },
            }
        }
        if align == 0 {
            iterator.arg = iterator.next_ns_data;
            iterator.current_namespace = RadiotapNamespace::Unknown;
            iterator.bitmap_shifter = iterator.bitmap_shifter >> 1;
            iterator.arg_index = iterator.arg_index + 1;
            continue;
        }
        let at: usize = match iterator.arg {
            None => {
                return -EINVAL;
            },
            Some(a) => align_offset(a, align),
        };
        if m == IEEE80211_RADIOTAP_VENDOR_NAMESPACE {
            if at + size > iterator.max_length as usize {
                iterator.arg = Some(at);
                return -EINVAL;
            }
            let oui: u32 = data[at] as u32 * 0x1_0000 + data[at + 1] as u32 * 0x100 + data[at + 2] as u32;
            let subns: u8 = data[at + 3];
            iterator.current_namespace = find_ns(vns, oui, subns);
            let vnslen: usize = get_unaligned_le16(data, at + 4) as usize;
            iterator.next_ns_data = Some(at + size + vnslen);
            if matches!(iterator.current_namespace, RadiotapNamespace::Unknown) {
                size = size + vnslen;
            }
        }
        proof {
            lemma_bits_zero_shift(before.bitmap_shifter);
        }
        if let Some(code) = take(iterator, data, at, size) {
            return code;
        }
    }
}

proof fn lemma_bits_low(x: u32)
    by (bit_vector)
    ensures
        x & 1 == 0 || x & 1 == 1,
{
}

/// A step that comes before another in the walk of one header.
pub open spec fn walk_before(a: Ieee80211RadiotapIterator, b: Ieee80211RadiotapIterator) -> bool {
    a.next_bitmap < b.next_bitmap || (a.next_bitmap == b.next_bitmap && a.arg_index % 32
        < b.arg_index % 32)
}

proof fn lemma_standard_field(data: Seq<u8>, ns: Namespaces, it: Ieee80211RadiotapIterator)
    requires
        it.wf(data, ns),
        ns.len() == 0,
    ensures
        radiotap_step(data, ns, it) matches RadiotapStep::Found(next) ==> walk_before(it, next) && (
        next.this_arg_index == 30 || (0 <= next.this_arg_index < 23 && next.this_arg_size
            == RTAP_SIZES@[next.this_arg_index as int])) && field_aligned(next),
{
    lemma_radiotap_step(data, ns, it);
    if it.arg is Some {
        lemma_fields_aligned(it.arg->0 as int, 2);
        if 0 <= it.arg_index < 23 && RTAP_ALIGNMENTS@[it.arg_index as int] != 0 {
            lemma_standard_alignment(it.arg_index as int);
            lemma_fields_aligned(
                it.arg->0 as int,
                RTAP_ALIGNMENTS@[it.arg_index as int] as int,
            );
        }
    }
}

/// Standard fields are aligned to powers of two.
pub proof fn lemma_standard_alignment(i: int)
    requires
        0 <= i < 23,
    ensures
        ({
            let a = RTAP_ALIGNMENTS@[i];
            a == 1 || a == 2 || a == 4 || a == 8 || (a == 0 && i == 18)
        }),
        RTAP_SIZES@[i] <= 12,
{
    assert(i == 0 || i == 1 || i == 2 || i == 3 || i == 4 || i == 5 || i == 6 || i == 7 || i == 8
        || i == 9 || i == 10 || i == 11 || i == 12 || i == 13 || i == 14 || i == 15 || i == 16 || i
        == 17 || i == 18 || i == 19 || i == 20 || i == 21 || i == 22);
}

/// The field stands at a multiple of its alignment, behind the first bitmap.
pub open spec fn field_aligned(it: Ieee80211RadiotapIterator) -> bool {
    &&& it.this_arg matches Some(a) && a >= 8
    &&& if it.this_arg_index == 30 {
        it.this_arg->0 % 2 == 0
    } else {
        it.this_arg->0 as int % RTAP_ALIGNMENTS@[it.this_arg_index as int] as int == 0
    }
}

/// A field that would end behind the header is malformed, whatever follows.
pub proof fn lemma_field_past_end(
    data: Seq<u8>,
    ns: Namespaces,
    it: Ieee80211RadiotapIterator,
    field: RadiotapAlignSize,
)
    requires
        it.wf(data, ns),
        it.bitmap_shifter & 1 != 0,
        it.arg_index % 32 < 29,
        namespace_field(ns, it) == Some(field),
        field.align != 0,
        it.arg matches Some(a) && align_up(a as int, field.align as int) + field.size
            > it.max_length,
    ensures
        radiotap_walk(data, ns, it) matches RadiotapStep::End(e, _) && e == -EINVAL,
{
}

/// Where no vendor is known, a field that is found is one of the standard ones, with its size, or
/// the fields of a vendor as a whole.  It lies within the header and is aligned.
pub proof fn lemma_radiotap_walk(data: Seq<u8>, ns: Namespaces, it: Ieee80211RadiotapIterator)
    requires
        it.wf(data, ns),
        ns.len() == 0,
    ensures
        match radiotap_walk(data, ns, it) {
            RadiotapStep::Found(next) => {
                &&& next.wf(data, ns)
                &&& next.max_length == it.max_length
                &&& walk_before(it, next)
                &&& next.this_arg is Some
                &&& next.this_arg->0 + next.this_arg_size <= it.max_length
                &&& next.this_arg_index == 30 || (0 <= next.this_arg_index < 23
                    && next.this_arg_size == RTAP_SIZES@[next.this_arg_index as int])
                &&& field_aligned(next)
            },
            RadiotapStep::End(e, _) => e == -ENOENT || e == -EINVAL,
            RadiotapStep::Further(next) => false,
        },
    decreases data.len() + 16 - it.next_bitmap, 32 - it.arg_index % 32,
{
    lemma_radiotap_step(data, ns, it);
    lemma_standard_field(data, ns, it);
    if let RadiotapStep::Further(next) = radiotap_step(data, ns, it) {
        lemma_radiotap_walk(data, ns, next);
    }
}

} // verus!
