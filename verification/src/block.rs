//! Blocks as they are sent: `k` data fragments and the check fragments computed from them.
use crate::wifibroadcast::{MAX_FEC_PAYLOAD, MAX_PAYLOAD_SIZE, WFB_PACKET_FEC_ONLY, WPACKET_HDR_SIZE};
use crate::zfex::coded;
use vstd::prelude::*;

verus! {

/// The size that a fragment states for its payload.
pub open spec fn stated_size(fragment: Seq<u8>) -> int {
    fragment[1] * 256 + fragment[2]
}

/// Byte `b` of a fragment behind which zeros follow.
pub open spec fn padded(fragment: Seq<u8>, b: int) -> u8 {
    if b < fragment.len() {
        fragment[b]
    } else {
        0
    }
}

/// The size of the largest of the first `i` data fragments.
pub open spec fn largest(data: Seq<Seq<u8>>, i: int) -> int
    decreases i,
{
    if i <= 0 {
        0
    } else if data[i - 1].len() > largest(data, i - 1) {
        data[i - 1].len() as int
    } else {
        largest(data, i - 1)
    }
}

/// Byte `b` of each data fragment.
pub open spec fn data_column(data: Seq<Seq<u8>>, b: int) -> Seq<u8> {
    Seq::new(data.len(), |j: int| padded(data[j], b))
}

/// Fragment `f` of the block with these data fragments: one of them, or a check fragment as long as
/// the longest.
pub open spec fn block_fragment(data: Seq<Seq<u8>>, f: int) -> Seq<u8> {
    if f < data.len() {
        data[f]
    } else {
        Seq::new(
            largest(data, data.len() as int) as nat,
            |b: int| coded(data_column(data, b), f),
        )
    }
}

/// Data fragments with a header that states the size of the payload behind it.
pub open spec fn data_valid(data: Seq<Seq<u8>>) -> bool {
    forall|j: int|
        0 <= j < data.len() ==> WPACKET_HDR_SIZE <= (#[trigger] data[j]).len() <= MAX_FEC_PAYLOAD
            && stated_size(data[j]) + WPACKET_HDR_SIZE == data[j].len()
}

/// What the receiver hands on of a data fragment: its payload, unless it is there for the code
/// alone.
pub open spec fn payload_of(fragment: Seq<u8>) -> Seq<Seq<u8>> {
    if stated_size(fragment) <= MAX_PAYLOAD_SIZE && fragment[0] & WFB_PACKET_FEC_ONLY == 0 {
        seq![fragment.subrange(WPACKET_HDR_SIZE as int, WPACKET_HDR_SIZE + stated_size(fragment))]
    } else {
        Seq::empty()
    }
}

/// The payloads of the data fragments from `from` up to `to`, in order.
pub open spec fn payloads_between(data: Seq<Seq<u8>>, from: int, to: int) -> Seq<Seq<u8>>
    decreases to - from,
{
    if to <= from {
        Seq::empty()
    } else {
        payloads_between(data, from, to - 1) + payload_of(data[to - 1])
    }
}

pub proof fn lemma_payloads_split(data: Seq<Seq<u8>>, from: int, mid: int, to: int)
    requires
        from <= mid <= to,
    ensures
        payloads_between(data, from, to) == payloads_between(data, from, mid) + payloads_between(
            data,
            mid,
            to,
        ),
    decreases to - mid,
{
    if mid < to {
        lemma_payloads_split(data, from, mid, to - 1);
        assert(payloads_between(data, from, to) =~= payloads_between(data, from, mid)
            + payloads_between(data, mid, to));
    } else {
        assert(payloads_between(data, from, to) =~= payloads_between(data, from, mid)
            + payloads_between(data, mid, to));
    }
}

pub proof fn lemma_largest(data: Seq<Seq<u8>>, i: int)
    requires
        0 <= i <= data.len(),
    ensures
        0 <= largest(data, i),
        forall|j: int| 0 <= j < i ==> (#[trigger] data[j]).len() <= largest(data, i),
        data_valid(data) ==> largest(data, i) <= MAX_FEC_PAYLOAD,
        data_valid(data) && i > 0 ==> largest(data, i) >= WPACKET_HDR_SIZE,
    decreases i,
{
    if i > 0 {
        lemma_largest(data, i - 1);
    }
}

} // verus!
