//! What the transmitter sends for a block and over a session.
use crate::block::{block_fragment, largest};
use crate::bytes::{be_bytes, be_value};
use crate::bytes::{lemma_be_len, lemma_be_round_trip, lemma_byte_range};
use crate::tx::{
    announced, checks_sent, data_fragment, data_sent, fragment_header, opens_to, packet_sent,
    same_setup, sealed_fragment,
    TxEventView, TxView,
};
use crate::wifibroadcast::{MAX_BLOCK_IDX, WFB_PACKET_DATA, WFB_PACKET_FEC_ONLY};
use vstd::prelude::*;

verus! {

/// The packets among the events, in order.
pub open spec fn injected(events: Seq<TxEventView>) -> Seq<Seq<u8>>
    decreases events.len(),
{
    if events.len() == 0 {
        Seq::empty()
    } else {
        injected(events.drop_last()) + match events.last() {
            TxEventView::Inject(p) => seq![p],
            _ => Seq::empty(),
        }
    }
}

proof fn lemma_injected_add(a: Seq<TxEventView>, b: Seq<TxEventView>)
    ensures
        injected(a + b) == injected(a) + injected(b),
    decreases b.len(),
{
    if b.len() == 0 {
        assert(a + b =~= a);
    } else {
        lemma_injected_add(a, b.drop_last());
        assert((a + b).drop_last() =~= a + b.drop_last());
        assert((a + b).last() == b.last());
    }
    assert(injected(a + b) =~= injected(a) + injected(b));
}

proof fn lemma_injected_one(e: TxEventView)
    ensures
        injected(seq![e]) == match e {
            TxEventView::Inject(p) => seq![p],
            _ => Seq::empty(),
        },
{
    assert(seq![e].drop_last() =~= Seq::empty());
    reveal_with_fuel(injected, 2);
    assert(injected(seq![e]) =~= match e {
        TxEventView::Inject(p) => seq![p],
        _ => Seq::empty(),
    });
}

/// The packets of the fragments from `from` up to `to` of the transmitter's current block.
pub open spec fn fragment_packets(v: TxView, data: Seq<Seq<u8>>, from: int, to: int) -> Seq<Seq<u8>> {
    Seq::new(
        (to - from) as nat,
        |i: int| sealed_fragment(v, from + i, block_fragment(data, from + i)),
    )
}

proof fn lemma_checks_injected(v: TxView, data: Seq<Seq<u8>>, f: int)
    requires
        f <= v.n,
    ensures
        injected(checks_sent(v, data, f)) == fragment_packets(v, data, f, v.n),
    decreases v.n - f,
{
    if f < v.n {
        let delay = if v.fec_delay > 0 {
            seq![TxEventView::Delay(v.fec_delay)]
        } else {
            Seq::empty()
        };
        let packet = TxEventView::Inject(sealed_fragment(v, f, block_fragment(data, f)));
        let rest = checks_sent(v, data, f + 1);
        lemma_checks_injected(v, data, f + 1);
        lemma_injected_one(packet);
        lemma_injected_one(TxEventView::Delay(v.fec_delay));
        assert(injected(delay) =~= Seq::empty());
        lemma_injected_add(delay, seq![packet]);
        lemma_injected_add(delay + seq![packet], rest);
        assert(injected(checks_sent(v, data, f)) =~= fragment_packets(v, data, f, v.n));
    } else {
        assert(injected(checks_sent(v, data, f)) =~= fragment_packets(v, data, f, v.n));
    }
}

/// The check fragments go out one by one, in order and each once, each behind a pause if there is one to
/// be made.
pub proof fn lemma_checks_spaced(v: TxView, data: Seq<Seq<u8>>, f: int, g: int)
    requires
        f <= g < v.n,
    ensures
        v.fec_delay == 0 ==> {
            &&& checks_sent(v, data, f).len() == v.n - f
            &&& checks_sent(v, data, f)[g - f] == TxEventView::Inject(
                sealed_fragment(v, g, block_fragment(data, g)),
            )
        },
        v.fec_delay > 0 ==> {
            &&& checks_sent(v, data, f).len() == 2 * (v.n - f)
            &&& checks_sent(v, data, f)[2 * (g - f)] == TxEventView::Delay(v.fec_delay)
            &&& checks_sent(v, data, f)[2 * (g - f) + 1] == TxEventView::Inject(
                sealed_fragment(v, g, block_fragment(data, g)),
            )
        },
    decreases v.n - f,
{
    if f + 1 < v.n {
        lemma_checks_spaced(
            v,
            data,
            f + 1,
            if g > f {
                g
            } else {
                f + 1
            },
        );
    } else {
        assert(checks_sent(v, data, f + 1).len() == 0);
    }
}

proof fn lemma_data_injected(v: TxView, d: Seq<u8>)
    ensures
        injected(data_sent(v, d)) == seq![sealed_fragment(v, v.data.len() as int, d)],
{
    let mark = if v.data.len() == 0 {
        seq![TxEventView::SetMark(0)]
    } else {
        Seq::empty()
    };
    let packet = TxEventView::Inject(sealed_fragment(v, v.data.len() as int, d));
    lemma_injected_one(packet);
    lemma_injected_one(TxEventView::SetMark(0));
    assert(injected(mark) =~= Seq::empty());
    lemma_injected_add(mark, seq![packet]);
    assert(injected(data_sent(v, d)) =~= seq![sealed_fragment(v, v.data.len() as int, d)]);
}

/// What goes out for the first `i` data fragments of a block, one after the other.
pub open spec fn block_sent(v: TxView, data: Seq<Seq<u8>>, i: int) -> Seq<TxEventView>
    decreases i,
{
    if i <= 0 {
        Seq::empty()
    } else {
        block_sent(v, data, i - 1) + packet_sent(TxView { data: data.take(i - 1), ..v }, data[i - 1])
    }
}

/// The fragments of a block go out in order, each as it comes, and with the last data fragment all
/// check fragments: for `k` payloads `n` packets.
pub proof fn lemma_block_sent(v: TxView, data: Seq<Seq<u8>>, i: int)
    requires
        1 <= v.k <= v.n,
        data.len() == v.k,
        0 <= i <= v.k,
    ensures
        injected(block_sent(v, data, i)) == fragment_packets(
            v,
            data,
            0,
            if i < v.k {
                i
            } else {
                v.n
            },
        ),
    decreases i,
{
    if i > 0 {
        let w = TxView { data: data.take(i - 1), ..v };
        let d = data[i - 1];
        lemma_block_sent(v, data, i - 1);
        lemma_data_injected(w, d);
        lemma_injected_add(block_sent(v, data, i - 1), packet_sent(w, d));
        if i < v.k {
            assert(injected(block_sent(v, data, i)) =~= fragment_packets(v, data, 0, i));
        } else {
            let mark = seq![TxEventView::SetMark(1)];
            assert(w.data.push(d) =~= data);
            let checks = checks_sent(w, data, v.k);
            lemma_injected_one(TxEventView::SetMark(1));
            lemma_injected_add(data_sent(w, d), mark);
            lemma_injected_add(data_sent(w, d) + mark, checks);
            lemma_checks_injected(w, data, v.k);
            assert(fragment_packets(w, data, v.k, v.n) =~= fragment_packets(v, data, v.k, v.n));
            assert(injected(block_sent(v, data, i)) =~= fragment_packets(v, data, 0, v.n));
        }
    } else {
        assert(injected(block_sent(v, data, i)) =~= fragment_packets(v, data, 0, 0));
    }
}

/// Check fragments depend on the session and the block alone.
proof fn lemma_checks_same(v: TxView, w: TxView, data: Seq<Seq<u8>>, f: int)
    requires
        w == (TxView { data: w.data, ..v }),
    ensures
        checks_sent(w, data, f) == checks_sent(v, data, f),
    decreases v.n - f,
{
    if f < v.n {
        lemma_checks_same(v, w, data, f + 1);
    }
}

/// All that goes out for a block, in order: the mark of data, the data fragments, the mark of checks
/// and the check fragments, with pauses if there are any.
pub proof fn lemma_block_events(v: TxView, data: Seq<Seq<u8>>, i: int)
    requires
        1 <= v.k <= v.n,
        data.len() == v.k,
        1 <= i <= v.k,
    ensures
        ({
            let sent = seq![TxEventView::SetMark(0)] + Seq::new(
                i as nat,
                |f: int| TxEventView::Inject(sealed_fragment(v, f, data[f])),
            );
            block_sent(v, data, i) == (if i < v.k {
                sent
            } else {
                sent + seq![TxEventView::SetMark(1)] + checks_sent(v, data, v.k)
            })
        }),
    decreases i,
{
    let w = TxView { data: data.take(i - 1), ..v };
    let d = data[i - 1];
    let sent = seq![TxEventView::SetMark(0)] + Seq::new(
        i as nat,
        |f: int| TxEventView::Inject(sealed_fragment(v, f, data[f])),
    );
    assert(sealed_fragment(w, i - 1, d) == sealed_fragment(v, i - 1, d));
    let before = block_sent(v, data, i - 1);
    if i > 1 {
        lemma_block_events(v, data, i - 1);
    }
    assert(before + data_sent(w, d) =~= sent);
    if i == v.k {
        assert(w.data.push(d) =~= data);
        lemma_checks_same(v, w, data, v.k);
        let rest = seq![TxEventView::SetMark(1)] + checks_sent(v, data, v.k);
        assert(packet_sent(w, d) =~= data_sent(w, d) + rest);
        assert(before + (data_sent(w, d) + rest) =~= sent + rest);
        assert(block_sent(v, data, i) =~= sent + seq![TxEventView::SetMark(1)] + checks_sent(
            v,
            data,
            v.k,
        ));
    }
}

/// The number that a data packet is sealed under.
pub open spec fn nonce_of(packet: Seq<u8>) -> nat {
    be_value(packet.subrange(1, 9))
}

/// A data packet begins with its type and, highest byte first, the number of its block and fragment.
pub proof fn lemma_packet_header(v: TxView, f: int, d: Seq<u8>)
    requires
        v.block_idx <= MAX_BLOCK_IDX,
        0 <= f < 256,
    ensures
        sealed_fragment(v, f, d).take(9) == seq![WFB_PACKET_DATA] + be_bytes(
            (v.block_idx * 256 + f) as nat,
            8,
        ),
        nonce_of(sealed_fragment(v, f, d)) == v.block_idx * 256 + f,
{
    let h = fragment_header(v.block_idx, f);
    let packet = sealed_fragment(v, f, d);
    lemma_byte_range();
    lemma_be_len(h.data_nonce as nat, 8);
    lemma_be_round_trip(h.data_nonce as nat, 8);
    assert(packet.take(9) =~= h.bytes());
    assert(packet.subrange(1, 9) =~= be_bytes(h.data_nonce as nat, 8));
}

/// The length of the longest of the first `i` payloads.
pub open spec fn longest(payloads: Seq<Seq<u8>>, i: int) -> int
    decreases i,
{
    if i <= 0 {
        0
    } else if payloads[i - 1].len() > longest(payloads, i - 1) {
        payloads[i - 1].len() as int
    } else {
        longest(payloads, i - 1)
    }
}

proof fn lemma_longest(data: Seq<Seq<u8>>, payloads: Seq<Seq<u8>>, flags: Seq<u8>, i: int)
    requires
        1 <= i <= data.len(),
        data.len() == payloads.len(),
        forall|j: int|
            0 <= j < data.len() ==> #[trigger] data[j] == data_fragment(flags[j], payloads[j]),
    ensures
        largest(data, i) == 3 + longest(payloads, i),
    decreases i,
{
    lemma_be_len(payloads[i - 1].len() as nat, 2);
    assert(data[i - 1] == data_fragment(flags[i - 1], payloads[i - 1]));
    if i > 1 {
        lemma_longest(data, payloads, flags, i - 1);
    } else {
        assert(largest(data, 0) == 0 && longest(payloads, 0) == 0);
        assert(largest(data, 1) == data[0].len());
    }
}

/// The lengths of a block's packets: those of data are longer than their payloads by headers and tag,
/// those of checks than the longest payload.
pub proof fn lemma_packet_lengths(
    v: TxView,
    data: Seq<Seq<u8>>,
    payloads: Seq<Seq<u8>>,
    flags: Seq<u8>,
    f: int,
)
    requires
        data.len() == v.k,
        payloads.len() == v.k,
        1 <= v.k <= v.n,
        0 <= f < v.n,
        forall|j: int|
            0 <= j < v.k ==> #[trigger] data[j] == data_fragment(flags[j], payloads[j]),
        opens_to(
            v.session_key,
            sealed_fragment(v, f, block_fragment(data, f)),
            block_fragment(data, f),
        ),
    ensures
        sealed_fragment(v, f, block_fragment(data, f)).len() == 28 + (if f < v.k {
            payloads[f].len() as int
        } else {
            longest(payloads, v.k)
        }),
{
    lemma_longest(data, payloads, flags, v.k);
    if f < v.k {
        lemma_be_len(payloads[f].len() as nat, 2);
        assert(data[f] == data_fragment(flags[f], payloads[f]));
    } else {
        lemma_longest_bound(payloads, v.k);
    }
}

proof fn lemma_longest_bound(payloads: Seq<Seq<u8>>, i: int)
    ensures
        longest(payloads, i) >= 0,
    decreases i,
{
    if i > 0 {
        lemma_longest_bound(payloads, i - 1);
    }
}

/// The first fragment of a block cannot be there for the code alone.
pub open spec fn refused(v: TxView, flags: u8) -> bool {
    v.data.len() == 0 && flags & WFB_PACKET_FEC_ONLY != 0
}

/// The transmitter after it has been handed a payload, within a session.
pub open spec fn after_send(v: TxView, flags: u8, payload: Seq<u8>) -> TxView {
    if refused(v, flags) {
        v
    } else if v.data.len() + 1 < v.k {
        TxView { data: v.data.push(data_fragment(flags, payload)), ..v }
    } else {
        TxView { data: Seq::empty(), block_idx: (v.block_idx + 1) as u64, ..v }
    }
}

/// What goes out for a payload, within a session.
pub open spec fn send_events(v: TxView, flags: u8, payload: Seq<u8>) -> Seq<TxEventView> {
    if refused(v, flags) {
        Seq::empty()
    } else {
        packet_sent(v, data_fragment(flags, payload))
    }
}

/// The transmitter after the first `i` of these payloads with their flags.
pub open spec fn after_sends(v: TxView, calls: Seq<(u8, Seq<u8>)>, i: int) -> TxView
    decreases i,
{
    if i <= 0 {
        v
    } else {
        after_send(after_sends(v, calls, i - 1), calls[i - 1].0, calls[i - 1].1)
    }
}

/// What goes out for the first `i` of these payloads.
pub open spec fn sends_events(v: TxView, calls: Seq<(u8, Seq<u8>)>, i: int) -> Seq<TxEventView>
    decreases i,
{
    if i <= 0 {
        Seq::empty()
    } else {
        sends_events(v, calls, i - 1) + send_events(
            after_sends(v, calls, i - 1),
            calls[i - 1].0,
            calls[i - 1].1,
        )
    }
}

/// From the beginning of a block on, payloads fill it, and what goes out for them is the block.
pub proof fn lemma_sends_fill_block(v: TxView, calls: Seq<(u8, Seq<u8>)>, data: Seq<Seq<u8>>, i: int)
    requires
        v.data.len() == 0,
        1 <= v.k <= v.n,
        data.len() == v.k,
        calls.len() >= v.k,
        0 <= i <= v.k,
        calls[0].0 & WFB_PACKET_FEC_ONLY == 0,
        forall|j: int|
            0 <= j < v.k ==> #[trigger] data[j] == data_fragment(calls[j].0, calls[j].1),
    ensures
        sends_events(v, calls, i) == block_sent(v, data, i),
        after_sends(v, calls, i) == (if i < v.k {
            TxView { data: data.take(i), ..v }
        } else {
            TxView { data: Seq::empty(), block_idx: (v.block_idx + 1) as u64, ..v }
        }),
    decreases i,
{
    if i > 0 {
        lemma_sends_fill_block(v, calls, data, i - 1);
        assert(data[i - 1] == data_fragment(calls[i - 1].0, calls[i - 1].1));
        assert(data.take(i - 1).push(data[i - 1]) =~= data.take(i));
    } else {
        assert(data.take(0) =~= v.data);
    }
}

/// The number that the next data packet is sealed under.
pub open spec fn next_nonce(v: TxView) -> int {
    v.block_idx * 256 + v.data.len()
}

/// Packets whose numbers increase strictly, from `lo` on and below `hi`, and name fragments below `n`.
pub open spec fn nonces_increase(packets: Seq<Seq<u8>>, lo: int, hi: int, n: int) -> bool {
    &&& forall|i: int|
        0 <= i < packets.len() ==> lo <= nonce_of(#[trigger] packets[i]) < hi && nonce_of(packets[i])
            % 256 < n
    &&& forall|i: int, j: int|
        0 <= i < j < packets.len() ==> nonce_of(#[trigger] packets[i]) < nonce_of(
            #[trigger] packets[j],
        )
}

proof fn lemma_nonces_join(a: Seq<Seq<u8>>, b: Seq<Seq<u8>>, lo: int, mid: int, hi: int, n: int)
    requires
        nonces_increase(a, lo, mid, n),
        nonces_increase(b, mid, hi, n),
        lo <= mid <= hi,
    ensures
        nonces_increase(a + b, lo, hi, n),
{
    let all = a + b;
    assert forall|i: int| 0 <= i < all.len() implies lo <= nonce_of(#[trigger] all[i]) < hi
        && nonce_of(all[i]) % 256 < n by {
        if i < a.len() {
            assert(all[i] == a[i]);
        } else {
            assert(all[i] == b[i - a.len()]);
        }
    }
    assert forall|i: int, j: int| 0 <= i < j < all.len() implies nonce_of(#[trigger] all[i])
        < nonce_of(#[trigger] all[j]) by {
        if j < a.len() {
            assert(all[i] == a[i] && all[j] == a[j]);
        } else if i >= a.len() {
            assert(all[i] == b[i - a.len()] && all[j] == b[j - a.len()]);
        } else {
            assert(all[i] == a[i] && all[j] == b[j - a.len()]);
        }
    }
}

/// The numbers of what goes out for one payload.
proof fn lemma_send_nonces(v: TxView, flags: u8, payload: Seq<u8>)
    requires
        1 <= v.k <= v.n <= 255,
        v.data.len() < v.k,
        v.block_idx <= MAX_BLOCK_IDX,
    ensures
        nonces_increase(
            injected(send_events(v, flags, payload)),
            next_nonce(v),
            next_nonce(after_send(v, flags, payload)),
            v.n,
        ),
        next_nonce(v) <= next_nonce(after_send(v, flags, payload)),
{
    let d = data_fragment(flags, payload);
    let len = v.data.len() as int;
    if !refused(v, flags) {
        lemma_data_injected(v, d);
        lemma_packet_header(v, len, d);
        let first = seq![sealed_fragment(v, len, d)];
        assert(nonces_increase(first, next_nonce(v), v.block_idx * 256 + len + 1, v.n));
        if len + 1 >= v.k {
            let data = v.data.push(d);
            let mark = seq![TxEventView::SetMark(1)];
            let checks = checks_sent(v, data, v.k);
            let packets = fragment_packets(v, data, v.k, v.n);
            lemma_checks_injected(v, data, v.k);
            lemma_injected_one(TxEventView::SetMark(1));
            lemma_injected_add(data_sent(v, d), mark);
            lemma_injected_add(data_sent(v, d) + mark, checks);
            assert forall|i: int| 0 <= i < packets.len() implies nonce_of(#[trigger] packets[i])
                == v.block_idx * 256 + v.k + i by {
                lemma_packet_header(v, v.k + i, block_fragment(data, v.k + i));
            }
            let hi = next_nonce(after_send(v, flags, payload));
            lemma_nonces_join(first, packets, next_nonce(v), v.block_idx * 256 + len + 1, hi, v.n);
            assert(injected(packet_sent(v, d)) =~= first + packets);
        }
    }
}

/// Under one session key no number is used twice: over any sequence of payloads the numbers of data
/// packets increase strictly, and each is that of a block and one of its fragments.
pub proof fn lemma_nonces_never_repeat(v: TxView, calls: Seq<(u8, Seq<u8>)>, i: int)
    requires
        1 <= v.k <= v.n <= 255,
        v.data.len() < v.k,
        0 <= i <= calls.len(),
        forall|j: int|
            0 <= j < i ==> (#[trigger] after_sends(v, calls, j)).block_idx <= MAX_BLOCK_IDX,
    ensures
        ({
            let w = after_sends(v, calls, i);
            &&& w.k == v.k
            &&& w.n == v.n
            &&& w.data.len() < w.k
            &&& w.session_key == v.session_key
            &&& next_nonce(v) <= next_nonce(w)
            &&& nonces_increase(
                injected(sends_events(v, calls, i)),
                next_nonce(v),
                next_nonce(w),
                v.n,
            )
        }),
    decreases i,
{
    if i > 0 {
        let m = after_sends(v, calls, i - 1);
        let (flags, payload) = calls[i - 1];
        lemma_nonces_never_repeat(v, calls, i - 1);
        lemma_send_nonces(m, flags, payload);
        lemma_injected_add(sends_events(v, calls, i - 1), send_events(m, flags, payload));
        lemma_nonces_join(
            injected(sends_events(v, calls, i - 1)),
            injected(send_events(m, flags, payload)),
            next_nonce(v),
            next_nonce(m),
            next_nonce(after_sends(v, calls, i)),
            v.n,
        );
    }
}

/// Announcing is sending the same packet so many times and nothing else.
pub proof fn lemma_announced(packet: Seq<u8>, n: int)
    requires
        n >= 0,
    ensures
        announced(packet, n).len() == n,
        forall|i: int| 0 <= i < n ==> #[trigger] announced(packet, n)[i] == TxEventView::Inject(packet),
{
}

/// A new session leaves alone what it does not decide: the epoch, the channel, the pause, the keys and the
/// tags.
pub proof fn lemma_setup_kept(a: TxView, b: TxView)
    requires
        same_setup(a, b),
    ensures
        a.epoch == b.epoch,
        a.channel_id == b.channel_id,
        a.fec_delay == b.fec_delay,
        a.tx_secretkey == b.tx_secretkey,
        a.rx_publickey == b.rx_publickey,
        a.tags == b.tags,
        a.byte_order == b.byte_order,
{
}

/// Check fragments are as long as the longest data fragment, which is one of the block.
pub proof fn lemma_largest_is_one(data: Seq<Seq<u8>>, i: int)
    requires
        0 < i <= data.len(),
    ensures
        exists|j: int| 0 <= j < i && (#[trigger] data[j]).len() == largest(data, i),
        forall|j: int| 0 <= j < i ==> (#[trigger] data[j]).len() <= largest(data, i),
    decreases i,
{
    if i > 1 {
        lemma_largest_is_one(data, i - 1);
        let j = choose|j: int| 0 <= j < i - 1 && (#[trigger] data[j]).len() == largest(data, i - 1);
        assert(largest(data, i) == data[j].len() || largest(data, i) == data[i - 1].len());
    } else {
        assert(largest(data, 0) == 0);
        assert(largest(data, 1) == data[0].len());
    }
}

} // verus!
