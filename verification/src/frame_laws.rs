//! How packets go out in frames, and what the statistics of sending tell.
use crate::bytes::{be_bytes, le32};
use crate::bytes::lemma_be4;
use crate::capture_laws::{field_byte, lemma_capture_says, told};
use crate::radiotap::{radiotap_accepts, radiotap_len};
use crate::radiotap_laws::{fields_end, standard_bitmap};
use crate::radiotap_laws::{lemma_field_within, lemma_standard_alone};
use crate::rx_capture::capture_outcome;
use crate::tx::TxEventView;
use crate::tx_frame::{
    after_events, handed_over, ieee_header, mark_due, nothing_sent, on_air, sum_bytes,
    sum_dropped, sum_injected, tx_line, tx_report_of, FrameView, RadioEventView,
    RawSocketTransmitter, TxAntReport, TxAntennaItem,
};
use vstd::prelude::*;

verus! {

/// The header of a frame, byte by byte: its type, to everyone, from and to addresses that begin with the
/// mark of the link and end with the channel, highest byte first, and the number of the frame, lowest byte
/// first.
pub proof fn lemma_frame_header(frame_type: u8, channel_id: u32, seq: u16)
    ensures
        ({
            let h = ieee_header(frame_type, channel_id, seq);
            &&& h.len() == 24
            &&& h[0] == frame_type
            &&& h.subrange(1, 12) == seq![
                0x01u8, 0, 0, 0xff, 0xff, 0xff, 0xff, 0xff, 0xff, 0x57, 0x42,
            ]
            &&& h[12] * 0x100_0000 + h[13] * 0x1_0000 + h[14] * 0x100 + h[15] == channel_id
            &&& h[16] == 0x57
            &&& h[17] == 0x42
            &&& h[18] * 0x100_0000 + h[19] * 0x1_0000 + h[20] * 0x100 + h[21] == channel_id
            &&& h[22] + 256 * h[23] == seq
        }),
{
    let h = ieee_header(frame_type, channel_id, seq);
    let c = be_bytes(channel_id as nat, 4);
    lemma_be4(channel_id as nat);
    assert(h[12] == c[0] && h[13] == c[1] && h[14] == c[2] && h[15] == c[3]);
    assert(h[18] == c[0] && h[19] == c[1] && h[20] == c[2] && h[21] == c[3]);
    assert(h.subrange(1, 12) =~= seq![
        0x01u8, 0, 0, 0xff, 0xff, 0xff, 0xff, 0xff, 0xff, 0x57, 0x42,
    ]);
}

/// A packet comes out of the air as it went in: a receiver that captures the frame behind a header of its
/// own radio, with the checksum that the radio may leave behind it, takes the packet out again.
pub proof fn lemma_frame_captured(
    own: Seq<u8>,
    frame_type: u8,
    channel_id: u32,
    seq: u16,
    packet: Seq<u8>,
    checksum: Seq<u8>,
)
    requires
        radiotap_accepts(own, own.len() as int),
        radiotap_len(own) == own.len(),
        standard_bitmap(le32(own, 4)),
        fields_end(le32(own, 4), 23) <= own.len(),
        !told(own, 32, 15),
        ({
            let flags = if told(own, 32, 1) {
                field_byte(own, 1, 0)
            } else {
                0
            };
            flags & 0x40 == 0 && checksum.len() == (if flags & 0x10 != 0 {
                4int
            } else {
                0int
            })
        }),
        packet.len() > 0,
    ensures
        capture_outcome(own + ieee_header(frame_type, channel_id, seq) + packet + checksum) matches Ok(p)
            && p.0 == packet,
{
    let h = ieee_header(frame_type, channel_id, seq);
    let data = own + h + packet + checksum;
    lemma_frame_header(frame_type, channel_id, seq);
    assert forall|i: int| 0 <= i < own.len() implies data[i] == own[i] by {}
    assert(le32(data, 4) == le32(own, 4));
    assert(radiotap_len(data) == radiotap_len(own));
    if told(own, 32, 1) {
        lemma_field_within(own, 1);
    }
    lemma_standard_alone(le32(own, 4));
    lemma_capture_says(data);
    let first = own.len() as int + 24;
    assert(data.subrange(first, first + packet.len()) =~= packet);
}

/// The packets among the first `i` events.
pub open spec fn packets_before(events: Seq<TxEventView>, i: int) -> int
    decreases i,
{
    if i <= 0 {
        0
    } else {
        packets_before(events, i - 1) + if events[i - 1] is Inject {
            1int
        } else {
            0int
        }
    }
}

/// The packets and pauses among the first `i` events.
pub open spec fn going_out(events: Seq<TxEventView>, i: int) -> int
    decreases i,
{
    if i <= 0 {
        0
    } else {
        going_out(events, i - 1) + if events[i - 1] is SetMark {
            0int
        } else {
            1int
        }
    }
}

/// The last mark that is set among the first `i` events, if there is one.
pub open spec fn last_mark(events: Seq<TxEventView>, i: int) -> Option<u32>
    decreases i,
{
    if i <= 0 {
        None
    } else {
        match events[i - 1] {
            TxEventView::SetMark(m) => Some(m),
            _ => last_mark(events, i - 1),
        }
    }
}

/// The number of a frame counts the frames before it, in the upper twelve bits of a field, and its mark is
/// the base and the last mark that was set.
proof fn lemma_after_events(s: FrameView, events: Seq<TxEventView>, i: int)
    requires
        0 <= i <= events.len(),
    ensures
        ({
            let t = after_events(s, events, i);
            &&& t.radiotap == s.radiotap
            &&& t.frame_type == s.frame_type
            &&& t.channel_id == s.channel_id
            &&& t.fwmark_base == s.fwmark_base
            &&& t.seq == (s.seq + 16 * packets_before(events, i)) % 0x1_0000
            &&& t.fwmark == (match last_mark(events, i) {
                Some(m) => (s.fwmark_base + m) % 0x1_0000_0000,
                None => s.fwmark as int,
            })
        }),
    decreases i,
{
    if i > 0 {
        lemma_after_events(s, events, i - 1);
    }
}

proof fn lemma_going_out(events: Seq<TxEventView>, i: int, j: int)
    requires
        0 <= i <= j,
    ensures
        0 <= going_out(events, i) <= going_out(events, j),
        i < j && !(events[i] is SetMark) ==> going_out(events, i) < going_out(events, j),
    decreases j,
{
    if i < j {
        lemma_going_out(events, i, j - 1);
    } else if i > 0 {
        lemma_going_out(events, i - 1, i - 1);
    }
}

/// What goes out on the air: each packet and each pause once and in order, and nothing else.  A packet goes
/// out whole, behind the radiotap header and the header of the link's frames; each frame has a number of
/// its own, one higher than the frame before, and the mark that was set last.
pub proof fn lemma_frames_on_air(s: FrameView, events: Seq<TxEventView>, i: int, j: int)
    requires
        0 <= j < i <= events.len(),
    ensures
        on_air(s, events, i).len() == going_out(events, i),
        !(events[j] is SetMark) ==> 0 <= going_out(events, j) < going_out(events, i),
        events[j] matches TxEventView::Delay(d) ==> on_air(s, events, i)[going_out(events, j)]
            == RadioEventView::Delay(d),
        events[j] matches TxEventView::Inject(p) ==> (on_air(s, events, i)[going_out(events, j)]
            matches RadioEventView::Frame { packet, fwmark, payload_len } && {
            let number = ((s.seq + 16 * packets_before(events, j)) % 0x1_0000) as u16;
            &&& packet == s.radiotap + ieee_header(s.frame_type, s.channel_id, number) + p
            &&& payload_len == p.len()
            &&& fwmark == (match last_mark(events, j) {
                Some(m) => (s.fwmark_base + m) % 0x1_0000_0000,
                None => s.fwmark as int,
            })
        }),
    decreases i,
{
    lemma_going_out(events, j, i);
    lemma_after_events(s, events, i - 1);
    if i > 1 {
        lemma_frames_on_air(
            s,
            events,
            i - 1,
            if j < i - 1 {
                j
            } else {
                0
            },
        );
        lemma_going_out(events, j, i - 1 + if j < i - 1 {
            0int
        } else {
            1int
        });
    } else {
        assert(on_air(s, events, 0).len() == 0);
        assert(going_out(events, 0) == 0);
    }
    if j < i - 1 && !(events[j] is SetMark) {
        lemma_going_out(events, j, i - 1);
        assert(on_air(s, events, i)[going_out(events, j)] == on_air(s, events, i - 1)[going_out(
            events,
            j,
        )]);
    }
}

/// A mark has to be set exactly where marks count and the last one that was set on the socket, or zero if
/// none was, is another.
pub proof fn lemma_mark_needed(marks: Map<i32, u32>, fd: i32, other: i32, set: u32, asked: u32)
    ensures
        mark_due(marks.insert(fd, set), true, fd, asked) == (set != asked),
        other != fd ==> mark_due(marks.insert(fd, set), true, other, asked) == mark_due(
            marks,
            true,
            other,
            asked,
        ),
        mark_due(Map::empty(), true, fd, asked) == (asked != 0),
        !mark_due(marks, false, fd, asked),
{
}

/// A frame that was handed over: how long that took, whether it succeeded, and its size.
pub struct Attempt {
    pub latency: u64,
    pub succeeded: bool,
    pub size: usize,
}

/// What is kept of the first `i` attempts.
pub open spec fn attempts_logged(calls: Seq<Attempt>, i: int) -> TxAntennaItem
    decreases i,
{
    if i <= 0 {
        nothing_sent()
    } else {
        let c = calls[i - 1];
        handed_over(attempts_logged(calls, i - 1), c.latency, c.succeeded, c.size)
    }
}

/// The attempts among the first `i` that succeeded.
pub open spec fn successes(calls: Seq<Attempt>, i: int) -> int
    decreases i,
{
    if i <= 0 {
        0
    } else {
        successes(calls, i - 1) + if calls[i - 1].succeeded {
            1int
        } else {
            0int
        }
    }
}

/// Their bytes.
pub open spec fn bytes_sent(calls: Seq<Attempt>, i: int) -> int
    decreases i,
{
    if i <= 0 {
        0
    } else {
        bytes_sent(calls, i - 1) + if calls[i - 1].succeeded {
            calls[i - 1].size as int
        } else {
            0int
        }
    }
}

/// The time that all of the first `i` attempts took.
pub open spec fn time_taken(calls: Seq<Attempt>, i: int) -> int
    decreases i,
{
    if i <= 0 {
        0
    } else {
        time_taken(calls, i - 1) + calls[i - 1].latency
    }
}

proof fn lemma_tallies(calls: Seq<Attempt>, i: int)
    ensures
        i >= 0 ==> 0 <= successes(calls, i) <= i,
        0 <= bytes_sent(calls, i),
        0 <= time_taken(calls, i),
    decreases i,
{
    if i > 0 {
        lemma_tallies(calls, i - 1);
    }
}

/// As long as they are in range, the statistics of an interface tell of the frames that were handed over
/// to it: how many succeeded and failed, the bytes of those that succeeded, and the shortest, the longest
/// and the average of all times.
pub proof fn lemma_attempts_tell(calls: Seq<Attempt>, i: int, key: u64)
    requires
        0 < i <= calls.len(),
        i <= u32::MAX,
        bytes_sent(calls, i) <= u32::MAX,
        time_taken(calls, i) <= u64::MAX,
    ensures
        ({
            let line = tx_line(key, attempts_logged(calls, i));
            &&& line.key == key
            &&& line.count_p_injected == successes(calls, i)
            &&& line.count_p_dropped == i - successes(calls, i)
            &&& line.count_b_injected == bytes_sent(calls, i)
            &&& line.latency_avg == time_taken(calls, i) / i
            &&& forall|j: int|
                0 <= j < i ==> line.latency_min <= (#[trigger] calls[j]).latency <= line.latency_max
            &&& exists|j: int| 0 <= j < i && (#[trigger] calls[j]).latency == line.latency_min
            &&& exists|j: int| 0 <= j < i && (#[trigger] calls[j]).latency == line.latency_max
            &&& attempts_logged(calls, i).latency_sum == time_taken(calls, i)
        }),
    decreases i,
{
    lemma_tallies(calls, i - 1);
    let now = calls[i - 1];
    if i > 1 {
        lemma_attempts_tell(calls, i - 1, key);
        let before = tx_line(key, attempts_logged(calls, i - 1));
        let a = choose|j: int| 0 <= j < i - 1 && (#[trigger] calls[j]).latency == before.latency_min;
        let b = choose|j: int| 0 <= j < i - 1 && (#[trigger] calls[j]).latency == before.latency_max;
        let line = tx_line(key, attempts_logged(calls, i));
        assert(line.latency_min == calls[a].latency || line.latency_min == now.latency);
        assert(line.latency_max == calls[b].latency || line.latency_max == now.latency);
    } else {
        assert(attempts_logged(calls, 0) == nothing_sent());
        assert(successes(calls, 0) == 0 && bytes_sent(calls, 0) == 0 && time_taken(calls, 0) == 0);
    }
}

pub open spec fn sum_of(s: Seq<u32>) -> int
    decreases s.len(),
{
    if s.len() == 0 {
        0
    } else {
        sum_of(s.drop_last()) + s.last()
    }
}

/// The totals of a report are what was counted before and the numbers of all its lines, in 32 bits.
pub proof fn lemma_totals(lines: Seq<TxAntReport>, start: u32, i: int)
    requires
        0 <= i <= lines.len(),
    ensures
        sum_injected(lines, start, i) == (start + sum_of(
            Seq::new(i as nat, |j: int| lines[j].count_p_injected),
        )) % 0x1_0000_0000,
        sum_dropped(lines, start, i) == (start + sum_of(
            Seq::new(i as nat, |j: int| lines[j].count_p_dropped),
        )) % 0x1_0000_0000,
        sum_bytes(lines, start, i) == (start + sum_of(
            Seq::new(i as nat, |j: int| lines[j].count_b_injected),
        )) % 0x1_0000_0000,
    decreases i,
{
    if i > 0 {
        lemma_totals(lines, start, i - 1);
        assert(Seq::new(i as nat, |j: int| lines[j].count_p_injected).drop_last() =~= Seq::new(
            (i - 1) as nat,
            |j: int| lines[j].count_p_injected,
        ));
        assert(Seq::new(i as nat, |j: int| lines[j].count_p_dropped).drop_last() =~= Seq::new(
            (i - 1) as nat,
            |j: int| lines[j].count_p_dropped,
        ));
        assert(Seq::new(i as nat, |j: int| lines[j].count_b_injected).drop_last() =~= Seq::new(
            (i - 1) as nat,
            |j: int| lines[j].count_b_injected,
        ));
    }
}

/// The report of the interfaces has one line for each on which frames were handed over, which tells of
/// them, and none for others.
pub proof fn lemma_interface_reported(
    lines: Seq<TxAntReport>,
    m: Map<u64, TxAntennaItem>,
    key: u64,
    calls: Seq<Attempt>,
)
    requires
        tx_report_of(lines, m),
        m.contains_key(key) <==> calls.len() > 0,
        calls.len() > 0 ==> m[key] == attempts_logged(calls, calls.len() as int),
        calls.len() <= u32::MAX,
        bytes_sent(calls, calls.len() as int) <= u32::MAX,
        time_taken(calls, calls.len() as int) <= u64::MAX,
    ensures
        calls.len() == 0 ==> forall|i: int| 0 <= i < lines.len() ==> (#[trigger] lines[i]).key != key,
        calls.len() > 0 ==> exists|i: int|
            {
                &&& 0 <= i < lines.len()
                &&& (#[trigger] lines[i]).key == key
                &&& lines[i].count_p_injected == successes(calls, calls.len() as int)
                &&& lines[i].count_p_dropped == calls.len() - successes(calls, calls.len() as int)
                &&& lines[i].count_b_injected == bytes_sent(calls, calls.len() as int)
                &&& lines[i].latency_avg == time_taken(calls, calls.len() as int) / calls.len() as int
                &&& forall|j: int| 0 <= j < lines.len() && j != i ==> (#[trigger] lines[j]).key != key
            },
{
    let n = calls.len() as int;
    if n > 0 {
        lemma_attempts_tell(calls, n, key);
        lemma_tallies(calls, n);
        let item = m[key];
        assert(item.count_p_injected.wrapping_add(item.count_p_dropped) != 0);
        let i = choose|i: int| 0 <= i < lines.len() && (#[trigger] lines[i]).key == key;
        assert(lines[i] == tx_line(key, item));
    }
}

/// Sending touches nothing of a transmitter but the numbers of frames, the mark and the block.
pub proof fn lemma_radio_kept(a: RawSocketTransmitter, b: RawSocketTransmitter)
    requires
        a.same_radio(b),
    ensures
        a.channel_id == b.channel_id,
        a.current_output == b.current_output,
        a.antenna_stat@ == b.antenna_stat@,
        a.radiotap_header == b.radiotap_header,
        a.frame_type == b.frame_type,
        a.use_qdisc == b.use_qdisc,
        a.fwmark_base == b.fwmark_base,
        a.frame_view().seq == a.ieee80211_seq,
        a.frame_view().fwmark == a.fwmark,
        a.frame_view().radiotap == a.radiotap_header.header@,
{
}

} // verus!
