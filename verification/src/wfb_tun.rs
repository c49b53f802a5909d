//! A tunnel for IP packets: packets are gathered into datagrams and taken apart again.
use crate::bytes::{append_bytes, copy_range};
use vstd::prelude::*;

verus! {

/// The largest datagram.
pub const MTU: usize = 1445;

/// Bytes of the size in front of each packet.
pub const TUN_HDR_SIZE: usize = 2;

/// The largest packet.
pub const MAX_TUN_PACKET: usize = 1443;
pub const PING_INTERVAL_NS: u64 = 500_000_000;

/// A packet with its size, highest byte first.
pub open spec fn framed(p: Seq<u8>) -> Seq<u8> {
    seq![(p.len() / 256) as u8, (p.len() % 256) as u8] + p
}

/// The bytes of the first `i` packets.
pub open spec fn framed_all(packets: Seq<Seq<u8>>, i: int) -> Seq<u8>
    decreases i,
{
    if i <= 0 {
        Seq::empty()
    } else {
        framed_all(packets, i - 1) + framed(packets[i - 1])
    }
}

/// Packets that have been read from the tunnel and wait to be sent.
pub struct InPacketBuffer {
    pub data: Vec<u8>,
    /// The bytes that go into the next datagram.
    pub batch_size: usize,
}

impl InPacketBuffer {
    pub open spec fn wf(&self) -> bool {
        &&& self.data@.len() < 2 * MTU
        &&& self.batch_size <= MTU
        &&& self.batch_size <= self.data@.len()
        &&& self.data@.len() <= MTU ==> self.batch_size == self.data@.len()
        &&& self.data@.len() - self.batch_size <= MTU
    }

    /// The buffer holds these packets, of which the first `ready` go into the next datagram.
    pub open spec fn holds(&self, packets: Seq<Seq<u8>>, ready: int) -> bool {
        &&& 0 <= ready <= packets.len()
        &&& self.data@ == framed_all(packets, packets.len() as int)
        &&& self.batch_size == framed_all(packets, ready).len()
    }

    pub fn new() -> (b: InPacketBuffer)
        ensures
            b.wf(),
            b.holds(Seq::empty(), 0),
    {
        let b = InPacketBuffer { data: Vec::new(), batch_size: 0 };
        assert(b.data@ =~= framed_all(Seq::<Seq<u8>>::empty(), 0));
        b
    }

    /// Whether another packet can be read.
    pub fn has_room(&self) -> (r: bool)
        ensures
            r == (self.data@.len() < MTU),
    {
        self.data.len() < MTU
    }

    /// Takes in a packet that has been read.
    pub fn add_packet(&mut self, packet: &[u8])
        requires
            old(self).wf(),
            old(self).data@.len() < MTU,
            packet@.len() <= MAX_TUN_PACKET,
        ensures
            final(self).wf(),
            final(self).data@ == old(self).data@ + framed(packet@),
            final(self).batch_size == (if final(self).data@.len() <= MTU {
                final(self).data@.len() as int
            } else {
                old(self).batch_size as int
            }),
            forall|packets: Seq<Seq<u8>>, ready: int| #[trigger]
                old(self).holds(packets, ready) ==> final(self).holds(
                    packets.push(packet@),
                    if final(self).data@.len() <= MTU {
                        packets.len() as int + 1
                    } else {
                        ready
                    },
                ),
    {
        let ghost before = *self;
        let size: usize = packet.len();
        self.data.push((size / 256) as u8);
        self.data.push((size % 256) as u8);
        append_bytes(&mut self.data, packet);
        assert(self.data@ =~= before.data@ + framed(packet@));
        if self.data.len() <= MTU {
            self.batch_size = self.data.len();
        }
        proof {
            assert forall|packets: Seq<Seq<u8>>, ready: int| #[trigger] before.holds(
                packets,
                ready,
            ) implies self.holds(
                packets.push(packet@),
                if self.data@.len() <= MTU {
                    packets.len() as int + 1
                } else {
                    ready
                },
            ) by {
                let more = packets.push(packet@);
                lemma_framed_same(packets, more, packets.len() as int);
                lemma_framed_same(packets, more, ready);
            }
        }
    }

    /// The next datagram; none if nothing waits.
    pub fn next_batch(&self) -> (r: Option<Vec<u8>>)
        requires
            self.wf(),
        ensures
            r is None <==> self.batch_size == 0,
            r matches Some(b) ==> b@ == self.data@.take(self.batch_size as int),
    {
        if self.batch_size == 0 {
            return None;
        }
        let b: Vec<u8> = copy_range(&self.data, 0, self.batch_size);
        assert(b@ =~= self.data@.take(self.batch_size as int));
        Some(b)
    }

    /// Lets go of the datagram that has been sent; what is left goes into the next one.
    pub fn batch_sent(&mut self)
        requires
            old(self).wf(),
        ensures
            final(self).wf(),
            final(self).data@ == old(self).data@.skip(old(self).batch_size as int),
            final(self).batch_size == final(self).data@.len(),
            forall|packets: Seq<Seq<u8>>, ready: int| #[trigger]
                old(self).holds(packets, ready) ==> final(self).holds(
                    packets.skip(ready),
                    packets.len() - ready,
                ),
    {
        let ghost before = *self;
        let rest: Vec<u8> = copy_range(&self.data, self.batch_size, self.data.len());
        assert(rest@ =~= before.data@.skip(before.batch_size as int));
        self.batch_size = rest.len();
        self.data = rest;
        proof {
            assert forall|packets: Seq<Seq<u8>>, ready: int| #[trigger] before.holds(
                packets,
                ready,
            ) implies self.holds(packets.skip(ready), packets.len() - ready) by {
                lemma_framed_split(packets, ready, packets.len() as int);
                let n = packets.len() as int;
                assert(framed_all(packets, n).skip(framed_all(packets, ready).len() as int)
                    =~= framed_all(packets.skip(ready), n - ready));
            }
        }
    }
}

proof fn lemma_framed_same(a: Seq<Seq<u8>>, b: Seq<Seq<u8>>, i: int)
    requires
        i <= a.len(),
        i <= b.len(),
        forall|j: int| 0 <= j < i ==> a[j] == b[j],
    ensures
        framed_all(a, i) == framed_all(b, i),
    decreases i,
{
    if i > 0 {
        lemma_framed_same(a, b, i - 1);
    }
}

proof fn lemma_framed_split(packets: Seq<Seq<u8>>, mid: int, end: int)
    requires
        0 <= mid <= end <= packets.len(),
    ensures
        framed_all(packets, end) == framed_all(packets, mid) + framed_all(
            packets.skip(mid),
            end - mid,
        ),
    decreases end - mid,
{
    if mid < end {
        lemma_framed_split(packets, mid, end - 1);
        assert(packets.skip(mid)[end - mid - 1] == packets[end - 1]);
    }
    assert(framed_all(packets, end) =~= framed_all(packets, mid) + framed_all(
        packets.skip(mid),
        end - mid,
    ));
}

/// A datagram that does not consist of packets.
#[derive(Clone, Copy, Debug, PartialEq, Eq, Structural)]
pub enum TunError {
    ShortHeader,
    ShortPayload,
}

/// A datagram that has been received and is written to the tunnel packet by packet.
pub struct OutPacketBuffer {
    pub data: Vec<u8>,
    pub offset: usize,
}

/// The packet at `offset` of a datagram; none at its end.
pub open spec fn packet_at(data: Seq<u8>, offset: int) -> Result<Option<Seq<u8>>, TunError> {
    let size = data[offset] * 256 + data[offset + 1];
    if offset >= data.len() {
        Ok(None)
    } else if data.len() - offset < TUN_HDR_SIZE {
        Err(TunError::ShortHeader)
    } else if offset + TUN_HDR_SIZE + size > data.len() {
        Err(TunError::ShortPayload)
    } else {
        Ok(Some(data.subrange(offset + TUN_HDR_SIZE, offset + TUN_HDR_SIZE + size)))
    }
}

impl OutPacketBuffer {
    pub open spec fn wf(&self) -> bool {
        self.offset <= self.data@.len() <= MTU
    }

    pub fn new() -> (b: OutPacketBuffer)
        ensures
            b.wf(),
            b.data@.len() == 0,
            b.offset == 0,
    {
        OutPacketBuffer { data: Vec::new(), offset: 0 }
    }

    /// Whether there is something left to write.
    pub fn pending(&self) -> (r: bool)
        ensures
            r == (self.data@.len() > self.offset),
    {
        self.data.len() > self.offset
    }

    /// Takes in a datagram in place of what is there.  An empty one is a ping and changes nothing.
    pub fn receive(&mut self, datagram: &[u8])
        requires
            old(self).wf(),
            datagram@.len() <= MTU,
        ensures
            final(self).wf(),
            datagram@.len() == 0 ==> *final(self) == *old(self),
            datagram@.len() > 0 ==> final(self).data@ == datagram@ && final(self).offset == 0,
    {
        if datagram.len() == 0 {
            return;
        }
        self.data = copy_range(datagram, 0, datagram.len());
        assert(self.data@ =~= datagram@);
        self.offset = 0;
    }

    /// The next packet to write.  At the end the buffer is emptied.
    pub fn next_packet(&mut self) -> (r: Result<Option<Vec<u8>>, TunError>)
        requires
            old(self).wf(),
        ensures
            final(self).wf(),
            match packet_at(old(self).data@, old(self).offset as int) {
                Ok(Some(p)) => r matches Ok(Some(q)) && q@ == p && *final(self) == *old(self),
                Ok(None) => r matches Ok(None) && final(self).data@.len() == 0 && final(self).offset
                    == 0,
                Err(e) => r == Err::<Option<Vec<u8>>, TunError>(e) && *final(self) == *old(self),
            },
    {
        if self.offset >= self.data.len() {
            self.data = Vec::new();
            self.offset = 0;
            return Ok(None);
        }
        if self.data.len() - self.offset < TUN_HDR_SIZE {
            return Err(TunError::ShortHeader);
        }
        let size: usize = self.data[self.offset] as usize * 256 + self.data[self.offset + 1] as usize;
        let start: usize = self.offset + TUN_HDR_SIZE;
        if start + size > self.data.len() {
            return Err(TunError::ShortPayload);
        }
        Ok(Some(copy_range(&self.data, start, start + size)))
    }

    /// Moves on after the packet at the offset has been written.
    pub fn packet_written(&mut self)
        requires
            old(self).wf(),
            packet_at(old(self).data@, old(self).offset as int) matches Ok(Some(_)),
        ensures
            final(self).wf(),
            final(self).data == old(self).data,
            final(self).offset == old(self).offset + TUN_HDR_SIZE + packet_at(
                old(self).data@,
                old(self).offset as int,
            )->Ok_0->0.len(),
    {
        let size: usize = self.data[self.offset] as usize * 256 + self.data[self.offset + 1] as usize;
        self.offset = self.offset + TUN_HDR_SIZE + size;
    }
}

/// Packets come out of the tunnel as they went in: the packet behind the first `i` of a datagram is
/// the next one that was gathered into it, and behind the last there is none.
pub proof fn lemma_tunnel_round_trip(packets: Seq<Seq<u8>>, i: int)
    requires
        0 <= i <= packets.len(),
        forall|j: int| 0 <= j < packets.len() ==> (#[trigger] packets[j]).len() <= MAX_TUN_PACKET,
    ensures
        ({
            let datagram = framed_all(packets, packets.len() as int);
            packet_at(datagram, framed_all(packets, i).len() as int) == Ok::<_, TunError>(
                if i < packets.len() {
                    Some(packets[i])
                } else {
                    None
                },
            )
        }),
        i < packets.len() ==> framed_all(packets, i + 1).len() == framed_all(packets, i).len()
            + TUN_HDR_SIZE + packets[i].len(),
{
    let n = packets.len() as int;
    let datagram = framed_all(packets, n);
    let at = framed_all(packets, i).len() as int;
    lemma_framed_split(packets, i, n);
    if i < n {
        let rest = packets.skip(i);
        lemma_framed_split(rest, 1, n - i);
        assert(framed_all(rest, 1) =~= framed(packets[i])) by {
            assert(framed_all(rest, 0) =~= Seq::empty());
            assert(rest[0] == packets[i]);
        }
        let p = packets[i];
        assert(p.len() <= MAX_TUN_PACKET);
        assert(datagram[at] == (p.len() / 256) as u8);
        assert(datagram[at + 1] == (p.len() % 256) as u8);
        assert(datagram.subrange(at + 2, at + 2 + p.len()) =~= p);
    } else {
        assert(framed_all(packets.skip(i), 0) =~= Seq::empty());
    }
}

/// The next datagram consists of the packets that are ready, in order.
pub proof fn lemma_batch_holds_packets(b: InPacketBuffer, packets: Seq<Seq<u8>>, ready: int)
    requires
        b.holds(packets, ready),
    ensures
        b.data@.take(b.batch_size as int) == framed_all(packets.take(ready), ready),
{
    lemma_framed_split(packets, ready, packets.len() as int);
    lemma_framed_same(packets, packets.take(ready), ready);
    assert(b.data@.take(b.batch_size as int) =~= framed_all(packets, ready));
}

/// The packets that have been written and the offset after the first `i` attempts to write the packet
/// at the offset, of which some are done and others would block.
pub open spec fn attempted(data: Seq<u8>, done: Seq<bool>, i: int) -> (Seq<Seq<u8>>, int)
    decreases i,
{
    if i <= 0 {
        (Seq::empty(), 0)
    } else {
        let (written, offset) = attempted(data, done, i - 1);
        match packet_at(data, offset) {
            Ok(Some(p)) => if done[i - 1] {
                (written.push(p), offset + TUN_HDR_SIZE + p.len())
            } else {
                (written, offset)
            },
            _ => (written, offset),
        }
    }
}

/// The number of the first `i` attempts that are done.
pub open spec fn count_done(done: Seq<bool>, i: int) -> int
    decreases i,
{
    if i <= 0 {
        0
    } else {
        count_done(done, i - 1) + if done[i - 1] {
            1int
        } else {
            0int
        }
    }
}

/// However often writing blocks, the packets of a datagram are written in order, each once: after so
/// many attempts as are done that many packets have been written, the offset is at the next one, and
/// after the last there is nothing more to write.
pub proof fn lemma_tunnel_writes(packets: Seq<Seq<u8>>, done: Seq<bool>, i: int)
    requires
        0 <= i <= done.len(),
        forall|j: int| 0 <= j < packets.len() ==> (#[trigger] packets[j]).len() <= MAX_TUN_PACKET,
    ensures
        ({
            let datagram = framed_all(packets, packets.len() as int);
            let n = count_done(done, i);
            let t = if n < packets.len() {
                n
            } else {
                packets.len() as int
            };
            let (written, offset) = attempted(datagram, done, i);
            &&& 0 <= t
            &&& written == packets.take(t)
            &&& offset == framed_all(packets, t).len()
            &&& packet_at(datagram, offset) == Ok::<_, TunError>(
                if t < packets.len() {
                    Some(packets[t])
                } else {
                    None
                },
            )
        }),
    decreases i,
{
    let datagram = framed_all(packets, packets.len() as int);
    if i <= 0 {
        lemma_tunnel_round_trip(packets, 0);
        assert(packets.take(0) =~= Seq::empty());
    } else {
        lemma_tunnel_writes(packets, done, i - 1);
        let n = count_done(done, i - 1);
        if n < packets.len() && done[i - 1] {
            lemma_tunnel_round_trip(packets, n);
            lemma_tunnel_round_trip(packets, n + 1);
            assert(packets.take(n).push(packets[n]) =~= packets.take(n + 1));
        }
    }
}

/// The state of a tunnel.  Times are in nanoseconds.
pub struct TunState {
    pub in_buf: InPacketBuffer,
    pub out_buf: OutPacketBuffer,
    /// The number of ping intervals for which no ping is needed.
    pub pkt_sem: i32,
    pub next_ping: u64,
    /// When the packets that have been gathered are to be sent at the latest.
    pub agg_deadline: Option<u64>,
    /// A datagram could not be sent and waits for the socket.
    pub pending_send: bool,
    pub agg_timeout_ms: u32,
}

/// A later time.
pub open spec fn later(now: u64, ns: u64) -> u64 {
    now.saturating_add(ns)
}

impl TunState {
    pub open spec fn wf(&self) -> bool {
        &&& self.in_buf.wf()
        &&& self.out_buf.wf()
        &&& 0 <= self.pkt_sem <= 1
    }

    pub fn new(now: u64, agg_timeout_ms: u32) -> (s: TunState)
        ensures
            s.wf(),
            s.in_buf.holds(Seq::empty(), 0),
            s.out_buf.data@.len() == 0,
            s.pkt_sem == 0,
            s.next_ping == later(now, PING_INTERVAL_NS),
            s.agg_deadline is None,
            !s.pending_send,
            s.agg_timeout_ms == agg_timeout_ms,
    {
        TunState {
            in_buf: InPacketBuffer::new(),
            out_buf: OutPacketBuffer::new(),
            pkt_sem: 0,
            next_ping: now.saturating_add(PING_INTERVAL_NS),
            agg_deadline: None,
            pending_send: false,
            agg_timeout_ms,
        }
    }

    /// Whether a ping is to be sent now: at the end of an interval in which nothing was sent.
    pub fn ping_due(&mut self, now: u64) -> (r: bool)
        requires
            old(self).wf(),
        ensures
            final(self).wf(),
            r == (now >= old(self).next_ping && old(self).pkt_sem == 0),
            *final(self) == (if now >= old(self).next_ping {
                TunState { pkt_sem: 0, next_ping: later(now, PING_INTERVAL_NS), ..*old(self) }
            } else {
                *old(self)
            }),
    {
        if now >= self.next_ping {
            let due: bool = self.pkt_sem == 0;
            if self.pkt_sem > 0 {
                self.pkt_sem = self.pkt_sem - 1;
            }
            self.next_ping = now.saturating_add(PING_INTERVAL_NS);
            return due;
        }
        false
    }

    /// Whether the packets that have been gathered have waited long enough.
    pub fn flush_due(&mut self, now: u64) -> (r: bool)
        requires
            old(self).wf(),
        ensures
            final(self).wf(),
            r == (old(self).agg_deadline matches Some(d) && now >= d),
            *final(self) == (if r {
                TunState { agg_deadline: None, ..*old(self) }
            } else {
                *old(self)
            }),
    {
        if let Some(deadline) = self.agg_deadline {
            if now >= deadline {
                self.agg_deadline = None;
                return true;
            }
        }
        false
    }

    /// The datagram to send now.  If there is none, nothing is pending any more.
    pub fn start_batch(&mut self) -> (r: Option<Vec<u8>>)
        requires
            old(self).wf(),
        ensures
            final(self).wf(),
            r is None <==> old(self).in_buf.batch_size == 0,
            r matches Some(b) ==> b@ == old(self).in_buf.data@.take(
                old(self).in_buf.batch_size as int,
            ) && *final(self) == (TunState { pkt_sem: 1, ..*old(self) }),
            r is None ==> *final(self) == (TunState { pending_send: false, ..*old(self) }),
    {
        match self.in_buf.next_batch() {
            Some(b) => {
                self.pkt_sem = 1;
                Some(b)
            },
            None => {
                self.pending_send = false;
                None
            },
        }
    }

    /// Notes whether the datagram has been sent.
    pub fn finish_batch(&mut self, sent: bool)
        requires
            old(self).wf(),
        ensures
            final(self).wf(),
            final(self).pending_send == !sent,
            sent ==> final(self).in_buf.data@ == old(self).in_buf.data@.skip(
                old(self).in_buf.batch_size as int,
            ) && final(self).in_buf.batch_size == final(self).in_buf.data@.len(),
            sent ==> forall|packets: Seq<Seq<u8>>, ready: int| #[trigger]
                old(self).in_buf.holds(packets, ready) ==> final(self).in_buf.holds(
                    packets.skip(ready),
                    packets.len() - ready,
                ),
            !sent ==> final(self).in_buf == old(self).in_buf,
            final(self).out_buf == old(self).out_buf,
            final(self).pkt_sem == old(self).pkt_sem,
            final(self).next_ping == old(self).next_ping,
            final(self).agg_deadline == old(self).agg_deadline,
            final(self).agg_timeout_ms == old(self).agg_timeout_ms,
    {
        if sent {
            self.in_buf.batch_sent();
        }
        self.pending_send = !sent;
    }

    /// Takes in a packet that has been read, and says whether to send now, as is done at once if
    /// `flush` is set.  If not, the packets that
    /// have been gathered wait for so long from now.
    pub fn tun_read(&mut self, packet: &[u8], now: u64, flush: bool) -> (r: bool)
        requires
            old(self).wf(),
            old(self).in_buf.data@.len() < MTU,
            packet@.len() <= MAX_TUN_PACKET,
        ensures
            final(self).wf(),
            final(self).in_buf.data@ == old(self).in_buf.data@ + framed(packet@),
            final(self).in_buf.batch_size == (if final(self).in_buf.data@.len() <= MTU {
                final(self).in_buf.data@.len() as int
            } else {
                old(self).in_buf.batch_size as int
            }),
            forall|packets: Seq<Seq<u8>>, ready: int| #[trigger]
                old(self).in_buf.holds(packets, ready) ==> final(self).in_buf.holds(
                    packets.push(packet@),
                    if final(self).in_buf.data@.len() <= MTU {
                        packets.len() as int + 1
                    } else {
                        ready
                    },
                ),
            r == (final(self).in_buf.data@.len() >= MTU || old(self).agg_timeout_ms == 0 || flush),
            final(self).agg_deadline == (if r {
                old(self).agg_deadline
            } else {
                Some(later(now, (old(self).agg_timeout_ms * 1_000_000) as u64))
            }),
            final(self).out_buf == old(self).out_buf,
            final(self).pkt_sem == old(self).pkt_sem,
            final(self).next_ping == old(self).next_ping,
            final(self).pending_send == old(self).pending_send,
            final(self).agg_timeout_ms == old(self).agg_timeout_ms,
    {
        self.in_buf.add_packet(packet);
        if self.in_buf.data.len() >= MTU || self.agg_timeout_ms == 0 || flush {
            return true;
        }
        self.agg_deadline = Some(now.saturating_add(self.agg_timeout_ms as u64 * 1_000_000));
        false
    }

    /// The milliseconds until the next ping or the deadline, whichever comes first.
    pub fn poll_timeout(&self, now: u64) -> (r: i32)
        ensures
            ({
                let next = match self.agg_deadline {
                    Some(d) => if d < self.next_ping {
                        d
                    } else {
                        self.next_ping
                    },
                    None => self.next_ping,
                };
                let ms = if next > now {
                    (next - now) / 1_000_000
                } else {
                    0
                };
                r == if ms < i32::MAX {
                    ms
                } else {
                    i32::MAX as int
                }
            }),
    {
        let mut next: u64 = self.next_ping;
        if let Some(deadline) = self.agg_deadline {
            if deadline < next {
                next = deadline;
            }
        }
        if next <= now {
            return 0;
        }
        let ms: u64 = (next - now) / 1_000_000;
        if ms < i32::MAX as u64 {
            ms as i32
        } else {
            i32::MAX
        }
    }
}

} // verus!
