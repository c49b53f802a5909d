//! The transmitter: payloads come in, packets of the link go out.
use crate::block::{
    block_fragment, data_column, data_valid, largest, padded, stated_size,
};
use crate::block::lemma_largest;
use crate::bytes::{
    append_bytes, be_bytes, copy_range, order_of_one, to_be_bytes, to_native_bytes, zeros, ByteOrder,
};
use crate::crypto::{
    aead_encrypt, aead_opened, aead_sealed, box_easy, box_opened, box_public_key, box_sealed,
    keys_agree, random_bytes, shared_secret_exists, AEAD_KEY_BYTES, AEAD_TAG_BYTES, BOX_KEY_BYTES,
    BOX_NONCE_BYTES,
};
use crate::rx_ring::FRAGMENT_BUFFER;
use crate::wifibroadcast::{
    TLV_HDR_SIZE, TlvHdr, WblockHdr, WpacketHdr, WsessionData, WsessionHdr, MAX_BLOCK_IDX, MAX_FEC_PAYLOAD,
    MAX_PAYLOAD_SIZE, MAX_SESSION_PACKET_SIZE, WBLOCK_HDR_SIZE, WFB_FEC_VDM_RS, WFB_PACKET_DATA,
    WFB_PACKET_FEC_ONLY, WFB_PACKET_SESSION, WPACKET_HDR_SIZE, WSESSION_DATA_SIZE,
    WSESSION_HDR_SIZE,
};
use crate::zfex::{
    aligned, aligned_size, coded, column, fec_encode_simd, fec_new, Block, Fec, ZfexStatusCode,
    ZFEX_SIMD_ALIGNMENT,
};
use crate::zfex::lemma_simd_alignment;
use vstd::prelude::*;

verus! {

/// A tag that is announced with the session.
#[derive(Clone, Debug)]
pub struct TagsItem {
    pub id: u8,
    pub value: Vec<u8>,
}

#[derive(Clone, Copy, Debug, PartialEq, Eq, Structural)]
pub enum TxMode {
    Local,
    Injector,
    Distributor,
}

/// Why the transmitter gives up.
#[derive(Clone, Copy, Debug, PartialEq, Eq, Structural)]
pub enum TxError {
    /// The key file is too short.
    KeyFile,
    /// The keys make no session key.
    SessionKey,
    /// The check fragments could not be computed.
    FecEncode,
}

/// What the transmitter asks its surroundings to do, in order.
#[derive(Clone, Debug, PartialEq, Eq)]
pub enum TxEvent {
    /// Mark what follows as data (0) or as check fragments (1).
    SetMark(u32),
    /// Send a packet of the link.
    Inject(Vec<u8>),
    /// Wait for so many microseconds.
    Delay(u32),
}

pub enum TxEventView {
    SetMark(u32),
    Inject(Seq<u8>),
    Delay(u32),
}

impl View for TxEvent {
    type V = TxEventView;

    open spec fn view(&self) -> TxEventView {
        match *self {
            TxEvent::SetMark(m) => TxEventView::SetMark(m),
            TxEvent::Inject(p) => TxEventView::Inject(p@),
            TxEvent::Delay(d) => TxEventView::Delay(d),
        }
    }
}

pub open spec fn tx_events_view(events: Seq<TxEvent>) -> Seq<TxEventView> {
    Seq::new(events.len(), |i: int| events[i]@)
}

/// Gathers payloads into blocks, adds check fragments and seals everything.
pub struct TransmitterCore {
    pub fec: Fec,
    pub fec_k: usize,
    pub fec_n: usize,
    pub block_idx: u64,
    pub fragment_idx: usize,
    pub max_packet_size: usize,
    pub epoch: u64,
    pub channel_id: u32,
    pub fec_delay: u32,
    pub tx_secretkey: Vec<u8>,
    pub rx_publickey: Vec<u8>,
    pub session_key: Vec<u8>,
    pub session_packet: Vec<u8>,
    pub session_packet_size: usize,
    /// Buffers of the data fragments.
    pub block: Vec<Block>,
    /// Buffers of the check fragments.
    pub fec_block: Vec<Block>,
    pub tags: Vec<TagsItem>,
    /// The byte order of the machine, in which the lengths of tags go.
    pub byte_order: ByteOrder,
}

/// The same in mathematical terms.
pub struct TxView {
    pub k: int,
    pub n: int,
    pub block_idx: u64,
    /// The data fragments of the block that have gone out.
    pub data: Seq<Seq<u8>>,
    pub epoch: u64,
    pub channel_id: u32,
    pub fec_delay: u32,
    pub tx_secretkey: Seq<u8>,
    pub rx_publickey: Seq<u8>,
    pub session_key: Seq<u8>,
    /// The packet that announces the session.
    pub announcement: Seq<u8>,
    pub tags: Seq<TagsItem>,
    pub byte_order: ByteOrder,
}

/// The fragment in a buffer: its header says how long it is.
pub open spec fn buffered(buffer: Seq<u8>) -> Seq<u8> {
    buffer.take(WPACKET_HDR_SIZE + stated_size(buffer))
}

impl View for TransmitterCore {
    type V = TxView;

    open spec fn view(&self) -> TxView {
        TxView {
            k: self.fec_k as int,
            n: self.fec_n as int,
            block_idx: self.block_idx,
            data: Seq::new(self.fragment_idx as nat, |j: int| buffered(self.block@[j].data@)),
            epoch: self.epoch,
            channel_id: self.channel_id,
            fec_delay: self.fec_delay,
            tx_secretkey: self.tx_secretkey@,
            rx_publickey: self.rx_publickey@,
            session_key: self.session_key@,
            announcement: self.session_packet@.take(self.session_packet_size as int),
            tags: self.tags@,
            byte_order: self.byte_order,
        }
    }
}

/// The bytes of the first `i` tags.
pub open spec fn tags_bytes(tags: Seq<TagsItem>, order: ByteOrder, i: int) -> Seq<u8>
    decreases i,
{
    if i <= 0 {
        Seq::empty()
    } else {
        let t = tags[i - 1];
        tags_bytes(tags, order, i - 1) + TlvHdr { id: t.id, len: t.value@.len() as u16 }.bytes(order)
            + t.value@
    }
}

/// The number of these bytes.
pub open spec fn tags_size(tags: Seq<TagsItem>, i: int) -> int
    decreases i,
{
    if i <= 0 {
        0
    } else {
        tags_size(tags, i - 1) + TLV_HDR_SIZE + tags[i - 1].value@.len()
    }
}

pub proof fn lemma_tags_size(tags: Seq<TagsItem>, order: ByteOrder, i: int)
    ensures
        tags_bytes(tags, order, i).len() == tags_size(tags, i),
    decreases i,
{
    if i > 0 {
        lemma_tags_size(tags, order, i - 1);
    }
}

/// Bytes of session data and tags that a session packet has room for.
pub const MAX_SESSION_DATA: usize = 3980;

/// Whether the tags fit into a session packet.
pub open spec fn tags_fit(tags: Seq<TagsItem>) -> bool {
    WSESSION_DATA_SIZE + tags_size(tags, tags.len() as int) <= MAX_SESSION_DATA
}

/// What a session packet seals.
pub open spec fn session_plaintext(v: TxView) -> Seq<u8> {
    be_bytes(v.epoch as nat, 8) + be_bytes(v.channel_id as nat, 4) + seq![
        WFB_FEC_VDM_RS,
        v.k as u8,
        v.n as u8,
    ] + v.session_key + tags_bytes(v.tags, v.byte_order, v.tags.len() as int)
}

/// A packet that announces the session of `v` to the receiver.
pub open spec fn announces(packet: Seq<u8>, v: TxView) -> bool {
    let nonce = packet.subrange(1, 25);
    &&& packet.len() >= WSESSION_HDR_SIZE
    &&& packet[0] == WFB_PACKET_SESSION
    &&& packet.skip(25) == box_sealed(
        session_plaintext(v),
        nonce,
        v.rx_publickey,
        v.tx_secretkey,
    )
    &&& packet.len() == WSESSION_HDR_SIZE + session_plaintext(v).len()
        + crate::crypto::BOX_MAC_BYTES
    &&& forall|sk: Seq<u8>|
        sk.len() == BOX_KEY_BYTES && v.rx_publickey == #[trigger] box_public_key(sk) ==> box_opened(
            packet.skip(25),
            nonce,
            box_public_key(v.tx_secretkey),
            sk,
        ) == Some(session_plaintext(v))
}

/// The header of fragment `f` of a block.
pub open spec fn fragment_header(block_idx: u64, f: int) -> WblockHdr {
    WblockHdr { packet_type: WFB_PACKET_DATA, data_nonce: (block_idx * 256 + f) as u64 }
}

/// The packet that carries fragment `f` of the current block.
pub open spec fn sealed_fragment(v: TxView, f: int, d: Seq<u8>) -> Seq<u8> {
    let h = fragment_header(v.block_idx, f);
    h.bytes() + aead_sealed(v.session_key, be_bytes(h.data_nonce as nat, 8), h.bytes(), d)
}

/// A receiver with this key opens the packet to `d`.
pub open spec fn opens_to(key: Seq<u8>, packet: Seq<u8>, d: Seq<u8>) -> bool {
    &&& packet.len() == WBLOCK_HDR_SIZE + d.len() + AEAD_TAG_BYTES
    &&& aead_opened(key, packet.subrange(1, 9), packet.take(9), packet.skip(9)) == Some(d)
}

/// A data fragment: header and payload.
pub open spec fn data_fragment(flags: u8, payload: Seq<u8>) -> Seq<u8> {
    WpacketHdr { flags, packet_size: payload.len() as u16 }.bytes() + payload
}

/// The bytes of a payload; without one there are none.
pub open spec fn payload_bytes(buf: Option<&[u8]>) -> Seq<u8> {
    match buf {
        Some(b) => b@,
        None => Seq::empty(),
    }
}

/// What goes out for the check fragments from `f` on.
pub open spec fn checks_sent(v: TxView, data: Seq<Seq<u8>>, f: int) -> Seq<TxEventView>
    decreases v.n - f,
{
    if f >= v.n {
        Seq::empty()
    } else {
        (if v.fec_delay > 0 {
            seq![TxEventView::Delay(v.fec_delay)]
        } else {
            Seq::empty()
        }) + seq![TxEventView::Inject(sealed_fragment(v, f, block_fragment(data, f)))] + checks_sent(
            v,
            data,
            f + 1,
        )
    }
}

/// What goes out for a data fragment.
pub open spec fn data_sent(v: TxView, d: Seq<u8>) -> Seq<TxEventView> {
    (if v.data.len() == 0 {
        seq![TxEventView::SetMark(0)]
    } else {
        Seq::empty()
    }) + seq![TxEventView::Inject(sealed_fragment(v, v.data.len() as int, d))]
}

/// What goes out for a payload, but for the announcement of a new session.
pub open spec fn packet_sent(v: TxView, d: Seq<u8>) -> Seq<TxEventView> {
    if v.data.len() + 1 < v.k {
        data_sent(v, d)
    } else {
        data_sent(v, d) + seq![TxEventView::SetMark(1)] + checks_sent(v, v.data.push(d), v.k)
    }
}

/// `n` times the announcement.
pub open spec fn announced(packet: Seq<u8>, n: int) -> Seq<TxEventView> {
    Seq::new(n as nat, |i: int| TxEventView::Inject(packet))
}

/// Only what a new session decides differs: code, block, key and announcement.
pub open spec fn same_setup(a: TxView, b: TxView) -> bool {
    &&& a.epoch == b.epoch
    &&& a.channel_id == b.channel_id
    &&& a.fec_delay == b.fec_delay
    &&& a.tx_secretkey == b.tx_secretkey
    &&& a.rx_publickey == b.rx_publickey
    &&& a.tags == b.tags
    &&& a.byte_order == b.byte_order
}

impl TransmitterCore {
    /// Buffers and keys have their sizes, the buffers hold the data fragments with zeros behind
    /// them, and the block lacks fragments.
    pub open spec fn wf(&self) -> bool {
        &&& self.filling()
        &&& self.fragment_idx < self.fec_k
    }

    /// The same for a block that may have all its data fragments.
    pub open spec fn filling(&self) -> bool {
        &&& self.fec.wf()
        &&& self.fec.k == self.fec_k
        &&& self.fec.n == self.fec_n
        &&& 1 <= self.fec_k <= self.fec_n <= 255
        &&& self.block_idx <= MAX_BLOCK_IDX
        &&& self.fragment_idx <= self.fec_k
        &&& self.buffers_wf()
        &&& self.tx_secretkey@.len() == BOX_KEY_BYTES
        &&& self.rx_publickey@.len() == BOX_KEY_BYTES
        &&& self.session_key@.len() == AEAD_KEY_BYTES
        &&& self.session_packet@.len() == MAX_SESSION_PACKET_SIZE
        &&& self.session_packet_size <= MAX_SESSION_PACKET_SIZE
        &&& tags_fit(self.tags@)
        &&& self.max_packet_size == largest(self@.data, self.fragment_idx as int)
        &&& self.data_wf(self.fragment_idx as int)
    }

    pub open spec fn buffers_wf(&self) -> bool {
        &&& self.block@.len() == self.fec_k
        &&& self.fec_block@.len() == self.fec_n - self.fec_k
        &&& forall|i: int|
            0 <= i < self.block@.len() ==> (#[trigger] self.block@[i]).data@.len() == FRAGMENT_BUFFER
                && aligned(self.block@[i])
        &&& forall|i: int|
            0 <= i < self.fec_block@.len() ==> (#[trigger] self.fec_block@[i]).data@.len()
                == FRAGMENT_BUFFER && aligned(self.fec_block@[i])
    }

    /// The first `count` buffers hold fragments with zeros behind them.
    pub open spec fn data_wf(&self, count: int) -> bool {
        forall|j: int|
            0 <= j < count ==> holds_fragment((#[trigger] self.block@[j]).data@)
    }
}

/// The buffer holds a fragment of valid size with zeros behind it.
pub open spec fn holds_fragment(buffer: Seq<u8>) -> bool {
    &&& stated_size(buffer) <= MAX_PAYLOAD_SIZE
    &&& forall|b: int|
        WPACKET_HDR_SIZE + stated_size(buffer) <= b < MAX_FEC_PAYLOAD ==> #[trigger] buffer[b] == 0
}

/// Buffers of a new block.
fn zero_blocks(count: usize) -> (blocks: Vec<Block>)
    ensures
        blocks@.len() == count,
        forall|i: int|
            0 <= i < count ==> (#[trigger] blocks@[i]).data@ == zeros(FRAGMENT_BUFFER as nat)
                && aligned(blocks@[i]),
{
    let mut blocks: Vec<Block> = Vec::new();
    let mut i: usize = 0;
    proof {
        lemma_simd_alignment();
    }
    let size: usize = aligned_size(MAX_FEC_PAYLOAD, ZFEX_SIMD_ALIGNMENT);
    while i < count
        invariant
            i <= count,
            size == FRAGMENT_BUFFER,
            blocks@.len() == i,
            forall|j: int|
                0 <= j < i ==> (#[trigger] blocks@[j]).data@ == zeros(FRAGMENT_BUFFER as nat)
                    && aligned(blocks@[j]),
        decreases count - i,
    {
        let data: Vec<u8> = vec![0u8; size];
        assert(data@ =~= zeros(FRAGMENT_BUFFER as nat));
        blocks.push(Block { addr: 0, data });
        i = i + 1;
    }
    blocks
}

/// Overwrites the beginning of `buffer`.
fn overwrite(buffer: &mut Vec<u8>, at: usize, bytes: &[u8])
    requires
        at + bytes@.len() <= old(buffer)@.len(),
    ensures
        final(buffer)@ == old(buffer)@.take(at as int) + bytes@ + old(buffer)@.skip(at + bytes@.len()),
{
    let ghost before = buffer@;
    let len: usize = buffer.len();
    let mut i: usize = 0;
    while i < bytes.len()
        invariant
            i <= bytes@.len(),
            at + bytes@.len() <= len,
            len == before.len(),
            buffer@.len() == len,
            forall|j: int|
                0 <= j < len ==> #[trigger] buffer@[j] == (if at <= j < at + i {
                    bytes@[j - at]
                } else {
                    before[j]
                }),
        decreases bytes@.len() - i,
    {
        buffer.set(at + i, bytes[i]);
        i = i + 1;
    }
    assert(buffer@ =~= before.take(at as int) + bytes@ + before.skip(at + bytes@.len()));
}

impl TransmitterCore {
    /// Keys, tags and the buffer of the announcement have their sizes.
    pub open spec fn setup_wf(&self) -> bool {
        &&& self.tx_secretkey@.len() == BOX_KEY_BYTES
        &&& self.rx_publickey@.len() == BOX_KEY_BYTES
        &&& self.session_packet@.len() == MAX_SESSION_PACKET_SIZE
        &&& self.session_packet_size <= MAX_SESSION_PACKET_SIZE
        &&& tags_fit(self.tags@)
    }

    /// The bytes of the tags.
    fn tags_to_bytes(&self) -> (out: Vec<u8>)
        requires
            tags_fit(self.tags@),
        ensures
            out@ == tags_bytes(self.tags@, self.byte_order, self.tags@.len() as int),
    {
        let mut out: Vec<u8> = Vec::new();
        let mut i: usize = 0;
        while i < self.tags.len()
            invariant
                i <= self.tags@.len(),
                tags_fit(self.tags@),
                out@ == tags_bytes(self.tags@, self.byte_order, i as int),
            decreases self.tags@.len() - i,
        {
            proof {
                lemma_tags_prefix(self.tags@, i + 1, self.tags@.len() as int);
            }
            let header = TlvHdr { id: self.tags[i].id, len: self.tags[i].value.len() as u16 };
            let bytes = header.to_bytes(self.byte_order);
            append_bytes(&mut out, &bytes);
            append_bytes(&mut out, &self.tags[i].value);
            i = i + 1;
        }
        out
    }

    /// Begins a session with `k` data fragments among `n` and this key, announced in a packet with
    /// this nonce.
    pub fn start_session(&mut self, k: u8, n: u8, session_key: Vec<u8>, nonce: Vec<u8>) -> (r: Result<
        (),
        TxError,
    >)
        requires
            old(self).setup_wf(),
            1 <= k <= n,
            session_key@.len() == AEAD_KEY_BYTES,
            nonce@.len() == BOX_NONCE_BYTES,
        ensures
            r is Ok <==> keys_agree(old(self)@.rx_publickey, old(self)@.tx_secretkey),
            r matches Err(e) ==> e == TxError::SessionKey,
            final(self).wf(),
            same_setup(final(self)@, old(self)@),
            final(self)@.k == k,
            final(self)@.n == n,
            final(self)@.block_idx == 0,
            final(self)@.data == Seq::<Seq<u8>>::empty(),
            final(self)@.session_key == session_key@,
            r is Ok ==> announces(final(self)@.announcement, final(self)@),
            r is Ok ==> final(self)@.announcement.subrange(1, 25) == nonce@,
            r is Err ==> final(self).session_packet_size == old(self).session_packet_size,
    {
        if let Ok(fec) = fec_new(k as u16, n as u16) {
            self.fec = fec;
        }
        self.fec_k = k as usize;
        self.fec_n = n as usize;
        self.block = zero_blocks(self.fec_k);
        self.fec_block = zero_blocks(self.fec_n - self.fec_k);
        self.block_idx = 0;
        self.fragment_idx = 0;
        self.max_packet_size = 0;
        self.session_key = session_key;
        let header = WsessionHdr {
            packet_type: WFB_PACKET_SESSION,
            session_nonce: nonce,
        };
        let header_bytes: Vec<u8> = header.to_bytes();
        overwrite(&mut self.session_packet, 0, &header_bytes);
        let ghost with_header = self.session_packet@;
        assert(with_header.take(25) =~= header_bytes@);
        assert(self@.data =~= Seq::empty());
        let data = WsessionData {
            epoch: self.epoch,
            channel_id: self.channel_id,
            fec_type: WFB_FEC_VDM_RS,
            k,
            n,
            session_key: copy_range(&self.session_key, 0, AEAD_KEY_BYTES),
        };
        let mut plaintext: Vec<u8> = data.to_bytes();
        let tags: Vec<u8> = self.tags_to_bytes();
        proof {
            lemma_tags_size(self.tags@, self.byte_order, self.tags@.len() as int);
        }
        append_bytes(&mut plaintext, &tags);
        assert(data.session_key@ =~= self.session_key@);
        assert(plaintext@ =~= session_plaintext(self@));
        if !shared_secret_exists(&self.rx_publickey, &self.tx_secretkey) {
            return Err(TxError::SessionKey);
        }
        let sealed: Vec<u8> = box_easy(
            &plaintext,
            &header.session_nonce,
            &self.rx_publickey,
            &self.tx_secretkey,
        );
        overwrite(&mut self.session_packet, WSESSION_HDR_SIZE, &sealed);
        self.session_packet_size = WSESSION_HDR_SIZE + sealed.len();
        proof {
            let packet = self@.announcement;
            assert(packet =~= header_bytes@ + sealed@);
            assert(packet.subrange(1, 25) =~= header.session_nonce@);
            assert(packet.skip(25) =~= sealed@);
            assert(session_plaintext(self@) =~= plaintext@);
        }
        Ok(())
    }

    /// Begins a session with `k` data fragments among `n`: a new key, announced in a new packet.
    pub fn init_session(&mut self, k: u8, n: u8) -> (r: Result<(), TxError>)
        requires
            old(self).setup_wf(),
            1 <= k <= n,
        ensures
            r is Ok <==> keys_agree(old(self)@.rx_publickey, old(self)@.tx_secretkey),
            r matches Err(e) ==> e == TxError::SessionKey,
            final(self).wf(),
            same_setup(final(self)@, old(self)@),
            final(self)@.k == k,
            final(self)@.n == n,
            final(self)@.block_idx == 0,
            final(self)@.data == Seq::<Seq<u8>>::empty(),
            r is Ok ==> announces(final(self)@.announcement, final(self)@),
            r is Err ==> final(self).session_packet_size == old(self).session_packet_size,
    {
        let session_key: Vec<u8> = random_bytes(AEAD_KEY_BYTES);
        let nonce: Vec<u8> = random_bytes(BOX_NONCE_BYTES);
        self.start_session(k, n, session_key, nonce)
    }

    /// A transmitter for a channel.  The key file holds its secret key and the receiver's public
    /// key.
    pub fn new(
        k: usize,
        n: usize,
        keypair: &[u8],
        epoch: u64,
        channel_id: u32,
        fec_delay: u32,
        tags: Vec<TagsItem>,
    ) -> (r: Result<TransmitterCore, TxError>)
        requires
            1 <= (k as u16) <= (n as u16) < 256,
            tags_fit(tags@),
        ensures
            r is Err <==> keypair@.len() < 2 * BOX_KEY_BYTES || !keys_agree(
                keypair@.subrange(32, 64),
                keypair@.subrange(0, 32),
            ),
            r matches Err(e) ==> e == (if keypair@.len() < 2 * BOX_KEY_BYTES {
                TxError::KeyFile
            } else {
                TxError::SessionKey
            }),
            r matches Ok(t) ==> {
                &&& t.wf()
                &&& t@.k == k as u16
                &&& t@.n == n as u16
                &&& t@.block_idx == 0
                &&& t@.data == Seq::<Seq<u8>>::empty()
                &&& t@.epoch == epoch
                &&& t@.channel_id == channel_id
                &&& t@.fec_delay == fec_delay
                &&& t@.tx_secretkey == keypair@.subrange(0, 32)
                &&& t@.rx_publickey == keypair@.subrange(32, 64)
                &&& t@.tags == tags@
                &&& announces(t@.announcement, t@)
            },
    {
        if keypair.len() < 2 * BOX_KEY_BYTES {
            return Err(TxError::KeyFile);
        }
        let fec = match fec_new(k as u16, n as u16) {
            Ok(fec) => fec,
            Err(_) => {
                return Err(TxError::FecEncode);
            },
        };
        let mut core = TransmitterCore {
            fec,
            fec_k: k,
            fec_n: n,
            block_idx: 0,
            fragment_idx: 0,
            max_packet_size: 0,
            epoch,
            channel_id,
            fec_delay,
            tx_secretkey: copy_range(keypair, 0, BOX_KEY_BYTES),
            rx_publickey: copy_range(keypair, BOX_KEY_BYTES, 2 * BOX_KEY_BYTES),
            session_key: vec![0u8; AEAD_KEY_BYTES],
            session_packet: vec![0u8; MAX_SESSION_PACKET_SIZE],
            session_packet_size: 0,
            block: Vec::new(),
            fec_block: Vec::new(),
            tags,
            byte_order: order_of_one(&to_native_bytes(1)),
        };
        proof {
            lemma_bits_narrow(k);
            lemma_bits_narrow(n);
        }
        match core.init_session(k as u8, n as u8) {
            Ok(_) => Ok(core),
            Err(e) => Err(e),
        }
    }

    /// The packet that carries the first `packet_size` bytes of a buffer as fragment `f`.
    fn send_block_fragment(&self, f: usize, buffer: &Vec<u8>, packet_size: usize) -> (packet: Vec<u8>)
        requires
            self.block_idx <= MAX_BLOCK_IDX,
            self.session_key@.len() == AEAD_KEY_BYTES,
            f < 256,
            packet_size <= buffer@.len(),
            packet_size <= MAX_FEC_PAYLOAD,
        ensures
            packet@ == sealed_fragment(self@, f as int, buffer@.take(packet_size as int)),
            opens_to(self@.session_key, packet@, buffer@.take(packet_size as int)),
    {
        let header = WblockHdr {
            packet_type: WFB_PACKET_DATA,
            data_nonce: self.block_idx * 256 + f as u64,
        };
        let mut packet: Vec<u8> = header.to_bytes();
        let nonce: Vec<u8> = to_be_bytes(header.data_nonce, 8);
        let fragment: Vec<u8> = copy_range(buffer, 0, packet_size);
        let sealed: Vec<u8> = aead_encrypt(&self.session_key, &nonce, &packet, &fragment);
        let ghost header_bytes = packet@;
        append_bytes(&mut packet, &sealed);
        proof {
            assert(fragment@ =~= buffer@.take(packet_size as int));
            assert(packet@.take(9) =~= header_bytes);
            assert(packet@.subrange(1, 9) =~= nonce@);
            assert(packet@.skip(9) =~= sealed@);
        }
        packet
    }

    /// Puts a fragment with this payload into its buffer.
    fn fill_buffer(&mut self, flags: u8, payload: &[u8])
        requires
            old(self).wf(),
            payload@.len() <= MAX_PAYLOAD_SIZE,
        ensures
            final(self).block@.len() == old(self).block@.len(),
            forall|j: int|
                0 <= j < old(self).block@.len() && j != old(self).fragment_idx
                    ==> #[trigger] final(self).block@[j] == old(self).block@[j],
            final(self).block@[old(self).fragment_idx as int].addr == old(
                self).block@[old(self).fragment_idx as int].addr,
            final(self).block@[old(self).fragment_idx as int].data@ == data_fragment(
                flags,
                payload@,
            ) + zeros((MAX_FEC_PAYLOAD - WPACKET_HDR_SIZE - payload@.len()) as nat) + old(
                self).block@[old(self).fragment_idx as int].data@.skip(MAX_FEC_PAYLOAD as int),
            *final(self) == (TransmitterCore { block: final(self).block, ..*old(self) }),
    {
        let i: usize = self.fragment_idx;
        let header = WpacketHdr { flags, packet_size: payload.len() as u16 };
        let mut bytes: Vec<u8> = header.to_bytes();
        append_bytes(&mut bytes, payload);
        let ghost d = bytes@;
        let mut b: usize = WPACKET_HDR_SIZE + payload.len();
        while b < MAX_FEC_PAYLOAD
            invariant
                d.len() <= b <= MAX_FEC_PAYLOAD,
                bytes@ == d + zeros((b - d.len()) as nat),
            decreases MAX_FEC_PAYLOAD - b,
        {
            bytes.push(0);
            b = b + 1;
            assert(bytes@ =~= d + zeros((b - d.len()) as nat));
        }
        overwrite(&mut self.block[i].data, 0, &bytes);
        proof {
            let buffer = old(self).block@[i as int].data@;
            assert(buffer.take(0) + bytes@ =~= bytes@);
        }
    }

    /// Computes the check fragments of the block, the data fragments of which are in their buffers.
    fn encode_block(&mut self) -> (r: ZfexStatusCode)
        requires
            old(self).fec.wf(),
            old(self).fec.k == old(self).fec_k,
            old(self).fec.n == old(self).fec_n,
            old(self).buffers_wf(),
            old(self).max_packet_size <= MAX_FEC_PAYLOAD,
        ensures
            r == ZfexStatusCode::Success,
            final(self).buffers_wf(),
            *final(self) == (TransmitterCore { fec_block: final(self).fec_block, ..*old(self) }),
            forall|i: int, b: int|
                0 <= i < old(self).fec_n - old(self).fec_k && 0 <= b < old(self).max_packet_size
                    ==> #[trigger] final(self).fec_block@[i].data@[b] == coded(
                    Seq::new(old(self).fec_k as nat, |j: int| old(self).block@[j].data@[b]),
                    old(self).fec_k + i,
                ),
    {
        proof {
            lemma_simd_alignment();
        }
        let aligned: usize = aligned_size(self.max_packet_size, ZFEX_SIMD_ALIGNMENT);
        let mut in_blocks: Vec<&Block> = Vec::new();
        let mut j: usize = 0;
        while j < self.fec_k
            invariant
                j <= self.fec_k,
                self.buffers_wf(),
                in_blocks@.len() == j,
                forall|i: int| 0 <= i < j ==> *(#[trigger] in_blocks@[i]) == self.block@[i],
            decreases self.fec_k - j,
        {
            in_blocks.push(&self.block[j]);
            j = j + 1;
        }
        let ghost ins = in_blocks@;
        let rc = fec_encode_simd(&self.fec, &in_blocks, &mut self.fec_block, aligned);
        proof {
            assert forall|i: int, b: int|
                0 <= i < self.fec_n - self.fec_k && 0 <= b < self.max_packet_size implies #[trigger] self.fec_block@[i].data@[b]
                == coded(
                Seq::new(self.fec_k as nat, |q: int| self.block@[q].data@[b]),
                self.fec_k + i,
            ) by {
                assert(column(ins, self.fec_k as nat, b) =~= Seq::new(
                    self.fec_k as nat,
                    |q: int| self.block@[q].data@[b],
                ));
            }
        }
        rc
    }

    /// Seals the check fragments of a block and appends what goes out for them.
    fn send_checks(&self, out: &mut Vec<TxEvent>, Ghost(v): Ghost<TxView>, Ghost(data): Ghost<Seq<Seq<u8>>>)
        requires
            self.buffers_wf(),
            self.block_idx <= MAX_BLOCK_IDX,
            self.session_key@.len() == AEAD_KEY_BYTES,
            1 <= self.fec_k <= self.fec_n <= 255,
            self.max_packet_size <= MAX_FEC_PAYLOAD,
            v.block_idx == self.block_idx,
            v.session_key == self.session_key@,
            v.k == self.fec_k,
            v.n == self.fec_n,
            v.fec_delay == self.fec_delay,
            forall|f: int|
                self.fec_k <= f < self.fec_n ==> #[trigger] block_fragment(data, f)
                    == self.fec_block@[f - self.fec_k].data@.take(self.max_packet_size as int),
        ensures
            tx_events_view(final(out)@) == tx_events_view(old(out)@) + checks_sent(v, data, v.k),
            forall|f: int|
                v.k <= f < v.n ==> opens_to(
                    v.session_key,
                    sealed_fragment(v, f, #[trigger] block_fragment(data, f)),
                    block_fragment(data, f),
                ),
    {
        let ghost base = tx_events_view(out@);
        let mut f: usize = self.fec_k;
        assert(base + checks_sent(v, data, v.k) =~= tx_events_view(out@) + checks_sent(
            v,
            data,
            f as int,
        ));
        while f < self.fec_n
            invariant
                self.fec_k <= f <= self.fec_n,
                self.buffers_wf(),
                self.block_idx <= MAX_BLOCK_IDX,
                self.session_key@.len() == AEAD_KEY_BYTES,
                1 <= self.fec_k <= self.fec_n <= 255,
                self.max_packet_size <= MAX_FEC_PAYLOAD,
                v.block_idx == self.block_idx,
                v.session_key == self.session_key@,
                v.k == self.fec_k,
                v.n == self.fec_n,
                v.fec_delay == self.fec_delay,
                forall|g: int|
                    self.fec_k <= g < self.fec_n ==> #[trigger] block_fragment(data, g)
                        == self.fec_block@[g - self.fec_k].data@.take(self.max_packet_size as int),
                base + checks_sent(v, data, v.k) == tx_events_view(out@) + checks_sent(
                    v,
                    data,
                    f as int,
                ),
                forall|g: int|
                    v.k <= g < f ==> opens_to(
                        v.session_key,
                        sealed_fragment(v, g, #[trigger] block_fragment(data, g)),
                        block_fragment(data, g),
                    ),
            decreases self.fec_n - f,
        {
            let ghost before = tx_events_view(out@);
            let ghost d = block_fragment(data, f as int);
            if self.fec_delay > 0 {
                push_event(out, TxEvent::Delay(self.fec_delay));
            }
            let i: usize = f - self.fec_k;
            assert(self.fec_block@[i as int].data@.len() == FRAGMENT_BUFFER);
            let packet: Vec<u8> = self.send_block_fragment(
                f,
                &self.fec_block[i].data,
                self.max_packet_size,
            );
            assert(packet@ == sealed_fragment(v, f as int, d));
            push_event(out, TxEvent::Inject(packet));
            f = f + 1;
            assert(before + checks_sent(v, data, f - 1) =~= tx_events_view(out@) + checks_sent(
                v,
                data,
                f as int,
            ));
        }
        assert(checks_sent(v, data, f as int) =~= Seq::empty());
        assert(tx_events_view(out@) + Seq::<TxEventView>::empty() =~= tx_events_view(out@));
    }

    /// Puts a fragment with this payload into the block and appends what goes out for it.
    fn add_fragment(&mut self, flags: u8, payload: &[u8], out: &mut Vec<TxEvent>)
        requires
            old(self).wf(),
            payload@.len() <= MAX_PAYLOAD_SIZE,
        ensures
            final(self).filling(),
            ({
                let v = old(self)@;
                let d = data_fragment(flags, payload@);
                &&& final(self)@ == (TxView { data: v.data.push(d), ..v })
                &&& final(self).fragment_idx == old(self).fragment_idx + 1
                &&& data_valid(v.data.push(d))
                &&& tx_events_view(final(out)@) == tx_events_view(old(out)@) + data_sent(v, d)
                &&& opens_to(v.session_key, sealed_fragment(v, v.data.len() as int, d), d)
            }),
    {
        let ghost v = self@;
        let ghost before = tx_events_view(out@);
        let ghost d = data_fragment(flags, payload@);
        let ghost data = v.data.push(d);
        let i: usize = self.fragment_idx;
        let size: usize = WPACKET_HDR_SIZE + payload.len();
        self.fill_buffer(flags, payload);
        let ghost buffer = self.block@[i as int].data@;
        proof {
            lemma_filled_buffer(
                buffer,
                flags,
                payload@,
                old(self).block@[i as int].data@.skip(MAX_FEC_PAYLOAD as int),
            );
            assert(old(self).block@[i as int].data@.len() == FRAGMENT_BUFFER);
            assert(self@.data =~= v.data);
        }
        if i == 0 {
            push_event(out, TxEvent::SetMark(0));
        }
        assert(buffer.len() == FRAGMENT_BUFFER);
        let packet: Vec<u8> = self.send_block_fragment(i, &self.block[i].data, size);
        push_event(out, TxEvent::Inject(packet));
        if size > self.max_packet_size {
            self.max_packet_size = size;
        }
        self.fragment_idx = self.fragment_idx + 1;
        proof {
            assert(self@.data =~= data);
            assert(tx_events_view(out@) =~= before + data_sent(v, d));
            lemma_largest_push(v.data, d);
            lemma_data_valid(self.block@, data, i + 1);
            lemma_largest(data, i + 1);
        }
    }

    /// The check fragments that have been computed are those of the block.
    proof fn lemma_checks_computed(&self, data: Seq<Seq<u8>>)
        requires
            self.filling(),
            self.fragment_idx == self.fec_k,
            data == self@.data,
            forall|i: int, b: int|
                0 <= i < self.fec_n - self.fec_k && 0 <= b < self.max_packet_size
                    ==> #[trigger] self.fec_block@[i].data@[b] == coded(
                    Seq::new(self.fec_k as nat, |j: int| self.block@[j].data@[b]),
                    self.fec_k + i,
                ),
        ensures
            forall|f: int|
                self.fec_k <= f < self.fec_n ==> #[trigger] block_fragment(data, f)
                    == self.fec_block@[f - self.fec_k].data@.take(self.max_packet_size as int),
    {
        lemma_data_valid(self.block@, data, self.fec_k as int);
        lemma_largest(data, self.fec_k as int);
        assert forall|f: int| self.fec_k <= f < self.fec_n implies #[trigger] block_fragment(data, f)
            == self.fec_block@[f - self.fec_k].data@.take(self.max_packet_size as int) by {
            let have = self.fec_block@[f - self.fec_k].data@.take(self.max_packet_size as int);
            let want = block_fragment(data, f);
            assert(self.fec_block@[f - self.fec_k].data@.len() == FRAGMENT_BUFFER);
            assert forall|b: int| 0 <= b < self.max_packet_size implies have[b] == want[b] by {
                assert(self.fec_block@[f - self.fec_k].data@[b] == coded(
                    Seq::new(self.fec_k as nat, |j: int| self.block@[j].data@[b]),
                    f,
                ));
                assert(Seq::new(self.fec_k as nat, |j: int| self.block@[j].data@[b])
                    =~= data_column(data, b)) by {
                    assert forall|j: int| 0 <= j < self.fec_k implies self.block@[j].data@[b]
                        == padded(data[j], b) by {
                        assert(holds_fragment(self.block@[j].data@));
                        assert(self.block@[j].data@.len() == FRAGMENT_BUFFER);
                    }
                }
            }
            assert(have =~= want);
        }
    }

    /// Computes the check fragments of a full block, appends what goes out for them and moves on to
    /// the next block.
    fn finish_block(&mut self, out: &mut Vec<TxEvent>, Ghost(v): Ghost<TxView>) -> (rc: ZfexStatusCode)
        requires
            old(self).filling(),
            old(self).fragment_idx == old(self).fec_k,
            old(self)@ == (TxView { data: old(self)@.data, ..v }),
        ensures
            rc == ZfexStatusCode::Success,
            final(self).setup_wf(),
            final(self).block_idx == old(self).block_idx + 1,
            final(self).block_idx <= MAX_BLOCK_IDX ==> final(self).wf(),
            final(self)@ == (TxView {
                data: Seq::empty(),
                block_idx: (v.block_idx + 1) as u64,
                ..v
            }),
            ({
                let data = old(self)@.data;
                &&& tx_events_view(final(out)@) == tx_events_view(old(out)@) + (seq![
                    TxEventView::SetMark(1),
                ] + checks_sent(v, data, v.k))
                &&& forall|f: int|
                    v.k <= f < v.n ==> opens_to(
                        v.session_key,
                        sealed_fragment(v, f, #[trigger] block_fragment(data, f)),
                        block_fragment(data, f),
                    )
            }),
    {
        let ghost data = self@.data;
        let ghost before = tx_events_view(out@);
        proof {
            lemma_data_valid(self.block@, data, self.fec_k as int);
            lemma_largest(data, self.fec_k as int);
        }
        let rc = self.encode_block();
        assert(self@.data =~= data);
        proof {
            self.lemma_checks_computed(data);
        }
        push_event(out, TxEvent::SetMark(1));
        self.send_checks(out, Ghost(v), Ghost(data));
        assert(tx_events_view(out@) =~= before + (seq![TxEventView::SetMark(1)] + checks_sent(
            v,
            data,
            v.k,
        )));
        self.block_idx = self.block_idx + 1;
        self.fragment_idx = 0;
        self.max_packet_size = 0;
        assert(self@.data =~= Seq::empty());
        rc
    }

    /// Begins a new session with the same code and announces it.
    fn renew_session(&mut self, out: &mut Vec<TxEvent>) -> (r: Result<(), TxError>)
        requires
            old(self).setup_wf(),
            1 <= old(self).fec_k <= old(self).fec_n <= 255,
        ensures
            final(self).wf(),
            r == (if keys_agree(old(self)@.rx_publickey, old(self)@.tx_secretkey) {
                Ok::<(), TxError>(())
            } else {
                Err::<(), TxError>(TxError::SessionKey)
            }),
            same_setup(final(self)@, old(self)@),
            final(self)@.k == old(self)@.k,
            final(self)@.n == old(self)@.n,
            final(self)@.block_idx == 0,
            final(self)@.data == Seq::<Seq<u8>>::empty(),
            r is Ok ==> announces(final(self)@.announcement, final(self)@),
            tx_events_view(final(out)@) == tx_events_view(old(out)@) + (if r is Ok {
                announced(final(self)@.announcement, old(self)@.n - old(self)@.k + 1)
            } else {
                Seq::empty()
            }),
    {
        let ghost base = tx_events_view(out@);
        let (k, n): (u8, u8) = (self.fec_k as u8, self.fec_n as u8);
        match self.init_session(k, n) {
            Ok(_) => {},
            Err(e) => {
                assert(base + Seq::<TxEventView>::empty() =~= base);
                return Err(e);
            },
        }
        let count: usize = self.fec_n - self.fec_k + 1;
        let mut i: usize = 0;
        assert(base + announced(self@.announcement, 0) =~= base);
        while i < count
            invariant
                i <= count,
                self.wf(),
                tx_events_view(out@) == base + announced(self@.announcement, i as int),
            decreases count - i,
        {
            let packet: Vec<u8> = self.send_session_key();
            push_event(out, TxEvent::Inject(packet));
            i = i + 1;
            assert(tx_events_view(out@) =~= base + announced(self@.announcement, i as int));
        }
        Ok(())
    }

    /// Takes in a payload, and appends what is to be done for it.  With the last data fragment of a
    /// block the check fragments go out too.  The first fragment of a block cannot be there for the
    /// code alone: that is refused with `false`.  After the last block of a session a new one
    /// begins.
    pub fn send_packet(&mut self, buf: Option<&[u8]>, flags: u8, out: &mut Vec<TxEvent>) -> (r: Result<
        bool,
        TxError,
    >)
        requires
            old(self).wf(),
            buf matches Some(b) ==> b@.len() <= MAX_PAYLOAD_SIZE,
        ensures
            final(self).wf(),
            ({
                let v = old(self)@;
                let d = data_fragment(flags, payload_bytes(buf));
                let data = v.data.push(d);
                let before = tx_events_view(old(out)@);
                let after = tx_events_view(final(out)@);
                if v.data.len() == 0 && flags & WFB_PACKET_FEC_ONLY != 0 {
                    &&& r == Ok::<bool, TxError>(false)
                    &&& *final(self) == *old(self)
                    &&& final(out)@ == old(out)@
                } else {
                    &&& opens_to(v.session_key, sealed_fragment(v, v.data.len() as int, d), d)
                    &&& data_valid(data)
                    &&& v.data.len() + 1 < v.k ==> {
                        &&& r == Ok::<bool, TxError>(true)
                        &&& final(self)@ == (TxView { data, ..v })
                        &&& after == before + packet_sent(v, d)
                    }
                    &&& v.data.len() + 1 == v.k ==> forall|f: int|
                        v.k <= f < v.n ==> opens_to(
                            v.session_key,
                            sealed_fragment(v, f, #[trigger] block_fragment(data, f)),
                            block_fragment(data, f),
                        )
                    &&& v.data.len() + 1 == v.k && v.block_idx < MAX_BLOCK_IDX ==> {
                        &&& r == Ok::<bool, TxError>(true)
                        &&& final(self)@ == (TxView {
                            data: Seq::empty(),
                            block_idx: (v.block_idx + 1) as u64,
                            ..v
                        })
                        &&& after == before + packet_sent(v, d)
                    }
                    &&& v.data.len() + 1 == v.k && v.block_idx == MAX_BLOCK_IDX ==> {
                        &&& r == (if keys_agree(v.rx_publickey, v.tx_secretkey) {
                            Ok::<bool, TxError>(true)
                        } else {
                            Err::<bool, TxError>(TxError::SessionKey)
                        })
                        &&& same_setup(final(self)@, v)
                        &&& final(self)@.k == v.k
                        &&& final(self)@.n == v.n
                        &&& final(self)@.block_idx == 0
                        &&& final(self)@.data == Seq::<Seq<u8>>::empty()
                        &&& r is Ok ==> announces(final(self)@.announcement, final(self)@)
                        &&& after == before + packet_sent(v, d) + (if r is Ok {
                            announced(final(self)@.announcement, v.n - v.k + 1)
                        } else {
                            Seq::empty()
                        })
                    }
                }
            }),
    {
        let ghost v = self@;
        let ghost before = tx_events_view(out@);
        if self.fragment_idx == 0 && (flags & WFB_PACKET_FEC_ONLY) != 0 {
            return Ok(false);
        }
        let empty: Vec<u8> = Vec::new();
        let payload: &[u8] = match buf {
            Some(b) => b,
            None => empty.as_slice(),
        };
        let ghost d = data_fragment(flags, payload@);
        assert(payload@ =~= payload_bytes(buf));
        self.add_fragment(flags, payload, out);
        if self.fragment_idx < self.fec_k {
            return Ok(true);
        }
        let rc = self.finish_block(out, Ghost(v));
        if rc != ZfexStatusCode::Success {
            return Err(TxError::FecEncode);
        }
        assert(tx_events_view(out@) =~= before + packet_sent(v, d));
        if self.block_idx > MAX_BLOCK_IDX {
            match self.renew_session(out) {
                Ok(_) => {},
                Err(e) => {
                    return Err(e);
                },
            }
        }
        Ok(true)
    }

    /// The packet that announces the session.
    pub fn send_session_key(&self) -> (packet: Vec<u8>)
        requires
            self.wf(),
        ensures
            packet@ == self@.announcement,
    {
        copy_range(&self.session_packet, 0, self.session_packet_size)
    }

    pub fn get_fec(&self) -> (r: (usize, usize))
        ensures
            r.0 == self@.k,
            r.1 == self@.n,
    {
        (self.fec_k, self.fec_n)
    }
}

proof fn lemma_bits_narrow(x: usize)
    by (bit_vector)
    ensures
        (x as u16) < 256 ==> (x as u8) == (x as u16),
{
}

fn push_event(out: &mut Vec<TxEvent>, e: TxEvent)
    ensures
        tx_events_view(final(out)@) == tx_events_view(old(out)@).push(e@),
{
    let ghost before = tx_events_view(out@);
    out.push(e);
    assert(tx_events_view(out@) =~= before.push(e@));
}

/// A filled buffer holds the fragment with zeros behind it.
proof fn lemma_filled_buffer(buffer: Seq<u8>, flags: u8, payload: Seq<u8>, rest: Seq<u8>)
    requires
        payload.len() <= MAX_PAYLOAD_SIZE,
        buffer == data_fragment(flags, payload) + zeros(
            (MAX_FEC_PAYLOAD - WPACKET_HDR_SIZE - payload.len()) as nat,
        ) + rest,
    ensures
        holds_fragment(buffer),
        buffered(buffer) == data_fragment(flags, payload),
        buffer.take(WPACKET_HDR_SIZE + payload.len()) == data_fragment(flags, payload),
        stated_size(buffer) == payload.len(),
        stated_size(data_fragment(flags, payload)) == payload.len(),
{
    let d = data_fragment(flags, payload);
    assert(buffer[1] == d[1] && buffer[2] == d[2]);
    assert(buffered(buffer) =~= d);
}

proof fn lemma_largest_push(data: Seq<Seq<u8>>, d: Seq<u8>)
    ensures
        largest(data.push(d), data.len() as int + 1) == (if d.len() > largest(data, data.len() as int) {
            d.len() as int
        } else {
            largest(data, data.len() as int)
        }),
{
    lemma_largest_same(data, data.push(d), data.len() as int);
}

proof fn lemma_largest_same(a: Seq<Seq<u8>>, b: Seq<Seq<u8>>, i: int)
    requires
        i <= a.len(),
        i <= b.len(),
        forall|j: int| 0 <= j < i ==> a[j] == b[j],
    ensures
        largest(a, i) == largest(b, i),
    decreases i,
{
    if i > 0 {
        lemma_largest_same(a, b, i - 1);
    }
}

/// Fragments in buffers are valid.
proof fn lemma_data_valid(blocks: Seq<Block>, data: Seq<Seq<u8>>, count: int)
    requires
        0 <= count <= blocks.len(),
        data.len() == count,
        forall|j: int|
            0 <= j < count ==> holds_fragment((#[trigger] blocks[j]).data@) && data[j] == buffered(
                blocks[j].data@,
            ) && blocks[j].data@.len() == FRAGMENT_BUFFER,
    ensures
        data_valid(data),
{
    assert forall|j: int| 0 <= j < data.len() implies WPACKET_HDR_SIZE <= (#[trigger] data[j]).len()
        <= MAX_FEC_PAYLOAD && stated_size(data[j]) + WPACKET_HDR_SIZE == data[j].len() by {
        let buffer = blocks[j].data@;
        assert(holds_fragment(buffer));
        assert(data[j][1] == buffer[1] && data[j][2] == buffer[2]);
    }
}

/// A longer list of tags takes more bytes.
proof fn lemma_tags_prefix(tags: Seq<TagsItem>, i: int, n: int)
    requires
        0 <= i <= n,
    ensures
        0 <= tags_size(tags, i) <= tags_size(tags, n),
        i > 0 ==> tags[i - 1].value@.len() <= tags_size(tags, n),
    decreases n,
{
    lemma_tags_size(tags, ByteOrder::LittleEndian, i);
    lemma_tags_size(tags, ByteOrder::LittleEndian, i - 1);
    if i < n {
        lemma_tags_prefix(tags, i, n - 1);
    }
}

} // verus!
