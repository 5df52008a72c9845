//! Finds frames in a stream of bytes and reassembles packets from them.
//!
//! [`PacketReader`] holds the state of the reading end.  Each of its `on_`
//! methods takes what came of the last action and names the next one.

use vstd::prelude::*;
use vstd::slice::slice_subrange;

use crate::bytes::{
    from_le16, from_le32, law_16_bits_are_little_endian, law_32_bits_are_little_endian, u16_from_le,
    u32_from_le,
};
use crate::frame::{ACKS_MAX, ACK_LEN, CRC_LEN, DATA_HEADER_BODY_LEN, FRAME_HEADER_LEN};
use crate::protocol::{
    law_ack_layout, Ack, CHUNK_LEN_MAX, CHUNK_PAYLOAD_MAX, MAGIC_0, MAGIC_1, PACKET_ACK,
    PACKET_DATA,
};
use crate::reassembly::{
    law_complete_packet_has_every_chunk, law_overwriting_changes_one_place, overwrite, overwritten,
    RxPacket, RxState, CHUNKS_MAX,
};

verus! {

/// Bytes of the smallest frame: magic, length, type and CRC.
pub const FRAME_LEN_MIN: usize = 8;

/// Most bytes that are left over when the reader waits for more.
pub const PENDING_MAX: usize = CHUNK_LEN_MAX + CRC_LEN - 1;

/// Size of the reader's own buffer.
pub const READ_BUFFER_LEN: usize = 3 * CHUNK_PAYLOAD_MAX;

/// Whether no frame can start with the first of the bytes `s`, as far as they
/// go: the second byte, the type and the length are looked at only where the
/// smallest frame fits.
pub open spec fn rules_out(s: Seq<u8>) -> bool {
    ||| s[0] != MAGIC_0
    ||| s.len() >= FRAME_LEN_MIN && (s[1] != MAGIC_1 || (s[3] != PACKET_DATA && s[3] != PACKET_ACK)
        || s[2] > CHUNK_LEN_MAX)
}

/// Whether the bytes `s` hold all of the frame that they start with.
pub open spec fn holds_frame(s: Seq<u8>) -> bool {
    s.len() >= FRAME_LEN_MIN && s.len() >= frame_end(s)
}

/// Number of bytes of the frame that `s` starts with, its CRC included.
pub open spec fn frame_end(s: Seq<u8>) -> int {
    s[2] + CRC_LEN
}

/// The bytes that the CRC covers.
pub open spec fn frame_checked(s: Seq<u8>) -> Seq<u8> {
    s.take(s[2] as int)
}

/// The CRC that the frame carries.
pub open spec fn frame_crc(s: Seq<u8>) -> u32 {
    from_le32(s.skip(s[2] as int))
}

/// What stands between the header and the CRC.
pub open spec fn frame_body(s: Seq<u8>) -> Seq<u8> {
    s.subrange(FRAME_HEADER_LEN as int, s[2] as int)
}

/// The bytes `s` from the first position on at which a frame may start.
pub open spec fn skip_noise(s: Seq<u8>) -> Seq<u8>
    decreases s.len(),
{
    if s.len() > 0 && rules_out(s) {
        skip_noise(s.skip(1))
    } else {
        s
    }
}

/// One chunk of a packet, as a `DATA` frame carries it.
pub ghost struct Chunk {
    pub packet_id: u16,
    pub packet_length: u32,
    pub chunk_offset: u32,
    pub payload: Seq<u8>,
}

impl Chunk {
    /// The chunk in the body of a `DATA` frame, if the body is long enough.
    pub open spec fn in_body(body: Seq<u8>) -> Option<Chunk> {
        if body.len() < DATA_HEADER_BODY_LEN {
            None
        } else {
            Some(
                Chunk {
                    packet_id: from_le16(body),
                    packet_length: from_le32(body.skip(2)),
                    chunk_offset: from_le32(body.skip(6)),
                    payload: body.skip(DATA_HEADER_BODY_LEN as int),
                },
            )
        }
    }

    /// Position of the payload in the packet.
    pub open spec fn start(self) -> int {
        self.chunk_offset * CHUNK_PAYLOAD_MAX
    }

    /// Whether the packet fits a buffer of `n_buf` bytes and the payload is as
    /// long as its place in the packet asks: a full chunk, or what is left.
    pub open spec fn fits(self, n_buf: nat) -> bool {
        &&& self.packet_length <= n_buf
        &&& self.start() <= self.packet_length
        &&& self.payload.len() == if self.packet_length - self.start() <= CHUNK_PAYLOAD_MAX {
            self.packet_length - self.start()
        } else {
            CHUNK_PAYLOAD_MAX as int
        }
    }

    /// Why the chunk does not fit a buffer of `n_buf` bytes, if it does not.
    pub open spec fn fault(self, n_buf: nat) -> Option<FrameFault> {
        if self.packet_length > n_buf {
            Some(FrameFault::PacketTooLong)
        } else if self.start() + self.payload.len() > self.packet_length {
            Some(FrameFault::BeyondPacket)
        } else if !self.fits(n_buf) {
            Some(
                FrameFault::PayloadLength {
                    payload_length: self.payload.len() as usize,
                    chunk_offset: self.chunk_offset,
                    packet_length: self.packet_length,
                },
            )
        } else {
            None
        }
    }

    /// The record that acknowledges the chunk.
    pub open spec fn ack(self) -> Ack {
        Ack { packet_id: self.packet_id, chunk_offset: self.chunk_offset }
    }
}

/// Why a frame is passed over.
#[derive(Debug, Clone, Copy, PartialEq, Eq, Structural)]
pub enum FrameFault {
    /// Its CRC is wrong.
    Crc,
    /// It is too short for its own header.
    Header,
    /// It is a `DATA` frame, and too short for the fields in front of the payload.
    DataHeader,
    /// Its chunk is of a packet that does not fit the buffers.
    PacketTooLong,
    /// Its chunk goes beyond the end of its packet.
    BeyondPacket,
    /// Its payload is shorter or longer than its place in the packet asks.
    PayloadLength { payload_length: usize, chunk_offset: u32, packet_length: u32 },
}

/// What is wrong with the body of a `DATA` frame, if anything is.
pub open spec fn body_fault(body: Seq<u8>, n_buf: nat) -> Option<FrameFault> {
    match Chunk::in_body(body) {
        Some(chunk) => chunk.fault(n_buf),
        None => Some(FrameFault::DataHeader),
    }
}

/// The records in the body of an `ACK` frame; bytes behind the last whole
/// record do not count.
pub open spec fn acks_in(body: Seq<u8>) -> Seq<Ack> {
    Seq::new(body.len() / ACK_LEN as nat, |i: int| Ack::decoded(body.skip(i * ACK_LEN)))
}

/// What the reader waits for.
#[derive(Debug, Clone, Copy, PartialEq, Eq, Structural)]
pub enum Phase {
    /// More bytes from the link.
    Reading,
    /// The CRC of the frame in front.
    Checking,
    /// A buffer for a new packet, whose chunk is in front.
    Taking,
    /// The place where the chunk in front is to be stored.
    Storing,
    /// Being told to go on, after an output.
    Ready,
}

/// What the caller of a [`PacketReader`] is to do next.
#[derive(Debug)]
pub enum ReadAction {
    /// Read at most [`CHUNK_LEN_MAX`] bytes and call [`PacketReader::on_read`].
    Read,
    /// Compute the CRC of [`PacketReader::crc_input`] and call
    /// [`PacketReader::on_crc`].
    CheckCrc,
    /// Give back the buffer that is held, if any, try to take one from the pool
    /// and call [`PacketReader::on_buffer`].
    TakeBuffer,
    /// Queue the record for the peer, if there is room, and call
    /// [`PacketReader::on_store`] with the buffer that is held.
    StoreChunk(Ack),
    /// Queue the record for the peer, if there is room, and call
    /// [`PacketReader::resume`].
    SendAck(Ack),
    /// Hand the records to the local sender, as far as there is room, and call
    /// [`PacketReader::resume`].
    ForwardAcks(AckList),
    /// Hand so many bytes of the buffer that is held to the application, and
    /// call [`PacketReader::resume`].
    Deliver(usize),
}

/// What a [`ReadAction`] says.
pub ghost enum ReadStep {
    Read,
    CheckCrc,
    TakeBuffer,
    StoreChunk(Ack),
    SendAck(Ack),
    ForwardAcks(Seq<Ack>),
    Deliver(nat),
}

impl View for ReadAction {
    type V = ReadStep;

    open spec fn view(&self) -> ReadStep {
        match self {
            ReadAction::Read => ReadStep::Read,
            ReadAction::CheckCrc => ReadStep::CheckCrc,
            ReadAction::TakeBuffer => ReadStep::TakeBuffer,
            ReadAction::StoreChunk(ack) => ReadStep::StoreChunk(*ack),
            ReadAction::SendAck(ack) => ReadStep::SendAck(*ack),
            ReadAction::ForwardAcks(acks) => ReadStep::ForwardAcks(acks@),
            ReadAction::Deliver(length) => ReadStep::Deliver(*length as nat),
        }
    }
}

/// The state of the reading end.
#[verifier::ext_equal]
pub ghost struct ReaderState {
    /// Size of the buffers that packets are reassembled in.
    pub n_buf: nat,
    pub phase: Phase,
    /// The bytes that have been read and not been dealt with.
    pub pending: Seq<u8>,
    /// The packet that is being received.
    pub packet: Option<RxState>,
    /// The id of the packet that was received last.
    pub last_id: Option<u16>,
}

impl ReaderState {
    /// The state before anything has been read.
    pub open spec fn initial(n_buf: nat) -> ReaderState {
        ReaderState {
            n_buf,
            phase: Phase::Reading,
            pending: Seq::empty(),
            packet: None,
            last_id: None,
        }
    }

    /// The chunk in the frame in front.
    pub open spec fn chunk(self) -> Option<Chunk> {
        Chunk::in_body(frame_body(self.pending))
    }

    /// Whether the frame in front is a `DATA` frame with a chunk that fits.
    pub open spec fn has_chunk(self) -> bool {
        &&& holds_frame(self.pending)
        &&& self.pending[2] >= FRAME_HEADER_LEN
        &&& self.chunk() matches Some(chunk) && chunk.fits(self.n_buf)
    }

    /// What holds of every state that the reader gets into.
    pub open spec fn wf(self) -> bool {
        &&& self.packet matches Some(packet) ==> packet.wf() && packet.packet_length <= self.n_buf
        &&& match self.phase {
            Phase::Reading => self.pending.len() <= PENDING_MAX && skip_noise(self.pending)
                == self.pending && !holds_frame(self.pending),
            Phase::Checking => skip_noise(self.pending) == self.pending && holds_frame(
                self.pending,
            ),
            Phase::Taking => self.has_chunk() && self.packet is None,
            Phase::Storing => self.has_chunk() && self.packet is Some
                && self.packet->Some_0.packet_id == self.chunk()->Some_0.packet_id,
            Phase::Ready => true,
        }
    }

    /// Goes on to the next frame: past what no frame starts with, and then to
    /// its CRC, if all of it is there.
    pub open spec fn scan(self) -> (ReaderState, ReadStep) {
        let pending = skip_noise(self.pending);
        if holds_frame(pending) {
            (ReaderState { phase: Phase::Checking, pending, ..self }, ReadStep::CheckCrc)
        } else {
            (ReaderState { phase: Phase::Reading, pending, ..self }, ReadStep::Read)
        }
    }

    /// The state without the first `n` bytes.
    pub open spec fn dropped(self, n: int) -> ReaderState {
        ReaderState { phase: Phase::Ready, pending: self.pending.skip(n), ..self }
    }

    /// The state without the frame in front.
    pub open spec fn past_frame(self) -> ReaderState {
        self.dropped(frame_end(self.pending))
    }

    /// After `data` has been read.
    pub open spec fn on_read(self, data: Seq<u8>) -> (ReaderState, ReadStep) {
        ReaderState { pending: self.pending + data, ..self }.scan()
    }

    /// After the CRC of the frame in front has been computed as `crc`: a frame
    /// that carries another one gives way to what starts behind its first byte.
    pub open spec fn on_crc(self, crc: u32) -> (ReaderState, ReadStep) {
        if crc != frame_crc(self.pending) {
            self.dropped(1).scan()
        } else if self.pending[2] < FRAME_HEADER_LEN {
            self.past_frame().scan()
        } else if self.pending[3] == PACKET_ACK {
            (self.past_frame(), ReadStep::ForwardAcks(acks_in(frame_body(self.pending))))
        } else {
            self.on_chunk()
        }
    }

    /// Why the frame in front is passed over once its CRC has been computed as
    /// `crc`, if it is.
    pub open spec fn fault(self, crc: u32) -> Option<FrameFault> {
        if crc != frame_crc(self.pending) {
            Some(FrameFault::Crc)
        } else if self.pending[2] < FRAME_HEADER_LEN {
            Some(FrameFault::Header)
        } else if self.pending[3] == PACKET_ACK {
            None
        } else {
            body_fault(frame_body(self.pending), self.n_buf)
        }
    }

    /// With a `DATA` frame in front whose CRC is right: a chunk that does not
    /// fit is passed over, one of the packet that was received last is only
    /// acknowledged, and one of a packet that is not being received displaces
    /// the one that is.
    pub open spec fn on_chunk(self) -> (ReaderState, ReadStep) {
        if !self.has_chunk() {
            self.past_frame().scan()
        } else {
            let chunk = self.chunk()->Some_0;
            if self.last_id == Some(chunk.packet_id) {
                (self.past_frame(), ReadStep::SendAck(chunk.ack()))
            } else if self.packet is Some && self.packet->Some_0.packet_id == chunk.packet_id {
                (
                    ReaderState { phase: Phase::Storing, ..self },
                    ReadStep::StoreChunk(chunk.ack()),
                )
            } else {
                (
                    ReaderState { phase: Phase::Taking, packet: None, ..self },
                    ReadStep::TakeBuffer,
                )
            }
        }
    }

    /// After the pool was asked for a buffer: without one the chunk is passed
    /// over, and is not acknowledged.
    pub open spec fn on_buffer(self, taken: bool) -> (ReaderState, ReadStep) {
        if taken {
            let chunk = self.chunk()->Some_0;
            (
                ReaderState {
                    phase: Phase::Storing,
                    packet: Some(RxState::start(chunk.packet_id, chunk.packet_length as nat)),
                    ..self
                },
                ReadStep::StoreChunk(chunk.ack()),
            )
        } else {
            self.past_frame().scan()
        }
    }

    /// What the buffer `buf` of the packet holds once the chunk in front is
    /// stored.
    pub open spec fn stored(self, buf: Seq<u8>) -> Seq<u8> {
        let chunk = self.chunk()->Some_0;
        overwritten(buf, chunk.start(), chunk.payload)
    }

    /// After the chunk in front has been stored: the packet is handed over as
    /// soon as all its chunks are there.
    pub open spec fn on_store(self) -> (ReaderState, ReadStep) {
        let chunk = self.chunk()->Some_0;
        let packet = self.packet->Some_0.with_chunk(
            chunk.chunk_offset as int,
            chunk.payload.len(),
        );
        if packet.is_complete() {
            (
                ReaderState {
                    packet: None,
                    last_id: Some(packet.packet_id),
                    ..self.past_frame()
                },
                ReadStep::Deliver(packet.packet_length),
            )
        } else {
            ReaderState { packet: Some(packet), ..self.past_frame() }.scan()
        }
    }
}

/// Skipping what no frame starts with leaves nothing more to skip.
pub proof fn lemma_skip_noise_done(s: Seq<u8>)
    ensures
        skip_noise(skip_noise(s)) == skip_noise(s),
        skip_noise(s).len() <= s.len(),
        skip_noise(s).len() > 0 ==> !rules_out(skip_noise(s)),
    decreases s.len(),
{
    if s.len() > 0 && rules_out(s) {
        lemma_skip_noise_done(s.skip(1));
    }
}

/// The reading end of a link.
#[derive(Debug)]
pub struct PacketReader {
    n_buf: usize,
    phase: Phase,
    chunk_buffer: [u8; READ_BUFFER_LEN],
    buffer_start: usize,
    chunk_buffer_count: usize,
    rx_packet: Option<RxPacket>,
    last_successfully_received_packet: Option<u16>,
}

impl View for PacketReader {
    type V = ReaderState;

    closed spec fn view(&self) -> ReaderState {
        ReaderState {
            n_buf: self.n_buf as nat,
            phase: self.phase,
            pending: self.pending(),
            packet: match self.rx_packet {
                Some(packet) => Some(packet@),
                None => None,
            },
            last_id: self.last_successfully_received_packet,
        }
    }
}

impl PacketReader {
    spec fn pending(self) -> Seq<u8> {
        self.chunk_buffer@.subrange(self.buffer_start as int, self.chunk_buffer_count as int)
    }

    spec fn buffer_wf(self) -> bool {
        &&& self.buffer_start <= self.chunk_buffer_count <= PENDING_MAX + CHUNK_LEN_MAX
        &&& self.rx_packet matches Some(packet) ==> packet.wf() && packet@.wf()
            && packet@.packet_length <= self.n_buf
    }

    /// What holds of every reader between two calls.
    pub closed spec fn wf(self) -> bool {
        &&& self.buffer_wf()
        &&& self.phase == Phase::Reading ==> self.buffer_start == 0
        &&& self@.wf()
    }

    /// A reader that reassembles packets in buffers of `n_buf` bytes.
    pub fn new(n_buf: usize) -> (reader: PacketReader)
        ensures
            reader.wf(),
            reader@ == ReaderState::initial(n_buf as nat),
            reader@.n_buf == n_buf,
            reader@.phase == Phase::Reading,
            reader@.pending == Seq::<u8>::empty(),
            reader@.packet is None,
            reader@.last_id is None,
    {
        let reader = PacketReader {
            n_buf,
            phase: Phase::Reading,
            chunk_buffer: [0;READ_BUFFER_LEN],
            buffer_start: 0,
            chunk_buffer_count: 0,
            rx_packet: None,
            last_successfully_received_packet: None,
        };
        assert(reader@.pending =~= Seq::empty());
        reader
    }

    /// Whether no frame starts with the first pending byte.
    fn front_ruled_out(&self) -> (out: bool)
        requires
            self.buffer_wf(),
            self.pending().len() > 0,
        ensures
            out == rules_out(self.pending()),
    {
        let at: usize = self.buffer_start;
        if self.chunk_buffer[at] != MAGIC_0 {
            return true;
        }
        if self.chunk_buffer_count - at < FRAME_LEN_MIN {
            return false;
        }
        let kind: u8 = self.chunk_buffer[at + 3];
        self.chunk_buffer[at + 1] != MAGIC_1 || (kind != PACKET_DATA && kind != PACKET_ACK)
            || self.chunk_buffer[at + 2] as usize > CHUNK_LEN_MAX
    }

    /// Whether all of the frame in front is there.
    fn front_complete(&self) -> (complete: bool)
        requires
            self.buffer_wf(),
        ensures
            complete == holds_frame(self.pending()),
    {
        let len: usize = self.chunk_buffer_count - self.buffer_start;
        len >= FRAME_LEN_MIN && len >= self.chunk_buffer[self.buffer_start + 2] as usize + CRC_LEN
    }

    /// Moves the pending bytes to the start of the buffer.
    fn compact(&mut self)
        requires
            old(self).buffer_wf(),
        ensures
            final(self).buffer_wf(),
            final(self).buffer_start == 0,
            final(self)@ == old(self)@,
    {
        let ghost before = *self;
        let len: usize = self.chunk_buffer_count - self.buffer_start;
        let mut i: usize = 0;
        while i < len
            invariant
                i <= len,
                len == before.chunk_buffer_count - before.buffer_start,
                before.buffer_wf(),
                self.buffer_start == before.buffer_start,
                self.chunk_buffer_count == before.chunk_buffer_count,
                self.n_buf == before.n_buf,
                self.phase == before.phase,
                self.rx_packet == before.rx_packet,
                self.last_successfully_received_packet
                    == before.last_successfully_received_packet,
                forall|k: int| 0 <= k < i ==> #[trigger] self.chunk_buffer@[k]
                    == before.chunk_buffer@[before.buffer_start + k],
                forall|k: int| i <= k < READ_BUFFER_LEN ==> #[trigger] self.chunk_buffer@[k]
                    == before.chunk_buffer@[k],
            decreases len - i,
        {
            self.chunk_buffer[i] = self.chunk_buffer[self.buffer_start + i];
            i += 1;
        }
        self.buffer_start = 0;
        self.chunk_buffer_count = len;
        assert(self.pending() =~= before.pending());
    }

    /// Goes on to the next frame.
    fn scan(&mut self) -> (action: ReadAction)
        requires
            old(self).buffer_wf(),
        ensures
            final(self).wf(),
            (final(self)@, action@) == old(self)@.scan(),
    {
        let ghost before = *self;
        while self.buffer_start < self.chunk_buffer_count
            invariant
                self.buffer_wf(),
                self.n_buf == before.n_buf,
                self.rx_packet == before.rx_packet,
                self.last_successfully_received_packet
                    == before.last_successfully_received_packet,
                skip_noise(self.pending()) == skip_noise(before.pending()),
            ensures
                self.pending() == skip_noise(before.pending()),
            decreases self.chunk_buffer_count - self.buffer_start,
        {
            if !self.front_ruled_out() {
                break;
            }
            let ghost pending = self.pending();
            self.buffer_start = self.buffer_start + 1;
            assert(self.pending() =~= pending.skip(1));
        }
        proof {
            lemma_skip_noise_done(before.pending());
        }
        if self.front_complete() {
            self.phase = Phase::Checking;
            ReadAction::CheckCrc
        } else {
            self.compact();
            self.phase = Phase::Reading;
            ReadAction::Read
        }
    }

    /// Takes in the bytes that were read from the link.
    pub fn on_read(&mut self, data: &[u8]) -> (action: ReadAction)
        requires
            old(self).wf(),
            old(self)@.phase == Phase::Reading,
            data@.len() <= CHUNK_LEN_MAX,
        ensures
            final(self).wf(),
            (final(self)@, action@) == old(self)@.on_read(data@),
            ({
                let all = old(self)@.pending + data@;
                let n = all.len() - final(self)@.pending.len();
                &&& n >= 0
                &&& final(self)@.pending == all.skip(n)
                &&& forall|i: int|
                    0 <= i < n ==> #[trigger] all[i] != 0x5E || all.len() - i >= 8 && (all[i + 1]
                        != 0x5E || all[i + 2] > 146 || (all[i + 3] != 0xDA && all[i + 3] != 0xAC))
                &&& n < all.len() ==> all[n] == 0x5E
                &&& all.len() - n >= 8 ==> all[n + 1] == 0x5E && all[n + 2] <= 146 && (all[n + 3]
                    == 0xDA || all[n + 3] == 0xAC)
                &&& if all.len() - n >= 8 && all.len() - n >= all[n + 2] + 4 {
                    action is CheckCrc && final(self)@.phase == Phase::Checking
                } else {
                    action is Read && final(self)@.phase == Phase::Reading
                }
            }),
            final(self)@.n_buf == old(self)@.n_buf,
            final(self)@.packet == old(self)@.packet,
            final(self)@.last_id == old(self)@.last_id,
    {
        proof {
            law_read_goes_behind_what_is_left(self@, data@);
        }
        let ghost before = *self;
        let mut i: usize = 0;
        while i < data.len()
            invariant
                i <= data@.len() <= CHUNK_LEN_MAX,
                before.wf(),
                before.phase == Phase::Reading,
                self.buffer_start == before.buffer_start,
                self.chunk_buffer_count == before.chunk_buffer_count + i,
                self.n_buf == before.n_buf,
                self.rx_packet == before.rx_packet,
                self.last_successfully_received_packet
                    == before.last_successfully_received_packet,
                self.pending() == before.pending() + data@.take(i as int),
            decreases data@.len() - i,
        {
            let ghost pending = self.pending();
            self.chunk_buffer[self.chunk_buffer_count] = data[i];
            self.chunk_buffer_count = self.chunk_buffer_count + 1;
            assert(self.pending() =~= pending.push(data@[i as int]));
            assert(data@.take(i + 1) =~= data@.take(i as int).push(data@[i as int]));
            assert(self.pending() =~= before.pending() + data@.take(i + 1));
            i += 1;
        }
        assert(data@.take(i as int) =~= data@);
        self.scan()
    }

    /// The bytes of the frame in front that its CRC covers.
    pub fn crc_input(&self) -> (bytes: &[u8])
        requires
            self.wf(),
            self@.phase == Phase::Checking,
        ensures
            bytes@ == frame_checked(self@.pending),
            bytes@.len() == self@.pending[2],
            bytes@ == self@.pending.take(bytes@.len() as int),
    {
        let at: usize = self.buffer_start;
        let len: usize = self.chunk_buffer[at + 2] as usize;
        let bytes = slice_subrange(self.chunk_buffer.as_slice(), at, at + len);
        assert(bytes@ =~= frame_checked(self@.pending));
        bytes
    }

    /// Passes over the first `n` pending bytes and goes on.
    fn drop_and_scan(&mut self, n: usize) -> (action: ReadAction)
        requires
            old(self).buffer_wf(),
            n <= old(self).pending().len(),
        ensures
            final(self).wf(),
            (final(self)@, action@) == old(self)@.dropped(n as int).scan(),
    {
        let ghost before = *self;
        self.buffer_start = self.buffer_start + n;
        assert(self.pending() =~= before.pending().skip(n as int));
        self.scan()
    }

    /// Passes over the first `n` pending bytes and waits to be told to go on.
    fn drop_and_rest(&mut self, n: usize)
        requires
            old(self).buffer_wf(),
            n <= old(self).pending().len(),
        ensures
            final(self).wf(),
            final(self)@ == old(self)@.dropped(n as int),
    {
        let ghost before = *self;
        self.buffer_start = self.buffer_start + n;
        self.phase = Phase::Ready;
        assert(self.pending() =~= before.pending().skip(n as int));
    }

    /// Number of bytes of the frame in front, its CRC included.
    fn front_end(&self) -> (end: usize)
        requires
            self.buffer_wf(),
            holds_frame(self.pending()),
        ensures
            end == frame_end(self.pending()),
    {
        self.chunk_buffer[self.buffer_start + 2] as usize + CRC_LEN
    }

    /// The body of the frame in front.
    fn front_body(&self) -> (body: &[u8])
        requires
            self.buffer_wf(),
            holds_frame(self.pending()),
            self.pending()[2] >= FRAME_HEADER_LEN,
        ensures
            body@ == frame_body(self.pending()),
    {
        let at: usize = self.buffer_start;
        let len: usize = self.chunk_buffer[at + 2] as usize;
        let body = slice_subrange(self.chunk_buffer.as_slice(), at + FRAME_HEADER_LEN, at + len);
        assert(body@ =~= frame_body(self.pending()));
        body
    }

    /// Why [`PacketReader::on_crc`] will pass over the frame in front, if it will.
    pub fn frame_fault(&self, crc: u32) -> (fault: Option<FrameFault>)
        requires
            self.wf(),
            self@.phase == Phase::Checking,
        ensures
            fault == self@.fault(crc),
    {
        if crc != self.front_crc() {
            return Some(FrameFault::Crc);
        }
        let at: usize = self.buffer_start;
        if (self.chunk_buffer[at + 2] as usize) < FRAME_HEADER_LEN {
            return Some(FrameFault::Header);
        }
        if self.chunk_buffer[at + 3] == PACKET_ACK {
            return None;
        }
        match decode_data_header(self.front_body(), self.n_buf) {
            Ok(_) => None,
            Err(fault) => Some(fault),
        }
    }

    /// The CRC that the frame in front carries.
    fn front_crc(&self) -> (crc: u32)
        requires
            self.buffer_wf(),
            holds_frame(self.pending()),
        ensures
            crc == frame_crc(self.pending()),
    {
        let at: usize = self.buffer_start;
        let len: usize = self.chunk_buffer[at + 2] as usize;
        proof {
            let trailer = self.chunk_buffer@.skip(at + len);
            assert(forall|k: int|
                0 <= k < 4 ==> trailer[k] == #[trigger] self.pending().skip(len as int)[k]);
        }
        u32_from_le(self.chunk_buffer.as_slice(), at + len)
    }

    /// Takes in the CRC of [`PacketReader::crc_input`].
    pub fn on_crc(&mut self, crc: u32) -> (action: ReadAction)
        requires
            old(self).wf(),
            old(self)@.phase == Phase::Checking,
        ensures
            final(self).wf(),
            (final(self)@, action@) == old(self)@.on_crc(crc),
    {
        let at: usize = self.buffer_start;
        let len: usize = self.chunk_buffer[at + 2] as usize;
        if crc != self.front_crc() {
            return self.drop_and_scan(1);
        }
        let end: usize = self.front_end();
        if len < FRAME_HEADER_LEN {
            return self.drop_and_scan(end);
        }
        if self.chunk_buffer[at + 3] == PACKET_ACK {
            proof {
                lemma_skip_noise_done(self.pending());
            }
            let acks = decode_acks(self.front_body());
            self.drop_and_rest(end);
            return ReadAction::ForwardAcks(acks);
        }
        self.on_chunk(end)
    }

    /// Decides on the chunk in front.
    fn on_chunk(&mut self, end: usize) -> (action: ReadAction)
        requires
            old(self).buffer_wf(),
            holds_frame(old(self).pending()),
            old(self).pending()[2] >= FRAME_HEADER_LEN,
            end == frame_end(old(self).pending()),
        ensures
            final(self).wf(),
            (final(self)@, action@) == old(self)@.on_chunk(),
    {
        let body = self.front_body();
        let header = match decode_data_header(body, self.n_buf) {
            Ok(header) => header,
            Err(_) => {
                return self.drop_and_scan(end);
            },
        };
        let ack = Ack { packet_id: header.packet_id, chunk_offset: header.chunk_offset };
        if let Some(last) = self.last_successfully_received_packet {
            if last == header.packet_id {
                self.drop_and_rest(end);
                return ReadAction::SendAck(ack);
            }
        }
        if let Some(packet) = &self.rx_packet {
            if packet.packet_id() == header.packet_id {
                self.phase = Phase::Storing;
                return ReadAction::StoreChunk(ack);
            }
        }
        self.rx_packet = None;
        self.phase = Phase::Taking;
        ReadAction::TakeBuffer
    }

    /// The id and the length of the packet that a buffer is asked for.
    pub fn new_packet(&self) -> (packet: (u16, u32))
        requires
            self.wf(),
            self@.phase == Phase::Taking,
        ensures
            packet.0 == self@.chunk()->Some_0.packet_id,
            packet.1 == self@.chunk()->Some_0.packet_length,
            packet.0 == self@.pending[4] + 256 * self@.pending[5],
            packet.1 == self@.pending[6] + 256 * self@.pending[7] + 65536 * self@.pending[8]
                + 16777216 * self@.pending[9],
    {
        proof {
            law_chunk_layout(self@.pending);
        }
        let body = self.front_body();
        assert(body@.skip(0) =~= body@);
        (u16_from_le(body, 0), u32_from_le(body, 2))
    }

    /// Takes in whether the pool had a buffer.
    pub fn on_buffer(&mut self, taken: bool) -> (action: ReadAction)
        requires
            old(self).wf(),
            old(self)@.phase == Phase::Taking,
        ensures
            final(self).wf(),
            (final(self)@, action@) == old(self)@.on_buffer(taken),
    {
        let end: usize = self.front_end();
        if !taken {
            return self.drop_and_scan(end);
        }
        let body = self.front_body();
        let packet_id = u16_from_le(body, 0);
        let packet_length = u32_from_le(body, 2);
        let chunk_offset = u32_from_le(body, 6);
        self.rx_packet = Some(RxPacket::new(packet_id, packet_length as usize));
        self.phase = Phase::Storing;
        ReadAction::StoreChunk(Ack { packet_id, chunk_offset })
    }

    /// Stores the chunk in front in the buffer of its packet.
    pub fn on_store(&mut self, buf: &mut [u8]) -> (action: ReadAction)
        requires
            old(self).wf(),
            old(self)@.phase == Phase::Storing,
            old(self)@.chunk()->Some_0.chunk_offset < CHUNKS_MAX,
            old(buf)@.len() == old(self)@.n_buf,
        ensures
            final(self).wf(),
            (final(self)@, action@) == old(self)@.on_store(),
            final(buf)@ == old(self)@.stored(old(buf)@),
    {
        let ghost before = *self;
        let end: usize = self.front_end();
        let body = self.front_body();
        let chunk_offset: usize = u32_from_le(body, 6) as usize;
        let payload = slice_subrange(body, DATA_HEADER_BODY_LEN, body.len());
        assert(payload@ =~= body@.skip(DATA_HEADER_BODY_LEN as int));
        overwrite(buf, chunk_offset * CHUNK_PAYLOAD_MAX, payload);
        if let Some(packet) = self.rx_packet {
            let mut packet = packet;
            packet.mark(chunk_offset, payload.len());
            if packet.is_complete() {
                self.rx_packet = None;
                self.last_successfully_received_packet = Some(packet.packet_id());
                self.drop_and_rest(end);
                return ReadAction::Deliver(packet.packet_length());
            }
            self.rx_packet = Some(packet);
        }
        self.drop_and_scan(end)
    }

    /// Goes on after an output.
    pub fn resume(&mut self) -> (action: ReadAction)
        requires
            old(self).wf(),
            old(self)@.phase == Phase::Ready,
        ensures
            final(self).wf(),
            (final(self)@, action@) == old(self)@.scan(),
    {
        self.scan()
    }
}

/// A reader that waits for bytes has a bounded backlog: what is left over can
/// still become a frame, is less than one, and leaves room for the next read.
pub proof fn law_backlog_is_bounded(reader: PacketReader)
    requires
        reader.wf(),
    ensures
        reader@.wf(),
        reader@.phase == Phase::Reading ==> {
            &&& reader@.pending.len() <= PENDING_MAX
            &&& !holds_frame(reader@.pending)
            &&& reader@.pending.len() > 0 ==> !rules_out(reader@.pending)
        },
{
    lemma_skip_noise_done(reader@.pending);
}

/// A frame is passed over, with nothing to be done about it, exactly if there is a
/// fault: with a wrong CRC its first byte is dropped, otherwise all of it.
pub proof fn law_faulty_frames_are_passed_over(state: ReaderState, crc: u32)
    requires
        holds_frame(state.pending),
    ensures
        match state.fault(crc) {
            Some(FrameFault::Crc) => state.on_crc(crc) == state.dropped(1).scan(),
            Some(_) => state.on_crc(crc) == state.past_frame().scan(),
            None => state.on_crc(crc).1 !is Read && state.on_crc(crc).1 !is CheckCrc,
        },
{
}

/// Every chunk of a packet that fits a buffer of less than 16384 bytes can be
/// tracked.
pub proof fn law_chunks_of_small_packets_are_tracked(chunk: Chunk, n_buf: nat)
    requires
        chunk.fits(n_buf),
        n_buf < CHUNKS_MAX * CHUNK_PAYLOAD_MAX,
    ensures
        chunk.chunk_offset < CHUNKS_MAX,
{
}

/// An action says what it holds: the view of it adds nothing and changes nothing.
pub proof fn law_actions_say_what_they_hold(ack: Ack, acks: AckList, length: usize)
    ensures
        ReadAction::Read@ == ReadStep::Read,
        ReadAction::CheckCrc@ == ReadStep::CheckCrc,
        ReadAction::TakeBuffer@ == ReadStep::TakeBuffer,
        ReadAction::StoreChunk(ack)@ == ReadStep::StoreChunk(ack),
        ReadAction::SendAck(ack)@ == ReadStep::SendAck(ack),
        ReadAction::ForwardAcks(acks)@ == ReadStep::ForwardAcks(acks@),
        ReadAction::Deliver(length)@ == ReadStep::Deliver(length as nat),
{
}

/// Going on drops bytes from the front, and only those that no frame starts with:
/// a byte other than the magic one, or, where eight bytes are there, one that the
/// second magic byte, a known type and a length of at most 146 do not follow.  It
/// stops at the first byte that may start a frame, and asks for its CRC exactly if
/// all of the frame is there.
pub proof fn law_scan_stops_at_the_next_frame(state: ReaderState)
    ensures
        ({
            let s = state.pending;
            let (after, step) = state.scan();
            let n = s.len() - after.pending.len();
            &&& n >= 0
            &&& after.pending == s.skip(n)
            &&& forall|i: int|
                0 <= i < n ==> #[trigger] s[i] != 0x5E || s.len() - i >= 8 && (s[i + 1] != 0x5E
                    || s[i + 2] > 146 || (s[i + 3] != 0xDA && s[i + 3] != 0xAC))
            &&& n < s.len() ==> s[n] == 0x5E
            &&& s.len() - n >= 8 ==> s[n + 1] == 0x5E && s[n + 2] <= 146 && (s[n + 3] == 0xDA || s[n
                + 3] == 0xAC)
            &&& if s.len() - n >= 8 && s.len() - n >= s[n + 2] + 4 {
                step == ReadStep::CheckCrc && after.phase == Phase::Checking
            } else {
                step == ReadStep::Read && after.phase == Phase::Reading
            }
            &&& after.n_buf == state.n_buf
            &&& after.packet == state.packet
            &&& after.last_id == state.last_id
        }),
{
    lemma_skipped(state.pending);
    let n = state.pending.len() - skip_noise(state.pending).len();
    assert(forall|k: int|
        0 <= k < state.pending.len() - n ==> #[trigger] state.pending.skip(n)[k] == state.pending[n
            + k]);
}

/// What is skipped, and what is not.
proof fn lemma_skipped(s: Seq<u8>)
    ensures
        skip_noise(s).len() <= s.len(),
        skip_noise(s) == s.skip(s.len() - skip_noise(s).len()),
        skip_noise(s).len() > 0 ==> !rules_out(skip_noise(s)),
        forall|i: int|
            0 <= i < s.len() - skip_noise(s).len() ==> #[trigger] s[i] != 0x5E || s.len() - i >= 8
                && (s[i + 1] != 0x5E || s[i + 2] > 146 || (s[i + 3] != 0xDA && s[i + 3] != 0xAC)),
    decreases s.len(),
{
    if s.len() > 0 && rules_out(s) {
        let t = s.skip(1);
        lemma_skipped(t);
        let m = t.len() - skip_noise(t).len();
        assert(t.skip(m) =~= s.skip(m + 1));
        assert forall|i: int| 0 <= i < m + 1 implies #[trigger] s[i] != 0x5E || s.len() - i >= 8 && (
        s[i + 1] != 0x5E || s[i + 2] > 146 || (s[i + 3] != 0xDA && s[i + 3] != 0xAC)) by {
            if i > 0 {
                assert(t[i - 1] == s[i]);
            }
        }
    } else {
        assert(s.skip(0) =~= s);
    }
}

/// What is read goes behind all the bytes that are left over, and nothing of
/// either is lost but what no frame starts with: the reader stops at the first
/// byte, of those left over and those read taken together, that may start a frame.
pub proof fn law_read_goes_behind_what_is_left(state: ReaderState, data: Seq<u8>)
    ensures
        ({
            let all = state.pending + data;
            let (after, step) = state.on_read(data);
            let n = all.len() - after.pending.len();
            &&& n >= 0
            &&& after.pending == all.skip(n)
            &&& forall|i: int|
                0 <= i < n ==> #[trigger] all[i] != 0x5E || all.len() - i >= 8 && (all[i + 1] != 0x5E
                    || all[i + 2] > 146 || (all[i + 3] != 0xDA && all[i + 3] != 0xAC))
            &&& n < all.len() ==> all[n] == 0x5E
            &&& all.len() - n >= 8 ==> all[n + 1] == 0x5E && all[n + 2] <= 146 && (all[n + 3] == 0xDA
                || all[n + 3] == 0xAC)
            &&& if all.len() - n >= 8 && all.len() - n >= all[n + 2] + 4 {
                step == ReadStep::CheckCrc && after.phase == Phase::Checking
            } else {
                step == ReadStep::Read && after.phase == Phase::Reading
            }
            &&& after.n_buf == state.n_buf
            &&& after.packet == state.packet
            &&& after.last_id == state.last_id
        }),
{
    law_scan_stops_at_the_next_frame(
        ReaderState { pending: state.pending + data, ..state },
    );
}

/// Two reads one after the other are one read of all their bytes.
pub proof fn law_reads_add_up(state: ReaderState, a: Seq<u8>, b: Seq<u8>)
    requires
        state.on_read(a).1 == ReadStep::Read,
    ensures
        state.on_read(a).0.on_read(b) == state.on_read(a + b),
{
    lemma_skip_noise_append(state.pending + a, b);
    assert(state.pending + a + b =~= state.pending + (a + b));
}

/// Noise can be skipped before or after more bytes have come.
pub proof fn lemma_skip_noise_append(s: Seq<u8>, more: Seq<u8>)
    ensures
        skip_noise(s + more) == skip_noise(skip_noise(s) + more),
    decreases s.len(),
{
    if s.len() > 0 && rules_out(s) {
        assert((s + more).skip(1) =~= s.skip(1) + more);
        lemma_skip_noise_append(s.skip(1), more);
    }
}

/// A frame whose four bytes of CRC are not what was computed, least significant
/// byte first, loses its first byte, and nothing else comes of it; one that is too
/// short for its own header is dropped.
pub proof fn law_bad_frame_is_dropped(state: ReaderState, crc: u32)
    requires
        state.wf(),
        state.phase == Phase::Checking,
    ensures
        ({
            let p = state.pending;
            let n = p[2] as int;
            let carried = p[n] + 256 * p[n + 1] + 65536 * p[n + 2] + 16777216 * p[n + 3];
            &&& carried != crc ==> state.on_crc(crc) == (ReaderState {
                pending: p.skip(1),
                ..state
            }).scan()
            &&& carried == crc && n < 4 ==> state.on_crc(crc) == (ReaderState {
                pending: p.skip(n + 4),
                ..state
            }).scan()
        }),
{
    law_32_bits_are_little_endian(crc, state.pending.skip(state.pending[2] as int));
}

/// The records of an `ACK` frame with the right CRC are handed on, each of six
/// bytes: the packet id in two and the chunk offset in four, least significant byte
/// first.  The frame is gone then, and nothing else changes.
pub proof fn law_records_are_handed_on(state: ReaderState, crc: u32)
    requires
        state.wf(),
        state.phase == Phase::Checking,
        ({
            let p = state.pending;
            let n = p[2] as int;
            &&& p[n] + 256 * p[n + 1] + 65536 * p[n + 2] + 16777216 * p[n + 3] == crc
            &&& n >= 4
            &&& p[3] == 0xAC
        }),
    ensures
        ({
            let p = state.pending;
            let n = p[2] as int;
            let (after, step) = state.on_crc(crc);
            &&& after == (ReaderState { phase: Phase::Ready, pending: p.skip(n + 4), ..state })
            &&& step matches ReadStep::ForwardAcks(acks) && acks.len() == (n - 4) / 6 && (forall|
                i: int,
            |
                #![trigger acks[i]]
                0 <= i < acks.len() ==> {
                    let at = 4 + 6 * i;
                    &&& acks[i].packet_id == p[at] + 256 * p[at + 1]
                    &&& acks[i].chunk_offset == p[at + 2] + 256 * p[at + 3] + 65536 * p[at + 4]
                        + 16777216 * p[at + 5]
                })
        }),
{
    let p = state.pending;
    let n = p[2] as int;
    law_32_bits_are_little_endian(crc, p.skip(n));
    let body = frame_body(p);
    let acks = acks_in(body);
    assert forall|i: int| #![trigger acks[i]] 0 <= i < acks.len() implies {
        let at = 4 + 6 * i;
        &&& acks[i].packet_id == p[at] + 256 * p[at + 1]
        &&& acks[i].chunk_offset == p[at + 2] + 256 * p[at + 3] + 65536 * p[at + 4] + 16777216 * p[at
            + 5]
    } by {
        let here = body.skip(i * ACK_LEN);
        law_ack_layout(acks[i], here);
        assert(forall|k: int| 0 <= k < 6 ==> #[trigger] here[k] == p[4 + 6 * i + k]);
        assert(here[0] == p[4 + 6 * i + 0]);
    }
}

/// What a `DATA` frame with the right CRC says, and what becomes of it: its chunk
/// is dropped unless the packet fits the buffers and the payload is what the packet
/// has from 128 times the chunk offset on, 128 bytes or what is left; it is only
/// acknowledged if its packet was received last; it is to be stored and
/// acknowledged if its packet is being received; and otherwise a buffer is to be
/// taken for its packet, and the one that was being received is given up.
pub proof fn law_chunk_is_decided_on(state: ReaderState, crc: u32)
    requires
        state.wf(),
        state.phase == Phase::Checking,
        ({
            let p = state.pending;
            let n = p[2] as int;
            &&& p[n] + 256 * p[n + 1] + 65536 * p[n + 2] + 16777216 * p[n + 3] == crc
            &&& n >= 4
            &&& p[3] == 0xDA
        }),
    ensures
        ({
            let p = state.pending;
            let n = p[2] as int;
            let id = p[4] + 256 * p[5];
            let length = p[6] + 256 * p[7] + 65536 * p[8] + 16777216 * p[9];
            let offset = p[10] + 256 * p[11] + 65536 * p[12] + 16777216 * p[13];
            let left = length - 128 * offset;
            let asked = if left < 128 { left } else { 128 };
            let ack = Ack { packet_id: id as u16, chunk_offset: offset as u32 };
            let past = ReaderState { phase: Phase::Ready, pending: p.skip(n + 4), ..state };
            if n < 14 || length > state.n_buf || n - 14 != asked {
                state.on_crc(crc) == past.scan()
            } else if state.last_id is Some && state.last_id->Some_0 == id {
                state.on_crc(crc) == (past, ReadStep::SendAck(ack))
            } else if state.packet is Some && state.packet->Some_0.packet_id == id {
                state.on_crc(crc) == (
                    ReaderState { phase: Phase::Storing, ..state },
                    ReadStep::StoreChunk(ack),
                )
            } else {
                state.on_crc(crc) == (
                    ReaderState { phase: Phase::Taking, packet: None, ..state },
                    ReadStep::TakeBuffer,
                )
            }
        }),
{
    let p = state.pending;
    law_32_bits_are_little_endian(crc, p.skip(p[2] as int));
    if p[2] >= 14 {
        law_chunk_layout(p);
    }
}

/// Where the fields and the payload of a chunk stand in its frame.
pub proof fn law_chunk_layout(p: Seq<u8>)
    requires
        p.len() >= p[2] >= 14,
    ensures
        ({
            let chunk = Chunk::in_body(frame_body(p));
            &&& chunk is Some
            &&& chunk->Some_0.packet_id == p[4] + 256 * p[5]
            &&& chunk->Some_0.packet_length == p[6] + 256 * p[7] + 65536 * p[8] + 16777216 * p[9]
            &&& chunk->Some_0.chunk_offset == p[10] + 256 * p[11] + 65536 * p[12] + 16777216 * p[13]
            &&& chunk->Some_0.payload == p.subrange(14, p[2] as int)
        }),
{
    let body = frame_body(p);
    law_16_bits_are_little_endian(0, body);
    law_32_bits_are_little_endian(0, body.skip(2));
    law_32_bits_are_little_endian(0, body.skip(6));
    assert(body.skip(10) =~= p.subrange(14, p[2] as int));
}

/// A packet starts with the first buffer that is taken for it, with the id and the
/// length that its frame says and nothing stored; without a buffer the frame is
/// dropped, and is not acknowledged.
pub proof fn law_packet_starts_with_its_buffer(state: ReaderState, taken: bool)
    requires
        state.wf(),
        state.phase == Phase::Taking,
    ensures
        ({
            let p = state.pending;
            let n = p[2] as int;
            let (after, step) = state.on_buffer(taken);
            if taken {
                &&& after == (ReaderState { phase: Phase::Storing, packet: after.packet, ..state })
                &&& after.packet is Some
                &&& after.packet->Some_0.packet_id == p[4] + 256 * p[5]
                &&& after.packet->Some_0.packet_length == p[6] + 256 * p[7] + 65536 * p[8] + 16777216
                    * p[9]
                &&& forall|i: int| !after.packet->Some_0.written.contains(i)
                &&& step matches ReadStep::StoreChunk(ack) && ack.packet_id == p[4] + 256 * p[5]
                    && ack.chunk_offset == p[10] + 256 * p[11] + 65536 * p[12] + 16777216 * p[13]
            } else {
                (after, step) == (ReaderState { pending: p.skip(n + 4), ..state }).scan()
            }
        }),
{
    law_chunk_layout(state.pending);
}

/// Storing puts the payload into the buffer at 128 times the chunk offset.  The
/// packet is handed over, with the length that it was started with, exactly if it
/// has bytes and each of its chunks is then there; its id is the one received last
/// from then on.  Otherwise the reader goes on.
pub proof fn law_stored_chunk_counts(state: ReaderState, buf: Seq<u8>)
    requires
        state.wf(),
        state.phase == Phase::Storing,
        buf.len() == state.n_buf,
    ensures
        ({
            let p = state.pending;
            let n = p[2] as int;
            let offset = p[10] + 256 * p[11] + 65536 * p[12] + 16777216 * p[13];
            let got = state.packet->Some_0;
            let filled = 128 * offset < got.packet_length && (n - 14 >= 128 || 128 * offset + (n - 14)
                >= got.packet_length);
            let complete = got.packet_length > 0 && forall|i: int|
                0 <= 128 * i < got.packet_length ==> #[trigger] got.written.contains(i) || (i
                    == offset && filled);
            let (after, step) = state.on_store();
            &&& state.stored(buf) == buf.take(128 * offset) + p.subrange(14, n) + buf.skip(
                128 * offset + n - 14,
            )
            &&& complete ==> step == ReadStep::Deliver(got.packet_length) && after == (ReaderState {
                phase: Phase::Ready,
                pending: p.skip(n + 4),
                packet: None,
                last_id: Some(got.packet_id),
                ..state
            })
            &&& !complete ==> {
                &&& after.packet is Some
                &&& after.packet->Some_0.packet_id == got.packet_id
                &&& after.packet->Some_0.packet_length == got.packet_length
                &&& forall|i: int| #[trigger]
                    after.packet->Some_0.written.contains(i) <==> got.written.contains(i) || (i
                        == offset && filled)
                &&& (after, step) == (ReaderState {
                    pending: p.skip(n + 4),
                    packet: after.packet,
                    ..state
                }).scan()
            }
        }),
{
    let p = state.pending;
    let n = p[2] as int;
    let offset = p[10] + 256 * p[11] + 65536 * p[12] + 16777216 * p[13];
    let got = state.packet->Some_0;
    law_chunk_layout(p);
    let chunk = state.chunk()->Some_0;
    law_overwriting_changes_one_place(buf, 128 * offset, p.subrange(14, n));
    let packet = got.with_chunk(chunk.chunk_offset as int, chunk.payload.len());
    law_complete_packet_has_every_chunk(packet);
    let filled = 128 * offset < got.packet_length && (n - 14 >= 128 || 128 * offset + (n - 14)
        >= got.packet_length);
    assert forall|i: int| #[trigger] packet.written.contains(i) <==> got.written.contains(i) || (i
        == offset && filled) by {}
    let complete = got.packet_length > 0 && forall|i: int|
        0 <= 128 * i < got.packet_length ==> #[trigger] got.written.contains(i) || (i == offset
            && filled);
    if complete {
        assert forall|i: int| 0 <= 128 * i < packet.packet_length implies #[trigger]
            packet.written.contains(i) by {
            assert(got.written.contains(i) || (i == offset && filled));
        }
    }
    if packet.is_complete() {
        assert forall|i: int| 0 <= 128 * i < got.packet_length implies #[trigger]
            got.written.contains(i) || (i == offset && filled) by {
            assert(packet.written.contains(i));
        }
    }
}

/// What is wrong with a frame that is passed over, in terms of its bytes.
pub proof fn law_faults_are_what_they_say(state: ReaderState, crc: u32)
    requires
        state.wf(),
        state.phase == Phase::Checking,
    ensures
        ({
            let p = state.pending;
            let n = p[2] as int;
            let carried = p[n] + 256 * p[n + 1] + 65536 * p[n + 2] + 16777216 * p[n + 3];
            let length = p[6] + 256 * p[7] + 65536 * p[8] + 16777216 * p[9];
            let offset = p[10] + 256 * p[11] + 65536 * p[12] + 16777216 * p[13];
            let left = length - 128 * offset;
            state.fault(crc) == if carried != crc {
                Some(FrameFault::Crc)
            } else if n < 4 {
                Some(FrameFault::Header)
            } else if p[3] == 0xAC {
                None
            } else if n < 14 {
                Some(FrameFault::DataHeader)
            } else if length > state.n_buf {
                Some(FrameFault::PacketTooLong)
            } else if n - 14 > left {
                Some(FrameFault::BeyondPacket)
            } else if n - 14 != if left < 128 { left } else { 128 } {
                Some(
                    FrameFault::PayloadLength {
                        payload_length: (n - 14) as usize,
                        chunk_offset: offset as u32,
                        packet_length: length as u32,
                    },
                )
            } else {
                None
            }
        }),
{
    let p = state.pending;
    law_32_bits_are_little_endian(crc, p.skip(p[2] as int));
    if p[2] >= 14 {
        law_chunk_layout(p);
    }
}

/// What stands in front of the payload in a `DATA` frame.
#[derive(Debug, Clone, Copy)]
struct DataHeader {
    packet_id: u16,
    packet_length: u32,
    chunk_offset: u32,
}

/// Decodes the body of a `DATA` frame, if its chunk fits a buffer of `n_buf`
/// bytes.
fn decode_data_header(body: &[u8], n_buf: usize) -> (header: Result<DataHeader, FrameFault>)
    ensures
        match header {
            Ok(header) => {
                &&& Chunk::in_body(body@) matches Some(chunk) && chunk.fits(n_buf as nat)
                &&& Chunk::in_body(body@)->Some_0.packet_id == header.packet_id
                &&& Chunk::in_body(body@)->Some_0.packet_length == header.packet_length
                &&& Chunk::in_body(body@)->Some_0.chunk_offset == header.chunk_offset
            },
            Err(fault) => body_fault(body@, n_buf as nat) == Some(fault),
        },
{
    if body.len() < DATA_HEADER_BODY_LEN {
        return Err(FrameFault::DataHeader);
    }
    let packet_id = u16_from_le(body, 0);
    let packet_length = u32_from_le(body, 2);
    let chunk_offset = u32_from_le(body, 6);
    assert(body@.skip(0) =~= body@);
    let payload_length: usize = body.len() - DATA_HEADER_BODY_LEN;
    let payload_len: u64 = payload_length as u64;
    let start: u64 = chunk_offset as u64 * CHUNK_PAYLOAD_MAX as u64;
    if packet_length as u64 > n_buf as u64 {
        return Err(FrameFault::PacketTooLong);
    }
    if start > packet_length as u64 || packet_length as u64 - start < payload_len {
        return Err(FrameFault::BeyondPacket);
    }
    let rest: u64 = packet_length as u64 - start;
    let expected: u64 = if rest < CHUNK_PAYLOAD_MAX as u64 {
        rest
    } else {
        CHUNK_PAYLOAD_MAX as u64
    };
    if payload_len != expected {
        return Err(FrameFault::PayloadLength { payload_length, chunk_offset, packet_length });
    }
    Ok(DataHeader { packet_id, packet_length, chunk_offset })
}

/// The records of one `ACK` frame.
#[derive(Debug, Clone, Copy)]
pub struct AckList {
    acks: [Ack; ACKS_MAX],
    len: usize,
}

impl View for AckList {
    type V = Seq<Ack>;

    closed spec fn view(&self) -> Seq<Ack> {
        self.acks@.take(self.len as int)
    }
}

impl AckList {
    #[verifier::type_invariant]
    spec fn fits(self) -> bool {
        self.len <= ACKS_MAX
    }

    /// A list without records.
    pub fn new() -> (list: AckList)
        ensures
            list@ == Seq::<Ack>::empty(),
    {
        let none = Ack { packet_id: 0, chunk_offset: 0 };
        AckList { acks: [none;ACKS_MAX], len: 0 }
    }

    /// Adds a record at the end.
    fn push(&mut self, ack: Ack)
        requires
            old(self)@.len() < ACKS_MAX,
        ensures
            final(self)@ == old(self)@.push(ack),
    {
        proof {
            use_type_invariant(&*self);
        }
        let mut acks = self.acks;
        let len: usize = self.len;
        acks[len] = ack;
        *self = AckList { acks, len: len + 1 };
        assert(self@ =~= old(self)@.push(ack));
    }

    /// The records in their order.
    pub fn as_slice(&self) -> (acks: &[Ack])
        ensures
            acks@ == self@,
    {
        proof {
            use_type_invariant(self);
        }
        slice_subrange(self.acks.as_slice(), 0, self.len)
    }
}

/// Decodes the body of an `ACK` frame.
pub fn decode_acks(body: &[u8]) -> (acks: AckList)
    requires
        body@.len() <= CHUNK_LEN_MAX - FRAME_HEADER_LEN,
    ensures
        acks@ == acks_in(body@),
        acks@.len() == body@.len() / 6,
        forall|i: int|
            #![trigger acks@[i]]
            0 <= i < acks@.len() ==> {
                &&& acks@[i].packet_id == body@[6 * i] + 256 * body@[6 * i + 1]
                &&& acks@[i].chunk_offset == body@[6 * i + 2] + 256 * body@[6 * i + 3] + 65536
                    * body@[6 * i + 4] + 16777216 * body@[6 * i + 5]
            },
{
    let mut acks = AckList::new();
    let mut at: usize = 0;
    let len: usize = body.len();
    while len - at >= ACK_LEN
        invariant
            at <= len,
            len == body@.len() <= CHUNK_LEN_MAX - FRAME_HEADER_LEN,
            at == acks@.len() * ACK_LEN,
            acks@.len() <= acks_in(body@).len(),
            acks@ == acks_in(body@).take(acks@.len() as int),
        decreases len - at,
    {
        let buffer: [u8; 6] = [
            body[at],
            body[at + 1],
            body[at + 2],
            body[at + 3],
            body[at + 4],
            body[at + 5],
        ];
        let ack = Ack::from_buffer(buffer);
        proof {
            let n = acks@.len() as int;
            let here = body@.skip(at as int);
            assert(ack == Ack::decoded(here)) by {
                assert(from_le16(buffer@) == from_le16(here));
                assert(from_le32(buffer@.skip(2)) == from_le32(here.skip(2)));
            }
            assert(acks_in(body@).take(n + 1) =~= acks_in(body@).take(n).push(ack));
        }
        acks.push(ack);
        at += ACK_LEN;
    }
    assert(acks_in(body@).take(acks@.len() as int) =~= acks_in(body@));
    proof {
        assert forall|i: int| #![trigger acks@[i]] 0 <= i < acks@.len() implies {
            &&& acks@[i].packet_id == body@[6 * i] + 256 * body@[6 * i + 1]
            &&& acks@[i].chunk_offset == body@[6 * i + 2] + 256 * body@[6 * i + 3] + 65536 * body@[6
                * i + 4] + 16777216 * body@[6 * i + 5]
        } by {
            let here = body@.skip(i * ACK_LEN);
            law_ack_layout(acks@[i], here);
            assert(forall|k: int| 0 <= k < 6 ==> #[trigger] here[k] == body@[6 * i + k]);
            assert(here[0] == body@[6 * i + 0]);
        }
    }
    acks
}

} // verus!
