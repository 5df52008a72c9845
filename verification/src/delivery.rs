//! What the reading end makes of what the sending end encodes.

use vstd::prelude::*;
use vstd::set_lib::*;

use crate::bytes::{le16, le32, lemma_le16_round_trip, lemma_le32_round_trip};
use crate::frame::{
    ack_frame, acks_encoded, acks_per_frame, chunk_count, chunk_frame, chunk_payload, data_header,
    lemma_acks_encoded_len, sealed, ACK_LEN, CRC_LEN, DATA_HEADER_BODY_LEN,
    FRAME_HEADER_LEN,
};
use crate::protocol::{
    law_ack_round_trip, Ack, CHUNK_LEN_MAX, CHUNK_PAYLOAD_MAX, PACKET_ACK, PACKET_DATA,
};
use crate::reassembly::{overwritten, RxState, CHUNKS_MAX};
use crate::receiver::{
    acks_in, frame_body, frame_checked, frame_crc, frame_end, holds_frame,
    lemma_skip_noise_done, skip_noise, Chunk, Phase, ReaderState,
};
use crate::stream::{
    law_split_read, law_split_reads, lemma_handle_shrinks, passed_over, Line, Output, World,
};

verus! {

/// The frame for every chunk of a packet, its CRC included, fits the buffer that
/// it is encoded in, and the reader finds in it what was put into it, whatever
/// follows.
pub proof fn law_data_frame_round_trip(
    packet_id: u16,
    data: Seq<u8>,
    chunk_offset: u32,
    crc: u32,
    rest: Seq<u8>,
)
    requires
        data.len() <= u32::MAX,
        chunk_offset * CHUNK_PAYLOAD_MAX <= data.len(),
    ensures
        ({
            let frame = chunk_frame(packet_id, data, chunk_offset);
            let s = sealed(frame, crc) + rest;
            &&& frame.len() + CRC_LEN <= CHUNK_LEN_MAX
            &&& skip_noise(s) == s
            &&& holds_frame(s)
            &&& frame_end(s) == frame.len() + CRC_LEN
            &&& frame_checked(s) == frame
            &&& frame_crc(s) == crc
            &&& s[2] >= FRAME_HEADER_LEN
            &&& s[3] == PACKET_DATA
            &&& s.skip(frame_end(s)) == rest
            &&& Chunk::in_body(frame_body(s)) == Some(
                Chunk {
                    packet_id,
                    packet_length: data.len() as u32,
                    chunk_offset,
                    payload: chunk_payload(data, chunk_offset as nat),
                },
            )
        }),
{
    let payload = chunk_payload(data, chunk_offset as nat);
    let frame = chunk_frame(packet_id, data, chunk_offset);
    let s = sealed(frame, crc) + rest;
    let len = data.len() as u32;
    assert(frame.len() == 14 + payload.len());
    assert(s[2] == frame.len());
    assert(frame_checked(s) =~= frame);
    assert(s.skip(frame.len() as int) =~= le32(crc) + rest);
    lemma_le32_round_trip(crc, rest);
    assert(s.skip(frame_end(s)) =~= rest);
    let body = frame_body(s);
    assert(body =~= data_header(packet_id, len, chunk_offset) + payload);
    assert(body =~= le16(packet_id) + (le32(len) + le32(chunk_offset) + payload));
    lemma_le16_round_trip(packet_id, le32(len) + le32(chunk_offset) + payload);
    assert(body.skip(2) =~= le32(len) + (le32(chunk_offset) + payload));
    lemma_le32_round_trip(len, le32(chunk_offset) + payload);
    assert(body.skip(6) =~= le32(chunk_offset) + payload);
    lemma_le32_round_trip(chunk_offset, payload);
    assert(body.skip(DATA_HEADER_BODY_LEN as int) =~= payload);
}

/// An `ACK` frame, its CRC included, fits the buffer that it is encoded in, and
/// the reader finds in it the records that were put into it, in their order,
/// whatever follows.
pub proof fn law_ack_frame_round_trip(acks: Seq<Ack>, crc: u32, rest: Seq<u8>)
    requires
        1 <= acks.len() <= acks_per_frame(),
    ensures
        ({
            let frame = ack_frame(acks);
            let s = sealed(frame, crc) + rest;
            &&& frame.len() + CRC_LEN <= CHUNK_LEN_MAX
            &&& skip_noise(s) == s
            &&& holds_frame(s)
            &&& frame_end(s) == frame.len() + CRC_LEN
            &&& frame_checked(s) == frame
            &&& frame_crc(s) == crc
            &&& s[2] >= FRAME_HEADER_LEN
            &&& s[3] == PACKET_ACK
            &&& s.skip(frame_end(s)) == rest
            &&& acks_in(frame_body(s)) == acks
        }),
{
    let frame = ack_frame(acks);
    let s = sealed(frame, crc) + rest;
    lemma_acks_encoded_len(acks);
    assert(s[2] == frame.len());
    assert(frame_checked(s) =~= frame);
    assert(s.skip(frame.len() as int) =~= le32(crc) + rest);
    lemma_le32_round_trip(crc, rest);
    assert(s.skip(frame_end(s)) =~= rest);
    let body = frame_body(s);
    assert(body =~= acks_encoded(acks));
    assert forall|i: int| 0 <= i < acks.len() implies #[trigger] acks_in(body)[i] == acks[i] by {
        let tail = lemma_ack_at(acks, i);
        law_ack_round_trip(acks[i], tail);
    }
    assert(acks_in(body) =~= acks);
}

/// Record `i` stands behind the `i` records in front of it.
proof fn lemma_ack_at(acks: Seq<Ack>, i: int) -> (tail: Seq<u8>)
    requires
        0 <= i < acks.len(),
    ensures
        acks_encoded(acks).skip(i * ACK_LEN) == acks[i].encoded() + tail,
    decreases acks.len(),
{
    let front = acks.drop_last();
    lemma_acks_encoded_len(front);
    if i == front.len() {
        assert(acks_encoded(acks).skip(i * ACK_LEN) =~= acks[i].encoded() + Seq::<u8>::empty());
        Seq::empty()
    } else {
        let tail = lemma_ack_at(front, i);
        assert(acks_encoded(acks).skip(i * ACK_LEN) =~= acks_encoded(front).skip(i * ACK_LEN)
            + acks.last().encoded());
        assert(acks_encoded(acks).skip(i * ACK_LEN) =~= acks[i].encoded() + (tail
            + acks.last().encoded()));
        tail + acks.last().encoded()
    }
}

/// A packet on its way: what its frames are made from.
pub ghost struct Packet {
    pub id: u16,
    pub data: Seq<u8>,
}

impl Packet {
    /// Whether a reader with buffers of `n_buf` bytes can receive the packet.
    pub open spec fn receivable(self, n_buf: nat) -> bool {
        &&& 0 < self.data.len() <= n_buf
        &&& self.data.len() <= CHUNKS_MAX * CHUNK_PAYLOAD_MAX
    }

    /// Number of chunks.
    pub open spec fn total(self) -> nat {
        chunk_count(self.data.len())
    }

    /// The frame for one chunk, as it goes onto the wire.
    pub open spec fn wire(self, world: World, chunk_offset: u32) -> Seq<u8> {
        let frame = chunk_frame(self.id, self.data, chunk_offset);
        sealed(frame, (world.crc)(frame))
    }

    /// The frames for several chunks, one after the other.
    pub open spec fn wire_all(self, world: World, order: Seq<u32>) -> Seq<u8>
        decreases order.len(),
    {
        if order.len() == 0 {
            Seq::empty()
        } else {
            self.wire(world, order[0]) + self.wire_all(world, order.skip(1))
        }
    }

    /// One chunk, as a `DATA` frame carries it.
    pub open spec fn chunk(self, chunk_offset: u32) -> Chunk {
        Chunk {
            packet_id: self.id,
            packet_length: self.data.len() as u32,
            chunk_offset,
            payload: chunk_payload(self.data, chunk_offset as nat),
        }
    }

    /// The record that acknowledges a chunk.
    pub open spec fn ack(self, chunk_offset: u32) -> Ack {
        Ack { packet_id: self.id, chunk_offset }
    }

    /// The line after chunk `chunk_offset` has been stored in `buf` for a packet
    /// of which `got` was known.
    pub open spec fn after_store(
        self,
        line: Line,
        got: RxState,
        buf: Seq<u8>,
        chunk_offset: u32,
    ) -> Line {
        let payload = chunk_payload(self.data, chunk_offset as nat);
        let packet = got.with_chunk(chunk_offset as int, payload.len());
        let filled = overwritten(buf, chunk_offset * CHUNK_PAYLOAD_MAX, payload);
        let acked = line.out.push(Output::Acked(self.ack(chunk_offset)));
        if packet.is_complete() {
            Line {
                state: ReaderState {
                    packet: None,
                    last_id: Some(packet.packet_id),
                    ..line.state
                },
                buf: filled,
                out: acked.push(Output::Delivered(filled.take(packet.packet_length as int))),
                ..line
            }
        } else {
            Line {
                state: ReaderState { packet: Some(packet), ..line.state },
                buf: filled,
                out: acked,
                ..line
            }
        }
    }

    /// The line after the frame for chunk `chunk_offset` has been read.
    pub open spec fn after_chunk(self, line: Line, world: World, chunk_offset: u32) -> Line {
        if line.state.last_id == Some(self.id) {
            Line { out: line.out.push(Output::Acked(self.ack(chunk_offset))), ..line }
        } else if line.state.packet is Some && line.state.packet->Some_0.packet_id == self.id {
            self.after_store(line, line.state.packet->Some_0, line.buf, chunk_offset)
        } else {
            let asked = Line { takes: line.takes + 1, ..line };
            match (world.pool)(line.takes) {
                Some(buf) => self.after_store(
                    asked,
                    RxState::start(self.id, self.data.len()),
                    buf,
                    chunk_offset,
                ),
                None => Line { state: ReaderState { packet: None, ..line.state }, ..asked },
            }
        }
    }
}

/// Whether the reader waits for bytes and has none left over.
pub open spec fn at_rest(line: Line) -> bool {
    line.state.phase == Phase::Reading && line.state.pending.len() == 0
}

/// What the reader does with the frame for one chunk.  A chunk of the packet
/// that was received last is acknowledged again and not stored, so that no
/// packet is delivered twice.  Any other chunk is stored and acknowledged if its
/// packet is the one that is being received, or if there is a buffer for it; a
/// chunk for which there is none is not acknowledged.  The packet is delivered
/// with the chunk that makes it complete.
pub proof fn law_chunk_is_received(line: Line, world: World, packet: Packet, chunk_offset: u32)
    requires
        at_rest(line),
        packet.receivable(line.state.n_buf),
        chunk_offset < packet.total(),
    ensures
        line.feed(world, packet.wire(world, chunk_offset)) == packet.after_chunk(
            line,
            world,
            chunk_offset,
        ),
        at_rest(packet.after_chunk(line, world, chunk_offset)),
{
    let s = packet.wire(world, chunk_offset);
    let frame = chunk_frame(packet.id, packet.data, chunk_offset);
    law_data_frame_round_trip(
        packet.id,
        packet.data,
        chunk_offset,
        (world.crc)(frame),
        Seq::empty(),
    );
    assert(s + Seq::<u8>::empty() =~= s);
    assert(line.state.pending + s =~= s);
    let first = line.with_bytes(s).scan();
    assert(first.state.pending == s);
    let chunk = first.state.chunk()->Some_0;
    assert(chunk.fits(line.state.n_buf));
    let handled = first.handle(world);
    let done = packet.after_chunk(line, world, chunk_offset);
    assert(line.state.pending =~= Seq::<u8>::empty());
    assert(s.skip(frame_end(s)) =~= Seq::<u8>::empty());
    assert(skip_noise(Seq::<u8>::empty()) == Seq::<u8>::empty());
    assert(handled.state.pending == Seq::<u8>::empty());
    assert(handled.scan() == done);
    assert(handled.settle(world) == done);
}

/// What has been delivered, the oldest first.
pub open spec fn delivered(out: Seq<Output>) -> Seq<Seq<u8>>
    decreases out.len(),
{
    if out.len() == 0 {
        Seq::empty()
    } else {
        match out.last() {
            Output::Delivered(data) => delivered(out.drop_last()).push(data),
            _ => delivered(out.drop_last()),
        }
    }
}

/// What has been acknowledged, the oldest first.
pub open spec fn acknowledged(out: Seq<Output>) -> Seq<Ack>
    decreases out.len(),
{
    if out.len() == 0 {
        Seq::empty()
    } else {
        match out.last() {
            Output::Acked(ack) => acknowledged(out.drop_last()).push(ack),
            _ => acknowledged(out.drop_last()),
        }
    }
}

/// One more output.
pub proof fn lemma_out_push(out: Seq<Output>, last: Output)
    ensures
        delivered(out.push(last)) == match last {
            Output::Delivered(data) => delivered(out).push(data),
            _ => delivered(out),
        },
        acknowledged(out.push(last)) == match last {
            Output::Acked(ack) => acknowledged(out).push(ack),
            _ => acknowledged(out),
        },
{
    assert(out.push(last).drop_last() =~= out);
}

/// The chunks among `order`.
pub open spec fn chunks_of(order: Seq<u32>) -> Set<int> {
    Set::new(|i: int| exists|k: int| 0 <= k < order.len() && #[trigger] order[k] == i)
}

/// Whether `order` names chunks of the packet only.
pub open spec fn names_chunks(packet: Packet, order: Seq<u32>) -> bool {
    forall|k: int| 0 <= k < order.len() ==> #[trigger] order[k] < packet.total()
}

/// Whether `order` names every chunk of the packet.
pub open spec fn covers(packet: Packet, order: Seq<u32>) -> bool {
    forall|i: int| 0 <= i < packet.total() ==> #[trigger] chunks_of(order).contains(i)
}

/// The buffer holds the bytes of every chunk in `got`.
spec fn holds_chunks(packet: Packet, buf: Seq<u8>, got: Set<int>) -> bool {
    forall|k: int|
        0 <= k < packet.data.len() && got.contains(k / (CHUNK_PAYLOAD_MAX as int))
            ==> #[trigger] buf[k] == packet.data[k]
}

/// The records for several chunks of a packet.
pub open spec fn acks_for(packet: Packet, chunks: Seq<u32>) -> Seq<Ack> {
    chunks.map_values(|i: u32| packet.ack(i))
}

/// Where a reader stands that had `line` as its state, has then read frames for
/// chunks of the packet, and has acknowledged those in `acked`: these are the
/// chunks that are stored, and the packet has been delivered, once, if they are
/// all there are.
spec fn reached(line: Line, packet: Packet, acked: Seq<u32>, now: Line) -> bool {
    &&& now.state.n_buf == line.state.n_buf
    &&& acknowledged(now.out) == acknowledged(line.out) + acks_for(packet, acked)
    &&& if covers(packet, acked) {
        &&& now.state.packet is None
        &&& now.state.last_id == Some(packet.id)
        &&& delivered(now.out) == delivered(line.out).push(packet.data)
    } else {
        &&& now.state.last_id == line.state.last_id
        &&& delivered(now.out) == delivered(line.out)
        &&& if acked.len() == 0 {
            now.state.packet matches Some(other) ==> other.packet_id != packet.id
        } else {
            &&& now.state.packet == Some(
                RxState {
                    packet_id: packet.id,
                    packet_length: packet.data.len(),
                    written: chunks_of(acked),
                },
            )
            &&& now.buf.len() == now.state.n_buf
            &&& holds_chunks(packet, now.buf, chunks_of(acked))
        }
    }
}

/// Whether the reader has not met the packet, and every buffer that it can get
/// has the size that it expects.
pub open spec fn is_new(line: Line, world: World, packet: Packet) -> bool {
    &&& packet.receivable(line.state.n_buf)
    &&& line.state.last_id != Some(packet.id)
    &&& line.state.packet matches Some(other) ==> other.packet_id != packet.id
    &&& forall|n: nat| #[trigger]
        (world.pool)(n) matches Some(buf) ==> buf.len() == line.state.n_buf
}

proof fn lemma_chunks_of(packet: Packet, order: Seq<u32>)
    requires
        names_chunks(packet, order),
    ensures
        chunks_of(order).finite(),
        chunks_of(order).subset_of(set_int_range(0, packet.total() as int)),
        covers(packet, order) <==> chunks_of(order).len() == packet.total(),
{
    let all = set_int_range(0, packet.total() as int);
    lemma_int_range(0, packet.total() as int);
    assert(chunks_of(order).subset_of(all));
    lemma_len_subset(chunks_of(order), all);
    if covers(packet, order) {
        assert(chunks_of(order) =~= all);
    }
    if chunks_of(order).len() == packet.total() {
        lemma_subset_equality(chunks_of(order), all);
    }
}

/// Storing one more chunk keeps those that are there.
proof fn lemma_store_chunk(packet: Packet, buf: Seq<u8>, got: Set<int>, i: u32)
    requires
        holds_chunks(packet, buf, got),
        packet.data.len() <= buf.len(),
        i < packet.total(),
    ensures
        holds_chunks(
            packet,
            overwritten(
                buf,
                i * CHUNK_PAYLOAD_MAX,
                chunk_payload(packet.data, i as nat),
            ),
            got.insert(i as int),
        ),
{
}

/// A buffer that holds every chunk holds the packet.
proof fn lemma_all_chunks(packet: Packet, buf: Seq<u8>, order: Seq<u32>)
    requires
        covers(packet, order),
        holds_chunks(packet, buf, chunks_of(order)),
        packet.data.len() <= buf.len(),
    ensures
        buf.take(packet.data.len() as int) == packet.data,
{
    assert forall|k: int| 0 <= k < packet.data.len() implies buf[k] == packet.data[k] by {
        let i = k / (CHUNK_PAYLOAD_MAX as int);
        assert(0 <= i < packet.total());
        assert(chunks_of(order).contains(i));
    }
    assert(buf.take(packet.data.len() as int) =~= packet.data);
}

/// The chunks of a list with one more at its end.
proof fn lemma_chunks_push(front: Seq<u32>, i: u32)
    ensures
        chunks_of(front.push(i)) == chunks_of(front).insert(i as int),
{
    let order = front.push(i);
    assert forall|c: int| chunks_of(order).contains(c) implies chunks_of(front).insert(
        i as int,
    ).contains(c) by {
        let k = choose|k: int| 0 <= k < order.len() && #[trigger] order[k] == c;
        if k < front.len() {
            assert(front[k] == c);
        }
    }
    assert forall|c: int| chunks_of(front).insert(i as int).contains(c) implies chunks_of(
        order,
    ).contains(c) by {
        if c == i {
            assert(order[order.len() - 1] == c);
        } else {
            let k = choose|k: int| 0 <= k < front.len() && #[trigger] front[k] == c;
            assert(order[k] == c);
        }
    }
    assert(chunks_of(order) =~= chunks_of(front).insert(i as int));
}

/// Whether the frame in front of `s`, which has the right CRC, carries a chunk
/// that fits a buffer of `n_buf` bytes.
pub open spec fn carries_chunk(n_buf: nat, s: Seq<u8>) -> bool {
    &&& s[2] >= FRAME_HEADER_LEN
    &&& s[3] == PACKET_DATA
    &&& Chunk::in_body(frame_body(s)) matches Some(chunk) && chunk.fits(n_buf)
}

/// Whether the bytes `s` bring a reader with buffers of `n_buf` bytes the chunks
/// `order` of the packet, in this order, and no other chunk.  Between them there
/// may be anything that is no chunk: noise, damaged frames, `ACK` frames, and at
/// the end a frame that is not complete.
pub open spec fn carries(
    world: World,
    n_buf: nat,
    packet: Packet,
    s: Seq<u8>,
    order: Seq<u32>,
) -> bool
    decreases s.len(),
    via carries_terminates
{
    let front = skip_noise(s);
    let rest = front.skip(frame_end(front));
    if !holds_frame(front) {
        order.len() == 0
    } else if (world.crc)(frame_checked(front)) != frame_crc(front) {
        carries(world, n_buf, packet, front.skip(1), order)
    } else if !carries_chunk(n_buf, front) {
        carries(world, n_buf, packet, rest, order)
    } else {
        &&& order.len() > 0
        &&& order[0] < packet.total()
        &&& Chunk::in_body(frame_body(front)) == Some(packet.chunk(order[0]))
        &&& carries(world, n_buf, packet, rest, order.skip(1))
    }
}

#[via_fn]
proof fn carries_terminates(
    world: World,
    n_buf: nat,
    packet: Packet,
    s: Seq<u8>,
    order: Seq<u32>,
) {
    lemma_skip_noise_done(s);
}

/// The frames for chunks of a packet, one after the other, carry these chunks.
pub proof fn law_frames_carry_chunks(world: World, n_buf: nat, packet: Packet, order: Seq<u32>)
    requires
        packet.receivable(n_buf),
        names_chunks(packet, order),
    ensures
        carries(world, n_buf, packet, packet.wire_all(world, order), order),
    decreases order.len(),
{
    if order.len() > 0 {
        let s = packet.wire_all(world, order);
        let rest = packet.wire_all(world, order.skip(1));
        let frame = chunk_frame(packet.id, packet.data, order[0]);
        law_data_frame_round_trip(packet.id, packet.data, order[0], (world.crc)(frame), rest);
        assert(packet.chunk(order[0]).fits(n_buf));
        assert forall|k: int| 0 <= k < order.skip(1).len() implies #[trigger] order.skip(1)[k]
            < packet.total() by {
            assert(order.skip(1)[k] == order[k + 1]);
        }
        law_frames_carry_chunks(world, n_buf, packet, order.skip(1));
    } else {
        assert(skip_noise(Seq::<u8>::empty()) == Seq::<u8>::empty());
    }
}

/// Damage takes no chunk away from what follows it, and adds none: bytes that
/// are passed over carry nothing.
pub proof fn law_damage_carries_nothing(
    world: World,
    n_buf: nat,
    packet: Packet,
    damaged: Seq<u8>,
    rest: Seq<u8>,
    order: Seq<u32>,
)
    requires
        forall|i: int|
            0 <= i < damaged.len() ==> passed_over(world, #[trigger] (damaged + rest).skip(i)),
    ensures
        carries(world, n_buf, packet, damaged + rest, order) == carries(
            world,
            n_buf,
            packet,
            rest,
            order,
        ),
    decreases damaged.len(),
{
    let s = damaged + rest;
    if damaged.len() == 0 {
        assert(s =~= rest);
    } else {
        assert(s.skip(1) =~= damaged.skip(1) + rest);
        assert(s.skip(0) =~= s);
        assert forall|i: int| 0 <= i < damaged.skip(1).len() implies passed_over(
            world,
            #[trigger] (damaged.skip(1) + rest).skip(i),
        ) by {
            assert((damaged.skip(1) + rest).skip(i) =~= s.skip(i + 1));
        }
        law_damage_carries_nothing(world, n_buf, packet, damaged.skip(1), rest, order);
    }
}

/// An `ACK` frame takes no chunk away from what follows it, and adds none.
pub proof fn law_ack_frame_carries_nothing(
    world: World,
    n_buf: nat,
    packet: Packet,
    acks: Seq<Ack>,
    rest: Seq<u8>,
    order: Seq<u32>,
)
    requires
        1 <= acks.len() <= acks_per_frame(),
    ensures
        ({
            let frame = ack_frame(acks);
            let s = sealed(frame, (world.crc)(frame)) + rest;
            carries(world, n_buf, packet, s, order) == carries(world, n_buf, packet, rest, order)
        }),
{
    law_ack_frame_round_trip(acks, (world.crc)(ack_frame(acks)), rest);
}

/// Noise carries nothing.
proof fn lemma_carries_past_noise(
    world: World,
    n_buf: nat,
    packet: Packet,
    s: Seq<u8>,
    order: Seq<u32>,
)
    ensures
        carries(world, n_buf, packet, skip_noise(s), order) == carries(
            world,
            n_buf,
            packet,
            s,
            order,
        ),
{
    lemma_skip_noise_done(s);
}

/// What comes of a chunk of the packet in front.
proof fn lemma_handle_chunk(line: Line, world: World, packet: Packet, i: u32)
    requires
        holds_frame(line.state.pending),
        (world.crc)(frame_checked(line.state.pending)) == frame_crc(line.state.pending),
        carries_chunk(line.state.n_buf, line.state.pending),
        line.state.chunk() == Some(packet.chunk(i)),
        packet.receivable(line.state.n_buf),
        i < packet.total(),
    ensures
        line.handle(world).scan() == packet.after_chunk(
            Line { state: line.state.past_frame(), ..line },
            world,
            i,
        ).scan(),
{
    let past = line.state.pending.skip(frame_end(line.state.pending));
    lemma_skip_noise_done(past);
}

/// One more chunk: it is acknowledged, or there is no buffer for it.
proof fn lemma_reach_next(
    line: Line,
    world: World,
    packet: Packet,
    front: Seq<u32>,
    i: u32,
    now: Line,
) -> (acked: Seq<u32>)
    requires
        is_new(line, world, packet),
        names_chunks(packet, front),
        i < packet.total(),
        reached(line, packet, front, now),
    ensures
        names_chunks(packet, acked),
        reached(line, packet, acked, packet.after_chunk(now, world, i)),
        front.len() > 0 || (world.pool)(now.takes) is Some ==> acked == front.push(i),
        acked.len() == 0 ==> front.len() == 0 && (world.pool)(now.takes) is None,
{
    let next = packet.after_chunk(now, world, i);
    if front.len() == 0 {
        assert(chunks_of(front) =~= Set::empty());
        assert(0 < packet.total());
        assert(!chunks_of(front).contains(0));
        assert(!covers(packet, front));
    }
    let order = front.push(i);
    assert(order.drop_last() =~= front);
    lemma_chunks_push(front, i);
    lemma_chunks_of(packet, front);
    lemma_chunks_of(packet, order);
    assert(acks_for(packet, order) =~= acks_for(packet, front).push(packet.ack(i)));
    let acked = now.out.push(Output::Acked(packet.ack(i)));
    lemma_out_push(now.out, Output::Acked(packet.ack(i)));
    assert(acknowledged(acked) =~= acknowledged(line.out) + acks_for(packet, order));
    if front.len() == 0 && (world.pool)(now.takes) is None {
        assert(next.state.packet is None);
        front
    } else {
        if !covers(packet, front) {
            let buf = if front.len() == 0 {
                (world.pool)(now.takes)->Some_0
            } else {
                now.buf
            };
            assert(holds_chunks(packet, buf, chunks_of(front)));
            lemma_store_chunk(packet, buf, chunks_of(front), i);
            if covers(packet, order) {
                lemma_all_chunks(packet, next.buf, order);
                lemma_out_push(acked, Output::Delivered(packet.data));
            }
        } else {
            assert forall|c: int| 0 <= c < packet.total() implies #[trigger] chunks_of(
                order,
            ).contains(c) by {
                assert(chunks_of(front).contains(c));
            }
        }
        order
    }
}

/// All that is pending.
proof fn lemma_reach(
    line: Line,
    world: World,
    packet: Packet,
    before: Seq<u32>,
    now: Line,
    order: Seq<u32>,
) -> (acked: Seq<u32>)
    requires
        is_new(line, world, packet),
        names_chunks(packet, before),
        reached(line, packet, before, now),
        carries(world, now.state.n_buf, packet, now.state.pending, order),
    ensures
        names_chunks(packet, acked),
        reached(line, packet, acked, now.settle(world)),
        before.len() > 0 || (world.pool)(now.takes) is Some ==> acked == before + order,
    decreases now.state.pending.len(),
{
    let first = now.scan();
    let s = first.state.pending;
    lemma_skip_noise_done(now.state.pending);
    if !holds_frame(s) {
        assert(before + order =~= before);
        before
    } else {
        let handled = first.handle(world);
        let rest = s.skip(frame_end(s));
        lemma_handle_shrinks(first, world);
        lemma_carries_past_noise(world, now.state.n_buf, packet, rest, order);
        lemma_carries_past_noise(world, now.state.n_buf, packet, s.skip(1), order);
        if (world.crc)(frame_checked(s)) != frame_crc(s) {
            lemma_reach(line, world, packet, before, handled, order)
        } else if !carries_chunk(now.state.n_buf, s) {
            if s[2] >= FRAME_HEADER_LEN && s[3] == PACKET_ACK {
                lemma_out_push(first.out, Output::Forwarded(acks_in(frame_body(s))));
            }
            lemma_reach(line, world, packet, before, handled, order)
        } else {
            let i = order[0];
            let past = Line { state: first.state.past_frame(), ..first };
            lemma_handle_chunk(first, world, packet, i);
            let next = lemma_reach_next(line, world, packet, before, i, past);
            let after = packet.after_chunk(past, world, i);
            assert(after.state.pending == rest);
            assert(reached(line, packet, next, after));
            let acked = lemma_reach(line, world, packet, next, after, order.skip(1));
            assert(handled.settle(world) == after.settle(world));
            if before.len() > 0 || (world.pool)(now.takes) is Some {
                assert(before.push(i) + order.skip(1) =~= before + order);
            }
            acked
        }
    }
}

/// A reader that has not met the packet, after all the reads.
proof fn lemma_reach_all(
    line: Line,
    world: World,
    packet: Packet,
    order: Seq<u32>,
    reads: Seq<Seq<u8>>,
) -> (acked: Seq<u32>)
    requires
        is_new(line, world, packet),
        reads.len() > 0,
        carries(world, line.state.n_buf, packet, line.state.pending + reads.flatten(), order),
    ensures
        names_chunks(packet, acked),
        reached(line, packet, acked, line.feed_all(world, reads)),
        (world.pool)(line.takes) is Some ==> acked == order,
{
    let none = Seq::<u32>::empty();
    let now = line.with_bytes(reads.flatten());
    assert(acks_for(packet, none) =~= Seq::empty());
    assert(acknowledged(line.out) + acks_for(packet, none) =~= acknowledged(line.out));
    assert(0 < packet.total());
    assert(!chunks_of(none).contains(0));
    law_split_reads(line, world, reads);
    let acked = lemma_reach(line, world, packet, none, now, order);
    assert(none + order =~= order);
    acked
}

/// What was sent is delivered, and only once.  The chunks of a packet may come in
/// any order and any number of times, in reads of any size, and with noise,
/// damaged frames and `ACK` frames between them: as soon as every chunk has come,
/// the bytes of the packet are delivered, and never again.  Every chunk that
/// comes is acknowledged.
pub proof fn law_packet_is_delivered_once(
    line: Line,
    world: World,
    packet: Packet,
    order: Seq<u32>,
    reads: Seq<Seq<u8>>,
)
    requires
        is_new(line, world, packet),
        (world.pool)(line.takes) is Some,
        covers(packet, order),
        reads.len() > 0,
        carries(world, line.state.n_buf, packet, line.state.pending + reads.flatten(), order),
    ensures
        ({
            let end = line.feed_all(world, reads);
            &&& delivered(end.out) == delivered(line.out).push(packet.data)
            &&& acknowledged(end.out) == acknowledged(line.out) + acks_for(packet, order)
            &&& end.state.last_id == Some(packet.id)
            &&& end.state.packet is None
        }),
{
    let acked = lemma_reach_all(line, world, packet, order, reads);
}

/// Packet follows packet: a reader that has received one is ready for any other,
/// so that what holds of the first holds of the next, whatever bytes are left
/// over.
pub proof fn law_next_packet_is_new(
    line: Line,
    world: World,
    packet: Packet,
    order: Seq<u32>,
    reads: Seq<Seq<u8>>,
    next: Packet,
)
    requires
        is_new(line, world, packet),
        (world.pool)(line.takes) is Some,
        covers(packet, order),
        reads.len() > 0,
        carries(world, line.state.n_buf, packet, line.state.pending + reads.flatten(), order),
        next.receivable(line.state.n_buf),
        next.id != packet.id,
    ensures
        is_new(line.feed_all(world, reads), world, next),
{
    let acked = lemma_reach_all(line, world, packet, order, reads);
}

/// As long as a chunk of a packet is missing, nothing is delivered, whatever
/// has come of the others.
pub proof fn law_incomplete_packet_is_not_delivered(
    line: Line,
    world: World,
    packet: Packet,
    order: Seq<u32>,
    reads: Seq<Seq<u8>>,
)
    requires
        is_new(line, world, packet),
        (world.pool)(line.takes) is Some,
        !covers(packet, order),
        reads.len() > 0,
        carries(world, line.state.n_buf, packet, line.state.pending + reads.flatten(), order),
    ensures
        ({
            let end = line.feed_all(world, reads);
            &&& delivered(end.out) == delivered(line.out)
            &&& acknowledged(end.out) == acknowledged(line.out) + acks_for(packet, order)
            &&& end.state.last_id == line.state.last_id
        }),
{
    let acked = lemma_reach_all(line, world, packet, order, reads);
}

/// A packet whose chunks have all been acknowledged has been delivered, once and
/// byte for byte, even if there was no buffer for some of its frames; one of
/// which a chunk has not been acknowledged has not been delivered.
pub proof fn law_acknowledged_packet_is_delivered(
    line: Line,
    world: World,
    packet: Packet,
    order: Seq<u32>,
    reads: Seq<Seq<u8>>,
)
    requires
        is_new(line, world, packet),
        reads.len() > 0,
        carries(world, line.state.n_buf, packet, line.state.pending + reads.flatten(), order),
    ensures
        ({
            let end = line.feed_all(world, reads);
            let acks = acknowledged(end.out).skip(acknowledged(line.out).len() as int);
            let all = forall|i: u32|
                i < packet.total() ==> #[trigger] acks.contains(packet.ack(i));
            &&& all ==> delivered(end.out) == delivered(line.out).push(packet.data)
            &&& !all ==> delivered(end.out) == delivered(line.out)
        }),
{
    let acked = lemma_reach_all(line, world, packet, order, reads);
    let end = line.feed_all(world, reads);
    let acks = acknowledged(end.out).skip(acknowledged(line.out).len() as int);
    assert(acks =~= acks_for(packet, acked));
    let all = forall|i: u32| i < packet.total() ==> #[trigger] acks.contains(packet.ack(i));
    if all {
        assert forall|i: int| 0 <= i < packet.total() implies #[trigger] chunks_of(
            acked,
        ).contains(i) by {
            assert(packet.total() <= CHUNKS_MAX);
            assert(acks.contains(packet.ack(i as u32)));
            let k = choose|k: int| 0 <= k < acks.len() && acks[k] == packet.ack(i as u32);
            assert(acked[k] == i);
        }
    }
    if covers(packet, acked) {
        assert forall|i: u32| i < packet.total() implies #[trigger] acks.contains(
            packet.ack(i),
        ) by {
            assert(chunks_of(acked).contains(i as int));
            let k = choose|k: int| 0 <= k < acked.len() && #[trigger] acked[k] == i as int;
            assert(acks[k] == packet.ack(i));
        }
    }
}

/// What comes of an `ACK` frame that is read alone.
proof fn lemma_acks_forwarded(line: Line, world: World, s: Seq<u8>)
    requires
        at_rest(line),
        skip_noise(s) == s,
        holds_frame(s),
        (world.crc)(frame_checked(s)) == frame_crc(s),
        s[2] >= FRAME_HEADER_LEN,
        s[3] == PACKET_ACK,
        s.len() == frame_end(s),
    ensures
        line.feed(world, s) == (Line {
            out: line.out.push(Output::Forwarded(acks_in(frame_body(s)))),
            ..line
        }),
{
    let done = Line { out: line.out.push(Output::Forwarded(acks_in(frame_body(s)))), ..line };
    assert(line.state.pending + s =~= s);
    assert(line.state.pending =~= Seq::<u8>::empty());
    assert(s.skip(frame_end(s)) =~= Seq::<u8>::empty());
    assert(skip_noise(Seq::<u8>::empty()) == Seq::<u8>::empty());
    let handled = line.with_bytes(s).scan().handle(world);
    assert(handled.scan() == done);
    assert(handled.settle(world) == done);
}

/// The reader hands on what is in an `ACK` frame, and nothing else comes of it.
pub proof fn law_ack_frame_is_forwarded(line: Line, world: World, acks: Seq<Ack>)
    requires
        at_rest(line),
        1 <= acks.len() <= acks_per_frame(),
    ensures
        line.feed(world, sealed(ack_frame(acks), (world.crc)(ack_frame(acks)))) == (Line {
            out: line.out.push(Output::Forwarded(acks)),
            ..line
        }),
{
    let crc = (world.crc)(ack_frame(acks));
    let s = sealed(ack_frame(acks), crc);
    law_ack_frame_round_trip(acks, crc, Seq::empty());
    assert(s + Seq::<u8>::empty() =~= s);
    lemma_acks_forwarded(line, world, s);
}

/// `ACK` frames, one after the other, as they go onto the wire.
pub open spec fn ack_frames(world: World, batches: Seq<Seq<Ack>>) -> Seq<u8>
    decreases batches.len(),
{
    if batches.len() == 0 {
        Seq::empty()
    } else {
        let frame = ack_frame(batches.last());
        ack_frames(world, batches.drop_last()) + sealed(frame, (world.crc)(frame))
    }
}

/// What has been handed to the local sender, the oldest first.
pub open spec fn forwarded(out: Seq<Output>) -> Seq<Ack>
    decreases out.len(),
{
    if out.len() == 0 {
        Seq::empty()
    } else {
        match out.last() {
            Output::Forwarded(acks) => forwarded(out.drop_last()) + acks,
            _ => forwarded(out.drop_last()),
        }
    }
}

/// No record that is written is lost, repeated or reordered: from the `ACK` frames
/// that records were put into, batch by batch, the peer's reader hands on these
/// records, each once and in their order, in reads of any size.
pub proof fn law_records_arrive_in_order(
    line: Line,
    world: World,
    batches: Seq<Seq<Ack>>,
    reads: Seq<Seq<u8>>,
)
    requires
        at_rest(line),
        forall|k: int|
            0 <= k < batches.len() ==> 1 <= (#[trigger] batches[k]).len() <= acks_per_frame(),
        reads.len() > 0,
        reads.flatten() == ack_frames(world, batches),
    ensures
        forwarded(line.feed_all(world, reads).out) == forwarded(line.out) + batches.flatten(),
        at_rest(line.feed_all(world, reads)),
{
    law_split_reads(line, world, reads);
    lemma_batches_forwarded(line, world, batches);
}

proof fn lemma_batches_forwarded(line: Line, world: World, batches: Seq<Seq<Ack>>)
    requires
        at_rest(line),
        forall|k: int|
            0 <= k < batches.len() ==> 1 <= (#[trigger] batches[k]).len() <= acks_per_frame(),
    ensures
        forwarded(line.feed(world, ack_frames(world, batches)).out) == forwarded(line.out)
            + batches.flatten(),
        at_rest(line.feed(world, ack_frames(world, batches))),
    decreases batches.len(),
{
    if batches.len() == 0 {
        let s = Seq::<u8>::empty();
        assert(batches =~= Seq::<Seq<Ack>>::empty());
        assert(line.state.pending + s =~= s);
        assert(skip_noise(s) == s);
        assert(batches.flatten() =~= Seq::<Ack>::empty());
        assert(forwarded(line.out) + batches.flatten() =~= forwarded(line.out));
    } else {
        let front = batches.drop_last();
        let acks = batches.last();
        let frame = ack_frame(acks);
        assert forall|k: int| 0 <= k < front.len() implies 1 <= (#[trigger] front[k]).len()
            <= acks_per_frame() by {
            assert(front[k] == batches[k]);
        }
        assert(acks == batches[batches.len() - 1]);
        lemma_batches_forwarded(line, world, front);
        let mid = line.feed(world, ack_frames(world, front));
        law_split_read(
            line,
            world,
            ack_frames(world, front),
            sealed(frame, (world.crc)(frame)),
        );
        law_ack_frame_is_forwarded(mid, world, acks);
        assert(mid.out.push(Output::Forwarded(acks)).drop_last() =~= mid.out);
        assert(front.push(acks) =~= batches);
        front.lemma_flatten_push(acks);
        assert(forwarded(line.out) + front.flatten() + acks =~= forwarded(line.out) + (
        front.flatten() + acks));
    }
}

} // verus!
