//! Both ends of a link together.

use vstd::prelude::*;

use crate::delivery::{
    acknowledged, at_rest, carries, delivered, is_new, law_ack_frame_is_forwarded,
    law_acknowledged_packet_is_delivered, law_chunk_is_received, law_data_frame_round_trip,
    lemma_out_push, Packet,
};
use crate::frame::{ack_frame, sealed};
use crate::protocol::Ack;
use crate::receiver::skip_noise;
use crate::sender::{position, SendAction, SenderState, TransferState, INFLIGHT_MAX};
use crate::sending::{
    all_different, in_flight, law_chunks_are_accounted, law_done_when_all_acknowledged,
    lemma_position, run, SendEvent,
};
use crate::stream::{Line, Output, World};

verus! {

/// The packet that a transfer sends.
pub open spec fn packet_of(transfer: TransferState) -> Packet {
    Packet { id: transfer.packet_id, data: transfer.data }
}

/// Whether the reader takes in a chunk of the packet: it has received the packet
/// before, is receiving it, or gets a buffer for it.
pub open spec fn takes_in(line: Line, world: World, packet: Packet) -> bool {
    ||| line.state.last_id == Some(packet.id)
    ||| line.state.packet is Some && line.state.packet->Some_0.packet_id == packet.id
    ||| (world.pool)(line.takes) is Some
}

/// A chunk that arrives is done with: the peer's reader answers the frame that
/// the sender encodes next with an acknowledgement, the sender's own reader
/// hands that on from the frame that it comes in, and the sender then has the
/// chunk no longer in flight.
pub proof fn law_chunk_round_trip(
    transfer: TransferState,
    peer: Line,
    peer_world: World,
    home: Line,
    home_world: World,
)
    requires
        transfer.wf(),
        all_different(transfer.window),
        transfer.window.len() > 0,
        at_rest(peer),
        at_rest(home),
        packet_of(transfer).receivable(peer.state.n_buf),
        takes_in(peer, peer_world, packet_of(transfer)),
    ensures
        ({
            let frame = transfer.next_frame();
            let answered = peer.feed(peer_world, sealed(frame, (peer_world.crc)(frame)));
            let ack = Ack {
                packet_id: transfer.packet_id,
                chunk_offset: transfer.window.last().chunk_offset,
            };
            let reply = ack_frame(seq![ack]);
            let told = home.feed(home_world, sealed(reply, (home_world.crc)(reply)));
            let after = transfer.on_ack(ack);
            &&& acknowledged(answered.out) == acknowledged(peer.out).push(ack)
            &&& told.out == home.out.push(Output::Forwarded(seq![ack]))
            &&& after.window.len() == transfer.window.len() - 1
            &&& !in_flight(after.window, ack.chunk_offset as int)
        }),
{
    let packet = packet_of(transfer);
    let window = transfer.window;
    let last = window.len() - 1;
    let offset = window.last().chunk_offset;
    let ack = Ack { packet_id: transfer.packet_id, chunk_offset: offset };
    assert(window[last].chunk_offset == offset);
    assert(offset < packet.total());
    law_chunk_is_received(peer, peer_world, packet, offset);
    let acked = peer.out.push(Output::Acked(ack));
    lemma_out_push(peer.out, Output::Acked(ack));
    let answered = packet.after_chunk(peer, peer_world, offset);
    if answered.out != acked {
        lemma_out_push(acked, answered.out.last());
        assert(answered.out =~= acked.push(answered.out.last()));
    }
    law_ack_frame_is_forwarded(home, home_world, seq![ack]);
    lemma_position(window, offset);
    assert(in_flight(window, offset as int));
    let p = position(window, offset);
    assert(p == last);
    assert forall|i: int| 0 <= i < window.len() - 1 implies #[trigger] window.remove(
        p,
    )[i].chunk_offset != offset by {
        assert(window[i].chunk_offset != window[last].chunk_offset);
    }
}

/// A packet that the sender has finished has reached the application at the
/// other end, once and byte for byte: if the peer's reader has read chunks of the
/// packet and no others, in any order, any number of times, in reads of any size
/// and with noise, damaged frames and `ACK` frames between them, and if the
/// sender has taken in no acknowledgement for the packet but those that this
/// reader gave, then the transfer is done only after the packet was delivered.
pub proof fn law_finished_packet_was_delivered(
    sender: SenderState,
    data: Seq<u8>,
    events: Seq<SendEvent>,
    now: TransferState,
    line: Line,
    world: World,
    order: Seq<u32>,
    reads: Seq<Seq<u8>>,
)
    requires
        1 <= sender.n_inflight <= INFLIGHT_MAX,
        run(sender.start(data), events, now),
        events.len() > 0,
        events.last() == SendEvent::Polled,
        now.action() == SendAction::Done,
        is_new(line, world, packet_of(sender.start(data))),
        reads.len() > 0,
        carries(
            world,
            line.state.n_buf,
            packet_of(sender.start(data)),
            line.state.pending + reads.flatten(),
            order,
        ),
        forall|ack: Ack| #[trigger]
            events.contains(SendEvent::Acked(ack)) && ack.packet_id == sender.start(
                data,
            ).packet_id ==> acknowledged(line.feed_all(world, reads).out).skip(
                acknowledged(line.out).len() as int,
            ).contains(ack),
    ensures
        delivered(line.feed_all(world, reads).out) == delivered(line.out).push(data),
{
    let packet = packet_of(sender.start(data));
    let end = line.feed_all(world, reads);
    let acks = acknowledged(end.out).skip(acknowledged(line.out).len() as int);
    law_acknowledged_packet_is_delivered(line, world, packet, order, reads);
    law_chunks_are_accounted(sender, data, events, now);
    assert forall|i: u32| i < packet.total() implies #[trigger] acks.contains(packet.ack(i)) by {
        law_done_when_all_acknowledged(sender, data, events, now, i);
        assert(events.contains(SendEvent::Acked(packet.ack(i))));
    }
}

/// The frame that a transfer sends next, on the wire, brings the peer the chunk of
/// the transfer's own packet that is next, and what follows brings what it brings.
pub proof fn law_sent_frame_is_carried(
    transfer: TransferState,
    world: World,
    n_buf: nat,
    rest: Seq<u8>,
    order: Seq<u32>,
)
    requires
        transfer.wf(),
        transfer.window.len() > 0,
        (Packet { id: transfer.packet_id, data: transfer.data }).receivable(n_buf),
    ensures
        ({
            let packet = Packet { id: transfer.packet_id, data: transfer.data };
            let frame = transfer.next_frame();
            let wire = sealed(frame, (world.crc)(frame)) + rest;
            carries(
                world,
                n_buf,
                packet,
                wire,
                seq![transfer.window.last().chunk_offset] + order,
            ) == carries(world, n_buf, packet, rest, order)
        }),
{
    let packet = Packet { id: transfer.packet_id, data: transfer.data };
    let frame = transfer.next_frame();
    let offset = transfer.window.last().chunk_offset;
    let last = transfer.window.len() - 1;
    assert(transfer.window[last].chunk_offset < packet.total());
    law_data_frame_round_trip(
        transfer.packet_id,
        transfer.data,
        offset,
        (world.crc)(frame),
        rest,
    );
    assert(packet.chunk(offset).fits(n_buf));
    assert((seq![offset] + order).skip(1) =~= order);
}

/// Whether the sender encodes `frame` at some point of the transfer.
pub open spec fn is_sent_frame(start: TransferState, frame: Seq<u8>) -> bool {
    exists|events: Seq<SendEvent>, at: TransferState| #[trigger]
        run(start, events, at) && at.window.len() > 0 && frame == at.next_frame()
}

/// Frames one after the other, each with its CRC.
pub open spec fn on_the_wire(world: World, frames: Seq<Seq<u8>>) -> Seq<u8>
    decreases frames.len(),
{
    if frames.len() == 0 {
        Seq::empty()
    } else {
        sealed(frames[0], (world.crc)(frames[0])) + on_the_wire(world, frames.skip(1))
    }
}

/// What frames that the sender encoded bring: chunks of its packet.
proof fn lemma_sent_frames_are_carried(
    sender: SenderState,
    data: Seq<u8>,
    world: World,
    n_buf: nat,
    frames: Seq<Seq<u8>>,
) -> (order: Seq<u32>)
    requires
        1 <= sender.n_inflight <= INFLIGHT_MAX,
        packet_of(sender.start(data)).receivable(n_buf),
        forall|k: int|
            0 <= k < frames.len() ==> is_sent_frame(sender.start(data), #[trigger] frames[k]),
    ensures
        carries(world, n_buf, packet_of(sender.start(data)), on_the_wire(world, frames), order),
    decreases frames.len(),
{
    let start = sender.start(data);
    if frames.len() == 0 {
        assert(skip_noise(Seq::<u8>::empty()) == Seq::<u8>::empty());
        Seq::empty()
    } else {
        let rest = frames.skip(1);
        assert forall|k: int| 0 <= k < rest.len() implies is_sent_frame(
            start,
            #[trigger] rest[k],
        ) by {
            assert(rest[k] == frames[k + 1]);
        }
        let order = lemma_sent_frames_are_carried(sender, data, world, n_buf, rest);
        assert(is_sent_frame(start, frames[0]));
        let (events, at) = choose|events: Seq<SendEvent>, at: TransferState| #[trigger]
            run(start, events, at) && at.window.len() > 0 && frames[0] == at.next_frame();
        law_chunks_are_accounted(sender, data, events, at);
        law_sent_frame_is_carried(at, world, n_buf, on_the_wire(world, rest), order);
        seq![at.window.last().chunk_offset] + order
    }
}

/// What the sender is given is what the peer's application gets.  Of the frames
/// that the sender encodes for a packet some may be lost, some may come more than
/// once, and in any order and in reads of any size: if the sender has taken in no
/// acknowledgement for the packet but those that the peer's reader gave, then the
/// transfer is done only after exactly the bytes that it was started with were
/// delivered there, once.
pub proof fn law_sent_packet_is_delivered(
    sender: SenderState,
    data: Seq<u8>,
    events: Seq<SendEvent>,
    now: TransferState,
    line: Line,
    world: World,
    frames: Seq<Seq<u8>>,
    reads: Seq<Seq<u8>>,
)
    requires
        1 <= sender.n_inflight <= INFLIGHT_MAX,
        run(sender.start(data), events, now),
        events.len() > 0,
        events.last() == SendEvent::Polled,
        now.action() == SendAction::Done,
        is_new(line, world, packet_of(sender.start(data))),
        line.state.pending.len() == 0,
        forall|k: int|
            0 <= k < frames.len() ==> is_sent_frame(sender.start(data), #[trigger] frames[k]),
        reads.len() > 0,
        reads.flatten() == on_the_wire(world, frames),
        forall|ack: Ack| #[trigger]
            events.contains(SendEvent::Acked(ack)) && ack.packet_id == sender.start(
                data,
            ).packet_id ==> acknowledged(line.feed_all(world, reads).out).skip(
                acknowledged(line.out).len() as int,
            ).contains(ack),
    ensures
        delivered(line.feed_all(world, reads).out) == delivered(line.out).push(data),
{
    let order = lemma_sent_frames_are_carried(
        sender,
        data,
        world,
        line.state.n_buf,
        frames,
    );
    assert(line.state.pending + reads.flatten() =~= reads.flatten());
    law_finished_packet_was_delivered(
        sender,
        data,
        events,
        now,
        line,
        world,
        order,
        reads,
    );
}

} // verus!
