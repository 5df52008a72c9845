//! Splits packets into chunks, and repeats those that are not acknowledged.
//!
//! [`SecureSerialSender::write_packet`] starts a [`PacketTransfer`], whose methods
//! take in what happens on the link and say what is to be done.

use core::cmp::Ordering;
use vstd::prelude::*;

use crate::bounded::{
    chunks_new, chunks_push, chunks_remove, chunks_slice, chunks_slice_mut, frame_bytes,
    listed_chunks, sort_latest_first,
};
use crate::clock::{clock_showed, read_clock};
use crate::frame::{chunk_count, chunk_frame, encode_data_frame, law_chunk_frame_layout};
use crate::protocol::{Ack, CHUNK_LEN_MAX, CHUNK_PAYLOAD_MAX};

verus! {

/// The most chunks that can be in flight at a time.
pub const INFLIGHT_MAX: usize = 32;

/// One chunk of a packet that is queued or on its way.
#[derive(Debug, Clone, Copy, PartialEq, Eq, Structural)]
pub struct ChunkInfo {
    /// Index of the chunk in its packet.
    pub chunk_offset: u32,
    /// Clock ticks at which the chunk was last sent, 0 if never.
    pub last_sent_at: u64,
    /// How often the chunk may still be sent.
    pub allowed_retransmits: usize,
}

/// Orders chunks by when they were sent, the latest first.
pub fn latest_first(a: &ChunkInfo, b: &ChunkInfo) -> (order: Ordering)
    ensures
        order == Ordering::Less <==> a.last_sent_at > b.last_sent_at,
        order == Ordering::Equal <==> a.last_sent_at == b.last_sent_at,
        order == Ordering::Greater <==> a.last_sent_at < b.last_sent_at,
{
    if a.last_sent_at > b.last_sent_at {
        Ordering::Less
    } else if a.last_sent_at == b.last_sent_at {
        Ordering::Equal
    } else {
        Ordering::Greater
    }
}

/// Whether every chunk was sent no earlier than those behind it.
pub open spec fn sorted_latest_first(chunks: Seq<ChunkInfo>) -> bool {
    forall|i: int, j: int|
        0 <= i < j < chunks.len() ==> chunks[i].last_sent_at >= chunks[j].last_sent_at
}

/// Index of the first entry for a chunk, or the length of the list if there is
/// none.
pub open spec fn position(chunks: Seq<ChunkInfo>, chunk_offset: u32) -> int
    decreases chunks.len(),
{
    if chunks.len() == 0 || chunks[0].chunk_offset == chunk_offset {
        0
    } else {
        1 + position(chunks.skip(1), chunk_offset)
    }
}

/// What a [`PacketTransfer`] is about to do.
#[derive(Debug, Clone, Copy, PartialEq, Eq, Structural)]
pub enum SendAction {
    /// Every chunk has been acknowledged.
    Done,
    /// Wait for an acknowledgement, and from so many clock ticks on for a free
    /// frame buffer as well.
    WaitUntil(u64),
    /// The time at which the next chunk is due is beyond what the clock counts
    /// to.
    DueTimeOverflow,
}

/// The state of the transfer of one packet.
#[verifier::ext_equal]
pub ghost struct TransferState {
    pub packet_id: u16,
    pub data: Seq<u8>,
    /// How many chunks may be in flight at a time.
    pub n_inflight: nat,
    /// How often each chunk may be sent.
    pub allowed_retransmits: usize,
    /// Clock ticks between two transmissions of a chunk.
    pub retransmit_delay: u64,
    /// The first chunk that is not in flight yet.
    pub next: nat,
    /// The chunks in flight; the last one is sent next.
    pub window: Seq<ChunkInfo>,
}

impl TransferState {
    /// Number of chunks of the packet.
    pub open spec fn total(self) -> nat {
        chunk_count(self.data.len())
    }

    /// A chunk that has not been sent.
    pub open spec fn fresh(self, i: int) -> ChunkInfo {
        ChunkInfo {
            chunk_offset: i as u32,
            last_sent_at: 0,
            allowed_retransmits: self.allowed_retransmits,
        }
    }

    /// How many more chunks can be put in flight.
    pub open spec fn admitted(self) -> nat {
        let room = self.n_inflight - self.window.len();
        let left = self.total() - self.next;
        if room < left {
            room as nat
        } else {
            left as nat
        }
    }

    /// Whether `after` is this state with the chunks in flight sorted, the one
    /// sent last in front, and with as many new ones behind them as there is
    /// room for.
    pub open spec fn refilled(self, after: TransferState) -> bool {
        exists|sorted: Seq<ChunkInfo>|
            {
                &&& sorted.to_multiset() == self.window.to_multiset()
                &&& sorted_latest_first(sorted)
                &&& after == #[trigger] self.with_window(sorted)
            }
    }

    /// The state with `sorted` in flight, and new chunks behind it.
    pub open spec fn with_window(self, sorted: Seq<ChunkInfo>) -> TransferState {
        TransferState {
            next: self.next + self.admitted(),
            window: sorted + Seq::new(self.admitted(), |i: int| self.fresh(self.next + i)),
            ..self
        }
    }

    /// What is to be done in this state.
    pub open spec fn action(self) -> SendAction {
        if self.window.len() == 0 {
            SendAction::Done
        } else if self.window.last().last_sent_at + self.retransmit_delay > u64::MAX {
            SendAction::DueTimeOverflow
        } else {
            SendAction::WaitUntil((self.window.last().last_sent_at + self.retransmit_delay) as u64)
        }
    }

    /// After an acknowledgement: the chunk that it names, if it is of this
    /// packet and in flight, is done with.
    pub open spec fn on_ack(self, ack: Ack) -> TransferState {
        let i = position(self.window, ack.chunk_offset);
        if ack.packet_id == self.packet_id && i < self.window.len() {
            TransferState { window: self.window.remove(i), ..self }
        } else {
            self
        }
    }

    /// After the last chunk in flight has been sent at `now`.
    pub open spec fn on_sent(self, now: u64) -> TransferState {
        let info = self.window.last();
        TransferState {
            window: self.window.update(
                self.window.len() - 1,
                ChunkInfo {
                    last_sent_at: now,
                    allowed_retransmits: (info.allowed_retransmits - 1) as usize,
                    ..info
                },
            ),
            ..self
        }
    }

    /// The frame, without its CRC, that is sent next.
    pub open spec fn next_frame(self) -> Seq<u8> {
        chunk_frame(self.packet_id, self.data, self.window.last().chunk_offset)
    }

    /// What holds of every state that a transfer gets into.
    pub open spec fn wf(self) -> bool {
        &&& 1 <= self.n_inflight <= INFLIGHT_MAX
        &&& self.window.len() <= self.n_inflight
        &&& self.next <= self.total()
        &&& forall|i: int|
            0 <= i < self.window.len() ==> {
                &&& #[trigger] self.window[i].chunk_offset < self.next
                &&& self.window[i].chunk_offset * CHUNK_PAYLOAD_MAX < self.data.len()
                &&& self.window[i].allowed_retransmits <= self.allowed_retransmits
            }
    }
}

/// The state of a sender between two packets.
pub ghost struct SenderState {
    /// The id of the packet that was started last.
    pub write_packet_id: u16,
    pub n_inflight: nat,
    pub allowed_retransmits: usize,
    pub retransmit_delay: u64,
}

impl SenderState {
    /// The next packet at its start, before any chunk of it is in flight.
    pub open spec fn start(self, data: Seq<u8>) -> TransferState {
        TransferState {
            packet_id: (self.write_packet_id + 1) as u16,
            data,
            n_inflight: self.n_inflight,
            allowed_retransmits: self.allowed_retransmits,
            retransmit_delay: self.retransmit_delay,
            next: 0,
            window: Seq::empty(),
        }
    }
}

/// The sending end of a link.
#[derive(Debug)]
pub struct SecureSerialSender {
    write_packet_id: u16,
    n_inflight: usize,
    allowed_retransmits: usize,
    retransmit_delay: u64,
}

impl View for SecureSerialSender {
    type V = SenderState;

    closed spec fn view(&self) -> SenderState {
        SenderState {
            write_packet_id: self.write_packet_id,
            n_inflight: self.n_inflight as nat,
            allowed_retransmits: self.allowed_retransmits,
            retransmit_delay: self.retransmit_delay,
        }
    }
}

impl SecureSerialSender {
    /// The number of chunks that may be in flight is one that pools support.
    pub closed spec fn wf(self) -> bool {
        1 <= self.n_inflight <= INFLIGHT_MAX
    }

    /// Creates a sender that keeps at most `n_inflight` chunks in flight.
    ///
    /// `retransmit_delay` spaces the transmissions of a chunk, in clock ticks;
    /// `allowed_retransmits` limits how often each chunk may be sent before the
    /// packet fails.
    pub fn new(n_inflight: usize, retransmit_delay: u64, allowed_retransmits: usize) -> (sender:
        Self)
        requires
            1 <= n_inflight <= INFLIGHT_MAX,
        ensures
            sender.wf(),
            sender@ == (SenderState {
                write_packet_id: 0,
                n_inflight: n_inflight as nat,
                allowed_retransmits,
                retransmit_delay,
            }),
    {
        SecureSerialSender { write_packet_id: 0, n_inflight, allowed_retransmits, retransmit_delay }
    }

    /// The id of the packet that was started last, 0 before the first one.
    pub fn write_packet_id(&self) -> (id: u16)
        ensures
            id == self@.write_packet_id,
    {
        self.write_packet_id
    }

    /// Starts to send `data` as one packet, under the next packet id.
    pub fn write_packet<'a>(&mut self, data: &'a [u8]) -> (transfer: PacketTransfer<'a>)
        requires
            old(self).wf(),
            old(self)@.write_packet_id < u16::MAX,
        ensures
            final(self).wf(),
            final(self)@ == (SenderState {
                write_packet_id: (old(self)@.write_packet_id + 1) as u16,
                ..old(self)@
            }),
            transfer.wf(),
            transfer@ == old(self)@.start(data@),
            transfer@.packet_id == old(self)@.write_packet_id + 1,
            transfer@.packet_id == final(self)@.write_packet_id,
            transfer@.data == data@,
            transfer@.n_inflight == old(self)@.n_inflight,
            transfer@.allowed_retransmits == old(self)@.allowed_retransmits,
            transfer@.retransmit_delay == old(self)@.retransmit_delay,
            transfer@.next == 0,
            transfer@.window.len() == 0,
    {
        self.write_packet_id = self.write_packet_id + 1;
        let full: usize = data.len() / CHUNK_PAYLOAD_MAX;
        let chunks_total: usize = if data.len() % CHUNK_PAYLOAD_MAX == 0 {
            full
        } else {
            full + 1
        };
        PacketTransfer {
            packet_id: self.write_packet_id,
            data,
            n_inflight: self.n_inflight,
            allowed_retransmits: self.allowed_retransmits,
            retransmit_delay: self.retransmit_delay,
            chunks_total,
            chunk_next_queue: 0,
            chunks: chunks_new(),
        }
    }
}

/// One packet on its way.
pub struct PacketTransfer<'a> {
    packet_id: u16,
    data: &'a [u8],
    n_inflight: usize,
    allowed_retransmits: usize,
    retransmit_delay: u64,
    chunks_total: usize,
    chunk_next_queue: usize,
    chunks: heapless::Vec<ChunkInfo, INFLIGHT_MAX>,
}

impl<'a> View for PacketTransfer<'a> {
    type V = TransferState;

    closed spec fn view(&self) -> TransferState {
        TransferState {
            packet_id: self.packet_id,
            data: self.data@,
            n_inflight: self.n_inflight as nat,
            allowed_retransmits: self.allowed_retransmits,
            retransmit_delay: self.retransmit_delay,
            next: self.chunk_next_queue as nat,
            window: listed_chunks(self.chunks),
        }
    }
}

impl<'a> PacketTransfer<'a> {
    /// What holds of every transfer between two calls.
    pub closed spec fn wf(self) -> bool {
        &&& self@.wf()
        &&& self.chunks_total == self@.total()
    }

    /// Sorts the chunks in flight, puts new ones behind them as far as there is
    /// room, and says what to do.
    pub fn poll(&mut self) -> (action: SendAction)
        requires
            old(self).wf(),
        ensures
            final(self).wf(),
            old(self)@.refilled(final(self)@),
            action == final(self)@.action(),
            match action {
                SendAction::Done => final(self)@.window.len() == 0,
                SendAction::WaitUntil(due) => final(self)@.window.len() > 0 && due
                    == final(self)@.window.last().last_sent_at + old(self)@.retransmit_delay,
                SendAction::DueTimeOverflow => final(self)@.window.len() > 0
                    && final(self)@.window.last().last_sent_at + old(self)@.retransmit_delay
                    > u64::MAX,
            },
    {
        let ghost before = *self;
        let chunks = chunks_slice_mut(&mut self.chunks);
        sort_latest_first(chunks);
        let ghost sorted = listed_chunks(self.chunks);
        proof {
            lemma_same_chunks(before@.window, sorted);
            assert forall|i: int| 0 <= i < sorted.len() implies before@.window.contains(
                #[trigger] sorted[i],
            ) by {
                assert(sorted.contains(sorted[i]));
            }
            assert(self@.window =~= sorted + Seq::new(
                0,
                |i: int| before@.fresh(before@.next + i),
            ));
        }
        let mut len: usize = chunks_slice(&self.chunks).len();
        while len < self.n_inflight && self.chunk_next_queue < self.chunks_total
            invariant
                before.wf(),
                self.wf(),
                sorted.len() == before@.window.len(),
                len == listed_chunks(self.chunks).len(),
                before@.next <= self@.next,
                self@.next - before@.next <= before@.admitted(),
                self@ == (TransferState {
                    next: self@.next,
                    window: sorted + Seq::new(
                        (self@.next - before@.next) as nat,
                        |i: int| before@.fresh(before@.next + i),
                    ),
                    ..before@
                }),
            decreases self.chunks_total - self.chunk_next_queue,
        {
            let ghost prev = *self;
            let next: usize = self.chunk_next_queue;
            let info = ChunkInfo {
                chunk_offset: next as u32,
                last_sent_at: 0,
                allowed_retransmits: self.allowed_retransmits,
            };
            let _ = chunks_push(&mut self.chunks, info);
            self.chunk_next_queue = next + 1;
            len += 1;
            proof {
                assert(next as u32 <= next) by (bit_vector);
                assert(self@.window =~= sorted + Seq::new(
                    (self@.next - before@.next) as nat,
                    |i: int| before@.fresh(before@.next + i),
                ));
            }
        }
        assert(self@ == before@.with_window(sorted));
        if len == 0 {
            return SendAction::Done;
        }
        let last_sent_at: u64 = chunks_slice(&self.chunks)[len - 1].last_sent_at;
        match last_sent_at.checked_add(self.retransmit_delay) {
            Some(due) => SendAction::WaitUntil(due),
            None => SendAction::DueTimeOverflow,
        }
    }

    /// Takes in an acknowledgement from the peer.
    pub fn on_ack(&mut self, ack: Ack)
        requires
            old(self).wf(),
        ensures
            final(self).wf(),
            final(self)@ == old(self)@.on_ack(ack),
    {
        if ack.packet_id != self.packet_id {
            return;
        }
        let chunks = chunks_slice(&self.chunks);
        let len: usize = chunks.len();
        let mut i: usize = 0;
        assert(chunks@.skip(0) =~= chunks@);
        while i < len && chunks[i].chunk_offset != ack.chunk_offset
            invariant
                i <= len,
                len == chunks@.len(),
                position(chunks@, ack.chunk_offset) == i + position(
                    chunks@.skip(i as int),
                    ack.chunk_offset,
                ),
            decreases len - i,
        {
            assert(chunks@.skip(i as int).skip(1) =~= chunks@.skip(i + 1));
            i += 1;
        }
        if i < len {
            let _ = chunks_remove(&mut self.chunks, i);
        }
    }

    /// Encodes the chunk that is due into `tx_buffer`, a free frame buffer.
    /// Fails if the chunk may not be sent again.
    pub fn on_slot(&mut self, tx_buffer: &mut heapless::Vec<u8, CHUNK_LEN_MAX>) -> (result: Result<
        (),
        (),
    >)
        requires
            old(self).wf(),
            old(self)@.window.len() > 0,
        ensures
            final(self).wf(),
            result is Err <==> old(self)@.window.last().allowed_retransmits == 0,
            result is Err ==> final(self)@ == old(self)@ && *final(tx_buffer) == *old(tx_buffer),
            result is Ok ==> exists|now: u64|
                #![trigger old(self)@.on_sent(now)]
                clock_showed(now) && final(self)@ == old(self)@.on_sent(now),
            result is Ok ==> frame_bytes(*final(tx_buffer)) == old(self)@.next_frame(),
    {
        let now: u64 = read_clock();
        self.on_slot_at(now, tx_buffer)
    }

    /// What [`PacketTransfer::on_slot`] does when the clock shows `now`.
    pub fn on_slot_at(
        &mut self,
        now: u64,
        tx_buffer: &mut heapless::Vec<u8, CHUNK_LEN_MAX>,
    ) -> (result: Result<(), ()>)
        requires
            old(self).wf(),
            old(self)@.window.len() > 0,
        ensures
            final(self).wf(),
            result is Err <==> old(self)@.window.last().allowed_retransmits == 0,
            result is Err ==> final(self)@ == old(self)@ && *final(tx_buffer) == *old(tx_buffer),
            result is Ok ==> final(self)@ == old(self)@.on_sent(now),
            result is Ok ==> frame_bytes(*final(tx_buffer)) == old(self)@.next_frame(),
            result is Ok ==> {
                let f = frame_bytes(*final(tx_buffer));
                let data = old(self)@.data;
                let info = old(self)@.window.last();
                let start = 128 * info.chunk_offset;
                let left = data.len() - start;
                &&& f.len() == 14 + if left < 128 { left } else { 128 }
                &&& f[0] == 0x5E && f[1] == 0x5E && f[2] == f.len() && f[3] == 0xDA
                &&& f[4] + 256 * f[5] == old(self)@.packet_id
                &&& f[6] + 256 * f[7] + 65536 * f[8] + 16777216 * f[9] == data.len() as u32
                &&& f[10] + 256 * f[11] + 65536 * f[12] + 16777216 * f[13] == info.chunk_offset
                &&& f.skip(14) == data.subrange(start, start + f.len() - 14)
                &&& final(self)@ == (TransferState {
                    window: old(self)@.window.drop_last().push(
                        ChunkInfo {
                            chunk_offset: info.chunk_offset,
                            last_sent_at: now,
                            allowed_retransmits: (info.allowed_retransmits - 1) as usize,
                        },
                    ),
                    ..old(self)@
                })
            },
    {
        let chunks = chunks_slice_mut(&mut self.chunks);
        let last: usize = chunks.len() - 1;
        let info = chunks[last];
        if info.allowed_retransmits == 0 {
            return Err(());
        }
        encode_data_frame(tx_buffer, self.packet_id, self.data, info.chunk_offset);
        chunks[last] = ChunkInfo {
            chunk_offset: info.chunk_offset,
            last_sent_at: now,
            allowed_retransmits: info.allowed_retransmits - 1,
        };
        proof {
            law_sending_notes_the_time(old(self)@, now);
        }
        Ok(())
    }
}

/// Sending changes only what is noted of the chunk that is sent: the time of it,
/// and that it may be sent once less.
pub proof fn law_sending_notes_the_time(state: TransferState, now: u64)
    requires
        state.window.len() > 0,
        state.window.last().allowed_retransmits > 0,
    ensures
        state.on_sent(now) == (TransferState {
            window: state.window.drop_last().push(
                ChunkInfo {
                    chunk_offset: state.window.last().chunk_offset,
                    last_sent_at: now,
                    allowed_retransmits: (state.window.last().allowed_retransmits - 1) as usize,
                },
            ),
            ..state
        }),
{
    assert(state.on_sent(now).window =~= state.window.drop_last().push(
        ChunkInfo {
            chunk_offset: state.window.last().chunk_offset,
            last_sent_at: now,
            allowed_retransmits: (state.window.last().allowed_retransmits - 1) as usize,
        },
    ));
}

/// The frame that a transfer sends carries the chunk of its own packet that is
/// next: the id of the packet, the length of all its data, the index of the chunk,
/// and the bytes of the data that the chunk is made of.
pub proof fn law_sent_frame_carries_its_chunk(state: TransferState)
    requires
        state.wf(),
        state.window.len() > 0,
        state.data.len() <= u32::MAX,
    ensures
        ({
            let f = state.next_frame();
            let start = 128 * state.window.last().chunk_offset;
            let left = state.data.len() - start;
            &&& left > 0
            &&& f.len() == 14 + if left < 128 { left } else { 128 }
            &&& f[0] == 0x5E && f[1] == 0x5E && f[2] == f.len() && f[3] == 0xDA
            &&& f[4] + 256 * f[5] == state.packet_id
            &&& f[6] + 256 * f[7] + 65536 * f[8] + 16777216 * f[9] == state.data.len()
            &&& f[10] + 256 * f[11] + 65536 * f[12] + 16777216 * f[13]
                == state.window.last().chunk_offset
            &&& f.skip(14) == state.data.subrange(start, start + f.len() - 14)
        }),
{
    let last = state.window.len() - 1;
    assert(state.window[last].chunk_offset * CHUNK_PAYLOAD_MAX < state.data.len());
    law_chunk_frame_layout(state.packet_id, state.data, state.window.last().chunk_offset);
}

/// Packets are numbered: each has the id that follows that of the packet before
/// it, so that no two packets that one sender starts have the same id.
pub proof fn law_packet_ids_count_up(
    sender: SenderState,
    later: SenderState,
    data: Seq<u8>,
    more: Seq<u8>,
)
    requires
        sender.write_packet_id < later.write_packet_id < u16::MAX,
    ensures
        sender.start(data).packet_id == sender.write_packet_id + 1,
        later.start(more).packet_id - sender.start(data).packet_id == later.write_packet_id
            - sender.write_packet_id,
        later.start(more).packet_id != sender.start(data).packet_id,
{
}

/// A packet starts with all its data, with nothing in flight, and with the limits
/// of its sender.
pub proof fn law_packet_starts_whole(sender: SenderState, data: Seq<u8>)
    ensures
        sender.start(data).data == data,
        sender.start(data).next == 0,
        sender.start(data).window.len() == 0,
        sender.start(data).n_inflight == sender.n_inflight,
        sender.start(data).allowed_retransmits == sender.allowed_retransmits,
        sender.start(data).retransmit_delay == sender.retransmit_delay,
{
}

/// What is to be done follows from the chunk at the end: nothing if there is none,
/// and otherwise to wait until the delay since it was sent is over.
pub proof fn law_action_follows_the_last_chunk(state: TransferState)
    ensures
        match state.action() {
            SendAction::Done => state.window.len() == 0,
            SendAction::WaitUntil(due) => state.window.len() > 0 && due
                == state.window.last().last_sent_at + state.retransmit_delay,
            SendAction::DueTimeOverflow => state.window.len() > 0
                && state.window.last().last_sent_at + state.retransmit_delay > u64::MAX,
        },
{
}

/// An acknowledgement of another packet, or of a chunk that is not in flight,
/// changes nothing; any other takes exactly one entry out, one of the chunk that
/// it names, and leaves the others as they are and in their order.
pub proof fn law_ack_takes_one_chunk_out(state: TransferState, ack: Ack)
    ensures
        ({
            let after = state.on_ack(ack);
            let named = ack.packet_id == state.packet_id && exists|i: int|
                0 <= i < state.window.len() && #[trigger] state.window[i].chunk_offset
                    == ack.chunk_offset;
            &&& !named ==> after == state
            &&& named ==> exists|p: int|
                {
                    &&& 0 <= p < state.window.len()
                    &&& #[trigger] state.window[p].chunk_offset == ack.chunk_offset
                    &&& after == (TransferState {
                        window: state.window.take(p) + state.window.skip(p + 1),
                        ..state
                    })
                }
        }),
{
    let p = position(state.window, ack.chunk_offset);
    lemma_first_entry(state.window, ack.chunk_offset);
    if p < state.window.len() {
        assert(state.window[p].chunk_offset == ack.chunk_offset);
        assert(state.window.remove(p) =~= state.window.take(p) + state.window.skip(p + 1));
    }
}

/// [`position`] finds the first entry of a chunk if there is one.
pub proof fn lemma_first_entry(chunks: Seq<ChunkInfo>, chunk_offset: u32)
    ensures
        0 <= position(chunks, chunk_offset) <= chunks.len(),
        position(chunks, chunk_offset) < chunks.len() ==> chunks[position(
            chunks,
            chunk_offset,
        )].chunk_offset == chunk_offset,
        forall|j: int|
            0 <= j < position(chunks, chunk_offset) ==> #[trigger] chunks[j].chunk_offset
                != chunk_offset,
    decreases chunks.len(),
{
    if chunks.len() > 0 && chunks[0].chunk_offset != chunk_offset {
        let rest = chunks.skip(1);
        lemma_first_entry(rest, chunk_offset);
        assert forall|j: int| 0 <= j < position(chunks, chunk_offset) implies #[trigger] chunks[
            j
        ].chunk_offset != chunk_offset by {
            if j > 0 {
                assert(rest[j - 1] == chunks[j]);
            }
        }
    }
}

/// Polling keeps the chunks in flight, each as often as before, and puts the one
/// sent last in front.  Behind them come the next chunks of the packet, none left
/// out, not sent yet and with all their tries, until as many are in flight as may
/// be or no chunk is left.
pub proof fn law_poll_fills_the_window(before: TransferState, after: TransferState)
    requires
        before.wf(),
        before.data.len() <= u32::MAX,
        before.refilled(after),
    ensures
        ({
            let n = before.window.len() as int;
            let kept = after.window.take(n);
            &&& after == (TransferState { next: after.next, window: after.window, ..before })
            &&& after.next - before.next == after.window.len() - n >= 0
            &&& after.window.len() <= before.n_inflight
            &&& after.window.len() == before.n_inflight || 128 * after.next >= before.data.len()
            &&& forall|x: ChunkInfo| #[trigger]
                kept.to_multiset().count(x) == before.window.to_multiset().count(x)
            &&& forall|i: int, j: int|
                0 <= i < j < n ==> kept[i].last_sent_at >= kept[j].last_sent_at
            &&& forall|i: int|
                n <= i < after.window.len() ==> {
                    &&& (#[trigger] after.window[i]).chunk_offset == before.next + (i - n)
                    &&& 128 * after.window[i].chunk_offset < before.data.len()
                    &&& after.window[i].last_sent_at == 0
                    &&& after.window[i].allowed_retransmits == before.allowed_retransmits
                }
        }),
{
    let sorted = choose|sorted: Seq<ChunkInfo>|
        {
            &&& sorted.to_multiset() == before.window.to_multiset()
            &&& sorted_latest_first(sorted)
            &&& after == #[trigger] before.with_window(sorted)
        };
    lemma_same_chunks(before.window, sorted);
    assert(after.window.take(before.window.len() as int) =~= sorted);
}

/// Of a packet on its way no more chunks are in flight than the sender allows,
/// and every one of them is a chunk of the packet.
pub proof fn law_window_is_bounded(transfer: PacketTransfer)
    requires
        transfer.wf(),
    ensures
        transfer@.wf(),
{
}

/// Lists with the same entries are equally long, and what holds of all entries
/// of the one holds of those of the other.
pub proof fn lemma_same_chunks(a: Seq<ChunkInfo>, b: Seq<ChunkInfo>)
    requires
        a.to_multiset() == b.to_multiset(),
    ensures
        a.len() == b.len(),
        forall|x: ChunkInfo| a.contains(x) <==> b.contains(x),
{
    vstd::seq_lib::to_multiset_len(a);
    vstd::seq_lib::to_multiset_len(b);
    assert forall|x: ChunkInfo| a.contains(x) <==> b.contains(x) by {
        vstd::seq_lib::to_multiset_contains(a, x);
        vstd::seq_lib::to_multiset_contains(b, x);
    }
}

} // verus!
