//! Reassembles the chunks of one packet.

use vstd::prelude::*;
use vstd::set_lib::*;

use crate::frame::chunk_count;
use crate::protocol::CHUNK_PAYLOAD_MAX;

verus! {

/// The most chunks that a packet may have for its reception to be tracked.
pub const CHUNKS_MAX: usize = 128;

/// What the receiver knows of the packet that it is receiving.
pub ghost struct RxState {
    pub packet_id: u16,
    pub packet_length: nat,
    /// The chunks that have been stored.
    pub written: Set<int>,
}

impl RxState {
    /// A packet of which nothing has been stored.
    pub open spec fn start(packet_id: u16, packet_length: nat) -> RxState {
        RxState { packet_id, packet_length, written: Set::empty() }
    }

    /// What holds of every packet that is being received: only chunks that it has
    /// are there.
    pub open spec fn wf(self) -> bool {
        forall|i: int| #[trigger]
            self.written.contains(i) ==> 0 <= i < chunk_count(self.packet_length)
    }

    /// Whether `len` bytes from the start of chunk `i` on are all that the packet
    /// has there.
    pub open spec fn is_filled_by(self, i: int, len: nat) -> bool {
        &&& 0 <= i < chunk_count(self.packet_length)
        &&& len >= CHUNK_PAYLOAD_MAX || i * CHUNK_PAYLOAD_MAX + len >= self.packet_length
    }

    /// The packet after `len` bytes have been stored from the start of chunk `i`
    /// on, for the first time or again.  They count if the packet has the chunk and
    /// nothing of it is missing.
    pub open spec fn with_chunk(self, i: int, len: nat) -> RxState {
        if self.is_filled_by(i, len) {
            RxState { written: self.written.insert(i), ..self }
        } else {
            self
        }
    }

    /// Whether all chunks of the packet have been stored.  A packet without bytes
    /// never gets there.
    pub open spec fn is_complete(self) -> bool {
        self.packet_length > 0 && self.written.len() == chunk_count(self.packet_length)
    }
}

/// The bytes of a buffer after `part` has been written from position `at` on.
pub open spec fn overwritten(buf: Seq<u8>, at: int, part: Seq<u8>) -> Seq<u8> {
    Seq::new(
        buf.len(),
        |i: int|
            if at <= i < at + part.len() {
                part[i - at]
            } else {
                buf[i]
            },
    )
}

/// Whether bit `b` of `word` is set.
pub open spec fn bit(word: u32, b: u32) -> bool {
    word & (1u32 << b) != 0
}

/// Whether bit `i` of four words, the least significant first, is set.
pub open spec fn bit_of(words: Seq<u32>, i: int) -> bool {
    bit(words[i / 32], (i % 32) as u32)
}

/// Storing bytes changes what stands in their place, and nothing else.
pub proof fn law_overwriting_changes_one_place(buf: Seq<u8>, at: int, part: Seq<u8>)
    requires
        0 <= at,
        at + part.len() <= buf.len(),
    ensures
        overwritten(buf, at, part) == buf.take(at) + part + buf.skip(at + part.len()),
        overwritten(buf, at, part).len() == buf.len(),
        overwritten(buf, at, part).subrange(at, at + part.len()) == part,
{
    assert(overwritten(buf, at, part) =~= buf.take(at) + part + buf.skip(at + part.len()));
    assert(overwritten(buf, at, part).subrange(at, at + part.len()) =~= part);
}

/// Copies `part` into `buf` from position `at` on.
pub fn overwrite(buf: &mut [u8], at: usize, part: &[u8])
    requires
        at + part@.len() <= old(buf)@.len(),
    ensures
        final(buf)@ == overwritten(old(buf)@, at as int, part@),
        final(buf)@ == old(buf)@.take(at as int) + part@ + old(buf)@.skip(at + part@.len()),
{
    let ghost before = buf@;
    let buf_len: usize = buf.len();
    let mut i: usize = 0;
    while i < part.len()
        invariant
            i <= part@.len(),
            at + part@.len() <= buf@.len(),
            buf_len == buf@.len(),
            buf@.len() == before.len(),
            forall|k: int| 0 <= k < i ==> buf@[at + k] == #[trigger] part@[k],
            forall|k: int|
                0 <= k < before.len() && !(at <= k < at + i) ==> #[trigger] buf@[k] == before[k],
        decreases part@.len() - i,
    {
        buf[at + i] = part[i];
        i += 1;
    }
    assert forall|k: int| 0 <= k < before.len() implies buf@[k] == #[trigger] overwritten(
        before,
        at as int,
        part@,
    )[k] by {
        if at <= k < at + part@.len() {
            assert(buf@[at + (k - at)] == part@[k - at]);
        }
    }
    assert(buf@ =~= overwritten(before, at as int, part@));
    proof {
        law_overwriting_changes_one_place(before, at as int, part@);
    }
}

/// The packet that is being received; its bytes are in a buffer of the caller.
#[derive(Debug, Clone, Copy)]
pub struct RxPacket {
    packet_id: u16,
    packet_length: usize,
    buffer_written: [u32; 4],
    buffer_written_count: usize,
}

impl View for RxPacket {
    type V = RxState;

    closed spec fn view(&self) -> RxState {
        RxState {
            packet_id: self.packet_id,
            packet_length: self.packet_length as nat,
            written: Set::new(
                |i: int| 0 <= i < CHUNKS_MAX && bit_of(self.buffer_written@, i),
            ),
        }
    }
}

impl RxPacket {
    /// The number of chunks counted is the number of chunks marked.
    pub closed spec fn wf(self) -> bool {
        &&& self@.wf()
        &&& self.buffer_written_count == self@.written.len()
    }

    /// A packet of which nothing has been received.
    pub fn new(packet_id: u16, packet_length: usize) -> (packet: RxPacket)
        ensures
            packet.wf(),
            packet@ == RxState::start(packet_id, packet_length as nat),
            packet@.packet_id == packet_id,
            packet@.packet_length == packet_length,
            forall|i: int| !packet@.written.contains(i),
    {
        let packet = RxPacket {
            packet_id,
            packet_length,
            buffer_written: [0, 0, 0, 0],
            buffer_written_count: 0,
        };
        proof {
            assert(forall|b: u32| #![trigger bit(0u32, b)] b < 32 ==> 0u32 & (1u32 << b) == 0)
                by (bit_vector);
            assert forall|i: int| 0 <= i < CHUNKS_MAX implies !#[trigger] bit_of(
                packet.buffer_written@,
                i,
            ) by {
                assert(packet.buffer_written@[i / 32] == 0);
                assert(!bit(0u32, (i % 32) as u32));
            }
            assert(packet@.written =~= Set::empty());
        }
        packet
    }

    /// The id of the packet.
    pub fn packet_id(&self) -> (id: u16)
        ensures
            id == self@.packet_id,
    {
        self.packet_id
    }

    /// The number of bytes of the packet.
    pub fn packet_length(&self) -> (length: usize)
        ensures
            length == self@.packet_length,
    {
        self.packet_length
    }

    /// Marks chunk `i` as stored, if the packet has it and `len` bytes are all of
    /// it.
    pub fn mark(&mut self, i: usize, len: usize)
        requires
            old(self).wf(),
            i < CHUNKS_MAX,
        ensures
            final(self).wf(),
            final(self)@ == old(self)@.with_chunk(i as int, len as nat),
            final(self)@.packet_id == old(self)@.packet_id,
            final(self)@.packet_length == old(self)@.packet_length,
            forall|j: int|
                final(self)@.written.contains(j) <==> old(self)@.written.contains(j) || (j == i
                    && 128 * i < old(self)@.packet_length && (len >= 128 || 128 * i + len
                    >= old(self)@.packet_length)),
    {
        let ghost before = *self;
        let start: usize = i * CHUNK_PAYLOAD_MAX;
        if start >= self.packet_length {
            return;
        }
        if len < CHUNK_PAYLOAD_MAX && len < self.packet_length - start {
            return;
        }
        let id_num: usize = i / 32;
        let id_bit: u32 = (i % 32) as u32;
        let word: u32 = self.buffer_written[id_num];
        if word & (1u32 << id_bit) == 0 {
            proof {
                lemma_written_fits(before);
            }
            self.buffer_written_count = self.buffer_written_count + 1;
        }
        self.buffer_written[id_num] = word | (1u32 << id_bit);
        proof {
            assert(forall|c: u32|
                #![trigger bit(word, c)]
                c < 32 && id_bit < 32 ==> ((word | (1u32 << id_bit)) & (1u32 << c) != 0) == (c
                    == id_bit || word & (1u32 << c) != 0)) by (bit_vector);
            assert forall|k: int| 0 <= k < CHUNKS_MAX implies #[trigger] bit_of(
                self.buffer_written@,
                k,
            ) == (k == i || bit_of(before.buffer_written@, k)) by {
                if k / 32 == id_num {
                    assert(bit(word, (k % 32) as u32) == bit_of(before.buffer_written@, k));
                }
            }
            lemma_written_fits(before);
            assert(self@.written =~= before@.written.insert(i as int));
        }
    }

    /// Whether all chunks of the packet have been stored.
    pub fn is_complete(&self) -> (complete: bool)
        requires
            self.wf(),
        ensures
            complete == self@.is_complete(),
            complete <==> self@.packet_length > 0 && forall|i: int|
                0 <= 128 * i < self@.packet_length ==> #[trigger] self@.written.contains(i),
    {
        let full: usize = self.packet_length / CHUNK_PAYLOAD_MAX;
        let num_chunks: usize = if self.packet_length % CHUNK_PAYLOAD_MAX == 0 {
            full
        } else {
            full + 1
        };
        proof {
            law_complete_packet_has_every_chunk(self@);
        }
        self.packet_length > 0 && self.buffer_written_count == num_chunks
    }
}

/// A packet is complete exactly if it has bytes and every one of its chunks is
/// there.
pub proof fn law_complete_packet_has_every_chunk(packet: RxState)
    requires
        packet.wf(),
    ensures
        packet.is_complete() <==> packet.packet_length > 0 && forall|i: int|
            0 <= 128 * i < packet.packet_length ==> #[trigger] packet.written.contains(i),
{
    let count = chunk_count(packet.packet_length) as int;
    let all = set_int_range(0, count);
    lemma_int_range(0, count);
    assert(packet.written.subset_of(all));
    lemma_len_subset(packet.written, all);
    if packet.written.len() == count {
        lemma_subset_equality(packet.written, all);
    }
    if forall|i: int| 0 <= 128 * i < packet.packet_length ==> #[trigger] packet.written.contains(i) {
        assert(packet.written =~= all);
    }
}

proof fn lemma_written_fits(packet: RxPacket)
    ensures
        packet@.written.finite(),
        packet@.written.len() <= CHUNKS_MAX,
{
    lemma_int_range(0, CHUNKS_MAX as int);
    lemma_len_subset(packet@.written, set_int_range(0, CHUNKS_MAX as int));
}

} // verus!
