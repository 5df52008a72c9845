//! What is delivered has been received.
//!
//! A buffer from the pool holds what was left in it.  The law here says that none
//! of it gets out: whatever the bytes on the line are, what the reader gives to
//! its surroundings does not depend on it.

use vstd::prelude::*;

use crate::protocol::{Ack, CHUNK_PAYLOAD_MAX};
use crate::reassembly::{law_complete_packet_has_every_chunk, RxState};
use crate::receiver::{frame_checked, holds_frame, lemma_skip_noise_done, ReadStep};
use crate::stream::{law_split_reads, lemma_handle_shrinks, Line, World};

verus! {

/// Whether two buffers agree wherever chunks of the packet have been stored.
pub open spec fn same_received(packet: RxState, a: Seq<u8>, b: Seq<u8>) -> bool {
    forall|k: int|
        0 <= k < packet.packet_length && packet.written.contains(k / (CHUNK_PAYLOAD_MAX as int))
            ==> #[trigger] a[k] == b[k]
}

/// Whether two readers differ at most in buffer contents that they have not
/// received.
pub open spec fn differ_in_old_contents(a: Line, b: Line) -> bool {
    &&& a.state == b.state
    &&& a.takes == b.takes
    &&& a.out == b.out
    &&& a.state.packet matches Some(packet) ==> {
        &&& packet.wf()
        &&& packet.packet_length <= a.state.n_buf
        &&& a.buf.len() == a.state.n_buf
        &&& b.buf.len() == a.state.n_buf
        &&& same_received(packet, a.buf, b.buf)
    }
}

/// Whether two surroundings differ at most in what the buffers of the pool, of
/// `n_buf` bytes each, hold.
pub open spec fn differ_in_pool_contents(a: World, b: World, n_buf: nat) -> bool {
    &&& a.crc == b.crc
    &&& forall|n: nat|
        #![trigger (a.pool)(n)]
        #![trigger (b.pool)(n)]
        match ((a.pool)(n), (b.pool)(n)) {
            (Some(x), Some(y)) => x.len() == n_buf && y.len() == n_buf,
            (None, None) => true,
            _ => false,
        }
}

proof fn lemma_store_alike(a: Line, b: Line, ack: Ack)
    requires
        differ_in_old_contents(a, b),
        a.state.has_chunk(),
        a.state.packet is Some,
    ensures
        differ_in_old_contents(a.store(ack), b.store(ack)),
{
    let chunk = a.state.chunk()->Some_0;
    let i = chunk.chunk_offset as int;
    let before = a.state.packet->Some_0;
    let packet = before.with_chunk(i, chunk.payload.len());
    let x = a.state.stored(a.buf);
    let y = b.state.stored(b.buf);
    assert(packet.wf());
    assert(same_received(packet, x, y)) by {
        assert forall|k: int|
            0 <= k < packet.packet_length && packet.written.contains(
                k / (CHUNK_PAYLOAD_MAX as int),
            ) implies #[trigger] x[k] == y[k] by {
            if !(chunk.start() <= k < chunk.start() + chunk.payload.len()) {
                assert(before.written.contains(k / (CHUNK_PAYLOAD_MAX as int)));
                assert(a.buf[k] == b.buf[k]);
            }
        }
    }
    law_complete_packet_has_every_chunk(packet);
    if packet.is_complete() {
        let len = packet.packet_length as int;
        assert forall|k: int| 0 <= k < len implies #[trigger] x.take(len)[k] == y.take(len)[k] by {
            assert(packet.written.contains(k / (CHUNK_PAYLOAD_MAX as int)));
            assert(x[k] == y[k]);
        }
        assert(x.take(len) =~= y.take(len));
    }
}

proof fn lemma_handle_alike(a: Line, b: Line, world_a: World, world_b: World)
    requires
        differ_in_old_contents(a, b),
        differ_in_pool_contents(world_a, world_b, a.state.n_buf),
        holds_frame(a.state.pending),
    ensures
        differ_in_old_contents(a.handle(world_a), b.handle(world_b)),
        a.handle(world_a).state.n_buf == a.state.n_buf,
{
    let crc = (world_a.crc)(frame_checked(a.state.pending));
    let (state, step) = a.state.on_crc(crc);
    let x = Line { state, ..a };
    let y = Line { state, ..b };
    match step {
        ReadStep::StoreChunk(ack) => {
            lemma_store_alike(x, y, ack);
        },
        ReadStep::TakeBuffer => {
            if let (Some(p), Some(q)) = ((world_a.pool)(a.takes), (world_b.pool)(a.takes)) {
                let (taken, next) = state.on_buffer(true);
                let ack = next->StoreChunk_0;
                lemma_store_alike(
                    Line { state: taken, takes: a.takes + 1, buf: p, ..x },
                    Line { state: taken, takes: a.takes + 1, buf: q, ..y },
                    ack,
                );
            }
        },
        _ => {},
    }
}

proof fn lemma_settle_alike(a: Line, b: Line, world_a: World, world_b: World)
    requires
        differ_in_old_contents(a, b),
        differ_in_pool_contents(world_a, world_b, a.state.n_buf),
    ensures
        differ_in_old_contents(a.settle(world_a), b.settle(world_b)),
    decreases a.state.pending.len(),
{
    let x = a.scan();
    let y = b.scan();
    lemma_skip_noise_done(a.state.pending);
    assert(differ_in_old_contents(x, y));
    if holds_frame(x.state.pending) {
        lemma_handle_shrinks(x, world_a);
        lemma_handle_alike(x, y, world_a, world_b);
        lemma_settle_alike(x.handle(world_a), y.handle(world_b), world_a, world_b);
    }
}

/// Nothing is delivered that has not been received: two readers that read the
/// same bytes, whatever these are and however they are split, give the same to
/// their surroundings, whatever the buffers of their pools held before.
pub proof fn law_old_contents_are_not_delivered(
    a: Line,
    b: Line,
    world_a: World,
    world_b: World,
    reads: Seq<Seq<u8>>,
)
    requires
        differ_in_old_contents(a, b),
        differ_in_pool_contents(world_a, world_b, a.state.n_buf),
        reads.len() > 0,
    ensures
        a.feed_all(world_a, reads).out == b.feed_all(world_b, reads).out,
        differ_in_old_contents(a.feed_all(world_a, reads), b.feed_all(world_b, reads)),
{
    law_split_reads(a, world_a, reads);
    law_split_reads(b, world_b, reads);
    lemma_settle_alike(
        a.with_bytes(reads.flatten()),
        b.with_bytes(reads.flatten()),
        world_a,
        world_b,
    );
}

} // verus!
