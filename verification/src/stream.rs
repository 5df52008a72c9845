//! The reading end over a whole stream of bytes.
//!
//! A [`Line`] runs the transitions of [`ReaderState`] to the point where more
//! bytes are needed.  It is the subject of the laws on how a stream is split
//! into reads and on what stands between frames.

use vstd::prelude::*;

use crate::protocol::{Ack, MAGIC_0, MAGIC_1};
use crate::receiver::{
    frame_body, frame_checked, frame_crc, frame_end, holds_frame, lemma_skip_noise_append,
    lemma_skip_noise_done, rules_out, skip_noise, ReadStep, ReaderState, FRAME_LEN_MIN,
};

verus! {

/// What surrounds a reader.
pub ghost struct World {
    /// What the CRC unit computes.
    pub crc: spec_fn(Seq<u8>) -> u32,
    /// What the pool gives on each attempt to take a buffer: a buffer with some
    /// contents, or nothing.
    pub pool: spec_fn(nat) -> Option<Seq<u8>>,
}

/// What a reader gives to its surroundings.
pub ghost enum Output {
    /// A record for the peer.
    Acked(Ack),
    /// Records for the local sender.
    Forwarded(Seq<Ack>),
    /// A packet for the application.
    Delivered(Seq<u8>),
}

/// A reader with the buffer that it holds and what it has given out.
#[verifier::ext_equal]
pub ghost struct Line {
    pub state: ReaderState,
    pub buf: Seq<u8>,
    /// How often a buffer has been asked for.
    pub takes: nat,
    pub out: Seq<Output>,
}

impl Line {
    /// The line with more bytes behind those that are pending.
    pub open spec fn with_bytes(self, data: Seq<u8>) -> Line {
        Line {
            state: ReaderState { pending: self.state.pending + data, ..self.state },
            ..self
        }
    }

    /// Stores the chunk in front, acknowledges it, and delivers the packet if it
    /// is complete.
    pub open spec fn store(self, ack: Ack) -> Line {
        let buf = self.state.stored(self.buf);
        let (state, step) = self.state.on_store();
        let out = self.out.push(Output::Acked(ack));
        Line {
            state,
            buf,
            takes: self.takes,
            out: match step {
                ReadStep::Deliver(length) => out.push(Output::Delivered(buf.take(length as int))),
                _ => out,
            },
        }
    }

    /// Asks for a buffer, and stores the chunk in front if there is one.
    pub open spec fn take(self, world: World) -> Line {
        let taken = (world.pool)(self.takes);
        let (state, step) = self.state.on_buffer(taken is Some);
        let line = Line { state, takes: self.takes + 1, ..self };
        match (taken, step) {
            (Some(buf), ReadStep::StoreChunk(ack)) => Line { buf, ..line }.store(ack),
            _ => line,
        }
    }

    /// Deals with the frame in front.
    pub open spec fn handle(self, world: World) -> Line {
        let (state, step) = self.state.on_crc((world.crc)(frame_checked(self.state.pending)));
        let line = Line { state, ..self };
        match step {
            ReadStep::TakeBuffer => line.take(world),
            ReadStep::StoreChunk(ack) => line.store(ack),
            ReadStep::SendAck(ack) => Line { out: self.out.push(Output::Acked(ack)), ..line },
            ReadStep::ForwardAcks(acks) => Line {
                out: self.out.push(Output::Forwarded(acks)),
                ..line
            },
            _ => line,
        }
    }

    /// Goes on to the next frame.
    pub open spec fn scan(self) -> Line {
        Line { state: self.state.scan().0, ..self }
    }

    /// Deals with one frame after the other, until more bytes are needed.
    pub open spec fn settle(self, world: World) -> Line
        decreases self.state.pending.len(),
        via Line::settle_terminates
    {
        let line = self.scan();
        if holds_frame(line.state.pending) {
            line.handle(world).settle(world)
        } else {
            line
        }
    }

    #[via_fn]
    proof fn settle_terminates(self, world: World) {
        lemma_skip_noise_done(self.state.pending);
        if holds_frame(self.scan().state.pending) {
            lemma_handle_shrinks(self.scan(), world);
        }
    }

    /// The line after `data` has been read.
    pub open spec fn feed(self, world: World, data: Seq<u8>) -> Line {
        self.with_bytes(data).settle(world)
    }

    /// The line after several reads.
    pub open spec fn feed_all(self, world: World, reads: Seq<Seq<u8>>) -> Line
        decreases reads.len(),
    {
        if reads.len() == 0 {
            self
        } else {
            self.feed_all(world, reads.drop_last()).feed(world, reads.last())
        }
    }
}

/// Every frame that is dealt with makes the pending bytes fewer.
pub proof fn lemma_handle_shrinks(line: Line, world: World)
    requires
        holds_frame(line.state.pending),
    ensures
        line.handle(world).state.pending.len() < line.state.pending.len(),
{
    let pending = line.state.pending;
    lemma_skip_noise_done(pending.skip(1));
    lemma_skip_noise_done(pending.skip(frame_end(pending)));
}

/// A frame that is all there stays what it is when more bytes come.
proof fn lemma_front_append(s: Seq<u8>, more: Seq<u8>)
    requires
        holds_frame(s),
    ensures
        holds_frame(s + more),
        frame_end(s + more) == frame_end(s),
        frame_checked(s + more) == frame_checked(s),
        frame_crc(s + more) == frame_crc(s),
        s[2] >= 4 ==> frame_body(s + more) == frame_body(s),
        (s + more).skip(1) == s.skip(1) + more,
        (s + more).skip(frame_end(s)) == s.skip(frame_end(s)) + more,
{
    let t = s + more;
    assert(frame_checked(t) =~= frame_checked(s));
    assert(t.skip(1) =~= s.skip(1) + more);
    assert(t.skip(frame_end(s)) =~= s.skip(frame_end(s)) + more);
    if s[2] >= 4 {
        assert(frame_body(t) =~= frame_body(s));
    }
    assert(forall|k: int|
        0 <= k < 4 ==> t.skip(s[2] as int)[k] == #[trigger] s.skip(s[2] as int)[k]);
}

/// A frame is dealt with in the same way whether or not more bytes are there.
proof fn lemma_handle_append(line: Line, world: World, more: Seq<u8>)
    requires
        holds_frame(line.state.pending),
    ensures
        line.with_bytes(more).handle(world).scan() == line.handle(world).with_bytes(more).scan(),
{
    let s = line.state.pending;
    lemma_front_append(s, more);
    lemma_skip_noise_append(s.skip(1), more);
    lemma_skip_noise_append(s.skip(frame_end(s)), more);
    lemma_skip_noise_done((s + more).skip(1));
    lemma_skip_noise_done((s + more).skip(frame_end(s)));
}

/// Dealing with what is there first, and with what comes later then, is the same
/// as dealing with all of it.
proof fn lemma_settle_append(line: Line, world: World, more: Seq<u8>)
    ensures
        line.with_bytes(more).settle(world) == line.settle(world).with_bytes(more).settle(world),
    decreases line.state.pending.len(),
{
    let first = line.scan();
    let both = line.with_bytes(more).scan();
    lemma_skip_noise_append(line.state.pending, more);
    lemma_skip_noise_done(line.state.pending);
    if holds_frame(first.state.pending) {
        let s = first.state.pending;
        lemma_front_append(s, more);
        assert(both == first.with_bytes(more));
        lemma_handle_shrinks(first, world);
        lemma_handle_append(first, world, more);
        lemma_settle_append(first.handle(world), world, more);
        let a = both.handle(world);
        let b = first.handle(world).with_bytes(more);
        assert(a.scan() == b.scan());
        assert(a.settle(world) == b.settle(world));
        assert(line.with_bytes(more).settle(world) == a.settle(world));
    } else {
        assert(line.settle(world) == first);
        assert(both == first.with_bytes(more).scan());
    }
}

/// The line stands for the reader: what the reader does with a read is to put it
/// behind all that is left over and to go on to the next frame, and it asks for a
/// CRC exactly if the line then holds a frame.
pub proof fn law_reader_follows_the_line(line: Line, data: Seq<u8>)
    ensures
        ({
            let (after, step) = line.state.on_read(data);
            let fed = line.with_bytes(data);
            &&& fed.state.pending == line.state.pending + data
            &&& after == fed.scan().state
            &&& step == if holds_frame(after.pending) {
                ReadStep::CheckCrc
            } else {
                ReadStep::Read
            }
            &&& fed.scan().buf == line.buf
            &&& fed.scan().takes == line.takes
            &&& fed.scan().out == line.out
        }),
{
}

/// How a stream is split does not matter: two reads do the same as one read of
/// all their bytes.
pub proof fn law_split_read(line: Line, world: World, a: Seq<u8>, b: Seq<u8>)
    ensures
        line.feed(world, a + b) == line.feed(world, a).feed(world, b),
{
    lemma_settle_append(line.with_bytes(a), world, b);
    assert(line.with_bytes(a + b) =~= line.with_bytes(a).with_bytes(b)) by {
        assert(line.state.pending + (a + b) =~= line.state.pending + a + b);
    }
}

/// How a stream is split does not matter: any number of reads do the same as
/// one read of all their bytes.
pub proof fn law_split_reads(line: Line, world: World, reads: Seq<Seq<u8>>)
    requires
        reads.len() > 0,
    ensures
        line.feed_all(world, reads) == line.feed(world, reads.flatten()),
    decreases reads.len(),
{
    let rest = reads.drop_last();
    assert(rest.push(reads.last()) =~= reads);
    rest.lemma_flatten_push(reads.last());
    if rest.len() == 0 {
        assert(rest =~= Seq::<Seq<u8>>::empty());
        assert(rest.flatten() =~= Seq::<u8>::empty());
        assert(reads.flatten() =~= reads.last());
        assert(line.feed_all(world, rest) == line);
    } else {
        law_split_reads(line, world, rest);
        law_split_read(line, world, rest.flatten(), reads.last());
    }
}

/// Bytes among which no frame can start are passed over.
pub proof fn law_noise_is_skipped(line: Line, world: World, noise: Seq<u8>, rest: Seq<u8>)
    requires
        line.state.pending.len() == 0,
        forall|i: int| 0 <= i < noise.len() ==> noise[i] != MAGIC_0,
    ensures
        line.feed(world, noise + rest) == line.feed(world, rest),
{
    lemma_no_magic(noise, rest);
    assert(line.state.pending + (noise + rest) =~= noise + rest);
    assert(line.state.pending + rest =~= rest);
    assert(line.with_bytes(noise + rest).scan() == line.with_bytes(rest).scan());
}

proof fn lemma_no_magic(noise: Seq<u8>, rest: Seq<u8>)
    requires
        forall|i: int| 0 <= i < noise.len() ==> noise[i] != MAGIC_0,
    ensures
        skip_noise(noise + rest) == skip_noise(rest),
    decreases noise.len(),
{
    if noise.len() == 0 {
        assert(noise + rest =~= rest);
    } else {
        assert((noise + rest)[0] == noise[0]);
        assert((noise + rest).skip(1) =~= noise.skip(1) + rest);
        lemma_no_magic(noise.skip(1), rest);
    }
}

/// A magic byte that no second one follows, and the byte behind it, are passed
/// over, once enough bytes for a frame are there.
pub proof fn law_false_magic_is_skipped(line: Line, world: World, other: u8, rest: Seq<u8>)
    requires
        line.state.pending.len() == 0,
        other != MAGIC_1,
        other != MAGIC_0,
        rest.len() + 2 >= FRAME_LEN_MIN,
    ensures
        line.feed(world, seq![MAGIC_0, other] + rest) == line.feed(world, rest),
{
    let s = seq![MAGIC_0, other] + rest;
    assert(s.skip(1).skip(1) =~= rest);
    assert(skip_noise(s) == skip_noise(s.skip(1)));
    assert(skip_noise(s.skip(1)) == skip_noise(rest));
    assert(line.state.pending + s =~= s);
    assert(line.state.pending + rest =~= rest);
    assert(line.with_bytes(s).scan() == line.with_bytes(rest).scan());
}

/// Whether the reader passes over the first of the bytes `s`: no frame can start
/// with it, or a frame does whose CRC is wrong.
pub open spec fn passed_over(world: World, s: Seq<u8>) -> bool {
    ||| rules_out(s)
    ||| holds_frame(s) && (world.crc)(frame_checked(s)) != frame_crc(s)
}

/// The reader finds its way back into the stream: whatever was damaged or is no
/// frame at all has no effect, and what follows is read as if it came alone.
pub proof fn law_stream_is_resynchronised(
    line: Line,
    world: World,
    damaged: Seq<u8>,
    rest: Seq<u8>,
)
    requires
        line.state.pending.len() == 0,
        forall|i: int|
            0 <= i < damaged.len() ==> passed_over(world, #[trigger] (damaged + rest).skip(i)),
    ensures
        line.feed(world, damaged + rest) == line.feed(world, rest),
    decreases damaged.len(),
{
    let s = damaged + rest;
    if damaged.len() == 0 {
        assert(s =~= rest);
    } else {
        let next = s.skip(1);
        assert(next =~= damaged.skip(1) + rest);
        assert(s.skip(0) =~= s);
        assert forall|i: int| 0 <= i < damaged.skip(1).len() implies passed_over(
            world,
            #[trigger] (damaged.skip(1) + rest).skip(i),
        ) by {
            assert((damaged.skip(1) + rest).skip(i) =~= s.skip(i + 1));
        }
        law_stream_is_resynchronised(line, world, damaged.skip(1), rest);
        lemma_passed_over(line, world, s);
    }
}

/// A byte that is passed over has no effect.
proof fn lemma_passed_over(line: Line, world: World, s: Seq<u8>)
    requires
        line.state.pending.len() == 0,
        s.len() > 0,
        passed_over(world, s),
    ensures
        line.feed(world, s) == line.feed(world, s.skip(1)),
{
    let next = s.skip(1);
    assert(line.state.pending + s =~= s);
    assert(line.state.pending + next =~= next);
    let both = line.with_bytes(s);
    if rules_out(s) {
        assert(both.scan() == line.with_bytes(next).scan());
    } else {
        lemma_skip_noise_done(next);
        let handled = both.scan().handle(world);
        assert(handled.scan() == line.with_bytes(next).scan());
        assert(handled.settle(world) == line.with_bytes(next).settle(world));
    }
    assert(both.settle(world) == line.with_bytes(next).settle(world));
}

/// A frame whose CRC is wrong leaves the reader as it was, but for the bytes
/// that are passed over: nothing is acknowledged, stored, forwarded or
/// delivered.
pub proof fn law_corrupt_frame_has_no_effect(line: Line, world: World)
    requires
        holds_frame(line.state.pending),
        (world.crc)(frame_checked(line.state.pending)) != frame_crc(line.state.pending),
    ensures
        line.handle(world) == (Line {
            state: ReaderState { pending: line.state.pending.skip(1), ..line.state },
            ..line
        }).scan(),
{
}

} // verus!
