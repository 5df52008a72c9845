//! The sending end over the whole transfer of a packet.

use vstd::prelude::*;
use vstd::set_lib::*;

use crate::frame::chunk_count;
use crate::protocol::Ack;
use crate::sender::{
    lemma_first_entry, lemma_same_chunks, position, sorted_latest_first, ChunkInfo, SendAction,
    SenderState,
    TransferState, INFLIGHT_MAX,
};

verus! {

/// What happens to a transfer.
pub ghost enum SendEvent {
    /// It was asked what to do.
    Polled,
    /// An acknowledgement came.
    Acked(Ack),
    /// A chunk was sent.
    Sent { chunk_offset: u32, at: u64 },
}

/// Whether `event` leads from one state to the other.
pub open spec fn leads_to(before: TransferState, event: SendEvent, after: TransferState) -> bool {
    match event {
        SendEvent::Polled => before.refilled(after),
        SendEvent::Acked(ack) => after == before.on_ack(ack),
        SendEvent::Sent { chunk_offset, at } => {
            &&& before.window.len() > 0
            &&& before.window.last().chunk_offset == chunk_offset
            &&& before.window.last().allowed_retransmits > 0
            &&& after == before.on_sent(at)
        },
    }
}

/// Whether `events`, one after the other, lead from one state to the other.
pub open spec fn run(before: TransferState, events: Seq<SendEvent>, after: TransferState) -> bool
    decreases events.len(),
{
    if events.len() == 0 {
        before == after
    } else {
        exists|mid: TransferState|
            run(before, events.drop_last(), mid) && #[trigger] leads_to(mid, events.last(), after)
    }
}

/// How often a chunk was sent.
pub open spec fn times_sent(events: Seq<SendEvent>, chunk_offset: u32) -> nat
    decreases events.len(),
{
    if events.len() == 0 {
        0
    } else {
        times_sent(events.drop_last(), chunk_offset) + match events.last() {
            SendEvent::Sent { chunk_offset: sent, .. } if sent == chunk_offset => 1nat,
            _ => 0nat,
        }
    }
}

/// When a chunk was last sent, 0 if never.
pub open spec fn last_sent(events: Seq<SendEvent>, chunk_offset: u32) -> u64
    decreases events.len(),
{
    if events.len() == 0 {
        0
    } else {
        match events.last() {
            SendEvent::Sent { chunk_offset: sent, at } if sent == chunk_offset => at,
            _ => last_sent(events.drop_last(), chunk_offset),
        }
    }
}

/// Whether the chunks in flight are all different.
pub open spec fn all_different(window: Seq<ChunkInfo>) -> bool {
    forall|i: int, j: int|
        0 <= i < j < window.len() ==> window[i].chunk_offset != window[j].chunk_offset
}

/// Whether a chunk is in flight.
pub open spec fn in_flight(window: Seq<ChunkInfo>, chunk_offset: int) -> bool {
    exists|i: int| 0 <= i < window.len() && #[trigger] window[i].chunk_offset == chunk_offset
}

/// What is known of a transfer after `events`: every chunk waits, is in flight
/// or has been acknowledged, and of every chunk it is known how often it was
/// sent and when last.
pub open spec fn accounted(
    start: TransferState,
    events: Seq<SendEvent>,
    now: TransferState,
) -> bool {
    &&& now.wf()
    &&& now == (TransferState { next: now.next, window: now.window, ..start })
    &&& all_different(now.window)
    &&& forall|c: int|
        0 <= c < now.next ==> #[trigger] in_flight(now.window, c) || events.contains(
            SendEvent::Acked(Ack { packet_id: now.packet_id, chunk_offset: c as u32 }),
        )
    &&& forall|i: int|
        0 <= i < now.window.len() ==> (#[trigger] now.window[i]).allowed_retransmits + times_sent(
            events,
            now.window[i].chunk_offset,
        ) == start.allowed_retransmits
    &&& forall|c: u32| #[trigger] times_sent(events, c) <= start.allowed_retransmits
    &&& forall|c: u32| c >= now.next ==> #[trigger] times_sent(events, c) == 0
    &&& forall|i: int|
        0 <= i < now.window.len() ==> (#[trigger] now.window[i]).last_sent_at == last_sent(
            events,
            now.window[i].chunk_offset,
        )
    &&& forall|c: u32| c >= now.next ==> #[trigger] last_sent(events, c) == 0
}

/// [`position`] is the first entry for the chunk, and is there exactly if the
/// chunk is in flight.
pub proof fn lemma_position(window: Seq<ChunkInfo>, chunk_offset: u32)
    ensures
        0 <= position(window, chunk_offset) <= window.len(),
        position(window, chunk_offset) < window.len() ==> window[position(
            window,
            chunk_offset,
        )].chunk_offset == chunk_offset,
        forall|j: int|
            0 <= j < position(window, chunk_offset) ==> #[trigger] window[j].chunk_offset
                != chunk_offset,
        position(window, chunk_offset) < window.len() <==> in_flight(window, chunk_offset as int),
{
    lemma_first_entry(window, chunk_offset);
}

/// Sorting keeps the chunks in flight different.
proof fn lemma_sorted_different(a: Seq<ChunkInfo>, b: Seq<ChunkInfo>)
    requires
        a.to_multiset() == b.to_multiset(),
        all_different(a),
    ensures
        all_different(b),
{
    assert(a.no_duplicates());
    a.lemma_multiset_has_no_duplicates();
    b.lemma_multiset_has_no_duplicates_conv();
    lemma_same_chunks(a, b);
    assert forall|i: int, j: int| 0 <= i < j < b.len() implies b[i].chunk_offset
        != b[j].chunk_offset by {
        assert(b.contains(b[i]) && b.contains(b[j]));
        let k = choose|k: int| 0 <= k < a.len() && a[k] == b[i];
        let l = choose|l: int| 0 <= l < a.len() && a[l] == b[j];
        if k < l {
            assert(a[k].chunk_offset != a[l].chunk_offset);
        } else if l < k {
            assert(a[l].chunk_offset != a[k].chunk_offset);
        }
    }
}

/// As many chunks are put in flight as are admitted.
pub proof fn lemma_refilled_len(before: TransferState, after: TransferState)
    requires
        before.refilled(after),
    ensures
        after.window.len() == before.window.len() + before.admitted(),
        after.next == before.next + before.admitted(),
{
    let sorted = choose|sorted: Seq<ChunkInfo>|
        {
            &&& sorted.to_multiset() == before.window.to_multiset()
            &&& sorted_latest_first(sorted)
            &&& after == #[trigger] before.with_window(sorted)
        };
    lemma_same_chunks(before.window, sorted);
}

proof fn lemma_after_polled(
    start: TransferState,
    events: Seq<SendEvent>,
    mid: TransferState,
    now: TransferState,
)
    requires
        events.len() > 0,
        start.data.len() <= u32::MAX,
        events.last() == SendEvent::Polled,
        accounted(start, events.drop_last(), mid),
        mid.refilled(now),
    ensures
        accounted(start, events, now),
{
    let front = events.drop_last();
    let sorted = choose|sorted: Seq<ChunkInfo>|
        {
            &&& sorted.to_multiset() == mid.window.to_multiset()
            &&& sorted_latest_first(sorted)
            &&& now == #[trigger] mid.with_window(sorted)
        };
    lemma_same_chunks(mid.window, sorted);
    lemma_sorted_different(mid.window, sorted);
    assert forall|c: u32| #[trigger] times_sent(events, c) == times_sent(front, c) by {}
    assert forall|c: u32| #[trigger] last_sent(events, c) == last_sent(front, c) by {}
    let n = sorted.len() as int;
    assert forall|i: int| 0 <= i < now.window.len() implies {
        &&& i < n ==> now.window[i] == sorted[i] && mid.window.contains(sorted[i])
        &&& i >= n ==> #[trigger] now.window[i] == mid.fresh(mid.next + (i - n))
    } by {
        if i < n {
            assert(sorted.contains(sorted[i]));
        }
    }
    assert(all_different(now.window));
    assert forall|i: int| 0 <= i < now.window.len() implies (
    #[trigger] now.window[i]).allowed_retransmits + times_sent(events, now.window[i].chunk_offset)
        == start.allowed_retransmits by {
        if i < n {
            assert(sorted.contains(sorted[i]));
            let k = choose|k: int| 0 <= k < mid.window.len() && mid.window[k] == sorted[i];
            assert(mid.window[k].allowed_retransmits + times_sent(
                front,
                mid.window[k].chunk_offset,
            ) == start.allowed_retransmits);
        }
    }
    assert forall|i: int| 0 <= i < now.window.len() implies (
    #[trigger] now.window[i]).last_sent_at == last_sent(events, now.window[i].chunk_offset) by {
        if i < n {
            assert(sorted.contains(sorted[i]));
            let k = choose|k: int| 0 <= k < mid.window.len() && mid.window[k] == sorted[i];
            assert(mid.window[k].last_sent_at == last_sent(front, mid.window[k].chunk_offset));
        }
    }
    assert forall|c: int| 0 <= c < now.next implies #[trigger] in_flight(now.window, c)
        || events.contains(
        SendEvent::Acked(Ack { packet_id: now.packet_id, chunk_offset: c as u32 }),
    ) by {
        let event = SendEvent::Acked(Ack { packet_id: now.packet_id, chunk_offset: c as u32 });
        if c >= mid.next {
            assert(now.window[n + (c - mid.next)].chunk_offset == c);
        } else if in_flight(mid.window, c) {
            let k = choose|k: int|
                0 <= k < mid.window.len() && #[trigger] mid.window[k].chunk_offset == c;
            assert(mid.window.contains(mid.window[k]));
            let l = choose|l: int| 0 <= l < sorted.len() && sorted[l] == mid.window[k];
            assert(now.window[l].chunk_offset == c);
        } else {
            let k = choose|k: int| 0 <= k < front.len() && front[k] == event;
            assert(events[k] == event);
        }
    }
}

proof fn lemma_after_acked(
    start: TransferState,
    events: Seq<SendEvent>,
    ack: Ack,
    mid: TransferState,
    now: TransferState,
)
    requires
        events.len() > 0,
        events.last() == SendEvent::Acked(ack),
        accounted(start, events.drop_last(), mid),
        now == mid.on_ack(ack),
    ensures
        accounted(start, events, now),
{
    let front = events.drop_last();
    let p = position(mid.window, ack.chunk_offset);
    lemma_position(mid.window, ack.chunk_offset);
    assert forall|c: u32| #[trigger] times_sent(events, c) == times_sent(front, c) by {}
    assert forall|c: u32| #[trigger] last_sent(events, c) == last_sent(front, c) by {}
    let removed = ack.packet_id == mid.packet_id && p < mid.window.len();
    assert forall|i: int| 0 <= i < now.window.len() implies #[trigger] now.window[i]
        == mid.window[if removed && i >= p { i + 1 } else { i }] by {}
    assert forall|c: int| 0 <= c < now.next implies #[trigger] in_flight(now.window, c)
        || events.contains(
        SendEvent::Acked(Ack { packet_id: now.packet_id, chunk_offset: c as u32 }),
    ) by {
        let event = SendEvent::Acked(Ack { packet_id: now.packet_id, chunk_offset: c as u32 });
        if in_flight(mid.window, c) {
            let k = choose|k: int|
                0 <= k < mid.window.len() && #[trigger] mid.window[k].chunk_offset == c;
            if removed && k == p {
                assert(events[events.len() - 1] == event);
            } else {
                let l = if removed && k > p { k - 1 } else { k };
                assert(now.window[l].chunk_offset == c);
            }
        } else {
            let k = choose|k: int| 0 <= k < front.len() && front[k] == event;
            assert(events[k] == event);
        }
    }
}

proof fn lemma_after_sent(
    start: TransferState,
    events: Seq<SendEvent>,
    chunk_offset: u32,
    at: u64,
    mid: TransferState,
    now: TransferState,
)
    requires
        events.len() > 0,
        events.last() == (SendEvent::Sent { chunk_offset, at }),
        accounted(start, events.drop_last(), mid),
        leads_to(mid, events.last(), now),
    ensures
        accounted(start, events, now),
{
    let front = events.drop_last();
    let last = mid.window.len() - 1;
    assert(mid.window[last].chunk_offset == chunk_offset);
    assert forall|c: u32| #[trigger]
        times_sent(events, c) == times_sent(front, c) + if c == chunk_offset {
            1nat
        } else {
            0nat
        } by {}
    assert forall|i: int| 0 <= i < now.window.len() implies (
    #[trigger] now.window[i]).allowed_retransmits + times_sent(events, now.window[i].chunk_offset)
        == start.allowed_retransmits by {
        assert(mid.window[i].allowed_retransmits + times_sent(front, mid.window[i].chunk_offset)
            == start.allowed_retransmits);
        if i < last {
            assert(mid.window[i].chunk_offset != mid.window[last].chunk_offset);
        }
    }
    assert forall|c: u32| #[trigger]
        last_sent(events, c) == if c == chunk_offset {
            at
        } else {
            last_sent(front, c)
        } by {}
    assert forall|i: int| 0 <= i < now.window.len() implies (
    #[trigger] now.window[i]).last_sent_at == last_sent(events, now.window[i].chunk_offset) by {
        if i < last {
            assert(mid.window[i].last_sent_at == last_sent(front, mid.window[i].chunk_offset));
            assert(mid.window[i].chunk_offset != mid.window[last].chunk_offset);
        }
    }
    assert forall|c: int| 0 <= c < now.next implies #[trigger] in_flight(now.window, c)
        || events.contains(
        SendEvent::Acked(Ack { packet_id: now.packet_id, chunk_offset: c as u32 }),
    ) by {
        let event = SendEvent::Acked(Ack { packet_id: now.packet_id, chunk_offset: c as u32 });
        if in_flight(mid.window, c) {
            let k = choose|k: int|
                0 <= k < mid.window.len() && #[trigger] mid.window[k].chunk_offset == c;
            assert(now.window[k].chunk_offset == c);
        } else {
            let k = choose|k: int| 0 <= k < front.len() && front[k] == event;
            assert(events[k] == event);
        }
    }
}

/// At every point of a transfer each of its chunks waits, is in flight or has
/// been acknowledged; no chunk is in flight twice, and no more of them are than
/// the sender allows; the transmissions that a chunk has left and those that it
/// has had make up what was allowed; and the time noted for it is that of the last
/// one.
pub proof fn law_chunks_are_accounted(
    sender: SenderState,
    data: Seq<u8>,
    events: Seq<SendEvent>,
    now: TransferState,
)
    requires
        1 <= sender.n_inflight <= INFLIGHT_MAX,
        data.len() <= u32::MAX,
        run(sender.start(data), events, now),
    ensures
        accounted(sender.start(data), events, now),
    decreases events.len(),
{
    let start = sender.start(data);
    if events.len() > 0 {
        let front = events.drop_last();
        let mid = choose|mid: TransferState|
            run(start, front, mid) && #[trigger] leads_to(mid, events.last(), now);
        law_chunks_are_accounted(sender, data, front, mid);
        match events.last() {
            SendEvent::Polled => lemma_after_polled(start, events, mid, now),
            SendEvent::Acked(ack) => lemma_after_acked(start, events, ack, mid, now),
            SendEvent::Sent { chunk_offset, at } => lemma_after_sent(
                start,
                events,
                chunk_offset,
                at,
                mid,
                now,
            ),
        }
    }
}

/// A transfer is done only when every chunk of its packet has been
/// acknowledged.
pub proof fn law_done_when_all_acknowledged(
    sender: SenderState,
    data: Seq<u8>,
    events: Seq<SendEvent>,
    now: TransferState,
    chunk_offset: u32,
)
    requires
        1 <= sender.n_inflight <= INFLIGHT_MAX,
        data.len() <= u32::MAX,
        run(sender.start(data), events, now),
        events.len() > 0,
        events.last() == SendEvent::Polled,
        now.action() == SendAction::Done,
        chunk_offset < chunk_count(data.len()),
    ensures
        events.contains(SendEvent::Acked(Ack { packet_id: now.packet_id, chunk_offset })),
{
    let start = sender.start(data);
    law_chunks_are_accounted(sender, data, events, now);
    let mid = choose|mid: TransferState|
        run(start, events.drop_last(), mid) && #[trigger] leads_to(mid, events.last(), now);
    law_chunks_are_accounted(sender, data, events.drop_last(), mid);
    lemma_refilled_len(mid, now);
    assert(!in_flight(now.window, chunk_offset as int));
}

/// A transfer is done as soon as no chunk waits and none is in flight, and not
/// before.
pub proof fn law_done_when_nothing_is_left(before: TransferState, after: TransferState)
    requires
        before.wf(),
        before.refilled(after),
    ensures
        after.action() == SendAction::Done <==> before.window.len() == 0 && before.next
            == before.total(),
{
    lemma_refilled_len(before, after);
}

/// No chunk is sent more often than allowed, and a transfer fails only for a
/// chunk that has been sent as often as allowed.
pub proof fn law_transmissions_are_limited(
    sender: SenderState,
    data: Seq<u8>,
    events: Seq<SendEvent>,
    now: TransferState,
)
    requires
        1 <= sender.n_inflight <= INFLIGHT_MAX,
        data.len() <= u32::MAX,
        run(sender.start(data), events, now),
    ensures
        forall|c: u32| #[trigger] times_sent(events, c) <= sender.allowed_retransmits,
        now.window.len() > 0 && now.window.last().allowed_retransmits == 0 ==> times_sent(
            events,
            now.window.last().chunk_offset,
        ) == sender.allowed_retransmits,
{
    law_chunks_are_accounted(sender, data, events, now);
}

/// The chunk that is sent next is one of those that have waited longest.
pub proof fn law_longest_waiting_chunk_is_next(before: TransferState, after: TransferState)
    requires
        before.refilled(after),
    ensures
        forall|i: int|
            0 <= i < after.window.len() ==> after.window.last().last_sent_at
                <= #[trigger] after.window[i].last_sent_at,
{
}

/// A packet without bytes is done at once: nothing is sent for it.
pub proof fn law_empty_packet_is_done(sender: SenderState, after: TransferState)
    requires
        sender.start(Seq::empty()).refilled(after),
    ensures
        after.action() == SendAction::Done,
{
    lemma_refilled_len(sender.start(Seq::empty()), after);
}

/// Whether a caller that acts at `at` has waited as long as it was told to.
pub open spec fn has_waited(state: TransferState, at: u64) -> bool {
    state.action() matches SendAction::WaitUntil(due) && due <= at
}

/// Whether `events` lead from one state to the other, and the caller has waited
/// before everything that it sent.
pub open spec fn paced_run(
    before: TransferState,
    events: Seq<SendEvent>,
    after: TransferState,
) -> bool
    decreases events.len(),
{
    if events.len() == 0 {
        before == after
    } else {
        exists|mid: TransferState|
            {
                &&& paced_run(before, events.drop_last(), mid)
                &&& #[trigger] leads_to(mid, events.last(), after)
                &&& events.last() matches SendEvent::Sent { at, .. } ==> has_waited(mid, at)
            }
    }
}

/// The time to wait for, before the next chunk is sent or the transfer fails for
/// it, is that at which the chunk was last sent, and the delay more.
pub proof fn law_next_attempt_is_due_after_the_delay(
    sender: SenderState,
    data: Seq<u8>,
    events: Seq<SendEvent>,
    now: TransferState,
    due: u64,
)
    requires
        1 <= sender.n_inflight <= INFLIGHT_MAX,
        data.len() <= u32::MAX,
        run(sender.start(data), events, now),
        now.action() == SendAction::WaitUntil(due),
    ensures
        due == last_sent(events, now.window.last().chunk_offset) + sender.retransmit_delay,
{
    law_chunks_are_accounted(sender, data, events, now);
    assert(now.window.last() == now.window[now.window.len() - 1]);
}

/// If a chunk was sent, then not after it was last sent.
spec fn not_after_last(events: Seq<SendEvent>, event: SendEvent) -> bool {
    event matches SendEvent::Sent { chunk_offset, at } ==> at <= last_sent(events, chunk_offset)
}

/// In a paced run the last transmission of a chunk is the latest one.
proof fn lemma_paced(
    sender: SenderState,
    data: Seq<u8>,
    events: Seq<SendEvent>,
    now: TransferState,
)
    requires
        1 <= sender.n_inflight <= INFLIGHT_MAX,
        data.len() <= u32::MAX,
        paced_run(sender.start(data), events, now),
    ensures
        run(sender.start(data), events, now),
        forall|j: int|
            0 <= j < events.len() ==> not_after_last(events, #[trigger] events[j]),
    decreases events.len(),
{
    let start = sender.start(data);
    if events.len() > 0 {
        let front = events.drop_last();
        let mid = choose|mid: TransferState|
            {
                &&& paced_run(start, front, mid)
                &&& #[trigger] leads_to(mid, events.last(), now)
                &&& events.last() matches SendEvent::Sent { at, .. } ==> has_waited(mid, at)
            };
        lemma_paced(sender, data, front, mid);
        if let SendEvent::Sent { chunk_offset, at } = events.last() {
            law_next_attempt_is_due_after_the_delay(
                sender,
                data,
                front,
                mid,
                mid.action()->WaitUntil_0,
            );
            assert(last_sent(front, chunk_offset) <= at);
        }
        assert forall|j: int| 0 <= j < events.len() implies not_after_last(
            events,
            #[trigger] events[j],
        ) by {
            if j < front.len() {
                assert(front[j] == events[j]);
                assert(not_after_last(front, front[j]));
            }
        }
    }
}

/// A chunk is not sent again before the delay since it was sent is over, if the
/// caller waits as it is told to.
pub proof fn law_transmissions_are_spaced(
    sender: SenderState,
    data: Seq<u8>,
    events: Seq<SendEvent>,
    now: TransferState,
    chunk_offset: u32,
    j: int,
    first_at: u64,
    k: int,
    then_at: u64,
)
    requires
        1 <= sender.n_inflight <= INFLIGHT_MAX,
        data.len() <= u32::MAX,
        paced_run(sender.start(data), events, now),
        0 <= j < k < events.len(),
        events[j] == (SendEvent::Sent { chunk_offset, at: first_at }),
        events[k] == (SendEvent::Sent { chunk_offset, at: then_at }),
    ensures
        first_at + sender.retransmit_delay <= then_at,
    decreases events.len(),
{
    let start = sender.start(data);
    let front = events.drop_last();
    let mid = choose|mid: TransferState|
        {
            &&& paced_run(start, front, mid)
            &&& #[trigger] leads_to(mid, events.last(), now)
            &&& events.last() matches SendEvent::Sent { at, .. } ==> has_waited(mid, at)
        };
    assert(front[j] == events[j]);
    if k < front.len() {
        assert(front[k] == events[k]);
        law_transmissions_are_spaced(
            sender,
            data,
            front,
            mid,
            chunk_offset,
            j,
            first_at,
            k,
            then_at,
        );
    } else {
        lemma_paced(sender, data, front, mid);
        assert(not_after_last(front, front[j]));
        law_next_attempt_is_due_after_the_delay(
            sender,
            data,
            front,
            mid,
            mid.action()->WaitUntil_0,
        );
    }
}

/// A transfer does not fail for a chunk before the delay since the chunk was last
/// sent is over, if the caller waits as it is told to, and it has then been sent
/// as often as allowed.
pub proof fn law_failure_waits_for_the_delay(
    sender: SenderState,
    data: Seq<u8>,
    events: Seq<SendEvent>,
    now: TransferState,
    failed_at: u64,
    j: int,
    sent_at: u64,
)
    requires
        1 <= sender.n_inflight <= INFLIGHT_MAX,
        data.len() <= u32::MAX,
        paced_run(sender.start(data), events, now),
        has_waited(now, failed_at),
        now.window.last().allowed_retransmits == 0,
        0 <= j < events.len(),
        events[j] == (SendEvent::Sent {
            chunk_offset: now.window.last().chunk_offset,
            at: sent_at,
        }),
    ensures
        sent_at + sender.retransmit_delay <= failed_at,
        times_sent(events, now.window.last().chunk_offset) == sender.allowed_retransmits,
{
    lemma_paced(sender, data, events, now);
    assert(not_after_last(events, events[j]));
    law_next_attempt_is_due_after_the_delay(
        sender,
        data,
        events,
        now,
        now.action()->WaitUntil_0,
    );
    law_transmissions_are_limited(sender, data, events, now);
}

/// What holds of every state holds of the next.
proof fn lemma_step(before: TransferState, event: SendEvent, after: TransferState)
    requires
        before.wf(),
        before.data.len() <= u32::MAX,
        leads_to(before, event, after),
    ensures
        after.wf(),
        after.data == before.data,
        after.packet_id == before.packet_id,
        before.next <= after.next,
{
    match event {
        SendEvent::Polled => {
            let sorted = choose|sorted: Seq<ChunkInfo>|
                {
                    &&& sorted.to_multiset() == before.window.to_multiset()
                    &&& sorted_latest_first(sorted)
                    &&& after == #[trigger] before.with_window(sorted)
                };
            lemma_same_chunks(before.window, sorted);
            assert forall|i: int| 0 <= i < sorted.len() implies before.window.contains(
                #[trigger] sorted[i],
            ) by {
                assert(sorted.contains(sorted[i]));
            }
        },
        SendEvent::Acked(ack) => {
            lemma_position(before.window, ack.chunk_offset);
        },
        _ => {},
    }
}

/// A chunk that is neither waiting nor in flight stays so.
proof fn lemma_stays_finished(
    before: TransferState,
    event: SendEvent,
    after: TransferState,
    chunk_offset: u32,
)
    requires
        before.wf(),
        before.data.len() <= u32::MAX,
        leads_to(before, event, after),
        chunk_offset < before.next,
        !in_flight(before.window, chunk_offset as int),
    ensures
        !in_flight(after.window, chunk_offset as int),
        !(event matches SendEvent::Sent { chunk_offset: sent, .. } && sent == chunk_offset),
{
    match event {
        SendEvent::Polled => {
            let sorted = choose|sorted: Seq<ChunkInfo>|
                {
                    &&& sorted.to_multiset() == before.window.to_multiset()
                    &&& sorted_latest_first(sorted)
                    &&& after == #[trigger] before.with_window(sorted)
                };
            lemma_same_chunks(before.window, sorted);
            assert forall|i: int| 0 <= i < after.window.len() implies #[trigger] after.window[
                i
            ].chunk_offset != chunk_offset by {
                if i < sorted.len() {
                    assert(sorted.contains(sorted[i]));
                    let k = choose|k: int|
                        0 <= k < before.window.len() && before.window[k] == sorted[i];
                    assert(before.window[k].chunk_offset != chunk_offset);
                }
            }
        },
        SendEvent::Acked(ack) => {
            let p = position(before.window, ack.chunk_offset);
            lemma_position(before.window, ack.chunk_offset);
            assert forall|i: int| 0 <= i < after.window.len() implies #[trigger] after.window[
                i
            ].chunk_offset != chunk_offset by {
                let k = if after.window.len() < before.window.len() && i >= p {
                    i + 1
                } else {
                    i
                };
                assert(after.window[i] == before.window[k]);
                assert(before.window[k].chunk_offset != chunk_offset);
            }
        },
        SendEvent::Sent { .. } => {
            let last = before.window.len() - 1;
            assert(before.window[last].chunk_offset != chunk_offset);
            assert forall|i: int| 0 <= i < after.window.len() implies #[trigger] after.window[
                i
            ].chunk_offset != chunk_offset by {
                assert(before.window[i].chunk_offset != chunk_offset);
            }
        },
    }
}

proof fn lemma_finished(
    before: TransferState,
    events: Seq<SendEvent>,
    now: TransferState,
    chunk_offset: u32,
)
    requires
        before.wf(),
        before.data.len() <= u32::MAX,
        chunk_offset < before.next,
        !in_flight(before.window, chunk_offset as int),
        run(before, events, now),
    ensures
        now.wf(),
        now.data == before.data,
        before.next <= now.next,
        !in_flight(now.window, chunk_offset as int),
        times_sent(events, chunk_offset) == 0,
    decreases events.len(),
{
    if events.len() > 0 {
        let mid = choose|mid: TransferState|
            run(before, events.drop_last(), mid) && #[trigger] leads_to(mid, events.last(), now);
        lemma_finished(before, events.drop_last(), mid, chunk_offset);
        lemma_step(mid, events.last(), now);
        lemma_stays_finished(mid, events.last(), now, chunk_offset);
    }
}

/// A chunk whose acknowledgement was taken in while it was in flight is done with
/// for good: whatever comes later, it is not in flight again, is not sent again,
/// and is not what the transfer fails for.
pub proof fn law_acknowledged_chunk_is_done_with(
    sender: SenderState,
    data: Seq<u8>,
    events: Seq<SendEvent>,
    mid: TransferState,
    ack: Ack,
    later: Seq<SendEvent>,
    now: TransferState,
)
    requires
        1 <= sender.n_inflight <= INFLIGHT_MAX,
        data.len() <= u32::MAX,
        run(sender.start(data), events, mid),
        ack.packet_id == mid.packet_id,
        in_flight(mid.window, ack.chunk_offset as int),
        run(mid.on_ack(ack), later, now),
    ensures
        !in_flight(now.window, ack.chunk_offset as int),
        times_sent(later, ack.chunk_offset) == 0,
        now.window.len() > 0 ==> now.window.last().chunk_offset != ack.chunk_offset,
{
    law_chunks_are_accounted(sender, data, events, mid);
    let c = ack.chunk_offset;
    let p = position(mid.window, c);
    lemma_position(mid.window, c);
    let after = mid.on_ack(ack);
    lemma_step(mid, SendEvent::Acked(ack), after);
    assert(mid.window[p].chunk_offset < mid.next);
    assert forall|i: int| 0 <= i < after.window.len() implies #[trigger] after.window[
        i
    ].chunk_offset != c by {
        let k = if i >= p {
            i + 1
        } else {
            i
        };
        assert(after.window[i] == mid.window[k]);
        if k < p {
            assert(mid.window[k].chunk_offset != mid.window[p].chunk_offset);
        } else {
            assert(mid.window[p].chunk_offset != mid.window[k].chunk_offset);
        }
    }
    lemma_finished(after, later, now, c);
    if now.window.len() > 0 {
        assert(now.window.last() == now.window[now.window.len() - 1]);
    }
}

/// Whether the acknowledgement of a chunk has been taken in.
pub open spec fn is_acknowledged(events: Seq<SendEvent>, packet_id: u16, c: int) -> bool {
    events.contains(SendEvent::Acked(Ack { packet_id, chunk_offset: c as u32 }))
}

/// When chunk `j` is sent, at most as many of the chunks up to it as may be in
/// flight have not been acknowledged: all but so many of the chunks in front of it
/// have been.
pub proof fn law_sent_chunk_is_within_the_window(
    sender: SenderState,
    data: Seq<u8>,
    events: Seq<SendEvent>,
    now: TransferState,
    j: u32,
    at: u64,
    after: TransferState,
)
    requires
        1 <= sender.n_inflight <= INFLIGHT_MAX,
        data.len() <= u32::MAX,
        run(sender.start(data), events, now),
        leads_to(now, SendEvent::Sent { chunk_offset: j, at }, after),
    ensures
        ({
            let open = Set::new(
                |c: int| 0 <= c <= j && !is_acknowledged(events, now.packet_id, c),
            );
            let closed_before = Set::new(
                |c: int| 0 <= c < j && is_acknowledged(events, now.packet_id, c),
            );
            &&& open.finite()
            &&& open.len() <= sender.n_inflight
            &&& closed_before.finite()
            &&& closed_before.len() + sender.n_inflight >= j + 1
        }),
{
    law_chunks_are_accounted(sender, data, events, now);
    let id = now.packet_id;
    let open = Set::new(|c: int| 0 <= c <= j && !is_acknowledged(events, id, c));
    let closed_before = Set::new(|c: int| 0 <= c < j && is_acknowledged(events, id, c));
    let last = now.window.len() - 1;
    assert(now.window[last].chunk_offset == j);
    let offsets = now.window.map_values(|info: ChunkInfo| info.chunk_offset as int);
    let flying = offsets.to_set();
    offsets.lemma_cardinality_of_set();
    assert(flying.finite()) by {
        vstd::seq_lib::seq_to_set_is_finite(offsets);
    }
    assert(offsets[last] == j);
    assert(flying.contains(j as int));
    assert forall|c: int| 0 <= c <= j && !is_acknowledged(events, id, c) implies flying.contains(
        c,
    ) by {
        assert(in_flight(now.window, c));
        let k = choose|k: int|
            0 <= k < now.window.len() && #[trigger] now.window[k].chunk_offset == c;
        assert(offsets[k] == c);
    }
    assert(open.subset_of(flying));
    lemma_len_subset(open, flying);
    let open_before = open.remove(j as int);
    assert(open_before.subset_of(flying.remove(j as int)));
    lemma_len_subset(open_before, flying.remove(j as int));
    let before = set_int_range(0, j as int);
    lemma_int_range(0, j as int);
    assert(closed_before.subset_of(before));
    lemma_len_subset(closed_before, before);
    assert(closed_before =~= before.difference(open_before));
    assert(before =~= closed_before.union(open_before));
    assert(closed_before.disjoint(open_before));
    lemma_set_disjoint_lens(closed_before, open_before);
}

} // verus!
