//! The fixed-capacity vectors of `heapless`, as far as this crate uses them.
//!
//! A frame under construction is a `heapless::Vec<u8, CHUNK_LEN_MAX>`, the
//! chunks in flight are a `heapless::Vec<ChunkInfo, INFLIGHT_MAX>`.  Nothing in
//! this file is proved: each contract says what the source of `heapless`, or
//! the documentation of the standard library, shows.

use core::cmp::Ordering;
use vstd::prelude::*;

use crate::protocol::CHUNK_LEN_MAX;
use crate::sender::{latest_first, ChunkInfo, INFLIGHT_MAX};

verus! {

/// `heapless::Vec`, a vector of at most `N` items without heap storage.
#[verifier::external_type_specification]
#[verifier::external_body]
#[verifier::reject_recursive_types(T)]
pub struct ExVec<T, const N: usize>(heapless::Vec<T, N>);

/// The bytes that a frame buffer holds.
pub uninterp spec fn frame_bytes(v: heapless::Vec<u8, CHUNK_LEN_MAX>) -> Seq<u8>;

/// The entries that a list of chunks in flight holds.
pub uninterp spec fn listed_chunks(v: heapless::Vec<ChunkInfo, INFLIGHT_MAX>) -> Seq<ChunkInfo>;

/// Calls `heapless::Vec::clear`, which removes every item.
#[verifier::external_body]
pub(crate) fn frame_clear(v: &mut heapless::Vec<u8, CHUNK_LEN_MAX>)
    ensures
        frame_bytes(*final(v)) == Seq::<u8>::empty(),
{
    v.clear()
}

/// Calls `heapless::Vec::extend_from_slice`, which appends the slice in order
/// where all of it fits, and otherwise fails and changes nothing.
#[verifier::external_body]
pub(crate) fn frame_extend(v: &mut heapless::Vec<u8, CHUNK_LEN_MAX>, bytes: &[u8]) -> (r: Result<
    (),
    (),
>)
    ensures
        r is Ok <==> frame_bytes(*old(v)).len() + bytes@.len() <= CHUNK_LEN_MAX,
        r is Ok ==> frame_bytes(*final(v)) == frame_bytes(*old(v)) + bytes@,
        r is Err ==> frame_bytes(*final(v)) == frame_bytes(*old(v)),
{
    v.extend_from_slice(bytes)
}

/// Calls `heapless::Vec::as_slice`, the items in order.  There are never more
/// of them than the capacity.
#[verifier::external_body]
pub(crate) fn frame_slice(v: &heapless::Vec<u8, CHUNK_LEN_MAX>) -> (s: &[u8])
    ensures
        s@ == frame_bytes(*v),
        s@.len() <= CHUNK_LEN_MAX,
{
    v.as_slice()
}

/// Calls `heapless::Vec::as_mut_slice`, the items in order, to be written in
/// place.
#[verifier::external_body]
pub(crate) fn frame_slice_mut(v: &mut heapless::Vec<u8, CHUNK_LEN_MAX>) -> (s: &mut [u8])
    ensures
        s@ == frame_bytes(*old(v)),
        frame_bytes(*final(v)) == final(s)@,
{
    v.as_mut_slice()
}

/// Calls `heapless::Vec::new`, which gives a vector without items.
#[verifier::external_body]
pub(crate) fn chunks_new() -> (v: heapless::Vec<ChunkInfo, INFLIGHT_MAX>)
    ensures
        listed_chunks(v) == Seq::<ChunkInfo>::empty(),
{
    heapless::Vec::new()
}

/// Calls `heapless::Vec::push`, which appends the item where there is room, and
/// otherwise hands it back and changes nothing.
#[verifier::external_body]
pub(crate) fn chunks_push(v: &mut heapless::Vec<ChunkInfo, INFLIGHT_MAX>, info: ChunkInfo) -> (r:
    Result<(), ChunkInfo>)
    ensures
        r is Ok <==> listed_chunks(*old(v)).len() < INFLIGHT_MAX,
        r is Ok ==> listed_chunks(*final(v)) == listed_chunks(*old(v)).push(info),
        r is Err ==> r->Err_0 == info && listed_chunks(*final(v)) == listed_chunks(*old(v)),
{
    v.push(info)
}

/// Calls `heapless::Vec::remove`, which takes out one item and closes the gap.
#[verifier::external_body]
pub(crate) fn chunks_remove(v: &mut heapless::Vec<ChunkInfo, INFLIGHT_MAX>, index: usize) -> (info:
    ChunkInfo)
    requires
        index < listed_chunks(*old(v)).len(),
    ensures
        info == listed_chunks(*old(v))[index as int],
        listed_chunks(*final(v)) == listed_chunks(*old(v)).remove(index as int),
{
    v.remove(index)
}

/// Calls `heapless::Vec::as_slice` on a list of chunks: the items in order.
#[verifier::external_body]
pub(crate) fn chunks_slice(v: &heapless::Vec<ChunkInfo, INFLIGHT_MAX>) -> (s: &[ChunkInfo])
    ensures
        s@ == listed_chunks(*v),
        s@.len() <= INFLIGHT_MAX,
{
    v.as_slice()
}

/// Calls `heapless::Vec::as_mut_slice` on a list of chunks: the items in order,
/// to be written in place.
#[verifier::external_body]
pub(crate) fn chunks_slice_mut(v: &mut heapless::Vec<ChunkInfo, INFLIGHT_MAX>) -> (s:
    &mut [ChunkInfo])
    ensures
        s@ == listed_chunks(*old(v)),
        listed_chunks(*final(v)) == final(s)@,
{
    v.as_mut_slice()
}

/// Calls `sort_unstable_by` of the standard library with the comparison
/// [`latest_first`]: the same items, the one sent last in front.  The order of
/// items that were sent at the same time is left open.
#[verifier::external_body]
pub(crate) fn sort_latest_first(s: &mut [ChunkInfo])
    ensures
        final(s)@.to_multiset() == old(s)@.to_multiset(),
        forall|i: int, j: int|
            0 <= i < j < final(s)@.len() ==> final(s)@[i].last_sent_at
                >= final(s)@[j].last_sent_at,
{
    s.sort_unstable_by(|a: &ChunkInfo, b: &ChunkInfo| -> Ordering { latest_first(a, b) })
}

} // verus!
