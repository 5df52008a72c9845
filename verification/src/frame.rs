//! Frames as they go onto the wire.

use vstd::prelude::*;

use crate::bounded::{frame_bytes, frame_clear, frame_extend, frame_slice, frame_slice_mut};
use crate::bytes::{
    law_16_bits_are_little_endian, law_32_bits_are_little_endian, le16, le32, u16_to_le, u32_to_le,
};
use crate::protocol::{
    law_ack_layout, Ack, CHUNK_LEN_MAX, CHUNK_PAYLOAD_MAX, MAGIC, MAGIC_0, MAGIC_1, PACKET_ACK,
    PACKET_DATA,
};

verus! {

/// Bytes in front of a frame's body: magic, length and type.
pub const FRAME_HEADER_LEN: usize = 4;

/// Bytes in front of the payload in the body of a `DATA` frame: packet id,
/// packet length and chunk offset.
pub const DATA_HEADER_BODY_LEN: usize = 10;

/// Bytes of the CRC that ends a frame.
pub const CRC_LEN: usize = 4;

/// Bytes of one record in the body of an `ACK` frame.
pub const ACK_LEN: usize = 6;

/// The most records that the body of an `ACK` frame has room for.
pub const ACKS_MAX: usize = 23;

/// The most records that an `ACK` frame has room for behind its first one.
pub const MORE_ACKS_MAX: usize = ACKS_MAX - 1;

/// How many chunks a packet of `len` bytes is split into.
pub open spec fn chunk_count(len: nat) -> nat {
    (len + CHUNK_PAYLOAD_MAX - 1) as nat / CHUNK_PAYLOAD_MAX as nat
}

/// The bytes of chunk `i` of a packet.
pub open spec fn chunk_payload(data: Seq<u8>, i: nat) -> Seq<u8> {
    let start = i * CHUNK_PAYLOAD_MAX;
    let end = if data.len() <= start + CHUNK_PAYLOAD_MAX {
        data.len() as int
    } else {
        start + CHUNK_PAYLOAD_MAX
    };
    data.subrange(start as int, end)
}

/// The first four bytes of a frame of `len` bytes, the CRC not counted.
pub open spec fn frame_header(len: u8, kind: u8) -> Seq<u8> {
    seq![MAGIC_0, MAGIC_1, len, kind]
}

/// What stands in front of the payload in the body of a `DATA` frame.
pub open spec fn data_header(packet_id: u16, packet_length: u32, chunk_offset: u32) -> Seq<u8> {
    le16(packet_id) + le32(packet_length) + le32(chunk_offset)
}

/// A `DATA` frame without its CRC.
pub open spec fn data_frame(
    packet_id: u16,
    packet_length: u32,
    chunk_offset: u32,
    payload: Seq<u8>,
) -> Seq<u8> {
    frame_header((FRAME_HEADER_LEN + DATA_HEADER_BODY_LEN + payload.len()) as u8, PACKET_DATA)
        + data_header(packet_id, packet_length, chunk_offset) + payload
}

/// The `DATA` frame, without its CRC, for chunk `i` of a packet.
pub open spec fn chunk_frame(packet_id: u16, data: Seq<u8>, chunk_offset: u32) -> Seq<u8> {
    data_frame(
        packet_id,
        data.len() as u32,
        chunk_offset,
        chunk_payload(data, chunk_offset as nat),
    )
}

/// Acknowledgement records one after the other.
pub open spec fn acks_encoded(acks: Seq<Ack>) -> Seq<u8>
    decreases acks.len(),
{
    if acks.len() == 0 {
        Seq::empty()
    } else {
        acks_encoded(acks.drop_last()) + acks.last().encoded()
    }
}

/// An `ACK` frame without its CRC.
pub open spec fn ack_frame(acks: Seq<Ack>) -> Seq<u8> {
    frame_header((FRAME_HEADER_LEN + ACK_LEN * acks.len()) as u8, PACKET_ACK) + acks_encoded(acks)
}

/// A frame with its CRC, as it goes onto the wire.
pub open spec fn sealed(frame: Seq<u8>, crc: u32) -> Seq<u8> {
    frame + le32(crc)
}

/// The most records that one `ACK` frame is filled with.
pub open spec fn acks_per_frame() -> nat {
    ((CHUNK_LEN_MAX - CRC_LEN - FRAME_HEADER_LEN) / ACK_LEN as int) as nat
}

/// Records follow each other without a gap.
pub proof fn lemma_acks_encoded_len(acks: Seq<Ack>)
    ensures
        acks_encoded(acks).len() == ACK_LEN * acks.len(),
    decreases acks.len(),
{
    if acks.len() > 0 {
        lemma_acks_encoded_len(acks.drop_last());
    }
}

/// The frame for a chunk, byte for byte: magic, its own length, the type of `DATA`
/// frames, the packet id, the length of the whole packet, the index of the chunk,
/// and then the bytes of the packet from 128 times this index on, 128 of them or
/// as many as are left.
pub proof fn law_chunk_frame_layout(packet_id: u16, data: Seq<u8>, chunk_offset: u32)
    requires
        128 * chunk_offset <= data.len(),
    ensures
        ({
            let f = chunk_frame(packet_id, data, chunk_offset);
            let start = 128 * chunk_offset;
            let left = data.len() - start;
            &&& f.len() == 14 + if left < 128 { left } else { 128 }
            &&& f[0] == 0x5E && f[1] == 0x5E && f[2] == f.len() && f[3] == 0xDA
            &&& f[4] + 256 * f[5] == packet_id
            &&& f[6] + 256 * f[7] + 65536 * f[8] + 16777216 * f[9] == data.len() as u32
            &&& f[10] + 256 * f[11] + 65536 * f[12] + 16777216 * f[13] == chunk_offset
            &&& f.skip(14) == data.subrange(start, start + f.len() - 14)
        }),
{
    let f = chunk_frame(packet_id, data, chunk_offset);
    let id = le16(packet_id);
    let length = le32(data.len() as u32);
    let offset = le32(chunk_offset);
    law_16_bits_are_little_endian(packet_id, id);
    law_32_bits_are_little_endian(data.len() as u32, length);
    law_32_bits_are_little_endian(chunk_offset, offset);
    assert(f[4] == id[0] && f[5] == id[1]);
    assert(f[6] == length[0] && f[7] == length[1] && f[8] == length[2] && f[9] == length[3]);
    assert(f[10] == offset[0] && f[11] == offset[1] && f[12] == offset[2] && f[13] == offset[3]);
    assert(f.skip(14) =~= chunk_payload(data, chunk_offset as nat));
}

/// A packet is split into as many chunks as it takes: all but the last are full,
/// and the last is not empty.
pub proof fn law_chunks_make_up_a_packet(len: nat)
    ensures
        len <= 128 * chunk_count(len) < len + 128,
{
}

/// The CRC is only appended, its least significant byte first: what the frame
/// holds stays in front of it.
pub proof fn law_sealing_keeps_the_frame(frame: Seq<u8>, crc: u32)
    ensures
        sealed(frame, crc).len() == frame.len() + CRC_LEN,
        sealed(frame, crc).take(frame.len() as int) == frame,
        ({
            let trailer = sealed(frame, crc).skip(frame.len() as int);
            trailer[0] + 256 * trailer[1] + 65536 * trailer[2] + 16777216 * trailer[3] == crc
        }),
{
    assert(sealed(frame, crc).take(frame.len() as int) =~= frame);
    assert(sealed(frame, crc).skip(frame.len() as int) =~= le32(crc));
    law_32_bits_are_little_endian(crc, le32(crc));
}

/// Encodes the `DATA` frame for one chunk of `data` into `buf`, without the CRC,
/// which [`append_crc`] adds.
pub fn encode_data_frame(
    buf: &mut heapless::Vec<u8, CHUNK_LEN_MAX>,
    packet_id: u16,
    data: &[u8],
    chunk_offset: u32,
)
    requires
        chunk_offset * CHUNK_PAYLOAD_MAX <= data@.len(),
    ensures
        frame_bytes(*final(buf)) == chunk_frame(packet_id, data@, chunk_offset),
        ({
            let f = frame_bytes(*final(buf));
            let start = 128 * chunk_offset;
            let left = data@.len() - start;
            &&& f.len() == 14 + if left < 128 { left } else { 128 }
            &&& f[0] == 0x5E && f[1] == 0x5E && f[2] == f.len() && f[3] == 0xDA
            &&& f[4] + 256 * f[5] == packet_id
            &&& f[6] + 256 * f[7] + 65536 * f[8] + 16777216 * f[9] == data@.len() as u32
            &&& f[10] + 256 * f[11] + 65536 * f[12] + 16777216 * f[13] == chunk_offset
            &&& f.skip(14) == data@.subrange(start, start + f.len() - 14)
        }),
{
    let data_len: usize = data.len();
    let start: usize = chunk_offset as usize * CHUNK_PAYLOAD_MAX;
    let rest: usize = data_len - start;
    let len: usize = if rest < CHUNK_PAYLOAD_MAX {
        rest
    } else {
        CHUNK_PAYLOAD_MAX
    };
    let payload = vstd::slice::slice_subrange(data, start, start + len);
    assert(payload@ == chunk_payload(data@, chunk_offset as nat));
    let id = u16_to_le(packet_id);
    let length = u32_to_le(data_len as u32);
    let offset = u32_to_le(chunk_offset);
    frame_clear(buf);
    let _ = frame_extend(buf, MAGIC.as_slice());
    let head: [u8; 2] = [(FRAME_HEADER_LEN + DATA_HEADER_BODY_LEN + len) as u8, PACKET_DATA];
    let _ = frame_extend(buf, head.as_slice());
    let _ = frame_extend(buf, id.as_slice());
    let _ = frame_extend(buf, length.as_slice());
    let _ = frame_extend(buf, offset.as_slice());
    let _ = frame_extend(buf, payload);
    assert(frame_bytes(*buf) =~= chunk_frame(packet_id, data@, chunk_offset));
    proof {
        law_chunk_frame_layout(packet_id, data@, chunk_offset);
    }
}

/// An `ACK` frame that is still being filled: its length byte is 0.
pub open spec fn open_ack_frame(acks: Seq<Ack>) -> Seq<u8> {
    frame_header(0, PACKET_ACK) + acks_encoded(acks)
}

/// Starts an `ACK` frame with its first record.
pub fn start_ack_frame(buf: &mut heapless::Vec<u8, CHUNK_LEN_MAX>, ack: Ack)
    ensures
        frame_bytes(*final(buf)) == open_ack_frame(seq![ack]),
        frame_bytes(*final(buf)) == seq![0x5Eu8, 0x5E, 0, 0xAC] + ack.encoded(),
{
    frame_clear(buf);
    let _ = frame_extend(buf, MAGIC.as_slice());
    let head: [u8; 2] = [0, PACKET_ACK];
    let _ = frame_extend(buf, head.as_slice());
    let record = ack.to_buffer();
    let _ = frame_extend(buf, record.as_slice());
    proof {
        reveal_with_fuel(acks_encoded, 2);
        assert(frame_bytes(*buf) =~= open_ack_frame(seq![ack]));
        assert(frame_bytes(*buf) =~= seq![0x5Eu8, 0x5E, 0, 0xAC] + ack.encoded());
    }
}

/// Whether one more record and the CRC fit.
pub fn has_ack_room(buf: &heapless::Vec<u8, CHUNK_LEN_MAX>) -> (room: bool)
    ensures
        room == (frame_bytes(*buf).len() + ACK_LEN + CRC_LEN <= CHUNK_LEN_MAX),
        room == (frame_bytes(*buf).len() + 10 <= 146),
{
    CHUNK_LEN_MAX - frame_slice(buf).len() >= ACK_LEN + CRC_LEN
}

/// Adds one record to an `ACK` frame.
pub fn add_ack(buf: &mut heapless::Vec<u8, CHUNK_LEN_MAX>, ack: Ack)
    requires
        frame_bytes(*old(buf)).len() + ACK_LEN <= CHUNK_LEN_MAX,
    ensures
        frame_bytes(*final(buf)) == frame_bytes(*old(buf)) + ack.encoded(),
{
    let record = ack.to_buffer();
    let _ = frame_extend(buf, record.as_slice());
}

/// Writes the length byte of an `ACK` frame that holds all its records.
pub fn close_ack_frame(buf: &mut heapless::Vec<u8, CHUNK_LEN_MAX>)
    requires
        frame_bytes(*old(buf)).len() >= FRAME_HEADER_LEN,
    ensures
        frame_bytes(*final(buf)) == frame_bytes(*old(buf)).update(
            2,
            frame_bytes(*old(buf)).len() as u8,
        ),
{
    let len: usize = frame_slice(buf).len();
    let s = frame_slice_mut(buf);
    s[2] = len as u8;
}

/// An `ACK` frame can be built record by record: adding a record and closing the
/// frame give what is meant, and there is room for one more record as long as
/// the frame does not hold the most that it is filled with.
pub proof fn law_ack_frame_grows(acks: Seq<Ack>, ack: Ack)
    ensures
        open_ack_frame(acks).len() == FRAME_HEADER_LEN + ACK_LEN * acks.len(),
        open_ack_frame(acks) + ack.encoded() == open_ack_frame(acks.push(ack)),
        open_ack_frame(acks).update(2, open_ack_frame(acks).len() as u8) == ack_frame(acks),
        open_ack_frame(acks).len() + ACK_LEN + CRC_LEN <= CHUNK_LEN_MAX <==> acks.len()
            < acks_per_frame(),
{
    lemma_acks_encoded_len(acks);
    assert(acks.push(ack).drop_last() =~= acks);
    assert(open_ack_frame(acks) + ack.encoded() =~= open_ack_frame(acks.push(ack)));
    assert(open_ack_frame(acks).update(2, open_ack_frame(acks).len() as u8) =~= ack_frame(acks));
}

/// An `ACK` frame, byte for byte: magic, its own length, the type of `ACK` frames,
/// and the records one after the other, six bytes each.
pub proof fn law_ack_frame_layout(acks: Seq<Ack>, i: int)
    requires
        0 <= i < acks.len() <= acks_per_frame(),
    ensures
        ({
            let f = ack_frame(acks);
            let at = 4 + 6 * i;
            &&& f.len() == 4 + 6 * acks.len() <= 142
            &&& f[0] == 0x5E && f[1] == 0x5E && f[2] == f.len() && f[3] == 0xAC
            &&& f[at] + 256 * f[at + 1] == acks[i].packet_id
            &&& f[at + 2] + 256 * f[at + 3] + 65536 * f[at + 4] + 16777216 * f[at + 5]
                == acks[i].chunk_offset
        }),
{
    let f = ack_frame(acks);
    let e = acks[i].encoded();
    lemma_acks_encoded_len(acks);
    lemma_ack_stands_at(acks, i);
    law_ack_layout(acks[i], e);
    assert forall|k: int| 0 <= k < 6 implies #[trigger] f[4 + 6 * i + k] == e[k] by {
        assert(f[4 + 6 * i + k] == acks_encoded(acks)[6 * i + k]);
    }
    assert(f[4 + 6 * i + 0] == e[0]);
    assert(f[4 + 6 * i + 1] == e[1]);
    assert(f[4 + 6 * i + 2] == e[2]);
    assert(f[4 + 6 * i + 3] == e[3]);
    assert(f[4 + 6 * i + 4] == e[4]);
    assert(f[4 + 6 * i + 5] == e[5]);
}

/// Record `i` stands behind the `i` records in front of it.
proof fn lemma_ack_stands_at(acks: Seq<Ack>, i: int)
    requires
        0 <= i < acks.len(),
    ensures
        forall|k: int|
            0 <= k < 6 ==> #[trigger] acks_encoded(acks)[6 * i + k] == acks[i].encoded()[k],
    decreases acks.len(),
{
    let front = acks.drop_last();
    lemma_acks_encoded_len(front);
    if i < front.len() {
        lemma_ack_stands_at(front, i);
        assert forall|k: int| 0 <= k < 6 implies #[trigger] acks_encoded(acks)[6 * i + k]
            == acks[i].encoded()[k] by {
            assert(acks_encoded(front)[6 * i + k] == front[i].encoded()[k]);
        }
    }
}

/// Encodes an `ACK` frame into `buf`, without the CRC, which [`append_crc`] adds:
/// `first`, and behind it as many of the records `more`, in their order, as fit.
/// Returns how many of these are in the frame; [`MORE_ACKS_MAX`] always fit.
pub fn encode_ack_frame(
    buf: &mut heapless::Vec<u8, CHUNK_LEN_MAX>,
    first: Ack,
    more: &[Ack],
) -> (taken: usize)
    ensures
        taken == if more@.len() < MORE_ACKS_MAX {
            more@.len() as int
        } else {
            MORE_ACKS_MAX as int
        },
        frame_bytes(*final(buf)) == ack_frame(seq![first] + more@.take(taken as int)),
        taken == if more@.len() < 22 { more@.len() as int } else { 22 },
        ({
            let f = frame_bytes(*final(buf));
            &&& f.len() == 10 + 6 * taken
            &&& f[0] == 0x5E && f[1] == 0x5E && f[2] == f.len() && f[3] == 0xAC
            &&& f[4] + 256 * f[5] == first.packet_id
            &&& f[6] + 256 * f[7] + 65536 * f[8] + 16777216 * f[9] == first.chunk_offset
            &&& forall|i: int|
                #![trigger more@[i]]
                0 <= i < taken ==> {
                    &&& f[10 + 6 * i] + 256 * f[11 + 6 * i] == more@[i].packet_id
                    &&& f[12 + 6 * i] + 256 * f[13 + 6 * i] + 65536 * f[14 + 6 * i] + 16777216
                        * f[15 + 6 * i] == more@[i].chunk_offset
                }
        }),
{
    start_ack_frame(buf, first);
    let ghost mut acks = seq![first] + more@.take(0);
    let mut taken: usize = 0;
    proof {
        assert(acks =~= seq![first]);
        law_ack_frame_grows(acks, first);
    }
    while taken < more.len() && has_ack_room(buf)
        invariant
            taken <= more@.len(),
            taken <= MORE_ACKS_MAX,
            acks == seq![first] + more@.take(taken as int),
            frame_bytes(*buf) == open_ack_frame(acks),
            open_ack_frame(acks).len() == FRAME_HEADER_LEN + ACK_LEN * acks.len(),
        decreases more@.len() - taken,
    {
        let ack = more[taken];
        add_ack(buf, ack);
        proof {
            law_ack_frame_grows(acks, ack);
            assert(acks.push(ack) =~= seq![first] + more@.take(taken + 1));
            acks = acks.push(ack);
            law_ack_frame_grows(acks, ack);
        }
        taken += 1;
    }
    close_ack_frame(buf);
    proof {
        law_ack_frame_grows(acks, first);
        law_ack_frame_layout(acks, 0);
        assert forall|i: int| #![trigger more@[i]] 0 <= i < taken implies {
            let f = frame_bytes(*buf);
            &&& f[10 + 6 * i] + 256 * f[11 + 6 * i] == more@[i].packet_id
            &&& f[12 + 6 * i] + 256 * f[13 + 6 * i] + 65536 * f[14 + 6 * i] + 16777216 * f[15 + 6
                * i] == more@[i].chunk_offset
        } by {
            law_ack_frame_layout(acks, i + 1);
            assert(acks[i + 1] == more@[i]);
        }
    }
    taken
}

/// Appends the CRC to a frame.  A buffer without room for it stays as it is.
pub fn append_crc(buf: &mut heapless::Vec<u8, CHUNK_LEN_MAX>, crc: u32)
    ensures
        frame_bytes(*old(buf)).len() + CRC_LEN <= CHUNK_LEN_MAX ==> frame_bytes(*final(buf))
            == sealed(frame_bytes(*old(buf)), crc),
        frame_bytes(*old(buf)).len() + CRC_LEN > CHUNK_LEN_MAX ==> frame_bytes(*final(buf))
            == frame_bytes(*old(buf)),
        ({
            let f = frame_bytes(*final(buf));
            let n = frame_bytes(*old(buf)).len() as int;
            if n <= 142 {
                &&& f.len() == n + 4
                &&& f.take(n) == frame_bytes(*old(buf))
                &&& f[n] + 256 * f[n + 1] + 65536 * f[n + 2] + 16777216 * f[n + 3] == crc
            } else {
                f == frame_bytes(*old(buf))
            }
        }),
{
    let trailer = u32_to_le(crc);
    let _ = frame_extend(buf, trailer.as_slice());
    proof {
        law_sealing_keeps_the_frame(frame_bytes(*old(buf)), crc);
        let n = frame_bytes(*old(buf)).len() as int;
        if n <= 142 {
            assert(frame_bytes(*buf).skip(n) =~= trailer@);
        }
    }
}

} // verus!
