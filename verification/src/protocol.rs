//! Wire format constants and the acknowledgement record.

use vstd::prelude::*;

use crate::bytes::{
    from_le16, from_le32, law_16_bits_are_little_endian, law_32_bits_are_little_endian, le16, le32,
    lemma_from_le16_round_trip, lemma_from_le32_round_trip, lemma_le16_round_trip,
    lemma_le32_round_trip, u16_from_le, u16_to_le, u32_from_le, u32_to_le,
};

verus! {

/// Maximum application payload bytes per wire chunk, without the framing.
pub const CHUNK_PAYLOAD_MAX: usize = 128;

/// First byte of a frame (SEcure SErial).
pub const MAGIC_0: u8 = 0x5E;

/// Second byte of a frame.
pub const MAGIC_1: u8 = 0x5E;

/// The two bytes that every frame starts with.
pub const MAGIC: [u8; 2] = [MAGIC_0, MAGIC_1];

/// Type byte of a frame that carries one chunk of a packet.
pub const PACKET_DATA: u8 = 0xDA;

/// Type byte of a frame that carries acknowledgements.
pub const PACKET_ACK: u8 = 0xAC;

/// Upper bound on the size of one encoded wire chunk in bytes: magic, length,
/// type, packet id, packet length, chunk offset, payload and CRC.
pub const CHUNK_LEN_MAX: usize = 2 + 1 + 1 + 2 + 4 + 4 + CHUNK_PAYLOAD_MAX + 4;

/// Identifies which chunk of a packet the receiver has accepted.
#[derive(Debug, Clone, Copy, PartialEq, Eq, Structural)]
pub struct Ack {
    pub packet_id: u16,
    pub chunk_offset: u32,
}

impl Ack {
    /// The six bytes of the record on the wire.
    pub open spec fn encoded(self) -> Seq<u8> {
        le16(self.packet_id) + le32(self.chunk_offset)
    }

    /// The record that six bytes on the wire stand for.
    pub open spec fn decoded(s: Seq<u8>) -> Ack {
        Ack { packet_id: from_le16(s), chunk_offset: from_le32(s.skip(2)) }
    }

    /// Serializes this record to six little-endian bytes: the packet id, then
    /// the chunk offset.
    pub fn to_buffer(&self) -> (buffer: [u8; 6])
        ensures
            buffer@ == self.encoded(),
            buffer@[0] + 256 * buffer@[1] == self.packet_id,
            buffer@[2] + 256 * buffer@[3] + 65536 * buffer@[4] + 16777216 * buffer@[5]
                == self.chunk_offset,
    {
        let id = u16_to_le(self.packet_id);
        let offset = u32_to_le(self.chunk_offset);
        let buffer: [u8; 6] = [id[0], id[1], offset[0], offset[1], offset[2], offset[3]];
        assert(buffer@ =~= self.encoded());
        buffer
    }

    /// Decodes what [`Ack::to_buffer`] gives.
    pub fn from_buffer(buffer: [u8; 6]) -> (ack: Self)
        ensures
            ack == Ack::decoded(buffer@),
            ack.packet_id == buffer@[0] + 256 * buffer@[1],
            ack.chunk_offset == buffer@[2] + 256 * buffer@[3] + 65536 * buffer@[4] + 16777216
                * buffer@[5],
    {
        let s = buffer.as_slice();
        Ack { packet_id: u16_from_le(s, 0), chunk_offset: u32_from_le(s, 2) }
    }
}

/// A record stands on the wire as its packet id in two bytes and its chunk offset
/// in four, each with the least significant byte first, and six bytes are read in
/// the same way.
pub proof fn law_ack_layout(ack: Ack, s: Seq<u8>)
    requires
        s.len() >= 6,
    ensures
        ack.encoded().len() == 6,
        ack.encoded()[0] + 256 * ack.encoded()[1] == ack.packet_id,
        ack.encoded()[2] + 256 * ack.encoded()[3] + 65536 * ack.encoded()[4] + 16777216
            * ack.encoded()[5] == ack.chunk_offset,
        Ack::decoded(s).packet_id == s[0] + 256 * s[1],
        Ack::decoded(s).chunk_offset == s[2] + 256 * s[3] + 65536 * s[4] + 16777216 * s[5],
{
    let e = ack.encoded();
    let offset = le32(ack.chunk_offset);
    law_16_bits_are_little_endian(ack.packet_id, s);
    law_32_bits_are_little_endian(ack.chunk_offset, s.skip(2));
    assert(e[2] == offset[0] && e[3] == offset[1] && e[4] == offset[2] && e[5] == offset[3]);
}

/// A record survives the way over the wire: decoding its bytes gives it back,
/// whatever follows them.
pub proof fn law_ack_round_trip(ack: Ack, rest: Seq<u8>)
    ensures
        ack.encoded().len() == 6,
        Ack::decoded(ack.encoded() + rest) == ack,
{
    let s = ack.encoded() + rest;
    lemma_le16_round_trip(ack.packet_id, le32(ack.chunk_offset) + rest);
    lemma_le32_round_trip(ack.chunk_offset, rest);
    assert(s =~= le16(ack.packet_id) + (le32(ack.chunk_offset) + rest));
    assert(s.skip(2) =~= le32(ack.chunk_offset) + rest);
}

/// Every six bytes are the encoding of the record that they decode to, so no
/// two of them stand for the same record.
pub proof fn law_ack_bytes_round_trip(s: Seq<u8>)
    requires
        s.len() == 6,
    ensures
        Ack::decoded(s).encoded() == s,
{
    lemma_from_le16_round_trip(s);
    lemma_from_le32_round_trip(s.skip(2));
    assert(Ack::decoded(s).encoded() =~= s);
}

} // verus!
