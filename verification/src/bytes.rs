//! Little-endian encoding of the integers on the wire.

use vstd::prelude::*;

verus! {

/// The two little-endian bytes of `x`.
pub open spec fn le16(x: u16) -> Seq<u8> {
    seq![(x % 256) as u8, (x / 256) as u8]
}

/// The four little-endian bytes of `x`.
pub open spec fn le32(x: u32) -> Seq<u8> {
    seq![
        (x % 256) as u8,
        (x / 256 % 256) as u8,
        (x / 65536 % 256) as u8,
        (x / 16777216) as u8,
    ]
}

/// The number whose little-endian bytes are the first two of `s`.
pub open spec fn from_le16(s: Seq<u8>) -> u16 {
    (s[0] + 256 * s[1]) as u16
}

/// The number whose little-endian bytes are the first four of `s`.
pub open spec fn from_le32(s: Seq<u8>) -> u32 {
    (s[0] + 256 * s[1] + 65536 * s[2] + 16777216 * s[3]) as u32
}

pub(crate) fn u16_to_le(x: u16) -> (b: [u8; 2])
    ensures
        b@ == le16(x),
        b@[0] + 256 * b@[1] == x,
{
    let b: [u8; 2] = [(x % 256) as u8, (x / 256) as u8];
    assert(b@ =~= le16(x));
    b
}

pub(crate) fn u32_to_le(x: u32) -> (b: [u8; 4])
    ensures
        b@ == le32(x),
        b@[0] + 256 * b@[1] + 65536 * b@[2] + 16777216 * b@[3] == x,
{
    let b: [u8; 4] = [
        (x % 256) as u8,
        (x / 256 % 256) as u8,
        (x / 65536 % 256) as u8,
        (x / 16777216) as u8,
    ];
    assert(b@ =~= le32(x));
    b
}

/// Reads the two bytes of `s` from position `at` on.
pub(crate) fn u16_from_le(s: &[u8], at: usize) -> (x: u16)
    requires
        at + 2 <= s@.len(),
    ensures
        x == from_le16(s@.skip(at as int)),
        x == s@[at as int] + 256 * s@[at + 1],
{
    s[at] as u16 + 256 * (s[at + 1] as u16)
}

/// Reads the four bytes of `s` from position `at` on.
pub(crate) fn u32_from_le(s: &[u8], at: usize) -> (x: u32)
    requires
        at + 4 <= s@.len(),
    ensures
        x == from_le32(s@.skip(at as int)),
        x == s@[at as int] + 256 * s@[at + 1] + 65536 * s@[at + 2] + 16777216 * s@[at + 3],
{
    s[at] as u32 + 256 * (s[at + 1] as u32) + 65536 * (s[at + 2] as u32) + 16777216 * (
    s[at + 3] as u32)
}

/// The least significant byte of a 16-bit number comes first, both ways.
pub proof fn law_16_bits_are_little_endian(x: u16, s: Seq<u8>)
    requires
        s.len() >= 2,
    ensures
        le16(x).len() == 2,
        le16(x)[0] + 256 * le16(x)[1] == x,
        from_le16(s) == s[0] + 256 * s[1],
{
}

/// The least significant byte of a 32-bit number comes first, both ways.
pub proof fn law_32_bits_are_little_endian(x: u32, s: Seq<u8>)
    requires
        s.len() >= 4,
    ensures
        le32(x).len() == 4,
        le32(x)[0] + 256 * le32(x)[1] + 65536 * le32(x)[2] + 16777216 * le32(x)[3] == x,
        from_le32(s) == s[0] + 256 * s[1] + 65536 * s[2] + 16777216 * s[3],
{
}

/// Decoding the bytes of a 16-bit number gives the number back, whatever
/// follows them.
pub proof fn lemma_le16_round_trip(x: u16, rest: Seq<u8>)
    ensures
        le16(x).len() == 2,
        from_le16(le16(x) + rest) == x,
{
}

/// Decoding the bytes of a 32-bit number gives the number back, whatever
/// follows them.
pub proof fn lemma_le32_round_trip(x: u32, rest: Seq<u8>)
    ensures
        le32(x).len() == 4,
        from_le32(le32(x) + rest) == x,
{
}

/// Two bytes are the encoding of the number that they decode to.
pub proof fn lemma_from_le16_round_trip(s: Seq<u8>)
    requires
        s.len() >= 2,
    ensures
        le16(from_le16(s)) == s.take(2),
{
    assert(le16(from_le16(s)) =~= s.take(2));
}

/// Four bytes are the encoding of the number that they decode to.
pub proof fn lemma_from_le32_round_trip(s: Seq<u8>)
    requires
        s.len() >= 4,
    ensures
        le32(from_le32(s)) == s.take(4),
{
    let x = from_le32(s);
    let upper = s[1] + 256 * s[2] + 65536 * s[3];
    let top = s[2] + 256 * s[3];
    assert(x == s[0] + 256 * upper);
    assert(x % 256 == s[0] && x / 256 == upper);
    assert(upper % 256 == s[1] && upper / 256 == top);
    assert(top % 256 == s[2] && top / 256 == s[3]);
    assert(x / 65536 == top && x / 16777216 == s[3]);
    assert(le32(from_le32(s)) =~= s.take(4));
}

} // verus!
