use vstd::prelude::*;

verus! {

/// Byte order of the multi-byte integers on the wire.
#[derive(Debug, Clone, Copy, PartialEq, Eq, Structural)]
pub enum Endian {
    /// Most significant byte first: the canonical order.
    Big,
    /// Least significant byte first.
    Little,
}

/// The bytes of a field as they stand in memory, put in big-endian order.
pub open spec fn ordered(s: Seq<u8>, e: Endian) -> Seq<u8> {
    match e {
        Endian::Big => s,
        Endian::Little => s.reverse(),
    }
}

pub open spec fn be_u16(s: Seq<u8>) -> u16 {
    ((s[0] as u16) << 8u16) | (s[1] as u16)
}

pub open spec fn be_u32(s: Seq<u8>) -> u32 {
    ((s[0] as u32) << 24u32) | ((s[1] as u32) << 16u32) | ((s[2] as u32) << 8u32) | (s[3] as u32)
}

pub open spec fn be_u64(s: Seq<u8>) -> u64 {
    ((s[0] as u64) << 56u64) | ((s[1] as u64) << 48u64) | ((s[2] as u64) << 40u64) | ((s[3] as u64)
        << 32u64) | ((s[4] as u64) << 24u64) | ((s[5] as u64) << 16u64) | ((s[6] as u64) << 8u64)
        | (s[7] as u64)
}

pub open spec fn u16_be(v: u16) -> Seq<u8> {
    seq![(v >> 8u16) as u8, v as u8]
}

pub open spec fn u32_be(v: u32) -> Seq<u8> {
    seq![(v >> 24u32) as u8, (v >> 16u32) as u8, (v >> 8u32) as u8, v as u8]
}

pub open spec fn u64_be(v: u64) -> Seq<u8> {
    seq![
        (v >> 56u64) as u8,
        (v >> 48u64) as u8,
        (v >> 40u64) as u8,
        (v >> 32u64) as u8,
        (v >> 24u64) as u8,
        (v >> 16u64) as u8,
        (v >> 8u64) as u8,
        v as u8,
    ]
}

/// The two bytes that hold `v` in byte order `e`.
pub open spec fn u16_bytes(v: u16, e: Endian) -> Seq<u8> {
    ordered(u16_be(v), e)
}

/// The four bytes that hold `v` in byte order `e`.
pub open spec fn u32_bytes(v: u32, e: Endian) -> Seq<u8> {
    ordered(u32_be(v), e)
}

/// The eight bytes that hold `v` in byte order `e`.
pub open spec fn u64_bytes(v: u64, e: Endian) -> Seq<u8> {
    ordered(u64_be(v), e)
}

/// The value of two bytes in byte order `e`.
pub open spec fn u16_of(s: Seq<u8>, e: Endian) -> u16 {
    be_u16(ordered(s, e))
}

/// The value of four bytes in byte order `e`.
pub open spec fn u32_of(s: Seq<u8>, e: Endian) -> u32 {
    be_u32(ordered(s, e))
}

/// The value of eight bytes in byte order `e`.
pub open spec fn u64_of(s: Seq<u8>, e: Endian) -> u64 {
    be_u64(ordered(s, e))
}

proof fn lemma_reverse_twice(s: Seq<u8>)
    ensures
        s.reverse().reverse() == s,
        s.reverse().len() == s.len(),
{
    assert(s.reverse().reverse() =~= s);
}

/// Decoding the bytes of a 16-bit value gives the value back.
pub proof fn lemma_u16_round_trip(v: u16, e: Endian)
    ensures
        u16_bytes(v, e).len() == 2,
        u16_of(u16_bytes(v, e), e) == v,
{
    lemma_reverse_twice(u16_be(v));
    assert(ordered(u16_bytes(v, e), e) == u16_be(v));
    let b0 = (v >> 8u16) as u8;
    let b1 = v as u8;
    assert((((b0 as u16) << 8u16) | (b1 as u16)) == v) by (bit_vector)
        requires
            b0 == (v >> 8u16) as u8,
            b1 == v as u8,
    ;
}

/// Decoding the bytes of a 32-bit value gives the value back.
pub proof fn lemma_u32_round_trip(v: u32, e: Endian)
    ensures
        u32_bytes(v, e).len() == 4,
        u32_of(u32_bytes(v, e), e) == v,
{
    lemma_reverse_twice(u32_be(v));
    assert(ordered(u32_bytes(v, e), e) == u32_be(v));
    let b0 = (v >> 24u32) as u8;
    let b1 = (v >> 16u32) as u8;
    let b2 = (v >> 8u32) as u8;
    let b3 = v as u8;
    assert((((b0 as u32) << 24u32) | ((b1 as u32) << 16u32) | ((b2 as u32) << 8u32) | (b3 as u32))
        == v) by (bit_vector)
        requires
            b0 == (v >> 24u32) as u8,
            b1 == (v >> 16u32) as u8,
            b2 == (v >> 8u32) as u8,
            b3 == v as u8,
    ;
}

/// Decoding the bytes of a 64-bit value gives the value back.
pub proof fn lemma_u64_round_trip(v: u64, e: Endian)
    ensures
        u64_bytes(v, e).len() == 8,
        u64_of(u64_bytes(v, e), e) == v,
{
    lemma_reverse_twice(u64_be(v));
    assert(ordered(u64_bytes(v, e), e) == u64_be(v));
    let b0 = (v >> 56u64) as u8;
    let b1 = (v >> 48u64) as u8;
    let b2 = (v >> 40u64) as u8;
    let b3 = (v >> 32u64) as u8;
    let b4 = (v >> 24u64) as u8;
    let b5 = (v >> 16u64) as u8;
    let b6 = (v >> 8u64) as u8;
    let b7 = v as u8;
    assert((((b0 as u64) << 56u64) | ((b1 as u64) << 48u64) | ((b2 as u64) << 40u64) | ((b3 as u64)
        << 32u64) | ((b4 as u64) << 24u64) | ((b5 as u64) << 16u64) | ((b6 as u64) << 8u64) | (b7 as u64))
        == v) by (bit_vector)
        requires
            b0 == (v >> 56u64) as u8,
            b1 == (v >> 48u64) as u8,
            b2 == (v >> 40u64) as u8,
            b3 == (v >> 32u64) as u8,
            b4 == (v >> 24u64) as u8,
            b5 == (v >> 16u64) as u8,
            b6 == (v >> 8u64) as u8,
            b7 == v as u8,
    ;
}

/// Reinterpreting a signed 16-bit value as unsigned and back is the identity.
pub proof fn lemma_i16_cast(v: i16)
    ensures
        (v as u16) as i16 == v,
{
    assert((v as u16) as i16 == v) by (bit_vector);
}

/// Reinterpreting a signed 32-bit value as unsigned and back is the identity.
pub proof fn lemma_i32_cast(v: i32)
    ensures
        (v as u32) as i32 == v,
{
    assert((v as u32) as i32 == v) by (bit_vector);
}

/// Reinterpreting a signed 64-bit value as unsigned and back is the identity.
pub proof fn lemma_i64_cast(v: i64)
    ensures
        (v as u64) as i64 == v,
{
    assert((v as u64) as i64 == v) by (bit_vector);
}

} // verus!
