//! The zigzag transform: signed integers to unsigned ones, so that values of
//! small magnitude, of either sign, become small unsigned values.
use vstd::prelude::*;

verus! {

/// Zigzag image of a signed integer: `0, -1, 1, -2, 2, ...` map to `0, 1, 2, 3, 4, ...`.
pub open spec fn zigzag(i: int) -> int {
    if i >= 0 {
        2 * i
    } else {
        -2 * i - 1
    }
}

/// Inverse of `zigzag`: even values give the non-negative integers, odd ones the negative.
pub open spec fn unzigzag(u: int) -> int {
    if u % 2 == 0 {
        u / 2
    } else {
        -((u + 1) / 2)
    }
}

/// Encodes a 16-bit signed integer as `(i << 1) ^ (i >> 15)`.
pub fn ZigZagEncode16(i: &i16) -> (r: u16)
    ensures
        r as int == zigzag(*i as int),
{
    let x: i16 = *i;
    let r = ((x << 1u32) ^ (x >> 15u32)) as u16;
    assert(r == (if x >= 0 { 2 * x } else { -2 * x - 1 }) as u16) by (bit_vector)
        requires
            r == ((x << 1u32) ^ (x >> 15u32)) as u16,
    ;
    r
}


/// Encodes a 32-bit signed integer as `(i << 1) ^ (i >> 31)`.
pub fn ZigZagEncode32(i: &i32) -> (r: u32)
    ensures
        r as int == zigzag(*i as int),
{
    let x: i32 = *i;
    let r = ((x << 1u32) ^ (x >> 31u32)) as u32;
    assert(r == (if x >= 0 { 2 * x } else { -2 * x - 1 }) as u32) by (bit_vector)
        requires
            r == ((x << 1u32) ^ (x >> 31u32)) as u32,
    ;
    r
}

/// Encodes a 64-bit signed integer as `(i << 1) ^ (i >> 63)`.
pub fn ZigZagEncode64(i: &i64) -> (r: u64)
    ensures
        r as int == zigzag(*i as int),
{
    let x: i64 = *i;
    let r = ((x << 1u32) ^ (x >> 63u32)) as u64;
    assert(r == (if x >= 0 { 2 * x } else { -2 * x - 1 }) as u64) by (bit_vector)
        requires
            r == ((x << 1u32) ^ (x >> 63u32)) as u64,
    ;
    r
}

/// Decodes a 16-bit zigzag value as `(u >> 1) ^ -(u & 1)`.
pub fn ZigZagDecode16(i: u16) -> (r: i16)
    ensures
        r as int == unzigzag(i as int),
{
    let half: u16 = i >> 1u32;
    let low: u16 = i & 1u16;
    assert(low <= 1 && half <= 0x7fff) by (bit_vector)
        requires
            half == i >> 1u32,
            low == i & 1u16,
    ;
    let r = (half as i16) ^ (-(low as i16));
    assert(r == (if i % 2 == 0 { (i / 2) as int } else { -((i + 1) / 2) }) as i16) by (bit_vector)
        requires
            r == ((i >> 1u32) as i16) ^ ((-((i & 1u16) as i16)) as i16),
    ;
    r
}

/// Decodes a 32-bit zigzag value as `(u >> 1) ^ -(u & 1)`.
pub fn ZigZagDecode32(i: u32) -> (r: i32)
    ensures
        r as int == unzigzag(i as int),
{
    let half: u32 = i >> 1u32;
    let low: u32 = i & 1u32;
    assert(low <= 1 && half <= 0x7fff_ffff) by (bit_vector)
        requires
            half == i >> 1u32,
            low == i & 1u32,
    ;
    let r = (half as i32) ^ (-(low as i32));
    assert(r == (if i % 2 == 0 { (i / 2) as int } else { -((i + 1) / 2) }) as i32) by (bit_vector)
        requires
            r == ((i >> 1u32) as i32) ^ ((-((i & 1u32) as i32)) as i32),
    ;
    r
}

/// Decodes a 64-bit zigzag value as `(u >> 1) ^ -(u & 1)`.
pub fn ZigZagDecode64(i: u64) -> (r: i64)
    ensures
        r as int == unzigzag(i as int),
{
    let half: u64 = i >> 1u32;
    let low: u64 = i & 1u64;
    assert(low <= 1 && half <= 0x7fff_ffff_ffff_ffff) by (bit_vector)
        requires
            half == i >> 1u32,
            low == i & 1u64,
    ;
    let r = (half as i64) ^ (-(low as i64));
    assert(r == (if i % 2 == 0 { (i / 2) as int } else { -((i + 1) / 2) }) as i64) by (bit_vector)
        requires
            r == ((i >> 1u32) as i64) ^ ((-((i & 1u64) as i64)) as i64),
    ;
    r
}

/// Decoding undoes encoding: `unzigzag(zigzag(i)) == i` for every integer, and
/// encoding undoes decoding on every non-negative value, so the transform is a
/// bijection between the integers and the naturals.
pub proof fn lemma_zigzag_round_trip(i: int, u: int)
    requires
        u >= 0,
    ensures
        unzigzag(zigzag(i)) == i,
        zigzag(unzigzag(u)) == u,
        zigzag(i) >= 0,
{
}

/// Values of smaller magnitude have smaller transforms.
pub proof fn lemma_zigzag_order(i: int, j: int)
    requires
        abs(i) < abs(j),
    ensures
        zigzag(i) < zigzag(j),
{
}

/// Magnitude of an integer.
pub open spec fn abs(i: int) -> int {
    if i < 0 {
        -i
    } else {
        i
    }
}

} // verus!
