//! Fixed-width integers read from byte sequences.

use vstd::prelude::*;

verus! {

/// The little-endian `u16` stored at `b[i..i + 2]`.
pub open spec fn le_u16(b: Seq<u8>, i: int) -> u16 {
    (b[i] + b[i + 1] * 0x100) as u16
}

/// The little-endian `u32` stored at `b[i..i + 4]`.
pub open spec fn le_u32(b: Seq<u8>, i: int) -> u32 {
    (b[i] + b[i + 1] * 0x100 + b[i + 2] * 0x10000 + b[i + 3] * 0x1000000) as u32
}

/// The little-endian two's-complement `i32` stored at `b[i..i + 4]`.
pub open spec fn le_i32(b: Seq<u8>, i: int) -> i32 {
    le_u32(b, i) as i32
}

/// The big-endian `u16` stored at `b[i..i + 2]`.
pub open spec fn be_u16(b: Seq<u8>, i: int) -> u16 {
    (b[i] * 0x100 + b[i + 1]) as u16
}

/// The big-endian `u32` stored at `b[i..i + 4]`.
pub open spec fn be_u32(b: Seq<u8>, i: int) -> u32 {
    (b[i] * 0x1000000 + b[i + 1] * 0x10000 + b[i + 2] * 0x100 + b[i + 3]) as u32
}

pub fn read_le_u16(b: &[u8], i: usize) -> (v: u16)
    requires
        i + 2 <= b@.len(),
    ensures
        v == le_u16(b@, i as int),
{
    (b[i] as u16) + (b[i + 1] as u16) * 0x100
}

pub fn read_le_u32(b: &[u8], i: usize) -> (v: u32)
    requires
        i + 4 <= b@.len(),
    ensures
        v == le_u32(b@, i as int),
{
    (b[i] as u32) + (b[i + 1] as u32) * 0x100 + (b[i + 2] as u32) * 0x10000 + (b[i + 3] as u32)
        * 0x1000000
}

pub fn read_le_i32(b: &[u8], i: usize) -> (v: i32)
    requires
        i + 4 <= b@.len(),
    ensures
        v == le_i32(b@, i as int),
{
    read_le_u32(b, i) as i32
}

pub fn read_be_u16(b: &[u8], i: usize) -> (v: u16)
    requires
        i + 2 <= b@.len(),
    ensures
        v == be_u16(b@, i as int),
{
    (b[i] as u16) * 0x100 + (b[i + 1] as u16)
}

pub fn read_be_u32(b: &[u8], i: usize) -> (v: u32)
    requires
        i + 4 <= b@.len(),
    ensures
        v == be_u32(b@, i as int),
{
    (b[i] as u32) * 0x1000000 + (b[i + 1] as u32) * 0x10000 + (b[i + 2] as u32) * 0x100 + (b[i
        + 3] as u32)
}

/// Byte `k` of a little-endian `u16` is digit `k` of its value in base 256:
/// the low byte comes first.
pub proof fn lemma_le_u16_digits(b: Seq<u8>, i: int)
    requires
        0 <= i,
        i + 2 <= b.len(),
    ensures
        le_u16(b, i) % 0x100 == b[i],
        le_u16(b, i) / 0x100 == b[i + 1],
{
    let x0 = b[i];
    let x1 = b[i + 1];
    assert(le_u16(b, i) == (x0 as u16) + (x1 as u16) * 0x100);
    assert(((x0 as u16) + (x1 as u16) * 0x100) % 0x100 == x0) by (bit_vector);
    assert(((x0 as u16) + (x1 as u16) * 0x100) / 0x100 == x1) by (bit_vector);
}

/// Byte `k` of a little-endian `u32` is digit `k` of its value in base 256:
/// the least significant byte comes first.
pub proof fn lemma_le_u32_digits(b: Seq<u8>, i: int)
    requires
        0 <= i,
        i + 4 <= b.len(),
    ensures
        le_u32(b, i) % 0x100 == b[i],
        (le_u32(b, i) / 0x100) % 0x100 == b[i + 1],
        (le_u32(b, i) / 0x10000) % 0x100 == b[i + 2],
        le_u32(b, i) / 0x1000000 == b[i + 3],
{
    let x0 = b[i];
    let x1 = b[i + 1];
    let x2 = b[i + 2];
    let x3 = b[i + 3];
    let v = (x0 as u32) + (x1 as u32) * 0x100 + (x2 as u32) * 0x10000 + (x3 as u32) * 0x1000000;
    assert(le_u32(b, i) == v);
    assert(((x0 as u32) + (x1 as u32) * 0x100 + (x2 as u32) * 0x10000 + (x3 as u32) * 0x1000000)
        % 0x100 == x0) by (bit_vector);
    assert((((x0 as u32) + (x1 as u32) * 0x100 + (x2 as u32) * 0x10000 + (x3 as u32) * 0x1000000)
        / 0x100) % 0x100 == x1) by (bit_vector);
    assert((((x0 as u32) + (x1 as u32) * 0x100 + (x2 as u32) * 0x10000 + (x3 as u32) * 0x1000000)
        / 0x10000) % 0x100 == x2) by (bit_vector);
    assert(((x0 as u32) + (x1 as u32) * 0x100 + (x2 as u32) * 0x10000 + (x3 as u32) * 0x1000000)
        / 0x1000000 == x3) by (bit_vector);
}

/// Reading back the little-endian bytes of `x` gives `x`.
pub proof fn lemma_le_u32_round_trip(x: u32)
    ensures
        le_u32(
            seq![
                (x % 0x100) as u8,
                ((x / 0x100) % 0x100) as u8,
                ((x / 0x10000) % 0x100) as u8,
                (x / 0x1000000) as u8,
            ],
            0,
        ) == x,
{
    let b = seq![
        (x % 0x100) as u8,
        ((x / 0x100) % 0x100) as u8,
        ((x / 0x10000) % 0x100) as u8,
        (x / 0x1000000) as u8,
    ];
    lemma_le_u32_digits(b, 0);
    let v = le_u32(b, 0);
    assert(v == x) by (bit_vector)
        requires
            v % 0x100 == x % 0x100,
            (v / 0x100) % 0x100 == (x / 0x100) % 0x100,
            (v / 0x10000) % 0x100 == (x / 0x10000) % 0x100,
            v / 0x1000000 == x / 0x1000000,
    ;
}

/// A little-endian `i32` has the bits of the little-endian `u32` at the same place.
pub proof fn lemma_le_i32_bits(b: Seq<u8>, i: int)
    requires
        0 <= i,
        i + 4 <= b.len(),
    ensures
        le_i32(b, i) as u32 == le_u32(b, i),
        le_i32(b, i) >= 0 <==> b[i + 3] < 0x80,
{
    lemma_le_u32_digits(b, i);
    let v = le_u32(b, i);
    let x3 = b[i + 3];
    assert((v as i32) as u32 == v) by (bit_vector);
    assert(v / 0x1000000 == x3 ==> ((v as i32) >= 0 <==> x3 < 0x80)) by (bit_vector);
}

/// Byte `k` of a big-endian `u16` is digit `1 - k` of its value in base 256:
/// the high byte comes first.
pub proof fn lemma_be_u16_digits(b: Seq<u8>, i: int)
    requires
        0 <= i,
        i + 2 <= b.len(),
    ensures
        be_u16(b, i) / 0x100 == b[i],
        be_u16(b, i) % 0x100 == b[i + 1],
{
    let x0 = b[i];
    let x1 = b[i + 1];
    assert(be_u16(b, i) == (x0 as u16) * 0x100 + (x1 as u16));
    assert(((x0 as u16) * 0x100 + (x1 as u16)) / 0x100 == x0) by (bit_vector);
    assert(((x0 as u16) * 0x100 + (x1 as u16)) % 0x100 == x1) by (bit_vector);
}

/// Byte `k` of a big-endian `u32` is digit `3 - k` of its value in base 256:
/// the most significant byte comes first.
pub proof fn lemma_be_u32_digits(b: Seq<u8>, i: int)
    requires
        0 <= i,
        i + 4 <= b.len(),
    ensures
        be_u32(b, i) / 0x1000000 == b[i],
        (be_u32(b, i) / 0x10000) % 0x100 == b[i + 1],
        (be_u32(b, i) / 0x100) % 0x100 == b[i + 2],
        be_u32(b, i) % 0x100 == b[i + 3],
{
    let x0 = b[i];
    let x1 = b[i + 1];
    let x2 = b[i + 2];
    let x3 = b[i + 3];
    assert(be_u32(b, i) == (x0 as u32) * 0x1000000 + (x1 as u32) * 0x10000 + (x2 as u32) * 0x100
        + (x3 as u32));
    assert(((x0 as u32) * 0x1000000 + (x1 as u32) * 0x10000 + (x2 as u32) * 0x100 + (x3 as u32))
        / 0x1000000 == x0) by (bit_vector);
    assert((((x0 as u32) * 0x1000000 + (x1 as u32) * 0x10000 + (x2 as u32) * 0x100 + (x3 as u32))
        / 0x10000) % 0x100 == x1) by (bit_vector);
    assert((((x0 as u32) * 0x1000000 + (x1 as u32) * 0x10000 + (x2 as u32) * 0x100 + (x3 as u32))
        / 0x100) % 0x100 == x2) by (bit_vector);
    assert(((x0 as u32) * 0x1000000 + (x1 as u32) * 0x10000 + (x2 as u32) * 0x100 + (x3 as u32))
        % 0x100 == x3) by (bit_vector);
}

} // verus!
