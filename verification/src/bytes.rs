//! Little-endian byte encodings of the fixed-width integers that appear on
//! the wire: `u16` sequence numbers, `u32` counters and protocol ids, and
//! `u64` client identifiers.
//!
//! Each width has an encoding spec (`..._le`), a value-recovery spec
//! (`..._from_le`), lemmas showing the two are mutually inverse, and
//! executable helpers that append to or read from byte vectors.

use vstd::arithmetic::div_mod::{
    lemma_div_denominator, lemma_div_is_ordered, lemma_fundamental_div_mod,
    lemma_fundamental_div_mod_converse, lemma_mod_division_less_than_divisor,
};
use vstd::prelude::*;

verus! {

/// The two little-endian bytes of a 16-bit value.
pub open spec fn u16_le(x: u16) -> Seq<u8> {
    seq![(x % 256) as u8, (x / 256) as u8]
}

/// The value carried by two little-endian bytes.
pub open spec fn u16_from_le(b: Seq<u8>) -> int
    recommends
        b.len() == 2,
{
    b[0] + 256 * b[1]
}

/// The four little-endian bytes of a 32-bit value.
pub open spec fn u32_le(x: u32) -> Seq<u8> {
    seq![
        (x % 256) as u8,
        ((x / 256) % 256) as u8,
        ((x / 65536) % 256) as u8,
        (x / 16777216) as u8,
    ]
}

/// The value carried by four little-endian bytes.
pub open spec fn u32_from_le(b: Seq<u8>) -> int
    recommends
        b.len() == 4,
{
    b[0] + 256 * b[1] + 65536 * b[2] + 16777216 * b[3]
}

/// The eight little-endian bytes of a 64-bit value.
pub open spec fn u64_le(x: u64) -> Seq<u8> {
    seq![
        (x % 256) as u8,
        ((x / 256) % 256) as u8,
        ((x / 65536) % 256) as u8,
        ((x / 16777216) % 256) as u8,
        ((x / 4294967296) % 256) as u8,
        ((x / 1099511627776) % 256) as u8,
        ((x / 281474976710656) % 256) as u8,
        (x / 72057594037927936) as u8,
    ]
}

/// The value carried by eight little-endian bytes.
pub open spec fn u64_from_le(b: Seq<u8>) -> int
    recommends
        b.len() == 8,
{
    b[0] + 256 * b[1] + 65536 * b[2] + 16777216 * b[3] + 4294967296 * b[4] + 1099511627776 * b[5]
        + 281474976710656 * b[6] + 72057594037927936 * b[7]
}

/// Encoding a 16-bit value and reading the bytes back recovers the value.
pub proof fn lemma_u16_le_identity(x: u16)
    ensures
        u16_le(x).len() == 2,
        u16_from_le(u16_le(x)) == x,
{
    lemma_fundamental_div_mod(x as int, 256);
    lemma_mod_division_less_than_divisor(x as int, 256);
    lemma_div_is_ordered(x as int, 65535, 256);
}

/// Any two bytes are the encoding of the value they carry.
pub proof fn lemma_u16_from_le_identity(b: Seq<u8>)
    requires
        b.len() == 2,
    ensures
        0 <= u16_from_le(b) < 65536,
        u16_le(u16_from_le(b) as u16) == b,
{
    let x = u16_from_le(b);
    lemma_fundamental_div_mod_converse(x, 256, b[1] as int, b[0] as int);
    assert(u16_le(x as u16) =~= b);
}

/// Encoding a 32-bit value and reading the bytes back recovers the value.
pub proof fn lemma_u32_le_identity(x: u32)
    ensures
        u32_le(x).len() == 4,
        u32_from_le(u32_le(x)) == x,
{
    let xi = x as int;
    lemma_fundamental_div_mod(xi, 256);
    lemma_fundamental_div_mod(xi / 256, 256);
    lemma_fundamental_div_mod(xi / 65536, 256);
    lemma_div_denominator(xi, 256, 256);
    lemma_div_denominator(xi, 65536, 256);
    lemma_mod_division_less_than_divisor(xi, 256);
    lemma_mod_division_less_than_divisor(xi / 256, 256);
    lemma_mod_division_less_than_divisor(xi / 65536, 256);
    lemma_div_is_ordered(xi, 0xFFFF_FFFF, 16777216);
}

/// Any four bytes are the encoding of the value they carry.
pub proof fn lemma_u32_from_le_identity(b: Seq<u8>)
    requires
        b.len() == 4,
    ensures
        0 <= u32_from_le(b) < 0x1_0000_0000,
        u32_le(u32_from_le(b) as u32) == b,
{
    let x = u32_from_le(b);
    lemma_fundamental_div_mod_converse(
        x,
        256,
        b[1] + 256 * b[2] + 65536 * b[3],
        b[0] as int,
    );
    lemma_fundamental_div_mod_converse(x / 256, 256, b[2] + 256 * b[3], b[1] as int);
    lemma_fundamental_div_mod_converse(x / 256 / 256, 256, b[3] as int, b[2] as int);
    lemma_div_denominator(x, 256, 256);
    lemma_div_denominator(x, 65536, 256);
    assert(u32_le(x as u32) =~= b);
}

/// Encoding a 64-bit value and reading the bytes back recovers the value.
pub proof fn lemma_u64_le_identity(x: u64)
    ensures
        u64_le(x).len() == 8,
        u64_from_le(u64_le(x)) == x,
{
    let xi = x as int;
    lemma_fundamental_div_mod(xi, 256);
    lemma_fundamental_div_mod(xi / 256, 256);
    lemma_fundamental_div_mod(xi / 65536, 256);
    lemma_fundamental_div_mod(xi / 16777216, 256);
    lemma_fundamental_div_mod(xi / 4294967296, 256);
    lemma_fundamental_div_mod(xi / 1099511627776, 256);
    lemma_fundamental_div_mod(xi / 281474976710656, 256);
    lemma_div_denominator(xi, 256, 256);
    lemma_div_denominator(xi, 65536, 256);
    lemma_div_denominator(xi, 16777216, 256);
    lemma_div_denominator(xi, 4294967296, 256);
    lemma_div_denominator(xi, 1099511627776, 256);
    lemma_div_denominator(xi, 281474976710656, 256);
    lemma_mod_division_less_than_divisor(xi, 256);
    lemma_mod_division_less_than_divisor(xi / 256, 256);
    lemma_mod_division_less_than_divisor(xi / 65536, 256);
    lemma_mod_division_less_than_divisor(xi / 16777216, 256);
    lemma_mod_division_less_than_divisor(xi / 4294967296, 256);
    lemma_mod_division_less_than_divisor(xi / 1099511627776, 256);
    lemma_mod_division_less_than_divisor(xi / 281474976710656, 256);
    lemma_div_is_ordered(xi, 0xFFFF_FFFF_FFFF_FFFF, 72057594037927936);
}

/// Any eight bytes are the encoding of the value they carry.
pub proof fn lemma_u64_from_le_identity(b: Seq<u8>)
    requires
        b.len() == 8,
    ensures
        0 <= u64_from_le(b) < 0x1_0000_0000_0000_0000,
        u64_le(u64_from_le(b) as u64) == b,
{
    let x = u64_from_le(b);
    lemma_fundamental_div_mod_converse(
        x,
        256,
        b[1] + 256 * b[2] + 65536 * b[3] + 16777216 * b[4] + 4294967296 * b[5]
            + 1099511627776 * b[6] + 281474976710656 * b[7],
        b[0] as int,
    );
    lemma_fundamental_div_mod_converse(
        x / 256,
        256,
        b[2] + 256 * b[3] + 65536 * b[4] + 16777216 * b[5] + 4294967296 * b[6]
            + 1099511627776 * b[7],
        b[1] as int,
    );
    lemma_fundamental_div_mod_converse(
        x / 256 / 256,
        256,
        b[3] + 256 * b[4] + 65536 * b[5] + 16777216 * b[6] + 4294967296 * b[7],
        b[2] as int,
    );
    lemma_fundamental_div_mod_converse(
        x / 256 / 256 / 256,
        256,
        b[4] + 256 * b[5] + 65536 * b[6] + 16777216 * b[7],
        b[3] as int,
    );
    lemma_fundamental_div_mod_converse(
        x / 256 / 256 / 256 / 256,
        256,
        b[5] + 256 * b[6] + 65536 * b[7],
        b[4] as int,
    );
    lemma_fundamental_div_mod_converse(
        x / 256 / 256 / 256 / 256 / 256,
        256,
        b[6] + 256 * b[7],
        b[5] as int,
    );
    lemma_fundamental_div_mod_converse(
        x / 256 / 256 / 256 / 256 / 256 / 256,
        256,
        b[7] as int,
        b[6] as int,
    );
    lemma_div_denominator(x, 256, 256);
    lemma_div_denominator(x, 65536, 256);
    lemma_div_denominator(x, 16777216, 256);
    lemma_div_denominator(x, 4294967296, 256);
    lemma_div_denominator(x, 1099511627776, 256);
    lemma_div_denominator(x, 281474976710656, 256);
    assert(u64_le(x as u64) =~= b);
}

/// Appends the two little-endian bytes of `x`.
pub fn push_u16_le(v: &mut Vec<u8>, x: u16)
    ensures
        final(v)@ == old(v)@ + u16_le(x),
{
    v.push((x % 256) as u8);
    v.push((x / 256) as u8);
    assert(v@ =~= old(v)@ + u16_le(x));
}

/// Appends the four little-endian bytes of `x`.
pub fn push_u32_le(v: &mut Vec<u8>, x: u32)
    ensures
        final(v)@ == old(v)@ + u32_le(x),
{
    v.push((x % 256) as u8);
    v.push((x / 256 % 256) as u8);
    v.push((x / 65536 % 256) as u8);
    v.push((x / 16777216) as u8);
    assert(v@ =~= old(v)@ + u32_le(x));
}

/// Appends the eight little-endian bytes of `x`.
pub fn push_u64_le(v: &mut Vec<u8>, x: u64)
    ensures
        final(v)@ == old(v)@ + u64_le(x),
{
    v.push((x % 256) as u8);
    v.push((x / 256 % 256) as u8);
    v.push((x / 65536 % 256) as u8);
    v.push((x / 16777216 % 256) as u8);
    v.push((x / 4294967296 % 256) as u8);
    v.push((x / 1099511627776 % 256) as u8);
    v.push((x / 281474976710656 % 256) as u8);
    v.push((x / 72057594037927936) as u8);
    assert(v@ =~= old(v)@ + u64_le(x));
}

/// Copies a byte vector.
pub fn copy_bytes(p: &Vec<u8>) -> (r: Vec<u8>)
    ensures
        r@ == p@,
{
    let n: usize = p.len();
    let mut r: Vec<u8> = Vec::new();
    let mut i: usize = 0;
    while i < n
        invariant
            n == p@.len(),
            i <= n,
            r@ == p@.subrange(0, i as int),
        decreases n - i,
    {
        let byte: u8 = p[i];
        r.push(byte);
        proof {
            assert(r@ =~= p@.subrange(0, i + 1));
        }
        i = i + 1;
    }
    proof {
        assert(r@ =~= p@);
    }
    r
}

/// Reads the 16-bit value whose little-endian bytes start at `off`.
pub fn read_u16_le(b: &Vec<u8>, off: usize) -> (r: u16)
    requires
        off + 2 <= b@.len(),
    ensures
        r == u16_from_le(b@.subrange(off as int, off + 2)),
        b@.subrange(off as int, off + 2) == u16_le(r),
{
    // The vector's length fits in usize, so the offsets below cannot overflow.
    let _n: usize = b.len();
    let r: u16 = b[off] as u16 + 256 * (b[off + 1] as u16);
    proof {
        lemma_u16_from_le_identity(b@.subrange(off as int, off + 2));
    }
    r
}

/// Reads the 32-bit value whose little-endian bytes start at `off`.
pub fn read_u32_le(b: &Vec<u8>, off: usize) -> (r: u32)
    requires
        off + 4 <= b@.len(),
    ensures
        r == u32_from_le(b@.subrange(off as int, off + 4)),
        b@.subrange(off as int, off + 4) == u32_le(r),
{
    // The vector's length fits in usize, so the offsets below cannot overflow.
    let _n: usize = b.len();
    let r: u32 = b[off] as u32 + 256 * (b[off + 1] as u32) + 65536 * (b[off + 2] as u32)
        + 16777216 * (b[off + 3] as u32);
    proof {
        lemma_u32_from_le_identity(b@.subrange(off as int, off + 4));
    }
    r
}

/// Reads the 64-bit value whose little-endian bytes start at `off`.
pub fn read_u64_le(b: &Vec<u8>, off: usize) -> (r: u64)
    requires
        off + 8 <= b@.len(),
    ensures
        r == u64_from_le(b@.subrange(off as int, off + 8)),
        b@.subrange(off as int, off + 8) == u64_le(r),
{
    // The vector's length fits in usize, so the offsets below cannot overflow.
    let _n: usize = b.len();
    let r: u64 = b[off] as u64 + 256 * (b[off + 1] as u64) + 65536 * (b[off + 2] as u64)
        + 16777216 * (b[off + 3] as u64) + 4294967296 * (b[off + 4] as u64)
        + 1099511627776 * (b[off + 5] as u64) + 281474976710656 * (b[off + 6] as u64)
        + 72057594037927936 * (b[off + 7] as u64);
    proof {
        lemma_u64_from_le_identity(b@.subrange(off as int, off + 8));
    }
    r
}

} // verus!
