//! Morton (Z-order) codes: the bits of three coordinates interleaved into one
//! 64-bit code, 21 bits per axis.

use vstd::prelude::*;

verus! {

/// Bits of each coordinate that a code holds.
pub const AXIS_BITS: u64 = 21;

/// Bit `i` of `a`, moved to bit `3 * i`.
pub open spec fn moved(a: u64, i: u64) -> u64 {
    (a & (1u64 << i)) << (2 * i)
}

/// The low 21 bits of `a`, spread out to every third bit of the result: bit
/// `i` of `a` lands on bit `3 * i`.
pub open spec fn spread(a: u64) -> u64 {
    moved(a, 0) | moved(a, 1) | moved(a, 2) | moved(a, 3) | moved(a, 4) | moved(a, 5)
        | moved(a, 6) | moved(a, 7) | moved(a, 8) | moved(a, 9) | moved(a, 10) | moved(a, 11)
        | moved(a, 12) | moved(a, 13) | moved(a, 14) | moved(a, 15) | moved(a, 16)
        | moved(a, 17) | moved(a, 18) | moved(a, 19) | moved(a, 20)
}

/// The Morton code of `(x, y, z)`: bit `i` of `x`, `y` and `z` lands on bit
/// `3 * i`, `3 * i + 1` and `3 * i + 2` of the code, for `i < 21`.
pub open spec fn morton_code(x: u32, y: u32, z: u32) -> u64 {
    spread(x as u64) | (spread(y as u64) << 1u64) | (spread(z as u64) << 2u64)
}

/// The bits of `a` below bit `n`.
pub open spec fn low_bits(a: u64, n: u64) -> u64 {
    a & (((1u64 << n) - 1u64) as u64)
}

/// Bit `3 * j` of `c`, moved to bit `j`.
pub open spec fn picked(c: u64, j: u64) -> u64 {
    ((c >> (3 * j)) & 1u64) << j
}

/// Every third bit of `c`, from bit 0 up to bit 60, gathered into the low 21
/// bits of the result: bit `3 * j` of `c` lands on bit `j`.
pub open spec fn gather(c: u64) -> u64 {
    picked(c, 0) | picked(c, 1) | picked(c, 2) | picked(c, 3) | picked(c, 4) | picked(c, 5)
        | picked(c, 6) | picked(c, 7) | picked(c, 8) | picked(c, 9) | picked(c, 10) | picked(c, 11)
        | picked(c, 12) | picked(c, 13) | picked(c, 14) | picked(c, 15) | picked(c, 16)
        | picked(c, 17) | picked(c, 18) | picked(c, 19) | picked(c, 20)
}

/// The coordinates that a code holds: bits `3 * i`, `3 * i + 1` and
/// `3 * i + 2` of the code are bit `i` of `x`, `y` and `z`.
pub open spec fn morton_coords(code: u64) -> (u32, u32, u32) {
    (gather(code) as u32, gather(code >> 1u64) as u32, gather(code >> 2u64) as u32)
}

/// Encodes `(x, y, z)` bit by bit; bits of a coordinate above the 21st are
/// ignored.
pub fn morton_encode(x: u32, y: u32, z: u32) -> (r: u64)
    ensures
        r == morton_code(x, y, z),
{
    let mut a: u64 = 0;
    let mut i: u64 = 0;
    proof {
        let (xx, yy, zz) = (x as u64, y as u64, z as u64);
        assert(spread(low_bits(xx, 0)) | (spread(low_bits(yy, 0)) << 1u64) | (spread(
            low_bits(zz, 0),
        ) << 2u64) == 0) by (bit_vector);
    }
    while i < AXIS_BITS
        invariant
            i <= 21,
            a == spread(low_bits(x as u64, i)) | (spread(low_bits(y as u64, i)) << 1u64) | (
            spread(low_bits(z as u64, i)) << 2u64),
        decreases 21 - i,
    {
        proof {
            lemma_encode_step(x as u64, y as u64, z as u64, i, a);
        }
        a = a | (((x as u64 & (1u64 << i)) << (2 * i)) | ((y as u64 & (1u64 << i)) << (2 * i + 1))
            | ((z as u64 & (1u64 << i)) << (2 * i + 2)));
        i = i + 1;
    }
    proof {
        lemma_spread_low(x as u64);
        lemma_spread_low(y as u64);
        lemma_spread_low(z as u64);
    }
    a
}

proof fn lemma_encode_step(x: u64, y: u64, z: u64, i: u64, a: u64)
    requires
        i < 21,
        a == spread(low_bits(x, i)) | (spread(low_bits(y, i)) << 1u64) | (spread(
            low_bits(z, i),
        ) << 2u64),
    ensures
        a | (((x & (1u64 << i)) << (2 * i) as u64) | ((y & (1u64 << i)) << (2 * i + 1) as u64) | ((z
            & (1u64 << i)) << (2 * i + 2) as u64)) == spread(low_bits(x, (i + 1) as u64)) | (spread(
            low_bits(y, (i + 1) as u64),
        ) << 1u64) | (spread(low_bits(z, (i + 1) as u64)) << 2u64),
{
    lemma_spread_step(x, i);
    lemma_spread_step(y, i);
    lemma_spread_step(z, i);
    let sx = spread(low_bits(x, i));
    let sy = spread(low_bits(y, i));
    let sz = spread(low_bits(z, i));
    let tx = moved(x, i);
    let ty = moved(y, i);
    let tz = moved(z, i);
    assert((y & (1u64 << i)) << (2 * i + 1) as u64 == ty << 1u64) by (bit_vector)
        requires
            ty == moved(y, i),
            i < 21,
    ;
    assert((z & (1u64 << i)) << (2 * i + 2) as u64 == tz << 2u64) by (bit_vector)
        requires
            tz == moved(z, i),
            i < 21,
    ;
    assert((sx | (sy << 1u64) | (sz << 2u64)) | (tx | (ty << 1u64) | (tz << 2u64)) == (sx | tx) | ((
    sy | ty) << 1u64) | ((sz | tz) << 2u64)) by (bit_vector);
}

/// Adding bit `i` of `a` to its spread low bits.
proof fn lemma_spread_step(a: u64, i: u64)
    requires
        i < 21,
    ensures
        spread(low_bits(a, i)) | moved(a, i) == spread(low_bits(a, (i + 1) as u64)),
{
    assert(spread(low_bits(a, i)) | moved(a, i) == spread(low_bits(a, (i + 1) as u64)))
        by (bit_vector)
        requires
            i < 21,
    ;
}

/// Only the low 21 bits of `a` reach its spread.
proof fn lemma_spread_low(a: u64)
    ensures
        spread(low_bits(a, 21)) == spread(a),
{
    assert(spread(low_bits(a, 21)) == spread(a)) by (bit_vector);
}

/// Spreads the low 21 bits of `a` to every third bit, with the closed-form
/// shift-and-mask sequence.
fn split_by_3(a: u32) -> (r: u64)
    ensures
        r == spread(a as u64),
{
    let x = a & 0x1fffff;
    let mut result = x as u64;
    result = result | (result << 32);
    result = result & 0x1f00000000ffff;
    result = result | (result << 16);
    result = result & 0x1f0000ff0000ff;
    result = result | (result << 8);
    result = result & 0x100f00f00f00f00f;
    result = result | (result << 4);
    result = result & 0x10c30c30c30c30c3;
    result = result | (result << 2);
    result = result & 0x1249249249249249;
    proof {
        lemma_split_by_3(a);
    }
    result
}

proof fn lemma_split_by_3(a: u32)
    ensures
        ({
            let x = (a & 0x1fffff) as u64;
            let r1 = (x | (x << 32u64)) & 0x1f00000000ffffu64;
            let r2 = (r1 | (r1 << 16u64)) & 0x1f0000ff0000ffu64;
            let r3 = (r2 | (r2 << 8u64)) & 0x100f00f00f00f00fu64;
            let r4 = (r3 | (r3 << 4u64)) & 0x10c30c30c30c30c3u64;
            let r5 = (r4 | (r4 << 2u64)) & 0x1249249249249249u64;
            r5 == spread(a as u64)
        }),
{
    assert({
        let x = (a & 0x1fffff) as u64;
        let r1 = (x | (x << 32u64)) & 0x1f00000000ffffu64;
        let r2 = (r1 | (r1 << 16u64)) & 0x1f0000ff0000ffu64;
        let r3 = (r2 | (r2 << 8u64)) & 0x100f00f00f00f00fu64;
        let r4 = (r3 | (r3 << 4u64)) & 0x10c30c30c30c30c3u64;
        let r5 = (r4 | (r4 << 2u64)) & 0x1249249249249249u64;
        r5 == spread(a as u64)
    }) by (bit_vector);
}

/// Encodes `(x, y, z)` with the closed-form bit spread of each axis; bits of a
/// coordinate above the 21st are ignored.
pub fn morton_encode_magicbits(x: u32, y: u32, z: u32) -> (r: u64)
    ensures
        r == morton_code(x, y, z),
{
    split_by_3(x) | split_by_3(y) << 1 | split_by_3(z) << 2
}

/// Decodes a code back into its three coordinates, bit by bit from the top.
pub fn morton_decode(code: u64) -> (r: (u32, u32, u32))
    ensures
        r == morton_coords(code),
{
    let mut x: u64 = 0;
    let mut y: u64 = 0;
    let mut z: u64 = 0;
    let mut k: u64 = AXIS_BITS;
    proof {
        lemma_gather_top(code, 0);
        lemma_gather_top(code, 1);
        lemma_gather_top(code, 2);
        assert(code >> 0u64 == code) by (bit_vector);
    }
    while k > 0
        invariant
            k <= 21,
            x == gather(code) >> k,
            y == gather(code >> 1u64) >> k,
            z == gather(code >> 2u64) >> k,
        decreases k,
    {
        k = k - 1;
        let i = 3 * k;
        proof {
            assert(code >> 0u64 == code) by (bit_vector);
            lemma_decode_step(code, k, 0, x);
            lemma_decode_step(code, k, 1, y);
            lemma_decode_step(code, k, 2, z);
        }
        x = x << 1;
        y = y << 1;
        z = z << 1;
        x = x | ((code & (1u64 << i)) >> i);
        y = y | ((code & (1u64 << (i + 1))) >> (i + 1));
        z = z | ((code & (1u64 << (i + 2))) >> (i + 2));
    }
    proof {
        let (gx, gy, gz) = (gather(code), gather(code >> 1u64), gather(code >> 2u64));
        assert(gx >> 0u64 == gx && gy >> 0u64 == gy && gz >> 0u64 == gz) by (bit_vector);
    }
    (x as u32, y as u32, z as u32)
}

/// Nothing of `gather(code >> s)` lies at bit 21 or above.
proof fn lemma_gather_top(code: u64, s: u64)
    requires
        s < 3,
    ensures
        gather(code >> s) >> 21u64 == 0,
{
    assert(gather(code >> s) >> 21u64 == 0) by (bit_vector);
}

proof fn lemma_decode_step(code: u64, k: u64, s: u64, v: u64)
    requires
        k < 21,
        s < 3,
        v == gather(code >> s) >> (k + 1) as u64,
    ensures
        (v << 1u64) | ((code & (1u64 << (3 * k + s) as u64)) >> (3 * k + s) as u64) == gather(
            code >> s,
        ) >> k,
{
    assert((v << 1u64) | ((code & (1u64 << (3 * k + s) as u64)) >> (3 * k + s) as u64) == gather(
        code >> s,
    ) >> k) by (bit_vector)
        requires
            k < 21,
            s < 3,
            v == gather(code >> s) >> (k + 1) as u64,
    ;
}

/// Decoding undoes encoding: for coordinates below `2^21`, the code of
/// `(x, y, z)` holds `(x, y, z)` again.
pub proof fn lemma_decode_encode(x: u32, y: u32, z: u32)
    requires
        x < 0x200000,
        y < 0x200000,
        z < 0x200000,
    ensures
        morton_coords(morton_code(x, y, z)) == (x, y, z),
{
    let (xx, yy, zz) = (x as u64, y as u64, z as u64);
    let c = morton_code(x, y, z);
    assert(c == spread(xx) | (spread(yy) << 1u64) | (spread(zz) << 2u64));
    assert(gather(spread(xx) | (spread(yy) << 1u64) | (spread(zz) << 2u64)) == xx) by (bit_vector)
        requires
            xx < 0x200000,
    ;
    assert(gather((spread(xx) | (spread(yy) << 1u64) | (spread(zz) << 2u64)) >> 1u64) == yy)
        by (bit_vector)
        requires
            yy < 0x200000,
    ;
    assert(gather((spread(xx) | (spread(yy) << 1u64) | (spread(zz) << 2u64)) >> 2u64) == zz)
        by (bit_vector)
        requires
            zz < 0x200000,
    ;
}

/// Encoding undoes decoding: every code below `2^63` is the code of the
/// coordinates it holds.
pub proof fn lemma_encode_decode(code: u64)
    requires
        code < 0x8000_0000_0000_0000,
    ensures
        morton_code(morton_coords(code).0, morton_coords(code).1, morton_coords(code).2) == code,
{
    let (gx, gy, gz) = (gather(code), gather(code >> 1u64), gather(code >> 2u64));
    assert(gx < 0x200000 && gy < 0x200000 && gz < 0x200000) by (bit_vector)
        requires
            gx == gather(code),
            gy == gather(code >> 1u64),
            gz == gather(code >> 2u64),
    ;
    assert(spread(gx) | (spread(gy) << 1u64) | (spread(gz) << 2u64) == code) by (bit_vector)
        requires
            code < 0x8000_0000_0000_0000,
            gx == gather(code),
            gy == gather(code >> 1u64),
            gz == gather(code >> 2u64),
    ;
    assert((gx as u32) as u64 == gx && (gy as u32) as u64 == gy && (gz as u32) as u64 == gz);
}

/// Bit `i` of `v`.
pub open spec fn bit(v: u64, i: u64) -> bool {
    (v >> i) & 1u64 == 1u64
}

/// The layout of a code: for `i < 21`, bits `3 * i`, `3 * i + 1` and
/// `3 * i + 2` of the code of `(x, y, z)` are bit `i` of `x`, `y` and `z`, and
/// bit 63 is clear.
pub proof fn lemma_morton_code_bits(x: u32, y: u32, z: u32, i: u64)
    requires
        i < 21,
    ensures
        bit(morton_code(x, y, z), (3 * i) as u64) == bit(x as u64, i),
        bit(morton_code(x, y, z), (3 * i + 1) as u64) == bit(y as u64, i),
        bit(morton_code(x, y, z), (3 * i + 2) as u64) == bit(z as u64, i),
        !bit(morton_code(x, y, z), 63),
{
    let (xx, yy, zz) = (x as u64, y as u64, z as u64);
    let c = spread(xx) | (spread(yy) << 1u64) | (spread(zz) << 2u64);
    assert(c == morton_code(x, y, z));
    assert(bit(c, (3 * i) as u64) == bit(xx, i)) by (bit_vector)
        requires
            c == spread(xx) | (spread(yy) << 1u64) | (spread(zz) << 2u64),
            i < 21,
    ;
    assert(bit(c, (3 * i + 1) as u64) == bit(yy, i)) by (bit_vector)
        requires
            c == spread(xx) | (spread(yy) << 1u64) | (spread(zz) << 2u64),
            i < 21,
    ;
    assert(bit(c, (3 * i + 2) as u64) == bit(zz, i)) by (bit_vector)
        requires
            c == spread(xx) | (spread(yy) << 1u64) | (spread(zz) << 2u64),
            i < 21,
    ;
    assert(!bit(c, 63)) by (bit_vector)
        requires
            c == spread(xx) | (spread(yy) << 1u64) | (spread(zz) << 2u64),
    ;
}

} // verus!
