//! Morton (Z-order) codec: bit-interleaving of 2 or 4 coordinate lanes into a
//! single 64-bit key, and the order-preserving transform that makes IEEE-754
//! single-precision bit patterns comparable as unsigned integers.

use vstd::prelude::*;

verus! {

/// Bits owned by the first lane (x) of a 2-lane key: the odd positions.
pub const DIM2_X: u64 = 0xAAAA_AAAA_AAAA_AAAA;
/// Bits owned by the second lane (y) of a 2-lane key: the even positions.
pub const DIM2_Y: u64 = 0x5555_5555_5555_5555;

/// Bits owned by lane x of a 4-lane key: positions congruent to 3 mod 4.
pub const DIM4_X: u64 = 0x8888_8888_8888_8888;
/// Bits owned by lane y of a 4-lane key: positions congruent to 2 mod 4.
pub const DIM4_Y: u64 = 0x4444_4444_4444_4444;
/// Bits owned by lane z of a 4-lane key: positions congruent to 1 mod 4.
pub const DIM4_Z: u64 = 0x2222_2222_2222_2222;
/// Bits owned by lane w of a 4-lane key: positions congruent to 0 mod 4.
pub const DIM4_W: u64 = 0x1111_1111_1111_1111;

/// The lane masks of a supported lane count, lane x first: each mask selects
/// the bit positions its lane owns in a Morton key.
pub fn dim_masks<const D: usize>() -> (r: Vec<u64>)
    requires
        D == 2 || D == 4,
    ensures
        D == 2 ==> r@ =~= seq![DIM2_X, DIM2_Y],
        D == 4 ==> r@ =~= seq![DIM4_X, DIM4_Y, DIM4_Z, DIM4_W],
{
    let mut masks: Vec<u64> = Vec::new();
    if D == 2 {
        masks.push(DIM2_X);
        masks.push(DIM2_Y);
    } else {
        masks.push(DIM4_X);
        masks.push(DIM4_Y);
        masks.push(DIM4_Z);
        masks.push(DIM4_W);
    }
    masks
}

/// The lane masks of each lane count are pairwise disjoint, cover all 64
/// bits, and the last lane's mask, owning the lowest bit of each group,
/// yields the others by left shifts.
pub proof fn lemma_lane_masks_partition()
    by (bit_vector)
    ensures
        DIM2_X & DIM2_Y == 0,
        DIM2_X | DIM2_Y == !0u64,
        DIM2_X == DIM2_Y << 1u64,
        DIM4_X & DIM4_Y == 0,
        DIM4_X & DIM4_Z == 0,
        DIM4_X & DIM4_W == 0,
        DIM4_Y & DIM4_Z == 0,
        DIM4_Y & DIM4_W == 0,
        DIM4_Z & DIM4_W == 0,
        DIM4_X | DIM4_Y | DIM4_Z | DIM4_W == !0u64,
        DIM4_X == DIM4_W << 3u64,
        DIM4_Y == DIM4_W << 2u64,
        DIM4_Z == DIM4_W << 1u64,
{
}

// ---------------------------------------------------------------------------
// Order-preserving transform of IEEE-754 binary32 bit patterns.
// ---------------------------------------------------------------------------

/// The lane transform on a float's bit pattern: flip the sign bit of a
/// non-negative float, complement all bits of a negative one. The result
/// compares as an unsigned integer the way the floats compare numerically.
pub open spec fn ordered_float_spec(x: u32) -> u32 {
    if x & 0x8000_0000u32 == 0 {
        x ^ 0x8000_0000u32
    } else {
        !x
    }
}

/// The inverse lane transform, back to the float's bit pattern.
pub open spec fn ordered_float_reverse_spec(x: u32) -> u32 {
    if x & 0x8000_0000u32 == 0 {
        !x
    } else {
        x ^ 0x8000_0000u32
    }
}

/// A bit pattern is a NaN iff its exponent field is all ones and its mantissa
/// is non-zero, i.e. its magnitude bits exceed those of infinity.
pub open spec fn float_bits_is_nan(x: u32) -> bool {
    x & 0x7FFF_FFFFu32 > 0x7F80_0000u32
}

/// Numerical `<` on two non-NaN IEEE-754 binary32 values, stated over their
/// bit patterns: non-negative values order by their magnitude bits, negative
/// values order reversed, and every negative value is below every
/// non-negative one except that -0.0 equals +0.0.
pub open spec fn float_bits_lt(a: u32, b: u32) -> bool {
    if a >> 31u32 == 0u32 && b >> 31u32 == 0u32 {
        a & 0x7FFF_FFFFu32 < b & 0x7FFF_FFFFu32
    } else if a >> 31u32 == 1u32 && b >> 31u32 == 1u32 {
        a & 0x7FFF_FFFFu32 > b & 0x7FFF_FFFFu32
    } else if a >> 31u32 == 1u32 {
        !(a & 0x7FFF_FFFFu32 == 0u32 && b & 0x7FFF_FFFFu32 == 0u32)
    } else {
        false
    }
}

/// Order-preserving transform of a float's bit pattern (callers obtain the
/// bits with `f32::to_bits`).
pub fn ordered_float(bits: u32) -> (r: u32)
    ensures
        r == ordered_float_spec(bits),
{
    if bits & 0x8000_0000 == 0 {
        bits ^ 0x8000_0000
    } else {
        !bits
    }
}

/// Inverse of `ordered_float`; the result is the float's bit pattern
/// (callers rebuild the value with `f32::from_bits`).
pub fn ordered_float_reverse(x: u32) -> (r: u32)
    ensures
        r == ordered_float_reverse_spec(x),
{
    if x & 0x8000_0000 == 0 {
        !x
    } else {
        x ^ 0x8000_0000
    }
}

/// The lane transform is an involution up to its inverse: decoding an encoded
/// bit pattern gives back the identical bits, and vice versa.
pub proof fn lemma_ordered_float_roundtrip(x: u32)
    by (bit_vector)
    ensures
        ordered_float_reverse_spec(ordered_float_spec(x)) == x,
        ordered_float_spec(ordered_float_reverse_spec(x)) == x,
{
}

/// The lane transform is strictly monotone over the numerical order of
/// non-NaN floats; the sole extra strict pair is -0.0 before +0.0, whose bit
/// patterns differ although the values compare equal.
pub proof fn lemma_ordered_float_monotone(a: u32, b: u32)
    by (bit_vector)
    requires
        !float_bits_is_nan(a),
        !float_bits_is_nan(b),
    ensures
        (ordered_float_spec(a) < ordered_float_spec(b)) == (float_bits_lt(a, b) || (a
            == 0x8000_0000u32 && b == 0u32)),
{
}

// ---------------------------------------------------------------------------
// 2-lane codec: two 32-bit lanes interleaved into one 64-bit key.
// ---------------------------------------------------------------------------

/// Place bit i of the input at bit 2*i of the output.
pub open spec fn spread2(x: u32) -> u64 {
    let v0 = x as u64;
    let v1 = (v0 | (v0 << 16u64)) & 0x0000_FFFF_0000_FFFF;
    let v2 = (v1 | (v1 << 8u64)) & 0x00FF_00FF_00FF_00FF;
    let v3 = (v2 | (v2 << 4u64)) & 0x0F0F_0F0F_0F0F_0F0F;
    let v4 = (v3 | (v3 << 2u64)) & 0x3333_3333_3333_3333;
    (v4 | (v4 << 1u64)) & DIM2_Y
}

/// Gather every second bit, starting at bit 0, into a 32-bit value: the
/// inverse of `spread2`.
pub open spec fn collapse2(z: u64) -> u32 {
    let v0 = z & DIM2_Y;
    let v1 = (v0 | (v0 >> 1u64)) & 0x3333_3333_3333_3333;
    let v2 = (v1 | (v1 >> 2u64)) & 0x0F0F_0F0F_0F0F_0F0F;
    let v3 = (v2 | (v2 >> 4u64)) & 0x00FF_00FF_00FF_00FF;
    let v4 = (v3 | (v3 >> 8u64)) & 0x0000_FFFF_0000_FFFF;
    ((v4 | (v4 >> 16u64)) & 0xFFFF_FFFF) as u32
}

/// The 2-lane Morton key: lane x on the odd bit positions, lane y on the even
/// ones.
pub open spec fn morton2(x: u32, y: u32) -> u64 {
    (spread2(x) << 1u64) | spread2(y)
}

fn spread_bits_2(x: u32) -> (r: u64)
    ensures
        r == spread2(x),
{
    let v0 = x as u64;
    let v1 = (v0 | (v0 << 16)) & 0x0000_FFFF_0000_FFFF;
    let v2 = (v1 | (v1 << 8)) & 0x00FF_00FF_00FF_00FF;
    let v3 = (v2 | (v2 << 4)) & 0x0F0F_0F0F_0F0F_0F0F;
    let v4 = (v3 | (v3 << 2)) & 0x3333_3333_3333_3333;
    (v4 | (v4 << 1)) & DIM2_Y
}

fn collapse_bits_2(z: u64) -> (r: u32)
    ensures
        r == collapse2(z),
{
    let v0 = z & DIM2_Y;
    let v1 = (v0 | (v0 >> 1)) & 0x3333_3333_3333_3333;
    let v2 = (v1 | (v1 >> 2)) & 0x0F0F_0F0F_0F0F_0F0F;
    let v3 = (v2 | (v2 >> 4)) & 0x00FF_00FF_00FF_00FF;
    let v4 = (v3 | (v3 >> 8)) & 0x0000_FFFF_0000_FFFF;
    ((v4 | (v4 >> 16)) & 0xFFFF_FFFF) as u32
}

/// Interleave two 32-bit lanes into a 64-bit Morton key.
pub fn morton_2(x: u32, y: u32) -> (r: u64)
    ensures
        r == morton2(x, y),
{
    (spread_bits_2(x) << 1) | spread_bits_2(y)
}

/// Recover the two 32-bit lanes of a 64-bit Morton key.
pub fn morton_reverse_2(z: u64) -> (r: (u32, u32))
    ensures
        r.0 == collapse2(z >> 1u64),
        r.1 == collapse2(z),
        morton2(r.0, r.1) == z,
{
    proof {
        lemma_morton2_surjective(z);
    }
    (collapse_bits_2(z >> 1), collapse_bits_2(z))
}

/// Decoding an encoded pair of lanes gives the pair back: the codec is a
/// bijection between lane pairs and 64-bit keys.
pub proof fn lemma_morton2_roundtrip(x: u32, y: u32)
    by (bit_vector)
    ensures
        collapse2(morton2(x, y) >> 1u64) == x,
        collapse2(morton2(x, y)) == y,
{
}

/// Every 64-bit key is the encoding of its decoded lanes.
pub proof fn lemma_morton2_surjective(z: u64)
    by (bit_vector)
    ensures
        morton2(collapse2(z >> 1u64), collapse2(z)) == z,
{
}

/// Comparing the bits a key holds in one lane's mask is the same as comparing
/// the decoded coordinates of that lane.
pub proof fn lemma_morton2_lane_cmp(a: u64, b: u64)
    by (bit_vector)
    ensures
        (a & DIM2_X <= b & DIM2_X) == (collapse2(a >> 1u64) <= collapse2(b >> 1u64)),
        (a & DIM2_Y <= b & DIM2_Y) == (collapse2(a) <= collapse2(b)),
{
}

/// The 2-lane Morton key is monotone in both lanes together and strictly
/// monotone as soon as one lane strictly grows.
pub proof fn lemma_morton2_monotone(x1: u32, y1: u32, x2: u32, y2: u32)
    by (bit_vector)
    requires
        x1 <= x2,
        y1 <= y2,
    ensures
        morton2(x1, y1) <= morton2(x2, y2),
        x1 < x2 || y1 < y2 ==> morton2(x1, y1) < morton2(x2, y2),
{
}

// ---------------------------------------------------------------------------
// 4-lane codec: four 16-bit lanes interleaved into one 64-bit key.
// ---------------------------------------------------------------------------

/// Place bit i of the input at bit 4*i of the output.
pub open spec fn spread4(x: u16) -> u64 {
    let v0 = x as u64;
    let v1 = (v0 | (v0 << 24u64)) & 0x0000_00FF_0000_00FF;
    let v2 = (v1 | (v1 << 12u64)) & 0x000F_000F_000F_000F;
    let v3 = (v2 | (v2 << 6u64)) & 0x0303_0303_0303_0303;
    (v3 | (v3 << 3u64)) & DIM4_W
}

/// Gather every fourth bit, starting at bit 0, into a 16-bit value: the
/// inverse of `spread4`.
pub open spec fn collapse4(z: u64) -> u16 {
    let v0 = z & DIM4_W;
    let v1 = (v0 | (v0 >> 3u64)) & 0x0303_0303_0303_0303;
    let v2 = (v1 | (v1 >> 6u64)) & 0x000F_000F_000F_000F;
    let v3 = (v2 | (v2 >> 12u64)) & 0x0000_00FF_0000_00FF;
    ((v3 | (v3 >> 24u64)) & 0xFFFF) as u16
}

/// The 4-lane Morton key: lane x on the highest bit of each 4-group, then
/// lanes y, z and w on the following ones.
pub open spec fn morton4(x: u16, y: u16, z: u16, w: u16) -> u64 {
    (spread4(x) << 3u64) | (spread4(y) << 2u64) | (spread4(z) << 1u64) | spread4(w)
}

fn spread_bits_4(x: u16) -> (r: u64)
    ensures
        r == spread4(x),
{
    let v0 = x as u64;
    let v1 = (v0 | (v0 << 24)) & 0x0000_00FF_0000_00FF;
    let v2 = (v1 | (v1 << 12)) & 0x000F_000F_000F_000F;
    let v3 = (v2 | (v2 << 6)) & 0x0303_0303_0303_0303;
    (v3 | (v3 << 3)) & DIM4_W
}

fn collapse_bits_4(z: u64) -> (r: u16)
    ensures
        r == collapse4(z),
{
    let v0 = z & DIM4_W;
    let v1 = (v0 | (v0 >> 3)) & 0x0303_0303_0303_0303;
    let v2 = (v1 | (v1 >> 6)) & 0x000F_000F_000F_000F;
    let v3 = (v2 | (v2 >> 12)) & 0x0000_00FF_0000_00FF;
    ((v3 | (v3 >> 24)) & 0xFFFF) as u16
}

/// Interleave four 16-bit lanes into a 64-bit Morton key.
pub fn morton_4(x: u16, y: u16, z: u16, w: u16) -> (r: u64)
    ensures
        r == morton4(x, y, z, w),
{
    (spread_bits_4(x) << 3) | (spread_bits_4(y) << 2) | (spread_bits_4(z) << 1) | spread_bits_4(w)
}

/// Recover the four 16-bit lanes of a 64-bit Morton key.
pub fn morton_reverse_4(v: u64) -> (r: (u16, u16, u16, u16))
    ensures
        r.0 == collapse4(v >> 3u64),
        r.1 == collapse4(v >> 2u64),
        r.2 == collapse4(v >> 1u64),
        r.3 == collapse4(v),
        morton4(r.0, r.1, r.2, r.3) == v,
{
    proof {
        lemma_morton4_surjective(v);
    }
    (collapse_bits_4(v >> 3), collapse_bits_4(v >> 2), collapse_bits_4(v >> 1), collapse_bits_4(v))
}

/// Decoding an encoded 4-tuple of lanes gives the tuple back.
pub proof fn lemma_morton4_roundtrip(x: u16, y: u16, z: u16, w: u16)
    by (bit_vector)
    ensures
        collapse4(morton4(x, y, z, w) >> 3u64) == x,
        collapse4(morton4(x, y, z, w) >> 2u64) == y,
        collapse4(morton4(x, y, z, w) >> 1u64) == z,
        collapse4(morton4(x, y, z, w)) == w,
{
}

/// Every 64-bit key is the encoding of its decoded 4-tuple of lanes.
pub proof fn lemma_morton4_surjective(v: u64)
    by (bit_vector)
    ensures
        morton4(collapse4(v >> 3u64), collapse4(v >> 2u64), collapse4(v >> 1u64), collapse4(v))
            == v,
{
}

/// Comparing the bits a key holds in one lane's mask is the same as comparing
/// the decoded coordinates of that lane.
pub proof fn lemma_morton4_lane_cmp(a: u64, b: u64)
    by (bit_vector)
    ensures
        (a & DIM4_X <= b & DIM4_X) == (collapse4(a >> 3u64) <= collapse4(b >> 3u64)),
        (a & DIM4_Y <= b & DIM4_Y) == (collapse4(a >> 2u64) <= collapse4(b >> 2u64)),
        (a & DIM4_Z <= b & DIM4_Z) == (collapse4(a >> 1u64) <= collapse4(b >> 1u64)),
        (a & DIM4_W <= b & DIM4_W) == (collapse4(a) <= collapse4(b)),
{
}

/// The 4-lane Morton key is monotone in all lanes together and strictly
/// monotone as soon as one lane strictly grows.
pub proof fn lemma_morton4_monotone(
    x1: u16,
    y1: u16,
    z1: u16,
    w1: u16,
    x2: u16,
    y2: u16,
    z2: u16,
    w2: u16,
)
    by (bit_vector)
    requires
        x1 <= x2,
        y1 <= y2,
        z1 <= z2,
        w1 <= w2,
    ensures
        morton4(x1, y1, z1, w1) <= morton4(x2, y2, z2, w2),
        x1 < x2 || y1 < y2 || z1 < z2 || w1 < w2 ==> morton4(x1, y1, z1, w1) < morton4(
            x2,
            y2,
            z2,
            w2,
        ),
{
}

} // verus!
