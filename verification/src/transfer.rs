//! The sRGB transfer functions in fixed point.
//!
//! `srgb_inv_gamma` converts a gamma-encoded value to linear light and
//! `srgb_gamma` converts linear light back to the gamma-encoded scale; both
//! work on `FP_ONE`-scaled fixed-point fractions of 1.0. The piecewise
//! definitions follow the standard sRGB transfer function: a linear segment
//! below a small threshold, and the power 2.4 (or its inverse 5/12) above it.
//! The exponent 2.4 is computed as `v^2 * (v^(1/5))^2` and the exponent 5/12
//! as `(v^(1/12))^5`, so every step is an integer power or an integer root.

use vstd::prelude::*;

verus! {

use crate::fixed::is_cbrt;
use crate::fixed::is_root5;
use crate::fixed::is_sqrt;
use crate::fixed::lemma_cbrt_exists;
use crate::fixed::lemma_cbrt_unique;
use crate::fixed::lemma_root5_exists;
use crate::fixed::lemma_root5_unique;
use crate::fixed::lemma_sqrt_exists;
use crate::fixed::lemma_sqrt_unique;
use crate::fixed::lemma_cbrt_monotone;
use crate::fixed::lemma_root5_monotone;
use crate::fixed::lemma_sqrt_monotone;
use crate::fixed::icbrt_fp;
use crate::fixed::iroot5_fp;
use crate::fixed::isqrt_fp;
use crate::fixed::pow5;
use crate::fixed::spec_cbrt;
use crate::fixed::spec_root5;
use crate::fixed::spec_sqrt;

use vstd::arithmetic::div_mod::lemma_div_by_multiple;
use vstd::arithmetic::div_mod::lemma_div_is_ordered;
use vstd::arithmetic::div_mod::lemma_div_pos_is_pos;
use vstd::arithmetic::mul::lemma_mul_inequality;

/// The gamma-encoded value fed to the power branch of the decoder:
/// `(u + 0.055) / 1.055` in fixed point, computed as exact rationals.
pub open spec fn decode_base(u: int) -> int {
    (200 * u + 720896) / 211
}

/// sRGB to linear light on `FP_ONE`-scaled fractions: `u / 12.92` below the
/// threshold 0.04045, `((u + 0.055) / 1.055)^2.4` above it. The power 2.4 is
/// `v^2 * (v^(1/5))^2`, divided back down to the fixed-point scale.
pub open spec fn spec_decode(u: int) -> int {
    if u <= 2651 {
        u * 25 / 323
    } else {
        let v = decode_base(u);
        let r5 = spec_root5(v * 0x1_0000_0000_0000_0000);
        v * v * r5 * r5 / 0x1_0000_0000_0000
    }
}

/// Linear light to the gamma-encoded scale on `FP_ONE`-scaled fractions:
/// `12.92 * z` below the threshold 0.0031308, `1.055 * z^(1/2.4) - 0.055`
/// above it, clamped to [0, 1] after encoding. The input is clamped to 1.0
/// first, which encodes out-of-range linear values to the same bytes as
/// clamping the encoded result would, since the curve is monotone and fixes
/// 1.0. The exponent 1/2.4 = 5/12 is `(z^(1/12))^5`.
pub open spec fn spec_gamma(z: int) -> int {
    let zc = if z > 65536 { 65536 } else { z };
    if zc <= 205 {
        zc * 323 / 25
    } else {
        let a = spec_cbrt(zc * 0x1_0000_0000);
        let b = spec_sqrt(a * 65536);
        let c = spec_sqrt(b * 65536);
        let q = pow5(c) / 0x1_0000_0000_0000_0000;
        if 211 * q <= 720896 {
            0
        } else if (211 * q - 720896) / 200 > 65536 {
            65536
        } else {
            (211 * q - 720896) / 200
        }
    }
}

/// The stored byte for a linear channel value: gamma-encode, scale by 255,
/// round to the nearest integer.
pub open spec fn spec_encode_byte(z: int) -> int {
    (spec_gamma(z) * 255 + 32768) / 65536
}

/// sRGB-to-linear transfer function (the inverse electro-optical gamma).
pub fn srgb_inv_gamma(u: u32) -> (r: u32)
    requires
        u <= 65536,
    ensures
        r <= 65536,
        r == spec_decode(u as int),
{
    if u <= 2651 {
        u * 25 / 323
    } else {
        let v: u64 = (200 * (u as u64) + 720896) / 211;
        assert(v <= 65536) by {
            vstd::arithmetic::div_mod::lemma_div_is_ordered(
                200 * (u as int) + 720896, (211 * 65536) as int, 211int);
        };
        let r5: u64 = iroot5_fp(v);
        proof {
            assert(v * v <= 65536 * 65536) by (nonlinear_arith)
                requires v <= 65536;
            assert(r5 * r5 <= 65536 * 65536) by (nonlinear_arith)
                requires r5 <= 65536;
            assert((v * v) * ((r5 * r5) as int) <= 0x1_0000_0000 * 0x1_0000_0000)
                by (nonlinear_arith)
                requires v * v <= 0x1_0000_0000 && r5 * r5 <= 0x1_0000_0000;
        }
        let prod: u128 = ((v * v) as u128) * ((r5 * r5) as u128);
        proof {
            assert(prod / 0x1_0000_0000_0000 <= 65536) by (nonlinear_arith)
                requires prod <= 0x1_0000_0000_0000_0000;
            assert(prod == (v as int) * (v as int) * (r5 as int) * (r5 as int))
                by (nonlinear_arith)
                requires prod == (v * v) * ((r5 * r5) as int);
        }
        (prod / 0x1_0000_0000_0000) as u32
    }
}

/// Linear-to-sRGB transfer function on the fixed-point scale, with the
/// clamp to [0, 1] that encoding requires.
pub fn srgb_gamma(z: u32) -> (r: u32)
    ensures
        r <= 65536,
        r == spec_gamma(z as int),
{
    let zc: u32 = if z > 65536 { 65536 } else { z };
    if zc <= 205 {
        zc * 323 / 25
    } else {
        let a: u64 = icbrt_fp(zc as u64);
        let b: u64 = isqrt_fp(a);
        let c: u64 = isqrt_fp(b);
        let c1: u128 = c as u128;
        proof {
            assert(c1 * c1 <= 65536 * 65536) by (nonlinear_arith)
                requires c1 <= 65536;
            assert(c1 * c1 * c1 <= 65536 * 65536 * 65536) by (nonlinear_arith)
                requires c1 <= 65536 && c1 * c1 <= 65536 * 65536;
            assert(c1 * c1 * c1 * c1 <= 0x1_0000_0000_0000_0000) by (nonlinear_arith)
                requires c1 <= 65536 && c1 * c1 * c1 <= 0x1_0000_0000_0000;
            assert(c1 * c1 * c1 * c1 * c1 <= 0x1_0000_0000_0000_0000 * 65536)
                by (nonlinear_arith)
                requires c1 <= 65536 && c1 * c1 * c1 * c1 <= 0x1_0000_0000_0000_0000;
        }
        let c5: u128 = c1 * c1 * c1 * c1 * c1;
        let q: u64 = (c5 / 0x1_0000_0000_0000_0000) as u64;
        proof {
            assert(c5 == pow5(c as int)) by (nonlinear_arith)
                requires c1 == c as int && c5 == c1 * c1 * c1 * c1 * c1;
            assert(c5 / 0x1_0000_0000_0000_0000 <= 65536) by (nonlinear_arith)
                requires c5 <= 0x1_0000_0000_0000_0000 * 65536;
        }
        if 211 * q <= 720896 {
            0
        } else if (211 * q - 720896) / 200 > 65536 {
            65536
        } else {
            ((211 * q - 720896) / 200) as u32
        }
    }
}

/// The stored byte for a linear channel value: gamma-encode, scale to the
/// byte range, round to nearest.
pub fn srgb_encode_byte(z: u32) -> (b: u8)
    ensures
        b == spec_encode_byte(z as int),
{
    let g: u32 = srgb_gamma(z);
    let scaled: u64 = ((g as u64) * 255 + 32768) / 65536;
    assert(scaled <= 255) by {
        vstd::arithmetic::div_mod::lemma_div_is_ordered(
            (g as int) * 255 + 32768, (65536 * 255 + 32768) as int, 65536int);
    };
    scaled as u8
}


/// On the power branch the decoder's output is at least the value it takes
/// just past the threshold, which dominates the whole linear segment.
proof fn lemma_decode_power_ge(u: int)
    requires
        2652 <= u,
    ensures
        spec_decode(u) >= 205,
{
    let v = decode_base(u);
    lemma_div_is_ordered(200int * 2652 + 720896, 200 * u + 720896, 211int);
    assert(v >= 5930);
    let r5 = spec_root5(v * 0x1_0000_0000_0000_0000);
    lemma_mul_inequality(5930int, v, 0x1_0000_0000_0000_0000int);
    lemma_root5_monotone(5930int * 0x1_0000_0000_0000_0000, v * 0x1_0000_0000_0000_0000);
    lemma_root5_exists(5930int * 0x1_0000_0000_0000_0000);
    assert(is_root5(5930int * 0x1_0000_0000_0000_0000, 40531));
    lemma_root5_unique(
        5930int * 0x1_0000_0000_0000_0000,
        40531,
        spec_root5(5930int * 0x1_0000_0000_0000_0000),
    );
    assert(r5 >= 40531);
    assert(v * v * r5 * r5 >= 5930 * 5930 * 40531 * 40531) by (nonlinear_arith)
        requires v >= 5930 && r5 >= 40531;
    lemma_div_is_ordered(205int * 0x1_0000_0000_0000, v * v * r5 * r5, 0x1_0000_0000_0000int);
    lemma_div_by_multiple(205int, 0x1_0000_0000_0000int);
}

/// Within the power branch the decoder is monotone: each step of the chain
/// (affine map, fifth root, squares, final scale-down) preserves order.
proof fn lemma_decode_power_monotone(u1: int, u2: int)
    requires
        2652 <= u1 <= u2,
    ensures
        spec_decode(u1) <= spec_decode(u2),
{
    let v1 = decode_base(u1);
    let v2 = decode_base(u2);
    lemma_div_is_ordered(200 * u1 + 720896, 200 * u2 + 720896, 211int);
    lemma_div_pos_is_pos(200 * u1 + 720896, 211int);
    let r1 = spec_root5(v1 * 0x1_0000_0000_0000_0000);
    let r2 = spec_root5(v2 * 0x1_0000_0000_0000_0000);
    lemma_mul_inequality(v1, v2, 0x1_0000_0000_0000_0000int);
    lemma_root5_exists(v1 * 0x1_0000_0000_0000_0000);
    lemma_root5_exists(v2 * 0x1_0000_0000_0000_0000);
    lemma_root5_monotone(v1 * 0x1_0000_0000_0000_0000, v2 * 0x1_0000_0000_0000_0000);
    assert(v1 * v1 * r1 * r1 <= v2 * v2 * r2 * r2) by (nonlinear_arith)
        requires 0 <= v1 <= v2 && 0 <= r1 <= r2;
    lemma_div_is_ordered(v1 * v1 * r1 * r1, v2 * v2 * r2 * r2, 0x1_0000_0000_0000int);
}

/// The sRGB decoder is monotonically non-decreasing over its whole domain.
pub proof fn lemma_decode_monotone(u1: int, u2: int)
    requires
        0 <= u1 <= u2 <= 65536,
    ensures
        spec_decode(u1) <= spec_decode(u2),
{
    if u2 <= 2651 {
        lemma_mul_inequality(u1, u2, 25int);
        lemma_div_is_ordered(u1 * 25, u2 * 25, 323int);
    } else if u1 <= 2651 {
        lemma_mul_inequality(u1, 2651int, 25int);
        lemma_div_is_ordered(u1 * 25, 2651int * 25, 323int);
        assert(spec_decode(u1) <= 205);
        lemma_decode_power_ge(u2);
    } else {
        lemma_decode_power_monotone(u1, u2);
    }
}

/// On the power branch the encoder's output is at least the value it takes
/// just past the threshold, which dominates the whole linear segment.
proof fn lemma_gamma_power_ge(z: int)
    requires
        206 <= z <= 65536,
    ensures
        spec_gamma(z) >= 2660,
{
    let a = spec_cbrt(z * 0x1_0000_0000);
    lemma_mul_inequality(206int, z, 0x1_0000_0000int);
    lemma_cbrt_monotone(206int * 0x1_0000_0000, z * 0x1_0000_0000);
    lemma_cbrt_exists(206int * 0x1_0000_0000);
    assert(is_cbrt(206int * 0x1_0000_0000, 9600));
    lemma_cbrt_unique(206int * 0x1_0000_0000, 9600, spec_cbrt(206int * 0x1_0000_0000));
    assert(a >= 9600);

    let b = spec_sqrt(a * 65536);
    lemma_mul_inequality(9600int, a, 65536int);
    lemma_sqrt_monotone(9600int * 65536, a * 65536);
    lemma_sqrt_exists(9600int * 65536);
    assert(is_sqrt(9600int * 65536, 25082));
    lemma_sqrt_unique(9600int * 65536, 25082, spec_sqrt(9600int * 65536));
    assert(b >= 25082);

    let c = spec_sqrt(b * 65536);
    lemma_mul_inequality(25082int, b, 65536int);
    lemma_sqrt_monotone(25082int * 65536, b * 65536);
    lemma_sqrt_exists(25082int * 65536);
    assert(is_sqrt(25082int * 65536, 40543));
    lemma_sqrt_unique(25082int * 65536, 40543, spec_sqrt(25082int * 65536));
    assert(c >= 40543);

    let q = pow5(c) / 0x1_0000_0000_0000_0000;
    assert(pow5(c) >= pow5(40543)) by (nonlinear_arith)
        requires c >= 40543;
    lemma_div_is_ordered(pow5(40543), pow5(c), 0x1_0000_0000_0000_0000int);
    lemma_div_is_ordered(5938int * 0x1_0000_0000_0000_0000, pow5(40543),
        0x1_0000_0000_0000_0000int);
    lemma_div_by_multiple(5938int, 0x1_0000_0000_0000_0000int);
    assert(q >= 5938);
    lemma_div_is_ordered(211 * 5938 - 720896, 211 * q - 720896, 200int);
}

/// Within the power branch the encoder is monotone: the root chain, the
/// fifth power, the affine map and both clamps preserve order.
proof fn lemma_gamma_power_monotone(z1: int, z2: int)
    requires
        206 <= z1 <= z2 <= 65536,
    ensures
        spec_gamma(z1) <= spec_gamma(z2),
{
    let a1 = spec_cbrt(z1 * 0x1_0000_0000);
    let a2 = spec_cbrt(z2 * 0x1_0000_0000);
    lemma_mul_inequality(z1, z2, 0x1_0000_0000int);
    lemma_cbrt_exists(z1 * 0x1_0000_0000);
    lemma_cbrt_monotone(z1 * 0x1_0000_0000, z2 * 0x1_0000_0000);

    let b1 = spec_sqrt(a1 * 65536);
    let b2 = spec_sqrt(a2 * 65536);
    lemma_mul_inequality(a1, a2, 65536int);
    lemma_sqrt_exists(a1 * 65536);
    lemma_sqrt_monotone(a1 * 65536, a2 * 65536);

    let c1 = spec_sqrt(b1 * 65536);
    let c2 = spec_sqrt(b2 * 65536);
    lemma_mul_inequality(b1, b2, 65536int);
    lemma_sqrt_exists(b1 * 65536);
    lemma_sqrt_monotone(b1 * 65536, b2 * 65536);

    let q1 = pow5(c1) / 0x1_0000_0000_0000_0000;
    let q2 = pow5(c2) / 0x1_0000_0000_0000_0000;
    assert(pow5(c1) >= 0 && pow5(c1) <= pow5(c2)) by (nonlinear_arith)
        requires 0 <= c1 <= c2;
    lemma_div_is_ordered(pow5(c1), pow5(c2), 0x1_0000_0000_0000_0000int);
    lemma_div_pos_is_pos(pow5(c1), 0x1_0000_0000_0000_0000int);

    if 211 * q1 <= 720896 {
        if 211 * q2 > 720896 {
            lemma_div_pos_is_pos(211 * q2 - 720896, 200int);
        }
    } else {
        lemma_div_is_ordered(211 * q1 - 720896, 211 * q2 - 720896, 200int);
    }
}

/// The sRGB encoder is monotonically non-decreasing: a brighter linear
/// value never maps to a smaller gamma-encoded value.
pub proof fn lemma_gamma_monotone(z1: int, z2: int)
    requires
        0 <= z1 <= z2,
    ensures
        spec_gamma(z1) <= spec_gamma(z2),
{
    let zc1 = if z1 > 65536 { 65536int } else { z1 };
    let zc2 = if z2 > 65536 { 65536int } else { z2 };
    if zc2 <= 205 {
        lemma_mul_inequality(zc1, zc2, 323int);
        lemma_div_is_ordered(zc1 * 323, zc2 * 323, 25int);
    } else if zc1 <= 205 {
        lemma_mul_inequality(zc1, 205int, 323int);
        lemma_div_is_ordered(zc1 * 323, 205int * 323, 25int);
        assert(spec_gamma(z1) <= 2648);
        lemma_gamma_power_ge(zc2);
    } else {
        lemma_gamma_power_monotone(zc1, zc2);
    }
}

/// Byte encoding is monotonically non-decreasing in the linear value.
pub proof fn lemma_encode_byte_monotone(z1: int, z2: int)
    requires
        0 <= z1 <= z2,
    ensures
        spec_encode_byte(z1) <= spec_encode_byte(z2),
{
    lemma_gamma_monotone(z1, z2);
    lemma_mul_inequality(spec_gamma(z1), spec_gamma(z2), 255int);
    lemma_div_is_ordered(spec_gamma(z1) * 255 + 32768, spec_gamma(z2) * 255 + 32768,
        65536int);
}

} // verus!
