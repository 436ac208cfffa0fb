//! Linear colors and the two compositing operators.
//!
//! A `LinearRGB` holds three channel intensities in linear light, each a
//! `FP_ONE`-scaled fixed-point fraction of 1.0. The two blend operators work
//! channel by channel with no cross-channel coupling: plain linear
//! interpolation, and a Kubelka-Munk style subtractive blend that models the
//! overlay as a translucent pigment layer.

use vstd::prelude::*;

verus! {

use crate::transfer::spec_decode;
use crate::transfer::srgb_inv_gamma;
use vstd::arithmetic::div_mod::lemma_div_by_multiple;
use vstd::arithmetic::div_mod::lemma_div_is_ordered;
use vstd::arithmetic::mul::lemma_mul_inequality;

/// A color in linear (gamma-free) light, `FP_ONE` units per channel standing
/// for full intensity.
#[derive(Clone, Copy, Debug, PartialEq, Eq, Structural)]
pub struct LinearRGB {
    pub r: u32,
    pub g: u32,
    pub b: u32,
}

/// The sRGB byte `x` normalized to the fixed-point scale and decoded to
/// linear light.
pub open spec fn spec_from_srgb_chan(x: int) -> int {
    spec_decode(x * 65536 / 255)
}

/// Linear interpolation of one channel: `x0 + (x1 - x0) * t` with coverage
/// `t`, in fixed point.
pub open spec fn spec_lerp(x0: int, x1: int, t: int) -> int {
    (x0 * (65536 - t) + x1 * t) / 65536
}

/// The Kubelka-Munk style subtractive blend of one channel, in fixed point.
/// `k` is the overlay's reflectance over a black backing and `w` over a
/// white one; the base color shines through the layer nonlinearly. The
/// division is undefined at `x0 * k == 1` (both at full intensity), and
/// there the blend takes the limiting value `k`.
pub open spec fn spec_kubelka(x0: int, x1: int, t: int) -> int {
    let k = x1 * t / 65536;
    let w = k + 65536 - t;
    let d = 65536 * 65536 - x0 * k;
    if d == 0 {
        k
    } else {
        k + x0 * (w - k) * (65536 - k) / d
    }
}

impl LinearRGB {
    /// Channel intensities stay within the fixed-point unit range.
    pub open spec fn wf(self) -> bool {
        self.r <= 65536 && self.g <= 65536 && self.b <= 65536
    }

    /// Builds a linear color from three gamma-encoded sRGB bytes by
    /// normalizing and decoding each channel independently.
    pub fn from_srgb(r: u8, g: u8, b: u8) -> (c: LinearRGB)
        ensures
            c.wf(),
            c.r == spec_from_srgb_chan(r as int),
            c.g == spec_from_srgb_chan(g as int),
            c.b == spec_from_srgb_chan(b as int),
    {
        let rn: u32 = ((r as u32) * 65536) / 255;
        let gn: u32 = ((g as u32) * 65536) / 255;
        let bn: u32 = ((b as u32) * 65536) / 255;
        assert(rn <= 65536 && gn <= 65536 && bn <= 65536) by {
            lemma_mul_inequality(r as int, 255int, 65536int);
            lemma_mul_inequality(g as int, 255int, 65536int);
            lemma_mul_inequality(b as int, 255int, 65536int);
            lemma_div_is_ordered(r as int * 65536, 255int * 65536, 255int);
            lemma_div_is_ordered(g as int * 65536, 255int * 65536, 255int);
            lemma_div_is_ordered(b as int * 65536, 255int * 65536, 255int);
        };
        LinearRGB {
            r: srgb_inv_gamma(rn),
            g: srgb_inv_gamma(gn),
            b: srgb_inv_gamma(bn),
        }
    }

    /// Standard linear alpha compositing over an opaque background:
    /// coverage 0 keeps the base, coverage 1 takes the overlay.
    pub fn alpha_blend(self, top: LinearRGB, alpha: u32) -> (c: LinearRGB)
        requires
            self.wf(),
            top.wf(),
            alpha <= 65536,
        ensures
            c.wf(),
            c.r == spec_lerp(self.r as int, top.r as int, alpha as int),
            c.g == spec_lerp(self.g as int, top.g as int, alpha as int),
            c.b == spec_lerp(self.b as int, top.b as int, alpha as int),
    {
        LinearRGB {
            r: lerp_chan(self.r, top.r, alpha),
            g: lerp_chan(self.g, top.g, alpha),
            b: lerp_chan(self.b, top.b, alpha),
        }
    }

    /// The Kubelka-Munk style subtractive blend, channel by channel.
    pub fn kubelka_blend(self, top: LinearRGB, alpha: u32) -> (c: LinearRGB)
        requires
            self.wf(),
            top.wf(),
            alpha <= 65536,
        ensures
            c.wf(),
            c.r == spec_kubelka(self.r as int, top.r as int, alpha as int),
            c.g == spec_kubelka(self.g as int, top.g as int, alpha as int),
            c.b == spec_kubelka(self.b as int, top.b as int, alpha as int),
    {
        LinearRGB {
            r: kubelka_chan(self.r, top.r, alpha),
            g: kubelka_chan(self.g, top.g, alpha),
            b: kubelka_chan(self.b, top.b, alpha),
        }
    }
}

/// One channel of the linear interpolation.
fn lerp_chan(x0: u32, x1: u32, t: u32) -> (r: u32)
    requires
        x0 <= 65536,
        x1 <= 65536,
        t <= 65536,
    ensures
        r <= 65536,
        r == spec_lerp(x0 as int, x1 as int, t as int),
{
    proof {
        lemma_mul_inequality(x0 as int, 65536int, 65536 - t as int);
        lemma_mul_inequality(x1 as int, 65536int, t as int);
        lemma_mul_inequality(65536 - t as int, 65536int, 65536int);
        lemma_mul_inequality(t as int, 65536int, 65536int);
        assert(x0 as int * (65536 - t as int) <= 65536 * (65536 - t as int))
            by (nonlinear_arith)
            requires x0 <= 65536 && t <= 65536;
        assert(x1 as int * (t as int) <= 65536 * (t as int)) by (nonlinear_arith)
            requires x1 <= 65536;
        lemma_div_is_ordered(
            x0 as int * (65536 - t as int) + x1 as int * (t as int),
            65536int * 65536,
            65536int,
        );
    }
    let num: u64 = (x0 as u64) * ((65536 - t) as u64) + (x1 as u64) * (t as u64);
    (num / 65536) as u32
}

/// One channel of the Kubelka-Munk blend.
fn kubelka_chan(x0: u32, x1: u32, t: u32) -> (r: u32)
    requires
        x0 <= 65536,
        x1 <= 65536,
        t <= 65536,
    ensures
        r <= 65536,
        r == spec_kubelka(x0 as int, x1 as int, t as int),
{
    proof {
        assert(x1 as int * t as int <= 65536 * t as int) by (nonlinear_arith)
            requires x1 <= 65536;
        assert(65536 * t as int <= 65536 * 65536) by (nonlinear_arith)
            requires t <= 65536;
        lemma_div_is_ordered(x1 as int * t as int, 65536 * t as int, 65536int);
        lemma_div_by_multiple(t as int, 65536int);
    }
    let k: u64 = (x1 as u64) * (t as u64) / 65536;
    assert(k <= t);
    let w: u64 = k + 65536 - (t as u64);
    proof {
        assert(x0 as int * k as int <= 65536 * 65536) by (nonlinear_arith)
            requires x0 <= 65536 && k <= 65536;
    }
    let d: u64 = 65536 * 65536 - (x0 as u64) * k;
    if d == 0 {
        assert(k <= 65536);
        k as u32
    } else {
        proof {
            assert(x0 as int * (w as int - k as int) <= 65536 * 65536)
                by (nonlinear_arith)
                requires x0 <= 65536 && w as int - k as int <= 65536 && 0 <= w as int - k as int;
            assert(x0 as int * (w as int - k as int) * (65536 - k as int)
                <= 0x1_0000_0000 * 65536) by (nonlinear_arith)
                requires x0 as int * (w as int - k as int) <= 0x1_0000_0000
                    && 65536 - k as int <= 65536 && 0 <= 65536 - k as int
                    && 0 <= x0 as int * (w as int - k as int);
        }
        let num: u64 = (x0 as u64) * (w - k) * (65536 - k);
        proof {
            // the blended term never exceeds the white-backing reflectance:
            // d >= 65536 * (65536 - k) and num <= (w - k) * (65536 * (65536 - k))
            assert(d as int >= 65536 * (65536 - k as int)) by (nonlinear_arith)
                requires x0 <= 65536 && k <= 65536
                    && d == 65536 * 65536 - x0 as int * k as int;
            assert(num as int <= (w as int - k as int) * (65536 * (65536 - k as int)))
                by (nonlinear_arith)
                requires x0 <= 65536 && 0 <= w as int - k as int && k <= 65536
                    && num == x0 as int * (w as int - k as int) * (65536 - k as int);
            assert(num as int / d as int <= w as int - k as int) by (nonlinear_arith)
                requires 0 < d && 0 <= num
                    && d as int >= 65536 * (65536 - k as int)
                    && num as int <= (w as int - k as int) * (65536 * (65536 - k as int))
                    && 0 <= w as int - k as int;
        }
        let term: u64 = num / d;
        let res: u64 = k + term;
        assert(res <= 65536);
        res as u32
    }
}

/// Coverage 0 leaves the base of an alpha blend unchanged, and coverage 1
/// returns the overlay unchanged.
pub proof fn lemma_alpha_blend_identities(x0: int, x1: int)
    requires
        0 <= x0 <= 65536,
        0 <= x1 <= 65536,
    ensures
        spec_lerp(x0, x1, 0) == x0,
        spec_lerp(x0, x1, 65536) == x1,
{
    lemma_div_by_multiple(x0, 65536int);
    lemma_div_by_multiple(x1, 65536int);
}

/// Coverage 0 leaves the base of a Kubelka-Munk blend unchanged: the layer
/// contributes nothing over black, and the base shines fully through.
pub proof fn lemma_kubelka_zero_coverage(x0: int, x1: int)
    requires
        0 <= x0 <= 65536,
        0 <= x1 <= 65536,
    ensures
        spec_kubelka(x0, x1, 0) == x0,
{
    assert(x1 * 0 == 0);
    assert(x1 * 0 / 65536 == 0);
    assert(x0 * 0 == 0);
    assert(spec_kubelka(x0, x1, 0) == x0 * 65536 * 65536 / (65536int * 65536));
    assert(x0 * 65536 * 65536 == x0 * (65536 * 65536)) by (nonlinear_arith);
    lemma_div_by_multiple(x0, 65536int * 65536);
}

/// The degenerate Kubelka-Munk input: base and overlay at full intensity
/// with full coverage makes the division's denominator zero, and the blend
/// takes the bounded limiting value of full intensity.
pub proof fn lemma_kubelka_degenerate()
    ensures
        spec_kubelka(65536, 65536, 65536) == 65536,
{
    lemma_div_by_multiple(65536int, 65536int);
}

} // verus!
