//! Integer roots in fixed point.
//!
//! The sRGB transfer functions use the exponents 2.4 = 12/5 and its inverse
//! 5/12, so the whole gamma computation reduces to integer powers and the
//! integer square, cube and fifth roots defined here.

use vstd::prelude::*;

verus! {

/// One unit of the fixed-point channel scale: this many units stand for 1.0.
pub const FP_ONE: u32 = 65536;

pub open spec fn pow2(r: int) -> int {
    r * r
}

pub open spec fn pow3(r: int) -> int {
    r * r * r
}

pub open spec fn pow5(r: int) -> int {
    r * r * r * r * r
}

/// `r` is the integer square root of `x`: the largest `r` with `r^2 <= x`.
pub open spec fn is_sqrt(x: int, r: int) -> bool {
    0 <= r && pow2(r) <= x < pow2(r + 1)
}

/// `r` is the integer cube root of `x`.
pub open spec fn is_cbrt(x: int, r: int) -> bool {
    0 <= r && pow3(r) <= x < pow3(r + 1)
}

/// `r` is the integer fifth root of `x`.
pub open spec fn is_root5(x: int, r: int) -> bool {
    0 <= r && pow5(r) <= x < pow5(r + 1)
}

pub open spec fn spec_sqrt(x: int) -> int {
    choose|r: int| is_sqrt(x, r)
}

pub open spec fn spec_cbrt(x: int) -> int {
    choose|r: int| is_cbrt(x, r)
}

pub open spec fn spec_root5(x: int) -> int {
    choose|r: int| is_root5(x, r)
}

/// Every nonnegative integer has an integer square root.
pub proof fn lemma_sqrt_exists(x: int)
    requires
        0 <= x,
    ensures
        is_sqrt(x, spec_sqrt(x)),
    decreases x,
{
    if x == 0 {
        assert(is_sqrt(0, 0));
    } else {
        lemma_sqrt_exists(x - 1);
        let r = spec_sqrt(x - 1);
        if pow2(r + 1) <= x {
            assert(pow2(r + 1) < pow2(r + 2)) by (nonlinear_arith)
                requires 0 <= r;
            assert(is_sqrt(x, r + 1));
        } else {
            assert(is_sqrt(x, r));
        }
    }
    assert(exists|r: int| is_sqrt(x, r));
}

/// Every nonnegative integer has an integer cube root.
pub proof fn lemma_cbrt_exists(x: int)
    requires
        0 <= x,
    ensures
        is_cbrt(x, spec_cbrt(x)),
    decreases x,
{
    if x == 0 {
        assert(is_cbrt(0, 0));
    } else {
        lemma_cbrt_exists(x - 1);
        let r = spec_cbrt(x - 1);
        if pow3(r + 1) <= x {
            assert(pow3(r + 1) < pow3(r + 2)) by (nonlinear_arith)
                requires 0 <= r;
            assert(is_cbrt(x, r + 1));
        } else {
            assert(is_cbrt(x, r));
        }
    }
    assert(exists|r: int| is_cbrt(x, r));
}

/// Every nonnegative integer has an integer fifth root.
pub proof fn lemma_root5_exists(x: int)
    requires
        0 <= x,
    ensures
        is_root5(x, spec_root5(x)),
    decreases x,
{
    if x == 0 {
        assert(is_root5(0, 0));
    } else {
        lemma_root5_exists(x - 1);
        let r = spec_root5(x - 1);
        if pow5(r + 1) <= x {
            assert(pow5(r + 1) < pow5(r + 2)) by (nonlinear_arith)
                requires 0 <= r;
            assert(is_root5(x, r + 1));
        } else {
            assert(is_root5(x, r));
        }
    }
    assert(exists|r: int| is_root5(x, r));
}

/// The integer square root is unique.
pub proof fn lemma_sqrt_unique(x: int, r1: int, r2: int)
    requires
        is_sqrt(x, r1),
        is_sqrt(x, r2),
    ensures
        r1 == r2,
{
    if r1 < r2 {
        assert(pow2(r1 + 1) <= pow2(r2)) by (nonlinear_arith)
            requires 0 <= r1 + 1 <= r2;
    }
    if r2 < r1 {
        assert(pow2(r2 + 1) <= pow2(r1)) by (nonlinear_arith)
            requires 0 <= r2 + 1 <= r1;
    }
}

/// The integer cube root is unique.
pub proof fn lemma_cbrt_unique(x: int, r1: int, r2: int)
    requires
        is_cbrt(x, r1),
        is_cbrt(x, r2),
    ensures
        r1 == r2,
{
    if r1 < r2 {
        assert(pow3(r1 + 1) <= pow3(r2)) by (nonlinear_arith)
            requires 0 <= r1 + 1 <= r2;
    }
    if r2 < r1 {
        assert(pow3(r2 + 1) <= pow3(r1)) by (nonlinear_arith)
            requires 0 <= r2 + 1 <= r1;
    }
}

/// The integer fifth root is unique.
pub proof fn lemma_root5_unique(x: int, r1: int, r2: int)
    requires
        is_root5(x, r1),
        is_root5(x, r2),
    ensures
        r1 == r2,
{
    if r1 < r2 {
        assert(pow5(r1 + 1) <= pow5(r2)) by (nonlinear_arith)
            requires 0 <= r1 + 1 <= r2;
    }
    if r2 < r1 {
        assert(pow5(r2 + 1) <= pow5(r1)) by (nonlinear_arith)
            requires 0 <= r2 + 1 <= r1;
    }
}

/// The integer square root is monotonically non-decreasing.
pub proof fn lemma_sqrt_monotone(x1: int, x2: int)
    requires
        0 <= x1 <= x2,
    ensures
        spec_sqrt(x1) <= spec_sqrt(x2),
{
    lemma_sqrt_exists(x1);
    lemma_sqrt_exists(x2);
    let r1 = spec_sqrt(x1);
    let r2 = spec_sqrt(x2);
    if r2 < r1 {
        assert(pow2(r2 + 1) <= pow2(r1)) by (nonlinear_arith)
            requires 0 <= r2 + 1 <= r1;
    }
}

/// The integer cube root is monotonically non-decreasing.
pub proof fn lemma_cbrt_monotone(x1: int, x2: int)
    requires
        0 <= x1 <= x2,
    ensures
        spec_cbrt(x1) <= spec_cbrt(x2),
{
    lemma_cbrt_exists(x1);
    lemma_cbrt_exists(x2);
    let r1 = spec_cbrt(x1);
    let r2 = spec_cbrt(x2);
    if r2 < r1 {
        assert(pow3(r2 + 1) <= pow3(r1)) by (nonlinear_arith)
            requires 0 <= r2 + 1 <= r1;
    }
}

/// The integer fifth root is monotonically non-decreasing.
pub proof fn lemma_root5_monotone(x1: int, x2: int)
    requires
        0 <= x1 <= x2,
    ensures
        spec_root5(x1) <= spec_root5(x2),
{
    lemma_root5_exists(x1);
    lemma_root5_exists(x2);
    let r1 = spec_root5(x1);
    let r2 = spec_root5(x2);
    if r2 < r1 {
        assert(pow5(r2 + 1) <= pow5(r1)) by (nonlinear_arith)
            requires 0 <= r2 + 1 <= r1;
    }
}

/// Square root of a fixed-point value in [0, 1]: the result `r` satisfies
/// `(r/FP_ONE)^2 <= x/FP_ONE < ((r+1)/FP_ONE)^2`.
pub fn isqrt_fp(x: u64) -> (r: u64)
    requires
        x <= 65536,
    ensures
        r <= 65536,
        is_sqrt(x * 65536, r as int),
        r == spec_sqrt(x * 65536),
{
    let xs: u64 = x * 65536;
    let mut lo: u64 = 0;
    let mut hi: u64 = 65537;
    proof {
        assert((xs as int) < pow2(65537)) by (nonlinear_arith)
            requires xs <= 65536 * 65536;
    }
    while hi - lo > 1
        invariant
            lo < hi <= 65537,
            pow2(lo as int) <= xs as int,
            (xs as int) < pow2(hi as int),
        decreases hi - lo,
    {
        let mid: u64 = lo + (hi - lo) / 2;
        proof {
            assert(mid * mid <= 65536 * 65536) by (nonlinear_arith)
                requires mid <= 65536;
        }
        if mid * mid <= xs {
            lo = mid;
        } else {
            hi = mid;
        }
    }
    proof {
        assert(is_sqrt(xs as int, lo as int));
        lemma_sqrt_exists(xs as int);
        lemma_sqrt_unique(xs as int, lo as int, spec_sqrt(xs as int));
    }
    lo
}

/// Cube root of a fixed-point value in [0, 1].
pub fn icbrt_fp(x: u64) -> (r: u64)
    requires
        x <= 65536,
    ensures
        r <= 65536,
        is_cbrt(x * 0x1_0000_0000, r as int),
        r == spec_cbrt(x * 0x1_0000_0000),
{
    let xs: u64 = x * 0x1_0000_0000;
    let mut lo: u64 = 0;
    let mut hi: u64 = 65537;
    proof {
        assert((xs as int) < pow3(65537)) by (nonlinear_arith)
            requires xs <= 65536 * 0x1_0000_0000;
    }
    while hi - lo > 1
        invariant
            lo < hi <= 65537,
            pow3(lo as int) <= xs as int,
            (xs as int) < pow3(hi as int),
        decreases hi - lo,
    {
        let mid: u64 = lo + (hi - lo) / 2;
        proof {
            assert(mid * mid <= 65536 * 65536) by (nonlinear_arith)
                requires mid <= 65536;
            assert(mid * mid * mid <= 65536 * 65536 * 65536) by (nonlinear_arith)
                requires mid <= 65536 && mid * mid <= 65536 * 65536;
        }
        if mid * mid * mid <= xs {
            lo = mid;
        } else {
            hi = mid;
        }
    }
    proof {
        assert(is_cbrt(xs as int, lo as int));
        lemma_cbrt_exists(xs as int);
        lemma_cbrt_unique(xs as int, lo as int, spec_cbrt(xs as int));
    }
    lo
}

/// Fifth root of a fixed-point value in [0, 1].
pub fn iroot5_fp(x: u64) -> (r: u64)
    requires
        x <= 65536,
    ensures
        r <= 65536,
        is_root5(x * 0x1_0000_0000_0000_0000, r as int),
        r == spec_root5(x * 0x1_0000_0000_0000_0000),
{
    let xs: u128 = (x as u128) * 0x1_0000_0000_0000_0000;
    let mut lo: u64 = 0;
    let mut hi: u64 = 65537;
    proof {
        assert((xs as int) < pow5(65537)) by (nonlinear_arith)
            requires xs <= 65536 * 0x1_0000_0000_0000_0000;
    }
    while hi - lo > 1
        invariant
            lo < hi <= 65537,
            pow5(lo as int) <= xs as int,
            (xs as int) < pow5(hi as int),
            xs == x * 0x1_0000_0000_0000_0000,
        decreases hi - lo,
    {
        let mid: u64 = lo + (hi - lo) / 2;
        let m: u128 = mid as u128;
        proof {
            assert(m * m <= 65536 * 65536) by (nonlinear_arith)
                requires m <= 65536;
            assert(m * m * m <= 65536 * 65536 * 65536) by (nonlinear_arith)
                requires m <= 65536 && m * m <= 65536 * 65536;
            assert(m * m * m * m <= 0x1_0000_0000_0000_0000) by (nonlinear_arith)
                requires m <= 65536 && m * m * m <= 0x1_0000_0000_0000;
            assert(m * m * m * m * m <= 0x1_0000_0000_0000_0000 * 65536) by (nonlinear_arith)
                requires m <= 65536 && m * m * m * m <= 0x1_0000_0000_0000_0000;
        }
        let m5: u128 = m * m * m * m * m;
        proof {
            assert(m5 == pow5(mid as int)) by (nonlinear_arith)
                requires m == mid as int && m5 == m * m * m * m * m;
        }
        if m5 <= xs {
            lo = mid;
        } else {
            hi = mid;
        }
    }
    proof {
        assert(is_root5(xs as int, lo as int));
        lemma_root5_exists(xs as int);
        lemma_root5_unique(xs as int, lo as int, spec_root5(xs as int));
    }
    lo
}

} // verus!
