//! Fixed-point arithmetic for importance scores and connection strengths.
use vstd::prelude::*;

verus! {

/// The fixed-point value that stands for 1.0 (one part in a billion).
pub const UNIT: i64 = 1_000_000_000;

/// `x` clamped into the range of `i64`.
pub open spec fn clamp_i64(x: int) -> int {
    if x < i64::MIN {
        i64::MIN as int
    } else if x > i64::MAX {
        i64::MAX as int
    } else {
        x
    }
}

/// `x` clamped into `[lo, hi]`.
pub open spec fn clamp(x: int, lo: int, hi: int) -> int {
    if x < lo {
        lo
    } else if x > hi {
        hi
    } else {
        x
    }
}

/// Integer division rounding toward zero, for a positive divisor.
pub open spec fn trunc_div(a: int, d: int) -> int {
    if a >= 0 {
        a / d
    } else {
        -((-a) / d)
    }
}

/// The fixed-point product of `a` and `b`: their product scaled down by
/// `UNIT`, rounded toward zero and saturated into `i64`.
pub open spec fn fixed_mul(a: i64, b: i64) -> int {
    clamp_i64(trunc_div(a * b, UNIT as int))
}

/// Multiplying by a strength in `[0, UNIT]` keeps a non-negative value
/// non-negative and never raises it.
pub proof fn lemma_fixed_mul_bounds(a: i64, s: i64)
    requires
        0 <= a,
        0 <= s <= UNIT,
    ensures
        0 <= fixed_mul(a, s) <= a,
{
    let x = a as int;
    let y = s as int;
    let u = UNIT as int;
    assert(0 <= x * y <= x * u) by (nonlinear_arith)
        requires
            0 <= x,
            0 <= y <= u,
    ;
    assert((x * u) / u == x) by (nonlinear_arith)
        requires
            u > 0,
    ;
    assert(0 <= (x * y) / u <= (x * u) / u) by (nonlinear_arith)
        requires
            0 <= x * y <= x * u,
            u > 0,
    ;
}

/// Multiplying by a non-negative strength preserves order between
/// non-negative values.
pub proof fn lemma_fixed_mul_monotone(a: i64, b: i64, s: i64)
    requires
        0 <= a <= b,
        0 <= s,
    ensures
        fixed_mul(a, s) <= fixed_mul(b, s),
{
    let x = a as int;
    let z = b as int;
    let y = s as int;
    let u = UNIT as int;
    assert(0 <= x * y <= z * y) by (nonlinear_arith)
        requires
            0 <= x <= z,
            0 <= y,
    ;
    assert((x * y) / u <= (z * y) / u) by (nonlinear_arith)
        requires
            0 <= x * y <= z * y,
            u > 0,
    ;
}

/// Fixed-point multiplication (see `fixed_mul`).
pub fn mul_fixed(a: i64, b: i64) -> (r: i64)
    ensures
        r == fixed_mul(a, b),
{
    proof {
        let x = a as int;
        let y = b as int;
        assert(-0x4000_0000_0000_0000_0000_0000_0000_0000 <= x * y
            <= 0x4000_0000_0000_0000_0000_0000_0000_0000) by (nonlinear_arith)
            requires
                -0x8000_0000_0000_0000 <= x <= 0x7fff_ffff_ffff_ffff,
                -0x8000_0000_0000_0000 <= y <= 0x7fff_ffff_ffff_ffff,
        ;
    }
    let p: i128 = a as i128 * b as i128;
    let u: i128 = UNIT as i128;
    let q: i128 = if p >= 0 {
        p / u
    } else {
        -((-p) / u)
    };
    saturate_i64(q)
}

/// Saturating conversion of a wide integer into `i64`.
pub fn saturate_i64(x: i128) -> (r: i64)
    ensures
        r == clamp_i64(x as int),
{
    if x < i64::MIN as i128 {
        i64::MIN
    } else if x > i64::MAX as i128 {
        i64::MAX
    } else {
        x as i64
    }
}

} // verus!
