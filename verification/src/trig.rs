//! Fixed-point cosine for the equirectangular distance approximation.
//!
//! Latitudes come in as microdegrees; the cosine comes out scaled by
//! `100_000`. The value is computed from truncated Taylor series over
//! radians scaled by a thousand million, after folding the argument into a
//! quarter turn. Every executable step is proved equal to the spec-level
//! computation, so the cosine used by contracts is exactly the one the code
//! computes.

use vstd::prelude::*;
use vstd::arithmetic::div_mod::{lemma_div_is_ordered, lemma_div_pos_is_pos};

verus! {

/// Scale of the intermediate radian and series values.
pub const E9: u64 = 1_000_000_000;

/// Microdegrees to radians scaled by `E9`: the factor is
/// pi / 180 * 1000, itself scaled by one million.
pub const RAD_E9_PER_DEG_E6_X1M: u64 = 17_453_293;

/// Radians scaled by `E9`, computed from microdegrees.
pub open spec fn spec_rad_e9(x_e6: int) -> int {
    x_e6 * 17_453_293 / 1_000_000
}

/// Truncated Taylor series for the cosine of `r` (radians scaled by `E9`,
/// at most a quarter turn's half), as computed in fixed point: the exact
/// value the executable code produces.
pub open spec fn spec_cos_taylor_e9(r: int) -> int {
    let r2 = r * r / 1_000_000_000;
    let t1 = 1_000_000_000 - r2 / 56;
    let t2 = 1_000_000_000 - r2 * t1 / 1_000_000_000 / 30;
    let t3 = 1_000_000_000 - r2 * t2 / 1_000_000_000 / 12;
    1_000_000_000 - r2 * t3 / 1_000_000_000 / 2
}

/// Truncated Taylor series for the sine of `y` (radians scaled by `E9`,
/// at most a quarter turn's half), in fixed point.
pub open spec fn spec_sin_taylor_e9(y: int) -> int {
    let y2 = y * y / 1_000_000_000;
    let u1 = 1_000_000_000 - y2 / 42;
    let u2 = 1_000_000_000 - y2 * u1 / 1_000_000_000 / 20;
    let u3 = 1_000_000_000 - y2 * u2 / 1_000_000_000 / 6;
    y * u3 / 1_000_000_000
}

/// Cosine over the first quarter turn (`x_e6` in microdegrees, 0 to 90
/// degrees), scaled by `E9`. Arguments above 45 degrees go through the
/// sine of the complement, keeping the series argument small.
pub open spec fn spec_cos_quarter_e9(x_e6: int) -> int {
    if x_e6 <= 45_000_000 {
        spec_cos_taylor_e9(spec_rad_e9(x_e6))
    } else {
        spec_sin_taylor_e9(spec_rad_e9(90_000_000 - x_e6))
    }
}

/// Cosine of a latitude given in microdegrees (within plus or minus 180
/// degrees), scaled by `100_000`.
pub open spec fn spec_cos_e5(lat_e6: int) -> int {
    let a = if lat_e6 < 0 { -lat_e6 } else { lat_e6 };
    if a <= 90_000_000 {
        spec_cos_quarter_e9(a) / 10_000
    } else {
        -(spec_cos_quarter_e9(180_000_000 - a) / 10_000)
    }
}

/// A product of bounded non-negative factors, divided by a positive
/// constant, stays within the bound computed from the factors' bounds.
proof fn lemma_mul_div_le(a: int, b: int, amax: int, bmax: int, d: int)
    requires
        0 <= a <= amax,
        0 <= b <= bmax,
        0 < d,
    ensures
        0 <= a * b <= amax * bmax,
        0 <= a * b / d <= amax * bmax / d,
{
    assert(0 <= a * b <= amax * bmax) by (nonlinear_arith)
        requires
            0 <= a <= amax,
            0 <= b <= bmax,
    ;
    lemma_div_pos_is_pos(a * b, d);
    lemma_div_is_ordered(a * b, amax * bmax, d);
}

fn cos_taylor_e9(r: u64) -> (c: u64)
    requires
        r <= 786_000_000,
    ensures
        c == spec_cos_taylor_e9(r as int),
        c <= 1_000_000_000,
{
    proof {
        lemma_mul_div_le(r as int, r as int, 786_000_000, 786_000_000, 1_000_000_000);
    }
    let r2: u64 = r * r / 1_000_000_000;
    proof {
        lemma_div_pos_is_pos(r2 as int, 56);
        lemma_div_is_ordered(r2 as int, 617_796_000, 56);
    }
    let t1: u64 = 1_000_000_000 - r2 / 56;
    proof {
        lemma_mul_div_le(r2 as int, t1 as int, 617_796_000, 1_000_000_000, 1_000_000_000);
        lemma_div_pos_is_pos(r2 as int * t1 as int / 1_000_000_000, 30);
        lemma_div_is_ordered(r2 as int * t1 as int / 1_000_000_000, 617_796_000, 30);
    }
    let t2: u64 = 1_000_000_000 - r2 * t1 / 1_000_000_000 / 30;
    proof {
        lemma_mul_div_le(r2 as int, t2 as int, 617_796_000, 1_000_000_000, 1_000_000_000);
        lemma_div_pos_is_pos(r2 as int * t2 as int / 1_000_000_000, 12);
        lemma_div_is_ordered(r2 as int * t2 as int / 1_000_000_000, 617_796_000, 12);
    }
    let t3: u64 = 1_000_000_000 - r2 * t2 / 1_000_000_000 / 12;
    proof {
        lemma_mul_div_le(r2 as int, t3 as int, 617_796_000, 1_000_000_000, 1_000_000_000);
        lemma_div_pos_is_pos(r2 as int * t3 as int / 1_000_000_000, 2);
        lemma_div_is_ordered(r2 as int * t3 as int / 1_000_000_000, 617_796_000, 2);
    }
    let t4: u64 = 1_000_000_000 - r2 * t3 / 1_000_000_000 / 2;
    t4
}

fn sin_taylor_e9(y: u64) -> (s: u64)
    requires
        y <= 786_000_000,
    ensures
        s == spec_sin_taylor_e9(y as int),
        s <= 1_000_000_000,
{
    proof {
        lemma_mul_div_le(y as int, y as int, 786_000_000, 786_000_000, 1_000_000_000);
    }
    let y2: u64 = y * y / 1_000_000_000;
    proof {
        lemma_div_pos_is_pos(y2 as int, 42);
        lemma_div_is_ordered(y2 as int, 617_796_000, 42);
    }
    let u1: u64 = 1_000_000_000 - y2 / 42;
    proof {
        lemma_mul_div_le(y2 as int, u1 as int, 617_796_000, 1_000_000_000, 1_000_000_000);
        lemma_div_pos_is_pos(y2 as int * u1 as int / 1_000_000_000, 20);
        lemma_div_is_ordered(y2 as int * u1 as int / 1_000_000_000, 617_796_000, 20);
    }
    let u2: u64 = 1_000_000_000 - y2 * u1 / 1_000_000_000 / 20;
    proof {
        lemma_mul_div_le(y2 as int, u2 as int, 617_796_000, 1_000_000_000, 1_000_000_000);
        lemma_div_pos_is_pos(y2 as int * u2 as int / 1_000_000_000, 6);
        lemma_div_is_ordered(y2 as int * u2 as int / 1_000_000_000, 617_796_000, 6);
    }
    let u3: u64 = 1_000_000_000 - y2 * u2 / 1_000_000_000 / 6;
    proof {
        lemma_mul_div_le(y as int, u3 as int, 786_000_000, 1_000_000_000, 1_000_000_000);
    }
    let s: u64 = y * u3 / 1_000_000_000;
    s
}

fn cos_quarter_e9(x_e6: u64) -> (c: u64)
    requires
        x_e6 <= 90_000_000,
    ensures
        c == spec_cos_quarter_e9(x_e6 as int),
        c <= 1_000_000_000,
{
    if x_e6 <= 45_000_000 {
        proof {
            lemma_mul_div_le(x_e6 as int, 17_453_293, 45_000_000, 17_453_293, 1_000_000);
        }
        let r: u64 = x_e6 * 17_453_293 / 1_000_000;
        cos_taylor_e9(r)
    } else {
        let y_e6: u64 = 90_000_000 - x_e6;
        proof {
            lemma_mul_div_le(y_e6 as int, 17_453_293, 45_000_000, 17_453_293, 1_000_000);
        }
        let y: u64 = y_e6 * 17_453_293 / 1_000_000;
        sin_taylor_e9(y)
    }
}

/// Cosine of a latitude in microdegrees, scaled by `100_000`: the scaling
/// factor of one longitude degree relative to the equator.
pub fn cos_e5(lat_e6: i64) -> (c: i64)
    requires
        -180_000_000 <= lat_e6 <= 180_000_000,
    ensures
        c == spec_cos_e5(lat_e6 as int),
        -100_000 <= c <= 100_000,
{
    let a: i64 = if lat_e6 < 0 { -lat_e6 } else { lat_e6 };
    if a <= 90_000_000 {
        let q: u64 = cos_quarter_e9(a as u64);
        proof {
            lemma_div_pos_is_pos(q as int, 10_000);
            lemma_div_is_ordered(q as int, 1_000_000_000, 10_000);
        }
        (q / 10_000) as i64
    } else {
        let q: u64 = cos_quarter_e9((180_000_000 - a) as u64);
        proof {
            lemma_div_pos_is_pos(q as int, 10_000);
            lemma_div_is_ordered(q as int, 1_000_000_000, 10_000);
        }
        -((q / 10_000) as i64)
    }
}

} // verus!
