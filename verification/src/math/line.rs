//! Linear interpolation between two grid points at a dyadic parameter.

use vstd::prelude::*;
use vstd::arithmetic::power2::{lemma2_to64_rest, lemma_pow2_pos, lemma_pow2_strictly_increases, lemma_pow2_unfold, pow2};
use crate::math::arith::{lemma_div_mod_parts, lemma_div_mod_unique, lemma_i128_shr_is_div};
use crate::math::point::IntPoint;

verus! {

/// The deepest subdivision at which a parameter can be named.
pub const MAX_SPLIT_FACTOR: u32 = 63;

/// `step / 2^split_factor` names a parameter between zero and one.
pub open spec fn is_parameter(step: int, split_factor: int) -> bool {
    &&& 0 <= split_factor <= MAX_SPLIT_FACTOR
    &&& 0 <= step <= pow2(split_factor as nat)
}

/// The coordinate at `step / 2^split_factor` of the way from `a` to `b`,
/// rounded down.
pub open spec fn lerp(a: int, b: int, step: int, split_factor: int) -> int {
    a + ((b - a) * step) / (pow2(split_factor as nat) as int)
}

/// The point at `step / 2^split_factor` of the way from `a` to `b`, each
/// coordinate rounded down.
pub open spec fn lerp_point(a: IntPoint, b: IntPoint, step: int, split_factor: int) -> IntPoint {
    IntPoint {
        x: lerp(a.x as int, b.x as int, step, split_factor) as i64,
        y: lerp(a.y as int, b.y as int, step, split_factor) as i64,
    }
}

/// An interpolated coordinate lies between the two ends, starts at the
/// first and ends at the second.
pub proof fn lemma_lerp_between(a: int, b: int, step: int, split_factor: int)
    requires
        is_parameter(step, split_factor),
    ensures
        a <= b ==> a <= lerp(a, b, step, split_factor) <= b,
        b <= a ==> b <= lerp(a, b, step, split_factor) <= a,
        step == 0 ==> lerp(a, b, step, split_factor) == a,
        step == pow2(split_factor as nat) ==> lerp(a, b, step, split_factor) == b,
{
    let d = pow2(split_factor as nat) as int;
    let t = (b - a) * step;
    lemma_pow2_pos(split_factor as nat);
    lemma_div_mod_parts(t, d);
    let q = t / d;
    if a <= b {
        assert(0 <= q <= b - a) by (nonlinear_arith)
            requires
                t == (b - a) * step,
                t == d * q + t % d,
                0 <= t % d < d,
                0 <= step <= d,
                a <= b,
        {
            assert(0 <= t <= (b - a) * d);
            if q >= b - a + 1 {
                assert(d * q >= d * (b - a + 1));
            }
            if q < 0 {
                assert(d * q <= -d);
            }
        }
    }
    if b <= a {
        assert(b - a <= q <= 0) by (nonlinear_arith)
            requires
                t == (b - a) * step,
                t == d * q + t % d,
                0 <= t % d < d,
                0 <= step <= d,
                b <= a,
        {
            assert((b - a) * d <= t <= 0);
            if q <= b - a - 1 {
                assert(d * q <= d * (b - a - 1));
            }
            if q > 0 {
                assert(d * q >= d);
            }
        }
    }
    if step == 0 {
        assert(t == 0) by (nonlinear_arith)
            requires
                t == (b - a) * step,
                step == 0,
        ;
        lemma_div_mod_unique(t, d, 0, 0);
    }
    if step == d {
        assert(t == d * (b - a)) by (nonlinear_arith)
            requires
                t == (b - a) * step,
                step == d,
        ;
        lemma_div_mod_unique(t, d, b - a, 0);
    }
}

/// Naming the same parameter one level deeper gives the same coordinate.
pub proof fn lemma_lerp_refine(a: int, b: int, step: int, split_factor: int)
    requires
        0 <= split_factor,
    ensures
        lerp(a, b, 2 * step, split_factor + 1) == lerp(a, b, step, split_factor),
{
    let d = pow2(split_factor as nat) as int;
    let t = (b - a) * step;
    lemma_pow2_pos(split_factor as nat);
    lemma_pow2_unfold((split_factor + 1) as nat);
    lemma_div_mod_parts(t, d);
    assert((b - a) * (2 * step) == (2 * d) * (t / d) + 2 * (t % d)) by (nonlinear_arith)
        requires
            t == (b - a) * step,
            t == d * (t / d) + t % d,
    ;
    lemma_div_mod_unique((b - a) * (2 * step), 2 * d, t / d, 2 * (t % d));
}

/// A straight segment from `a` to `b`.
#[derive(Debug, Clone, Copy)]
pub struct IntLine {
    pub a: IntPoint,
    pub b: IntPoint,
}

impl IntLine {
    /// The segment from `a` to `b`.
    pub fn new(a: IntPoint, b: IntPoint) -> (line: Self)
        ensures
            line.a == a,
            line.b == b,
    {
        Self { a, b }
    }

    /// The point at parameter `step / 2^split_factor` of the segment.
    pub fn split_at(&self, step: usize, split_factor: u32) -> (p: IntPoint)
        requires
            is_parameter(step as int, split_factor as int),
        ensures
            p == lerp_point(self.a, self.b, step as int, split_factor as int),
    {
        let x = Self::split_one_dimension_at(self.a.x, self.b.x, step, split_factor);
        let y = Self::split_one_dimension_at(self.a.y, self.b.y, step, split_factor);
        IntPoint::new(x, y)
    }

    /// The coordinate at parameter `step / 2^split_factor` between `a` and
    /// `b`. The difference and its product with `step` are formed in 128 bits,
    /// so no pair of coordinates overflows.
    pub fn split_one_dimension_at(a: i64, b: i64, step: usize, split_factor: u32) -> (c: i64)
        requires
            is_parameter(step as int, split_factor as int),
        ensures
            c == lerp(a as int, b as int, step as int, split_factor as int),
    {
        let ab: i128 = (b as i128) - (a as i128);
        let wide_step: i128 = step as i128;
        proof {
            let d = pow2(split_factor as nat) as int;
            lemma2_to64_rest();
            if split_factor < 63 {
                lemma_pow2_strictly_increases(split_factor as nat, 63);
            }
            assert(-0x8000_0000_0000_0000_0000_0000_0000_0000 < ab * wide_step
                < 0x8000_0000_0000_0000_0000_0000_0000_0000) by (nonlinear_arith)
                requires
                    -0x1_0000_0000_0000_0000 < ab < 0x1_0000_0000_0000_0000,
                    0 <= wide_step <= 0x8000_0000_0000_0000,
            {
                if ab >= 0 {
                    assert(ab * wide_step <= ab * 0x8000_0000_0000_0000);
                } else {
                    assert(ab * wide_step >= ab * 0x8000_0000_0000_0000);
                }
            }
            lemma_i128_shr_is_div((ab * wide_step) as i128, split_factor);
            lemma_lerp_between(a as int, b as int, step as int, split_factor as int);
        }
        let scaled: i128 = (ab * wide_step) >> split_factor;
        ((a as i128) + scaled) as i64
    }
}

} // verus!
