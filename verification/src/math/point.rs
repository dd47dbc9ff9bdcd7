//! Points of the integer grid and the fixed-point direction of a vector.

use vstd::prelude::*;
use vstd::arithmetic::power2::{lemma2_to64, lemma2_to64_rest, lemma_pow2_adds, lemma_pow2_pos, lemma_pow2_strictly_increases, pow2};
use vstd::bits::lemma_u128_shr_is_div;
use crate::math::arith::{abs, floor_sqrt, floor_sqrt_u128, is_floor_sqrt, lemma_div_mod_parts, trunc_div};
use crate::math::offset::IntOffset;

verus! {

/// Length of a normalized direction: one in 10-bit fixed point.
pub const UNIT: i64 = 1024;

/// Squared lengths below this bound are normalized with full precision.
pub const PRECISE_SQR_LEN: u128 = 0x40_0000_0000_0000;

/// How far the squared length of a direction may lie from `UNIT * UNIT`.
pub const UNIT_SQR_ERROR: i64 = 4097;

/// A position, or a vector, on the integer grid.
#[derive(Debug, Clone, Copy, PartialEq, Eq, Structural)]
pub struct IntPoint {
    pub x: i64,
    pub y: i64,
}

impl IntPoint {
    /// The squared Euclidean length.
    pub open spec fn sqr_len(self) -> int {
        self.x * self.x + self.y * self.y
    }

    /// Both coordinates are zero.
    pub open spec fn is_zero(self) -> bool {
        self.x == 0 && self.y == 0
    }

    /// Both coordinates lie within `limit` of zero.
    pub open spec fn within(self, limit: int) -> bool {
        -limit <= self.x <= limit && -limit <= self.y <= limit
    }

    /// The vector scaled to a length of about `UNIT`.
    ///
    /// Short vectors are scaled up before dividing by the length; for long
    /// ones the length is scaled down instead, which keeps every intermediate
    /// value small at the cost of a few low bits.
    pub open spec fn spec_normalized_10bit(self) -> IntPoint {
        let len = floor_sqrt(self.sqr_len());
        if self.sqr_len() < PRECISE_SQR_LEN {
            IntPoint {
                x: trunc_div(self.x * UNIT, len) as i64,
                y: trunc_div(self.y * UNIT, len) as i64,
            }
        } else {
            IntPoint {
                x: trunc_div(self.x as int, len / (UNIT as int)) as i64,
                y: trunc_div(self.y as int, len / (UNIT as int)) as i64,
            }
        }
    }

    /// The sum with a vector fits the coordinates.
    pub open spec fn can_add(self, dx: i64, dy: i64) -> bool {
        &&& i64::MIN <= self.x + dx <= i64::MAX
        &&& i64::MIN <= self.y + dy <= i64::MAX
    }

    /// The difference from a vector fits the coordinates.
    pub open spec fn can_sub(self, dx: i64, dy: i64) -> bool {
        &&& i64::MIN <= self.x - dx <= i64::MAX
        &&& i64::MIN <= self.y - dy <= i64::MAX
    }

    /// The point moved by the vector `(dx, dy)`.
    pub open spec fn plus(self, dx: i64, dy: i64) -> IntPoint {
        IntPoint { x: (self.x + dx) as i64, y: (self.y + dy) as i64 }
    }

    /// The point moved against the vector `(dx, dy)`.
    pub open spec fn minus(self, dx: i64, dy: i64) -> IntPoint {
        IntPoint { x: (self.x - dx) as i64, y: (self.y - dy) as i64 }
    }

    /// The vector from `other` to this point.
    pub open spec fn from_point(self, other: IntPoint) -> IntPoint {
        self.minus(other.x, other.y)
    }

    /// The inner product of two vectors.
    pub open spec fn spec_dot_product(self, other: IntPoint) -> int {
        self.x * other.x + self.y * other.y
    }

    /// The z component of the outer product of two vectors.
    pub open spec fn spec_cross_product(self, other: IntPoint) -> int {
        self.x * other.y - self.y * other.x
    }

    /// The origin.
    pub fn zero() -> (p: Self)
        ensures
            p.x == 0,
            p.y == 0,
    {
        Self { x: 0, y: 0 }
    }

    /// The point with the given coordinates.
    pub fn new(x: i64, y: i64) -> (p: Self)
        ensures
            p.x == x,
            p.y == y,
    {
        Self { x, y }
    }

    /// Scales a nonzero vector to a length of about `UNIT`, so that inner
    /// products of directions can be compared with an integer threshold.
    pub fn normalized_10bit(&self) -> (n: IntPoint)
        requires
            !self.is_zero(),
        ensures
            n == self.spec_normalized_10bit(),
            n.within(UNIT as int),
    {
        let xi: i128 = self.x as i128;
        let yi: i128 = self.y as i128;
        proof {
            lemma_square_bound(xi as int);
            lemma_square_bound(yi as int);
        }
        let dx: u128 = (xi * xi) as u128;
        let dy: u128 = (yi * yi) as u128;
        let sqr: u128 = dx + dy;
        let len: i128 = floor_sqrt_u128(sqr) as i128;
        proof {
            self.lemma_length_dominates();
        }
        if sqr < PRECISE_SQR_LEN {
            proof {
                lemma_trunc_div_bound(xi * 1024, len as int, 1024);
                lemma_trunc_div_bound(yi * 1024, len as int, 1024);
            }
            let x: i128 = (xi * 1024) / len;
            let y: i128 = (yi * 1024) / len;
            IntPoint { x: x as i64, y: y as i64 }
        } else {
            let short_len: i128 = len / 1024;
            proof {
                lemma_trunc_div_bound(xi as int, short_len as int, 1024);
                lemma_trunc_div_bound(yi as int, short_len as int, 1024);
            }
            let x: i128 = xi / short_len;
            let y: i128 = yi / short_len;
            IntPoint { x: x as i64, y: y as i64 }
        }
    }

    /// Whether both coordinates lie within `limit` of zero.
    pub fn is_within(&self, limit: i64) -> (ok: bool)
        requires
            limit >= 0,
        ensures
            ok == self.within(limit as int),
    {
        -limit <= self.x && self.x <= limit && -limit <= self.y && self.y <= limit
    }

    /// Whether the point can be moved by the vector `(dx, dy)`.
    pub fn fits_add(&self, dx: i64, dy: i64) -> (ok: bool)
        ensures
            ok == self.can_add(dx, dy),
    {
        self.x.checked_add(dx).is_some() && self.y.checked_add(dy).is_some()
    }

    /// Whether the point can be moved against the vector `(dx, dy)`.
    pub fn fits_sub(&self, dx: i64, dy: i64) -> (ok: bool)
        ensures
            ok == self.can_sub(dx, dy),
    {
        self.x.checked_sub(dx).is_some() && self.y.checked_sub(dy).is_some()
    }

    /// The point moved by the vector `other`.
    pub fn sum(self, other: IntPoint) -> (p: IntPoint)
        requires
            self.can_add(other.x, other.y),
        ensures
            p == self.plus(other.x, other.y),
    {
        IntPoint { x: self.x + other.x, y: self.y + other.y }
    }

    /// The vector from `other` to this point.
    pub fn diff(self, other: IntPoint) -> (v: IntPoint)
        requires
            self.can_sub(other.x, other.y),
        ensures
            v == self.from_point(other),
    {
        IntPoint { x: self.x - other.x, y: self.y - other.y }
    }

    /// The point moved by `offset`.
    pub fn shifted(self, offset: IntOffset) -> (p: IntPoint)
        requires
            self.can_add(offset.x, offset.y),
        ensures
            p == self.plus(offset.x, offset.y),
    {
        IntPoint { x: self.x + offset.x, y: self.y + offset.y }
    }

    /// The point moved against `offset`.
    pub fn shifted_back(self, offset: IntOffset) -> (p: IntPoint)
        requires
            self.can_sub(offset.x, offset.y),
        ensures
            p == self.minus(offset.x, offset.y),
    {
        IntPoint { x: self.x - offset.x, y: self.y - offset.y }
    }

    /// The Euclidean length, rounded down.
    pub fn floor_length(&self) -> (len: u64)
        ensures
            len == floor_sqrt(self.sqr_len()),
    {
        let xi: i128 = self.x as i128;
        let yi: i128 = self.y as i128;
        proof {
            lemma_square_bound(xi as int);
            lemma_square_bound(yi as int);
        }
        let sqr: u128 = (xi * xi) as u128 + (yi * yi) as u128;
        floor_sqrt_u128(sqr) as u64
    }

    /// The inner product of two vectors.
    pub fn dot_product(&self, other: &Self) -> (d: i64)
        requires
            i64::MIN <= self.spec_dot_product(*other) <= i64::MAX,
        ensures
            d == self.spec_dot_product(*other),
    {
        proof {
            lemma_product_bound(self.x as int, other.x as int);
            lemma_product_bound(self.y as int, other.y as int);
        }
        let a: i128 = (self.x as i128) * (other.x as i128);
        let b: i128 = (self.y as i128) * (other.y as i128);
        (a + b) as i64
    }

    /// The z component of the outer product of two vectors.
    pub fn cross_product(&self, other: &Self) -> (c: i64)
        requires
            i64::MIN <= self.spec_cross_product(*other) <= i64::MAX,
        ensures
            c == self.spec_cross_product(*other),
    {
        proof {
            lemma_product_bound(self.x as int, other.y as int);
            lemma_product_bound(self.y as int, other.x as int);
        }
        let a: i128 = (self.x as i128) * (other.y as i128);
        let b: i128 = (self.y as i128) * (other.x as i128);
        (a - b) as i64
    }

    /// The direction of a vector: its normalization, and the zero vector for
    /// the zero vector, which points nowhere.
    pub open spec fn spec_direction(self) -> IntPoint {
        if self.is_zero() {
            self
        } else {
            self.spec_normalized_10bit()
        }
    }

    /// The vector is shorter than two to the power `power`.
    pub open spec fn spec_is_small(self, power: nat) -> bool {
        self.sqr_len() < pow2(2 * power)
    }

    /// The vector turned by a quarter and halved, each coordinate rounded
    /// toward zero.
    pub open spec fn spec_half_normal(self) -> IntPoint {
        IntPoint { x: trunc_div(-self.y, 2) as i64, y: trunc_div(self.x as int, 2) as i64 }
    }

    /// The direction of a vector: its normalization, and the zero vector for
    /// the zero vector.
    pub fn direction(&self) -> (d: IntPoint)
        ensures
            d == self.spec_direction(),
            d.within(UNIT as int),
    {
        if self.x == 0 && self.y == 0 {
            *self
        } else {
            self.normalized_10bit()
        }
    }

    /// Whether the vector is shorter than two to the power `power`.
    pub fn is_small(&self, power: u32) -> (small: bool)
        ensures
            small == self.spec_is_small(power as nat),
    {
        let xi: i128 = self.x as i128;
        let yi: i128 = self.y as i128;
        proof {
            lemma_square_bound(xi as int);
            lemma_square_bound(yi as int);
            lemma_pow2_values();
        }
        let sqr: u128 = (xi * xi) as u128 + (yi * yi) as u128;
        if power >= 64 {
            proof {
                lemma_pow2_strictly_increases(127, 2 * (power as nat));
            }
            true
        } else {
            let shift: u128 = (2 * power) as u128;
            proof {
                lemma_u128_shr_is_div(sqr, shift);
                lemma_pow2_pos(shift as nat);
                lemma_div_mod_parts(sqr as int, pow2(shift as nat) as int);
                let d = pow2(shift as nat) as int;
                let q = (sqr as int) / d;
                assert(q == 0 <==> sqr < d) by (nonlinear_arith)
                    requires
                        sqr == d * q + (sqr as int) % d,
                        0 <= (sqr as int) % d < d,
                        sqr >= 0,
                {
                    if q >= 1 {
                        assert(d * q >= d);
                    }
                    if q <= -1 {
                        assert(d * q <= -d);
                    }
                }
            }
            (sqr >> shift) == 0
        }
    }

    /// The vector turned by a quarter and halved.
    pub fn half_normal(&self) -> (n: IntPoint)
        requires
            self.y != i64::MIN,
        ensures
            n == self.spec_half_normal(),
    {
        let x: i64 = (-self.y) / 2;
        let y: i64 = self.x / 2;
        IntPoint::new(x, y)
    }

    /// The rounded-down length of a nonzero vector is positive, is at least
    /// the magnitude of either coordinate, and is large once the squared length
    /// leaves the precise range.
    pub proof fn lemma_length_dominates(self)
        requires
            !self.is_zero(),
        ensures
            is_floor_sqrt(self.sqr_len(), floor_sqrt(self.sqr_len())),
            floor_sqrt(self.sqr_len()) >= 1,
            abs(self.x as int) <= floor_sqrt(self.sqr_len()),
            abs(self.y as int) <= floor_sqrt(self.sqr_len()),
            self.sqr_len() >= PRECISE_SQR_LEN ==> floor_sqrt(self.sqr_len()) >= 0x800_0000,
            self.sqr_len() >= 0x4_0000 ==> floor_sqrt(self.sqr_len()) >= 512,
    {
        let s = self.sqr_len();
        let x = self.x as int;
        let y = self.y as int;
        assert(s >= 1 && s >= x * x && s >= y * y && x * x >= 0 && y * y >= 0) by (nonlinear_arith)
            requires
                s == x * x + y * y,
                x != 0 || y != 0,
        ;
        lemma_floor_sqrt_exists(s);
        let r = floor_sqrt(s);
        assert(r >= 1 && abs(x) <= r && abs(y) <= r && (s >= 0x40_0000_0000_0000 ==> r
            >= 0x800_0000) && (s >= 0x4_0000 ==> r >= 512)) by (nonlinear_arith)
            requires
                0 <= r,
                r * r <= s,
                s < (r + 1) * (r + 1),
                s >= 1,
                s >= x * x,
                s >= y * y,
        {
            if x >= r + 1 {
                assert(x * x >= (r + 1) * (r + 1));
            }
            if -x >= r + 1 {
                assert(x * x >= (r + 1) * (r + 1));
            }
            if y >= r + 1 {
                assert(y * y >= (r + 1) * (r + 1));
            }
            if -y >= r + 1 {
                assert(y * y >= (r + 1) * (r + 1));
            }
            if r + 1 <= 0x800_0000 {
                assert((r + 1) * (r + 1) <= 0x800_0000 * 0x800_0000);
            }
            if r + 1 <= 512 {
                assert((r + 1) * (r + 1) <= 512 * 512);
            }
        }
    }
}

/// A normalized direction is a unit vector up to rounding: each coordinate
/// lies within `UNIT` of zero, and its squared length falls short of
/// `UNIT * UNIT` by at most `UNIT_SQR_ERROR`. It exceeds `UNIT * UNIT` by at
/// most `2 * UNIT * UNIT` divided by the length of the vector in the precise
/// range, and by at most 17 beyond it; so for a vector at least 512 long the
/// excess is within `UNIT_SQR_ERROR` too. (Short vectors do overshoot: the
/// direction of `(1, 1)` is `(1024, 1024)`.)
pub proof fn lemma_normalized_is_unit(v: IntPoint)
    requires
        !v.is_zero(),
    ensures
        v.spec_normalized_10bit().within(UNIT as int),
        UNIT * UNIT - v.spec_normalized_10bit().sqr_len() <= UNIT_SQR_ERROR,
        v.sqr_len() < PRECISE_SQR_LEN ==> (v.spec_normalized_10bit().sqr_len() - UNIT * UNIT)
            * floor_sqrt(v.sqr_len()) <= 2 * UNIT * UNIT,
        v.sqr_len() >= PRECISE_SQR_LEN ==> v.spec_normalized_10bit().sqr_len() - UNIT * UNIT <= 17,
        v.sqr_len() >= 0x4_0000 ==> v.spec_normalized_10bit().sqr_len() - UNIT * UNIT
            <= UNIT_SQR_ERROR,
{
    let n = v.spec_normalized_10bit();
    let s = v.sqr_len();
    let len = floor_sqrt(s);
    let ax = abs(v.x as int);
    let ay = abs(v.y as int);
    v.lemma_length_dominates();
    assert(s == ax * ax + ay * ay) by (nonlinear_arith)
        requires
            s == v.x * v.x + v.y * v.y,
            ax == abs(v.x as int),
            ay == abs(v.y as int),
    ;
    if s < PRECISE_SQR_LEN {
        let qx = (ax * 1024) / len;
        let qy = (ay * 1024) / len;
        lemma_trunc_div_bound(v.x * 1024, len, 1024);
        lemma_trunc_div_bound(v.y * 1024, len, 1024);
        assert(abs(n.x as int) == qx && abs(n.y as int) == qy);
        lemma_quotient_bracket(ax * 1024, len);
        lemma_quotient_bracket(ay * 1024, len);
        assert((ax * 1024) * (ax * 1024) + (ay * 1024) * (ay * 1024) == 1024 * 1024 * s)
            by (nonlinear_arith)
            requires
                s == ax * ax + ay * ay,
        ;
        assert(1024 * 1024 * s >= (1024 * 1024) * (len * len)) by (nonlinear_arith)
            requires
                s >= len * len,
        ;
        lemma_unit_lower(len, ax * 1024, ay * 1024, qx, qy);
        lemma_unit_scaled(len, ax * 1024, ay * 1024, qx, qy);
        let q = qx * qx + qy * qy;
        assert((q - 1024 * 1024) * len <= 2 * 1024 * 1024) by (nonlinear_arith)
            requires
                (len * len) * q <= 1024 * 1024 * s,
                s < (len + 1) * (len + 1),
                len >= 1,
        {
            assert(s <= len * len + 2 * len);
            assert(len * (len * (q - 1024 * 1024)) <= len * (2 * 1024 * 1024));
            if len * (q - 1024 * 1024) >= 2 * 1024 * 1024 + 1 {
                assert(len * (len * (q - 1024 * 1024)) >= len * (2 * 1024 * 1024 + 1));
            }
        }
        if s >= 0x4_0000 {
            assert(q - 1024 * 1024 <= 4096) by (nonlinear_arith)
                requires
                    (q - 1024 * 1024) * len <= 2 * 1024 * 1024,
                    len >= 512,
            {
                if q - 1024 * 1024 >= 4097 {
                    assert((q - 1024 * 1024) * len >= 4097 * 512);
                }
            }
        }
        lemma_abs_square(n.x as int, qx);
        lemma_abs_square(n.y as int, qy);
    } else {
        let d = len / 1024;
        let qx = ax / d;
        let qy = ay / d;
        assert(d >= 0x2_0000 && 1024 * d <= len && len <= 1024 * d + 1023);
        lemma_trunc_div_bound(v.x as int, d, 1024);
        lemma_trunc_div_bound(v.y as int, d, 1024);
        assert(abs(n.x as int) == qx && abs(n.y as int) == qy);
        lemma_quotient_bracket(ax, d);
        lemma_quotient_bracket(ay, d);
        assert(s >= (1024 * 1024) * (d * d)) by (nonlinear_arith)
            requires
                s >= len * len,
                len >= 1024 * d,
                d >= 0,
        {
            assert(len * len >= (1024 * d) * (1024 * d));
        }
        lemma_unit_lower(d, ax, ay, qx, qy);
        assert(s <= d * d * (1024 * 1024 + 17)) by (nonlinear_arith)
            requires
                s < (len + 1) * (len + 1),
                0 <= len <= 1024 * d + 1023,
                d >= 0x2_0000,
        {
            assert((len + 1) * (len + 1) <= (1024 * d + 1024) * (1024 * d + 1024));
            assert(2 * 1024 * 1024 * d + 1024 * 1024 <= 17 * (d * d));
        }
        lemma_unit_upper(d, ax, ay, qx, qy, 1024 * 1024 + 17int);
        lemma_abs_square(n.x as int, qx);
        lemma_abs_square(n.y as int, qy);
    }
}

/// A quotient and its successor bracket the dividend.
proof fn lemma_quotient_bracket(a: int, d: int)
    requires
        a >= 0,
        d > 0,
    ensures
        0 <= a / d,
        d * (a / d) <= a < d * (a / d + 1),
{
    assert(0 <= a / d && d * (a / d) <= a < d * (a / d + 1)) by (nonlinear_arith)
        requires
            a >= 0,
            d > 0,
    {
        assert(a == d * (a / d) + a % d);
    }
}

/// A number and its magnitude have the same square.
proof fn lemma_abs_square(a: int, m: int)
    requires
        abs(a) == m,
    ensures
        a * a == m * m,
{
    assert(a * a == m * m) by (nonlinear_arith)
        requires
            a == m || a == -m,
    ;
}

/// If two dividends together reach `1024 * d` in length, the successors of
/// their quotients by `d` together exceed 1024.
proof fn lemma_unit_lower(d: int, ax: int, ay: int, qx: int, qy: int)
    requires
        d > 0,
        0 <= qx <= 1024,
        0 <= qy <= 1024,
        0 <= ax < d * (qx + 1),
        0 <= ay < d * (qy + 1),
        ax * ax + ay * ay >= (1024 * 1024) * (d * d),
    ensures
        1024 * 1024 - (qx * qx + qy * qy) <= 4097,
{
    let bx = d * (qx + 1);
    let by = d * (qy + 1);
    assert(ax * ax < bx * bx) by (nonlinear_arith)
        requires
            0 <= ax < bx,
    ;
    assert(ay * ay < by * by) by (nonlinear_arith)
        requires
            0 <= ay < by,
    ;
    let t = (qx + 1) * (qx + 1) + (qy + 1) * (qy + 1);
    assert(bx * bx + by * by == (d * d) * t) by (nonlinear_arith)
        requires
            bx == d * (qx + 1),
            by == d * (qy + 1),
            t == (qx + 1) * (qx + 1) + (qy + 1) * (qy + 1),
    ;
    assert(t > 1024 * 1024) by (nonlinear_arith)
        requires
            (1024 * 1024) * (d * d) < (d * d) * t,
            d > 0,
    {
        if t <= 1024 * 1024 {
            assert((d * d) * t <= (d * d) * (1024 * 1024));
        }
    }
    assert(t == qx * qx + qy * qy + 2 * qx + 2 * qy + 2) by (nonlinear_arith)
        requires
            t == (qx + 1) * (qx + 1) + (qy + 1) * (qy + 1),
    ;
}

/// The quotients of two dividends by `d`, scaled back by `d`, are together
/// no longer than the dividends.
proof fn lemma_unit_scaled(d: int, ax: int, ay: int, qx: int, qy: int)
    requires
        d > 0,
        0 <= qx,
        0 <= qy,
        d * qx <= ax,
        d * qy <= ay,
    ensures
        (d * d) * (qx * qx + qy * qy) <= ax * ax + ay * ay,
{
    let bx = d * qx;
    let by = d * qy;
    assert(bx * bx <= ax * ax) by (nonlinear_arith)
        requires
            0 <= bx <= ax,
    ;
    assert(by * by <= ay * ay) by (nonlinear_arith)
        requires
            0 <= by <= ay,
    ;
    let t = qx * qx + qy * qy;
    assert(bx * bx + by * by == (d * d) * t) by (nonlinear_arith)
        requires
            bx == d * qx,
            by == d * qy,
            t == qx * qx + qy * qy,
    ;
}

/// If two dividends together stay within `bound * d * d` in squared length,
/// their quotients by `d` together stay within `bound`.
proof fn lemma_unit_upper(d: int, ax: int, ay: int, qx: int, qy: int, bound: int)
    requires
        d > 0,
        0 <= qx,
        0 <= qy,
        d * qx <= ax,
        d * qy <= ay,
        ax * ax + ay * ay <= (d * d) * bound,
    ensures
        qx * qx + qy * qy <= bound,
{
    lemma_unit_scaled(d, ax, ay, qx, qy);
    let t = qx * qx + qy * qy;
    assert(t <= bound) by (nonlinear_arith)
        requires
            (d * d) * t <= (d * d) * bound,
            d > 0,
    {
        if t >= bound + 1 {
            assert((d * d) * t >= (d * d) * (bound + 1));
            assert((d * d) * (bound + 1) == (d * d) * bound + d * d);
            assert(d * d > 0);
        }
    }
}

/// The direction of any vector has coordinates within `UNIT` of zero.
pub proof fn lemma_direction_is_bounded(v: IntPoint)
    ensures
        v.spec_direction().within(UNIT as int),
{
    if !v.is_zero() {
        lemma_normalized_is_unit(v);
    }
}

/// Every natural number has a rounded-down square root.
pub proof fn lemma_floor_sqrt_exists(n: int)
    requires
        n >= 0,
    ensures
        is_floor_sqrt(n, floor_sqrt(n)),
    decreases n,
{
    if n == 0 {
        assert(is_floor_sqrt(0, 0));
    } else {
        lemma_floor_sqrt_exists(n - 1);
        let r = floor_sqrt(n - 1);
        if n < (r + 1) * (r + 1) {
            assert(is_floor_sqrt(n, r));
        } else {
            assert(is_floor_sqrt(n, r + 1)) by (nonlinear_arith)
                requires
                    0 <= r,
                    r * r <= n - 1,
                    n - 1 < (r + 1) * (r + 1),
                    n >= (r + 1) * (r + 1),
            ;
        }
    }
}

/// Two to the power 127, the least power of two that no sum of two squares
/// of 64-bit values reaches.
proof fn lemma_pow2_values()
    ensures
        pow2(127) == 0x8000_0000_0000_0000_0000_0000_0000_0000,
{
    lemma2_to64();
    lemma2_to64_rest();
    lemma_pow2_adds(63, 64);
}

/// The square of a 64-bit value fits in 127 bits.
pub proof fn lemma_square_bound(a: int)
    requires
        i64::MIN <= a <= i64::MAX,
    ensures
        0 <= a * a <= 0x4000_0000_0000_0000_0000_0000_0000_0000,
{
    lemma_product_bound(a, a);
    assert(a * a >= 0) by (nonlinear_arith);
}

/// The product of two 64-bit values fits in 127 bits.
pub proof fn lemma_product_bound(a: int, b: int)
    requires
        i64::MIN <= a <= i64::MAX,
        i64::MIN <= b <= i64::MAX,
    ensures
        -0x4000_0000_0000_0000_0000_0000_0000_0000 <= a * b
            <= 0x4000_0000_0000_0000_0000_0000_0000_0000,
{
    assert(-0x4000_0000_0000_0000_0000_0000_0000_0000 <= a * b
        <= 0x4000_0000_0000_0000_0000_0000_0000_0000) by (nonlinear_arith)
        requires
            -0x8000_0000_0000_0000 <= a <= 0x8000_0000_0000_0000,
            -0x8000_0000_0000_0000 <= b <= 0x8000_0000_0000_0000,
    {
        let m = 0x8000_0000_0000_0000int;
        assert((m - a) * (m - b) >= 0);
        assert((m + a) * (m + b) >= 0);
        assert((m - a) * (m + b) >= 0);
        assert((m + a) * (m - b) >= 0);
    }
}

/// A quotient rounded toward zero is bounded by `c` when the dividend stays
/// below `(c + 1) * b` in magnitude.
pub proof fn lemma_trunc_div_bound(a: int, b: int, c: int)
    requires
        b > 0,
        c >= 0,
        abs(a) < (c + 1) * b,
    ensures
        abs(trunc_div(a, b)) <= c,
        abs(trunc_div(a, b)) == abs(a) / b,
{
    let m = abs(a);
    let q = m / b;
    assert(0 <= q <= c && q * b <= m) by (nonlinear_arith)
        requires
            b > 0,
            c >= 0,
            0 <= m < (c + 1) * b,
            q == m / b,
    {
        assert(m == b * (m / b) + m % b);
        if q >= c + 1 {
            assert(q * b >= (c + 1) * b);
        }
    }
}

impl core::ops::Add for IntPoint {
    type Output = IntPoint;

    fn add(self, other: IntPoint) -> (sum: IntPoint) {
        IntPoint { x: self.x + other.x, y: self.y + other.y }
    }
}

impl vstd::std_specs::ops::AddSpecImpl for IntPoint {
    open spec fn obeys_add_spec() -> bool {
        true
    }

    open spec fn add_req(self, other: IntPoint) -> bool {
        self.can_add(other.x, other.y)
    }

    open spec fn add_spec(self, other: IntPoint) -> IntPoint {
        self.plus(other.x, other.y)
    }
}

impl core::ops::Sub for IntPoint {
    type Output = IntPoint;

    fn sub(self, other: IntPoint) -> (diff: IntPoint) {
        IntPoint { x: self.x - other.x, y: self.y - other.y }
    }
}

impl vstd::std_specs::ops::SubSpecImpl for IntPoint {
    open spec fn obeys_sub_spec() -> bool {
        true
    }

    open spec fn sub_req(self, other: IntPoint) -> bool {
        self.can_sub(other.x, other.y)
    }

    open spec fn sub_spec(self, other: IntPoint) -> IntPoint {
        self.minus(other.x, other.y)
    }
}

impl core::ops::Add<IntOffset> for IntPoint {
    type Output = IntPoint;

    fn add(self, other: IntOffset) -> (sum: IntPoint) {
        IntPoint { x: self.x + other.x, y: self.y + other.y }
    }
}

impl vstd::std_specs::ops::AddSpecImpl<IntOffset> for IntPoint {
    open spec fn obeys_add_spec() -> bool {
        true
    }

    open spec fn add_req(self, other: IntOffset) -> bool {
        self.can_add(other.x, other.y)
    }

    open spec fn add_spec(self, other: IntOffset) -> IntPoint {
        self.plus(other.x, other.y)
    }
}

impl core::ops::Sub<IntOffset> for IntPoint {
    type Output = IntPoint;

    fn sub(self, other: IntOffset) -> (diff: IntPoint) {
        IntPoint { x: self.x - other.x, y: self.y - other.y }
    }
}

impl vstd::std_specs::ops::SubSpecImpl<IntOffset> for IntPoint {
    open spec fn obeys_sub_spec() -> bool {
        true
    }

    open spec fn sub_req(self, other: IntOffset) -> bool {
        self.can_sub(other.x, other.y)
    }

    open spec fn sub_spec(self, other: IntOffset) -> IntPoint {
        self.minus(other.x, other.y)
    }
}

impl From<IntOffset> for IntPoint {
    fn from(value: IntOffset) -> (p: IntPoint) {
        IntPoint { x: value.x, y: value.y }
    }
}

impl vstd::std_specs::convert::FromSpecImpl<IntOffset> for IntPoint {
    open spec fn obeys_from_spec() -> bool {
        true
    }

    open spec fn from_spec(value: IntOffset) -> IntPoint {
        IntPoint { x: value.x, y: value.y }
    }
}

} // verus!
