//! Integer helpers shared by the geometry code: truncating division, square
//! roots and the meaning of shifts on signed integers.

use vstd::prelude::*;
use vstd::arithmetic::div_mod::lemma_fundamental_div_mod_converse;
use vstd::arithmetic::power2::{lemma2_to64, lemma_pow2_pos, lemma_pow2_unfold, pow2};

verus! {

/// Division with the quotient rounded toward zero, for a positive divisor.
pub open spec fn trunc_div(a: int, b: int) -> int {
    if a >= 0 {
        a / b
    } else {
        -((-a) / b)
    }
}

/// Absolute value of a mathematical integer.
pub open spec fn abs(a: int) -> int {
    if a >= 0 {
        a
    } else {
        -a
    }
}

/// `r` is the square root of `n` rounded down.
pub open spec fn is_floor_sqrt(n: int, r: int) -> bool {
    0 <= r && r * r <= n && n < (r + 1) * (r + 1)
}

/// The square root of `n` rounded down.
pub open spec fn floor_sqrt(n: int) -> int {
    choose|r: int| is_floor_sqrt(n, r)
}

/// A number has at most one rounded-down square root, so any witness is
/// `floor_sqrt`.
pub proof fn lemma_floor_sqrt_unique(n: int, r: int)
    requires
        is_floor_sqrt(n, r),
    ensures
        floor_sqrt(n) == r,
{
    let c = floor_sqrt(n);
    assert(is_floor_sqrt(n, c));
    assert(c == r) by (nonlinear_arith)
        requires
            0 <= r,
            0 <= c,
            r * r <= n,
            n < (r + 1) * (r + 1),
            c * c <= n,
            n < (c + 1) * (c + 1),
    {
        if c < r {
            assert((c + 1) * (c + 1) <= r * r);
        }
        if r < c {
            assert((r + 1) * (r + 1) <= c * c);
        }
    }
}

/// Calls `u128::isqrt` of the standard library, which returns the square root
/// of its argument rounded down: the largest `r` with `r * r <= n`.
#[verifier::external_body]
pub(crate) fn isqrt_u128(n: u128) -> (r: u128)
    ensures
        is_floor_sqrt(n as int, r as int),
{
    n.isqrt()
}

/// The square root of `n` rounded down, as an executable value.
pub fn floor_sqrt_u128(n: u128) -> (r: u128)
    ensures
        r == floor_sqrt(n as int),
        r < 0x1_0000_0000_0000_0000,
{
    let r = isqrt_u128(n);
    proof {
        lemma_floor_sqrt_unique(n as int, r as int);
        assert(r < 0x1_0000_0000_0000_0000) by (nonlinear_arith)
            requires
                r * r <= n,
                n <= u128::MAX,
        {
            if r >= 0x1_0000_0000_0000_0000 {
                assert(r * r >= 0x1_0000_0000_0000_0000 * 0x1_0000_0000_0000_0000);
            }
        }
    }
    r
}

/// Dividing twice, the second time by two, is dividing by the doubled
/// divisor, for negative dividends too.
pub proof fn lemma_div_by_double(x: int, c: int)
    requires
        c > 0,
    ensures
        (x / c) / 2 == x / (2 * c),
{
    let q = x / c;
    let r = x % c;
    let q2 = q / 2;
    let r2 = q % 2;
    assert(x == c * q + r && 0 <= r < c) by (nonlinear_arith)
        requires
            c > 0,
            q == x / c,
            r == x % c,
    ;
    assert(x == q2 * (2 * c) + (c * r2 + r) && 0 <= c * r2 + r < 2 * c) by (nonlinear_arith)
        requires
            x == c * q + r,
            0 <= r < c,
            q == 2 * q2 + r2,
            0 <= r2 < 2,
    ;
    lemma_fundamental_div_mod_converse(x, 2 * c, q2, c * r2 + r);
}

/// Shifting a signed 128-bit value right divides it by a power of two,
/// rounding down.
pub proof fn lemma_i128_shr_is_div(v: i128, k: u32)
    requires
        k < 128,
    ensures
        (v >> k) == (v as int) / (pow2(k as nat) as int),
    decreases k,
{
    lemma2_to64();
    if k == 0 {
        assert(v >> 0u32 == v) by (bit_vector);
    } else {
        let j: u32 = (k - 1) as u32;
        let w: i128 = v >> j;
        lemma_i128_shr_is_div(v, j);
        assert(v >> k == (v >> j) >> 1u32) by (bit_vector)
            requires
                j + 1 == k,
                k < 128,
        ;
        assert(w == 2 * (w >> 1u32) + (w & 1) && (w & 1 == 0 || w & 1 == 1)) by (bit_vector);
        lemma_pow2_pos(j as nat);
        lemma_pow2_unfold(k as nat);
        lemma_div_by_double(v as int, pow2(j as nat) as int);
    }
}

/// Shifting a signed 64-bit value right divides it by a power of two,
/// rounding down.
pub proof fn lemma_i64_shr_is_div(v: i64, k: u32)
    requires
        k < 64,
    ensures
        (v >> k) == (v as int) / (pow2(k as nat) as int),
    decreases k,
{
    lemma2_to64();
    if k == 0 {
        assert(v >> 0u32 == v) by (bit_vector);
    } else {
        let j: u32 = (k - 1) as u32;
        let w: i64 = v >> j;
        lemma_i64_shr_is_div(v, j);
        assert(v >> k == (v >> j) >> 1u32) by (bit_vector)
            requires
                j + 1 == k,
                k < 64,
        ;
        assert(w == 2 * (w >> 1u32) + (w & 1) && (w & 1 == 0 || w & 1 == 1)) by (bit_vector);
        lemma_pow2_pos(j as nat);
        lemma_pow2_unfold(k as nat);
        lemma_div_by_double(v as int, pow2(j as nat) as int);
    }
}

/// Shifting a signed 64-bit value left multiplies it by a power of two, as
/// long as the product fits.
pub proof fn lemma_i64_shl_is_mul(v: i64, k: u32)
    requires
        k < 64,
        i64::MIN <= v * pow2(k as nat) <= i64::MAX,
    ensures
        (v << k) == v * pow2(k as nat),
    decreases k,
{
    lemma2_to64();
    if k == 0 {
        assert(v << 0u32 == v) by (bit_vector);
        assert(v * 1 == v);
    } else {
        let j: u32 = (k - 1) as u32;
        lemma_pow2_pos(j as nat);
        lemma_pow2_unfold(k as nat);
        let h = pow2(j as nat) as int;
        assert(v * (2 * h) == 2 * (v * h)) by (nonlinear_arith);
        lemma_i64_shl_is_mul(v, j);
        let w: i64 = v << j;
        assert(w == v * h);
        assert(v << k == (v << j) << 1u32) by (bit_vector)
            requires
                j + 1 == k,
                k < 64,
        ;
        assert(w << 1u32 == 2 * w) by (bit_vector)
            requires
                -0x4000_0000_0000_0000 <= w < 0x4000_0000_0000_0000,
        ;
    }
}

/// The lowest bit of a signed 64-bit value is its remainder modulo two.
pub proof fn lemma_i64_low_bit(v: i64)
    ensures
        (v & 1) == (v as int) % 2,
{
    assert(v == 2 * (v >> 1u32) + (v & 1) && (v & 1 == 0 || v & 1 == 1)) by (bit_vector);
}

/// Quotient and remainder are the only pair that rebuilds the dividend with
/// a remainder below the divisor.
pub proof fn lemma_div_mod_unique(x: int, d: int, q: int, r: int)
    requires
        d > 0,
        0 <= r < d,
        x == d * q + r,
    ensures
        x / d == q,
        x % d == r,
{
    assert(d * q == q * d) by (nonlinear_arith);
    lemma_fundamental_div_mod_converse(x, d, q, r);
}

/// Quotient and remainder rebuild the dividend, and the remainder lies below
/// the divisor.
pub proof fn lemma_div_mod_parts(x: int, d: int)
    requires
        d > 0,
    ensures
        x == d * (x / d) + x % d,
        0 <= x % d < d,
{
    assert(x == d * (x / d) + x % d && 0 <= x % d < d) by (nonlinear_arith)
        requires
            d > 0,
    ;
}

/// Adding half the divisor before dividing rounds the quotient to the
/// nearest integer: it adds the lowest bit of the quotient by the half.
pub proof fn lemma_round_half_up(a: int, half: int)
    requires
        half > 0,
    ensures
        (a + half) / (2 * half) == a / (2 * half) + (a / half) % 2,
{
    let cell = 2 * half;
    let c = a / cell;
    let r = a % cell;
    lemma_div_mod_parts(a, cell);
    if r < half {
        assert(a == half * (2 * c) + r) by (nonlinear_arith)
            requires
                a == (2 * half) * c + r,
        ;
        lemma_div_mod_unique(a, half, 2 * c, r);
        lemma_div_mod_unique(a + half, cell, c, r + half);
    } else {
        assert(a == half * (2 * c + 1) + (r - half)) by (nonlinear_arith)
            requires
                a == (2 * half) * c + r,
        ;
        lemma_div_mod_unique(a, half, 2 * c + 1, r - half);
        assert(a + half == (2 * half) * (c + 1) + (r - half)) by (nonlinear_arith)
            requires
                a == (2 * half) * c + r,
        ;
        lemma_div_mod_unique(a + half, cell, c + 1, r - half);
    }
}

/// The binary logarithm of `v`, rounded down, and zero for zero.
pub open spec fn floor_log2(v: nat) -> nat
    decreases v,
{
    if v < 2 {
        0
    } else {
        1 + floor_log2(v / 2)
    }
}

/// The binary logarithm of a positive number, rounded down.
pub fn ilog2(v: u64) -> (log: u32)
    requires
        v >= 1,
    ensures
        log == floor_log2(v as nat),
        pow2(log as nat) <= v,
        log <= 63,
{
    let mut rest: u64 = v;
    let mut log: u32 = 0;
    proof {
        lemma2_to64();
    }
    while rest >= 2
        invariant
            rest >= 1,
            log + floor_log2(rest as nat) == floor_log2(v as nat),
            rest * pow2(log as nat) <= v,
            log <= 63,
        decreases rest,
    {
        proof {
            lemma2_to64();
            lemma_pow2_unfold((log + 1) as nat);
            lemma_pow2_pos(log as nat);
            assert((rest / 2) * (2 * pow2(log as nat)) <= rest * pow2(log as nat)) by (nonlinear_arith)
                requires
                    rest >= 0,
                    pow2(log as nat) > 0,
            ;
            if log == 63 {
                assert((rest / 2) * pow2(64) >= pow2(64)) by (nonlinear_arith)
                    requires
                        rest / 2 >= 1,
                ;
            }
        }
        rest = rest / 2;
        log = log + 1;
    }
    proof {
        assert(rest * pow2(log as nat) == pow2(log as nat)) by (nonlinear_arith)
            requires
                rest == 1,
        ;
    }
    log
}

} // verus!
