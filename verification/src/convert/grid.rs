//! The fixed-point grid: how many fractional bits a coordinate keeps, and the
//! cell to which every coordinate is snapped.

use vstd::prelude::*;
use vstd::arithmetic::power2::{lemma2_to64, lemma_pow2_pos, lemma_pow2_strictly_increases, lemma_pow2_unfold, pow2};
use crate::math::arith::{lemma_div_mod_parts, lemma_div_mod_unique, lemma_i64_low_bit, lemma_i64_shl_is_mul, lemma_i64_shr_is_div, lemma_round_half_up};

verus! {

/// Cells are at most this many bits wide.
pub const MAX_SIZE_POWER: u32 = 30;

/// An immutable quantization scheme.
///
/// A real coordinate is scaled by two to the power `exponent` and then
/// snapped to a multiple of the cell size, two to the power `size_power`.
#[derive(Debug, Clone, Copy)]
pub struct Grid {
    size_power: u32,
    exponent: i32,
    remainder_mask: i64,
}

impl Grid {
    #[verifier::type_invariant]
    spec fn inv(self) -> bool {
        &&& self.size_power <= MAX_SIZE_POWER
        &&& self.remainder_mask == pow2(self.size_power as nat) - 1
    }

    /// The number of bits of a cell.
    pub closed spec fn spec_size_power(self) -> nat {
        self.size_power as nat
    }

    /// The binary exponent of the scale from real to integer coordinates.
    pub closed spec fn spec_exponent(self) -> int {
        self.exponent as int
    }

    /// The cell size.
    pub open spec fn cell(self) -> int {
        pow2(self.spec_size_power()) as int
    }

    /// Half the cell size, rounded down.
    pub open spec fn half_cell(self) -> int {
        self.cell() / 2
    }

    /// `a` is a multiple of the cell size.
    pub open spec fn is_aligned(self, a: int) -> bool {
        a % self.cell() == 0
    }

    /// The multiple of the cell size nearest to `a`; of two equally near, the
    /// greater.
    pub open spec fn snap(self, a: int) -> int {
        ((a + self.half_cell()) / self.cell()) * self.cell()
    }

    /// A grid that keeps `scale_power` fractional bits of a cell index and
    /// snaps to cells of `size_power` bits.
    pub fn new(scale_power: i32, size_power: u32) -> (grid: Self)
        requires
            size_power <= MAX_SIZE_POWER,
            i32::MIN <= scale_power + size_power <= i32::MAX,
        ensures
            grid.spec_size_power() == size_power,
            grid.spec_exponent() == scale_power + size_power,
    {
        proof {
            lemma_cell_bounds(size_power as nat);
            lemma_i64_shl_is_mul(1, size_power);
        }
        let exponent: i32 = scale_power + (size_power as i32);
        let remainder_mask: i64 = (1i64 << size_power) - 1;
        Self { size_power, exponent, remainder_mask }
    }

    /// A coarse grid for experiments: ten fractional bits, cells of eight.
    pub fn debug() -> (grid: Self)
        ensures
            grid.spec_size_power() == 3,
            grid.spec_exponent() == 13,
    {
        Self::new(10, 3)
    }

    /// The number of bits of a cell.
    pub fn size_power(&self) -> (p: u32)
        ensures
            p == self.spec_size_power(),
            p <= MAX_SIZE_POWER,
    {
        proof {
            use_type_invariant(self);
        }
        self.size_power
    }

    /// The binary exponent of the scale from real to integer coordinates.
    pub fn exponent(&self) -> (e: i32)
        ensures
            e == self.spec_exponent(),
    {
        self.exponent
    }

    /// The bits of a coordinate below the cell size.
    pub fn remainder_mask(&self) -> (mask: i64)
        ensures
            mask == self.cell() - 1,
    {
        proof {
            use_type_invariant(self);
        }
        self.remainder_mask
    }

    /// Rounds `a` to the nearest multiple of the cell size, halves upward.
    pub fn snap_to_grid_value(&self, a: i64) -> (snapped: i64)
        requires
            i64::MIN <= self.snap(a as int) <= i64::MAX,
        ensures
            snapped == self.snap(a as int),
    {
        let p: u32 = self.size_power;
        proof {
            use_type_invariant(self);
            lemma_cell_bounds(p as nat);
        }
        let ghost cell = self.cell();
        let round: i64 = if p == 0 {
            0
        } else {
            (a >> (p - 1)) & 1
        };
        let index: i64 = a >> p;
        proof {
            lemma2_to64();
            lemma_i64_shr_is_div(a, p);
            if p > 0 {
                let half = pow2((p - 1) as nat) as int;
                lemma_pow2_unfold(p as nat);
                lemma_pow2_pos((p - 1) as nat);
                assert(cell == 2 * half);
                assert(self.half_cell() == half);
                lemma_i64_shr_is_div(a, (p - 1) as u32);
                lemma_i64_low_bit(a >> ((p - 1) as u32));
                lemma_round_half_up(a as int, half);
                lemma_div_mod_parts(a as int, cell);
                assert(-0x4000_0000_0000_0000 <= index <= 0x4000_0000_0000_0000) by (nonlinear_arith)
                    requires
                        a == cell * index + (a as int) % cell,
                        0 <= (a as int) % cell < cell,
                        cell >= 2,
                        i64::MIN <= a <= i64::MAX,
                ;
            } else {
                assert(cell == 1);
                assert(self.half_cell() == 0);
            }
            assert(index + round == (a + self.half_cell()) / cell);
            lemma_i64_shl_is_mul((index + round) as i64, p);
        }
        (index + round) << p
    }

    /// Snapping yields a multiple of the cell size that lies within half a
    /// cell of the argument, and the greater one where two are equally near.
    pub proof fn lemma_snap_is_nearest(self, a: int)
        ensures
            self.is_aligned(self.snap(a)),
            a + self.half_cell() - self.cell() < self.snap(a) <= a + self.half_cell(),
            2 * self.half_cell() <= self.cell(),
    {
        let cell = self.cell();
        lemma_pow2_pos(self.spec_size_power());
        let q = (a + self.half_cell()) / cell;
        lemma_div_mod_parts(a + self.half_cell(), cell);
        assert(q * cell == cell * q) by (nonlinear_arith);
        lemma_div_mod_unique(q * cell, cell, q, 0);
    }

    /// A value that is already aligned to the grid is its own snap, so that
    /// converting a grid value out of the grid and back changes nothing.
    pub proof fn lemma_snap_keeps_aligned(self, v: int)
        requires
            self.is_aligned(v),
        ensures
            self.snap(v) == v,
    {
        let cell = self.cell();
        lemma_pow2_pos(self.spec_size_power());
        lemma_div_mod_parts(v, cell);
        let q = v / cell;
        assert(cell * q == q * cell) by (nonlinear_arith);
        lemma_div_mod_unique(v + self.half_cell(), cell, q, self.half_cell());
    }

    /// Snapping twice is snapping once.
    pub proof fn lemma_snap_idempotent(self, a: int)
        ensures
            self.snap(self.snap(a)) == self.snap(a),
    {
        self.lemma_snap_is_nearest(a);
        self.lemma_snap_keeps_aligned(self.snap(a));
    }
}

impl Default for Grid {
    /// The grid used when nothing else is asked for: twenty fractional bits,
    /// cells of sixteen.
    fn default() -> (grid: Self)
        ensures
            grid.spec_size_power() == 4,
            grid.spec_exponent() == 24,
    {
        Self::new(20, 4)
    }
}

/// A cell of at most `MAX_SIZE_POWER` bits is positive and no larger than two
/// to that power.
proof fn lemma_cell_bounds(p: nat)
    requires
        p <= MAX_SIZE_POWER,
    ensures
        1 <= pow2(p) <= 0x4000_0000,
{
    lemma2_to64();
    lemma_pow2_pos(p);
    if p < 30 {
        lemma_pow2_strictly_increases(p, 30);
    }
}

} // verus!
