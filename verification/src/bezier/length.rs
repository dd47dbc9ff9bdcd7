//! Lengths of flattened curves.

use vstd::prelude::*;
use crate::bezier::approximation::{flattening, on_curve, IntApproximation, IntShort, MAX_COS};
use crate::bezier::chain::is_chain;
use crate::bezier::spline::IntCADSpline;
use crate::math::arith::{floor_log2, floor_sqrt, ilog2};

verus! {

/// The length of the chord of a segment, rounded down.
pub open spec fn chord_length(short: IntShort) -> int {
    floor_sqrt(short.b.from_point(short.a).sqr_len())
}

/// The sum of the chord lengths of a polyline of segments.
pub open spec fn polyline_length(shorts: Seq<IntShort>) -> int
    decreases shorts.len(),
{
    if shorts.len() == 0 {
        0
    } else {
        polyline_length(shorts.drop_last()) + chord_length(shorts.last())
    }
}

/// The depth of even subdivision at which a curve of length `length` falls
/// into pieces about four long.
pub open spec fn spec_max_split_factor(length: u64) -> int {
    if length < 4 {
        0
    } else {
        floor_log2(length as nat) - 2
    }
}

/// The depth of even subdivision at which a curve of length `length` falls
/// into pieces about four long.
pub fn max_split_factor(length: u64) -> (depth: u32)
    ensures
        depth == spec_max_split_factor(length),
{
    if length < 4 {
        0
    } else {
        let log = ilog2(length);
        proof {
            vstd::arithmetic::power2::lemma2_to64();
            if log < 2 {
                vstd::arithmetic::power2::lemma_pow2_strictly_increases(log as nat, 2);
                assert(floor_log2(length as nat) == 1 + floor_log2((length / 2) as nat));
                assert(floor_log2((length / 2) as nat) == 1 + floor_log2((length / 2 / 2) as nat));
            }
        }
        log - 2
    }
}

/// The length of the flattening of `spline`.
pub fn polyline_length_of<S: IntCADSpline>(spline: &S, min_cos: u32, min_len: u32) -> (length: u128)
    requires
        spline.in_range(),
        min_cos <= MAX_COS,
        min_len >= 1,
    ensures
        length == polyline_length(flattening(spline, min_cos, min_len)),
{
    let shorts = spline.approximate(min_cos, min_len);
    let mut length: u128 = 0;
    proof {
        assert(is_chain(spline, shorts@));
    }
    let mut i: usize = 0;
    while i < shorts.len()
        invariant
            i <= shorts.len(),
            spline.in_range(),
            forall|j: int| 0 <= j < shorts@.len() ==> on_curve(spline, #[trigger] shorts@[j]),
            length == polyline_length(shorts@.take(i as int)),
            length <= i * 0x1_0000_0000_0000_0000,
        decreases shorts.len() - i,
    {
        let short = shorts[i];
        proof {
            assert(on_curve(spline, shorts@[i as int]));
            spline.lemma_curve(short.step as int, short.split_factor as int);
            spline.lemma_curve(short.step + 1, short.split_factor as int);
            assert(shorts@.take(i + 1).drop_last() =~= shorts@.take(i as int));
        }
        let chord = short.b.diff(short.a);
        let piece = chord.floor_length();
        proof {
            assert((i + 1) * 0x1_0000_0000_0000_0000 <= 0x1_0000_0000_0000_0000 * 0x1_0000_0000_0000_0000)
                by (nonlinear_arith)
                requires
                    i + 1 <= 0x1_0000_0000_0000_0000,
            ;
        }
        length = length + piece as u128;
        i += 1;
    }
    proof {
        assert(shorts@.take(i as int) =~= shorts@);
    }
    length
}

} // verus!
