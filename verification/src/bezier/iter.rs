//! Evenly spaced points of a curve, produced one at a time.

use vstd::prelude::*;
use vstd::arithmetic::power2::pow2;
use vstd::bits::{lemma_usize_pow2_no_overflow, lemma_usize_shl_is_mul};
use crate::bezier::spline::IntCADSpline;
use crate::math::point::IntPoint;

verus! {

/// The points of `spline` at the parameters `i / 2^split_factor`, from the
/// first or the second of them on, up to the last but one or the last.
pub open spec fn sampled_points<S: IntCADSpline>(
    spline: &S,
    start: bool,
    end: bool,
    split_factor: int,
) -> Seq<IntPoint> {
    let first: int = if start {
        0
    } else {
        1
    };
    let count: int = pow2(split_factor as nat) + if end {
        1int
    } else {
        0int
    };
    Seq::new((count - first) as nat, |j: int| spline.spec_split_at(first + j, split_factor))
}

/// A cursor over evenly spaced points of a curve. It computes each point
/// when asked for it and can be made anew at any time.
pub struct IntSplinePointsIterator<'a, S> {
    spline: &'a S,
    count: usize,
    split_factor: u32,
    i: usize,
}

impl<'a, S: IntCADSpline> IntSplinePointsIterator<'a, S> {
    /// The cursor stands within its range and the range within the curve.
    pub closed spec fn wf(&self) -> bool {
        &&& self.split_factor < usize::BITS
        &&& self.count <= pow2(self.split_factor as nat) + 1
        &&& self.i <= self.count + 1
    }

    /// The points still to come.
    pub closed spec fn remaining(&self) -> Seq<IntPoint> {
        Seq::new(
            if self.i < self.count {
                (self.count - self.i) as nat
            } else {
                0nat
            },
            |j: int| self.spline.spec_split_at(self.i + j, self.split_factor as int),
        )
    }

    /// A cursor over the points of `spline` at depth `split_factor`, with or
    /// without the start and the end of the curve.
    pub fn new(split_factor: u32, start: bool, end: bool, spline: &'a S) -> (it: Self)
        requires
            split_factor < usize::BITS,
        ensures
            it.wf(),
            it.remaining() == sampled_points(spline, start, end, split_factor as int),
    {
        proof {
            lemma_usize_pow2_no_overflow(split_factor as nat);
            lemma_usize_shl_is_mul(1usize, split_factor as usize);
        }
        let last: usize = if end {
            1
        } else {
            0
        };
        let count: usize = (1usize << (split_factor as usize)) + last;
        let i: usize = if start {
            0
        } else {
            1
        };
        let it = Self { i, count, split_factor, spline };
        proof {
            assert(it.remaining() =~= sampled_points(spline, start, end, split_factor as int));
        }
        it
    }

    /// The next point, if any is left.
    pub fn next(&mut self) -> (point: Option<IntPoint>)
        requires
            old(self).wf(),
        ensures
            final(self).wf(),
            old(self).remaining().len() == 0 ==> point is None
                && final(self).remaining() == old(self).remaining(),
            old(self).remaining().len() > 0 ==> point == Some(old(self).remaining()[0])
                && final(self).remaining() == old(self).remaining().skip(1),
    {
        if self.i >= self.count {
            return None;
        }
        let p = self.spline.split_at(self.i, self.split_factor);
        self.i += 1;
        proof {
            assert(self.remaining() =~= old(self).remaining().skip(1));
        }
        Some(p)
    }

    /// All the points still to come.
    pub fn collect(self) -> (points: Vec<IntPoint>)
        requires
            self.wf(),
        ensures
            points@ == self.remaining(),
    {
        let mut cursor = self;
        let mut points: Vec<IntPoint> = Vec::new();
        loop
            invariant
                cursor.wf(),
                points@ + cursor.remaining() == self.remaining(),
            ensures
                points@ == self.remaining(),
            decreases cursor.remaining().len(),
        {
            let ghost before = cursor.remaining();
            match cursor.next() {
                Some(p) => {
                    points.push(p);
                    proof {
                        assert(points@ + cursor.remaining() =~= self.remaining());
                    }
                },
                None => {
                    proof {
                        assert(points@ =~= points@ + before);
                    }
                    break ;
                },
            }
        }
        points
    }
}

} // verus!
