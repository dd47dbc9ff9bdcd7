//! Paths: anchors in a row, each pair of neighbours joined by a curve.

use vstd::prelude::*;
use vstd::arithmetic::power2::pow2;
use crate::bezier::anchor::IntBezierAnchor;
use crate::bezier::spline::IntSpline;
use crate::math::point::IntPoint;

verus! {

/// A sequence of anchors. A closed path has one more edge, from the last
/// anchor back to the first.
#[derive(Debug, Clone)]
pub struct IntBezierPath {
    pub anchors: Vec<IntBezierAnchor>,
    pub closed: bool,
}

impl IntBezierPath {
    /// The handle positions of every anchor can be formed.
    pub open spec fn wf(&self) -> bool {
        forall|i: int| 0 <= i < self.anchors@.len() ==> (#[trigger] self.anchors@[i]).wf()
    }

    /// The number of edges: none for a path without anchors, one for each
    /// anchor of a closed path, and one for each but the last of an open one.
    pub open spec fn edge_count(&self) -> nat {
        if self.anchors@.len() == 0 {
            0
        } else if self.closed {
            self.anchors@.len()
        } else {
            (self.anchors@.len() - 1) as nat
        }
    }

    /// Edge `i`: the curve from anchor `i` to the next anchor, which for the
    /// last anchor is the first.
    pub open spec fn edge(&self, i: int) -> IntSpline {
        IntSpline::spec_new(
            self.anchors@[i],
            if i + 1 < self.anchors@.len() {
                self.anchors@[i + 1]
            } else {
                self.anchors@[0]
            },
        )
    }

    /// The edges in order.
    pub open spec fn spec_splines(&self) -> Seq<IntSpline> {
        Seq::new(self.edge_count(), |i: int| self.edge(i))
    }

    /// The evenly spaced points of the first `edges` edges, edge after edge.
    pub open spec fn points_upto(&self, edges: nat, split_factor: int) -> Seq<IntPoint>
        decreases edges,
    {
        if edges == 0 {
            Seq::empty()
        } else {
            self.points_upto((edges - 1) as nat, split_factor) + self.edge(
                edges - 1,
            ).spec_regular_points(split_factor)
        }
    }

    /// The evenly spaced points of the whole path.
    pub open spec fn spec_points(&self, split_factor: int) -> Seq<IntPoint> {
        self.points_upto(self.edge_count(), split_factor)
    }

    /// Every edge contributes `2^split_factor` points.
    pub proof fn lemma_points_len(&self, edges: nat, split_factor: int)
        ensures
            self.points_upto(edges, split_factor).len() == edges * pow2(split_factor as nat),
        decreases edges,
    {
        if edges > 0 {
            self.lemma_points_len((edges - 1) as nat, split_factor);
            assert((edges - 1) * pow2(split_factor as nat) + pow2(split_factor as nat) == edges * pow2(
                split_factor as nat,
            )) by (nonlinear_arith);
        } else {
            assert(0 * pow2(split_factor as nat) == 0);
        }
    }

    /// Whether the handle positions of every anchor can be formed.
    pub fn is_wf(&self) -> (ok: bool)
        ensures
            ok == self.wf(),
    {
        let mut i: usize = 0;
        while i < self.anchors.len()
            invariant
                i <= self.anchors.len(),
                forall|j: int| 0 <= j < i ==> (#[trigger] self.anchors@[j]).wf(),
            decreases self.anchors.len() - i,
        {
            if !self.anchors[i].is_wf() {
                return false;
            }
            i += 1;
        }
        true
    }

    /// The points of the path at even spacing: for every edge in turn its
    /// `2^split_factor` points from its start up to, but without, its end.
    pub fn points(&self, split_factor: u32) -> (points: Vec<IntPoint>)
        requires
            self.wf(),
            split_factor < usize::BITS,
        ensures
            points@ == self.spec_points(split_factor as int),
            points@.len() == self.edge_count() * pow2(split_factor as nat),
    {
        let mut points: Vec<IntPoint> = Vec::new();
        let mut edges = SplineIterator::new(self);
        let ghost mut taken: nat = 0;
        loop
            invariant
                edges.wf(),
                edges.path() == self,
                taken <= self.edge_count(),
                edges.remaining() == self.spec_splines().skip(taken as int),
                points@ == self.points_upto(taken, split_factor as int),
                split_factor < usize::BITS,
            ensures
                points@ == self.spec_points(split_factor as int),
            decreases self.edge_count() - taken,
        {
            match edges.next() {
                Some(spline) => {
                    let mut piece = spline.regular_points(split_factor);
                    points.append(&mut piece);
                    proof {
                        assert(spline == self.spec_splines().skip(taken as int)[0]);
                        assert(self.spec_splines().skip(taken as int).skip(1) =~= self.spec_splines().skip(
                            taken as int + 1,
                        ));
                        taken = taken + 1;
                    }
                },
                None => {
                    break ;
                },
            }
        }
        proof {
            self.lemma_points_len(self.edge_count(), split_factor as int);
        }
        points
    }

    /// The edges of the path in order.
    pub fn splines(&self) -> (splines: Vec<IntSpline>)
        requires
            self.wf(),
        ensures
            splines@ == self.spec_splines(),
    {
        let mut splines: Vec<IntSpline> = Vec::new();
        let mut edges = SplineIterator::new(self);
        loop
            invariant
                edges.wf(),
                edges.path() == self,
                splines@ + edges.remaining() == self.spec_splines(),
            ensures
                splines@ == self.spec_splines(),
            decreases edges.remaining().len(),
        {
            let ghost before = edges.remaining();
            match edges.next() {
                Some(spline) => {
                    splines.push(spline);
                    proof {
                        assert(splines@ + edges.remaining() =~= self.spec_splines());
                    }
                },
                None => {
                    proof {
                        assert(splines@ =~= splines@ + before);
                    }
                    break ;
                },
            }
        }
        splines
    }
}

/// A cursor over the edges of a path.
pub struct SplineIterator<'a> {
    path: &'a IntBezierPath,
    i: usize,
}

impl<'a> SplineIterator<'a> {
    /// The path whose edges the cursor walks.
    pub closed spec fn path(&self) -> &'a IntBezierPath {
        self.path
    }

    /// The cursor stands at an edge of a path with sound anchors, or behind
    /// the last.
    pub closed spec fn wf(&self) -> bool {
        &&& self.path.wf()
        &&& self.i <= self.path.edge_count()
    }

    /// The edges still to come.
    pub closed spec fn remaining(&self) -> Seq<IntSpline> {
        self.path.spec_splines().skip(self.i as int)
    }

    /// A cursor before the first edge of `path`.
    pub fn new(path: &'a IntBezierPath) -> (it: Self)
        requires
            path.wf(),
        ensures
            it.wf(),
            it.path() == path,
            it.remaining() == path.spec_splines(),
    {
        let it = Self { i: 0, path };
        proof {
            assert(it.remaining() =~= path.spec_splines());
        }
        it
    }

    /// The next edge, if any is left: the curve between the next two
    /// anchors, and last, on a closed path, the one from the last anchor to
    /// the first.
    pub fn next(&mut self) -> (edge: Option<IntSpline>)
        requires
            old(self).wf(),
        ensures
            final(self).wf(),
            final(self).path() == old(self).path(),
            old(self).remaining().len() == 0 ==> edge is None
                && final(self).remaining() == old(self).remaining(),
            old(self).remaining().len() > 0 ==> edge == Some(old(self).remaining()[0])
                && final(self).remaining() == old(self).remaining().skip(1),
    {
        let n = self.path.anchors.len();
        let count = if n == 0 {
            0
        } else if self.path.closed {
            n
        } else {
            n - 1
        };
        if self.i >= count {
            return None;
        }
        let a0 = &self.path.anchors[self.i];
        let a1 = if self.i + 1 < n {
            &self.path.anchors[self.i + 1]
        } else {
            &self.path.anchors[0]
        };
        self.i += 1;
        proof {
            assert(self.remaining() =~= old(self).remaining().skip(1));
        }
        Some(IntSpline::new(a0, a1))
    }
}

} // verus!
