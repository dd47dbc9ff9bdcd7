//! Adaptive flattening: a curve becomes a polyline whose segments turn
//! little against their neighbours or are too short to matter.
//!
//! The solver works in rounds on a list of segments. A round tests every
//! segment that the round before has made, by the angle it makes with the
//! segments beside it, and then bisects those that failed the test. What the
//! rounds do to the list as a sequence is written down in `round` and `solve`;
//! the solver itself keeps the segments in an arena and its work in queues of
//! indices, and is proved to compute the same sequence.

use vstd::prelude::*;
use vstd::arithmetic::power2::lemma_pow2_unfold;
use vstd::bits::lemma_usize_pow2_no_overflow;
use crate::bezier::chain::{is_chain, lemma_flattening_is_chain};
use crate::bezier::spline::{IntCADSpline, COORD_LIMIT};
use crate::data::list::{LinkList, EMPTY_REF};
use crate::math::arith::{floor_log2, ilog2};
use crate::math::line::is_parameter;
use crate::math::point::{lemma_direction_is_bounded, IntPoint, UNIT};

verus! {

/// The greatest cosine that can be asked for, in 10-bit fixed point.
pub const MAX_COS: u32 = 1024;

/// One segment of a flattened curve: the chord from `a` to `b` over the
/// parameters from `step / 2^split_factor` to `(step + 1) / 2^split_factor`,
/// with the direction of the chord.
#[derive(Debug, Clone, Copy, PartialEq, Eq, Structural)]
pub struct IntShort {
    pub step: usize,
    pub split_factor: u32,
    pub dir: IntPoint,
    pub a: IntPoint,
    pub b: IntPoint,
}

/// A segment of the working list with the mark of those that the next round
/// has to test.
pub struct Queued {
    pub short: IntShort,
    pub active: bool,
}

/// No segment is bisected at this depth: its steps would no longer fit.
pub open spec fn depth_limit() -> int {
    usize::BITS - 1
}

/// The least inner product of two directions that passes for straight.
pub open spec fn threshold(min_cos: u32) -> int {
    min_cos * UNIT
}

/// The segments of a working list.
pub open spec fn shorts_of(state: Seq<Queued>) -> Seq<IntShort> {
    Seq::new(state.len(), |i: int| state[i].short)
}

/// The whole curve as one segment.
pub open spec fn root<S: IntCADSpline>(spline: &S) -> IntShort {
    IntShort {
        step: 0,
        split_factor: 0,
        dir: spline.spec_end().from_point(spline.spec_start()).spec_direction(),
        a: spline.spec_start(),
        b: spline.spec_end(),
    }
}

/// The curve is a single point: its ends coincide and it leaves and arrives
/// in no direction.
pub open spec fn is_point_curve<S: IntCADSpline>(spline: &S) -> bool {
    &&& spline.spec_start() == spline.spec_end()
    &&& spline.spec_start_dir().is_zero()
    &&& spline.spec_end_dir().is_zero()
}

/// The direction before segment `i`: that of the segment before it, or the
/// direction in which the curve starts.
pub open spec fn dir_before<S: IntCADSpline>(spline: &S, state: Seq<Queued>, i: int) -> IntPoint {
    if i > 0 {
        state[i - 1].short.dir
    } else {
        spline.spec_start_dir()
    }
}

/// The direction after segment `i`: that of the segment after it, or the
/// direction in which the curve ends.
pub open spec fn dir_after<S: IntCADSpline>(spline: &S, state: Seq<Queued>, i: int) -> IntPoint {
    if i + 1 < state.len() {
        state[i + 1].short.dir
    } else {
        spline.spec_end_dir()
    }
}

/// A direction turns too far against one of its neighbours.
pub open spec fn bends(dir: IntPoint, before: IntPoint, after: IntPoint, threshold: int) -> bool {
    dir.spec_dot_product(before) < threshold || dir.spec_dot_product(after) < threshold
}

/// Segment `i` is bisected in the coming round: it is to be tested and turns
/// too far against a neighbour.
pub open spec fn splits<S: IntCADSpline>(spline: &S, state: Seq<Queued>, i: int, threshold: int) -> bool {
    state[i].active && bends(
        state[i].short.dir,
        dir_before(spline, state, i),
        dir_after(spline, state, i),
        threshold,
    )
}

/// The point of the curve in the middle of a segment's parameters.
pub open spec fn midpoint<S: IntCADSpline>(spline: &S, short: IntShort) -> IntPoint {
    spline.spec_split_at(2 * short.step + 1, short.split_factor + 1)
}

/// A half is tested again unless it is short or as deep as segments go.
pub open spec fn stays_active(chord: IntPoint, split_factor: int, power: nat) -> bool {
    !chord.spec_is_small(power) && split_factor < depth_limit()
}

/// The first half of a bisected segment.
pub open spec fn left_child<S: IntCADSpline>(spline: &S, short: IntShort, power: nat) -> Queued {
    let m = midpoint(spline, short);
    let chord = m.from_point(short.a);
    Queued {
        short: IntShort {
            step: (2 * short.step) as usize,
            split_factor: (short.split_factor + 1) as u32,
            dir: chord.spec_direction(),
            a: short.a,
            b: m,
        },
        active: stays_active(chord, short.split_factor + 1, power),
    }
}

/// The second half of a bisected segment.
pub open spec fn right_child<S: IntCADSpline>(spline: &S, short: IntShort, power: nat) -> Queued {
    let m = midpoint(spline, short);
    let chord = short.b.from_point(m);
    Queued {
        short: IntShort {
            step: (2 * short.step + 1) as usize,
            split_factor: (short.split_factor + 1) as u32,
            dir: chord.spec_direction(),
            a: m,
            b: short.b,
        },
        active: stays_active(chord, short.split_factor + 1, power),
    }
}

/// A segment that a round leaves as it is; it is not tested again.
pub open spec fn settled(q: Queued) -> Queued {
    Queued { short: q.short, active: false }
}

/// What a round makes of the first `n` segments of the list.
pub open spec fn round_prefix<S: IntCADSpline>(
    spline: &S,
    state: Seq<Queued>,
    n: int,
    threshold: int,
    power: nat,
) -> Seq<Queued>
    decreases n,
{
    if n <= 0 {
        Seq::empty()
    } else if splits(spline, state, n - 1, threshold) {
        round_prefix(spline, state, n - 1, threshold, power).push(
            left_child(spline, state[n - 1].short, power),
        ).push(right_child(spline, state[n - 1].short, power))
    } else {
        round_prefix(spline, state, n - 1, threshold, power).push(settled(state[n - 1]))
    }
}

/// One round: every segment that is to be tested and bends is replaced by
/// its two halves. All tests look at the list as it is before the round.
pub open spec fn round<S: IntCADSpline>(spline: &S, state: Seq<Queued>, threshold: int, power: nat) -> Seq<Queued> {
    round_prefix(spline, state, state.len() as int, threshold, power)
}

/// Some segment of the list is still to be tested.
pub open spec fn has_active(state: Seq<Queued>) -> bool {
    exists|i: int| 0 <= i < state.len() && (#[trigger] state[i]).active
}

/// The list can take a round in which every segment is bisected.
pub open spec fn has_room(state: Seq<Queued>) -> bool {
    2 * state.len() <= EMPTY_REF
}

/// Rounds are made until none is left to test, the list has no room for a
/// further round, or the depth limit is reached.
pub open spec fn solve<S: IntCADSpline>(
    spline: &S,
    state: Seq<Queued>,
    depth: int,
    threshold: int,
    power: nat,
) -> Seq<Queued>
    decreases depth_limit() - depth,
{
    if depth >= depth_limit() || !has_active(state) || !has_room(state) {
        state
    } else {
        solve(spline, round(spline, state, threshold, power), depth + 1, threshold, power)
    }
}

/// The segments into which a curve is flattened.
///
/// The curve starts as one segment that is to be tested. A segment under test
/// is bisected if the cosine of the angle it makes with the segment before or
/// after it is below `min_cos / 1024`; its halves are tested in the next round
/// unless they are shorter than `min_len` rounded down to a power of two. A
/// curve that is a single point stays one segment.
pub open spec fn flattening<S: IntCADSpline>(spline: &S, min_cos: u32, min_len: u32) -> Seq<IntShort> {
    if is_point_curve(spline) {
        seq![root(spline)]
    } else {
        shorts_of(
            solve(
                spline,
                seq![Queued { short: root(spline), active: true }],
                0,
                threshold(min_cos),
                floor_log2(min_len as nat),
            ),
        )
    }
}

/// The corners of a polyline of segments: where each starts and where the
/// last one ends.
pub open spec fn points_of(shorts: Seq<IntShort>) -> Seq<IntPoint> {
    Seq::new(
        shorts.len() + 1,
        |i: int|
            if i < shorts.len() {
                shorts[i].a
            } else {
                shorts[shorts.len() - 1].b
            },
    )
}

/// The segment spans one step of the curve at its depth, from point to
/// point, and carries the direction of its chord.
pub open spec fn on_curve<S: IntCADSpline>(spline: &S, short: IntShort) -> bool {
    &&& is_parameter(short.step + 1, short.split_factor as int)
    &&& short.split_factor <= depth_limit()
    &&& short.a == spline.spec_split_at(short.step as int, short.split_factor as int)
    &&& short.b == spline.spec_split_at(short.step + 1, short.split_factor as int)
    &&& short.dir == short.b.from_point(short.a).spec_direction()
}

/// Every segment of the list lies on the curve, and those still to be
/// tested are the ones made at depth `depth`.
pub open spec fn settled_at<S: IntCADSpline>(spline: &S, state: Seq<Queued>, depth: int) -> bool {
    forall|i: int|
        0 <= i < state.len() ==> on_curve(spline, (#[trigger] state[i]).short) && (state[i].active
            ==> state[i].short.split_factor == depth && depth < depth_limit())
}

/// A round leaves alone what does not bend: over a stretch of the list
/// without a segment to bisect it only clears the marks.
pub proof fn lemma_round_skips<S: IntCADSpline>(
    spline: &S,
    state: Seq<Queued>,
    from: int,
    to: int,
    threshold: int,
    power: nat,
)
    requires
        0 <= from <= to <= state.len(),
        forall|q: int| from <= q < to ==> !splits(spline, state, q, threshold),
    ensures
        round_prefix(spline, state, to, threshold, power) == round_prefix(
            spline,
            state,
            from,
            threshold,
            power,
        ) + Seq::new((to - from) as nat, |j: int| settled(state[from + j])),
    decreases to - from,
{
    let base = round_prefix(spline, state, from, threshold, power);
    if from < to {
        lemma_round_skips(spline, state, from, to - 1, threshold, power);
        assert(!splits(spline, state, to - 1, threshold));
        assert(round_prefix(spline, state, to, threshold, power) =~= base + Seq::new(
            (to - from) as nat,
            |j: int| settled(state[from + j]),
        ));
    } else {
        assert(base =~= base + Seq::new(0nat, |j: int| settled(state[from + j])));
    }
}

/// The halves of a segment on the curve lie on the curve, one level deeper.
pub proof fn lemma_children_on_curve<S: IntCADSpline>(spline: &S, short: IntShort, power: nat)
    requires
        spline.in_range(),
        on_curve(spline, short),
        short.split_factor < depth_limit(),
    ensures
        on_curve(spline, left_child(spline, short, power).short),
        on_curve(spline, right_child(spline, short, power).short),
        left_child(spline, short, power).short.split_factor == short.split_factor + 1,
        right_child(spline, short, power).short.split_factor == short.split_factor + 1,
        is_parameter(2 * short.step + 1, short.split_factor + 1),
        2 * short.step + 2 <= usize::MAX,
        short.a.within(COORD_LIMIT as int),
        short.b.within(COORD_LIMIT as int),
        midpoint(spline, short).within(COORD_LIMIT as int),
{
    let k = short.split_factor as int;
    lemma_pow2_unfold((k + 1) as nat);
    lemma_usize_pow2_no_overflow((k + 1) as nat);
    spline.lemma_curve(short.step as int, k);
    spline.lemma_curve(short.step + 1, k);
    spline.lemma_curve(2 * short.step + 1, k + 1);
}

/// Flattening, offered by every curve.
pub trait IntApproximation: IntCADSpline + Sized {
    /// The segments of the flattened curve, in the order of the curve.
    ///
    /// `min_cos` is the least cosine, in 10-bit fixed point, of the angle that
    /// two neighbouring segments may make; `min_len` is the length below which
    /// a segment is bisected no further.
    fn approximate(&self, min_cos: u32, min_len: u32) -> (shorts: Vec<IntShort>)
        requires
            self.in_range(),
            min_cos <= MAX_COS,
            min_len >= 1,
        ensures
            shorts@ == flattening(self, min_cos, min_len),
            is_chain(self, shorts@),
    ;

    /// The corners of the flattened curve, from its start to its end.
    fn approximate_points(&self, min_cos: u32, min_len: u32) -> (points: Vec<IntPoint>)
        requires
            self.in_range(),
            min_cos <= MAX_COS,
            min_len >= 1,
        ensures
            points@ == points_of(flattening(self, min_cos, min_len)),
    ;
}

impl<S: IntCADSpline> IntApproximation for S {
    fn approximate(&self, min_cos: u32, min_len: u32) -> (shorts: Vec<IntShort>) {
        proof {
            lemma_flattening_is_chain(self, min_cos, min_len);
        }
        Solver::approximate(self, min_cos, min_len)
    }

    fn approximate_points(&self, min_cos: u32, min_len: u32) -> (points: Vec<IntPoint>) {
        let shorts = Solver::approximate(self, min_cos, min_len);
        let mut points: Vec<IntPoint> = Vec::with_capacity(shorts.len());
        let mut i: usize = 0;
        while i < shorts.len()
            invariant
                i <= shorts.len(),
                points@ == points_of(shorts@).take(i as int),
            decreases shorts.len() - i,
        {
            points.push(shorts[i].a);
            proof {
                assert(points@ =~= points_of(shorts@).take(i + 1));
            }
            i += 1;
        }
        points.push(shorts[shorts.len() - 1].b);
        proof {
            assert(points@ =~= points_of(shorts@));
        }
        points
    }
}

/// The state of one flattening: its tolerances, the ends of the curve and
/// the arena of segments.
struct Solver<'a, S> {
    min_cos: i64,
    st_dir: IntPoint,
    ed_dir: IntPoint,
    min_len_power: u32,
    spline: &'a S,
    segments: LinkList<IntShort>,
}

impl<'a, S: IntCADSpline> Solver<'a, S> {
    /// The tolerances are in range and the end directions are those of the
    /// curve.
    spec fn config_ok(&self) -> bool {
        &&& self.spline.in_range()
        &&& 0 <= self.min_cos <= MAX_COS * UNIT
        &&& self.st_dir == self.spline.spec_start_dir()
        &&& self.ed_dir == self.spline.spec_end_dir()
    }

    /// Nothing but the arena differs between the two.
    spec fn same_config(&self, other: &Self) -> bool {
        &&& self.min_cos == other.min_cos
        &&& self.st_dir == other.st_dir
        &&& self.ed_dir == other.ed_dir
        &&& self.min_len_power == other.min_len_power
        &&& self.spline == other.spline
    }

    /// The arena holds the segments of `state` in list order.
    spec fn holds(&self, state: Seq<Queued>, depth: int) -> bool {
        &&& self.config_ok()
        &&& self.segments.wf()
        &&& self.segments@ == shorts_of(state)
        &&& settled_at(self.spline, state, depth)
    }

    /// The queue names, in list order and once each, the segments of `state`
    /// that are still to be tested.
    spec fn queue_ok(&self, state: Seq<Queued>, queue: Seq<u32>) -> bool {
        &&& forall|j: int|
            0 <= j < queue.len() ==> (#[trigger] queue[j]) < state.len()
                && state[self.segments.position(queue[j])].active
        &&& forall|j: int, k: int|
            0 <= j < k < queue.len() ==> self.segments.position(#[trigger] queue[j])
                < self.segments.position(#[trigger] queue[k])
        &&& forall|i: int|
            0 <= i < state.len() && (#[trigger] state[i]).active ==> queue.contains(
                self.segments.order()[i],
            )
    }

    /// The first `upto` entries of the queue have been tested, and `picked`
    /// names, in list order, those among them that are to be bisected.
    spec fn picked_ok(&self, state: Seq<Queued>, queue: Seq<u32>, picked: Seq<u32>, upto: int) -> bool {
        &&& forall|t: int|
            0 <= t < picked.len() ==> (#[trigger] picked[t]) < state.len() && splits(
                self.spline,
                state,
                self.segments.position(picked[t]),
                self.min_cos as int,
            ) && self.segments.position(picked[t]) >= t
        &&& forall|t: int, u: int|
            0 <= t < u < picked.len() ==> self.segments.position(#[trigger] picked[t])
                < self.segments.position(#[trigger] picked[u])
        &&& forall|t: int, j: int|
            0 <= t < picked.len() && upto <= j < queue.len() ==> self.segments.position(
                #[trigger] picked[t],
            ) < self.segments.position(#[trigger] queue[j])
        &&& forall|j: int|
            0 <= j < upto && splits(
                self.spline,
                state,
                self.segments.position(#[trigger] queue[j]),
                self.min_cos as int,
            ) ==> picked.contains(queue[j])
    }

    /// `picked` names, in list order, exactly the segments of `state` that
    /// the coming round bisects.
    spec fn all_picked(&self, state: Seq<Queued>, picked: Seq<u32>) -> bool {
        &&& forall|t: int|
            0 <= t < picked.len() ==> (#[trigger] picked[t]) < state.len() && splits(
                self.spline,
                state,
                self.segments.position(picked[t]),
                self.min_cos as int,
            ) && self.segments.position(picked[t]) >= t
        &&& forall|t: int, u: int|
            0 <= t < u < picked.len() ==> self.segments.position(#[trigger] picked[t])
                < self.segments.position(#[trigger] picked[u])
        &&& forall|i: int|
            0 <= i < state.len() && splits(self.spline, state, i, self.min_cos as int)
                ==> picked.contains(#[trigger] self.segments.order()[i])
    }

    /// The test phase of a round: of the queued segments, those that bend
    /// are put down for bisection.
    fn select(
        &self,
        queue: &Vec<u32>,
        to_split: &mut Vec<u32>,
        Ghost(state): Ghost<Seq<Queued>>,
        Ghost(depth): Ghost<int>,
    )
        requires
            self.holds(state, depth),
            self.queue_ok(state, queue@),
            old(to_split)@.len() == 0,
        ensures
            self.all_picked(state, final(to_split)@),
    {
        let mut j: usize = 0;
        while j < queue.len()
            invariant
                j <= queue.len(),
                self.holds(state, depth),
                self.queue_ok(state, queue@),
                self.picked_ok(state, queue@, to_split@, j as int),
            decreases queue.len() - j,
        {
            let index = queue[j];
            let ghost before = to_split@;
            if self.split_test(index, Ghost(state), Ghost(depth)) {
                to_split.push(index);
                proof {
                    self.segments.lemma_order();
                    assert(to_split@[before.len() as int] == index);
                    assert(state[self.segments.position(queue@[j as int])].active);
                    if before.len() > 0 {
                        assert(self.segments.position(before[before.len() - 1])
                            < self.segments.position(queue@[j as int]));
                    }
                    assert forall|t: int| 0 <= t < to_split@.len() implies (#[trigger] to_split@[t])
                        < state.len() && splits(
                        self.spline,
                        state,
                        self.segments.position(to_split@[t]),
                        self.min_cos as int,
                    ) && self.segments.position(to_split@[t]) >= t by {
                        if t < before.len() {
                            assert(to_split@[t] == before[t]);
                        }
                    }
                    assert forall|k: int|
                        0 <= k < j + 1 && splits(
                            self.spline,
                            state,
                            self.segments.position(#[trigger] queue@[k]),
                            self.min_cos as int,
                        ) implies to_split@.contains(queue@[k]) by {
                        if k < j {
                            let w = choose|w: int| 0 <= w < before.len() && before[w] == queue@[k];
                            assert(to_split@[w] == queue@[k]);
                        }
                    }
                }
            }
            j += 1;
        }
        proof {
            self.segments.lemma_order();
            assert forall|i: int|
                0 <= i < state.len() && splits(
                    self.spline,
                    state,
                    i,
                    self.min_cos as int,
                ) implies to_split@.contains(#[trigger] self.segments.order()[i]) by {
                assert(state[i].active);
                let idx = self.segments.order()[i];
                let w = choose|w: int| 0 <= w < queue@.len() && queue@[w] == idx;
                assert(self.segments.position(queue@[w]) == i);
            }
        }
    }

    /// While a round bisects: `next` is what the round has made of the first
    /// `done` segments of `state`, which the list holds in place of them, and
    /// `queue` names those of `next` that are to be tested.
    spec fn splitting(
        &self,
        origin: &Self,
        state: Seq<Queued>,
        depth: int,
        next: Seq<Queued>,
        done: int,
        queue: Seq<u32>,
    ) -> bool {
        let n0 = state.len() as int;
        let t = next.len() - done;
        &&& self.same_config(origin)
        &&& self.segments.wf()
        &&& 0 <= done <= n0
        &&& 0 <= t
        &&& self.segments.spec_len() == n0 + t
        &&& next == round_prefix(
            self.spline,
            state,
            done,
            self.min_cos as int,
            self.min_len_power as nat,
        )
        &&& self.segments@ == shorts_of(next) + shorts_of(state).subrange(done, n0)
        &&& forall|idx: u32|
            idx < n0 && origin.segments.position(idx) >= done ==> #[trigger] self.segments.position(idx)
                == origin.segments.position(idx) + t
        &&& settled_at(self.spline, next, depth + 1)
        &&& forall|j: int|
            0 <= j < queue.len() ==> (#[trigger] queue[j]) < n0 + t && 0 <= self.segments.position(
                queue[j],
            ) < next.len() && next[self.segments.position(queue[j])].active
        &&& forall|j: int, k: int|
            0 <= j < k < queue.len() ==> self.segments.position(#[trigger] queue[j])
                < self.segments.position(#[trigger] queue[k])
        &&& forall|idx: u32|
            idx < n0 + t && 0 <= #[trigger] self.segments.position(idx) < next.len()
                && next[self.segments.position(idx)].active ==> queue.contains(idx)
    }

    /// Carries the state of a round over a stretch of the list in which
    /// nothing is bisected.
    proof fn lemma_splitting_skips(
        &self,
        origin: &Self,
        state: Seq<Queued>,
        depth: int,
        next: Seq<Queued>,
        done: int,
        queue: Seq<u32>,
        to: int,
    )
        requires
            self.splitting(origin, state, depth, next, done, queue),
            origin.holds(state, depth),
            done <= to <= state.len(),
            forall|q: int| done <= q < to ==> !splits(self.spline, state, q, self.min_cos as int),
        ensures
            self.splitting(
                origin,
                state,
                depth,
                round_prefix(
                    self.spline,
                    state,
                    to,
                    self.min_cos as int,
                    self.min_len_power as nat,
                ),
                to,
                queue,
            ),
            round_prefix(
                self.spline,
                state,
                to,
                self.min_cos as int,
                self.min_len_power as nat,
            ).len() == next.len() + (to - done),
    {
        let later = round_prefix(
            self.spline,
            state,
            to,
            self.min_cos as int,
            self.min_len_power as nat,
        );
        let n0 = state.len() as int;
        lemma_round_skips(
            self.spline,
            state,
            done,
            to,
            self.min_cos as int,
            self.min_len_power as nat,
        );
        assert(later.len() == next.len() + (to - done));
        assert forall|i: int| 0 <= i < later.len() implies on_curve(
            self.spline,
            (#[trigger] later[i]).short,
        ) && (later[i].active ==> later[i].short.split_factor == depth + 1 && depth + 1
            < depth_limit()) by {
            if i < next.len() {
                assert(later[i] == next[i]);
            } else {
                assert(later[i] == settled(state[done + (i - next.len())]));
            }
        }
        assert(shorts_of(later) + shorts_of(state).subrange(to, n0) =~= shorts_of(next) + shorts_of(
            state,
        ).subrange(done, n0));
        assert forall|j: int| 0 <= j < queue.len() implies (#[trigger] queue[j]) < n0 + (later.len()
            - to) && 0 <= self.segments.position(queue[j]) < later.len()
            && later[self.segments.position(queue[j])].active by {
            assert(later[self.segments.position(queue[j])] == next[self.segments.position(queue[j])]);
        }
        assert forall|idx: u32|
            idx < n0 + (later.len() - to) && 0 <= #[trigger] self.segments.position(idx) < later.len()
                && later[self.segments.position(idx)].active implies queue.contains(idx) by {
            let p = self.segments.position(idx);
            if p < next.len() {
                assert(later[p] == next[p]);
            } else {
                assert(later[p] == settled(state[done + (p - next.len())]));
            }
        }
    }

    /// The bisecting phase of a round: every segment put down for it is
    /// bisected, and the halves that are to be tested are queued.
    fn split_all(
        &mut self,
        to_split: &Vec<u32>,
        queue: &mut Vec<u32>,
        Ghost(state): Ghost<Seq<Queued>>,
        Ghost(depth): Ghost<int>,
    )
        requires
            old(self).holds(state, depth),
            old(self).all_picked(state, to_split@),
            old(queue)@.len() == 0,
            has_room(state),
        ensures
            final(self).same_config(old(self)),
            final(self).holds(
                round(
                    old(self).spline,
                    state,
                    old(self).min_cos as int,
                    old(self).min_len_power as nat,
                ),
                depth + 1,
            ),
            final(self).queue_ok(
                round(
                    old(self).spline,
                    state,
                    old(self).min_cos as int,
                    old(self).min_len_power as nat,
                ),
                final(queue)@,
            ),
    {
        let ghost origin = *self;
        let ghost n0 = state.len() as int;
        let ghost mut next: Seq<Queued> = Seq::empty();
        let ghost mut done: int = 0;
        let m = to_split.len();
        proof {
            origin.segments.lemma_order();
            assert(self.segments@ =~= shorts_of(next) + shorts_of(state).subrange(0, n0));
            if m > 0 {
                assert(origin.segments.position(to_split@[m - 1]) >= m - 1);
            }
        }
        let mut t: usize = 0;
        while t < m
            invariant
                m == to_split@.len(),
                m <= n0,
                n0 == state.len(),
                t <= m,
                next.len() == done + t,
                origin.holds(state, depth),
                origin.all_picked(state, to_split@),
                has_room(state),
                self.splitting(&origin, state, depth, next, done, queue@),
                forall|u: int| 0 <= u < t ==> origin.segments.position(#[trigger] to_split@[u]) < done,
                forall|u: int| t <= u < m ==> origin.segments.position(#[trigger] to_split@[u]) >= done,
            decreases m - t,
        {
            let index = to_split[t];
            let ghost place = origin.segments.position(index);
            let ghost mid = round_prefix(
                self.spline,
                state,
                place,
                self.min_cos as int,
                self.min_len_power as nat,
            );
            proof {
                origin.segments.lemma_order();
                self.segments.lemma_order();
                assert forall|q: int| done <= q < place implies !splits(
                    self.spline,
                    state,
                    q,
                    self.min_cos as int,
                ) by {
                    if splits(self.spline, state, q, self.min_cos as int) {
                        let idx = origin.segments.order()[q];
                        assert(to_split@.contains(idx));
                        let u = choose|u: int| 0 <= u < to_split@.len() && to_split@[u] == idx;
                        assert(origin.segments.position(to_split@[u]) == q);
                        if u > t {
                            assert(origin.segments.position(to_split@[t as int])
                                < origin.segments.position(to_split@[u]));
                        }
                    }
                }
                self.lemma_splitting_skips(&origin, state, depth, next, done, queue@, place);
                assert(self.segments.position(index) == place + t);
                assert(mid.len() == place + t);
                assert(self.segments@[place + t] == state[place].short);
                assert(state[place].active);
            }
            let ghost list = self.segments;
            let ghost waiting = queue@;
            self.split(index, queue);
            proof {
                let power = self.min_len_power as nat;
                let left = left_child(self.spline, state[place].short, power);
                let right = right_child(self.spline, state[place].short, power);
                let fresh = (n0 + t) as u32;
                let p = place + t;
                next = mid.push(left).push(right);
                done = place + 1;
                self.segments.lemma_order();
                lemma_children_on_curve(self.spline, state[place].short, power);
                assert(self.segments@ =~= shorts_of(next) + shorts_of(state).subrange(done, n0));
                assert forall|i: int| 0 <= i < next.len() implies on_curve(
                    self.spline,
                    (#[trigger] next[i]).short,
                ) && (next[i].active ==> next[i].short.split_factor == depth + 1 && depth + 1
                    < depth_limit()) by {
                    if i < mid.len() {
                        assert(next[i] == mid[i]);
                    }
                }
                assert forall|idx: u32|
                    idx < n0 && origin.segments.position(idx) >= done implies #[trigger] self.segments.position(
                    idx,
                ) == origin.segments.position(idx) + (t + 1) by {
                    assert(list.position(idx) == origin.segments.position(idx) + t);
                }
                assert forall|j: int| 0 <= j < queue@.len() implies (#[trigger] queue@[j]) < n0 + (t
                    + 1) && 0 <= self.segments.position(queue@[j]) < next.len()
                    && next[self.segments.position(queue@[j])].active by {
                    if j < waiting.len() {
                        assert(queue@[j] == waiting[j]);
                        assert(list.position(waiting[j]) < mid.len());
                        assert(next[list.position(waiting[j])] == mid[list.position(waiting[j])]);
                    }
                }
                assert forall|j: int, k: int| 0 <= j < k < queue@.len() implies self.segments.position(
                    #[trigger] queue@[j],
                ) < self.segments.position(#[trigger] queue@[k]) by {
                    if j < waiting.len() {
                        assert(queue@[j] == waiting[j]);
                        assert(list.position(waiting[j]) < mid.len());
                    }
                    if k < waiting.len() {
                        assert(queue@[k] == waiting[k]);
                    }
                }
                assert forall|idx: u32|
                    idx < n0 + (t + 1) && 0 <= #[trigger] self.segments.position(idx) < next.len()
                        && next[self.segments.position(idx)].active implies queue@.contains(idx) by {
                    let q = self.segments.position(idx);
                    if q < p {
                        assert(idx != fresh);
                        assert(list.position(idx) == q);
                        assert(next[q] == mid[q]);
                        assert(waiting.contains(idx));
                        let w = choose|w: int| 0 <= w < waiting.len() && waiting[w] == idx;
                        assert(queue@[w] == idx);
                    } else if q == p {
                        assert(self.segments.order()[p] == index);
                        assert(idx == index);
                        assert(left.active);
                        assert(queue@[waiting.len() as int] == index);
                    } else {
                        assert(self.segments.order()[p + 1] == fresh);
                        assert(idx == fresh);
                        assert(right.active);
                        assert(queue@[queue@.len() - 1] == fresh);
                    }
                }
                assert forall|u: int| t + 1 <= u < m implies origin.segments.position(
                    #[trigger] to_split@[u],
                ) >= done by {
                    assert(origin.segments.position(to_split@[t as int]) < origin.segments.position(
                        to_split@[u],
                    ));
                }
            }
            t += 1;
        }
        proof {
            origin.segments.lemma_order();
            self.segments.lemma_order();
            assert forall|q: int| done <= q < n0 implies !splits(
                self.spline,
                state,
                q,
                self.min_cos as int,
            ) by {
                if splits(self.spline, state, q, self.min_cos as int) {
                    let idx = origin.segments.order()[q];
                    assert(to_split@.contains(idx));
                    let u = choose|u: int| 0 <= u < to_split@.len() && to_split@[u] == idx;
                    assert(origin.segments.position(to_split@[u]) == q);
                }
            }
            self.lemma_splitting_skips(&origin, state, depth, next, done, queue@, n0);
            let last = round(self.spline, state, self.min_cos as int, self.min_len_power as nat);
            assert(self.segments@ =~= shorts_of(last));
            assert forall|i: int| 0 <= i < last.len() && (#[trigger] last[i]).active implies queue@.contains(
                self.segments.order()[i],
            ) by {
                assert(self.segments.position(self.segments.order()[i]) == i);
            }
        }
    }

    /// Flattens `spline`: the segments into which the rounds of testing and
    /// bisecting turn the curve, in the order of the curve.
    fn approximate(spline: &'a S, min_cos: u32, min_len: u32) -> (shorts: Vec<IntShort>)
        requires
            spline.in_range(),
            min_cos <= MAX_COS,
            min_len >= 1,
        ensures
            shorts@ == flattening(spline, min_cos, min_len),
            shorts@.len() >= 1,
            forall|i: int| 0 <= i < shorts@.len() ==> on_curve(spline, #[trigger] shorts@[i]),
    {
        proof {
            vstd::arithmetic::power2::lemma2_to64();
            spline.lemma_curve(0, 0);
            spline.lemma_curve(1, 0);
        }
        let min_len_power = ilog2(min_len as u64);
        let st_dir = spline.start_dir();
        let ed_dir = spline.end_dir();
        let start = spline.start();
        let end = spline.end();
        let whole = IntShort { step: 0, split_factor: 0, dir: end.diff(start).direction(), a: start, b: end };
        let mut items: Vec<IntShort> = Vec::new();
        items.push(whole);
        if start.x == end.x && start.y == end.y && st_dir.x == 0 && st_dir.y == 0 && ed_dir.x == 0
            && ed_dir.y == 0 {
            return items;
        }
        let segments = LinkList::new(items);
        let ghost state0 = seq![Queued { short: whole, active: true }];
        let mut solver = Solver {
            min_cos: (min_cos as i64) * 1024,
            st_dir,
            ed_dir,
            min_len_power,
            spline,
            segments,
        };
        proof {
            assert(solver.segments@ =~= shorts_of(state0));
            assert(on_curve(spline, whole));
            assert(solver.config_ok());
            assert(settled_at(spline, state0, 0));
        }
        solver.process(Ghost(state0))
    }

    /// Runs the rounds until nothing is left to test, then reads the
    /// segments off the list.
    fn process(&mut self, Ghost(state0): Ghost<Seq<Queued>>) -> (shorts: Vec<IntShort>)
        requires
            old(self).holds(state0, 0),
            state0.len() == 1,
            state0[0].active,
        ensures
            shorts@ == shorts_of(
                solve(
                    old(self).spline,
                    state0,
                    0,
                    old(self).min_cos as int,
                    old(self).min_len_power as nat,
                ),
            ),
            shorts@.len() >= 1,
            forall|i: int| 0 <= i < shorts@.len() ==> on_curve(old(self).spline, #[trigger] shorts@[i]),
    {
        let mut buffer: Vec<u32> = Vec::with_capacity(16);
        buffer.push(0);

        let mut to_split: Vec<u32> = Vec::with_capacity(16);
        let ghost mut state = state0;
        let ghost mut depth: int = 0;
        proof {
            self.segments.lemma_order();
            assert(buffer@[0] == 0);
        }
        while !buffer.is_empty() && self.segments.len() <= (EMPTY_REF / 2) as usize
            invariant
                self.same_config(old(self)),
                self.holds(state, depth),
                self.queue_ok(state, buffer@),
                to_split@.len() == 0,
                state.len() >= 1,
                0 <= depth <= depth_limit(),
                solve(self.spline, state, depth, self.min_cos as int, self.min_len_power as nat)
                    == solve(
                    self.spline,
                    state0,
                    0,
                    self.min_cos as int,
                    self.min_len_power as nat,
                ),
            decreases depth_limit() - depth,
        {
            proof {
                self.segments.lemma_order();
                assert(state[self.segments.position(buffer@[0])].active);
                assert(has_active(state));
                assert(has_room(state));
            }
            self.select(&buffer, &mut to_split, Ghost(state), Ghost(depth));

            buffer.clear();
            self.split_all(&to_split, &mut buffer, Ghost(state), Ghost(depth));
            to_split.clear();
            proof {
                state = round(self.spline, state, self.min_cos as int, self.min_len_power as nat);
                depth = depth + 1;
                self.segments.lemma_order();
            }
        }
        proof {
            self.segments.lemma_order();
            if has_active(state) && depth < depth_limit() && has_room(state) {
                let i = choose|i: int| 0 <= i < state.len() && (#[trigger] state[i]).active;
                assert(buffer@.contains(self.segments.order()[i]));
            }
        }
        proof {
            assert forall|i: int| 0 <= i < state.len() implies on_curve(
                self.spline,
                #[trigger] shorts_of(state)[i],
            ) by {
                assert(on_curve(self.spline, state[i].short));
            }
        }
        self.segments.items()
    }

    /// Whether the segment at `index` turns too far against the segment
    /// before it or the one after it; at the ends of the list the directions
    /// of the curve itself stand in for the missing neighbour.
    fn split_test(&self, index: u32, Ghost(state): Ghost<Seq<Queued>>, Ghost(depth): Ghost<int>) -> (bent: bool)
        requires
            self.holds(state, depth),
            index < state.len(),
        ensures
            bent == bends(
                state[self.segments.position(index)].short.dir,
                dir_before(self.spline, state, self.segments.position(index)),
                dir_after(self.spline, state, self.segments.position(index)),
                self.min_cos as int,
            ),
    {
        proof {
            self.segments.lemma_order();
            self.spline.lemma_curve(0, 0);
            assert forall|i: int| 0 <= i < state.len() implies (#[trigger] state[i]).short.dir.within(
                UNIT as int,
            ) by {
                lemma_direction_is_bounded(state[i].short.b.from_point(state[i].short.a));
            }
        }
        let ghost p = self.segments.position(index);
        let node = self.segments.get(index);
        let prev = node.prev;
        let next = node.next;
        let dir = node.item.dir;
        assert(dir == state[p].short.dir);
        let prev_dir = if prev != EMPTY_REF {
            self.segments.get(prev).item.dir
        } else {
            self.st_dir
        };
        assert(prev_dir == dir_before(self.spline, state, p));
        proof {
            lemma_dot_bound(dir, prev_dir);
        }
        let prev_dot_product = dir.dot_product(&prev_dir);
        if prev_dot_product < self.min_cos {
            return true;
        }
        let next_dir = if next != EMPTY_REF {
            self.segments.get(next).item.dir
        } else {
            self.ed_dir
        };
        assert(next_dir == dir_after(self.spline, state, p));
        proof {
            lemma_dot_bound(dir, next_dir);
        }
        let next_dot_product = dir.dot_product(&next_dir);
        next_dot_product < self.min_cos
    }

    /// Bisects the segment at `index` at the point of the curve in the middle
    /// of its parameters, and queues each half that is to be tested again.
    fn split(&mut self, index: u32, result: &mut Vec<u32>)
        requires
            old(self).config_ok(),
            old(self).segments.wf(),
            index < old(self).segments.spec_len(),
            old(self).segments.spec_len() < EMPTY_REF,
            on_curve(old(self).spline, old(self).segments@[old(self).segments.position(index)]),
            old(self).segments@[old(self).segments.position(index)].split_factor < depth_limit(),
        ensures
            final(self).same_config(old(self)),
            final(self).segments.wf(),
            final(self).segments.spec_len() == old(self).segments.spec_len() + 1,
            ({
                let p = old(self).segments.position(index);
                let short = old(self).segments@[p];
                let power = old(self).min_len_power as nat;
                let left = left_child(old(self).spline, short, power);
                let right = right_child(old(self).spline, short, power);
                let fresh = old(self).segments.spec_len() as u32;
                &&& final(self).segments@ == old(self).segments@.update(p, left.short).insert(
                    p + 1,
                    right.short,
                )
                &&& final(self).segments.position(fresh) == p + 1
                &&& forall|j: u32|
                    j < old(self).segments.spec_len() ==> #[trigger] final(self).segments.position(j)
                        == old(self).segments.position(j) + if old(self).segments.position(j) > p {
                        1int
                    } else {
                        0int
                    }
                &&& final(result)@ == old(result)@ + (if left.active {
                    seq![index]
                } else {
                    Seq::<u32>::empty()
                }) + (if right.active {
                    seq![fresh]
                } else {
                    Seq::<u32>::empty()
                })
            }),
    {
        proof {
            self.segments.lemma_order();
        }
        let short = self.segments.get(index).item;
        proof {
            lemma_children_on_curve(self.spline, short, self.min_len_power as nat);
        }
        let split_factor = short.split_factor + 1;
        let m = self.spline.split_at(2 * short.step + 1, split_factor);
        let ma = m.diff(short.a);
        let bm = short.b.diff(m);

        let s0 = IntShort { step: 2 * short.step, split_factor, dir: ma.direction(), a: short.a, b: m };

        let s1 = IntShort {
            step: 2 * short.step + 1,
            split_factor,
            dir: bm.direction(),
            a: m,
            b: short.b,
        };

        let (i0, i1) = self.segments.split_at(index, s0, s1);
        let deepest = split_factor >= usize::BITS - 1;

        if !ma.is_small(self.min_len_power) && !deepest {
            result.push(i0);
        }

        if !bm.is_small(self.min_len_power) && !deepest {
            result.push(i1);
        }
        proof {
            let power = self.min_len_power as nat;
            let left = left_child(self.spline, short, power);
            let right = right_child(self.spline, short, power);
            assert(left.short == s0);
            assert(right.short == s1);
            assert(final(result)@ =~= old(result)@ + (if left.active {
                seq![index]
            } else {
                Seq::<u32>::empty()
            }) + (if right.active {
                seq![i1]
            } else {
                Seq::<u32>::empty()
            }));
        }
    }
}

/// The inner product of two directions fits a coordinate many times over.
proof fn lemma_dot_bound(a: IntPoint, b: IntPoint)
    requires
        a.within(UNIT as int),
        b.within(UNIT as int),
    ensures
        -0x20_0000 <= a.spec_dot_product(b) <= 0x20_0000,
{
    assert(-0x10_0000 <= a.x * b.x <= 0x10_0000) by (nonlinear_arith)
        requires
            -1024 <= a.x <= 1024,
            -1024 <= b.x <= 1024,
    ;
    assert(-0x10_0000 <= a.y * b.y <= 0x10_0000) by (nonlinear_arith)
        requires
            -1024 <= a.y <= 1024,
            -1024 <= b.y <= 1024,
    ;
}

} // verus!
