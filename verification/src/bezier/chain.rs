//! What holds of every flattening: its segments follow the curve from start
//! to end without gap or overlap.

use vstd::prelude::*;
use vstd::arithmetic::power2::{lemma2_to64, lemma_pow2_pos, lemma_pow2_unfold, pow2};
use crate::bezier::approximation::{
    bends, depth_limit, flattening, has_active, has_room, is_point_curve, left_child,
    lemma_children_on_curve, on_curve, right_child, root, round, round_prefix, settled,
    settled_at, shorts_of, solve, splits, threshold, IntShort, Queued,
};
use crate::bezier::spline::IntCADSpline;
use crate::math::arith::floor_log2;

verus! {

/// The parameter at which a segment starts, in units of the finest step.
pub open spec fn param_start(short: IntShort) -> int {
    short.step * pow2((depth_limit() - short.split_factor) as nat)
}

/// The parameter at which a segment ends, in units of the finest step.
pub open spec fn param_end(short: IntShort) -> int {
    (short.step + 1) * pow2((depth_limit() - short.split_factor) as nat)
}

/// The second segment starts where, and at the parameter at which, the
/// first ends.
pub open spec fn meets(first: IntShort, second: IntShort) -> bool {
    first.b == second.a && param_end(first) == param_start(second)
}

/// The segments lie on the curve and follow one another from its start, at
/// parameter zero, to its end, at parameter one.
pub open spec fn is_chain<S: IntCADSpline>(spline: &S, shorts: Seq<IntShort>) -> bool {
    &&& shorts.len() >= 1
    &&& forall|i: int| 0 <= i < shorts.len() ==> on_curve(spline, #[trigger] shorts[i])
    &&& shorts[0].a == spline.spec_start()
    &&& param_start(shorts[0]) == 0
    &&& shorts[shorts.len() - 1].b == spline.spec_end()
    &&& param_end(shorts[shorts.len() - 1]) == pow2(depth_limit() as nat)
    &&& forall|i: int| 0 <= i < shorts.len() - 1 ==> meets(#[trigger] shorts[i], shorts[i + 1])
}

/// The two halves of a segment start and end with it and meet in between.
pub proof fn lemma_children_meet<S: IntCADSpline>(spline: &S, short: IntShort, power: nat)
    requires
        spline.in_range(),
        on_curve(spline, short),
        short.split_factor < depth_limit(),
    ensures
        left_child(spline, short, power).short.a == short.a,
        param_start(left_child(spline, short, power).short) == param_start(short),
        right_child(spline, short, power).short.b == short.b,
        param_end(right_child(spline, short, power).short) == param_end(short),
        meets(left_child(spline, short, power).short, right_child(spline, short, power).short),
{
    lemma_children_on_curve(spline, short, power);
    let rest = (depth_limit() - short.split_factor - 1) as nat;
    lemma_pow2_unfold(rest + 1);
    let unit = pow2(rest) as int;
    let step = short.step as int;
    assert((2 * step) * unit == step * (2 * unit)) by (nonlinear_arith);
    assert((2 * step + 1 + 1) * unit == (step + 1) * (2 * unit)) by (nonlinear_arith);
}

/// What a round has made of the first `n` segments of a chain is a chain over
/// the same stretch of the curve, and no shorter.
pub proof fn lemma_round_keeps_chain<S: IntCADSpline>(
    spline: &S,
    state: Seq<Queued>,
    n: int,
    depth: int,
    threshold: int,
    power: nat,
)
    requires
        spline.in_range(),
        settled_at(spline, state, depth),
        is_chain(spline, shorts_of(state)),
        0 <= n <= state.len(),
    ensures
        settled_at(spline, round_prefix(spline, state, n, threshold, power), depth + 1),
        round_prefix(spline, state, n, threshold, power).len() >= n,
        n > 0 ==> ({
            let made = round_prefix(spline, state, n, threshold, power);
            &&& made[0].short.a == state[0].short.a
            &&& param_start(made[0].short) == param_start(state[0].short)
            &&& made[made.len() - 1].short.b == state[n - 1].short.b
            &&& param_end(made[made.len() - 1].short) == param_end(state[n - 1].short)
            &&& forall|i: int|
                0 <= i < made.len() - 1 ==> meets((#[trigger] made[i]).short, made[i + 1].short)
        }),
    decreases n,
{
    if n > 0 {
        lemma_round_keeps_chain(spline, state, n - 1, depth, threshold, power);
        let before = round_prefix(spline, state, n - 1, threshold, power);
        let made = round_prefix(spline, state, n, threshold, power);
        let short = state[n - 1].short;
        assert(on_curve(spline, shorts_of(state)[n - 1]));
        if n > 1 {
            assert(meets(shorts_of(state)[n - 2], shorts_of(state)[n - 1]));
        }
        if splits(spline, state, n - 1, threshold) {
            let left = left_child(spline, short, power);
            let right = right_child(spline, short, power);
            lemma_children_on_curve(spline, short, power);
            lemma_children_meet(spline, short, power);
            assert(made == before.push(left).push(right));
            assert forall|i: int| 0 <= i < made.len() - 1 implies meets(
                (#[trigger] made[i]).short,
                made[i + 1].short,
            ) by {
                if i + 1 < before.len() {
                    assert(meets(before[i].short, before[i + 1].short));
                }
            }
        } else {
            assert(made == before.push(settled(state[n - 1])));
            assert forall|i: int| 0 <= i < made.len() - 1 implies meets(
                (#[trigger] made[i]).short,
                made[i + 1].short,
            ) by {
                if i + 1 < before.len() {
                    assert(meets(before[i].short, before[i + 1].short));
                }
            }
        }
        assert forall|i: int| 0 <= i < made.len() implies on_curve(
            spline,
            (#[trigger] made[i]).short,
        ) && (made[i].active ==> made[i].short.split_factor == depth + 1 && depth + 1
            < depth_limit()) by {
            if i < before.len() {
                assert(made[i] == before[i]);
            }
        }
    }
}

/// A round turns a chain into a chain that is no shorter.
pub proof fn lemma_round_is_chain<S: IntCADSpline>(
    spline: &S,
    state: Seq<Queued>,
    depth: int,
    threshold: int,
    power: nat,
)
    requires
        spline.in_range(),
        settled_at(spline, state, depth),
        is_chain(spline, shorts_of(state)),
    ensures
        settled_at(spline, round(spline, state, threshold, power), depth + 1),
        is_chain(spline, shorts_of(round(spline, state, threshold, power))),
        round(spline, state, threshold, power).len() >= state.len(),
{
    let n = state.len() as int;
    let made = round(spline, state, threshold, power);
    lemma_round_keeps_chain(spline, state, n, depth, threshold, power);
    assert(shorts_of(state)[0] == state[0].short);
    assert(shorts_of(state)[n - 1] == state[n - 1].short);
    assert forall|i: int| 0 <= i < made.len() - 1 implies meets(
        #[trigger] shorts_of(made)[i],
        shorts_of(made)[i + 1],
    ) by {
        assert(meets(made[i].short, made[i + 1].short));
    }
    assert forall|i: int| 0 <= i < made.len() implies on_curve(
        spline,
        #[trigger] shorts_of(made)[i],
    ) by {
        assert(on_curve(spline, made[i].short));
    }
}

/// Rounds upon rounds turn a chain into a chain that is no shorter.
pub proof fn lemma_solve_is_chain<S: IntCADSpline>(
    spline: &S,
    state: Seq<Queued>,
    depth: int,
    threshold: int,
    power: nat,
)
    requires
        spline.in_range(),
        settled_at(spline, state, depth),
        is_chain(spline, shorts_of(state)),
    ensures
        is_chain(spline, shorts_of(solve(spline, state, depth, threshold, power))),
        solve(spline, state, depth, threshold, power).len() >= state.len(),
    decreases depth_limit() - depth,
{
    if !(depth >= depth_limit() || !has_active(state) || !has_room(state)) {
        lemma_round_is_chain(spline, state, depth, threshold, power);
        lemma_solve_is_chain(
            spline,
            round(spline, state, threshold, power),
            depth + 1,
            threshold,
            power,
        );
    }
}

/// The whole curve as one segment is a chain.
pub proof fn lemma_root_is_chain<S: IntCADSpline>(spline: &S)
    requires
        spline.in_range(),
    ensures
        is_chain(spline, seq![root(spline)]),
        on_curve(spline, root(spline)),
{
    lemma2_to64();
    spline.lemma_curve(0, 0);
    spline.lemma_curve(1, 0);
    let whole = seq![root(spline)];
    assert(whole[0] == root(spline));
    lemma_pow2_pos(depth_limit() as nat);
    assert(param_start(root(spline)) == 0) by (nonlinear_arith)
        requires
            param_start(root(spline)) == 0 * pow2(depth_limit() as nat),
    ;
    assert(param_end(root(spline)) == pow2(depth_limit() as nat)) by (nonlinear_arith)
        requires
            param_end(root(spline)) == 1 * pow2(depth_limit() as nat),
    ;
}

/// Every flattening is a chain: its segments lie on the curve, the first
/// starts where the curve starts, each next one where the one before it
/// ends, and the last ends where the curve ends; their parameters fill the
/// whole range from zero to one in order.
pub proof fn lemma_flattening_is_chain<S: IntCADSpline>(spline: &S, min_cos: u32, min_len: u32)
    requires
        spline.in_range(),
    ensures
        is_chain(spline, flattening(spline, min_cos, min_len)),
{
    lemma_root_is_chain(spline);
    if !is_point_curve(spline) {
        let state = seq![Queued { short: root(spline), active: true }];
        assert(shorts_of(state) =~= seq![root(spline)]);
        assert(state[0].short == root(spline));
        lemma_solve_is_chain(spline, state, 0, threshold(min_cos), floor_log2(min_len as nat));
    }
}

/// A curve is flattened to a single segment exactly if it is a point or its
/// chord bends against neither end direction, whatever the length floor.
pub proof fn lemma_single_segment<S: IntCADSpline>(spline: &S, min_cos: u32, min_len: u32)
    requires
        spline.in_range(),
    ensures
        flattening(spline, min_cos, min_len).len() == 1 <==> is_point_curve(spline) || !bends(
            root(spline).dir,
            spline.spec_start_dir(),
            spline.spec_end_dir(),
            threshold(min_cos),
        ),
{
    if !is_point_curve(spline) {
        let state = seq![Queued { short: root(spline), active: true }];
        let power = floor_log2(min_len as nat);
        let limit = threshold(min_cos);
        let made = round(spline, state, limit, power);
        lemma_root_is_chain(spline);
        assert(shorts_of(state) =~= seq![root(spline)]);
        assert(state[0].active);
        assert(has_active(state));
        assert(solve(spline, state, 0, limit, power) == solve(spline, made, 1, limit, power));
        assert(round_prefix(spline, state, 0, limit, power) =~= Seq::<Queued>::empty());
        if splits(spline, state, 0, limit) {
            assert(made.len() == 2);
            lemma_round_is_chain(spline, state, 0, limit, power);
            lemma_solve_is_chain(spline, made, 1, limit, power);
        } else {
            assert(made =~= seq![settled(state[0])]);
            assert(!has_active(made));
        }
    }
}

/// Flattening with a looser angle keeps a curve whole that a stricter angle
/// keeps whole, whatever the two length floors.
pub proof fn lemma_single_segment_is_monotone<S: IntCADSpline>(
    spline: &S,
    loose_cos: u32,
    strict_cos: u32,
    loose_len: u32,
    strict_len: u32,
)
    requires
        spline.in_range(),
        loose_cos <= strict_cos,
        flattening(spline, strict_cos, strict_len).len() == 1,
    ensures
        flattening(spline, loose_cos, loose_len).len() == 1,
{
    lemma_single_segment(spline, strict_cos, strict_len);
    lemma_single_segment(spline, loose_cos, loose_len);
    assert(threshold(loose_cos) <= threshold(strict_cos)) by (nonlinear_arith)
        requires
            loose_cos <= strict_cos,
    ;
}

/// The length floor counts by its power of two only: two floors with the
/// same binary logarithm give the same flattening.
pub proof fn lemma_length_floor_by_power<S: IntCADSpline>(
    spline: &S,
    min_cos: u32,
    min_len: u32,
    other_len: u32,
)
    requires
        floor_log2(min_len as nat) == floor_log2(other_len as nat),
    ensures
        flattening(spline, min_cos, min_len) == flattening(spline, min_cos, other_len),
{
}

} // verus!
