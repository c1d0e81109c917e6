//! What a certificate says of the point it is given for, and when one is due.
use crate::exact::{is_exact, larger, magnitude};
use crate::fixed_point::{
    coordinates_reached, goes_on, is_candidate, is_fresh,
    is_fresh_coordinate_solve, reached,
    CoordinateFixedPoint, CoordinateMeasure, CoordinatePhase, CycleMeasure, Event, FixedPoint,
    Phase, SaeSupportFixedPointReport,
};
use crate::scalar::Scalar;
use vstd::prelude::*;

verus! {

/// Both blocks are within `tolerance` of rest: neither the decoders nor the
/// coordinates have a Newton step left that is longer.
pub open spec fn is_at_rest<S: Scalar>(
    v: spec_fn(S) -> real,
    measure: CycleMeasure<S>,
    tolerance: S,
) -> bool {
    &&& v(measure.stationarity.decoder_scaled_max_abs) <= v(tolerance)
    &&& v(measure.stationarity.coordinate_scaled_max_abs) <= v(tolerance)
}

/// Two objectives agree to `tolerance`, relative to the first where that is above
/// one in magnitude.
pub open spec fn agree<S: Scalar>(v: spec_fn(S) -> real, x: S, y: S, tolerance: S) -> bool {
    magnitude(v(x) - v(y)) <= v(tolerance) * (if magnitude(v(x)) < 1 as real {
        1 as real
    } else {
        magnitude(v(x))
    })
}

/// The event measures a point.
pub open spec fn measures<S>(event: Event<S>, measure: CycleMeasure<S>) -> bool {
    event matches Event::Cycle(found) && found == measure
}

/// The event measures this objective, in a cycle or from scratch.
pub open spec fn measures_objective<S>(event: Event<S>, objective: S) -> bool {
    match event {
        Event::Cycle(found) => found.objective == objective,
        Event::Verified(found) => found.objective == objective,
        _ => false,
    }
}

/// Event `i` is a cycle at rest, and it agrees with an earlier measured objective.
pub open spec fn is_resting_cycle<S: Scalar>(
    v: spec_fn(S) -> real,
    events: Seq<Event<S>>,
    tolerance: S,
    measure: CycleMeasure<S>,
    i: int,
    h: int,
    earlier: S,
) -> bool {
    &&& 0 <= h < i < events.len()
    &&& measures(events[i], measure)
    &&& is_at_rest(v, measure, tolerance)
    &&& measures_objective(events[h], earlier)
    &&& agree(v, measure.objective, earlier, tolerance)
}

/// A resting cycle left this objective.
pub open spec fn rested<S: Scalar>(
    v: spec_fn(S) -> real,
    events: Seq<Event<S>>,
    tolerance: S,
    objective: S,
) -> bool {
    exists|measure: CycleMeasure<S>, i: int, h: int, earlier: S| #[trigger]
        is_resting_cycle(v, events, tolerance, measure, i, h, earlier) && measure.objective
            == objective
}

/// Event `k` re-evaluates the point from scratch: it is at rest, and agrees with a
/// resting cycle.
pub open spec fn is_confirmed_at<S: Scalar>(
    v: spec_fn(S) -> real,
    events: Seq<Event<S>>,
    tolerance: S,
    measure: CycleMeasure<S>,
    k: int,
    previous: S,
) -> bool {
    &&& 0 <= k < events.len()
    &&& events[k] matches Event::Verified(found) && {
        &&& found.objective == measure.objective
        &&& found.stationarity == measure.stationarity
    }
    &&& is_at_rest(v, measure, tolerance)
    &&& agree(v, measure.objective, previous, tolerance)
    &&& rested(v, events.take(k), tolerance, previous)
}

spec fn confirmed_somewhere<S: Scalar>(
    v: spec_fn(S) -> real,
    events: Seq<Event<S>>,
    tolerance: S,
    measure: CycleMeasure<S>,
) -> bool {
    exists|k: int, previous: S| #[trigger]
        is_confirmed_at(v, events, tolerance, measure, k, previous)
}

proof fn lemma_candidate<S: Scalar>(
    v: spec_fn(S) -> real,
    measure: CycleMeasure<S>,
    previous: Option<S>,
    tolerance: S,
)
    requires
        is_exact(v),
    ensures
        is_candidate(measure, previous, tolerance) <==> previous is Some && is_at_rest(
            v,
            measure,
            tolerance,
        ) && agree(v, measure.objective, previous->0, tolerance),
{
}

proof fn lemma_rested_longer<S: Scalar>(
    v: spec_fn(S) -> real,
    events: Seq<Event<S>>,
    tolerance: S,
    objective: S,
)
    requires
        events.len() > 0,
        rested(v, events.drop_last(), tolerance, objective),
    ensures
        rested(v, events, tolerance, objective),
{
    let before = events.drop_last();
    let (measure, i, h, earlier) = choose|measure: CycleMeasure<S>, i: int, h: int, earlier: S|
        #[trigger]
        is_resting_cycle(v, before, tolerance, measure, i, h, earlier) && measure.objective
            == objective;
    assert(is_resting_cycle(v, events, tolerance, measure, i, h, earlier));
}

proof fn lemma_confirmed_longer<S: Scalar>(
    v: spec_fn(S) -> real,
    events: Seq<Event<S>>,
    tolerance: S,
    measure: CycleMeasure<S>,
)
    requires
        events.len() > 0,
        confirmed_somewhere(v, events.drop_last(), tolerance, measure),
    ensures
        confirmed_somewhere(v, events, tolerance, measure),
{
    let before = events.drop_last();
    let (k, previous) = choose|k: int, previous: S| #[trigger]
        is_confirmed_at(v, before, tolerance, measure, k, previous);
    assert(before.take(k) =~= events.take(k));
    assert(is_confirmed_at(v, events, tolerance, measure, k, previous));
}

/// What a solve remembers, in terms of what it was told.
spec fn is_remembered<S: Scalar>(
    v: spec_fn(S) -> real,
    start: FixedPoint<S>,
    events: Seq<Event<S>>,
) -> bool {
    let s = reached(start, events);
    let measured = s.last_objective matches Some(x) ==> exists|h: int|
        0 <= h < events.len() && measures_objective(#[trigger] events[h], x);
    let resting = s.previous_candidate ==> s.last_objective is Some && rested(
        v,
        events,
        start.tolerance,
        s.last_objective->0,
    );
    match s.phase {
        Phase::Cycle => measured && resting,
        Phase::Verify(_) => measured && resting && s.previous_candidate,
        Phase::Plateau(_) => measured && resting,
        Phase::Extrapolate(_) => measured && resting,
        Phase::AtRest(measure) => confirmed_somewhere(v, events, start.tolerance, measure),
        Phase::Certified(report) => exists|measure: CycleMeasure<S>| #[trigger]
            confirmed_somewhere(v, events, start.tolerance, measure) && report.objective
                == measure.objective && report.stationarity == measure.stationarity,
        Phase::Exhausted => true,
    }
}

proof fn lemma_remembered<S: Scalar>(
    v: spec_fn(S) -> real,
    start: FixedPoint<S>,
    events: Seq<Event<S>>,
)
    requires
        is_exact(v),
        is_fresh(start),
    ensures
        reached(start, events).tolerance == start.tolerance,
        is_remembered(v, start, events),
    decreases events.len(),
{
    if events.len() > 0 {
        let before = events.drop_last();
        let event = events.last();
        let last = events.len() - 1;
        lemma_remembered(v, start, before);
        let s = reached(start, before);
        let t = reached(start, events);
        assert(t == s.after(event));
        assert(events.take(last) =~= before);
        if s.last_objective is Some {
            let x = s.last_objective->0;
            if exists|h: int| 0 <= h < before.len() && measures_objective(#[trigger] before[h], x) {
                let h = choose|h: int|
                    0 <= h < before.len() && measures_objective(#[trigger] before[h], x);
                assert(events[h] == before[h]);
            }
            if rested(v, before, start.tolerance, x) {
                lemma_rested_longer(v, events, start.tolerance, x);
            }
        }
        match (s.phase, event) {
            (Phase::Cycle, Event::Cycle(measure)) => {
                lemma_candidate(v, measure, s.last_objective, s.tolerance);
                assert(measures_objective(events[last], measure.objective));
                if is_candidate(measure, s.last_objective, s.tolerance) {
                    let x = s.last_objective->0;
                    let h = choose|h: int|
                        0 <= h < before.len() && measures_objective(#[trigger] before[h], x);
                    assert(events[h] == before[h]);
                    assert(is_resting_cycle(v, events, start.tolerance, measure, last, h, x));
                }
            },
            (Phase::Verify(change), Event::Verified(found)) => {
                let measure = CycleMeasure { max_change: change, ..found };
                lemma_candidate(v, measure, s.last_objective, s.tolerance);
                assert(measures_objective(events[last], measure.objective));
                if is_candidate(measure, s.last_objective, s.tolerance) {
                    assert(is_confirmed_at(
                        v,
                        events,
                        start.tolerance,
                        measure,
                        last,
                        s.last_objective->0,
                    ));
                    assert(confirmed_somewhere(v, events, start.tolerance, measure));
                }
            },
            (Phase::AtRest(measure), _) => {
                lemma_confirmed_longer(v, events, start.tolerance, measure);
            },
            (Phase::Certified(report), _) => {
                let measure = choose|measure: CycleMeasure<S>| #[trigger]
                    confirmed_somewhere(v, before, start.tolerance, measure) && report.objective
                        == measure.objective && report.stationarity == measure.stationarity;
                lemma_confirmed_longer(v, events, start.tolerance, measure);
            },
            _ => {},
        }
    }
}

/// A certified point is stationary in both blocks: neither the decoders' nor the
/// coordinates' scaled gradient is above the tolerance. What is reported was measured
/// from scratch; it agrees with a cycle before it that was at rest in both blocks too,
/// and that cycle agrees with an objective measured before it.
pub proof fn law_a_certified_point_is_stationary_in_both_blocks<S: Scalar>(
    v: spec_fn(S) -> real,
    start: FixedPoint<S>,
    events: Seq<Event<S>>,
    report: SaeSupportFixedPointReport<S>,
)
    requires
        is_exact(v),
        is_fresh(start),
        reached(start, events).phase == Phase::Certified(report),
    ensures
        v(report.stationarity.decoder_scaled_max_abs) <= v(start.tolerance),
        v(report.stationarity.coordinate_scaled_max_abs) <= v(start.tolerance),
        exists|measure: CycleMeasure<S>, k: int, previous: S| #[trigger]
            is_confirmed_at(v, events, start.tolerance, measure, k, previous) && report.objective
                == measure.objective && report.stationarity == measure.stationarity,
{
    lemma_remembered(v, start, events);
    let measure = choose|measure: CycleMeasure<S>| #[trigger]
        confirmed_somewhere(v, events, start.tolerance, measure) && report.objective
            == measure.objective && report.stationarity == measure.stationarity;
    let (k, previous) = choose|k: int, previous: S| #[trigger]
        is_confirmed_at(v, events, start.tolerance, measure, k, previous);
    assert(is_confirmed_at(v, events, start.tolerance, measure, k, previous));
}

/// A larger number is no smaller than either, among finite numbers.
pub open spec fn larger_bounds_both<S: Scalar>() -> bool {
    forall|x: S, y: S, b: S|
        x.s_finite() && y.s_finite() && #[trigger] x.s_larger(y).s_at_most(b) ==> x.s_at_most(b)
            && y.s_at_most(b)
}

/// Without exact arithmetic too: where the number type is ordered, a certified point
/// whose scaled gradients are finite has neither of them above the tolerance.
pub proof fn law_a_certified_point_is_stationary_in_any_order<S: Scalar>(
    start: FixedPoint<S>,
    events: Seq<Event<S>>,
    report: SaeSupportFixedPointReport<S>,
)
    requires
        larger_bounds_both::<S>(),
        is_fresh(start),
        reached(start, events).phase == Phase::Certified(report),
        report.stationarity.decoder_scaled_max_abs.s_finite(),
        report.stationarity.coordinate_scaled_max_abs.s_finite(),
    ensures
        report.stationarity.decoder_scaled_max_abs.s_at_most(start.tolerance),
        report.stationarity.coordinate_scaled_max_abs.s_at_most(start.tolerance),
{
    crate::fixed_point::law_certificate_needs_two_cycles(start, events, report);
    let x = report.stationarity.decoder_scaled_max_abs;
    let y = report.stationarity.coordinate_scaled_max_abs;
    assert(x.s_larger(y).s_at_most(start.tolerance));
}

/// The fixed-point numbers are ordered.
pub proof fn law_fixed_numbers_have_a_larger_one()
    ensures
        larger_bounds_both::<crate::fixed::Fixed>(),
{
}

/// A certificate is due: a solve that moves no support is certified on its third
/// cycle, where three cycles and a re-evaluation of the last agree in pairs and the
/// last two cycles and the re-evaluation are at rest in both blocks.
pub proof fn law_a_certificate_is_given_when_due<S: Scalar>(
    v: spec_fn(S) -> real,
    start: FixedPoint<S>,
    first: CycleMeasure<S>,
    second: CycleMeasure<S>,
    third: CycleMeasure<S>,
    found: CycleMeasure<S>,
)
    requires
        is_exact(v),
        is_fresh(start),
        start.support_k == 0,
        start.max_iter >= 3,
        is_at_rest(v, second, start.tolerance),
        is_at_rest(v, third, start.tolerance),
        is_at_rest(v, found, start.tolerance),
        agree(v, second.objective, first.objective, start.tolerance),
        agree(v, third.objective, second.objective, start.tolerance),
        agree(v, found.objective, second.objective, start.tolerance),
    ensures
        reached(
            start,
            seq![
                Event::Cycle(first),
                Event::Extrapolated(None),
                Event::Cycle(second),
                Event::Extrapolated(None),
                Event::Cycle(third),
                Event::Verified(found),
            ],
        ).phase == Phase::Certified(
            SaeSupportFixedPointReport {
                iterations: 3,
                objective: found.objective,
                stationarity: found.stationarity,
                max_recurrence_change: third.max_change,
                recurred: true,
            },
        ),
{
    let e0 = Event::Cycle(first);
    let e1 = Event::Extrapolated(None::<S>);
    let e2 = Event::Cycle(second);
    let e4 = Event::Cycle(third);
    let e5 = Event::Verified(found);
    let s6 = seq![e0, e1, e2, e1, e4, e5];
    let s5 = seq![e0, e1, e2, e1, e4];
    let s4 = seq![e0, e1, e2, e1];
    let s3 = seq![e0, e1, e2];
    let s2 = seq![e0, e1];
    let s1 = seq![e0];
    assert(s6.drop_last() =~= s5);
    assert(s5.drop_last() =~= s4);
    assert(s4.drop_last() =~= s3);
    assert(s3.drop_last() =~= s2);
    assert(s2.drop_last() =~= s1);
    assert(s1.drop_last() =~= Seq::<Event<S>>::empty());
    reveal_with_fuel(reached, 8);
    let t0 = start;
    let t1 = t0.after(e0);
    lemma_candidate(v, first, t0.last_objective, start.tolerance);
    assert(reached(start, s1) == t1);
    assert(t1.phase is Extrapolate);
    let t2 = t1.after(e1);
    assert(reached(start, s2) == t2);
    assert(t2.phase is Cycle);
    lemma_candidate(v, second, t2.last_objective, start.tolerance);
    let t3 = t2.after(e2);
    assert(reached(start, s3) == t3);
    assert(t3.phase is Extrapolate && t3.previous_candidate);
    let t4 = t3.after(e1);
    assert(reached(start, s4) == t4);
    lemma_candidate(v, third, t4.last_objective, start.tolerance);
    let t5 = t4.after(e4);
    assert(reached(start, s5) == t5);
    assert(t5.phase == Phase::Verify(third.max_change));
    let measure = CycleMeasure { max_change: third.max_change, ..found };
    lemma_candidate(v, measure, t5.last_objective, start.tolerance);
    assert(reached(start, s6) == t5.after(e5));
}

/// A frozen-decoder certificate is given on a cycle if and only if that cycle and the
/// one before it each agree with the objective before them, with the largest
/// coordinate gradient within the tolerance of the objective's scale. The report is the
/// last cycle's measure.
pub proof fn law_a_coordinate_certificate_is_two_resting_cycles<S: Scalar>(
    v: spec_fn(S) -> real,
    start: CoordinateFixedPoint<S>,
    found: Seq<CoordinateMeasure<S>>,
)
    requires
        is_exact(v),
        is_fresh_coordinate_solve(start),
        goes_on(start, found),
        found.len() >= 3,
    ensures
        ({
            let n = found.len() as int;
            let rests = |i: int|
                agree(v, found[i].objective, found[i - 1].objective, start.tolerance) && v(
                    found[i].coordinate_max_abs,
                ) <= v(start.tolerance) * (if magnitude(v(found[i].objective)) < 1 as real {
                    1 as real
                } else {
                    magnitude(v(found[i].objective))
                });
            match coordinates_reached(start, found).phase {
                CoordinatePhase::Certified(report) => {
                    &&& rests(n - 1) && rests(n - 2)
                    &&& report.iterations == n
                    &&& report.objective == found[n - 1].objective
                    &&& report.coordinate_l2 == found[n - 1].coordinate_l2
                    &&& report.coordinate_max_abs == found[n - 1].coordinate_max_abs
                    &&& report.max_recurrence_change == found[n - 1].max_change
                    &&& report.recurred
                },
                _ => !(rests(n - 1) && rests(n - 2)),
            }
        }),
{
    let n = found.len() as int;
    let before = found.drop_last();
    assert(found.take(n - 1) =~= before);
    assert forall|j: int| 0 <= j < before.len() implies coordinates_reached(
        start,
        #[trigger] before.take(j),
    ).phase is Cycle by {
        assert(before.take(j) =~= found.take(j));
    }
    crate::fixed_point::lemma_coordinates_reached(start, before);
    crate::fixed_point::lemma_coordinates_reached(start, found);
    let s = coordinates_reached(start, before);
    assert(coordinates_reached(start, found) == s.after(found.last()));
    assert(before[n - 2] == found[n - 2]);
    assert(before[n - 3] == found[n - 3]);
    assert(coordinates_reached(start, found.take(n - 1)).phase is Cycle);
}

/// An extrapolated step is counted if and only if it lowers the objective that the
/// cycle measured; either way the solve goes on to its next cycle, or ends.
pub proof fn law_an_extrapolation_is_kept_only_if_it_pays<S: Scalar>(
    v: spec_fn(S) -> real,
    solve: FixedPoint<S>,
    measure: CycleMeasure<S>,
    trial: Option<S>,
)
    requires
        is_exact(v),
        solve.wf(),
        solve.phase == Phase::Extrapolate(measure),
    ensures
        ({
            let next = solve.after(Event::Extrapolated(trial));
            &&& next.accepted_extrapolations == solve.accepted_extrapolations + (if trial is Some
                && v(trial->0) < v(measure.objective) {
                1int
            } else {
                0int
            })
            &&& next.last_objective == solve.last_objective
            &&& if solve.iteration < solve.max_iter {
                next.phase is Cycle && next.iteration == solve.iteration + 1
            } else {
                next.phase is Exhausted
            }
        }),
{
}

/// A support move is proposed on a plateau if and only if the supports may move, enough
/// cycles have passed since the last move, and the objective is above all but half a
/// percent of what it was then.
pub proof fn law_a_plateau_is_a_stretch_without_progress<S: Scalar>(
    v: spec_fn(S) -> real,
    solve: FixedPoint<S>,
    measure: CycleMeasure<S>,
)
    requires
        is_exact(v),
        solve.wf(),
        solve.phase is Cycle,
        solve.iteration > 1,
        !solve.previous_candidate,
    ensures
        ({
            let next = solve.after(Event::Cycle(measure));
            &&& next.phase == (if solve.support_k > 0 && solve.iteration
                >= solve.last_reroute_cycle + 25 && 1000 as real * v(measure.objective)
                > 995 as real * v(solve.objective_at_last_reroute) {
                Phase::Plateau(measure)
            } else {
                Phase::Extrapolate(measure)
            })
            &&& next.last_objective == Some(measure.objective)
        }),
{
    let share = S::s_one().s_minus(crate::scalar::s_ratio::<S>(5, 1000));
    assert(v(S::s_count(5)) == 5 as real);
    assert(v(S::s_count(1000)) == 1000 as real);
    assert(v(crate::scalar::s_ratio::<S>(5, 1000)) == 5 as real / 1000 as real);
    let s = v(share);
    assert(1000 as real * s == 995 as real);
    let x = v(solve.objective_at_last_reroute);
    assert(1000 as real * (x * s) == (1000 as real * s) * x) by (nonlinear_arith);
}

} // verus!
