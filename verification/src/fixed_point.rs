//! The alternating solve and its certificate.
//!
//! A solve alternates work that is done elsewhere (a sweep over the decoders and
//! the coordinates, a re-evaluation from scratch, a proposal of another support,
//! an extrapolated step) with decisions that are made here: whether a cycle is a
//! candidate, when a point is certified, which moves are accepted, and when the
//! solve gives up.
use crate::active::ShapeError;
use crate::assignment::AssignmentMode;
use crate::matrix::Matrix;
use crate::scalar::{ratio, s_ratio, Scalar};
use crate::stationarity::SaeSupportStationarity;
use crate::term::SaeSupportSparseTerm;
use vstd::prelude::*;

verus! {

/// How many cycles pass before a plateau proposes another support.
pub const PLATEAU_CYCLES: usize = 25;

/// Why a solve does not begin.
#[derive(Clone, Copy, Debug, PartialEq, Eq)]
pub enum SolveFault {
    Target(ShapeError),
    /// The cycle budget is zero, or the tolerance is not finite and positive.
    Budget,
}

/// What one cycle measures.
#[derive(Clone, Copy, Debug)]
pub struct CycleMeasure<S> {
    pub objective: S,
    pub stationarity: SaeSupportStationarity<S>,
    pub max_change: S,
}

/// A certified point.
#[derive(Clone, Copy, Debug)]
pub struct SaeSupportFixedPointReport<S> {
    pub iterations: usize,
    pub objective: S,
    pub stationarity: SaeSupportStationarity<S>,
    pub max_recurrence_change: S,
    pub recurred: bool,
}

/// What the solve waits for.
#[derive(Clone, Copy, Debug)]
pub enum Phase<S> {
    /// The next cycle's measure.
    Cycle,
    /// The same cycle's measure, re-evaluated from scratch; the cycle's change is
    /// kept.
    Verify(S),
    /// A support move proposed at a certified point.
    AtRest(CycleMeasure<S>),
    /// A support move proposed on a plateau.
    Plateau(CycleMeasure<S>),
    /// An extrapolated step.
    Extrapolate(CycleMeasure<S>),
    /// Nothing: the point is certified.
    Certified(SaeSupportFixedPointReport<S>),
    /// Nothing: the budget is spent.
    Exhausted,
}

/// What the extrapolation leaves to be done.
#[derive(Clone, Copy, Debug, PartialEq, Eq, Structural)]
pub enum StepTaken {
    /// The plain cycle's step was taken.
    Plain,
    /// The extrapolated step was taken.
    Extrapolated,
    /// The extrapolated step was refused: the plain iterate is restored and the
    /// extrapolation's history dropped.
    Restored,
}

/// The scale an objective is compared on, never below one.
pub open spec fn s_kkt_scale<S: Scalar>(objective: S) -> S {
    objective.s_magnitude().s_larger(S::s_one())
}

/// An objective agrees with the previous one.
pub open spec fn recurs<S: Scalar>(objective: S, previous: Option<S>, tolerance: S) -> bool {
    previous is Some && objective.s_minus(previous->0).s_magnitude().s_at_most(
        tolerance.s_times(s_kkt_scale(objective)),
    )
}

fn objective_recurs<S: Scalar>(objective: S, previous: Option<S>, tolerance: S) -> (r: bool)
    ensures
        r == recurs(objective, previous, tolerance),
{
    match previous {
        Some(value) => {
            let scale: S = objective.magnitude().larger(S::one());
            objective.minus(value).magnitude().at_most(tolerance.times(scale))
        },
        None => false,
    }
}

/// A cycle whose objective recurs and whose scaled gradient is within tolerance.
pub open spec fn is_candidate<S: Scalar>(
    measure: CycleMeasure<S>,
    previous: Option<S>,
    tolerance: S,
) -> bool {
    &&& recurs(measure.objective, previous, tolerance)
    &&& measure.stationarity.s_scaled_max_abs().s_at_most(tolerance)
}

/// An alternating solve.
#[derive(Clone, Copy, Debug)]
pub struct FixedPoint<S> {
    pub max_iter: usize,
    pub tolerance: S,
    /// The support size of a top-k assignment, zero for the other kinds.
    pub support_k: usize,
    /// The cycle under way, counted from one.
    pub iteration: usize,
    pub last_objective: Option<S>,
    pub previous_candidate: bool,
    pub last_reroute_cycle: usize,
    pub objective_at_last_reroute: S,
    pub accepted_extrapolations: usize,
    pub phase: Phase<S>,
}

/// What happens to a solve.
pub enum Event<S> {
    Cycle(CycleMeasure<S>),
    Verified(CycleMeasure<S>),
    MovedAtRest(S),
    /// The proposal's objective, if it could be polished.
    MovedOnPlateau(Option<S>),
    /// The extrapolated objective, if there was a proposal.
    Extrapolated(Option<S>),
}

impl<S: Scalar> FixedPoint<S> {
    pub open spec fn wf(&self) -> bool {
        &&& 1 <= self.iteration <= self.max_iter
        &&& self.last_reroute_cycle <= self.iteration
        &&& self.accepted_extrapolations <= self.iteration
        &&& !(self.phase is Exhausted) ==> self.accepted_extrapolations < self.iteration
        &&& self.previous_candidate ==> self.last_objective is Some
    }

    /// How much of the solve is left: every event lowers it.
    pub open spec fn fuel(&self) -> int {
        5 * (self.max_iter - self.iteration) + match self.phase {
            Phase::Cycle => 5int,
            Phase::Verify(_) => 4,
            Phase::AtRest(_) => 3,
            Phase::Plateau(_) => 3,
            Phase::Extrapolate(_) => 2,
            Phase::Certified(_) => 0,
            Phase::Exhausted => 0,
        }
    }

    /// The report of the current cycle.
    pub open spec fn report(&self, measure: CycleMeasure<S>) -> SaeSupportFixedPointReport<S> {
        SaeSupportFixedPointReport {
            iterations: self.iteration,
            objective: measure.objective,
            stationarity: measure.stationarity,
            max_recurrence_change: measure.max_change,
            recurred: true,
        }
    }

    /// The solve at the start of its next cycle, or at the end of its budget.
    pub open spec fn onward(&self) -> FixedPoint<S> {
        if self.iteration >= self.max_iter {
            FixedPoint { phase: Phase::Exhausted, ..*self }
        } else {
            FixedPoint { phase: Phase::Cycle, iteration: (self.iteration + 1) as usize, ..*self }
        }
    }

    /// The objective a plateau is measured from, in the current cycle.
    pub open spec fn baseline(&self, objective: S) -> S {
        if self.iteration == 1 {
            objective
        } else {
            self.objective_at_last_reroute
        }
    }

    /// A support move is due: enough cycles have passed since the last one, and
    /// the objective has hardly moved.
    pub open spec fn on_plateau(&self, objective: S) -> bool {
        &&& self.iteration >= self.last_reroute_cycle + PLATEAU_CYCLES
        &&& self.baseline(objective).s_times(
            S::s_one().s_minus(s_ratio::<S>(5, 1000)),
        ).s_below(objective)
        &&& self.support_k > 0
    }

    /// The solve after a cycle that is not certified.
    pub open spec fn settled(&self, measure: CycleMeasure<S>, candidate: bool) -> FixedPoint<S> {
        let plateau = self.on_plateau(measure.objective);
        FixedPoint {
            last_objective: Some(measure.objective),
            previous_candidate: candidate,
            last_reroute_cycle: if plateau {
                self.iteration
            } else {
                self.last_reroute_cycle
            },
            objective_at_last_reroute: if plateau {
                measure.objective
            } else {
                self.baseline(measure.objective)
            },
            phase: if plateau {
                Phase::Plateau(measure)
            } else {
                Phase::Extrapolate(measure)
            },
            ..*self
        }
    }

    /// The solve on another support: nothing measured before holds any more.
    pub open spec fn restarted(&self) -> FixedPoint<S> {
        FixedPoint { last_objective: None, previous_candidate: false, ..*self }.onward()
    }

    /// The solve after an event. An event that the solve does not wait for
    /// changes nothing.
    pub open spec fn after(&self, event: Event<S>) -> FixedPoint<S> {
        match (self.phase, event) {
            (Phase::Cycle, Event::Cycle(measure)) => {
                let candidate = is_candidate(measure, self.last_objective, self.tolerance);
                if candidate && self.previous_candidate {
                    FixedPoint { phase: Phase::Verify(measure.max_change), ..*self }
                } else {
                    self.settled(measure, candidate)
                }
            },
            (Phase::Verify(change), Event::Verified(found)) => {
                let measure = CycleMeasure { max_change: change, ..found };
                if !is_candidate(measure, self.last_objective, self.tolerance) {
                    self.settled(measure, false)
                } else {
                    FixedPoint {
                        last_objective: Some(measure.objective),
                        phase: if self.support_k > 0 {
                            Phase::AtRest(measure)
                        } else {
                            Phase::Certified(self.report(measure))
                        },
                        ..*self
                    }
                }
            },
            (Phase::AtRest(measure), Event::MovedAtRest(moved)) => {
                if moved.s_below(measure.objective) {
                    FixedPoint {
                        last_reroute_cycle: self.iteration,
                        objective_at_last_reroute: moved,
                        ..*self
                    }.restarted()
                } else {
                    FixedPoint { phase: Phase::Certified(self.report(measure)), ..*self }
                }
            },
            (Phase::Plateau(measure), Event::MovedOnPlateau(moved)) => {
                if moved is Some && moved->0.s_below(measure.objective) {
                    self.restarted()
                } else {
                    FixedPoint { phase: Phase::Extrapolate(measure), ..*self }
                }
            },
            (Phase::Extrapolate(measure), Event::Extrapolated(trial)) => {
                if trial is Some && trial->0.s_below(measure.objective) {
                    FixedPoint {
                        accepted_extrapolations: (self.accepted_extrapolations + 1) as usize,
                        ..*self
                    }.onward()
                } else {
                    self.onward()
                }
            },
            _ => *self,
        }
    }

    fn go_on(&mut self)
        requires
            1 <= old(self).iteration <= old(self).max_iter,
        ensures
            *final(self) == old(self).onward(),
    {
        if self.iteration >= self.max_iter {
            self.phase = Phase::Exhausted;
        } else {
            self.iteration = self.iteration + 1;
            self.phase = Phase::Cycle;
        }
    }

    fn settle(&mut self, measure: CycleMeasure<S>, candidate: bool)
        requires
            1 <= old(self).iteration <= old(self).max_iter,
            old(self).last_reroute_cycle <= old(self).iteration,
        ensures
            *final(self) == old(self).settled(measure, candidate),
    {
        self.last_objective = Some(measure.objective);
        self.previous_candidate = candidate;
        if self.iteration == 1 {
            self.objective_at_last_reroute = measure.objective;
        }
        let floor: S = self.objective_at_last_reroute.times(S::one().minus(ratio::<S>(5, 1000)));
        let overdue: bool = self.iteration - self.last_reroute_cycle >= PLATEAU_CYCLES;
        if overdue && floor.below(measure.objective) && self.support_k > 0 {
            self.last_reroute_cycle = self.iteration;
            self.objective_at_last_reroute = measure.objective;
            self.phase = Phase::Plateau(measure);
        } else {
            self.phase = Phase::Extrapolate(measure);
        }
    }

    /// Takes a cycle's measure.
    pub fn cycle(&mut self, measure: CycleMeasure<S>)
        requires
            old(self).wf(),
            old(self).phase is Cycle,
        ensures
            final(self).wf(),
            *final(self) == old(self).after(Event::Cycle(measure)),
            final(self).fuel() < old(self).fuel(),
    {
        let candidate: bool = objective_recurs(
            measure.objective,
            self.last_objective,
            self.tolerance,
        ) && measure.stationarity.scaled_max_abs().at_most(self.tolerance);
        if candidate && self.previous_candidate {
            self.phase = Phase::Verify(measure.max_change);
        } else {
            self.settle(measure, candidate);
        }
    }

    /// Takes the measure of the same cycle, re-evaluated from scratch. A cycle
    /// whose maintained state had drifted is no candidate after all.
    pub fn verified(&mut self, found: CycleMeasure<S>)
        requires
            old(self).wf(),
            old(self).phase is Verify,
        ensures
            final(self).wf(),
            *final(self) == old(self).after(Event::Verified(found)),
            final(self).fuel() < old(self).fuel(),
    {
        if let Phase::Verify(change) = self.phase {
            let measure = CycleMeasure {
                objective: found.objective,
                stationarity: found.stationarity,
                max_change: change,
            };
            let candidate: bool = objective_recurs(
                measure.objective,
                self.last_objective,
                self.tolerance,
            ) && measure.stationarity.scaled_max_abs().at_most(self.tolerance);
            if !candidate {
                self.settle(measure, false);
            } else {
                self.last_objective = Some(measure.objective);
                if self.support_k > 0 {
                    self.phase = Phase::AtRest(measure);
                } else {
                    self.certify(measure);
                }
            }
        }
    }

    fn certify(&mut self, measure: CycleMeasure<S>)
        ensures
            *final(self) == (FixedPoint {
                phase: Phase::Certified(old(self).report(measure)),
                ..*old(self)
            }),
    {
        self.phase = Phase::Certified(
            SaeSupportFixedPointReport {
                iterations: self.iteration,
                objective: measure.objective,
                stationarity: measure.stationarity,
                max_recurrence_change: measure.max_change,
                recurred: true,
            },
        );
    }

    /// Takes the objective of a polished support move, proposed at rest. The move
    /// is accepted, and `true` returned, only if it lowers the objective;
    /// otherwise the point is certified.
    pub fn moved_at_rest(&mut self, moved: S) -> (accepted: bool)
        requires
            old(self).wf(),
            old(self).phase is AtRest,
        ensures
            final(self).wf(),
            *final(self) == old(self).after(Event::MovedAtRest(moved)),
            accepted == moved.s_below(old(self).phase->AtRest_0.objective),
            final(self).fuel() < old(self).fuel(),
    {
        if let Phase::AtRest(measure) = self.phase {
            if moved.below(measure.objective) {
                self.last_reroute_cycle = self.iteration;
                self.objective_at_last_reroute = moved;
                self.last_objective = None;
                self.previous_candidate = false;
                self.go_on();
                return true;
            }
            self.certify(measure);
        }
        false
    }

    /// Takes the objective of a support move proposed on a plateau, if it could
    /// be polished. The move is accepted, and `true` returned, only if it lowers
    /// the objective.
    pub fn moved_on_plateau(&mut self, moved: Option<S>) -> (accepted: bool)
        requires
            old(self).wf(),
            old(self).phase is Plateau,
        ensures
            final(self).wf(),
            *final(self) == old(self).after(Event::MovedOnPlateau(moved)),
            accepted == (moved is Some && moved->0.s_below(
                old(self).phase->Plateau_0.objective,
            )),
            final(self).fuel() < old(self).fuel(),
    {
        if let Phase::Plateau(measure) = self.phase {
            if let Some(value) = moved {
                if value.below(measure.objective) {
                    self.last_objective = None;
                    self.previous_candidate = false;
                    self.go_on();
                    return true;
                }
            }
            self.phase = Phase::Extrapolate(measure);
        }
        false
    }

    /// Takes the objective at an extrapolated point, if a step was proposed. The
    /// step is taken only if it lowers the objective.
    pub fn extrapolated(&mut self, trial: Option<S>) -> (taken: StepTaken)
        requires
            old(self).wf(),
            old(self).phase is Extrapolate,
        ensures
            final(self).wf(),
            *final(self) == old(self).after(Event::Extrapolated(trial)),
            taken == (match trial {
                None => StepTaken::Plain,
                Some(value) => if value.s_below(old(self).phase->Extrapolate_0.objective) {
                    StepTaken::Extrapolated
                } else {
                    StepTaken::Restored
                },
            }),
            final(self).fuel() < old(self).fuel(),
    {
        let mut taken = StepTaken::Plain;
        if let Phase::Extrapolate(measure) = self.phase {
            if let Some(value) = trial {
                if value.below(measure.objective) {
                    self.accepted_extrapolations = self.accepted_extrapolations + 1;
                    taken = StepTaken::Extrapolated;
                } else {
                    taken = StepTaken::Restored;
                }
            }
            self.go_on();
        }
        taken
    }
}

/// Why a solve does not begin.
pub open spec fn solve_fault<S: Scalar>(
    term: &SaeSupportSparseTerm<S>,
    target: &Matrix<S>,
    max_iter: usize,
    tolerance: S,
) -> Option<SolveFault> {
    if target.nrows() != term.rows() || target.ncols() != term.width() {
        Some(
            SolveFault::Target(
                ShapeError {
                    found: (target.nrows() as usize, target.ncols() as usize),
                    expected: (term.rows() as usize, term.width() as usize),
                },
            ),
        )
    } else if max_iter == 0 || !(tolerance.s_finite() && S::s_zero().s_below(tolerance)) {
        Some(SolveFault::Budget)
    } else {
        None
    }
}

fn check_solve<S: Scalar>(
    term: &SaeSupportSparseTerm<S>,
    target: &Matrix<S>,
    max_iter: usize,
    tolerance: S,
) -> (r: Option<SolveFault>)
    requires
        term.wf(),
        target.wf(),
    ensures
        r == solve_fault(term, target, max_iter, tolerance),
{
    let found: (usize, usize) = (target.row_count(), target.col_count());
    let expected: (usize, usize) = (term.n_obs(), term.output_dim());
    if found.0 != expected.0 || found.1 != expected.1 {
        return Some(SolveFault::Target(ShapeError { found, expected }));
    }
    if max_iter == 0 || !(tolerance.finite() && S::zero().below(tolerance)) {
        return Some(SolveFault::Budget);
    }
    None
}

/// The solve after a series of events.
pub open spec fn reached<S: Scalar>(start: FixedPoint<S>, events: Seq<Event<S>>) -> FixedPoint<S>
    decreases events.len(),
{
    if events.len() == 0 {
        start
    } else {
        reached(start, events.drop_last()).after(events.last())
    }
}

/// Event `j` is a cycle that was a candidate when it was measured.
pub open spec fn candidate_cycle<S: Scalar>(
    start: FixedPoint<S>,
    events: Seq<Event<S>>,
    j: int,
) -> bool {
    &&& 0 <= j < events.len()
    &&& reached(start, events.take(j)).phase is Cycle
    &&& events[j] matches Event::Cycle(measure) && is_candidate(
        measure,
        reached(start, events.take(j)).last_objective,
        start.tolerance,
    )
}

/// Event `j` re-evaluates a cycle from scratch and finds it a candidate.
pub open spec fn candidate_verified<S: Scalar>(
    start: FixedPoint<S>,
    events: Seq<Event<S>>,
    j: int,
    measure: CycleMeasure<S>,
) -> bool {
    &&& 0 <= j < events.len()
    &&& reached(start, events.take(j)).phase is Verify
    &&& events[j] matches Event::Verified(found) && {
        &&& measure.objective == found.objective
        &&& measure.stationarity == found.stationarity
    }
    &&& is_candidate(measure, reached(start, events.take(j)).last_objective, start.tolerance)
}

/// The cycle before the current one was a candidate.
pub open spec fn preceded<S: Scalar>(start: FixedPoint<S>, events: Seq<Event<S>>, at: int) -> bool {
    exists|j: int| #[trigger]
        candidate_cycle(start, events, j) && reached(start, events.take(j)).iteration + 1 == at
}

/// The current cycle was found a candidate from scratch.
pub open spec fn confirmed<S: Scalar>(
    start: FixedPoint<S>,
    events: Seq<Event<S>>,
    at: int,
    measure: CycleMeasure<S>,
) -> bool {
    exists|j: int| #[trigger]
        candidate_verified(start, events, j, measure) && reached(start, events.take(j)).iteration
            == at
}

/// What the flags of a solve stand for.
pub open spec fn is_witnessed<S: Scalar>(start: FixedPoint<S>, events: Seq<Event<S>>) -> bool {
    let s = reached(start, events);
    match s.phase {
        Phase::Cycle => s.previous_candidate ==> preceded(start, events, s.iteration as int),
        Phase::Verify(_) => s.previous_candidate && preceded(start, events, s.iteration as int),
        Phase::AtRest(measure) => {
            &&& s.previous_candidate
            &&& preceded(start, events, s.iteration as int)
            &&& confirmed(start, events, s.iteration as int, measure)
        },
        Phase::Plateau(_) => s.previous_candidate ==> preceded(
            start,
            events,
            s.iteration + 1,
        ),
        Phase::Extrapolate(_) => s.previous_candidate ==> preceded(
            start,
            events,
            s.iteration + 1,
        ),
        Phase::Certified(report) => {
            &&& report.recurred
            &&& preceded(start, events, report.iterations as int)
            &&& exists|measure: CycleMeasure<S>| #[trigger]
                confirmed(start, events, report.iterations as int, measure) && report.objective
                    == measure.objective && report.stationarity == measure.stationarity
        },
        Phase::Exhausted => true,
    }
}

proof fn lemma_preceded_longer<S: Scalar>(
    start: FixedPoint<S>,
    events: Seq<Event<S>>,
    at: int,
)
    requires
        events.len() > 0,
        preceded(start, events.drop_last(), at),
    ensures
        preceded(start, events, at),
{
    let before = events.drop_last();
    let j = choose|j: int| #[trigger]
        candidate_cycle(start, before, j) && reached(start, before.take(j)).iteration + 1 == at;
    assert(before.take(j) =~= events.take(j));
    assert(candidate_cycle(start, events, j));
}

proof fn lemma_confirmed_longer<S: Scalar>(
    start: FixedPoint<S>,
    events: Seq<Event<S>>,
    at: int,
    measure: CycleMeasure<S>,
)
    requires
        events.len() > 0,
        confirmed(start, events.drop_last(), at, measure),
    ensures
        confirmed(start, events, at, measure),
{
    let before = events.drop_last();
    let j = choose|j: int| #[trigger]
        candidate_verified(start, before, j, measure) && reached(start, before.take(j)).iteration
            == at;
    assert(before.take(j) =~= events.take(j));
    assert(candidate_verified(start, events, j, measure));
}

proof fn lemma_witnessed<S: Scalar>(start: FixedPoint<S>, events: Seq<Event<S>>)
    requires
        start.wf(),
        start.phase is Cycle,
        !start.previous_candidate,
    ensures
        reached(start, events).wf(),
        reached(start, events).tolerance == start.tolerance,
        reached(start, events).max_iter == start.max_iter,
        is_witnessed(start, events),
    decreases events.len(),
{
    if events.len() > 0 {
        let before = events.drop_last();
        let event = events.last();
        lemma_witnessed(start, before);
        let s = reached(start, before);
        let t = reached(start, events);
        let last = events.len() - 1;
        assert(events.take(last) =~= before);
        assert(t == s.after(event));
        let at = s.iteration as int;
        if preceded(start, before, at) {
            lemma_preceded_longer(start, events, at);
        }
        if preceded(start, before, at + 1) {
            lemma_preceded_longer(start, events, at + 1);
        }
        match (s.phase, event) {
            (Phase::Cycle, Event::Cycle(measure)) => {
                if is_candidate(measure, s.last_objective, s.tolerance) {
                    assert(candidate_cycle(start, events, last));
                    assert(preceded(start, events, at + 1));
                }
                assert(is_witnessed(start, events));
            },
            (Phase::Verify(change), Event::Verified(found)) => {
                let measure = CycleMeasure { max_change: change, ..found };
                if is_candidate(measure, s.last_objective, s.tolerance) {
                    assert(candidate_verified(start, events, last, measure));
                    assert(confirmed(start, events, at, measure));
                    let report = s.report(measure);
                    assert(confirmed(start, events, report.iterations as int, measure));
                    assert(preceded(start, events, report.iterations as int));
                    assert(is_witnessed(start, events));
                } else {
                    assert(is_witnessed(start, events));
                }
            },
            (Phase::AtRest(measure), _) => {
                lemma_confirmed_longer(start, events, at, measure);
                let report = s.report(measure);
                assert(confirmed(start, events, report.iterations as int, measure));
                match event {
                    Event::MovedAtRest(moved) => {
                        if moved.s_below(measure.objective) {
                            assert(!t.previous_candidate);
                            assert(t.phase is Cycle || t.phase is Exhausted);
                            assert(is_witnessed(start, events));
                        } else {
                            assert(t.phase == Phase::Certified(report));
                            assert(preceded(start, events, report.iterations as int));
                            assert(is_witnessed(start, events));
                        }
                    },
                    _ => {
                        assert(t == s);
                        assert(is_witnessed(start, events));
                    },
                }
            },
            (Phase::Certified(report), _) => {
                lemma_preceded_longer(start, events, report.iterations as int);
                let measure = choose|measure: CycleMeasure<S>| #[trigger]
                    confirmed(start, before, report.iterations as int, measure)
                        && report.objective == measure.objective && report.stationarity
                        == measure.stationarity;
                lemma_confirmed_longer(start, events, report.iterations as int, measure);
                assert(is_witnessed(start, events));
            },
            _ => {
                assert(is_witnessed(start, events));
            },
        }
    }
}

/// A solve that has measured nothing yet.
pub open spec fn is_fresh<S: Scalar>(start: FixedPoint<S>) -> bool {
    &&& start.wf()
    &&& start.phase is Cycle
    &&& start.iteration == 1
    &&& start.last_objective is None
    &&& !start.previous_candidate
}

/// In its first cycle a solve has no objective to compare with.
proof fn lemma_first_cycle<S: Scalar>(start: FixedPoint<S>, events: Seq<Event<S>>)
    requires
        is_fresh(start),
    ensures
        ({
            let s = reached(start, events);
            s.phase is Cycle && s.last_objective is Some ==> s.iteration >= 2
        }),
    decreases events.len(),
{
    lemma_witnessed(start, events);
    if events.len() > 0 {
        lemma_first_cycle(start, events.drop_last());
        lemma_witnessed(start, events.drop_last());
    }
}

/// A certificate is never given on one cycle: a certified point is the second of
/// two consecutive cycles that were both candidates, and the second was found a
/// candidate again when it was re-evaluated from scratch. The first of them
/// recurred on a cycle before it, so there are three cycles at least. What is
/// reported is what the re-evaluation measured, and is within tolerance.
pub proof fn law_certificate_needs_two_cycles<S: Scalar>(
    start: FixedPoint<S>,
    events: Seq<Event<S>>,
    report: SaeSupportFixedPointReport<S>,
)
    requires
        is_fresh(start),
        reached(start, events).phase == Phase::Certified(report),
    ensures
        report.recurred,
        3 <= report.iterations <= start.max_iter,
        report.stationarity.s_scaled_max_abs().s_at_most(start.tolerance),
        preceded(start, events, report.iterations as int),
        exists|measure: CycleMeasure<S>| #[trigger]
            confirmed(start, events, report.iterations as int, measure) && report.objective
                == measure.objective && report.stationarity == measure.stationarity,
{
    lemma_witnessed(start, events);
    let j = choose|j: int| #[trigger]
        candidate_cycle(start, events, j) && reached(start, events.take(j)).iteration + 1
            == report.iterations;
    lemma_witnessed(start, events.take(j));
    lemma_first_cycle(start, events.take(j));
    let measure = choose|measure: CycleMeasure<S>| #[trigger]
        confirmed(start, events, report.iterations as int, measure) && report.objective
            == measure.objective && report.stationarity == measure.stationarity;
    let k = choose|k: int| #[trigger]
        candidate_verified(start, events, k, measure) && reached(start, events.take(k)).iteration
            == report.iterations;
    lemma_witnessed(start, events.take(k));
}

/// Event `j` proposes a support move from the reported point at rest, and the
/// proposal's objective is not below the reported one.
pub open spec fn refused_move<S: Scalar>(
    start: FixedPoint<S>,
    events: Seq<Event<S>>,
    report: SaeSupportFixedPointReport<S>,
    j: int,
) -> bool {
    &&& 0 <= j < events.len()
    &&& reached(start, events.take(j)).phase matches Phase::AtRest(measure) && {
        &&& report == reached(start, events.take(j)).report(measure)
        &&& events[j] matches Event::MovedAtRest(moved) && !moved.s_below(report.objective)
    }
    &&& reached(start, events) == reached(start, events.take(j + 1))
}

proof fn lemma_refused_move<S: Scalar>(
    start: FixedPoint<S>,
    events: Seq<Event<S>>,
    report: SaeSupportFixedPointReport<S>,
)
    requires
        start.phase is Cycle,
        start.support_k > 0,
    ensures
        reached(start, events).support_k == start.support_k,
        reached(start, events).phase == Phase::Certified(report) ==> exists|j: int| #[trigger]
            refused_move(start, events, report, j),
    decreases events.len(),
{
    if events.len() > 0 {
        let before = events.drop_last();
        let last = events.len() - 1;
        lemma_refused_move(start, before, report);
        let s = reached(start, before);
        assert(events.take(last) =~= before);
        assert(events.take(last + 1) =~= events);
        if reached(start, events).phase == Phase::Certified(report) {
            if s.phase == Phase::Certified(report) {
                let j = choose|j: int| #[trigger] refused_move(start, before, report, j);
                assert(before.take(j) =~= events.take(j));
                assert(before.take(j + 1) =~= events.take(j + 1));
                assert(before[j] == events[j]);
                assert(refused_move(start, events, report, j));
            } else {
                assert(refused_move(start, events, report, last));
            }
        }
    }
}

/// A certified point is optimal against the router's own support move: a solve
/// whose supports may move is certified only on a move, proposed at the reported
/// point and polished, whose objective is not below the reported one. Nothing
/// happens after it.
pub proof fn law_certified_point_refused_its_last_move<S: Scalar>(
    start: FixedPoint<S>,
    events: Seq<Event<S>>,
    report: SaeSupportFixedPointReport<S>,
)
    requires
        is_fresh(start),
        start.support_k > 0,
        reached(start, events).phase == Phase::Certified(report),
    ensures
        exists|j: int| #[trigger] refused_move(start, events, report, j),
{
    lemma_refused_move(start, events, report);
}

/// A support move never raises the objective: a solve starts over on another
/// support only when the proposal's objective is below the incumbent's.
pub proof fn law_support_moves_lower_the_objective<S: Scalar>(
    solve: FixedPoint<S>,
    event: Event<S>,
)
    requires
        solve.wf(),
        solve.last_objective is Some,
        solve.after(event).last_objective is None,
    ensures
        match (solve.phase, event) {
            (Phase::AtRest(measure), Event::MovedAtRest(moved)) => moved.s_below(
                measure.objective,
            ),
            (Phase::Plateau(measure), Event::MovedOnPlateau(Some(moved))) => moved.s_below(
                measure.objective,
            ),
            _ => false,
        },
{
}

/// The solve waits for this event.
pub open spec fn awaits<S>(phase: Phase<S>, event: Event<S>) -> bool {
    match (phase, event) {
        (Phase::Cycle, Event::Cycle(_)) => true,
        (Phase::Verify(_), Event::Verified(_)) => true,
        (Phase::AtRest(_), Event::MovedAtRest(_)) => true,
        (Phase::Plateau(_), Event::MovedOnPlateau(_)) => true,
        (Phase::Extrapolate(_), Event::Extrapolated(_)) => true,
        _ => false,
    }
}

/// A solve that is only told what it waits for ends after at most five events
/// for each cycle of its budget.
pub proof fn law_solve_ends<S: Scalar>(start: FixedPoint<S>, events: Seq<Event<S>>)
    requires
        start.wf(),
        start.phase is Cycle,
        !start.previous_candidate,
        start.iteration == 1,
        forall|j: int|
            0 <= j < events.len() ==> awaits(
                reached(start, #[trigger] events.take(j)).phase,
                events[j],
            ),
    ensures
        events.len() <= 5 * start.max_iter,
        reached(start, events).fuel() + events.len() <= 5 * start.max_iter,
    decreases events.len(),
{
    lemma_witnessed(start, events);
    if events.len() > 0 {
        let before = events.drop_last();
        let last = events.len() - 1;
        assert(events.take(last) =~= before);
        assert forall|j: int| 0 <= j < before.len() implies awaits(
            reached(start, #[trigger] before.take(j)).phase,
            before[j],
        ) by {
            assert(before.take(j) =~= events.take(j));
        }
        law_solve_ends(start, before);
        lemma_witnessed(start, before);
    }
}

/// What one frozen-decoder cycle measures.
#[derive(Clone, Copy, Debug)]
pub struct CoordinateMeasure<S> {
    pub objective: S,
    pub coordinate_l2: S,
    pub coordinate_max_abs: S,
    pub max_change: S,
}

/// A certified frozen-decoder point.
#[derive(Clone, Copy, Debug)]
pub struct SaeSupportCoordinateFixedPointReport<S> {
    pub iterations: usize,
    pub objective: S,
    pub coordinate_l2: S,
    pub coordinate_max_abs: S,
    pub max_recurrence_change: S,
    pub recurred: bool,
}

/// How a frozen-decoder solve stands.
#[derive(Clone, Copy, Debug)]
pub enum CoordinatePhase<S> {
    Cycle,
    Certified(SaeSupportCoordinateFixedPointReport<S>),
    Exhausted,
}

/// A frozen-decoder coordinate solve.
#[derive(Clone, Copy, Debug)]
pub struct CoordinateFixedPoint<S> {
    pub max_iter: usize,
    pub tolerance: S,
    pub iteration: usize,
    pub last_objective: Option<S>,
    pub previous_candidate: bool,
    pub phase: CoordinatePhase<S>,
}

/// A cycle whose objective recurs and whose raw gradient is within tolerance of
/// the objective's scale.
pub open spec fn is_coordinate_candidate<S: Scalar>(
    measure: CoordinateMeasure<S>,
    previous: Option<S>,
    tolerance: S,
) -> bool {
    &&& recurs(measure.objective, previous, tolerance)
    &&& measure.coordinate_max_abs.s_at_most(tolerance.s_times(s_kkt_scale(measure.objective)))
}

impl<S: Scalar> CoordinateFixedPoint<S> {
    pub open spec fn wf(&self) -> bool {
        &&& 1 <= self.iteration <= self.max_iter
        &&& self.previous_candidate ==> self.last_objective is Some
    }

    /// The solve after a cycle.
    pub open spec fn after(&self, measure: CoordinateMeasure<S>) -> CoordinateFixedPoint<S> {
        let candidate = is_coordinate_candidate(measure, self.last_objective, self.tolerance);
        CoordinateFixedPoint {
            last_objective: Some(measure.objective),
            previous_candidate: candidate,
            phase: if candidate && self.previous_candidate {
                CoordinatePhase::Certified(
                    SaeSupportCoordinateFixedPointReport {
                        iterations: self.iteration,
                        objective: measure.objective,
                        coordinate_l2: measure.coordinate_l2,
                        coordinate_max_abs: measure.coordinate_max_abs,
                        max_recurrence_change: measure.max_change,
                        recurred: true,
                    },
                )
            } else if self.iteration >= self.max_iter {
                CoordinatePhase::Exhausted
            } else {
                CoordinatePhase::Cycle
            },
            iteration: if candidate && self.previous_candidate || self.iteration
                >= self.max_iter {
                self.iteration
            } else {
                (self.iteration + 1) as usize
            },
            ..*self
        }
    }

    /// Takes a cycle's measure.
    pub fn cycle(&mut self, measure: CoordinateMeasure<S>)
        requires
            old(self).wf(),
            old(self).phase is Cycle,
        ensures
            final(self).wf(),
            *final(self) == old(self).after(measure),
            final(self).phase is Cycle ==> final(self).max_iter - final(self).iteration
                < old(self).max_iter - old(self).iteration,
    {
        let scale: S = measure.objective.magnitude().larger(S::one());
        let candidate: bool = objective_recurs(
            measure.objective,
            self.last_objective,
            self.tolerance,
        ) && measure.coordinate_max_abs.at_most(self.tolerance.times(scale));
        self.last_objective = Some(measure.objective);
        if candidate && self.previous_candidate {
            self.phase = CoordinatePhase::Certified(
                SaeSupportCoordinateFixedPointReport {
                    iterations: self.iteration,
                    objective: measure.objective,
                    coordinate_l2: measure.coordinate_l2,
                    coordinate_max_abs: measure.coordinate_max_abs,
                    max_recurrence_change: measure.max_change,
                    recurred: true,
                },
            );
        } else if self.iteration >= self.max_iter {
            self.phase = CoordinatePhase::Exhausted;
        } else {
            self.iteration = self.iteration + 1;
            self.phase = CoordinatePhase::Cycle;
        }
        self.previous_candidate = candidate;
    }
}

/// A frozen-decoder solve after a series of cycles.
pub open spec fn coordinates_reached<S: Scalar>(
    start: CoordinateFixedPoint<S>,
    measures: Seq<CoordinateMeasure<S>>,
) -> CoordinateFixedPoint<S>
    decreases measures.len(),
{
    if measures.len() == 0 {
        start
    } else {
        coordinates_reached(start, measures.drop_last()).after(measures.last())
    }
}

/// A frozen-decoder solve that has measured nothing yet.
pub open spec fn is_fresh_coordinate_solve<S: Scalar>(start: CoordinateFixedPoint<S>) -> bool {
    &&& start.wf()
    &&& start.phase is Cycle
    &&& start.iteration == 1
    &&& start.last_objective is None
    &&& !start.previous_candidate
}

/// The solve waits for each of the cycles.
pub open spec fn goes_on<S: Scalar>(
    start: CoordinateFixedPoint<S>,
    measures: Seq<CoordinateMeasure<S>>,
) -> bool {
    forall|j: int|
        0 <= j < measures.len() ==> coordinates_reached(start, #[trigger] measures.take(j)).phase
            is Cycle
}

/// The objective of the cycle before cycle `j`.
pub open spec fn objective_before<S: Scalar>(
    measures: Seq<CoordinateMeasure<S>>,
    j: int,
) -> Option<S> {
    if j <= 0 {
        None
    } else {
        Some(measures[j - 1].objective)
    }
}

pub proof fn lemma_coordinates_reached<S: Scalar>(
    start: CoordinateFixedPoint<S>,
    measures: Seq<CoordinateMeasure<S>>,
)
    requires
        is_fresh_coordinate_solve(start),
        goes_on(start, measures),
    ensures
        ({
            let s = coordinates_reached(start, measures);
            let n = measures.len() as int;
            &&& s.tolerance == start.tolerance
            &&& s.max_iter == start.max_iter
            &&& s.last_objective == objective_before(measures, n)
            &&& s.phase is Cycle ==> s.iteration == n + 1 && s.iteration <= s.max_iter
            &&& s.previous_candidate == (n > 0 && is_coordinate_candidate(
                measures[n - 1],
                objective_before(measures, n - 1),
                start.tolerance,
            ))
            &&& s.phase matches CoordinatePhase::Certified(report) ==> {
                &&& n >= 2
                &&& report.iterations == n <= s.max_iter
                &&& report.recurred
                &&& report.objective == measures[n - 1].objective
                &&& report.coordinate_max_abs == measures[n - 1].coordinate_max_abs
                &&& is_coordinate_candidate(
                    measures[n - 2],
                    objective_before(measures, n - 2),
                    start.tolerance,
                )
                &&& s.previous_candidate
            }
        }),
    decreases measures.len(),
{
    if measures.len() > 0 {
        let before = measures.drop_last();
        let n = before.len() as int;
        assert(measures.take(n) =~= before);
        assert forall|j: int| 0 <= j < n implies coordinates_reached(
            start,
            #[trigger] before.take(j),
        ).phase is Cycle by {
            assert(before.take(j) =~= measures.take(j));
        }
        lemma_coordinates_reached(start, before);
        assert(coordinates_reached(start, measures.take(n)).phase is Cycle);
        if n > 0 {
            assert(before[n - 1] == measures[n - 1]);
            assert(objective_before(before, n - 1) == objective_before(measures, n - 1));
        }
        assert(objective_before(before, n) == objective_before(measures, n));
    }
}

/// A frozen-decoder certificate needs two consecutive candidate cycles too: the last
/// two were candidates, each measured against the one before it, so there are three
/// cycles at least.
pub proof fn law_coordinate_certificate_needs_two_cycles<S: Scalar>(
    start: CoordinateFixedPoint<S>,
    measures: Seq<CoordinateMeasure<S>>,
    report: SaeSupportCoordinateFixedPointReport<S>,
)
    requires
        is_fresh_coordinate_solve(start),
        goes_on(start, measures),
        coordinates_reached(start, measures).phase == CoordinatePhase::Certified(report),
    ensures
        report.recurred,
        3 <= report.iterations <= start.max_iter,
        report.iterations == measures.len(),
        ({
            let n = measures.len() as int;
            &&& report.objective == measures[n - 1].objective
            &&& report.coordinate_max_abs == measures[n - 1].coordinate_max_abs
            &&& is_coordinate_candidate(
                measures[n - 1],
                Some(measures[n - 2].objective),
                start.tolerance,
            )
            &&& is_coordinate_candidate(
                measures[n - 2],
                Some(measures[n - 3].objective),
                start.tolerance,
            )
        }),
{
    lemma_coordinates_reached(start, measures);
}

impl<S: Scalar> SaeSupportSparseTerm<S> {
    /// Begins the alternating solve on `target`. A top-k assignment's supports may
    /// move.
    pub fn solve_fixed_point(&self, target: &Matrix<S>, max_iter: usize, tolerance: S) -> (r: Result<
        FixedPoint<S>,
        SolveFault,
    >)
        requires
            self.wf(),
            target.wf(),
        ensures
            match solve_fault(self, target, max_iter, tolerance) {
                Some(fault) => r == Err::<FixedPoint<S>, SolveFault>(fault),
                None => r is Ok && r->Ok_0.wf() && r->Ok_0 == (FixedPoint {
                    max_iter,
                    tolerance,
                    support_k: self.state().mode_spec()->k,
                    iteration: 1,
                    last_objective: None,
                    previous_candidate: false,
                    last_reroute_cycle: 0,
                    objective_at_last_reroute: S::s_infinity(),
                    accepted_extrapolations: 0,
                    phase: Phase::Cycle,
                }),
            },
    {
        let support_k: usize = match self.assignment().mode() {
            AssignmentMode::TopK { k } => k,
            _ => 0,
        };
        match check_solve(self, target, max_iter, tolerance) {
            Some(fault) => Err(fault),
            None => Ok(
                FixedPoint {
                    max_iter,
                    tolerance,
                    support_k,
                    iteration: 1,
                    last_objective: None,
                    previous_candidate: false,
                    last_reroute_cycle: 0,
                    objective_at_last_reroute: S::infinity(),
                    accepted_extrapolations: 0,
                    phase: Phase::Cycle,
                },
            ),
        }
    }

    /// Begins the coordinate solve on `target`, with the decoders held fixed.
    pub fn solve_coordinates_fixed_decoder(
        &self,
        target: &Matrix<S>,
        max_iter: usize,
        tolerance: S,
    ) -> (r: Result<CoordinateFixedPoint<S>, SolveFault>)
        requires
            self.wf(),
            target.wf(),
        ensures
            match solve_fault(self, target, max_iter, tolerance) {
                Some(fault) => r == Err::<CoordinateFixedPoint<S>, SolveFault>(fault),
                None => r is Ok && r->Ok_0.wf() && r->Ok_0 == (CoordinateFixedPoint {
                    max_iter,
                    tolerance,
                    iteration: 1,
                    last_objective: None,
                    previous_candidate: false,
                    phase: CoordinatePhase::Cycle,
                }),
            },
    {
        match check_solve(self, target, max_iter, tolerance) {
            Some(fault) => Err(fault),
            None => Ok(
                CoordinateFixedPoint {
                    max_iter,
                    tolerance,
                    iteration: 1,
                    last_objective: None,
                    previous_candidate: false,
                    phase: CoordinatePhase::Cycle,
                },
            ),
        }
    }
}

} // verus!
