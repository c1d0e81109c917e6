//! One row's coordinate step: a trust-region Gauss-Newton step with backtracking
//! along the atoms' manifolds.
//!
//! The trust-region subproblem, the projection onto the tangent space and the
//! retraction are made elsewhere; so are the evaluations at a trial point. The
//! decisions are here: whether the row is at rest already, which direction is
//! taken, how long the step is, and what is reported when no step is.
use crate::active::{BasisEval, ShapeError};
use crate::matrix::Matrix;
use crate::objective::{HyperFault, PriorTerm};
use crate::scalar::{
    dot, energy, half, max_abs, ratio, s_dot, s_energy, s_half, s_max, s_max_abs, s_ratio,
    s_sum, Scalar,
};
use crate::term::SaeSupportSparseTerm;
use vstd::prelude::*;

verus! {

/// A running sum with its rounding error carried along.
#[derive(Clone, Copy, Debug)]
pub struct KahanSum<S> {
    pub total: S,
    pub carry: S,
}

impl<S: Scalar> KahanSum<S> {
    pub open spec fn empty() -> KahanSum<S> {
        KahanSum { total: S::s_zero(), carry: S::s_zero() }
    }

    /// The sum after one more term.
    pub open spec fn with(self, term: S) -> KahanSum<S> {
        let y = term.s_minus(self.carry);
        let t = self.total.s_plus(y);
        KahanSum { total: t, carry: t.s_minus(self.total).s_minus(y) }
    }

    pub fn new() -> (r: KahanSum<S>)
        ensures
            r == Self::empty(),
    {
        KahanSum { total: S::zero(), carry: S::zero() }
    }

    /// Adds a term.
    pub fn add_term(&mut self, term: S)
        ensures
            *final(self) == old(self).with(term),
    {
        let y: S = term.minus(self.carry);
        let t: S = self.total.plus(y);
        self.carry = t.minus(self.total).minus(y);
        self.total = t;
    }

    pub fn sum(&self) -> (r: S)
        ensures
            r == self.total,
    {
        self.total
    }
}

/// A row that is not at rest: its subproblem, and what a step is measured
/// against.
#[derive(Debug)]
pub struct RowProblem<S> {
    /// `target - fitted`.
    pub residual: Vec<S>,
    /// `J r - grad`, the negative gradient.
    pub rhs: Vec<S>,
    /// `J J'` with the prior's curvature on the diagonal.
    pub gram: Vec<Vec<S>>,
    /// The scale of the row's objective.
    pub objective_scale: S,
    /// The largest gradient entry.
    pub gradient_max: S,
}

/// How a row's solve begins.
#[derive(Debug)]
pub enum RowStart<S> {
    /// The row meets the requested condition already.
    AtRest,
    Solve(RowProblem<S>),
}

/// `1 + energy / 2` plus the prior's energies, in order.
pub open spec fn s_objective_scale<S: Scalar>(residual: Seq<S>, list: Seq<PriorTerm<S>>) -> S {
    s_sum(
        S::s_one().s_plus(s_half::<S>().s_times(s_energy(residual))),
        list.len() as int,
        |i: int| list[i].value.s_magnitude(),
    )
}

/// What a direction comes to.
#[derive(Debug)]
pub enum Direction<S> {
    /// The step is no ascent of the right-hand side: the projected gradient is to
    /// be tried in its place.
    NeedsFallback,
    /// No step is to be taken.
    AtRest,
    /// The step is not a finite descent direction; its slope is given.
    NotDescent(S),
    /// Search along this step, whose slope is given.
    Search { delta: Vec<S>, directional: S },
}

/// How a step with a non-negative slope goes on.
pub open spec fn is_settled<S: Scalar>(delta: Seq<S>, directional: S, r: Direction<S>) -> bool {
    if !directional.s_finite() || directional.s_below(S::s_zero()) {
        r == Direction::NotDescent(directional)
    } else if directional.s_same(S::s_zero()) {
        r == Direction::<S>::AtRest
    } else {
        r matches Direction::Search { delta: d, directional: v } && d@ == delta && v == directional
    }
}

fn settle<S: Scalar>(delta: Vec<S>, directional: S) -> (r: Direction<S>)
    ensures
        is_settled(delta@, directional, r),
{
    if !directional.finite() || directional.below(S::zero()) {
        Direction::NotDescent(directional)
    } else if directional.same(S::zero()) {
        Direction::AtRest
    } else {
        Direction::Search { delta, directional }
    }
}

/// Judges the projected trust-region step.
pub fn choose_direction<S: Scalar>(rhs: &Vec<S>, delta: Vec<S>) -> (r: Direction<S>)
    requires
        rhs@.len() == delta@.len(),
    ensures
        if !S::s_zero().s_below(s_dot(rhs@, delta@)) {
            r == Direction::<S>::NeedsFallback
        } else {
            is_settled(delta@, s_dot(rhs@, delta@), r)
        },
{
    let directional: S = dot(rhs, &delta);
    if !S::zero().below(directional) {
        return Direction::NeedsFallback;
    }
    settle(delta, directional)
}

/// `values` times one number.
pub open spec fn s_scaled<S: Scalar>(values: Seq<S>, by: S) -> Seq<S> {
    Seq::new(values.len(), |i: int| values[i].s_times(by))
}

fn scaled<S: Scalar>(values: &Vec<S>, by: S) -> (r: Vec<S>)
    ensures
        r@ == s_scaled(values@, by),
{
    let mut out: Vec<S> = Vec::new();
    for i in 0..values.len()
        invariant
            out@ == s_scaled(values@, by).take(i as int),
    {
        out.push(values[i].times(by));
        assert(out@ =~= s_scaled(values@, by).take(i + 1));
    }
    assert(s_scaled(values@, by).take(values@.len() as int) =~= s_scaled(values@, by));
    out
}

/// Judges the fallback: the projected gradient, stretched to the trust radius.
pub fn choose_fallback<S: Scalar>(rhs: &Vec<S>, projected: &Vec<S>, trust_radius: S) -> (r: Direction<
    S,
>)
    requires
        rhs@.len() == projected@.len(),
    ensures
        ({
            let norm = s_energy(projected@).s_root();
            let delta = s_scaled(projected@, trust_radius.s_over(norm));
            if !S::s_zero().s_below(norm) {
                r == Direction::<S>::AtRest
            } else {
                is_settled(delta, s_dot(rhs@, delta), r)
            }
        }),
{
    let norm: S = energy(projected).root();
    if !S::zero().below(norm) {
        return Direction::AtRest;
    }
    let delta: Vec<S> = scaled(projected, trust_radius.over(norm));
    let directional: S = dot(rhs, &delta);
    settle(delta, directional)
}

/// One halved `h` times.
pub open spec fn s_halved<S: Scalar>(h: nat) -> S
    decreases h,
{
    if h == 0 {
        S::s_one()
    } else {
        s_halved::<S>((h - 1) as nat).s_times(s_half::<S>())
    }
}

/// How often a step is halved before the search gives up.
pub const LAST_HALVING: usize = 24;

/// The sufficient-decrease constant.
pub open spec fn s_armijo<S: Scalar>() -> S {
    s_ratio::<S>(1, 10000)
}

/// A line search in progress.
#[derive(Debug)]
pub struct LineSearch<S> {
    pub delta: Vec<S>,
    pub directional: S,
    /// The objective's own rounding.
    pub resolution: S,
    /// The largest gradient entry at the start.
    pub gradient_max: S,
    /// How often the step has been halved.
    pub halving: usize,
    /// The step, one halved `halving` times.
    pub step: S,
    /// The smallest gap to the required decrease, and where it was.
    pub best_gap: S,
    pub best_step: S,
}

/// What a trial point gives: the change of the objective, and the largest
/// gradient entry there.
#[derive(Clone, Copy, Debug)]
pub struct TrialMeasure<S> {
    pub objective_delta: S,
    pub gradient_max: S,
}

/// What becomes of a trial.
#[derive(Debug)]
pub enum Verdict<S> {
    /// The trial point is the row's new point; no coordinate moved further than
    /// `change`.
    Accepted { step: S, change: S },
    /// The next, halved step is to be tried.
    TryAgain,
    /// The decrease asked for at the last step is below the objective's own
    /// rounding: the row keeps its point.
    NoStep,
    /// No step decreases the objective although the gradient says so.
    NoDecrease { best_gap: S, best_step: S },
}

impl<S: Scalar> LineSearch<S> {
    pub open spec fn wf(&self) -> bool {
        &&& self.halving <= LAST_HALVING
        &&& self.step == s_halved::<S>(self.halving as nat)
    }

    /// Starts at the full step.
    pub fn begin(delta: Vec<S>, directional: S, resolution: S, gradient_max: S) -> (r: LineSearch<S>)
        ensures
            r.wf(),
            r.delta == delta,
            r.directional == directional,
            r.resolution == resolution,
            r.gradient_max == gradient_max,
            r.halving == 0,
            r.best_gap == S::s_infinity(),
            r.best_step == S::s_zero(),
    {
        LineSearch {
            delta,
            directional,
            resolution,
            gradient_max,
            halving: 0,
            step: S::one(),
            best_gap: S::infinity(),
            best_step: S::zero(),
        }
    }

    /// The tangent step to be retracted for the current trial.
    pub fn trial_delta(&self) -> (r: Vec<S>)
        ensures
            r@ == Seq::new(self.delta@.len(), |i: int| self.step.s_times(self.delta@[i])),
    {
        let ghost all = Seq::new(self.delta@.len(), |i: int| self.step.s_times(self.delta@[i]));
        let mut out: Vec<S> = Vec::new();
        for i in 0..self.delta.len()
            invariant
                all == Seq::new(self.delta@.len(), |i: int| self.step.s_times(self.delta@[i])),
                out@ == all.take(i as int),
        {
            out.push(self.step.times(self.delta[i]));
            assert(out@ =~= all.take(i + 1));
        }
        assert(all.take(self.delta@.len() as int) =~= all);
        out
    }

    /// The decrease asked for at a step, as a bound on the objective's change.
    pub open spec fn armijo_bound(&self) -> S {
        s_armijo::<S>().s_negate().s_times(self.step).s_times(self.directional)
    }

    /// A trial is accepted for a sufficient decrease, or, when its change is
    /// below the objective's rounding, for a smaller gradient.
    pub open spec fn accepts(&self, trial: TrialMeasure<S>) -> bool {
        ||| trial.objective_delta.s_finite() && trial.objective_delta.s_at_most(
            self.armijo_bound(),
        )
        ||| trial.objective_delta.s_finite() && trial.objective_delta.s_magnitude().s_at_most(
            self.resolution,
        ) && trial.gradient_max.s_below(self.gradient_max)
    }

    /// How far the coordinates move at the current step.
    pub open spec fn largest_move(&self) -> S {
        s_max(
            S::s_zero(),
            self.delta@.len() as int,
            |i: int| self.step.s_times(self.delta@[i]).s_magnitude(),
        )
    }

    /// The decrease asked for at the last step is below the objective's rounding.
    pub open spec fn is_unmeasurable(&self) -> bool {
        s_armijo::<S>().s_times(s_halved::<S>(LAST_HALVING as nat)).s_times(
            self.directional,
        ).s_at_most(self.resolution)
    }

    /// The best gap after a trial, and its step.
    pub open spec fn best_after(&self, trial: TrialMeasure<S>) -> (S, S) {
        let gap = trial.objective_delta.s_minus(self.armijo_bound());
        if gap.s_finite() && gap.s_below(self.best_gap) {
            (gap, self.step)
        } else {
            (self.best_gap, self.best_step)
        }
    }

    /// Judges a trial. When it is not accepted the step is halved, up to the last
    /// halving.
    pub fn judge(&mut self, trial: TrialMeasure<S>) -> (r: Verdict<S>)
        requires
            old(self).wf(),
        ensures
            final(self).wf(),
            final(self).delta == old(self).delta,
            final(self).directional == old(self).directional,
            final(self).resolution == old(self).resolution,
            final(self).gradient_max == old(self).gradient_max,
            final(self).best_gap == old(self).best_after(trial).0,
            final(self).best_step == old(self).best_after(trial).1,
            if old(self).accepts(trial) {
                &&& r == (Verdict::Accepted {
                    step: old(self).step,
                    change: old(self).largest_move(),
                })
                &&& final(self).halving == old(self).halving
            } else if old(self).halving < LAST_HALVING {
                &&& r == Verdict::<S>::TryAgain
                &&& final(self).halving == old(self).halving + 1
            } else if old(self).is_unmeasurable() {
                &&& r == Verdict::<S>::NoStep
                &&& final(self).halving == old(self).halving
            } else {
                &&& r == (Verdict::NoDecrease {
                    best_gap: old(self).best_after(trial).0,
                    best_step: old(self).best_after(trial).1,
                })
                &&& final(self).halving == old(self).halving
            },
    {
        let bound: S = ratio::<S>(1, 10000).negate().times(self.step).times(self.directional);
        let gap: S = trial.objective_delta.minus(bound);
        if gap.finite() && gap.below(self.best_gap) {
            self.best_gap = gap;
            self.best_step = self.step;
        }
        let finite: bool = trial.objective_delta.finite();
        let armijo: bool = finite && trial.objective_delta.at_most(bound);
        let tie: bool = finite && trial.objective_delta.magnitude().at_most(self.resolution)
            && trial.gradient_max.below(self.gradient_max);
        if armijo || tie {
            let moved: Vec<S> = self.trial_delta();
            let change: S = max_abs(&moved);
            proof {
                let f = |i: int| moved@[i].s_magnitude();
                let g = |i: int| self.step.s_times(self.delta@[i]).s_magnitude();
                crate::scalar::lemma_max_ext(S::s_zero(), moved@.len() as int, f, g);
            }
            return Verdict::Accepted { step: self.step, change };
        }
        if self.halving < LAST_HALVING {
            self.halving = self.halving + 1;
            self.step = self.step.times(half::<S>());
            return Verdict::TryAgain;
        }
        let floor: S = ratio::<S>(1, 10000).times(self.step).times(self.directional);
        if floor.at_most(self.resolution) {
            Verdict::NoStep
        } else {
            Verdict::NoDecrease { best_gap: self.best_gap, best_step: self.best_step }
        }
    }
}

impl<S: Scalar> SaeSupportSparseTerm<S> {
    /// A row's residual: the target less the sum of the row's images.
    pub open spec fn row_residual(
        &self,
        target: Seq<S>,
        evals: Seq<BasisEval<S>>,
        row: int,
    ) -> Seq<S> {
        Seq::new(
            self.width(),
            |c: int| target[c].s_minus(self.row_image(evals, row, c, evals.len() as int)),
        )
    }

    /// A row's residual.
    pub fn residual_of_row(&self, row: usize, target: &Vec<S>, evals: &Vec<BasisEval<S>>) -> (r: Vec<
        S,
    >)
        requires
            self.wf(),
            row < self.rows(),
            self.row_fits(evals@, row as int),
            target@.len() == self.width(),
        ensures
            r@ == self.row_residual(target@, evals@, row as int),
    {
        let width: usize = self.output_dim();
        let fitted: Vec<S> = self.reconstruct_row(row, evals);
        let ghost all = self.row_residual(target@, evals@, row as int);
        let mut out: Vec<S> = Vec::new();
        for c in 0..width
            invariant
                width == self.width(),
                target@.len() == width,
                fitted@.len() == width,
                forall|j: int|
                    0 <= j < width ==> #[trigger] fitted@[j] == self.row_image(
                        evals@,
                        row as int,
                        j,
                        evals@.len() as int,
                    ),
                all == self.row_residual(target@, evals@, row as int),
                out@ == all.take(c as int),
        {
            out.push(target[c].minus(fitted[c]));
            assert(out@ =~= all.take(c + 1));
        }
        assert(all.take(width as int) =~= all);
        out
    }

    /// `problem` is the row's subproblem.
    pub open spec fn is_row_problem(
        &self,
        target: Seq<S>,
        evals: Seq<BasisEval<S>>,
        priors: Seq<Vec<PriorTerm<S>>>,
        row: int,
        problem: &RowProblem<S>,
    ) -> bool {
        let list = self.prior_list(priors, row);
        let q = self.coords()[row].len();
        exists|lines: Seq<Vec<S>>|
            {
                &&& #[trigger] self.is_row_jacobian(evals, row, lines)
                &&& problem.residual@ == self.row_residual(target, evals, row)
                &&& problem.rhs@.len() == q
                &&& forall|i: int|
                    0 <= i < q ==> #[trigger] problem.rhs@[i] == s_dot(
                        lines[i]@,
                        problem.residual@,
                    ).s_minus(list[i].grad)
                &&& problem.gram@.len() == q
                &&& forall|i: int| 0 <= i < q ==> (#[trigger] problem.gram@[i])@.len() == q
                &&& forall|i: int, j: int|
                    0 <= i < q && 0 <= j < q ==> #[trigger] problem.gram@[i]@[j] == (if i == j {
                        s_dot(lines[i]@, lines[j]@).s_plus(list[i].curvature)
                    } else {
                        s_dot(lines[i]@, lines[j]@)
                    })
                &&& problem.objective_scale == s_objective_scale(problem.residual@, list)
                &&& problem.gradient_max == s_max_abs(problem.rhs@)
            }
    }

    /// Begins a row's solve at its current evaluations. The row is at rest when
    /// its largest gradient entry is within `tolerance` of its objective's scale.
    pub fn open_row(
        &self,
        row: usize,
        target: &Vec<S>,
        evals: &Vec<BasisEval<S>>,
        priors: &Vec<Vec<PriorTerm<S>>>,
        tolerance: S,
    ) -> (r: RowStart<S>)
        requires
            self.wf(),
            row < self.rows(),
            target@.len() == self.width(),
            self.row_fits(evals@, row as int),
            self.row_priors_fit(priors@, row as int),
        ensures
            exists|problem: RowProblem<S>|
                {
                    &&& #[trigger] self.is_row_problem(
                        target@,
                        evals@,
                        priors@,
                        row as int,
                        &problem,
                    )
                    &&& if problem.gradient_max.s_at_most(
                        tolerance.s_times(problem.objective_scale),
                    ) {
                        r == RowStart::<S>::AtRest
                    } else {
                        r == RowStart::Solve(problem)
                    }
                },
    {
        assert(self.state().row_wf(row as int));
        let residual: Vec<S> = self.residual_of_row(row, target, evals);
        let lines: Vec<Vec<S>> = self.row_jacobian(row, evals);
        let list: Vec<PriorTerm<S>> = self.row_prior_list(row, priors);
        let q: usize = lines.len();
        let mut objective_scale: S = S::one().plus(half::<S>().times(energy(&residual)));
        let ghost f = |i: int| list@[i].value.s_magnitude();
        let mut rhs: Vec<S> = Vec::new();
        let mut gram: Vec<Vec<S>> = Vec::new();
        for i in 0..q
            invariant
                q == lines@.len(),
                list@.len() == q,
                residual@.len() == self.width(),
                forall|a: int| 0 <= a < q ==> (#[trigger] lines@[a])@.len() == self.width(),
                f == (|i: int| list@[i].value.s_magnitude()),
                objective_scale == s_sum(
                    S::s_one().s_plus(s_half::<S>().s_times(s_energy(residual@))),
                    i as int,
                    f,
                ),
                rhs@.len() == i,
                gram@.len() == i,
                forall|a: int|
                    0 <= a < i ==> #[trigger] rhs@[a] == s_dot(lines@[a]@, residual@).s_minus(
                        list@[a].grad,
                    ),
                forall|a: int| 0 <= a < i ==> (#[trigger] gram@[a])@.len() == q,
                forall|a: int, b: int|
                    0 <= a < i && 0 <= b < q ==> #[trigger] gram@[a]@[b] == (if a == b {
                        s_dot(lines@[a]@, lines@[b]@).s_plus(list@[a].curvature)
                    } else {
                        s_dot(lines@[a]@, lines@[b]@)
                    }),
        {
            objective_scale = objective_scale.plus(list[i].value.magnitude());
            rhs.push(dot(&lines[i], &residual).minus(list[i].grad));
            let mut line: Vec<S> = Vec::new();
            for j in 0..q
                invariant
                    q == lines@.len(),
                    list@.len() == q,
                    i < q,
                    forall|a: int| 0 <= a < q ==> (#[trigger] lines@[a])@.len() == self.width(),
                    line@.len() == j,
                    forall|b: int|
                        0 <= b < j ==> #[trigger] line@[b] == (if i == b {
                            s_dot(lines@[i as int]@, lines@[b]@).s_plus(list@[i as int].curvature)
                        } else {
                            s_dot(lines@[i as int]@, lines@[b]@)
                        }),
            {
                let mut value: S = dot(&lines[i], &lines[j]);
                if i == j {
                    value = value.plus(list[i].curvature);
                }
                line.push(value);
            }
            gram.push(line);
        }
        let gradient_max: S = max_abs(&rhs);
        let problem = RowProblem { residual, rhs, gram, objective_scale, gradient_max };
        assert(self.is_row_jacobian(evals@, row as int, lines@));
        assert(self.is_row_problem(target@, evals@, priors@, row as int, &problem));
        if gradient_max.at_most(tolerance.times(objective_scale)) {
            RowStart::AtRest
        } else {
            RowStart::Solve(problem)
        }
    }

    /// The number of rounded operations in one evaluation of a row, over its
    /// first `n` slots.
    pub open spec fn evaluation_ops(&self, row: int, n: int) -> nat
        decreases n,
    {
        if n <= 0 {
            1 + self.width() + self.coords()[row].len()
        } else {
            self.evaluation_ops(row, n - 1) + self.active(row, n - 1).m() as nat * self.width()
        }
    }

    /// The rounding of a row's objective: `n u / (1 - n u)` times its scale, for
    /// `n` operations.
    pub open spec fn s_resolution(&self, row: int, objective_scale: S) -> S {
        let ops = S::s_count(self.evaluation_ops(row, self.support(row).len() as int)).s_times(
            S::s_epsilon(),
        );
        ops.s_over(S::s_one().s_minus(ops)).s_times(objective_scale)
    }

    proof fn lemma_ops_monotone(&self, row: int, a: int, b: int)
        requires
            0 <= a <= b,
        ensures
            self.evaluation_ops(row, a) <= self.evaluation_ops(row, b),
        decreases b,
    {
        if a < b {
            self.lemma_ops_monotone(row, a, b - 1);
            assert(0 <= self.active(row, b - 1).m() as nat * self.width()) by (nonlinear_arith);
        }
    }

    /// The rounding of a row's objective.
    pub fn objective_resolution(&self, row: usize, objective_scale: S) -> (r: S)
        requires
            self.wf(),
            row < self.rows(),
            self.evaluation_ops(row as int, self.support(row as int).len() as int) <= usize::MAX,
        ensures
            r == self.s_resolution(row as int, objective_scale),
    {
        let support: &Vec<u32> = self.assignment().support_indices(row);
        let width: usize = self.output_dim();
        let ghost n = support@.len() as int;
        let q: usize = self.assignment().coords_row(row).len();
        proof {
            self.lemma_ops_monotone(row as int, 0, n);
        }
        let mut ops: usize = 1 + width + q;
        for slot in 0..support.len()
            invariant
                self.wf(),
                row < self.rows(),
                width == self.width(),
                support@ == self.support(row as int),
                n == support@.len(),
                self.evaluation_ops(row as int, n) <= usize::MAX,
                ops == self.evaluation_ops(row as int, slot as int),
        {
            proof {
                self.lemma_active(row as int, slot as int);
                self.lemma_ops_monotone(row as int, slot + 1, n);
                assert(0 <= self.active(row as int, slot as int).m() as nat * self.width())
                    by (nonlinear_arith);
            }
            let m: usize = self.atom_basis_size(support[slot] as usize);
            ops = ops + m * width;
        }
        let noise: S = S::count(ops).times(S::epsilon());
        noise.over(S::one().minus(noise)).times(objective_scale)
    }

    /// The change of channel `c` of a row's image over the first `n` basis
    /// functions of a slot, on top of `start`: basis values are subtracted before
    /// they are decoded.
    pub open spec fn slot_change(
        &self,
        start: KahanSum<S>,
        current: Seq<BasisEval<S>>,
        trial: Seq<BasisEval<S>>,
        row: int,
        slot: int,
        c: int,
        n: int,
    ) -> KahanSum<S>
        decreases n,
    {
        if n <= 0 {
            start
        } else {
            self.slot_change(start, current, trial, row, slot, c, n - 1).with(
                trial[slot].phi@[n - 1].s_minus(current[slot].phi@[n - 1]).s_times(
                    self.active(row, slot).coefficient(n - 1, c),
                ),
            )
        }
    }

    /// The change of channel `c` of a row's image, over its first `n` slots.
    pub open spec fn image_change(
        &self,
        current: Seq<BasisEval<S>>,
        trial: Seq<BasisEval<S>>,
        row: int,
        c: int,
        n: int,
    ) -> KahanSum<S>
        decreases n,
    {
        if n <= 0 {
            KahanSum::empty()
        } else {
            self.slot_change(
                self.image_change(current, trial, row, c, n - 1),
                current,
                trial,
                row,
                n - 1,
                c,
                self.active(row, n - 1).m() as int,
            )
        }
    }

    /// The change of the loss over the first `n` channels: for a change `d` of the
    /// image and a residual `r`, `d (d / 2 - r)` each.
    pub open spec fn loss_change(
        &self,
        residual: Seq<S>,
        current: Seq<BasisEval<S>>,
        trial: Seq<BasisEval<S>>,
        row: int,
        n: int,
    ) -> KahanSum<S>
        decreases n,
    {
        if n <= 0 {
            KahanSum::empty()
        } else {
            let d = self.image_change(
                current,
                trial,
                row,
                n - 1,
                self.support(row).len() as int,
            ).total;
            self.loss_change(residual, current, trial, row, n - 1).with(
                d.s_fused(s_half::<S>().s_times(d).s_minus(residual[n - 1]), S::s_zero()),
            )
        }
    }

    /// The change of the objective: the loss's, and then the prior's on each
    /// coordinate.
    pub open spec fn objective_change(
        &self,
        residual: Seq<S>,
        current: Seq<BasisEval<S>>,
        trial: Seq<BasisEval<S>>,
        prior_changes: Seq<S>,
        row: int,
        n: int,
    ) -> KahanSum<S>
        decreases n,
    {
        if n <= 0 {
            self.loss_change(residual, current, trial, row, self.width() as int)
        } else {
            self.objective_change(residual, current, trial, prior_changes, row, n - 1).with(
                prior_changes[n - 1],
            )
        }
    }

    /// The largest gradient entry at a trial point.
    pub open spec fn s_trial_gradient(
        &self,
        residual: Seq<S>,
        lines: Seq<Vec<S>>,
        prior_grads: Seq<S>,
    ) -> S {
        s_max(
            S::s_zero(),
            lines.len() as int,
            |i: int| s_dot(lines[i]@, residual).s_negate().s_plus(prior_grads[i]).s_magnitude(),
        )
    }

    /// The change of channel `c` of a row's image.
    fn channel_change(
        &self,
        row: usize,
        current: &Vec<BasisEval<S>>,
        trial: &Vec<BasisEval<S>>,
        c: usize,
    ) -> (r: S)
        requires
            self.wf(),
            row < self.rows(),
            c < self.width(),
            self.row_fits(current@, row as int),
            self.row_fits(trial@, row as int),
        ensures
            r == self.image_change(
                current@,
                trial@,
                row as int,
                c as int,
                self.support(row as int).len() as int,
            ).total,
    {
        let support: &Vec<u32> = self.assignment().support_indices(row);
        let mut acc: KahanSum<S> = KahanSum::new();
        for slot in 0..support.len()
            invariant
                self.wf(),
                row < self.rows(),
                c < self.width(),
                support@ == self.support(row as int),
                self.row_fits(current@, row as int),
                self.row_fits(trial@, row as int),
                acc == self.image_change(current@, trial@, row as int, c as int, slot as int),
        {
            proof {
                self.lemma_active(row as int, slot as int);
                assert(current@[slot as int].has_shape(
                    self.active(row as int, slot as int).m() as nat,
                    self.active(row as int, slot as int).dim() as nat,
                ));
                assert(trial@[slot as int].has_shape(
                    self.active(row as int, slot as int).m() as nat,
                    self.active(row as int, slot as int).dim() as nat,
                ));
            }
            let atom = self.atom(support[slot] as usize);
            let decoder = atom.decoder_coefficients();
            let m: usize = atom.basis_size();
            let ghost start = acc;
            for basis in 0..m
                invariant
                    c < self.width(),
                    row < self.rows(),
                    slot < self.support(row as int).len(),
                    *atom == self.active(row as int, slot as int),
                    *decoder == atom.decoder(),
                    decoder.has_shape(m as nat, self.width()),
                    m == atom.m(),
                    slot < current@.len(),
                    slot < trial@.len(),
                    current@[slot as int].phi@.len() == m,
                    trial@[slot as int].phi@.len() == m,
                    acc == self.slot_change(
                        start,
                        current@,
                        trial@,
                        row as int,
                        slot as int,
                        c as int,
                        basis as int,
                    ),
            {
                let moved: S = trial[slot].phi[basis].minus(current[slot].phi[basis]);
                acc.add_term(moved.times(decoder.get(basis, c)));
            }
        }
        acc.sum()
    }

    /// Measures a trial point: the change of the row's objective, evaluated
    /// without subtracting two objectives, and the largest gradient entry.
    pub fn measure_trial(
        &self,
        row: usize,
        target: &Vec<S>,
        residual: &Vec<S>,
        current: &Vec<BasisEval<S>>,
        trial: &Vec<BasisEval<S>>,
        prior_changes: &Vec<S>,
        prior_grads: &Vec<S>,
    ) -> (r: TrialMeasure<S>)
        requires
            self.wf(),
            row < self.rows(),
            target@.len() == self.width(),
            residual@.len() == self.width(),
            self.row_fits(current@, row as int),
            self.row_fits(trial@, row as int),
            prior_grads@.len() == self.coords()[row as int].len(),
        ensures
            r.objective_delta == self.objective_change(
                residual@,
                current@,
                trial@,
                prior_changes@,
                row as int,
                prior_changes@.len() as int,
            ).total,
            exists|lines: Seq<Vec<S>>|
                {
                    &&& #[trigger] self.is_row_jacobian(trial@, row as int, lines)
                    &&& r.gradient_max == self.s_trial_gradient(
                        self.row_residual(target@, trial@, row as int),
                        lines,
                        prior_grads@,
                    )
                },
    {
        assert(self.state().row_wf(row as int));
        let width: usize = self.output_dim();
        let mut acc: KahanSum<S> = KahanSum::new();
        for c in 0..width
            invariant
                self.wf(),
                row < self.rows(),
                width == self.width(),
                residual@.len() == width,
                self.row_fits(current@, row as int),
                self.row_fits(trial@, row as int),
                acc == self.loss_change(residual@, current@, trial@, row as int, c as int),
        {
            let d: S = self.channel_change(row, current, trial, c);
            acc.add_term(d.fused(half::<S>().times(d).minus(residual[c]), S::zero()));
        }
        for i in 0..prior_changes.len()
            invariant
                acc == self.objective_change(
                    residual@,
                    current@,
                    trial@,
                    prior_changes@,
                    row as int,
                    i as int,
                ),
        {
            acc.add_term(prior_changes[i]);
        }
        let trial_residual: Vec<S> = self.residual_of_row(row, target, trial);
        let lines: Vec<Vec<S>> = self.row_jacobian(row, trial);
        let mut gradient_max: S = S::zero();
        let ghost f = |i: int|
            s_dot(lines@[i]@, trial_residual@).s_negate().s_plus(prior_grads@[i]).s_magnitude();
        for i in 0..lines.len()
            invariant
                prior_grads@.len() == lines@.len(),
                trial_residual@.len() == self.width(),
                forall|a: int|
                    0 <= a < lines@.len() ==> (#[trigger] lines@[a])@.len() == self.width(),
                f == (|i: int|
                    s_dot(lines@[i]@, trial_residual@).s_negate().s_plus(
                        prior_grads@[i],
                    ).s_magnitude()),
                gradient_max == s_max(S::s_zero(), i as int, f),
        {
            let slope: S = dot(&lines[i], &trial_residual).negate().plus(prior_grads[i]);
            gradient_max = gradient_max.larger(slope.magnitude());
        }
        assert(self.is_row_jacobian(trial@, row as int, lines@));
        TrialMeasure { objective_delta: acc.sum(), gradient_max }
    }
}

/// Why a row's solve fails.
#[derive(Clone, Copy, Debug)]
pub enum RowFault<S> {
    /// The direction is not a finite descent direction.
    NotDescent(S),
    /// No step decreases the objective.
    NoDecrease { best_gap: S, best_step: S },
}

/// Why a coordinate sweep is refused or fails.
#[derive(Clone, Copy, Debug)]
pub enum CoordinateSweepError<S> {
    Hyper(HyperFault),
    /// The trust radius is not finite and positive.
    TrustRadius,
    /// The tolerance is not finite and positive.
    Tolerance,
    Row { row: usize, fault: RowFault<S> },
    Shape(ShapeError),
}

/// A finite number above zero.
pub open spec fn is_step_size<S: Scalar>(value: S) -> bool {
    value.s_finite() && S::s_zero().s_below(value)
}

/// The first row whose solve failed, from `row` on.
pub open spec fn first_row_fault<S>(outcomes: Seq<Result<S, RowFault<S>>>, row: int) -> Option<
    CoordinateSweepError<S>,
>
    decreases outcomes.len() - row,
{
    if row < 0 || row >= outcomes.len() {
        None
    } else if outcomes[row] is Err {
        Some(CoordinateSweepError::Row { row: row as usize, fault: outcomes[row]->Err_0 })
    } else {
        first_row_fault(outcomes, row + 1)
    }
}

/// How far the first `n` rows moved at most.
pub open spec fn s_largest_change<S: Scalar>(outcomes: Seq<Result<S, RowFault<S>>>, n: int) -> S {
    s_max(S::s_zero(), n, |row: int| outcomes[row]->Ok_0)
}

impl<S: Scalar> SaeSupportSparseTerm<S> {
    /// What keeps a coordinate sweep from starting, if anything does.
    pub open spec fn coordinate_sweep_fault(
        &self,
        ard: Seq<Vec<S>>,
        trust_radius: S,
        tolerance: S,
    ) -> Option<CoordinateSweepError<S>> {
        if self.ard_fault(ard) is Some {
            Some(CoordinateSweepError::Hyper(self.ard_fault(ard)->0))
        } else if !is_step_size(trust_radius) {
            Some(CoordinateSweepError::TrustRadius)
        } else if !is_step_size(tolerance) {
            Some(CoordinateSweepError::Tolerance)
        } else {
            None
        }
    }

    /// Checks a coordinate sweep's parameters.
    pub fn check_coordinate_sweep(
        &self,
        ard: &Vec<Vec<S>>,
        trust_radius: S,
        tolerance: S,
    ) -> (r: Result<(), CoordinateSweepError<S>>)
        requires
            self.wf(),
        ensures
            r == (match self.coordinate_sweep_fault(ard@, trust_radius, tolerance) {
                None => Ok::<(), CoordinateSweepError<S>>(()),
                Some(fault) => Err(fault),
            }),
    {
        match self.validate_ard(ard) {
            Err(fault) => Err(CoordinateSweepError::Hyper(fault)),
            Ok(_) => {
                if !(trust_radius.finite() && S::zero().below(trust_radius)) {
                    Err(CoordinateSweepError::TrustRadius)
                } else if !(tolerance.finite() && S::zero().below(tolerance)) {
                    Err(CoordinateSweepError::Tolerance)
                } else {
                    Ok(())
                }
            },
        }
    }

    /// Ends a coordinate sweep: gives the largest move, and decodes anew the rows
    /// that moved. `table` holds the evaluations at the rows' new coordinates. A
    /// row that took no step keeps its decode.
    pub fn coordinate_sweep(
        &self,
        outcomes: &Vec<Result<S, RowFault<S>>>,
        table: &Vec<Vec<BasisEval<S>>>,
        fitted: &mut Matrix<S>,
    ) -> (r: Result<S, CoordinateSweepError<S>>)
        requires
            self.wf(),
            self.table_fits(table@),
            outcomes@.len() == self.rows(),
            old(fitted).wf(),
        ensures
            if first_row_fault(outcomes@, 0) is Some {
                &&& r == Err::<S, CoordinateSweepError<S>>(first_row_fault(outcomes@, 0)->0)
                &&& *final(fitted) == *old(fitted)
            } else if old(fitted).nrows() != self.rows() || old(fitted).ncols() != self.width() {
                &&& r == Err::<S, CoordinateSweepError<S>>(
                    CoordinateSweepError::Shape(
                        ShapeError {
                            found: (old(fitted).nrows() as usize, old(fitted).ncols() as usize),
                            expected: (self.rows() as usize, self.width() as usize),
                        },
                    ),
                )
                &&& *final(fitted) == *old(fitted)
            } else {
                &&& r == Ok::<S, CoordinateSweepError<S>>(
                    s_largest_change(outcomes@, self.rows() as int),
                )
                &&& self.is_refreshed(outcomes@, table@, old(fitted), final(fitted))
            },
    {
        let n: usize = self.n_obs();
        let width: usize = self.output_dim();
        let mut max_change: S = S::zero();
        let mut changes: Vec<S> = Vec::new();
        let ghost f = |row: int| outcomes@[row]->Ok_0;
        for row in 0..n
            invariant
                n == outcomes@.len(),
                f == (|row: int| outcomes@[row]->Ok_0),
                max_change == s_max(S::s_zero(), row as int, f),
                changes@.len() == row,
                forall|q: int| 0 <= q < row ==> #[trigger] changes@[q] == outcomes@[q]->Ok_0,
                first_row_fault(outcomes@, 0) == first_row_fault(outcomes@, row as int),
        {
            match outcomes[row] {
                Err(fault) => {
                    return Err(CoordinateSweepError::Row { row, fault });
                },
                Ok(change) => {
                    max_change = max_change.larger(change);
                    changes.push(change);
                },
            }
        }
        let found: (usize, usize) = (fitted.row_count(), fitted.col_count());
        if found.0 != n || found.1 != width {
            return Err(CoordinateSweepError::Shape(ShapeError { found, expected: (n, width) }));
        }
        let ghost before = *fitted;
        for row in 0..n
            invariant
                self.wf(),
                self.table_fits(table@),
                n == self.rows(),
                width == self.width(),
                outcomes@.len() == n,
                changes@.len() == n,
                forall|q: int| 0 <= q < n ==> #[trigger] changes@[q] == outcomes@[q]->Ok_0,
                fitted.has_shape(n as nat, width as nat),
                forall|q: int, c: int|
                    0 <= q < n && 0 <= c < width ==> #[trigger] fitted.at(q, c) == (if q < row
                        && !(outcomes@[q]->Ok_0).s_same(S::s_zero()) {
                        self.fitted(table@, q, c)
                    } else {
                        before.at(q, c)
                    }),
        {
            if !changes[row].same(S::zero()) {
                assert(self.row_fits(table@[row as int]@, row as int));
                let line: Vec<S> = self.reconstruct_row(row, &table[row]);
                for channel in 0..width
                    invariant
                        n == self.rows(),
                        width == self.width(),
                        row < n,
                        self.table_fits(table@),
                        !(outcomes@[row as int]->Ok_0).s_same(S::s_zero()),
                        line@.len() == width,
                        forall|c: int|
                            0 <= c < width ==> #[trigger] line@[c] == self.row_image(
                                table@[row as int]@,
                                row as int,
                                c,
                                table@[row as int]@.len() as int,
                            ),
                        fitted.has_shape(n as nat, width as nat),
                        forall|q: int, c: int|
                            0 <= q < n && 0 <= c < width ==> #[trigger] fitted.at(q, c) == (if (q
                                < row || (q == row && c < channel))
                                && !(outcomes@[q]->Ok_0).s_same(S::s_zero()) {
                                self.fitted(table@, q, c)
                            } else {
                                before.at(q, c)
                            }),
                {
                    proof {
                        self.lemma_row_image(table@, row as int, channel as int);
                    }
                    fitted.set(row, channel, line[channel]);
                }
            }
        }
        Ok(max_change)
    }

    /// The rows that moved are decoded anew; the others are as they were.
    pub open spec fn is_refreshed(
        &self,
        outcomes: Seq<Result<S, RowFault<S>>>,
        table: Seq<Vec<BasisEval<S>>>,
        before: &Matrix<S>,
        after: &Matrix<S>,
    ) -> bool {
        &&& after.has_shape(self.rows(), self.width())
        &&& forall|row: int, c: int|
            0 <= row < self.rows() && 0 <= c < self.width() ==> #[trigger] after.at(row, c) == (
            if (outcomes[row]->Ok_0).s_same(S::s_zero()) {
                before.at(row, c)
            } else {
                self.fitted(table, row, c)
            })
    }

    /// A maintained decode stays exact: if it was the reconstruction at the old
    /// evaluations, and the evaluations of the rows that took no step are the
    /// old ones, it is the reconstruction at the new evaluations.
    pub proof fn law_refreshed_decode_is_exact(
        &self,
        outcomes: Seq<Result<S, RowFault<S>>>,
        old_table: Seq<Vec<BasisEval<S>>>,
        new_table: Seq<Vec<BasisEval<S>>>,
        before: &Matrix<S>,
        after: &Matrix<S>,
    )
        requires
            self.is_reconstruction(old_table, before),
            self.is_refreshed(outcomes, new_table, before, after),
            forall|row: int|
                0 <= row < self.rows() && (outcomes[row]->Ok_0).s_same(S::s_zero()) ==> new_table[row]
                    == #[trigger] old_table[row],
        ensures
            self.is_reconstruction(new_table, after),
    {
        assert forall|row: int, c: int|
            0 <= row < self.rows() && 0 <= c < self.width() implies #[trigger] after.at(row, c)
            == self.fitted(new_table, row, c) by {
            if (outcomes[row]->Ok_0).s_same(S::s_zero()) {
                assert(new_table[row] == old_table[row]);
                let f = |slot: int| self.decoded(old_table, row, slot, c);
                let g = |slot: int| self.decoded(new_table, row, slot, c);
                assert(f =~= g);
                assert(before.at(row, c) == self.fitted(old_table, row, c));
            }
        }
    }
}

} // verus!
