//! Pooling of the smoothing strengths, and the joint fixed point of the
//! hyperparameters.
//!
//! Strengths are pooled on a logarithmic scale. The logarithms are handed in, and
//! what comes out is the logarithm of a new strength.
use crate::active::BasisEval;
use crate::hyper::AtomCensus;
use crate::matrix::Matrix;
use crate::objective::PriorTerm;
use crate::scalar::{copied, s_line_max_if, s_max, s_ragged_max_if, Scalar};
use crate::term::SaeSupportSparseTerm;
use vstd::prelude::*;

verus! {

/// A pooled strength.
#[derive(Clone, Copy, Debug)]
pub enum PooledScale<S> {
    /// The strength that the atom had.
    Kept(S),
    /// The exponential of this.
    Exp(S),
}

/// The strengths or the degrees of freedom are not one per atom.
#[derive(Clone, Copy, Debug, PartialEq, Eq, Structural)]
pub struct PoolFault {
    pub strengths: usize,
    pub freedoms: usize,
    pub atoms: usize,
}

/// Sums over the atoms of one family that speak to the shared scale.
pub struct PoolSums<S> {
    pub atoms: nat,
    pub weight: S,
    pub weighted_log: S,
}

/// How much an atom's own scale weighs, against one average atom of its family.
pub open spec fn s_own_weight<S: Scalar>(freedom: S, mean: S) -> S {
    freedom.s_over(freedom.s_plus(mean))
}

impl<S: Scalar> SaeSupportSparseTerm<S> {
    /// Atom `a` has a periodic axis.
    pub open spec fn is_periodic_atom(&self, a: int) -> bool {
        exists|axis: int|
            0 <= axis < self.state().dims()[a] && #[trigger] self.state().periods(
                a,
            )[axis] is Some
    }

    fn has_period(&self, atom: usize) -> (r: bool)
        requires
            self.wf(),
            atom < self.k(),
        ensures
            r == self.is_periodic_atom(atom as int),
    {
        let periods: &Vec<Option<S>> = self.assignment().atom_axis_periods(atom);
        let dim: usize = self.assignment().atom_coord_dim(atom);
        for axis in 0..dim
            invariant
                dim == self.state().dims()[atom as int],
                periods@ == self.state().periods(atom as int),
                periods@.len() == dim,
                forall|x: int|
                    0 <= x < axis ==> !(#[trigger] self.state().periods(
                        atom as int,
                    )[x] is Some),
        {
            if periods[axis].is_some() {
                assert(self.state().periods(atom as int)[axis as int] is Some);
                return true;
            }
        }
        false
    }

    /// Atom `a` is in the pool of a family: some row uses it, and its degrees of
    /// freedom are finite. How many they are does not matter.
    pub open spec fn is_pooled(&self, freedoms: Seq<S>, periodic: bool, a: int) -> bool {
        &&& self.uses()[a].len() > 0
        &&& freedoms[a].s_finite()
        &&& self.is_periodic_atom(a) == periodic
    }

    /// Atom `a` speaks to where its family's shared scale lies.
    pub open spec fn contributes(
        &self,
        freedoms: Seq<S>,
        logs: Seq<S>,
        periodic: bool,
        a: int,
    ) -> bool {
        &&& self.is_pooled(freedoms, periodic, a)
        &&& logs[a].s_finite()
        &&& S::s_zero().s_below(freedoms[a].s_larger(S::s_zero()))
    }

    /// The sums over the contributors among the first `n` atoms.
    pub open spec fn pool_sums(
        &self,
        freedoms: Seq<S>,
        logs: Seq<S>,
        periodic: bool,
        n: int,
    ) -> PoolSums<S>
        decreases n,
    {
        if n <= 0 {
            PoolSums { atoms: 0, weight: S::s_zero(), weighted_log: S::s_zero() }
        } else {
            let before = self.pool_sums(freedoms, logs, periodic, n - 1);
            if self.contributes(freedoms, logs, periodic, n - 1) {
                let df = freedoms[n - 1].s_larger(S::s_zero());
                PoolSums {
                    atoms: before.atoms + 1,
                    weight: before.weight.s_plus(df),
                    weighted_log: before.weighted_log.s_plus(logs[n - 1].s_times(df)),
                }
            } else {
                before
            }
        }
    }

    /// Atom `a`'s pooled strength: its own logarithm, weighted by its degrees of
    /// freedom against one average atom of its family, and the family's shared
    /// one. An atom outside the pool, or in a family without weight, keeps its
    /// strength.
    pub open spec fn pooled_scale(
        &self,
        strengths: Seq<S>,
        freedoms: Seq<S>,
        logs: Seq<S>,
        a: int,
    ) -> PooledScale<S> {
        let periodic = self.is_periodic_atom(a);
        let sums = self.pool_sums(freedoms, logs, periodic, self.k() as int);
        let shared = sums.weighted_log.s_over(sums.weight);
        let df = freedoms[a].s_larger(S::s_zero());
        let own = s_own_weight(df, sums.weight.s_over(S::s_count(sums.atoms)));
        if !self.is_pooled(freedoms, periodic, a) || !S::s_zero().s_below(sums.weight) {
            PooledScale::Kept(strengths[a])
        } else if S::s_zero().s_below(own) && logs[a].s_finite() {
            PooledScale::Exp(
                own.s_times(logs[a]).s_plus(S::s_one().s_minus(own).s_times(shared)),
            )
        } else {
            PooledScale::Exp(shared)
        }
    }

    fn sum_pool(&self, freedoms: &Vec<S>, logs: &Vec<S>, periodic: bool) -> (r: (usize, S, S))
        requires
            self.wf(),
            freedoms@.len() == self.k(),
            logs@.len() == self.k(),
        ensures
            ({
                let sums = self.pool_sums(freedoms@, logs@, periodic, self.k() as int);
                &&& r.0 == sums.atoms
                &&& r.1 == sums.weight
                &&& r.2 == sums.weighted_log
            }),
    {
        let k_atoms: usize = self.k_atoms();
        let mut atoms: usize = 0;
        let mut weight: S = S::zero();
        let mut weighted_log: S = S::zero();
        for atom in 0..k_atoms
            invariant
                self.wf(),
                k_atoms == self.k(),
                freedoms@.len() == k_atoms,
                logs@.len() == k_atoms,
                atoms <= atom,
                atoms == self.pool_sums(freedoms@, logs@, periodic, atom as int).atoms,
                weight == self.pool_sums(freedoms@, logs@, periodic, atom as int).weight,
                weighted_log == self.pool_sums(
                    freedoms@,
                    logs@,
                    periodic,
                    atom as int,
                ).weighted_log,
        {
            if self.rows_of_atom(atom).len() > 0 && freedoms[atom].finite() && self.has_period(
                atom,
            ) == periodic {
                let df: S = freedoms[atom].larger(S::zero());
                if logs[atom].finite() && S::zero().below(df) {
                    atoms = atoms + 1;
                    weight = weight.plus(df);
                    weighted_log = weighted_log.plus(logs[atom].times(df));
                }
            }
        }
        (atoms, weight, weighted_log)
    }

    /// Pools the strengths of each family towards its shared scale. `logs` holds
    /// the strengths' logarithms.
    pub fn pooled_smoothing(&self, strengths: &Vec<S>, freedoms: &Vec<S>, logs: &Vec<S>) -> (r: Result<
        Vec<PooledScale<S>>,
        PoolFault,
    >)
        requires
            self.wf(),
            logs@.len() == strengths@.len(),
        ensures
            if strengths@.len() != self.k() || freedoms@.len() != self.k() {
                r == Err::<Vec<PooledScale<S>>, PoolFault>(
                    PoolFault {
                        strengths: strengths@.len() as usize,
                        freedoms: freedoms@.len() as usize,
                        atoms: self.k() as usize,
                    },
                )
            } else {
                &&& r is Ok
                &&& r->Ok_0@.len() == self.k()
                &&& forall|a: int|
                    0 <= a < self.k() ==> #[trigger] r->Ok_0@[a] == self.pooled_scale(
                        strengths@,
                        freedoms@,
                        logs@,
                        a,
                    )
            },
    {
        let k_atoms: usize = self.k_atoms();
        if strengths.len() != k_atoms || freedoms.len() != k_atoms {
            return Err(
                PoolFault {
                    strengths: strengths.len(),
                    freedoms: freedoms.len(),
                    atoms: k_atoms,
                },
            );
        }
        let straight: (usize, S, S) = self.sum_pool(freedoms, logs, false);
        let circular: (usize, S, S) = self.sum_pool(freedoms, logs, true);
        let mut out: Vec<PooledScale<S>> = Vec::new();
        for atom in 0..k_atoms
            invariant
                self.wf(),
                k_atoms == self.k(),
                strengths@.len() == k_atoms,
                freedoms@.len() == k_atoms,
                logs@.len() == k_atoms,
                ({
                    let sums = self.pool_sums(freedoms@, logs@, false, self.k() as int);
                    straight.0 == sums.atoms && straight.1 == sums.weight && straight.2
                        == sums.weighted_log
                }),
                ({
                    let sums = self.pool_sums(freedoms@, logs@, true, self.k() as int);
                    circular.0 == sums.atoms && circular.1 == sums.weight && circular.2
                        == sums.weighted_log
                }),
                out@.len() == atom,
                forall|a: int|
                    0 <= a < atom ==> #[trigger] out@[a] == self.pooled_scale(
                        strengths@,
                        freedoms@,
                        logs@,
                        a,
                    ),
        {
            let sums: (usize, S, S) = if self.has_period(atom) {
                circular
            } else {
                straight
            };
            if self.rows_of_atom(atom).len() == 0 || !freedoms[atom].finite() || !S::zero().below(
                sums.1,
            ) {
                out.push(PooledScale::Kept(strengths[atom]));
            } else {
                let shared: S = sums.2.over(sums.1);
                let df: S = freedoms[atom].larger(S::zero());
                let own: S = df.over(df.plus(sums.1.over(S::count(sums.0))));
                if S::zero().below(own) && logs[atom].finite() {
                    let value: S = own.times(logs[atom]).plus(S::one().minus(own).times(shared));
                    out.push(PooledScale::Exp(value));
                } else {
                    out.push(PooledScale::Exp(shared));
                }
            }
        }
        Ok(out)
    }
}

/// Where three iterates of a contraction are going, on the logarithmic scale:
/// nowhere, unless all three are positive, the first step is not rounding, and
/// the second step is a fraction of it.
pub open spec fn s_aitken_limit<S: Scalar>(values: (S, S, S), logs: (S, S, S)) -> Option<S> {
    let d1 = logs.1.s_minus(logs.0);
    let d2 = logs.2.s_minus(logs.1);
    let rate = d2.s_over(d1);
    let limit = logs.2.s_plus(d2.s_times(rate).s_over(S::s_one().s_minus(rate)));
    if S::s_zero().s_below(values.0) && S::s_zero().s_below(values.1) && S::s_zero().s_below(
        values.2,
    ) && !d1.s_magnitude().s_at_most(S::s_epsilon()) && S::s_zero().s_below(rate)
        && rate.s_below(S::s_one()) && limit.s_finite() {
        Some(limit)
    } else {
        None
    }
}

/// Where three iterates of a contraction are going, on the logarithmic scale.
pub fn aitken_limit<S: Scalar>(values: (S, S, S), logs: (S, S, S)) -> (r: Option<S>)
    ensures
        r == s_aitken_limit(values, logs),
{
    if !(S::zero().below(values.0) && S::zero().below(values.1) && S::zero().below(values.2)) {
        return None;
    }
    let d1: S = logs.1.minus(logs.0);
    let d2: S = logs.2.minus(logs.1);
    if d1.magnitude().at_most(S::epsilon()) {
        return None;
    }
    let rate: S = d2.over(d1);
    if S::zero().below(rate) && rate.below(S::one()) {
        let limit: S = logs.2.plus(d2.times(rate).over(S::one().minus(rate)));
        if limit.finite() {
            return Some(limit);
        }
    }
    None
}

/// How far the degrees of freedom move.
pub fn freedom_move<S: Scalar>(before: &Vec<S>, after: &Vec<S>) -> (r: S)
    requires
        before@.len() == after@.len(),
    ensures
        r == s_max(
            S::s_zero(),
            before@.len() as int,
            |a: int| after@[a].s_minus(before@[a]).s_magnitude(),
        ),
{
    let mut out: S = S::zero();
    let ghost f = |a: int| after@[a].s_minus(before@[a]).s_magnitude();
    for a in 0..before.len()
        invariant
            before@.len() == after@.len(),
            f == (|a: int| after@[a].s_minus(before@[a]).s_magnitude()),
            out == s_max(S::s_zero(), a as int, f),
    {
        out = out.larger(after[a].minus(before[a]).magnitude());
    }
    out
}

/// Lists of the same lengths.
pub open spec fn same_lengths<T, U>(left: Seq<Vec<T>>, right: Seq<Vec<U>>) -> bool {
    &&& left.len() == right.len()
    &&& forall|a: int| 0 <= a < left.len() ==> (#[trigger] left[a])@.len() == right[a]@.len()
}

/// How far the precisions move on the logarithmic scale; only those that are
/// positive before and after count.
pub open spec fn s_precision_move<S: Scalar>(
    before: Seq<Vec<S>>,
    after: Seq<Vec<S>>,
    logs_before: Seq<Vec<S>>,
    logs_after: Seq<Vec<S>>,
) -> S {
    s_ragged_max_if(
        S::s_zero(),
        after.len() as int,
        |a: int| after[a]@.len() as int,
        |a: int, axis: int|
            S::s_zero().s_below(after[a]@[axis]) && S::s_zero().s_below(before[a]@[axis]),
        |a: int, axis: int| logs_after[a]@[axis].s_minus(logs_before[a]@[axis]).s_magnitude(),
    )
}

/// How far the precisions move on the logarithmic scale.
pub fn precision_move<S: Scalar>(
    before: &Vec<Vec<S>>,
    after: &Vec<Vec<S>>,
    logs_before: &Vec<Vec<S>>,
    logs_after: &Vec<Vec<S>>,
) -> (r: S)
    requires
        same_lengths(after@, before@),
        same_lengths(after@, logs_before@),
        same_lengths(after@, logs_after@),
    ensures
        r == s_precision_move(before@, after@, logs_before@, logs_after@),
{
    let ghost width = |a: int| after@[a]@.len() as int;
    let ghost keep = |a: int, axis: int|
        S::s_zero().s_below(after@[a]@[axis]) && S::s_zero().s_below(before@[a]@[axis]);
    let ghost size = |a: int, axis: int|
        logs_after@[a]@[axis].s_minus(logs_before@[a]@[axis]).s_magnitude();
    let mut out: S = S::zero();
    for a in 0..after.len()
        invariant
            same_lengths(after@, before@),
            same_lengths(after@, logs_before@),
            same_lengths(after@, logs_after@),
            width == (|a: int| after@[a]@.len() as int),
            keep == (|a: int, axis: int|
                S::s_zero().s_below(after@[a]@[axis]) && S::s_zero().s_below(before@[a]@[axis])),
            size == (|a: int, axis: int|
                logs_after@[a]@[axis].s_minus(logs_before@[a]@[axis]).s_magnitude()),
            out == s_ragged_max_if(S::s_zero(), a as int, width, keep, size),
    {
        let ghost start = out;
        let dim: usize = after[a].len();
        for axis in 0..dim
            invariant
                a < after@.len(),
                same_lengths(after@, before@),
                same_lengths(after@, logs_before@),
                same_lengths(after@, logs_after@),
                dim == after@[a as int]@.len(),
                keep == (|a: int, axis: int|
                    S::s_zero().s_below(after@[a]@[axis]) && S::s_zero().s_below(
                        before@[a]@[axis],
                    )),
                size == (|a: int, axis: int|
                    logs_after@[a]@[axis].s_minus(logs_before@[a]@[axis]).s_magnitude()),
                out == s_line_max_if(start, a as int, axis as int, keep, size),
        {
            assert(after@[a as int]@.len() == before@[a as int]@.len());
            assert(after@[a as int]@.len() == logs_before@[a as int]@.len());
            assert(after@[a as int]@.len() == logs_after@[a as int]@.len());
            if S::zero().below(after[a][axis]) && S::zero().below(before[a][axis]) {
                out = out.larger(logs_after[a][axis].minus(logs_before[a][axis]).magnitude());
            }
        }
    }
    out
}

/// The joint fixed point of strengths and precisions.
#[derive(Debug)]
pub struct JointSolve<S> {
    pub strengths: Vec<S>,
    pub precisions: Vec<Vec<S>>,
    /// The last two sweeps' strengths.
    pub previous: Option<Vec<S>>,
    pub before_previous: Option<Vec<S>>,
    pub sweeps: usize,
    pub max_sweeps: usize,
    pub tolerance: S,
    pub done: bool,
}

/// The relative tolerance is not positive.
#[derive(Clone, Copy, Debug)]
pub struct ToleranceFault<S> {
    pub found: S,
}

impl<S: Scalar> JointSolve<S> {
    pub open spec fn wf(&self) -> bool {
        &&& self.sweeps <= self.max_sweeps
        &&& !self.done ==> self.sweeps < self.max_sweeps
        &&& self.previous is Some <==> self.sweeps >= 1
        &&& self.before_previous is Some <==> self.sweeps >= 2
        &&& self.previous is Some ==> self.previous->0@ == self.strengths@
    }

    /// Where the contraction of atom `a`'s strength is going, given the next
    /// iterate: unknown before two sweeps have been made.
    pub open spec fn limit_at(
        &self,
        next: Seq<S>,
        log_next: Seq<S>,
        log_previous: Seq<S>,
        log_before: Seq<S>,
        a: int,
    ) -> Option<S> {
        if self.before_previous is Some {
            s_aitken_limit(
                (self.before_previous->0@[a], self.previous->0@[a], next[a]),
                (log_before[a], log_previous[a], log_next[a]),
            )
        } else {
            None
        }
    }

    /// For each strength, where its contraction is going.
    pub fn limits(
        &self,
        next: &Vec<S>,
        log_next: &Vec<S>,
        log_previous: &Vec<S>,
        log_before: &Vec<S>,
    ) -> (r: Vec<Option<S>>)
        requires
            self.wf(),
            next@.len() == self.strengths@.len(),
            log_next@.len() == next@.len(),
            log_previous@.len() == next@.len(),
            log_before@.len() == next@.len(),
            self.before_previous is Some ==> self.before_previous->0@.len() == next@.len(),
        ensures
            r@.len() == next@.len(),
            forall|a: int|
                0 <= a < next@.len() ==> #[trigger] r@[a] == self.limit_at(
                    next@,
                    log_next@,
                    log_previous@,
                    log_before@,
                    a,
                ),
    {
        let mut out: Vec<Option<S>> = Vec::new();
        for a in 0..next.len()
            invariant
                self.wf(),
                next@.len() == self.strengths@.len(),
                log_next@.len() == next@.len(),
                log_previous@.len() == next@.len(),
                log_before@.len() == next@.len(),
                self.before_previous is Some ==> self.before_previous->0@.len() == next@.len(),
                out@.len() == a,
                forall|b: int|
                    0 <= b < a ==> #[trigger] out@[b] == self.limit_at(
                        next@,
                        log_next@,
                        log_previous@,
                        log_before@,
                        b,
                    ),
        {
            let limit: Option<S> = match (&self.before_previous, &self.previous) {
                (Some(before), Some(previous)) => aitken_limit(
                    (before[a], previous[a], next[a]),
                    (log_before[a], log_previous[a], log_next[a]),
                ),
                _ => None,
            };
            out.push(limit);
        }
        out
    }

    /// Ends a sweep: the solve is done when neither kind of hyperparameter moved
    /// by more than the tolerance, or when the budget is spent.
    pub fn sweep(
        &mut self,
        strengths: Vec<S>,
        precisions: Vec<Vec<S>>,
        strength_move: S,
        precision_move: S,
    )
        requires
            old(self).wf(),
            !old(self).done,
        ensures
            final(self).wf(),
            final(self).strengths == strengths,
            final(self).precisions == precisions,
            final(self).previous is Some,
            final(self).before_previous == old(self).previous,
            final(self).sweeps == old(self).sweeps + 1,
            final(self).max_sweeps == old(self).max_sweeps,
            final(self).tolerance == old(self).tolerance,
            final(self).done == (strength_move.s_larger(precision_move).s_at_most(
                old(self).tolerance,
            ) || final(self).sweeps == final(self).max_sweeps),
    {
        let mut earlier: Option<Vec<S>> = Some(copied(&strengths));
        std::mem::swap(&mut earlier, &mut self.previous);
        self.before_previous = earlier;
        self.strengths = strengths;
        self.precisions = precisions;
        self.sweeps = self.sweeps + 1;
        self.done = strength_move.larger(precision_move).at_most(self.tolerance) || self.sweeps
            == self.max_sweeps;
    }
}

impl<S: Scalar> SaeSupportSparseTerm<S> {
    /// Begins the joint fixed point at the given hyperparameters. `budget` sweeps
    /// are made at most, but never less than two.
    pub fn joint_hyperparameter_fixed_point(
        &self,
        strengths: &Vec<S>,
        precisions: &Vec<Vec<S>>,
        tolerance: S,
        budget: usize,
    ) -> (r: Result<JointSolve<S>, ToleranceFault<S>>)
        ensures
            r is Ok <==> S::s_zero().s_below(tolerance),
            r matches Err(fault) ==> fault.found == tolerance,
            r matches Ok(solve) ==> {
                &&& solve.wf()
                &&& solve.strengths@ == strengths@
                &&& solve.precisions@.len() == precisions@.len()
                &&& forall|a: int|
                    0 <= a < precisions@.len() ==> (#[trigger] solve.precisions@[a])@
                        == precisions@[a]@
                &&& solve.sweeps == 0
                &&& solve.max_sweeps == (if budget < 2 {
                    2
                } else {
                    budget
                })
                &&& solve.tolerance == tolerance
                &&& !solve.done
            },
    {
        if !S::zero().below(tolerance) {
            return Err(ToleranceFault { found: tolerance });
        }
        let mut copies: Vec<Vec<S>> = Vec::new();
        for a in 0..precisions.len()
            invariant
                copies@.len() == a,
                forall|b: int| 0 <= b < a ==> (#[trigger] copies@[b])@ == precisions@[b]@,
        {
            copies.push(copied(&precisions[a]));
        }
        let max_sweeps: usize = if budget < 2 {
            2
        } else {
            budget
        };
        Ok(
            JointSolve {
                strengths: copied(strengths),
                precisions: copies,
                previous: None,
                before_previous: None,
                sweeps: 0,
                max_sweeps,
                tolerance,
                done: false,
            },
        )
    }
}

/// An atom that no row uses shows nothing: its strength and its precisions are
/// kept, pooled or not, and it has no degrees of freedom.
pub proof fn law_an_unused_atom_keeps_its_hyperparameters<S: Scalar>(
    term: &SaeSupportSparseTerm<S>,
    strengths: Seq<S>,
    ard: Seq<Vec<S>>,
    residual: &Matrix<S>,
    census: Seq<AtomCensus<S>>,
    freedoms: Seq<S>,
    logs: Seq<S>,
    table: Seq<Vec<BasisEval<S>>>,
    priors: Seq<Vec<Vec<PriorTerm<S>>>>,
    a: int,
)
    requires
        0 <= a < term.k(),
        term.uses()[a].len() == 0,
    ensures
        term.smoothing_update(strengths, residual, census, a) == strengths[a],
        term.pooled_scale(strengths, freedoms, logs, a) == PooledScale::Kept(strengths[a]),
        term.curvature_df(census, a) == S::s_zero(),
        forall|axis: int|
            #[trigger] term.precision_update(ard, table, priors, a, axis) == ard[a]@[axis],
{
}

} // verus!
