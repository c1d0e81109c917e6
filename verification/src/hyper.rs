//! Hyperparameters: smoothing strengths, prior precisions, and their joint fixed
//! point.
//!
//! An atom's census (a trace and a null dimension) comes from `spectral`; a
//! logarithm or an exponential is taken elsewhere and handed in.
use crate::active::{s_tangent, ActiveAtom, BasisEval, ShapeError};
use crate::matrix::{matrix_energy, matrix_max_abs, s_matrix_energy, s_matrix_max_abs, Matrix};
use crate::objective::{HyperFault, PriorTerm};
use crate::scalar::{
    at_least_one, count_at_least_one, s_sum, Scalar,
};
use crate::term::SaeSupportSparseTerm;
use vstd::prelude::*;

verus! {

/// An atom's effective degrees of freedom, and those of its penalty's null
/// space.
#[derive(Clone, Copy, Debug)]
pub struct AtomCensus<S> {
    pub trace: S,
    pub null_dim: S,
}

/// Why a smoothing update is not given.
#[derive(Clone, Copy, Debug)]
pub enum SmoothingFault<S> {
    Hyper(HyperFault),
    Shape(ShapeError),
    /// The decoders spend all degrees of freedom, and leave none for the scale.
    NoResidual { spent: S, total: S },
}

impl<S: Scalar> SaeSupportSparseTerm<S> {
    /// The roughness below which atom `a`'s is rounding.
    pub open spec fn roughness_floor(&self, a: int) -> S {
        let atom = self.atom_seq()[a];
        S::s_epsilon().s_times(s_matrix_max_abs(&atom.penalty())).s_times(
            s_matrix_energy(&atom.decoder()),
        ).s_times(S::s_count(at_least_one(atom.m() as nat)))
    }

    fn roughness_floor_of(&self, atom: usize) -> (r: S)
        requires
            self.wf(),
            atom < self.k(),
        ensures
            r == self.roughness_floor(atom as int),
    {
        assert(self.atom_wf(atom as int));
        let template = self.atom(atom);
        S::epsilon().times(matrix_max_abs(template.smooth_penalty())).times(
            matrix_energy(template.decoder_coefficients()),
        ).times(count_at_least_one::<S>(template.basis_size()))
    }

    /// What an atom's decoder spends in one channel: its trace, or nothing where no
    /// row uses it.
    pub open spec fn spent_by(&self, census: Seq<AtomCensus<S>>) -> spec_fn(int) -> S {
        |a: int|
            if self.uses()[a].len() > 0 {
                census[a].trace
            } else {
                S::s_zero()
            }
    }

    /// The degrees of freedom the decoders spend, once for each channel.
    pub open spec fn spent_df(&self, census: Seq<AtomCensus<S>>) -> S {
        s_sum(S::s_zero(), census.len() as int, self.spent_by(census)).s_times(
            S::s_count(self.width()),
        )
    }

    pub open spec fn total_df(&self) -> S {
        S::s_count(self.rows() * self.width())
    }

    /// The profiled scale: the residual's energy over the degrees of freedom left.
    pub open spec fn s_profiled_scale(&self, residual: &Matrix<S>, census: Seq<AtomCensus<S>>) -> S {
        s_matrix_energy(residual).s_over(self.total_df().s_minus(self.spent_df(census)))
    }

    /// The strength that the evidence asks for: scale times the signal's degrees
    /// of freedom, over the roughness.
    pub open spec fn smoothing_candidate(
        &self,
        residual: &Matrix<S>,
        census: Seq<AtomCensus<S>>,
        a: int,
    ) -> S {
        self.s_profiled_scale(residual, census).s_times(S::s_count(self.width())).s_times(
            census[a].trace.s_minus(census[a].null_dim),
        ).s_over(self.atom_roughness(a))
    }

    /// Atom `a` has rows, a roughness above rounding, and degrees of freedom
    /// beyond its null space.
    pub open spec fn has_smoothing_evidence(&self, census: Seq<AtomCensus<S>>, a: int) -> bool {
        &&& self.uses()[a].len() > 0
        &&& self.roughness_floor(a).s_below(self.atom_roughness(a))
        &&& S::s_zero().s_below(census[a].trace.s_minus(census[a].null_dim))
    }

    /// Atom `a`'s updated strength; without evidence, or without a finite positive
    /// candidate, it is kept.
    pub open spec fn smoothing_update(
        &self,
        lambda: Seq<S>,
        residual: &Matrix<S>,
        census: Seq<AtomCensus<S>>,
        a: int,
    ) -> S {
        let candidate = self.smoothing_candidate(residual, census, a);
        if self.has_smoothing_evidence(census, a) && candidate.s_finite() && S::s_zero().s_below(
            candidate,
        ) {
            candidate
        } else {
            lambda[a]
        }
    }

    /// What keeps the smoothing update from being made, if anything does.
    pub open spec fn fellner_schall_fault(
        &self,
        lambda: Seq<S>,
        census: Seq<AtomCensus<S>>,
    ) -> Option<SmoothingFault<S>> {
        if self.smoothing_fault(lambda) is Some {
            Some(SmoothingFault::Hyper(self.smoothing_fault(lambda)->0))
        } else if !S::s_zero().s_below(self.total_df().s_minus(self.spent_df(census))) {
            Some(
                SmoothingFault::NoResidual {
                    spent: self.spent_df(census),
                    total: self.total_df(),
                },
            )
        } else {
            None
        }
    }

    /// One update of the smoothing strengths at the given residual.
    pub fn fellner_schall_smoothing_with_residual(
        &self,
        lambda: &Vec<S>,
        residual: &Matrix<S>,
        census: &Vec<AtomCensus<S>>,
    ) -> (r: Result<Vec<S>, SmoothingFault<S>>)
        requires
            self.wf(),
            residual.has_shape(self.rows(), self.width()),
            census@.len() == self.k(),
        ensures
            match self.fellner_schall_fault(lambda@, census@) {
                Some(fault) => r == Err::<Vec<S>, SmoothingFault<S>>(fault),
                None => {
                    &&& r is Ok
                    &&& r->Ok_0@.len() == self.k()
                    &&& forall|a: int|
                        0 <= a < self.k() ==> #[trigger] r->Ok_0@[a] == self.smoothing_update(
                            lambda@,
                            residual,
                            census@,
                            a,
                        )
                },
            },
    {
        match self.validate_smoothing(lambda) {
            Err(fault) => {
                return Err(SmoothingFault::Hyper(fault));
            },
            Ok(_) => {},
        }
        let k_atoms: usize = self.k_atoms();
        let width: usize = self.output_dim();
        proof {
            residual.lemma_size();
        }
        let mut traces: S = S::zero();
        for atom in 0..k_atoms
            invariant
                self.wf(),
                k_atoms == self.k(),
                census@.len() == k_atoms,
                traces == s_sum(S::s_zero(), atom as int, self.spent_by(census@)),
        {
            let spent: S = if self.rows_of_atom(atom).len() > 0 {
                census[atom].trace
            } else {
                S::zero()
            };
            traces = traces.plus(spent);
        }
        let channels: S = S::count(width);
        let spent: S = traces.times(channels);
        let total: S = S::count(self.n_obs() * width);
        let residual_df: S = total.minus(spent);
        if !S::zero().below(residual_df) {
            return Err(SmoothingFault::NoResidual { spent, total });
        }
        let scale: S = matrix_energy(residual).over(residual_df);
        let mut updated: Vec<S> = Vec::new();
        for atom in 0..k_atoms
            invariant
                self.wf(),
                k_atoms == self.k(),
                lambda@.len() == k_atoms,
                census@.len() == k_atoms,
                channels == S::s_count(self.width()),
                scale == self.s_profiled_scale(residual, census@),
                updated@.len() == atom,
                forall|a: int|
                    0 <= a < atom ==> #[trigger] updated@[a] == self.smoothing_update(
                        lambda@,
                        residual,
                        census@,
                        a,
                    ),
        {
            let signal: S = census[atom].trace.minus(census[atom].null_dim);
            let roughness: S = self.roughness_of(atom);
            let floor: S = self.roughness_floor_of(atom);
            let mut value: S = lambda[atom];
            if self.rows_of_atom(atom).len() > 0 && floor.below(roughness) && S::zero().below(
                signal,
            ) {
                let candidate: S = scale.times(channels).times(signal).over(roughness);
                if candidate.finite() && S::zero().below(candidate) {
                    value = candidate;
                }
            }
            updated.push(value);
        }
        Ok(updated)
    }

    /// One update of the smoothing strengths at the term's own reconstruction of
    /// `target`.
    pub fn fellner_schall_smoothing(
        &self,
        target: &Matrix<S>,
        table: &Vec<Vec<BasisEval<S>>>,
        lambda: &Vec<S>,
        census: &Vec<AtomCensus<S>>,
    ) -> (r: Result<Vec<S>, SmoothingFault<S>>)
        requires
            self.wf(),
            target.wf(),
            self.table_fits(table@),
            census@.len() == self.k(),
        ensures
            if target.nrows() != self.rows() || target.ncols() != self.width() {
                r == Err::<Vec<S>, SmoothingFault<S>>(
                    SmoothingFault::Shape(
                        ShapeError {
                            found: (target.nrows() as usize, target.ncols() as usize),
                            expected: (self.rows() as usize, self.width() as usize),
                        },
                    ),
                )
            } else {
                match self.fellner_schall_fault(lambda@, census@) {
                    Some(fault) => r == Err::<Vec<S>, SmoothingFault<S>>(fault),
                    None => {
                        &&& r is Ok
                        &&& r->Ok_0@.len() == self.k()
                        &&& exists|residual: Matrix<S>|
                            {
                                &&& #[trigger] self.is_residual(target, table@, &residual)
                                &&& forall|a: int|
                                    0 <= a < self.k() ==> #[trigger] r->Ok_0@[a]
                                        == self.smoothing_update(
                                        lambda@,
                                        &residual,
                                        census@,
                                        a,
                                    )
                            }
                    },
                }
            },
    {
        match self.raw_residual(target, table) {
            Err(e) => Err(SmoothingFault::Shape(e)),
            Ok(residual) => {
                assert(self.is_residual(target, table@, &residual));
                self.fellner_schall_smoothing_with_residual(lambda, &residual, census)
            },
        }
    }

    /// Atom `a`'s degrees of freedom beyond its penalty's null space; an atom
    /// that no row uses has none.
    pub open spec fn curvature_df(&self, census: Seq<AtomCensus<S>>, a: int) -> S {
        if self.uses()[a].len() == 0 {
            S::s_zero()
        } else {
            census[a].trace.s_minus(census[a].null_dim)
        }
    }

    /// Every atom's degrees of freedom beyond its penalty's null space.
    pub fn effective_curvature_df(&self, lambda: &Vec<S>, census: &Vec<AtomCensus<S>>) -> (r: Result<
        Vec<S>,
        HyperFault,
    >)
        requires
            self.wf(),
            census@.len() == self.k(),
        ensures
            match self.smoothing_fault(lambda@) {
                Some(fault) => r == Err::<Vec<S>, HyperFault>(fault),
                None => {
                    &&& r is Ok
                    &&& r->Ok_0@.len() == self.k()
                    &&& forall|a: int|
                        0 <= a < self.k() ==> #[trigger] r->Ok_0@[a] == self.curvature_df(
                            census@,
                            a,
                        )
                },
            },
    {
        match self.validate_smoothing(lambda) {
            Err(fault) => {
                return Err(fault);
            },
            Ok(_) => {},
        }
        let k_atoms: usize = self.k_atoms();
        let mut out: Vec<S> = Vec::new();
        for atom in 0..k_atoms
            invariant
                self.wf(),
                k_atoms == self.k(),
                census@.len() == k_atoms,
                out@.len() == atom,
                forall|a: int|
                    0 <= a < atom ==> #[trigger] out@[a] == self.curvature_df(census@, a),
        {
            if self.rows_of_atom(atom).len() == 0 {
                out.push(S::zero());
            } else {
                out.push(census[atom].trace.minus(census[atom].null_dim));
            }
        }
        Ok(out)
    }
}

/// What an axis's uses show: how many of them are evidence, how many coordinates
/// the likelihood has pinned down, and their second moment.
#[derive(Clone, Copy, Debug)]
pub struct AxisEvidence<S> {
    pub uses: usize,
    pub gamma: S,
    pub energy: S,
}

/// The well-determined fraction of a coordinate, between zero and one.
pub open spec fn s_determined<S: Scalar>(alpha: S, curvature: S) -> S {
    S::s_one().s_minus(alpha.s_over(curvature).s_smaller(S::s_one())).s_larger(S::s_zero())
}

/// Sums over one family of axes.
pub struct GroupSums<S> {
    pub axes: nat,
    pub gamma: S,
    pub energy: S,
}

impl<S: Scalar> SaeSupportSparseTerm<S> {
    /// The curvature of the coordinate on `axis` of atom `a`'s `e`-th use: the
    /// tangent's energy plus the prior's.
    pub open spec fn axis_curvature(
        &self,
        table: Seq<Vec<BasisEval<S>>>,
        priors: Seq<Vec<Vec<PriorTerm<S>>>>,
        a: int,
        axis: int,
        e: int,
    ) -> S {
        let (row, slot) = self.uses()[a][e];
        let atom = self.atom_seq()[a];
        s_sum(
            S::s_zero(),
            self.width() as int,
            |c: int|
                s_tangent(atom, table[row as int]@[slot as int].jet@, axis, c, atom.m() as int).s_times(
                    s_tangent(atom, table[row as int]@[slot as int].jet@, axis, c, atom.m() as int),
                ),
        ).s_plus(priors[row as int]@[slot as int]@[axis].curvature)
    }

    /// What the first `n` uses show of atom `a`'s axis. A precision of zero is an
    /// exemption; a use without curvature is no evidence.
    pub open spec fn axis_evidence(
        &self,
        ard: Seq<Vec<S>>,
        table: Seq<Vec<BasisEval<S>>>,
        priors: Seq<Vec<Vec<PriorTerm<S>>>>,
        a: int,
        axis: int,
        n: int,
    ) -> AxisEvidence<S>
        decreases n,
    {
        if n <= 0 {
            AxisEvidence { uses: 0, gamma: S::s_zero(), energy: S::s_zero() }
        } else {
            let before = self.axis_evidence(ard, table, priors, a, axis, n - 1);
            let alpha = ard[a]@[axis];
            let curvature = self.axis_curvature(table, priors, a, axis, n - 1);
            let (row, slot) = self.uses()[a][n - 1];
            if alpha.s_same(S::s_zero()) || !S::s_zero().s_below(curvature) {
                before
            } else {
                AxisEvidence {
                    uses: (before.uses + 1) as usize,
                    gamma: before.gamma.s_plus(s_determined(alpha, curvature)),
                    energy: before.energy.s_plus(
                        priors[row as int]@[slot as int]@[axis].square.s_plus(
                            S::s_one().s_over(curvature),
                        ),
                    ),
                }
            }
        }
    }

    /// What all of atom `a`'s uses show of its axis.
    pub open spec fn evidence_of(
        &self,
        ard: Seq<Vec<S>>,
        table: Seq<Vec<BasisEval<S>>>,
        priors: Seq<Vec<Vec<PriorTerm<S>>>>,
        a: int,
        axis: int,
    ) -> AxisEvidence<S> {
        self.axis_evidence(ard, table, priors, a, axis, self.uses()[a].len() as int)
    }

    /// Atom `a`'s axis belongs to the periodic family.
    pub open spec fn is_periodic_axis(&self, a: int, axis: int) -> bool {
        self.state().periods(a)[axis] is Some
    }

    /// `sums` with atom `a`'s first `n` axes of the family added, as far as there
    /// is evidence of them.
    pub open spec fn with_axes(
        &self,
        sums: GroupSums<S>,
        ard: Seq<Vec<S>>,
        table: Seq<Vec<BasisEval<S>>>,
        priors: Seq<Vec<Vec<PriorTerm<S>>>>,
        periodic: bool,
        a: int,
        n: int,
    ) -> GroupSums<S>
        decreases n,
    {
        if n <= 0 {
            sums
        } else {
            let before = self.with_axes(sums, ard, table, priors, periodic, a, n - 1);
            let found = self.evidence_of(ard, table, priors, a, n - 1);
            if found.uses > 0 && self.is_periodic_axis(a, n - 1) == periodic {
                GroupSums {
                    axes: before.axes + 1,
                    gamma: before.gamma.s_plus(found.gamma),
                    energy: before.energy.s_plus(found.energy),
                }
            } else {
                before
            }
        }
    }

    /// The sums over a family of axes, on the first `n` atoms.
    pub open spec fn group_sums(
        &self,
        ard: Seq<Vec<S>>,
        table: Seq<Vec<BasisEval<S>>>,
        priors: Seq<Vec<Vec<PriorTerm<S>>>>,
        periodic: bool,
        n: int,
    ) -> GroupSums<S>
        decreases n,
    {
        if n <= 0 {
            GroupSums { axes: 0, gamma: S::s_zero(), energy: S::s_zero() }
        } else {
            self.with_axes(
                self.group_sums(ard, table, priors, periodic, n - 1),
                ard,
                table,
                priors,
                periodic,
                n - 1,
                self.state().dims()[n - 1] as int,
            )
        }
    }

    /// The updated precision of atom `a`'s axis: its evidence together with one
    /// average axis of its family. An axis without evidence keeps its precision.
    pub open spec fn precision_update(
        &self,
        ard: Seq<Vec<S>>,
        table: Seq<Vec<BasisEval<S>>>,
        priors: Seq<Vec<Vec<PriorTerm<S>>>>,
        a: int,
        axis: int,
    ) -> S {
        let found = self.evidence_of(ard, table, priors, a, axis);
        let sums = self.group_sums(
            ard,
            table,
            priors,
            self.is_periodic_axis(a, axis),
            self.k() as int,
        );
        let axes = S::s_count(sums.axes);
        let denominator = found.energy.s_plus(sums.energy.s_over(axes));
        let candidate = found.gamma.s_plus(sums.gamma.s_over(axes)).s_over(denominator);
        if found.uses > 0 && S::s_zero().s_below(denominator) && candidate.s_finite()
            && S::s_zero().s_below(candidate) {
            candidate
        } else {
            ard[a]@[axis]
        }
    }

    fn curvature_of(
        &self,
        table: &Vec<Vec<BasisEval<S>>>,
        priors: &Vec<Vec<Vec<PriorTerm<S>>>>,
        atom: usize,
        axis: usize,
        e: usize,
    ) -> (r: S)
        requires
            self.wf(),
            self.table_fits(table@),
            self.priors_fit(priors@),
            atom < self.k(),
            axis < self.state().dims()[atom as int],
            e < self.uses()[atom as int].len(),
        ensures
            r == self.axis_curvature(table@, priors@, atom as int, axis as int, e as int),
    {
        let (row, slot): (usize, usize) = self.rows_of_atom(atom)[e];
        proof {
            self.lemma_use(atom as int, e as int);
            self.lemma_active(row as int, slot as int);
            assert(self.row_fits(table@[row as int]@, row as int));
            assert(table@[row as int]@[slot as int].has_shape(
                self.active(row as int, slot as int).m() as nat,
                self.active(row as int, slot as int).dim() as nat,
            ));
            assert(self.row_priors_fit(priors@[row as int]@, row as int));
        }
        let active: ActiveAtom<S> = self.fill_active_eval(row, slot, &table[row][slot]);
        let tangent: &Vec<S> = &active.jacobian[axis];
        let ghost owner = self.atom_seq()[atom as int];
        let ghost jet = table@[row as int]@[slot as int].jet@;
        let ghost f = |c: int|
            s_tangent(owner, jet, axis as int, c, owner.m() as int).s_times(
                s_tangent(owner, jet, axis as int, c, owner.m() as int),
            );
        let width: usize = self.output_dim();
        let mut norm: S = S::zero();
        for c in 0..width
            invariant
                width == self.width(),
                tangent@.len() == width,
                forall|j: int|
                    0 <= j < width ==> #[trigger] tangent@[j] == s_tangent(
                        owner,
                        jet,
                        axis as int,
                        j,
                        owner.m() as int,
                    ),
                f == (|c: int|
                    s_tangent(owner, jet, axis as int, c, owner.m() as int).s_times(
                        s_tangent(owner, jet, axis as int, c, owner.m() as int),
                    )),
                norm == s_sum(S::s_zero(), c as int, f),
        {
            norm = norm.plus(tangent[c].times(tangent[c]));
        }
        norm.plus(priors[row][slot][axis].curvature)
    }

    fn evidence_on_axis(
        &self,
        ard: &Vec<Vec<S>>,
        table: &Vec<Vec<BasisEval<S>>>,
        priors: &Vec<Vec<Vec<PriorTerm<S>>>>,
        atom: usize,
        axis: usize,
    ) -> (r: AxisEvidence<S>)
        requires
            self.wf(),
            self.table_fits(table@),
            self.priors_fit(priors@),
            self.ard_fault(ard@) is None,
            atom < self.k(),
            axis < self.state().dims()[atom as int],
        ensures
            r == self.evidence_of(ard@, table@, priors@, atom as int, axis as int),
    {
        proof {
            self.lemma_ard_blocks(ard@, 0, atom as int);
        }
        let uses: &Vec<(usize, usize)> = self.rows_of_atom(atom);
        let alpha: S = ard[atom][axis];
        let mut out = AxisEvidence { uses: 0, gamma: S::zero(), energy: S::zero() };
        for e in 0..uses.len()
            invariant
                self.wf(),
                self.table_fits(table@),
                self.priors_fit(priors@),
                atom < self.k(),
                axis < self.state().dims()[atom as int],
                uses@ == self.uses()[atom as int],
                alpha == ard@[atom as int]@[axis as int],
                out == self.axis_evidence(
                    ard@,
                    table@,
                    priors@,
                    atom as int,
                    axis as int,
                    e as int,
                ),
                out.uses <= e,
        {
            let (row, slot): (usize, usize) = uses[e];
            proof {
                self.lemma_use(atom as int, e as int);
                self.lemma_active(row as int, slot as int);
                assert(self.row_priors_fit(priors@[row as int]@, row as int));
            }
            let curvature: S = self.curvature_of(table, priors, atom, axis, e);
            if !alpha.same(S::zero()) && S::zero().below(curvature) {
                let square: S = priors[row][slot][axis].square;
                let fraction: S = S::one().minus(alpha.over(curvature).smaller(S::one())).larger(
                    S::zero(),
                );
                out = AxisEvidence {
                    uses: out.uses + 1,
                    gamma: out.gamma.plus(fraction),
                    energy: out.energy.plus(square.plus(S::one().over(curvature))),
                };
            }
        }
        out
    }
}

/// Where atom `n`'s axes start in a list of all axes.
pub open spec fn axis_start(dims: Seq<usize>, n: int) -> nat
    decreases n,
{
    if n <= 0 {
        0
    } else {
        axis_start(dims, n - 1) + dims[n - 1] as nat
    }
}

proof fn lemma_axis_start_monotone(dims: Seq<usize>, a: int, b: int)
    requires
        0 <= a <= b,
    ensures
        axis_start(dims, a) <= axis_start(dims, b),
    decreases b,
{
    if a < b {
        lemma_axis_start_monotone(dims, a, b - 1);
    }
}

/// Sums over one family of axes.
struct FamilySums<S> {
    axes: usize,
    gamma: S,
    energy: S,
}

impl<S: Scalar> FamilySums<S> {
    spec fn model(&self) -> GroupSums<S> {
        GroupSums { axes: self.axes as nat, gamma: self.gamma, energy: self.energy }
    }

    fn empty() -> (r: FamilySums<S>)
        ensures
            r.model() == (GroupSums { axes: 0, gamma: S::s_zero(), energy: S::s_zero() }),
    {
        FamilySums { axes: 0, gamma: S::zero(), energy: S::zero() }
    }

    fn take(&mut self, found: &AxisEvidence<S>)
        requires
            old(self).axes < usize::MAX,
        ensures
            final(self).model() == (GroupSums {
                axes: old(self).model().axes + 1,
                gamma: old(self).model().gamma.s_plus(found.gamma),
                energy: old(self).model().energy.s_plus(found.energy),
            }),
    {
        self.axes = self.axes + 1;
        self.gamma = self.gamma.plus(found.gamma);
        self.energy = self.energy.plus(found.energy);
    }

    /// The precision that an axis gets from its evidence and its family.
    fn update(&self, found: &AxisEvidence<S>, kept: S) -> (r: S)
        ensures
            r == ({
                let axes = S::s_count(self.model().axes);
                let denominator = found.energy.s_plus(self.model().energy.s_over(axes));
                let candidate = found.gamma.s_plus(self.model().gamma.s_over(axes)).s_over(
                    denominator,
                );
                if found.uses > 0 && S::s_zero().s_below(denominator) && candidate.s_finite()
                    && S::s_zero().s_below(candidate) {
                    candidate
                } else {
                    kept
                }
            }),
    {
        if found.uses == 0 {
            return kept;
        }
        let axes: S = S::count(self.axes);
        let denominator: S = found.energy.plus(self.energy.over(axes));
        if !S::zero().below(denominator) {
            return kept;
        }
        let candidate: S = found.gamma.plus(self.gamma.over(axes)).over(denominator);
        if candidate.finite() && S::zero().below(candidate) {
            candidate
        } else {
            kept
        }
    }
}

impl<S: Scalar> SaeSupportSparseTerm<S> {
    /// `flat` lists what is known of the axes before axis `x` of atom `n`.
    spec fn lists_evidence(
        &self,
        ard: Seq<Vec<S>>,
        table: Seq<Vec<BasisEval<S>>>,
        priors: Seq<Vec<Vec<PriorTerm<S>>>>,
        flat: Seq<AxisEvidence<S>>,
        n: int,
        x: int,
    ) -> bool {
        forall|a: int, axis: int|
            0 <= a <= n && 0 <= axis && (if a < n {
                axis < self.state().dims()[a]
            } else {
                axis < x
            }) ==> #[trigger] self.evidence_of(ard, table, priors, a, axis) == flat[axis_start(
                self.state().dims(),
                a,
            ) + axis]
    }

    /// One update of the prior's precisions: each axis's evidence, shrunk towards
    /// its family with one average axis of prior evidence.
    pub fn mackay_ard_precisions(
        &self,
        ard: &Vec<Vec<S>>,
        table: &Vec<Vec<BasisEval<S>>>,
        priors: &Vec<Vec<Vec<PriorTerm<S>>>>,
    ) -> (r: Result<Vec<Vec<S>>, HyperFault>)
        requires
            self.wf(),
            self.table_fits(table@),
            self.priors_fit(priors@),
        ensures
            match self.ard_fault(ard@) {
                Some(fault) => r == Err::<Vec<Vec<S>>, HyperFault>(fault),
                None => {
                    &&& r is Ok
                    &&& r->Ok_0@.len() == self.k()
                    &&& forall|a: int|
                        0 <= a < self.k() ==> (#[trigger] r->Ok_0@[a])@.len()
                            == self.state().dims()[a]
                    &&& forall|a: int, axis: int|
                        0 <= a < self.k() && 0 <= axis < self.state().dims()[a]
                            ==> #[trigger] r->Ok_0@[a]@[axis] == self.precision_update(
                            ard@,
                            table@,
                            priors@,
                            a,
                            axis,
                        )
                },
            },
    {
        match self.validate_ard(ard) {
            Err(fault) => {
                return Err(fault);
            },
            Ok(_) => {},
        }
        let k_atoms: usize = self.k_atoms();
        let ghost dims = self.state().dims();
        let mut flat: Vec<AxisEvidence<S>> = Vec::new();
        let mut straight: FamilySums<S> = FamilySums::empty();
        let mut circular: FamilySums<S> = FamilySums::empty();
        for atom in 0..k_atoms
            invariant
                self.wf(),
                self.table_fits(table@),
                self.priors_fit(priors@),
                self.ard_fault(ard@) is None,
                k_atoms == self.k(),
                dims == self.state().dims(),
                flat@.len() == axis_start(dims, atom as int),
                self.lists_evidence(ard@, table@, priors@, flat@, atom as int, 0),
                straight.axes <= flat@.len(),
                circular.axes <= flat@.len(),
                straight.model() == self.group_sums(ard@, table@, priors@, false, atom as int),
                circular.model() == self.group_sums(ard@, table@, priors@, true, atom as int),
        {
            let dim: usize = self.assignment().atom_coord_dim(atom);
            let periods: &Vec<Option<S>> = self.assignment().atom_axis_periods(atom);
            let ghost straight_before = straight.model();
            let ghost circular_before = circular.model();
            for axis in 0..dim
                invariant
                    self.wf(),
                    self.table_fits(table@),
                    self.priors_fit(priors@),
                    self.ard_fault(ard@) is None,
                    atom < self.k(),
                    dims == self.state().dims(),
                    dim == dims[atom as int],
                    periods@ == self.state().periods(atom as int),
                    periods@.len() == dim,
                    flat@.len() == axis_start(dims, atom as int) + axis,
                    self.lists_evidence(ard@, table@, priors@, flat@, atom as int, axis as int),
                    straight.axes <= flat@.len(),
                    circular.axes <= flat@.len(),
                    straight.model() == self.with_axes(
                        straight_before,
                        ard@,
                        table@,
                        priors@,
                        false,
                        atom as int,
                        axis as int,
                    ),
                    circular.model() == self.with_axes(
                        circular_before,
                        ard@,
                        table@,
                        priors@,
                        true,
                        atom as int,
                        axis as int,
                    ),
            {
                let found: AxisEvidence<S> = self.evidence_on_axis(ard, table, priors, atom, axis);
                let ghost earlier = flat@;
                flat.push(found);
                assert(flat.len() == flat@.len());
                assert(flat@.len() == earlier.len() + 1);
                if found.uses > 0 {
                    if periods[axis].is_some() {
                        circular.take(&found);
                    } else {
                        straight.take(&found);
                    }
                }
                assert forall|a: int, x: int|
                    0 <= a <= atom && 0 <= x && (if a < atom {
                        x < dims[a]
                    } else {
                        x < axis + 1
                    }) implies #[trigger] self.evidence_of(ard@, table@, priors@, a, x)
                    == flat@[axis_start(dims, a) + x] by {
                    if a < atom {
                        lemma_axis_start_monotone(dims, a + 1, atom as int);
                    }
                    if a < atom || x < axis {
                        assert(flat@[axis_start(dims, a) + x] == earlier[axis_start(dims, a) + x]);
                    }
                }
            }
        }
        let mut updated: Vec<Vec<S>> = Vec::new();
        let mut at: usize = 0;
        for atom in 0..k_atoms
            invariant
                self.wf(),
                self.ard_fault(ard@) is None,
                k_atoms == self.k(),
                dims == self.state().dims(),
                flat@.len() == axis_start(dims, k_atoms as int),
                self.lists_evidence(ard@, table@, priors@, flat@, k_atoms as int, 0),
                straight.model() == self.group_sums(ard@, table@, priors@, false, k_atoms as int),
                circular.model() == self.group_sums(ard@, table@, priors@, true, k_atoms as int),
                at == axis_start(dims, atom as int),
                updated@.len() == atom,
                forall|a: int| 0 <= a < atom ==> (#[trigger] updated@[a])@.len() == dims[a],
                forall|a: int, axis: int|
                    0 <= a < atom && 0 <= axis < dims[a] ==> #[trigger] updated@[a]@[axis]
                        == self.precision_update(ard@, table@, priors@, a, axis),
        {
            proof {
                self.lemma_ard_blocks(ard@, 0, atom as int);
            }
            let dim: usize = self.assignment().atom_coord_dim(atom);
            let periods: &Vec<Option<S>> = self.assignment().atom_axis_periods(atom);
            let mut line: Vec<S> = Vec::new();
            for axis in 0..dim
                invariant
                    self.wf(),
                    k_atoms == self.k(),
                    atom < k_atoms,
                    dims == self.state().dims(),
                    dim == dims[atom as int],
                    periods@ == self.state().periods(atom as int),
                    periods@.len() == dim,
                    ard@.len() == k_atoms,
                    ard@[atom as int]@.len() == dim,
                    self.lists_evidence(ard@, table@, priors@, flat@, k_atoms as int, 0),
                    straight.model() == self.group_sums(
                        ard@,
                        table@,
                        priors@,
                        false,
                        k_atoms as int,
                    ),
                    circular.model() == self.group_sums(
                        ard@,
                        table@,
                        priors@,
                        true,
                        k_atoms as int,
                    ),
                    flat@.len() == axis_start(dims, k_atoms as int),
                    at == axis_start(dims, atom as int) + axis,
                    line@.len() == axis,
                    forall|x: int|
                        0 <= x < axis ==> #[trigger] line@[x] == self.precision_update(
                            ard@,
                            table@,
                            priors@,
                            atom as int,
                            x,
                        ),
            {
                proof {
                    lemma_axis_start_monotone(dims, atom + 1, k_atoms as int);
                }
                let ghost known = self.evidence_of(ard@, table@, priors@, atom as int, axis as int);
                let found: AxisEvidence<S> = flat[at];
                assert(found == known);
                let kept: S = ard[atom][axis];
                if periods[axis].is_some() {
                    line.push(circular.update(&found, kept));
                } else {
                    line.push(straight.update(&found, kept));
                }
                assert(at < flat.len());
                at = at + 1;
            }
            updated.push(line);
        }
        Ok(updated)
    }
}

} // verus!
