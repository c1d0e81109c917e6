//! The penalised objective and its hyperparameters' validity.
//!
//! The objective is the Gaussian loss, plus each atom's roughness
//! `0.5 * lambda * tr(B' S B)`, plus the coordinate prior, plus, when admission
//! is priced, the description length of the atoms in use.
use crate::active::{BasisEval, ShapeError};
use crate::atom::SaeManifoldAtom;
use crate::matrix::{matrix_energy, product, s_matrix_energy, s_product_at, Matrix};
use crate::scalar::{half, s_grid_sum, s_half, s_line_sum, s_ragged_sum, s_sum, Scalar};
use crate::term::SaeSupportSparseTerm;
use vstd::prelude::*;

verus! {

/// The coordinate prior on one axis, at one coordinate.
#[derive(Clone, Copy, Debug)]
pub struct PriorTerm<S> {
    /// The energy.
    pub value: S,
    /// Its derivative.
    pub grad: S,
    /// A curvature that bounds it from above and is never negative.
    pub curvature: S,
    /// The squared coordinate that a Euclidean axis with this energy has.
    pub square: S,
}

/// Logarithms that price a parameter: `ln 2`, and `log2` of the number of rows,
/// counted as at least two.
#[derive(Clone, Copy, Debug)]
pub struct CodeLengths<S> {
    pub ln_two: S,
    pub log2_rows: S,
}

/// What is wrong with the hyperparameters.
#[derive(Clone, Copy, Debug, PartialEq, Eq, Structural)]
pub enum HyperFault {
    /// Not one smoothing strength per atom.
    SmoothingLength { found: usize, expected: usize },
    /// A smoothing strength is negative or not finite.
    SmoothingValue,
    /// Not one block of precisions per atom.
    ArdLength { found: usize, expected: usize },
    /// An atom's precisions are not one per axis, or one of them is neither zero
    /// nor a finite positive number of full precision.
    ArdBlock { atom: usize },
}

/// Why an objective is not given.
#[derive(Clone, Copy, Debug, PartialEq, Eq)]
pub enum ObjectiveError {
    Hyper(HyperFault),
    Shape(ShapeError),
    NonFinite,
}

/// Finite and not negative.
pub open spec fn s_admissible<S: Scalar>(value: S) -> bool {
    value.s_finite() && !value.s_below(S::s_zero())
}

/// A precision: finite, and either zero, which exempts its axis from the prior, or
/// of full precision, so that no axis is exempt but for a zero.
pub open spec fn s_precision<S: Scalar>(value: S) -> bool {
    value.s_finite() && (value.s_same(S::s_zero()) || S::s_tiny().s_at_most(value))
}

/// Finite and positive.
pub open spec fn s_positive<S: Scalar>(value: S) -> bool {
    value.s_finite() && !value.s_at_most(S::s_zero())
}

/// Whether every value is admissible.
pub fn all_admissible<S: Scalar>(values: &Vec<S>) -> (r: bool)
    ensures
        r == (forall|i: int| 0 <= i < values@.len() ==> s_admissible(#[trigger] values@[i])),
{
    for i in 0..values.len()
        invariant
            forall|j: int| 0 <= j < i ==> s_admissible(#[trigger] values@[j]),
    {
        if !values[i].finite() || values[i].below(S::zero()) {
            assert(!s_admissible(values@[i as int]));
            return false;
        }
    }
    true
}

/// Whether every value is a precision.
pub fn all_precisions<S: Scalar>(values: &Vec<S>) -> (r: bool)
    ensures
        r == (forall|i: int| 0 <= i < values@.len() ==> s_precision(#[trigger] values@[i])),
{
    for i in 0..values.len()
        invariant
            forall|j: int| 0 <= j < i ==> s_precision(#[trigger] values@[j]),
    {
        let value: S = values[i];
        if !value.finite() || !(value.same(S::zero()) || S::tiny().at_most(value)) {
            assert(!s_precision(values@[i as int]));
            return false;
        }
    }
    true
}

/// Whether every value is positive.
pub fn all_positive<S: Scalar>(values: &Vec<S>) -> (r: bool)
    ensures
        r == (forall|i: int| 0 <= i < values@.len() ==> s_positive(#[trigger] values@[i])),
{
    for i in 0..values.len()
        invariant
            forall|j: int| 0 <= j < i ==> s_positive(#[trigger] values@[j]),
    {
        if !values[i].finite() || values[i].at_most(S::zero()) {
            assert(!s_positive(values@[i as int]));
            return false;
        }
    }
    true
}

impl<S: Scalar> SaeSupportSparseTerm<S> {
    /// What is wrong with the smoothing strengths, if anything is.
    pub open spec fn smoothing_fault(&self, lambda: Seq<S>) -> Option<HyperFault> {
        if lambda.len() != self.k() {
            Some(
                HyperFault::SmoothingLength {
                    found: lambda.len() as usize,
                    expected: self.k() as usize,
                },
            )
        } else if !(forall|i: int| 0 <= i < lambda.len() ==> s_admissible(#[trigger] lambda[i])) {
            Some(HyperFault::SmoothingValue)
        } else {
            None
        }
    }

    /// Atom `a`'s precisions are one per axis, finite and not negative.
    pub open spec fn ard_block_ok(&self, ard: Seq<Vec<S>>, a: int) -> bool {
        &&& ard[a]@.len() == self.state().dims()[a]
        &&& forall|i: int| 0 <= i < ard[a]@.len() ==> s_precision(#[trigger] ard[a]@[i])
    }

    pub open spec fn first_ard_fault(&self, ard: Seq<Vec<S>>, a: int) -> Option<HyperFault>
        decreases ard.len() - a,
    {
        if a >= ard.len() {
            None
        } else if !self.ard_block_ok(ard, a) {
            Some(HyperFault::ArdBlock { atom: a as usize })
        } else {
            self.first_ard_fault(ard, a + 1)
        }
    }

    /// What is wrong with the prior's precisions, if anything is.
    pub open spec fn ard_fault(&self, ard: Seq<Vec<S>>) -> Option<HyperFault> {
        if ard.len() != self.k() {
            Some(
                HyperFault::ArdLength { found: ard.len() as usize, expected: self.k() as usize },
            )
        } else {
            self.first_ard_fault(ard, 0)
        }
    }

    pub open spec fn hyper_fault(&self, lambda: Seq<S>, ard: Seq<Vec<S>>) -> Option<HyperFault> {
        match self.smoothing_fault(lambda) {
            Some(fault) => Some(fault),
            None => self.ard_fault(ard),
        }
    }

    pub fn validate_smoothing(&self, lambda: &Vec<S>) -> (r: Result<(), HyperFault>)
        ensures
            match r {
                Ok(_) => self.smoothing_fault(lambda@) is None,
                Err(fault) => self.smoothing_fault(lambda@) == Some(fault),
            },
    {
        let k_atoms: usize = self.k_atoms();
        if lambda.len() != k_atoms {
            return Err(HyperFault::SmoothingLength { found: lambda.len(), expected: k_atoms });
        }
        if !all_admissible(lambda) {
            return Err(HyperFault::SmoothingValue);
        }
        Ok(())
    }

    /// Checks the precisions. A precision of zero exempts its axis from the
    /// prior; one that is positive but short of full precision is refused, so that
    /// no exemption is an accident.
    pub fn validate_ard(&self, ard: &Vec<Vec<S>>) -> (r: Result<(), HyperFault>)
        requires
            self.wf(),
        ensures
            match r {
                Ok(_) => self.ard_fault(ard@) is None,
                Err(fault) => self.ard_fault(ard@) == Some(fault),
            },
    {
        let k_atoms: usize = self.k_atoms();
        if ard.len() != k_atoms {
            return Err(HyperFault::ArdLength { found: ard.len(), expected: k_atoms });
        }
        for atom in 0..k_atoms
            invariant
                self.wf(),
                k_atoms == self.k(),
                ard@.len() == k_atoms,
                self.first_ard_fault(ard@, 0) == self.first_ard_fault(ard@, atom as int),
        {
            if ard[atom].len() != self.assignment().atom_coord_dim(atom) {
                assert(!self.ard_block_ok(ard@, atom as int));
                return Err(HyperFault::ArdBlock { atom });
            }
            if !all_precisions(&ard[atom]) {
                assert(!self.ard_block_ok(ard@, atom as int));
                return Err(HyperFault::ArdBlock { atom });
            }
            assert(self.ard_block_ok(ard@, atom as int));
        }
        Ok(())
    }

    /// The first `a` atoms' precision blocks are in order.
    pub proof fn lemma_ard_blocks(&self, ard: Seq<Vec<S>>, a: int, b: int)
        requires
            0 <= a <= b < ard.len(),
            self.first_ard_fault(ard, a) is None,
        ensures
            self.ard_block_ok(ard, b),
        decreases b - a,
    {
        if a < b {
            self.lemma_ard_blocks(ard, a + 1, b);
        }
    }

    pub open spec fn row_priors_fit(&self, priors: Seq<Vec<PriorTerm<S>>>, row: int) -> bool {
        &&& priors.len() == self.support(row).len()
        &&& forall|slot: int|
            0 <= slot < priors.len() ==> (#[trigger] priors[slot])@.len() == self.state().slot_dim(
                row,
                slot,
            )
    }

    /// The prior has been evaluated on every axis of every active pair.
    pub open spec fn priors_fit(&self, priors: Seq<Vec<Vec<PriorTerm<S>>>>) -> bool {
        &&& priors.len() == self.rows()
        &&& forall|row: int|
            0 <= row < priors.len() ==> self.row_priors_fit(#[trigger] priors[row]@, row)
    }

    /// Whether one row's prior terms fit.
    pub fn check_row_priors(&self, row: usize, priors: &Vec<Vec<PriorTerm<S>>>) -> (r: bool)
        requires
            self.wf(),
            row < self.rows(),
        ensures
            r == self.row_priors_fit(priors@, row as int),
    {
        let support: &Vec<u32> = self.assignment().support_indices(row);
        if priors.len() != support.len() {
            return false;
        }
        for slot in 0..support.len()
            invariant
                self.wf(),
                row < self.rows(),
                support@ == self.support(row as int),
                priors@.len() == support@.len(),
                forall|s: int|
                    0 <= s < slot ==> (#[trigger] priors@[s])@.len() == self.state().slot_dim(
                        row as int,
                        s,
                    ),
        {
            proof {
                self.lemma_active(row as int, slot as int);
            }
            if priors[slot].len() != self.assignment().atom_coord_dim(support[slot] as usize) {
                return false;
            }
        }
        true
    }

    /// Whether a table of prior terms fits.
    pub fn check_priors(&self, priors: &Vec<Vec<Vec<PriorTerm<S>>>>) -> (r: bool)
        requires
            self.wf(),
        ensures
            r == self.priors_fit(priors@),
    {
        let n: usize = self.n_obs();
        if priors.len() != n {
            return false;
        }
        for row in 0..n
            invariant
                self.wf(),
                n == self.rows(),
                priors@.len() == n,
                forall|q: int| 0 <= q < row ==> self.row_priors_fit(#[trigger] priors@[q]@, q),
        {
            if !self.check_row_priors(row, &priors[row]) {
                return false;
            }
        }
        true
    }

    /// `tr(B' S B)` of atom `a`.
    pub open spec fn atom_roughness(&self, a: int) -> S {
        let atom = self.atom_seq()[a];
        s_grid_sum(
            S::s_zero(),
            atom.m() as int,
            self.width() as int,
            |b: int, c: int|
                atom.coefficient(b, c).s_times(
                    s_product_at(&atom.penalty(), &atom.decoder(), b, c, atom.m() as int),
                ),
        )
    }

    /// `tr(B' S B)` of one atom.
    pub fn roughness_of(&self, atom: usize) -> (r: S)
        requires
            self.wf(),
            atom < self.k(),
        ensures
            r == self.atom_roughness(atom as int),
    {
        proof {
            assert(self.atom_wf(atom as int));
        }
        let template: &SaeManifoldAtom<S> = self.atom(atom);
        let decoder: &Matrix<S> = template.decoder_coefficients();
        let m: usize = template.basis_size();
        let width: usize = self.output_dim();
        proof {
            decoder.lemma_size();
        }
        let sb: Matrix<S> = product(template.smooth_penalty(), decoder);
        let ghost f = |b: int, c: int|
            template.coefficient(b, c).s_times(
                s_product_at(&template.penalty(), &template.decoder(), b, c, template.m() as int),
            );
        let mut acc: S = S::zero();
        for b in 0..m
            invariant
                decoder.has_shape(m as nat, width as nat),
                *decoder == template.decoder(),
                m == template.m(),
                template.penalty().ncols() == m,
                crate::matrix::is_matrix_product(&template.penalty(), decoder, &sb),
                sb.has_shape(m as nat, width as nat),
                f == (|b: int, c: int|
                    template.coefficient(b, c).s_times(
                        s_product_at(
                            &template.penalty(),
                            &template.decoder(),
                            b,
                            c,
                            template.m() as int,
                        ),
                    )),
                acc == s_grid_sum(S::s_zero(), b as int, width as int, f),
        {
            for c in 0..width
                invariant
                    b < m,
                    decoder.has_shape(m as nat, width as nat),
                    *decoder == template.decoder(),
                    m == template.m(),
                    template.penalty().ncols() == m,
                    crate::matrix::is_matrix_product(&template.penalty(), decoder, &sb),
                    sb.has_shape(m as nat, width as nat),
                    f == (|b: int, c: int|
                        template.coefficient(b, c).s_times(
                            s_product_at(
                                &template.penalty(),
                                &template.decoder(),
                                b,
                                c,
                                template.m() as int,
                            ),
                        )),
                    acc == s_line_sum(
                        s_grid_sum(S::s_zero(), b as int, width as int, f),
                        b as int,
                        c as int,
                        f,
                    ),
            {
                assert(sb.at(b as int, c as int) == s_product_at(
                    &template.penalty(),
                    decoder,
                    b as int,
                    c as int,
                    m as int,
                ));
                acc = acc.plus(decoder.get(b, c).times(sb.get(b, c)));
            }
        }
        acc
    }

    /// The loss and the first `n` atoms' roughness.
    pub open spec fn smooth_part(&self, residual: &Matrix<S>, lambda: Seq<S>, n: int) -> S {
        s_sum(
            s_half::<S>().s_times(s_matrix_energy(residual)),
            n,
            |a: int| s_half::<S>().s_times(lambda[a]).s_times(self.atom_roughness(a)),
        )
    }

    /// The prior's energy on one row.
    pub open spec fn row_prior(&self, priors: Seq<Vec<Vec<PriorTerm<S>>>>, row: int) -> S {
        s_ragged_sum(
            S::s_zero(),
            self.support(row).len() as int,
            |slot: int| self.state().slot_dim(row, slot) as int,
            |slot: int, axis: int| priors[row]@[slot]@[axis].value,
        )
    }

    /// The prior's energy on one row's coordinates.
    pub fn row_prior_energy(&self, row: usize, priors: &Vec<Vec<Vec<PriorTerm<S>>>>) -> (r: S)
        requires
            self.wf(),
            row < self.rows(),
            self.priors_fit(priors@),
        ensures
            r == self.row_prior(priors@, row as int),
    {
        let line: &Vec<Vec<PriorTerm<S>>> = &priors[row];
        assert(self.row_priors_fit(priors@[row as int]@, row as int));
        let ghost w = |slot: int| self.state().slot_dim(row as int, slot) as int;
        let ghost f = |slot: int, axis: int| priors@[row as int]@[slot]@[axis].value;
        let mut acc: S = S::zero();
        for slot in 0..line.len()
            invariant
                line@ == priors@[row as int]@,
                self.row_priors_fit(line@, row as int),
                w == (|slot: int| self.state().slot_dim(row as int, slot) as int),
                f == (|slot: int, axis: int| priors@[row as int]@[slot]@[axis].value),
                acc == s_ragged_sum(S::s_zero(), slot as int, w, f),
        {
            let block: &Vec<PriorTerm<S>> = &line[slot];
            for axis in 0..block.len()
                invariant
                    block@ == priors@[row as int]@[slot as int]@,
                    f == (|slot: int, axis: int| priors@[row as int]@[slot]@[axis].value),
                    acc == s_line_sum(
                        s_ragged_sum(S::s_zero(), slot as int, w, f),
                        slot as int,
                        axis as int,
                        f,
                    ),
            {
                acc = acc.plus(block[axis].value);
            }
        }
        acc
    }

    /// The prior's energy on all rows.
    pub open spec fn prior_part(&self, priors: Seq<Vec<Vec<PriorTerm<S>>>>) -> S {
        s_sum(S::s_zero(), self.rows() as int, |row: int| self.row_prior(priors, row))
    }

    /// One parameter's code length, in bits.
    pub open spec fn s_parameter_bits(codes: CodeLengths<S>) -> S {
        s_half::<S>().s_times(codes.log2_rows)
    }

    /// Atom `a`'s code length, in bits.
    pub open spec fn s_atom_bits(&self, codes: CodeLengths<S>, a: int) -> S {
        S::s_count(self.atom_seq()[a].m() as nat).s_times(S::s_count(self.width())).s_times(
            Self::s_parameter_bits(codes),
        )
    }

    /// One atom's code length, in bits.
    pub fn atom_bits(&self, codes: CodeLengths<S>, atom: usize) -> (r: S)
        requires
            atom < self.k(),
        ensures
            r == self.s_atom_bits(codes, atom as int),
    {
        let parameter: S = half::<S>().times(codes.log2_rows);
        S::count(self.atom_basis_size(atom)).times(S::count(self.output_dim())).times(parameter)
    }

    /// The code length of those of the first `n` atoms that some row uses.
    pub open spec fn used_bits(&self, codes: CodeLengths<S>, n: int) -> S
        decreases n,
    {
        if n <= 0 {
            S::s_zero()
        } else if self.uses()[n - 1].len() > 0 {
            self.used_bits(codes, n - 1).s_plus(self.s_atom_bits(codes, n - 1))
        } else {
            self.used_bits(codes, n - 1)
        }
    }

    /// The objective.
    pub open spec fn s_objective(
        &self,
        residual: &Matrix<S>,
        lambda: Seq<S>,
        priors: Seq<Vec<Vec<PriorTerm<S>>>>,
        codes: CodeLengths<S>,
    ) -> S {
        let fit = self.smooth_part(residual, lambda, self.k() as int).s_plus(
            self.prior_part(priors),
        );
        match self.knob_spec().admission_dof_sigma2 {
            Some(sigma2) => fit.s_plus(
                sigma2.s_times(codes.ln_two).s_times(self.used_bits(codes, self.k() as int)),
            ),
            None => fit,
        }
    }

    /// The objective against a residual that the caller already holds.
    pub fn penalized_objective_with_residual(
        &self,
        residual: &Matrix<S>,
        lambda: &Vec<S>,
        ard: &Vec<Vec<S>>,
        priors: &Vec<Vec<Vec<PriorTerm<S>>>>,
        codes: CodeLengths<S>,
    ) -> (r: Result<S, ObjectiveError>)
        requires
            self.wf(),
            residual.wf(),
            self.priors_fit(priors@),
        ensures
            match r {
                Ok(value) => {
                    &&& self.hyper_fault(lambda@, ard@) is None
                    &&& value == self.s_objective(residual, lambda@, priors@, codes)
                    &&& value.s_finite()
                },
                Err(ObjectiveError::Hyper(fault)) => self.hyper_fault(lambda@, ard@) == Some(
                    fault,
                ),
                Err(ObjectiveError::Shape(_)) => false,
                Err(ObjectiveError::NonFinite) => {
                    &&& self.hyper_fault(lambda@, ard@) is None
                    &&& !self.s_objective(residual, lambda@, priors@, codes).s_finite()
                },
            },
    {
        if let Err(fault) = self.validate_smoothing(lambda) {
            return Err(ObjectiveError::Hyper(fault));
        }
        if let Err(fault) = self.validate_ard(ard) {
            return Err(ObjectiveError::Hyper(fault));
        }
        let k_atoms: usize = self.k_atoms();
        let mut value: S = half::<S>().times(matrix_energy(residual));
        let ghost f = |a: int|
            s_half::<S>().s_times(lambda@[a]).s_times(self.atom_roughness(a));
        for atom in 0..k_atoms
            invariant
                self.wf(),
                k_atoms == self.k(),
                lambda@.len() == k_atoms,
                f == (|a: int|
                    s_half::<S>().s_times(lambda@[a]).s_times(self.atom_roughness(a))),
                value == s_sum(
                    s_half::<S>().s_times(s_matrix_energy(residual)),
                    atom as int,
                    f,
                ),
        {
            let weight: S = half::<S>().times(lambda[atom]);
            value = value.plus(weight.times(self.roughness_of(atom)));
        }
        let n: usize = self.n_obs();
        let mut prior: S = S::zero();
        let ghost g = |row: int| self.row_prior(priors@, row);
        for row in 0..n
            invariant
                self.wf(),
                n == self.rows(),
                self.priors_fit(priors@),
                g == (|row: int| self.row_prior(priors@, row)),
                prior == s_sum(S::s_zero(), row as int, g),
        {
            prior = prior.plus(self.row_prior_energy(row, priors));
        }
        value = value.plus(prior);
        if let Some(sigma2) = self.knobs().admission_dof_sigma2 {
            let mut bits: S = S::zero();
            for atom in 0..k_atoms
                invariant
                    self.wf(),
                    k_atoms == self.k(),
                    bits == self.used_bits(codes, atom as int),
            {
                if self.rows_of_atom(atom).len() > 0 {
                    bits = bits.plus(self.atom_bits(codes, atom));
                }
            }
            value = value.plus(sigma2.times(codes.ln_two).times(bits));
        }
        if value.finite() {
            Ok(value)
        } else {
            Err(ObjectiveError::NonFinite)
        }
    }

    /// `residual` is `target` less the reconstruction.
    pub open spec fn is_residual(
        &self,
        target: &Matrix<S>,
        table: Seq<Vec<BasisEval<S>>>,
        residual: &Matrix<S>,
    ) -> bool {
        &&& residual.has_shape(self.rows(), self.width())
        &&& forall|row: int, c: int|
            0 <= row < self.rows() && 0 <= c < self.width() ==> #[trigger] residual.at(row, c)
                == target.at(row, c).s_minus(self.fitted(table, row, c))
    }

    /// The objective at the term's own reconstruction of `target`.
    pub fn penalized_objective(
        &self,
        target: &Matrix<S>,
        table: &Vec<Vec<BasisEval<S>>>,
        lambda: &Vec<S>,
        ard: &Vec<Vec<S>>,
        priors: &Vec<Vec<Vec<PriorTerm<S>>>>,
        codes: CodeLengths<S>,
    ) -> (r: Result<S, ObjectiveError>)
        requires
            self.wf(),
            target.wf(),
            self.table_fits(table@),
            self.priors_fit(priors@),
        ensures
            match r {
                Ok(value) => {
                    &&& target.nrows() == self.rows() && target.ncols() == self.width()
                    &&& self.hyper_fault(lambda@, ard@) is None
                    &&& value.s_finite()
                    &&& exists|residual: Matrix<S>|
                        {
                            &&& #[trigger] self.is_residual(target, table@, &residual)
                            &&& value == self.s_objective(&residual, lambda@, priors@, codes)
                        }
                },
                Err(ObjectiveError::Hyper(fault)) => self.hyper_fault(lambda@, ard@) == Some(
                    fault,
                ),
                Err(ObjectiveError::Shape(e)) => {
                    &&& self.hyper_fault(lambda@, ard@) is None
                    &&& target.nrows() != self.rows() || target.ncols() != self.width()
                    &&& e == (ShapeError {
                        found: (target.nrows() as usize, target.ncols() as usize),
                        expected: (self.rows() as usize, self.width() as usize),
                    })
                },
                Err(ObjectiveError::NonFinite) => {
                    &&& target.nrows() == self.rows() && target.ncols() == self.width()
                    &&& self.hyper_fault(lambda@, ard@) is None
                    &&& exists|residual: Matrix<S>|
                        {
                            &&& #[trigger] self.is_residual(target, table@, &residual)
                            &&& !self.s_objective(
                                &residual,
                                lambda@,
                                priors@,
                                codes,
                            ).s_finite()
                        }
                },
            },
    {
        if let Err(fault) = self.validate_smoothing(lambda) {
            return Err(ObjectiveError::Hyper(fault));
        }
        if let Err(fault) = self.validate_ard(ard) {
            return Err(ObjectiveError::Hyper(fault));
        }
        match self.raw_residual(target, table) {
            Err(e) => Err(ObjectiveError::Shape(e)),
            Ok(residual) => {
                assert(self.is_residual(target, table@, &residual));
                self.penalized_objective_with_residual(&residual, lambda, ard, priors, codes)
            },
        }
    }

    /// The loss and the prior over the first `n` rows, in one running sum.
    pub open spec fn frozen_part(
        &self,
        residual: &Matrix<S>,
        priors: Seq<Vec<Vec<PriorTerm<S>>>>,
        n: int,
    ) -> S
        decreases n,
    {
        if n <= 0 {
            s_half::<S>().s_times(s_matrix_energy(residual))
        } else {
            s_ragged_sum(
                self.frozen_part(residual, priors, n - 1),
                self.support(n - 1).len() as int,
                |slot: int| self.state().slot_dim(n - 1, slot) as int,
                |slot: int, axis: int| priors[n - 1]@[slot]@[axis].value,
            )
        }
    }

    /// The part of the objective that moves when only coordinates do.
    pub fn frozen_decoder_coordinate_objective_with_residual(
        &self,
        residual: &Matrix<S>,
        priors: &Vec<Vec<Vec<PriorTerm<S>>>>,
    ) -> (r: Result<S, ObjectiveError>)
        requires
            self.wf(),
            residual.wf(),
            self.priors_fit(priors@),
        ensures
            match r {
                Ok(value) => value == self.frozen_part(residual, priors@, self.rows() as int)
                    && value.s_finite(),
                Err(e) => e == ObjectiveError::NonFinite && !self.frozen_part(
                    residual,
                    priors@,
                    self.rows() as int,
                ).s_finite(),
            },
    {
        let n: usize = self.n_obs();
        let mut value: S = half::<S>().times(matrix_energy(residual));
        for row in 0..n
            invariant
                self.wf(),
                n == self.rows(),
                self.priors_fit(priors@),
                value == self.frozen_part(residual, priors@, row as int),
        {
            let line: &Vec<Vec<PriorTerm<S>>> = &priors[row];
            assert(self.row_priors_fit(priors@[row as int]@, row as int));
            let ghost start = value;
            let ghost w = |slot: int| self.state().slot_dim((row + 1) - 1, slot) as int;
            let ghost f = |slot: int, axis: int| priors@[(row + 1) - 1]@[slot]@[axis].value;
            for slot in 0..line.len()
                invariant
                    line@ == priors@[row as int]@,
                    self.row_priors_fit(line@, row as int),
                    w == (|slot: int| self.state().slot_dim((row + 1) - 1, slot) as int),
                    f == (|slot: int, axis: int| priors@[(row + 1) - 1]@[slot]@[axis].value),
                    value == s_ragged_sum(start, slot as int, w, f),
            {
                let block: &Vec<PriorTerm<S>> = &line[slot];
                for axis in 0..block.len()
                    invariant
                        block@ == priors@[row as int]@[slot as int]@,
                        f == (|slot: int, axis: int| priors@[(row + 1) - 1]@[slot]@[axis].value),
                        value == s_line_sum(
                            s_ragged_sum(start, slot as int, w, f),
                            slot as int,
                            axis as int,
                            f,
                        ),
                {
                    value = value.plus(block[axis].value);
                }
            }
        }
        if value.finite() {
            Ok(value)
        } else {
            Err(ObjectiveError::NonFinite)
        }
    }

    /// That part at the term's own reconstruction of `target`.
    pub fn frozen_decoder_coordinate_objective(
        &self,
        target: &Matrix<S>,
        table: &Vec<Vec<BasisEval<S>>>,
        priors: &Vec<Vec<Vec<PriorTerm<S>>>>,
    ) -> (r: Result<S, ObjectiveError>)
        requires
            self.wf(),
            target.wf(),
            self.table_fits(table@),
            self.priors_fit(priors@),
        ensures
            match r {
                Ok(value) => {
                    &&& target.nrows() == self.rows() && target.ncols() == self.width()
                    &&& value.s_finite()
                    &&& exists|residual: Matrix<S>|
                        {
                            &&& #[trigger] self.is_residual(target, table@, &residual)
                            &&& value == self.frozen_part(&residual, priors@, self.rows() as int)
                        }
                },
                Err(ObjectiveError::Hyper(_)) => false,
                Err(ObjectiveError::Shape(e)) => {
                    &&& target.nrows() != self.rows() || target.ncols() != self.width()
                    &&& e == (ShapeError {
                        found: (target.nrows() as usize, target.ncols() as usize),
                        expected: (self.rows() as usize, self.width() as usize),
                    })
                },
                Err(ObjectiveError::NonFinite) => {
                    &&& target.nrows() == self.rows() && target.ncols() == self.width()
                    &&& exists|residual: Matrix<S>|
                        {
                            &&& #[trigger] self.is_residual(target, table@, &residual)
                            &&& !self.frozen_part(
                                &residual,
                                priors@,
                                self.rows() as int,
                            ).s_finite()
                        }
                },
            },
    {
        match self.raw_residual(target, table) {
            Err(e) => Err(ObjectiveError::Shape(e)),
            Ok(residual) => {
                assert(self.is_residual(target, table@, &residual));
                self.frozen_decoder_coordinate_objective_with_residual(&residual, priors)
            },
        }
    }
}

} // verus!
