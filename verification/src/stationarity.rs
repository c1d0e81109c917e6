//! First-order conditions of the exact objective, block by block.
//!
//! Each block's gradient is reported raw, and divided by the block's own
//! curvature diagonal. The raw gradient grows with the number of rows an atom
//! has; the scaled one is a step in the space the parameters live in.
use crate::active::{ActiveAtom, BasisEval, ShapeError};
use crate::atom::SaeManifoldAtom;
use crate::matrix::{product, s_product_at, Matrix};
use crate::objective::{HyperFault, PriorTerm};
use crate::scalar::{
    s_grid_max, s_grid_sum, s_less, s_line_max, s_line_max_if, s_line_sum, s_max, s_ragged_max_if,
    s_ragged_sum, s_sum, Scalar,
};
use crate::term::SaeSupportSparseTerm;
use vstd::prelude::*;

verus! {

/// The first-order residual of the decoder and coordinate blocks.
#[derive(Clone, Copy, Debug)]
pub struct SaeSupportStationarity<S> {
    pub decoder_l2: S,
    pub decoder_max_abs: S,
    pub coordinate_l2: S,
    pub coordinate_max_abs: S,
    /// The largest decoder gradient entry over its own curvature.
    pub decoder_scaled_max_abs: S,
    /// The largest coordinate gradient entry over its own curvature.
    pub coordinate_scaled_max_abs: S,
}

impl<S: Scalar> SaeSupportStationarity<S> {
    pub open spec fn s_max_abs(self) -> S {
        self.decoder_max_abs.s_larger(self.coordinate_max_abs)
    }

    pub open spec fn s_scaled_max_abs(self) -> S {
        self.decoder_scaled_max_abs.s_larger(self.coordinate_scaled_max_abs)
    }

    /// The larger of the two blocks' raw gradients.
    pub fn max_abs(self) -> (r: S)
        ensures
            r == self.s_max_abs(),
    {
        self.decoder_max_abs.larger(self.coordinate_max_abs)
    }

    /// The larger of the two blocks' scaled gradients: what a fixed point is
    /// certified on.
    pub fn scaled_max_abs(self) -> (r: S)
        ensures
            r == self.s_scaled_max_abs(),
    {
        self.decoder_scaled_max_abs.larger(self.coordinate_scaled_max_abs)
    }
}

/// One block's squared gradient norm, largest entry, and largest scaled entry.
#[derive(Clone, Copy, Debug)]
pub struct BlockNorms<S> {
    pub sq: S,
    pub max: S,
    pub scaled_max: S,
}

/// Why a first-order residual is not given.
#[derive(Clone, Copy, Debug, PartialEq, Eq)]
pub enum StationarityError {
    Hyper(HyperFault),
    Shape(ShapeError),
}

impl<S: Scalar> SaeSupportSparseTerm<S> {
    /// The basis row of atom `a`'s `e`-th use.
    pub open spec fn use_phi(&self, table: Seq<Vec<BasisEval<S>>>, a: int, e: int) -> Seq<S> {
        table[self.uses()[a][e].0 as int]@[self.uses()[a][e].1 as int].phi@
    }

    /// Entry `(b, c)` of atom `a`'s gradient, over its first `n` uses.
    pub open spec fn decoder_grad(
        &self,
        residual: &Matrix<S>,
        lambda: Seq<S>,
        table: Seq<Vec<BasisEval<S>>>,
        a: int,
        b: int,
        c: int,
        n: int,
    ) -> S {
        let atom = self.atom_seq()[a];
        s_less(
            s_product_at(&atom.penalty(), &atom.decoder(), b, c, atom.m() as int).s_times(lambda[a]),
            n,
            |e: int|
                self.use_phi(table, a, e)[b].s_times(
                    residual.at(self.uses()[a][e].0 as int, c),
                ),
        )
    }

    /// Atom `a`'s curvature along basis function `b`, over its first `n` uses.
    pub open spec fn decoder_curv(
        &self,
        lambda: Seq<S>,
        table: Seq<Vec<BasisEval<S>>>,
        a: int,
        b: int,
        n: int,
    ) -> S {
        s_sum(
            lambda[a].s_times(self.atom_seq()[a].roughness(b, b)),
            n,
            |e: int| self.use_phi(table, a, e)[b].s_times(self.use_phi(table, a, e)[b]),
        )
    }

    /// Atom `a`'s gradient norms.
    pub open spec fn decoder_norms_spec(
        &self,
        residual: &Matrix<S>,
        lambda: Seq<S>,
        table: Seq<Vec<BasisEval<S>>>,
        a: int,
    ) -> BlockNorms<S> {
        let n = self.uses()[a].len() as int;
        let m = self.atom_seq()[a].m() as int;
        let p = self.width() as int;
        BlockNorms {
            sq: s_grid_sum(
                S::s_zero(),
                m,
                p,
                |b: int, c: int|
                    self.decoder_grad(residual, lambda, table, a, b, c, n).s_times(
                        self.decoder_grad(residual, lambda, table, a, b, c, n),
                    ),
            ),
            max: s_grid_max(
                S::s_zero(),
                m,
                p,
                |b: int, c: int|
                    self.decoder_grad(residual, lambda, table, a, b, c, n).s_magnitude(),
            ),
            scaled_max: s_ragged_max_if(
                S::s_zero(),
                m,
                |b: int| p,
                |b: int, c: int| S::s_zero().s_below(self.decoder_curv(lambda, table, a, b, n)),
                |b: int, c: int|
                    self.decoder_grad(residual, lambda, table, a, b, c, n).s_magnitude().s_over(
                        self.decoder_curv(lambda, table, a, b, n),
                    ),
            ),
        }
    }

    /// Atom `a`'s gradient and curvature.
    fn decoder_gradient(
        &self,
        residual: &Matrix<S>,
        lambda: &Vec<S>,
        table: &Vec<Vec<BasisEval<S>>>,
        atom: usize,
    ) -> (r: (Matrix<S>, Vec<S>))
        requires
            self.wf(),
            atom < self.k(),
            lambda@.len() == self.k(),
            self.table_fits(table@),
            residual.has_shape(self.rows(), self.width()),
        ensures
            r.0.has_shape(self.atom_seq()[atom as int].m() as nat, self.width()),
            r.1@.len() == self.atom_seq()[atom as int].m(),
            forall|b: int, c: int|
                0 <= b < r.0.nrows() && 0 <= c < self.width() ==> #[trigger] r.0.at(b, c)
                    == self.decoder_grad(
                    residual,
                    lambda@,
                    table@,
                    atom as int,
                    b,
                    c,
                    self.uses()[atom as int].len() as int,
                ),
            forall|b: int|
                0 <= b < r.1@.len() ==> #[trigger] r.1@[b] == self.decoder_curv(
                    lambda@,
                    table@,
                    atom as int,
                    b,
                    self.uses()[atom as int].len() as int,
                ),
    {
        proof {
            assert(self.atom_wf(atom as int));
        }
        let template: &SaeManifoldAtom<S> = self.atom(atom);
        let m: usize = template.basis_size();
        let width: usize = self.output_dim();
        let weight: S = lambda[atom];
        proof {
            template.decoder().lemma_size();
        }
        let penalty: &Matrix<S> = template.smooth_penalty();
        let mut gradient: Matrix<S> = product(penalty, template.decoder_coefficients());
        let ghost plain = gradient;
        for b in 0..m
            invariant
                gradient.has_shape(m as nat, width as nat),
                plain.has_shape(m as nat, width as nat),
                forall|i: int, j: int|
                    0 <= i < m && 0 <= j < width ==> #[trigger] gradient.at(i, j) == (if i < b {
                        plain.at(i, j).s_times(weight)
                    } else {
                        plain.at(i, j)
                    }),
        {
            for c in 0..width
                invariant
                    b < m,
                    gradient.has_shape(m as nat, width as nat),
                    plain.has_shape(m as nat, width as nat),
                    forall|i: int, j: int|
                        0 <= i < m && 0 <= j < width ==> #[trigger] gradient.at(i, j) == (if i < b
                            || (i == b && j < c) {
                            plain.at(i, j).s_times(weight)
                        } else {
                            plain.at(i, j)
                        }),
            {
                let value: S = gradient.get(b, c).times(weight);
                gradient.set(b, c, value);
            }
        }
        let mut curvature: Vec<S> = Vec::new();
        for b in 0..m
            invariant
                *penalty == template.penalty(),
                penalty.has_shape(m as nat, m as nat),
                *template == self.atom_seq()[atom as int],
                weight == lambda@[atom as int],
                curvature@.len() == b,
                forall|i: int|
                    0 <= i < b ==> #[trigger] curvature@[i] == self.decoder_curv(
                        lambda@,
                        table@,
                        atom as int,
                        i,
                        0,
                    ),
        {
            curvature.push(weight.times(penalty.get(b, b)));
        }
        let uses: &Vec<(usize, usize)> = self.rows_of_atom(atom);
        for e in 0..uses.len()
            invariant
                self.wf(),
                atom < self.k(),
                uses@ == self.uses()[atom as int],
                m == self.atom_seq()[atom as int].m(),
                width == self.width(),
                self.table_fits(table@),
                residual.has_shape(self.rows(), self.width()),
                gradient.has_shape(m as nat, width as nat),
                curvature@.len() == m,
                forall|i: int, j: int|
                    0 <= i < m && 0 <= j < width ==> #[trigger] gradient.at(i, j)
                        == self.decoder_grad(
                        residual,
                        lambda@,
                        table@,
                        atom as int,
                        i,
                        j,
                        e as int,
                    ),
                forall|i: int|
                    0 <= i < m ==> #[trigger] curvature@[i] == self.decoder_curv(
                        lambda@,
                        table@,
                        atom as int,
                        i,
                        e as int,
                    ),
        {
            let (row, slot): (usize, usize) = uses[e];
            proof {
                self.lemma_use(atom as int, e as int);
                assert(self.row_fits(table@[row as int]@, row as int));
                assert(table@[row as int]@[slot as int].has_shape(
                    self.active(row as int, slot as int).m() as nat,
                    self.active(row as int, slot as int).dim() as nat,
                ));
            }
            let phi: &Vec<S> = &table[row][slot].phi;
            for b in 0..m
                invariant
                    atom < self.k(),
                    uses@ == self.uses()[atom as int],
                    e < uses@.len(),
                    uses@[e as int] == (row, slot),
                    phi@ == self.use_phi(table@, atom as int, e as int),
                    phi@.len() == m,
                    row < self.rows(),
                    width == self.width(),
                    residual.has_shape(self.rows(), self.width()),
                    gradient.has_shape(m as nat, width as nat),
                    curvature@.len() == m,
                    forall|i: int, j: int|
                        0 <= i < m && 0 <= j < width ==> #[trigger] gradient.at(i, j)
                            == self.decoder_grad(
                            residual,
                            lambda@,
                            table@,
                            atom as int,
                            i,
                            j,
                            if i < b {
                                e + 1
                            } else {
                                e as int
                            },
                        ),
                    forall|i: int|
                        0 <= i < m ==> #[trigger] curvature@[i] == self.decoder_curv(
                            lambda@,
                            table@,
                            atom as int,
                            i,
                            if i < b {
                                e + 1
                            } else {
                                e as int
                            },
                        ),
            {
                let bent: S = curvature[b].plus(phi[b].times(phi[b]));
                curvature.set(b, bent);
                for c in 0..width
                    invariant
                        atom < self.k(),
                        uses@ == self.uses()[atom as int],
                        e < uses@.len(),
                        uses@[e as int] == (row, slot),
                        phi@ == self.use_phi(table@, atom as int, e as int),
                        phi@.len() == m,
                        b < m,
                        row < self.rows(),
                        width == self.width(),
                        residual.has_shape(self.rows(), self.width()),
                        gradient.has_shape(m as nat, width as nat),
                        forall|i: int, j: int|
                            0 <= i < m && 0 <= j < width ==> #[trigger] gradient.at(i, j)
                                == self.decoder_grad(
                                residual,
                                lambda@,
                                table@,
                                atom as int,
                                i,
                                j,
                                if i < b || (i == b && j < c) {
                                    e + 1
                                } else {
                                    e as int
                                },
                            ),
                {
                    let value: S = gradient.get(b, c).minus(phi[b].times(residual.get(row, c)));
                    gradient.set(b, c, value);
                }
            }
        }
        (gradient, curvature)
    }

    /// One atom's gradient norms.
    pub fn decoder_norms(
        &self,
        residual: &Matrix<S>,
        lambda: &Vec<S>,
        table: &Vec<Vec<BasisEval<S>>>,
        atom: usize,
    ) -> (r: BlockNorms<S>)
        requires
            self.wf(),
            atom < self.k(),
            lambda@.len() == self.k(),
            self.table_fits(table@),
            residual.has_shape(self.rows(), self.width()),
        ensures
            r == self.decoder_norms_spec(residual, lambda@, table@, atom as int),
    {
        let (gradient, curvature) = self.decoder_gradient(residual, lambda, table, atom);
        let m: usize = gradient.row_count();
        let width: usize = self.output_dim();
        let ghost n = self.uses()[atom as int].len() as int;
        let ghost p = width as int;
        let ghost square = |b: int, c: int|
            self.decoder_grad(residual, lambda@, table@, atom as int, b, c, n).s_times(
                self.decoder_grad(residual, lambda@, table@, atom as int, b, c, n),
            );
        let ghost size = |b: int, c: int|
            self.decoder_grad(residual, lambda@, table@, atom as int, b, c, n).s_magnitude();
        let ghost keep = |b: int, c: int|
            S::s_zero().s_below(self.decoder_curv(lambda@, table@, atom as int, b, n));
        let ghost scaled = |b: int, c: int|
            self.decoder_grad(residual, lambda@, table@, atom as int, b, c, n).s_magnitude().s_over(
                self.decoder_curv(lambda@, table@, atom as int, b, n),
            );
        let ghost wide = |b: int| p;
        let mut sq: S = S::zero();
        let mut max: S = S::zero();
        let mut scaled_max: S = S::zero();
        for b in 0..m
            invariant
                n == self.uses()[atom as int].len(),
                p == width as int,
                gradient.has_shape(m as nat, width as nat),
                curvature@.len() == m,
                width == self.width(),
                forall|i: int, j: int|
                    0 <= i < m && 0 <= j < width ==> #[trigger] gradient.at(i, j)
                        == self.decoder_grad(
                        residual,
                        lambda@,
                        table@,
                        atom as int,
                        i,
                        j,
                        n,
                    ),
                forall|i: int|
                    0 <= i < m ==> #[trigger] curvature@[i] == self.decoder_curv(
                        lambda@,
                        table@,
                        atom as int,
                        i,
                        n,
                    ),
                square == (|b: int, c: int|
                    self.decoder_grad(residual, lambda@, table@, atom as int, b, c, n).s_times(
                        self.decoder_grad(residual, lambda@, table@, atom as int, b, c, n),
                    )),
                size == (|b: int, c: int|
                    self.decoder_grad(
                        residual,
                        lambda@,
                        table@,
                        atom as int,
                        b,
                        c,
                        n,
                    ).s_magnitude()),
                keep == (|b: int, c: int|
                    S::s_zero().s_below(self.decoder_curv(lambda@, table@, atom as int, b, n))),
                scaled == (|b: int, c: int|
                    self.decoder_grad(
                        residual,
                        lambda@,
                        table@,
                        atom as int,
                        b,
                        c,
                        n,
                    ).s_magnitude().s_over(self.decoder_curv(lambda@, table@, atom as int, b, n))),
                wide == (|b: int| p),
                sq == s_grid_sum(S::s_zero(), b as int, p, square),
                max == s_grid_max(S::s_zero(), b as int, p, size),
                scaled_max == s_ragged_max_if(S::s_zero(), b as int, wide, keep, scaled),
        {
            let scale: S = curvature[b];
            for c in 0..width
                invariant
                    n == self.uses()[atom as int].len(),
                    p == width as int,
                    gradient.has_shape(m as nat, width as nat),
                    b < m,
                    scale == self.decoder_curv(lambda@, table@, atom as int, b as int, n),
                    forall|i: int, j: int|
                        0 <= i < m && 0 <= j < width ==> #[trigger] gradient.at(i, j)
                            == self.decoder_grad(
                            residual,
                            lambda@,
                            table@,
                            atom as int,
                            i,
                            j,
                            n,
                        ),
                    square == (|b: int, c: int|
                        self.decoder_grad(
                            residual,
                            lambda@,
                            table@,
                            atom as int,
                            b,
                            c,
                            n,
                        ).s_times(
                            self.decoder_grad(residual, lambda@, table@, atom as int, b, c, n),
                        )),
                    size == (|b: int, c: int|
                        self.decoder_grad(
                            residual,
                            lambda@,
                            table@,
                            atom as int,
                            b,
                            c,
                            n,
                        ).s_magnitude()),
                    keep == (|b: int, c: int|
                        S::s_zero().s_below(
                            self.decoder_curv(lambda@, table@, atom as int, b, n),
                        )),
                    scaled == (|b: int, c: int|
                        self.decoder_grad(
                            residual,
                            lambda@,
                            table@,
                            atom as int,
                            b,
                            c,
                            n,
                        ).s_magnitude().s_over(
                            self.decoder_curv(lambda@, table@, atom as int, b, n),
                        )),
                    sq == s_line_sum(
                        s_grid_sum(S::s_zero(), b as int, p, square),
                        b as int,
                        c as int,
                        square,
                    ),
                    max == s_line_max(
                        s_grid_max(S::s_zero(), b as int, p, size),
                        b as int,
                        c as int,
                        size,
                    ),
                    scaled_max == s_line_max_if(
                        s_ragged_max_if(S::s_zero(), b as int, wide, keep, scaled),
                        b as int,
                        c as int,
                        keep,
                        scaled,
                    ),
            {
                let value: S = gradient.get(b, c);
                sq = sq.plus(value.times(value));
                max = max.larger(value.magnitude());
                if S::zero().below(scale) {
                    scaled_max = scaled_max.larger(value.magnitude().over(scale));
                }
            }
        }
        BlockNorms { sq, max, scaled_max }
    }

    /// The gradient along one coordinate.
    pub open spec fn coord_grad(
        &self,
        residual: &Matrix<S>,
        table: Seq<Vec<BasisEval<S>>>,
        priors: Seq<Vec<Vec<PriorTerm<S>>>>,
        row: int,
        slot: int,
        axis: int,
    ) -> S {
        s_less(
            S::s_zero(),
            self.width() as int,
            |c: int| self.tangent(table, row, slot, axis, c).s_times(residual.at(row, c)),
        ).s_plus(priors[row]@[slot]@[axis].grad)
    }

    /// The Gauss-Newton curvature along one coordinate.
    pub open spec fn coord_curv(
        &self,
        table: Seq<Vec<BasisEval<S>>>,
        priors: Seq<Vec<Vec<PriorTerm<S>>>>,
        row: int,
        slot: int,
        axis: int,
    ) -> S {
        s_sum(
            S::s_zero(),
            self.width() as int,
            |c: int|
                self.tangent(table, row, slot, axis, c).s_times(
                    self.tangent(table, row, slot, axis, c),
                ),
        ).s_plus(priors[row]@[slot]@[axis].curvature)
    }

    /// One row's gradient norms.
    pub open spec fn coordinate_norms_spec(
        &self,
        residual: &Matrix<S>,
        table: Seq<Vec<BasisEval<S>>>,
        priors: Seq<Vec<Vec<PriorTerm<S>>>>,
        row: int,
    ) -> BlockNorms<S> {
        let n = self.support(row).len() as int;
        let w = |slot: int| self.state().slot_dim(row, slot) as int;
        BlockNorms {
            sq: s_ragged_sum(
                S::s_zero(),
                n,
                w,
                |slot: int, axis: int|
                    self.coord_grad(residual, table, priors, row, slot, axis).s_times(
                        self.coord_grad(residual, table, priors, row, slot, axis),
                    ),
            ),
            max: s_ragged_max_if(
                S::s_zero(),
                n,
                w,
                |slot: int, axis: int| true,
                |slot: int, axis: int|
                    self.coord_grad(residual, table, priors, row, slot, axis).s_magnitude(),
            ),
            scaled_max: s_ragged_max_if(
                S::s_zero(),
                n,
                w,
                |slot: int, axis: int|
                    S::s_zero().s_below(self.coord_curv(table, priors, row, slot, axis)),
                |slot: int, axis: int|
                    self.coord_grad(residual, table, priors, row, slot, axis).s_magnitude().s_over(
                        self.coord_curv(table, priors, row, slot, axis),
                    ),
            ),
        }
    }

    /// The gradient and curvature along one coordinate.
    fn coordinate_gradient(
        &self,
        residual: &Matrix<S>,
        table: &Vec<Vec<BasisEval<S>>>,
        priors: &Vec<Vec<Vec<PriorTerm<S>>>>,
        row: usize,
        slot: usize,
        axis: usize,
        tangent: &Vec<S>,
    ) -> (r: (S, S))
        requires
            self.wf(),
            row < self.rows(),
            slot < self.support(row as int).len(),
            axis < self.state().slot_dim(row as int, slot as int),
            self.priors_fit(priors@),
            residual.has_shape(self.rows(), self.width()),
            tangent@.len() == self.width(),
            forall|c: int|
                0 <= c < self.width() ==> #[trigger] tangent@[c] == self.tangent(
                    table@,
                    row as int,
                    slot as int,
                    axis as int,
                    c,
                ),
        ensures
            r.0 == self.coord_grad(
                residual,
                table@,
                priors@,
                row as int,
                slot as int,
                axis as int,
            ),
            r.1 == self.coord_curv(table@, priors@, row as int, slot as int, axis as int),
    {
        let width: usize = self.output_dim();
        let mut gradient: S = S::zero();
        let mut curvature: S = S::zero();
        let ghost f = |c: int|
            self.tangent(table@, row as int, slot as int, axis as int, c).s_times(
                residual.at(row as int, c),
            );
        let ghost g = |c: int|
            self.tangent(table@, row as int, slot as int, axis as int, c).s_times(
                self.tangent(table@, row as int, slot as int, axis as int, c),
            );
        for c in 0..width
            invariant
                width == self.width(),
                row < self.rows(),
                residual.has_shape(self.rows(), self.width()),
                tangent@.len() == width,
                forall|c: int|
                    0 <= c < width ==> #[trigger] tangent@[c] == self.tangent(
                        table@,
                        row as int,
                        slot as int,
                        axis as int,
                        c,
                    ),
                f == (|c: int|
                    self.tangent(table@, row as int, slot as int, axis as int, c).s_times(
                        residual.at(row as int, c),
                    )),
                g == (|c: int|
                    self.tangent(table@, row as int, slot as int, axis as int, c).s_times(
                        self.tangent(table@, row as int, slot as int, axis as int, c),
                    )),
                gradient == s_less(S::s_zero(), c as int, f),
                curvature == s_sum(S::s_zero(), c as int, g),
        {
            let j: S = tangent[c];
            gradient = gradient.minus(j.times(residual.get(row, c)));
            curvature = curvature.plus(j.times(j));
        }
        assert(self.row_priors_fit(priors@[row as int]@, row as int));
        let prior: PriorTerm<S> = priors[row][slot][axis];
        (gradient.plus(prior.grad), curvature.plus(prior.curvature))
    }

    /// One row's gradient norms.
    pub fn coordinate_norms(
        &self,
        residual: &Matrix<S>,
        table: &Vec<Vec<BasisEval<S>>>,
        priors: &Vec<Vec<Vec<PriorTerm<S>>>>,
        row: usize,
    ) -> (r: BlockNorms<S>)
        requires
            self.wf(),
            row < self.rows(),
            self.table_fits(table@),
            self.priors_fit(priors@),
            residual.has_shape(self.rows(), self.width()),
        ensures
            r == self.coordinate_norms_spec(residual, table@, priors@, row as int),
    {
        let slots: usize = self.assignment().support_indices(row).len();
        let ghost w = |slot: int| self.state().slot_dim(row as int, slot) as int;
        let ghost square = |slot: int, axis: int|
            self.coord_grad(residual, table@, priors@, row as int, slot, axis).s_times(
                self.coord_grad(residual, table@, priors@, row as int, slot, axis),
            );
        let ghost all = |slot: int, axis: int| true;
        let ghost size = |slot: int, axis: int|
            self.coord_grad(residual, table@, priors@, row as int, slot, axis).s_magnitude();
        let ghost keep = |slot: int, axis: int|
            S::s_zero().s_below(self.coord_curv(table@, priors@, row as int, slot, axis));
        let ghost scaled = |slot: int, axis: int|
            self.coord_grad(
                residual,
                table@,
                priors@,
                row as int,
                slot,
                axis,
            ).s_magnitude().s_over(self.coord_curv(table@, priors@, row as int, slot, axis));
        let mut sq: S = S::zero();
        let mut max: S = S::zero();
        let mut scaled_max: S = S::zero();
        for slot in 0..slots
            invariant
                self.wf(),
                row < self.rows(),
                slots == self.support(row as int).len(),
                self.table_fits(table@),
                self.priors_fit(priors@),
                residual.has_shape(self.rows(), self.width()),
                w == (|slot: int| self.state().slot_dim(row as int, slot) as int),
                square == (|slot: int, axis: int|
                    self.coord_grad(residual, table@, priors@, row as int, slot, axis).s_times(
                        self.coord_grad(residual, table@, priors@, row as int, slot, axis),
                    )),
                all == (|slot: int, axis: int| true),
                size == (|slot: int, axis: int|
                    self.coord_grad(
                        residual,
                        table@,
                        priors@,
                        row as int,
                        slot,
                        axis,
                    ).s_magnitude()),
                keep == (|slot: int, axis: int|
                    S::s_zero().s_below(self.coord_curv(table@, priors@, row as int, slot, axis))),
                scaled == (|slot: int, axis: int|
                    self.coord_grad(
                        residual,
                        table@,
                        priors@,
                        row as int,
                        slot,
                        axis,
                    ).s_magnitude().s_over(
                        self.coord_curv(table@, priors@, row as int, slot, axis),
                    )),
                sq == s_ragged_sum(S::s_zero(), slot as int, w, square),
                max == s_ragged_max_if(S::s_zero(), slot as int, w, all, size),
                scaled_max == s_ragged_max_if(S::s_zero(), slot as int, w, keep, scaled),
        {
            proof {
                self.lemma_active(row as int, slot as int);
                assert(self.row_fits(table@[row as int]@, row as int));
            }
            let active: ActiveAtom<S> = self.fill_active_eval(row, slot, &table[row][slot]);
            for axis in 0..active.jacobian.len()
                invariant
                    self.wf(),
                    row < self.rows(),
                    slot < self.support(row as int).len(),
                    self.priors_fit(priors@),
                    residual.has_shape(self.rows(), self.width()),
                    active.jacobian@.len() == self.state().slot_dim(row as int, slot as int),
                    forall|a: int|
                        0 <= a < active.jacobian@.len() ==> (#[trigger] active.jacobian@[a])@.len()
                            == self.width(),
                    forall|a: int, c: int|
                        0 <= a < active.jacobian@.len() && 0 <= c < self.width()
                            ==> #[trigger] active.jacobian@[a]@[c] == self.tangent(
                            table@,
                            row as int,
                            slot as int,
                            a,
                            c,
                        ),
                    square == (|slot: int, axis: int|
                        self.coord_grad(
                            residual,
                            table@,
                            priors@,
                            row as int,
                            slot,
                            axis,
                        ).s_times(
                            self.coord_grad(residual, table@, priors@, row as int, slot, axis),
                        )),
                    all == (|slot: int, axis: int| true),
                    size == (|slot: int, axis: int|
                        self.coord_grad(
                            residual,
                            table@,
                            priors@,
                            row as int,
                            slot,
                            axis,
                        ).s_magnitude()),
                    keep == (|slot: int, axis: int|
                        S::s_zero().s_below(
                            self.coord_curv(table@, priors@, row as int, slot, axis),
                        )),
                    scaled == (|slot: int, axis: int|
                        self.coord_grad(
                            residual,
                            table@,
                            priors@,
                            row as int,
                            slot,
                            axis,
                        ).s_magnitude().s_over(
                            self.coord_curv(table@, priors@, row as int, slot, axis),
                        )),
                    sq == s_line_sum(
                        s_ragged_sum(S::s_zero(), slot as int, w, square),
                        slot as int,
                        axis as int,
                        square,
                    ),
                    max == s_line_max_if(
                        s_ragged_max_if(S::s_zero(), slot as int, w, all, size),
                        slot as int,
                        axis as int,
                        all,
                        size,
                    ),
                    scaled_max == s_line_max_if(
                        s_ragged_max_if(S::s_zero(), slot as int, w, keep, scaled),
                        slot as int,
                        axis as int,
                        keep,
                        scaled,
                    ),
            {
                let (gradient, curvature) = self.coordinate_gradient(
                    residual,
                    table,
                    priors,
                    row,
                    slot,
                    axis,
                    &active.jacobian[axis],
                );
                sq = sq.plus(gradient.times(gradient));
                max = max.larger(gradient.magnitude());
                if S::zero().below(curvature) {
                    scaled_max = scaled_max.larger(gradient.magnitude().over(curvature));
                }
            }
        }
        BlockNorms { sq, max, scaled_max }
    }

    /// The decoder blocks' norms together, over the first `n` atoms.
    pub open spec fn decoder_totals(
        &self,
        residual: &Matrix<S>,
        lambda: Seq<S>,
        table: Seq<Vec<BasisEval<S>>>,
        n: int,
    ) -> BlockNorms<S> {
        BlockNorms {
            sq: s_sum(
                S::s_zero(),
                n,
                |a: int| self.decoder_norms_spec(residual, lambda, table, a).sq,
            ),
            max: s_max(
                S::s_zero(),
                n,
                |a: int| self.decoder_norms_spec(residual, lambda, table, a).max,
            ),
            scaled_max: s_max(
                S::s_zero(),
                n,
                |a: int| self.decoder_norms_spec(residual, lambda, table, a).scaled_max,
            ),
        }
    }

    /// The coordinate blocks' norms together, over the first `n` rows.
    pub open spec fn coordinate_totals(
        &self,
        residual: &Matrix<S>,
        table: Seq<Vec<BasisEval<S>>>,
        priors: Seq<Vec<Vec<PriorTerm<S>>>>,
        n: int,
    ) -> BlockNorms<S> {
        BlockNorms {
            sq: s_sum(
                S::s_zero(),
                n,
                |row: int| self.coordinate_norms_spec(residual, table, priors, row).sq,
            ),
            max: s_max(
                S::s_zero(),
                n,
                |row: int| self.coordinate_norms_spec(residual, table, priors, row).max,
            ),
            scaled_max: s_max(
                S::s_zero(),
                n,
                |row: int| self.coordinate_norms_spec(residual, table, priors, row).scaled_max,
            ),
        }
    }

    pub open spec fn stationarity_of(decoder: BlockNorms<S>, coordinate: BlockNorms<S>) -> SaeSupportStationarity<S> {
        SaeSupportStationarity {
            decoder_l2: decoder.sq.s_root(),
            decoder_max_abs: decoder.max,
            coordinate_l2: coordinate.sq.s_root(),
            coordinate_max_abs: coordinate.max,
            decoder_scaled_max_abs: decoder.scaled_max,
            coordinate_scaled_max_abs: coordinate.scaled_max,
        }
    }

    /// The first-order residual against a residual that the caller holds.
    pub fn raw_stationarity_with_residual(
        &self,
        residual: &Matrix<S>,
        lambda: &Vec<S>,
        ard: &Vec<Vec<S>>,
        table: &Vec<Vec<BasisEval<S>>>,
        priors: &Vec<Vec<Vec<PriorTerm<S>>>>,
    ) -> (r: Result<SaeSupportStationarity<S>, StationarityError>)
        requires
            self.wf(),
            residual.wf(),
            self.table_fits(table@),
            self.priors_fit(priors@),
        ensures
            match r {
                Ok(s) => {
                    &&& self.hyper_fault(lambda@, ard@) is None
                    &&& residual.nrows() == self.rows() && residual.ncols() == self.width()
                    &&& s == Self::stationarity_of(
                        self.decoder_totals(residual, lambda@, table@, self.k() as int),
                        self.coordinate_totals(residual, table@, priors@, self.rows() as int),
                    )
                },
                Err(StationarityError::Hyper(fault)) => self.hyper_fault(lambda@, ard@) == Some(
                    fault,
                ),
                Err(StationarityError::Shape(e)) => {
                    &&& self.hyper_fault(lambda@, ard@) is None
                    &&& residual.nrows() != self.rows() || residual.ncols() != self.width()
                    &&& e == (ShapeError {
                        found: (residual.nrows() as usize, residual.ncols() as usize),
                        expected: (self.rows() as usize, self.width() as usize),
                    })
                },
            },
    {
        if let Err(fault) = self.validate_smoothing(lambda) {
            return Err(StationarityError::Hyper(fault));
        }
        if let Err(fault) = self.validate_ard(ard) {
            return Err(StationarityError::Hyper(fault));
        }
        let n: usize = self.n_obs();
        let k_atoms: usize = self.k_atoms();
        let width: usize = self.output_dim();
        let found: (usize, usize) = (residual.row_count(), residual.col_count());
        if found.0 != n || found.1 != width {
            return Err(StationarityError::Shape(ShapeError { found, expected: (n, width) }));
        }
        let mut decoder = BlockNorms { sq: S::zero(), max: S::zero(), scaled_max: S::zero() };
        for atom in 0..k_atoms
            invariant
                self.wf(),
                k_atoms == self.k(),
                lambda@.len() == k_atoms,
                self.table_fits(table@),
                residual.has_shape(self.rows(), self.width()),
                decoder == self.decoder_totals(residual, lambda@, table@, atom as int),
        {
            let norms: BlockNorms<S> = self.decoder_norms(residual, lambda, table, atom);
            decoder = BlockNorms {
                sq: decoder.sq.plus(norms.sq),
                max: decoder.max.larger(norms.max),
                scaled_max: decoder.scaled_max.larger(norms.scaled_max),
            };
        }
        let mut coordinate = BlockNorms { sq: S::zero(), max: S::zero(), scaled_max: S::zero() };
        for row in 0..n
            invariant
                self.wf(),
                n == self.rows(),
                self.table_fits(table@),
                self.priors_fit(priors@),
                residual.has_shape(self.rows(), self.width()),
                coordinate == self.coordinate_totals(residual, table@, priors@, row as int),
        {
            let norms: BlockNorms<S> = self.coordinate_norms(residual, table, priors, row);
            coordinate = BlockNorms {
                sq: coordinate.sq.plus(norms.sq),
                max: coordinate.max.larger(norms.max),
                scaled_max: coordinate.scaled_max.larger(norms.scaled_max),
            };
        }
        Ok(
            SaeSupportStationarity {
                decoder_l2: decoder.sq.root(),
                decoder_max_abs: decoder.max,
                coordinate_l2: coordinate.sq.root(),
                coordinate_max_abs: coordinate.max,
                decoder_scaled_max_abs: decoder.scaled_max,
                coordinate_scaled_max_abs: coordinate.scaled_max,
            },
        )
    }

    /// The first-order residual at the term's own reconstruction of `target`.
    pub fn raw_stationarity(
        &self,
        target: &Matrix<S>,
        lambda: &Vec<S>,
        ard: &Vec<Vec<S>>,
        table: &Vec<Vec<BasisEval<S>>>,
        priors: &Vec<Vec<Vec<PriorTerm<S>>>>,
    ) -> (r: Result<SaeSupportStationarity<S>, StationarityError>)
        requires
            self.wf(),
            target.wf(),
            self.table_fits(table@),
            self.priors_fit(priors@),
        ensures
            match r {
                Ok(s) => {
                    &&& target.nrows() == self.rows() && target.ncols() == self.width()
                    &&& self.hyper_fault(lambda@, ard@) is None
                    &&& exists|residual: Matrix<S>|
                        {
                            &&& #[trigger] self.is_residual(target, table@, &residual)
                            &&& s == Self::stationarity_of(
                                self.decoder_totals(&residual, lambda@, table@, self.k() as int),
                                self.coordinate_totals(
                                    &residual,
                                    table@,
                                    priors@,
                                    self.rows() as int,
                                ),
                            )
                        }
                },
                Err(StationarityError::Hyper(fault)) => {
                    &&& target.nrows() == self.rows() && target.ncols() == self.width()
                    &&& self.hyper_fault(lambda@, ard@) == Some(fault)
                },
                Err(StationarityError::Shape(e)) => {
                    &&& target.nrows() != self.rows() || target.ncols() != self.width()
                    &&& e == (ShapeError {
                        found: (target.nrows() as usize, target.ncols() as usize),
                        expected: (self.rows() as usize, self.width() as usize),
                    })
                },
            },
    {
        match self.raw_residual(target, table) {
            Err(e) => Err(StationarityError::Shape(e)),
            Ok(residual) => {
                assert(self.is_residual(target, table@, &residual));
                self.raw_stationarity_with_residual(&residual, lambda, ard, table, priors)
            },
        }
    }

    /// The gradient along one coordinate, the likelihood's part summed before
    /// the prior's is added.
    pub open spec fn coord_slope(
        &self,
        residual: &Matrix<S>,
        table: Seq<Vec<BasisEval<S>>>,
        priors: Seq<Vec<Vec<PriorTerm<S>>>>,
        row: int,
        slot: int,
        axis: int,
    ) -> S {
        s_sum(
            S::s_zero(),
            self.width() as int,
            |c: int|
                self.tangent(table, row, slot, axis, c).s_negate().s_times(residual.at(row, c)),
        ).s_plus(priors[row]@[slot]@[axis].grad)
    }

    /// One row's squared slope norm and largest slope.
    pub open spec fn slope_norms_spec(
        &self,
        residual: &Matrix<S>,
        table: Seq<Vec<BasisEval<S>>>,
        priors: Seq<Vec<Vec<PriorTerm<S>>>>,
        row: int,
    ) -> (S, S) {
        let n = self.support(row).len() as int;
        let w = |slot: int| self.state().slot_dim(row, slot) as int;
        (
            s_ragged_sum(
                S::s_zero(),
                n,
                w,
                |slot: int, axis: int|
                    self.coord_slope(residual, table, priors, row, slot, axis).s_times(
                        self.coord_slope(residual, table, priors, row, slot, axis),
                    ),
            ),
            s_ragged_max_if(
                S::s_zero(),
                n,
                w,
                |slot: int, axis: int| true,
                |slot: int, axis: int|
                    self.coord_slope(residual, table, priors, row, slot, axis).s_magnitude(),
            ),
        )
    }

    /// One row's squared slope norm and largest slope.
    pub fn slope_norms(
        &self,
        residual: &Matrix<S>,
        table: &Vec<Vec<BasisEval<S>>>,
        priors: &Vec<Vec<Vec<PriorTerm<S>>>>,
        row: usize,
    ) -> (r: (S, S))
        requires
            self.wf(),
            row < self.rows(),
            self.table_fits(table@),
            self.priors_fit(priors@),
            residual.has_shape(self.rows(), self.width()),
        ensures
            r == self.slope_norms_spec(residual, table@, priors@, row as int),
    {
        let slots: usize = self.assignment().support_indices(row).len();
        let width: usize = self.output_dim();
        let ghost w = |slot: int| self.state().slot_dim(row as int, slot) as int;
        let ghost square = |slot: int, axis: int|
            self.coord_slope(residual, table@, priors@, row as int, slot, axis).s_times(
                self.coord_slope(residual, table@, priors@, row as int, slot, axis),
            );
        let ghost all = |slot: int, axis: int| true;
        let ghost size = |slot: int, axis: int|
            self.coord_slope(residual, table@, priors@, row as int, slot, axis).s_magnitude();
        let mut sq: S = S::zero();
        let mut max: S = S::zero();
        for slot in 0..slots
            invariant
                self.wf(),
                row < self.rows(),
                width == self.width(),
                slots == self.support(row as int).len(),
                self.table_fits(table@),
                self.priors_fit(priors@),
                residual.has_shape(self.rows(), self.width()),
                w == (|slot: int| self.state().slot_dim(row as int, slot) as int),
                square == (|slot: int, axis: int|
                    self.coord_slope(residual, table@, priors@, row as int, slot, axis).s_times(
                        self.coord_slope(residual, table@, priors@, row as int, slot, axis),
                    )),
                all == (|slot: int, axis: int| true),
                size == (|slot: int, axis: int|
                    self.coord_slope(
                        residual,
                        table@,
                        priors@,
                        row as int,
                        slot,
                        axis,
                    ).s_magnitude()),
                sq == s_ragged_sum(S::s_zero(), slot as int, w, square),
                max == s_ragged_max_if(S::s_zero(), slot as int, w, all, size),
        {
            proof {
                self.lemma_active(row as int, slot as int);
                assert(self.row_fits(table@[row as int]@, row as int));
            }
            let active: ActiveAtom<S> = self.fill_active_eval(row, slot, &table[row][slot]);
            for axis in 0..active.jacobian.len()
                invariant
                    self.wf(),
                    row < self.rows(),
                    width == self.width(),
                    slot < self.support(row as int).len(),
                    self.priors_fit(priors@),
                    residual.has_shape(self.rows(), self.width()),
                    active.jacobian@.len() == self.state().slot_dim(row as int, slot as int),
                    forall|a: int|
                        0 <= a < active.jacobian@.len() ==> (#[trigger] active.jacobian@[a])@.len()
                            == self.width(),
                    forall|a: int, c: int|
                        0 <= a < active.jacobian@.len() && 0 <= c < self.width()
                            ==> #[trigger] active.jacobian@[a]@[c] == self.tangent(
                            table@,
                            row as int,
                            slot as int,
                            a,
                            c,
                        ),
                    square == (|slot: int, axis: int|
                        self.coord_slope(
                            residual,
                            table@,
                            priors@,
                            row as int,
                            slot,
                            axis,
                        ).s_times(
                            self.coord_slope(residual, table@, priors@, row as int, slot, axis),
                        )),
                    all == (|slot: int, axis: int| true),
                    size == (|slot: int, axis: int|
                        self.coord_slope(
                            residual,
                            table@,
                            priors@,
                            row as int,
                            slot,
                            axis,
                        ).s_magnitude()),
                    sq == s_line_sum(
                        s_ragged_sum(S::s_zero(), slot as int, w, square),
                        slot as int,
                        axis as int,
                        square,
                    ),
                    max == s_line_max_if(
                        s_ragged_max_if(S::s_zero(), slot as int, w, all, size),
                        slot as int,
                        axis as int,
                        all,
                        size,
                    ),
            {
                let tangent: &Vec<S> = &active.jacobian[axis];
                let ghost f = |c: int|
                    self.tangent(
                        table@,
                        row as int,
                        slot as int,
                        axis as int,
                        c,
                    ).s_negate().s_times(residual.at(row as int, c));
                let mut slope: S = S::zero();
                for c in 0..width
                    invariant
                        width == self.width(),
                        row < self.rows(),
                        residual.has_shape(self.rows(), self.width()),
                        tangent@.len() == width,
                        forall|c: int|
                            0 <= c < width ==> #[trigger] tangent@[c] == self.tangent(
                                table@,
                                row as int,
                                slot as int,
                                axis as int,
                                c,
                            ),
                        f == (|c: int|
                            self.tangent(
                                table@,
                                row as int,
                                slot as int,
                                axis as int,
                                c,
                            ).s_negate().s_times(residual.at(row as int, c))),
                        slope == s_sum(S::s_zero(), c as int, f),
                {
                    slope = slope.plus(tangent[c].negate().times(residual.get(row, c)));
                }
                assert(self.row_priors_fit(priors@[row as int]@, row as int));
                let gradient: S = slope.plus(priors[row][slot][axis].grad);
                sq = sq.plus(gradient.times(gradient));
                max = max.larger(gradient.magnitude());
            }
        }
        (sq, max)
    }

    /// All rows' slopes: the norm, and the largest.
    pub open spec fn slope_totals(
        &self,
        residual: &Matrix<S>,
        table: Seq<Vec<BasisEval<S>>>,
        priors: Seq<Vec<Vec<PriorTerm<S>>>>,
        n: int,
    ) -> (S, S) {
        (
            s_sum(
                S::s_zero(),
                n,
                |row: int| self.slope_norms_spec(residual, table, priors, row).0,
            ),
            s_max(
                S::s_zero(),
                n,
                |row: int| self.slope_norms_spec(residual, table, priors, row).1,
            ),
        )
    }

    /// The coordinate part of the first-order residual, with the decoders held
    /// fixed: its norm and its largest entry.
    pub fn raw_coordinate_stationarity_with_residual(
        &self,
        residual: &Matrix<S>,
        ard: &Vec<Vec<S>>,
        table: &Vec<Vec<BasisEval<S>>>,
        priors: &Vec<Vec<Vec<PriorTerm<S>>>>,
    ) -> (r: Result<(S, S), StationarityError>)
        requires
            self.wf(),
            residual.wf(),
            self.table_fits(table@),
            self.priors_fit(priors@),
        ensures
            match r {
                Ok((l2, max)) => {
                    &&& self.ard_fault(ard@) is None
                    &&& residual.nrows() == self.rows() && residual.ncols() == self.width()
                    &&& l2 == self.slope_totals(
                        residual,
                        table@,
                        priors@,
                        self.rows() as int,
                    ).0.s_root()
                    &&& max == self.slope_totals(residual, table@, priors@, self.rows() as int).1
                },
                Err(StationarityError::Hyper(fault)) => self.ard_fault(ard@) == Some(fault),
                Err(StationarityError::Shape(e)) => {
                    &&& self.ard_fault(ard@) is None
                    &&& residual.nrows() != self.rows() || residual.ncols() != self.width()
                    &&& e == (ShapeError {
                        found: (residual.nrows() as usize, residual.ncols() as usize),
                        expected: (self.rows() as usize, self.width() as usize),
                    })
                },
            },
    {
        if let Err(fault) = self.validate_ard(ard) {
            return Err(StationarityError::Hyper(fault));
        }
        let n: usize = self.n_obs();
        let width: usize = self.output_dim();
        let found: (usize, usize) = (residual.row_count(), residual.col_count());
        if found.0 != n || found.1 != width {
            return Err(StationarityError::Shape(ShapeError { found, expected: (n, width) }));
        }
        let mut sq: S = S::zero();
        let mut max: S = S::zero();
        for row in 0..n
            invariant
                self.wf(),
                n == self.rows(),
                self.table_fits(table@),
                self.priors_fit(priors@),
                residual.has_shape(self.rows(), self.width()),
                (sq, max) == self.slope_totals(residual, table@, priors@, row as int),
        {
            let (row_sq, row_max) = self.slope_norms(residual, table, priors, row);
            sq = sq.plus(row_sq);
            max = max.larger(row_max);
        }
        Ok((sq.root(), max))
    }

    /// The coordinate part at the term's own reconstruction of `target`.
    pub fn raw_coordinate_stationarity(
        &self,
        target: &Matrix<S>,
        ard: &Vec<Vec<S>>,
        table: &Vec<Vec<BasisEval<S>>>,
        priors: &Vec<Vec<Vec<PriorTerm<S>>>>,
    ) -> (r: Result<(S, S), StationarityError>)
        requires
            self.wf(),
            target.wf(),
            self.table_fits(table@),
            self.priors_fit(priors@),
        ensures
            match r {
                Ok((l2, max)) => {
                    &&& target.nrows() == self.rows() && target.ncols() == self.width()
                    &&& self.ard_fault(ard@) is None
                    &&& exists|residual: Matrix<S>|
                        {
                            &&& #[trigger] self.is_residual(target, table@, &residual)
                            &&& l2 == self.slope_totals(
                                &residual,
                                table@,
                                priors@,
                                self.rows() as int,
                            ).0.s_root()
                            &&& max == self.slope_totals(
                                &residual,
                                table@,
                                priors@,
                                self.rows() as int,
                            ).1
                        }
                },
                Err(StationarityError::Hyper(fault)) => {
                    &&& target.nrows() == self.rows() && target.ncols() == self.width()
                    &&& self.ard_fault(ard@) == Some(fault)
                },
                Err(StationarityError::Shape(e)) => {
                    &&& target.nrows() != self.rows() || target.ncols() != self.width()
                    &&& e == (ShapeError {
                        found: (target.nrows() as usize, target.ncols() as usize),
                        expected: (self.rows() as usize, self.width() as usize),
                    })
                },
            },
    {
        match self.raw_residual(target, table) {
            Err(e) => Err(StationarityError::Shape(e)),
            Ok(residual) => {
                assert(self.is_residual(target, table@, &residual));
                self.raw_coordinate_stationarity_with_residual(&residual, ard, table, priors)
            },
        }
    }
}

} // verus!
