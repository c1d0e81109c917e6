//! Decoder updates at fixed coordinates.
//!
//! The exact sweep visits the conflict classes in turn: it forms every member's
//! normal equations against one and the same fit, and installs their solutions
//! together. The accelerated sweep updates every atom at once against a
//! majoriser of the joint quadratic, with momentum. Both keep the fitted matrix
//! in step with the decoders. The equations are solved outside, with the steps
//! of [`crate::spectral`].
use crate::active::{decode, s_decoded, BasisEval, ShapeError};
use crate::assignment::AssignmentMode;
use crate::atom::{AtomError, SaeManifoldAtom};
use crate::matrix::{product, s_product_at, Matrix};
use crate::objective::HyperFault;
use crate::scalar::{
    at_least_one, count_at_least_one, half, lemma_sum_ext, s_grid_max, s_half, s_line_max, s_max,
    s_sum, Scalar,
};
use crate::term::SaeSupportSparseTerm;
use vstd::prelude::*;

verus! {

/// An atom's normal equations: `gram * B = rhs`, to be solved with the atom's
/// penalty.
#[derive(Debug)]
pub struct NormalEquations<S> {
    pub gram: Matrix<S>,
    pub rhs: Matrix<S>,
}

/// Why a sweep does not start.
#[derive(Clone, Copy, Debug, PartialEq, Eq)]
pub enum SweepError {
    Hyper(HyperFault),
    Shape(ShapeError),
}

/// Position `(row, c)` of a fit after the first `n` uses have each added their
/// image to their row.
pub open spec fn refitted<S: Scalar>(
    start: S,
    uses: Seq<(usize, usize)>,
    images: Seq<Vec<S>>,
    row: int,
    c: int,
    n: int,
) -> S
    decreases n,
{
    if n <= 0 {
        start
    } else {
        let rest = refitted(start, uses, images, row, c, n - 1);
        if uses[n - 1].0 == row {
            rest.s_plus(images[n - 1]@[c])
        } else {
            rest
        }
    }
}

/// A row that no use names keeps its fit.
pub proof fn lemma_untouched_row<S: Scalar>(
    start: S,
    uses: Seq<(usize, usize)>,
    images: Seq<Vec<S>>,
    row: int,
    c: int,
    n: int,
)
    requires
        0 <= n <= uses.len(),
        forall|e: int| 0 <= e < n ==> (#[trigger] uses[e]).0 != row,
    ensures
        refitted(start, uses, images, row, c, n) == start,
    decreases n,
{
    if n > 0 {
        lemma_untouched_row(start, uses, images, row, c, n - 1);
        assert(uses[n - 1].0 != row);
    }
}

/// The largest move of any coefficient.
pub open spec fn s_largest_move<S: Scalar>(new: &Matrix<S>, old: &Matrix<S>) -> S {
    s_grid_max(
        S::s_zero(),
        new.nrows() as int,
        new.ncols() as int,
        |b: int, c: int| new.at(b, c).s_minus(old.at(b, c)).s_magnitude(),
    )
}

fn largest_move<S: Scalar>(new: &Matrix<S>, old: &Matrix<S>) -> (r: S)
    requires
        new.wf(),
        old.has_shape(new.nrows(), new.ncols()),
    ensures
        r == s_largest_move(new, old),
{
    let rows: usize = new.row_count();
    let cols: usize = new.col_count();
    let ghost f = |b: int, c: int| new.at(b, c).s_minus(old.at(b, c)).s_magnitude();
    let mut acc: S = S::zero();
    for b in 0..rows
        invariant
            new.has_shape(rows as nat, cols as nat),
            old.has_shape(rows as nat, cols as nat),
            f == (|b: int, c: int| new.at(b, c).s_minus(old.at(b, c)).s_magnitude()),
            acc == s_grid_max(S::s_zero(), b as int, cols as int, f),
    {
        for c in 0..cols
            invariant
                b < rows,
                new.has_shape(rows as nat, cols as nat),
                old.has_shape(rows as nat, cols as nat),
                f == (|b: int, c: int| new.at(b, c).s_minus(old.at(b, c)).s_magnitude()),
                acc == s_line_max(
                    s_grid_max(S::s_zero(), b as int, cols as int, f),
                    b as int,
                    c as int,
                    f,
                ),
        {
            acc = acc.larger(new.get(b, c).minus(old.get(b, c)).magnitude());
        }
    }
    acc
}

/// Channel `c` of `phi * matrix`, over the first `n` basis functions.
pub open spec fn s_row_times<S: Scalar>(phi: Seq<S>, matrix: &Matrix<S>, c: int, n: int) -> S {
    s_sum(S::s_zero(), n, |b: int| phi[b].s_times(matrix.at(b, c)))
}

/// `phi * matrix`.
fn row_times<S: Scalar>(phi: &Vec<S>, matrix: &Matrix<S>) -> (r: Vec<S>)
    requires
        matrix.wf(),
        phi@.len() == matrix.nrows(),
    ensures
        r@.len() == matrix.ncols(),
        forall|c: int|
            0 <= c < matrix.ncols() ==> #[trigger] r@[c] == s_row_times(
                phi@,
                matrix,
                c,
                phi@.len() as int,
            ),
{
    let rows: usize = matrix.row_count();
    let cols: usize = matrix.col_count();
    let mut out: Vec<S> = Vec::new();
    for c in 0..cols
        invariant
            matrix.has_shape(rows as nat, cols as nat),
            phi@.len() == rows,
            out@.len() == c,
            forall|j: int|
                0 <= j < c ==> #[trigger] out@[j] == s_row_times(phi@, matrix, j, rows as int),
    {
        let mut acc: S = S::zero();
        for b in 0..rows
            invariant
                c < cols,
                matrix.has_shape(rows as nat, cols as nat),
                phi@.len() == rows,
                acc == s_row_times(phi@, matrix, c as int, b as int),
        {
            acc = acc.plus(phi[b].times(matrix.get(b, c)));
        }
        out.push(acc);
    }
    out
}

impl<S: Scalar> SaeSupportSparseTerm<S> {
    /// Channel `c` of what use `e` of atom `a` leaves unexplained by the others:
    /// `target - fitted + image`.
    pub open spec fn unexplained(
        &self,
        target: &Matrix<S>,
        fitted: &Matrix<S>,
        table: Seq<Vec<BasisEval<S>>>,
        a: int,
        e: int,
        c: int,
    ) -> S {
        let row = self.uses()[a][e].0 as int;
        target.at(row, c).s_minus(fitted.at(row, c)).s_plus(
            s_decoded(
                self.atom_seq()[a],
                self.use_phi(table, a, e),
                c,
                self.atom_seq()[a].m() as int,
            ),
        )
    }

    /// Entry `(l, r)` of atom `a`'s Gram matrix, over its first `n` uses.
    pub open spec fn gram_at(
        &self,
        table: Seq<Vec<BasisEval<S>>>,
        a: int,
        l: int,
        r: int,
        n: int,
    ) -> S {
        s_sum(
            S::s_zero(),
            n,
            |e: int| self.use_phi(table, a, e)[l].s_times(self.use_phi(table, a, e)[r]),
        )
    }

    /// Entry `(l, c)` of atom `a`'s right-hand side, over its first `n` uses.
    pub open spec fn rhs_at(
        &self,
        target: &Matrix<S>,
        fitted: &Matrix<S>,
        table: Seq<Vec<BasisEval<S>>>,
        a: int,
        l: int,
        c: int,
        n: int,
    ) -> S {
        s_sum(
            S::s_zero(),
            n,
            |e: int|
                self.use_phi(table, a, e)[l].s_times(
                    self.unexplained(target, fitted, table, a, e, c),
                ),
        )
    }

    /// `gram` is atom `a`'s Gram matrix.
    pub open spec fn is_gram(
        &self,
        table: Seq<Vec<BasisEval<S>>>,
        a: int,
        gram: &Matrix<S>,
    ) -> bool {
        let m = self.atom_seq()[a].m() as nat;
        &&& gram.has_shape(m, m)
        &&& forall|l: int, r: int|
            0 <= l < m && 0 <= r < m ==> #[trigger] gram.at(l, r) == self.gram_at(
                table,
                a,
                l,
                r,
                self.uses()[a].len() as int,
            )
    }

    /// Atom `a`'s Gram matrix: the sum of `phi phi'` over its uses.
    pub fn atom_gram(&self, table: &Vec<Vec<BasisEval<S>>>, atom: usize) -> (gram: Matrix<S>)
        requires
            self.wf(),
            atom < self.k(),
            self.table_fits(table@),
        ensures
            self.is_gram(table@, atom as int, &gram),
    {
        proof {
            assert(self.atom_wf(atom as int));
            self.atom_seq()[atom as int].penalty().lemma_size();
        }
        let m: usize = self.atom_basis_size(atom);
        let uses: &Vec<(usize, usize)> = self.rows_of_atom(atom);
        let ghost a = atom as int;
        let mut gram: Matrix<S> = Matrix::constant(m, m, S::zero());
        for e in 0..uses.len()
            invariant
                self.wf(),
                a == atom,
                atom < self.k(),
                self.table_fits(table@),
                uses@ == self.uses()[a],
                m == self.atom_seq()[a].m(),
                gram.has_shape(m as nat, m as nat),
                forall|i: int, j: int|
                    0 <= i < m && 0 <= j < m ==> #[trigger] gram.at(i, j) == self.gram_at(
                        table@,
                        a,
                        i,
                        j,
                        e as int,
                    ),
        {
            let (row, slot): (usize, usize) = uses[e];
            proof {
                self.lemma_use(a, e as int);
                assert(self.row_fits(table@[row as int]@, row as int));
                assert(table@[row as int]@[slot as int].has_shape(
                    self.active(row as int, slot as int).m() as nat,
                    self.active(row as int, slot as int).dim() as nat,
                ));
            }
            let phi: &Vec<S> = &table[row][slot].phi;
            for l in 0..m
                invariant
                    phi@ == self.use_phi(table@, a, e as int),
                    phi@.len() == m,
                    gram.has_shape(m as nat, m as nat),
                    forall|i: int, j: int|
                        0 <= i < m && 0 <= j < m ==> #[trigger] gram.at(i, j) == self.gram_at(
                            table@,
                            a,
                            i,
                            j,
                            if i < l {
                                e + 1
                            } else {
                                e as int
                            },
                        ),
            {
                for r in 0..m
                    invariant
                        l < m,
                        phi@ == self.use_phi(table@, a, e as int),
                        phi@.len() == m,
                        gram.has_shape(m as nat, m as nat),
                        forall|i: int, j: int|
                            0 <= i < m && 0 <= j < m ==> #[trigger] gram.at(i, j) == self.gram_at(
                                table@,
                                a,
                                i,
                                j,
                                if i < l || (i == l && j < r) {
                                    e + 1
                                } else {
                                    e as int
                                },
                            ),
                {
                    let value: S = gram.get(l, r).plus(phi[l].times(phi[r]));
                    gram.set(l, r, value);
                }
            }
        }
        gram
    }

    /// The normal equations of one atom against the current fit: its Gram matrix,
    /// and its basis against what the other atoms leave unexplained.
    pub fn atom_equations(
        &self,
        target: &Matrix<S>,
        fitted: &Matrix<S>,
        table: &Vec<Vec<BasisEval<S>>>,
        atom: usize,
    ) -> (r: NormalEquations<S>)
        requires
            self.wf(),
            atom < self.k(),
            self.table_fits(table@),
            target.has_shape(self.rows(), self.width()),
            fitted.has_shape(self.rows(), self.width()),
        ensures
            self.are_equations(target, fitted, table@, atom as int, &r),
    {
        proof {
            assert(self.atom_wf(atom as int));
            self.atom_seq()[atom as int].decoder().lemma_size();
        }
        let template: &SaeManifoldAtom<S> = self.atom(atom);
        let m: usize = template.basis_size();
        let width: usize = self.output_dim();
        let uses: &Vec<(usize, usize)> = self.rows_of_atom(atom);
        let ghost a = atom as int;
        let mut rhs: Matrix<S> = Matrix::constant(m, width, S::zero());
        for e in 0..uses.len()
            invariant
                self.wf(),
                a == atom,
                atom < self.k(),
                self.atom_wf(a),
                *template == self.atom_seq()[a],
                self.table_fits(table@),
                target.has_shape(self.rows(), self.width()),
                fitted.has_shape(self.rows(), self.width()),
                uses@ == self.uses()[a],
                m == self.atom_seq()[a].m(),
                width == self.width(),
                rhs.has_shape(m as nat, width as nat),
                forall|i: int, j: int|
                    0 <= i < m && 0 <= j < width ==> #[trigger] rhs.at(i, j) == self.rhs_at(
                        target,
                        fitted,
                        table@,
                        a,
                        i,
                        j,
                        e as int,
                    ),
        {
            let (row, slot): (usize, usize) = uses[e];
            proof {
                self.lemma_use(a, e as int);
                assert(self.row_fits(table@[row as int]@, row as int));
                assert(table@[row as int]@[slot as int].has_shape(
                    self.active(row as int, slot as int).m() as nat,
                    self.active(row as int, slot as int).dim() as nat,
                ));
            }
            let phi: &Vec<S> = &table[row][slot].phi;
            let image: Vec<S> = decode(template, phi);
            let mut rest: Vec<S> = Vec::new();
            for c in 0..width
                invariant
                    row < self.rows(),
                    width == self.width(),
                    uses@ == self.uses()[a],
                    uses@[e as int] == (row, slot),
                    *template == self.atom_seq()[a],
                    phi@ == self.use_phi(table@, a, e as int),
                    m == template.m(),
                    target.has_shape(self.rows(), self.width()),
                    fitted.has_shape(self.rows(), self.width()),
                    image@.len() == width,
                    forall|j: int|
                        0 <= j < width ==> #[trigger] image@[j] == s_decoded(
                            *template,
                            phi@,
                            j,
                            m as int,
                        ),
                    rest@.len() == c,
                    forall|j: int|
                        0 <= j < c ==> #[trigger] rest@[j] == self.unexplained(
                            target,
                            fitted,
                            table@,
                            a,
                            e as int,
                            j,
                        ),
            {
                rest.push(target.get(row, c).minus(fitted.get(row, c)).plus(image[c]));
            }
            for l in 0..m
                invariant
                    phi@ == self.use_phi(table@, a, e as int),
                    phi@.len() == m,
                    rest@.len() == width,
                    forall|j: int|
                        0 <= j < width ==> #[trigger] rest@[j] == self.unexplained(
                            target,
                            fitted,
                            table@,
                            a,
                            e as int,
                            j,
                        ),
                    rhs.has_shape(m as nat, width as nat),
                    forall|i: int, j: int|
                        0 <= i < m && 0 <= j < width ==> #[trigger] rhs.at(i, j) == self.rhs_at(
                            target,
                            fitted,
                            table@,
                            a,
                            i,
                            j,
                            if i < l {
                                e + 1
                            } else {
                                e as int
                            },
                        ),
            {
                for c in 0..width
                    invariant
                        l < m,
                        phi@ == self.use_phi(table@, a, e as int),
                        phi@.len() == m,
                        rest@.len() == width,
                        forall|j: int|
                            0 <= j < width ==> #[trigger] rest@[j] == self.unexplained(
                                target,
                                fitted,
                                table@,
                                a,
                                e as int,
                                j,
                            ),
                        rhs.has_shape(m as nat, width as nat),
                        forall|i: int, j: int|
                            0 <= i < m && 0 <= j < width ==> #[trigger] rhs.at(i, j)
                                == self.rhs_at(
                                target,
                                fitted,
                                table@,
                                a,
                                i,
                                j,
                                if i < l || (i == l && j < c) {
                                    e + 1
                                } else {
                                    e as int
                                },
                            ),
                {
                    let value: S = rhs.get(l, c).plus(phi[l].times(rest[c]));
                    rhs.set(l, c, value);
                }
            }
        }
        NormalEquations { gram: self.atom_gram(table, atom), rhs }
    }

    /// `equations` are atom `a`'s normal equations against `fitted`.
    pub open spec fn are_equations(
        &self,
        target: &Matrix<S>,
        fitted: &Matrix<S>,
        table: Seq<Vec<BasisEval<S>>>,
        a: int,
        equations: &NormalEquations<S>,
    ) -> bool {
        let m = self.atom_seq()[a].m() as nat;
        &&& self.is_gram(table, a, &equations.gram)
        &&& equations.rhs.has_shape(m, self.width())
        &&& forall|l: int, c: int|
            0 <= l < m && 0 <= c < self.width() ==> #[trigger] equations.rhs.at(l, c)
                == self.rhs_at(
                target,
                fitted,
                table,
                a,
                l,
                c,
                self.uses()[a].len() as int,
            )
    }

    /// What keeps a sweep from starting, if anything does.
    pub open spec fn sweep_fault(&self, lambda: Seq<S>, fitted: &Matrix<S>) -> Option<SweepError> {
        match self.smoothing_fault(lambda) {
            Some(fault) => Some(SweepError::Hyper(fault)),
            None => if fitted.nrows() != self.rows() || fitted.ncols() != self.width() {
                Some(
                    SweepError::Shape(
                        ShapeError {
                            found: (fitted.nrows() as usize, fitted.ncols() as usize),
                            expected: (self.rows() as usize, self.width() as usize),
                        },
                    ),
                )
            } else {
                None
            },
        }
    }

    /// Whether a decoder sweep can start.
    pub fn check_sweep(&self, lambda: &Vec<S>, fitted: &Matrix<S>) -> (r: Result<(), SweepError>)
        ensures
            match r {
                Ok(_) => self.sweep_fault(lambda@, fitted) is None,
                Err(e) => self.sweep_fault(lambda@, fitted) == Some(e),
            },
    {
        if let Err(fault) = self.validate_smoothing(lambda) {
            return Err(SweepError::Hyper(fault));
        }
        let n: usize = self.n_obs();
        let width: usize = self.output_dim();
        let found: (usize, usize) = (fitted.row_count(), fitted.col_count());
        if found.0 != n || found.1 != width {
            return Err(SweepError::Shape(ShapeError { found, expected: (n, width) }));
        }
        Ok(())
    }

    /// `images` are what atom `a`'s uses change by when its decoder becomes
    /// `decoder`: the new image less the old one.
    pub open spec fn are_image_changes(
        &self,
        table: Seq<Vec<BasisEval<S>>>,
        a: int,
        decoder: &Matrix<S>,
        images: Seq<Vec<S>>,
    ) -> bool {
        let atom = self.atom_seq()[a];
        &&& images.len() == self.uses()[a].len()
        &&& forall|e: int|
            0 <= e < images.len() ==> (#[trigger] images[e])@.len() == self.width()
        &&& forall|e: int, c: int|
            0 <= e < images.len() && 0 <= c < self.width() ==> #[trigger] images[e]@[c]
                == s_row_times(self.use_phi(table, a, e), decoder, c, atom.m() as int).s_minus(
                s_decoded(atom, self.use_phi(table, a, e), c, atom.m() as int),
            )
    }

    fn image_changes(
        &self,
        table: &Vec<Vec<BasisEval<S>>>,
        atom: usize,
        decoder: &Matrix<S>,
    ) -> (images: Vec<Vec<S>>)
        requires
            self.wf(),
            atom < self.k(),
            self.table_fits(table@),
            decoder.has_shape(self.atom_seq()[atom as int].m() as nat, self.width()),
        ensures
            self.are_image_changes(table@, atom as int, decoder, images@),
    {
        proof {
            assert(self.atom_wf(atom as int));
        }
        let template: &SaeManifoldAtom<S> = self.atom(atom);
        let width: usize = self.output_dim();
        let uses: &Vec<(usize, usize)> = self.rows_of_atom(atom);
        let ghost a = atom as int;
        let mut images: Vec<Vec<S>> = Vec::new();
        for e in 0..uses.len()
            invariant
                self.wf(),
                a == atom,
                atom < self.k(),
                self.atom_wf(a),
                *template == self.atom_seq()[a],
                self.table_fits(table@),
                decoder.has_shape(template.m() as nat, self.width()),
                uses@ == self.uses()[a],
                width == self.width(),
                images@.len() == e,
                forall|f: int| 0 <= f < e ==> (#[trigger] images@[f])@.len() == width,
                forall|f: int, c: int|
                    0 <= f < e && 0 <= c < width ==> #[trigger] images@[f]@[c] == s_row_times(
                        self.use_phi(table@, a, f),
                        decoder,
                        c,
                        template.m() as int,
                    ).s_minus(
                        s_decoded(*template, self.use_phi(table@, a, f), c, template.m() as int),
                    ),
        {
            let (row, slot): (usize, usize) = uses[e];
            proof {
                self.lemma_use(a, e as int);
                assert(self.row_fits(table@[row as int]@, row as int));
                assert(table@[row as int]@[slot as int].has_shape(
                    self.active(row as int, slot as int).m() as nat,
                    self.active(row as int, slot as int).dim() as nat,
                ));
            }
            let phi: &Vec<S> = &table[row][slot].phi;
            let new: Vec<S> = row_times(phi, decoder);
            let old: Vec<S> = decode(template, phi);
            let mut change: Vec<S> = Vec::new();
            for c in 0..width
                invariant
                    new@.len() == width,
                    old@.len() == width,
                    change@.len() == c,
                    forall|j: int|
                        0 <= j < c ==> #[trigger] change@[j] == new@[j].s_minus(old@[j]),
            {
                change.push(new[c].minus(old[c]));
            }
            images.push(change);
        }
        images
    }

    /// Adds each use's image to its row of the fit.
    fn refit(&self, atom: usize, images: &Vec<Vec<S>>, fitted: &mut Matrix<S>)
        requires
            self.wf(),
            atom < self.k(),
            images@.len() == self.uses()[atom as int].len(),
            forall|e: int|
                0 <= e < images@.len() ==> (#[trigger] images@[e])@.len() == self.width(),
            old(fitted).has_shape(self.rows(), self.width()),
        ensures
            final(fitted).has_shape(self.rows(), self.width()),
            forall|row: int, c: int|
                0 <= row < self.rows() && 0 <= c < self.width() ==> #[trigger] final(fitted).at(
                    row,
                    c,
                ) == refitted(
                    old(fitted).at(row, c),
                    self.uses()[atom as int],
                    images@,
                    row,
                    c,
                    images@.len() as int,
                ),
    {
        let uses: &Vec<(usize, usize)> = self.rows_of_atom(atom);
        let width: usize = self.output_dim();
        let ghost a = atom as int;
        let ghost start = *fitted;
        for e in 0..uses.len()
            invariant
                self.wf(),
                a == atom,
                atom < self.k(),
                uses@ == self.uses()[a],
                width == self.width(),
                images@.len() == uses@.len(),
                forall|e: int| 0 <= e < images@.len() ==> (#[trigger] images@[e])@.len() == width,
                start.has_shape(self.rows(), self.width()),
                fitted.has_shape(self.rows(), self.width()),
                forall|row: int, c: int|
                    0 <= row < self.rows() && 0 <= c < width ==> #[trigger] fitted.at(row, c)
                        == refitted(start.at(row, c), uses@, images@, row, c, e as int),
        {
            let (row, slot): (usize, usize) = uses[e];
            proof {
                self.lemma_use(a, e as int);
            }
            let image: &Vec<S> = &images[e];
            for c in 0..width
                invariant
                    row < self.rows(),
                    width == self.width(),
                    e < uses@.len(),
                    uses@[e as int] == (row, slot),
                    image@ == images@[e as int]@,
                    image@.len() == width,
                    fitted.has_shape(self.rows(), self.width()),
                    forall|q: int, j: int|
                        0 <= q < self.rows() && 0 <= j < width ==> #[trigger] fitted.at(q, j)
                            == refitted(
                            start.at(q, j),
                            uses@,
                            images@,
                            q,
                            j,
                            if q == row && j < c {
                                e + 1
                            } else {
                                e as int
                            },
                        ),
            {
                let value: S = fitted.get(row, c).plus(image[c]);
                fitted.set(row, c, value);
            }
        }
    }

    /// Installs one atom's solved decoder and brings the fit up to date. Gives
    /// the largest move of a coefficient. A decoder of another shape is refused
    /// and changes nothing.
    pub fn install_decoder(
        &mut self,
        atom: usize,
        decoder: Matrix<S>,
        table: &Vec<Vec<BasisEval<S>>>,
        fitted: &mut Matrix<S>,
    ) -> (r: Result<S, AtomError>)
        requires
            old(self).wf(),
            atom < old(self).k(),
            old(self).table_fits(table@),
            decoder.wf(),
            old(fitted).has_shape(old(self).rows(), old(self).width()),
        ensures
            final(self).wf(),
            final(self).same_but_decoders(old(self)),
            final(fitted).has_shape(old(self).rows(), old(self).width()),
            forall|a: int|
                0 <= a < old(self).k() && a != atom ==> final(self).atom_seq()[a]
                    == #[trigger] old(self).atom_seq()[a],
            match r {
                Ok(change) => {
                    &&& decoder.nrows() == old(self).atom_seq()[atom as int].m()
                    &&& decoder.ncols() == old(self).width()
                    &&& final(self).atom_seq()[atom as int].decoder() == decoder
                    &&& change == s_largest_move(
                        &decoder,
                        &old(self).atom_seq()[atom as int].decoder(),
                    )
                    &&& old(self).is_refit(
                        table@,
                        atom as int,
                        &decoder,
                        old(fitted),
                        final(fitted),
                    )
                },
                Err(e) => {
                    &&& decoder.nrows() != old(self).atom_seq()[atom as int].m() || decoder.ncols()
                        != old(self).width()
                    &&& e == (AtomError::DecoderShape {
                        rows: decoder.nrows() as usize,
                        cols: decoder.ncols() as usize,
                        basis_width: old(self).atom_seq()[atom as int].m(),
                        output_dim: old(self).width() as usize,
                    })
                    &&& *final(self) == *old(self)
                    &&& *final(fitted) == *old(fitted)
                },
            },
    {
        let m: usize = self.atom_basis_size(atom);
        let width: usize = self.output_dim();
        proof {
            assert(self.atom_wf(atom as int));
        }
        let rows: usize = decoder.row_count();
        let cols: usize = decoder.col_count();
        if rows != m || cols != width {
            return Err(
                AtomError::DecoderShape { rows, cols, basis_width: m, output_dim: width },
            );
        }
        let change: S = largest_move(&decoder, self.atom(atom).decoder_coefficients());
        let images: Vec<Vec<S>> = self.image_changes(table, atom, &decoder);
        self.refit(atom, &images, fitted);
        assert(old(self).is_refit(table@, atom as int, &decoder, old(fitted), fitted));
        let outcome = self.set_decoder_coefficients(atom, decoder);
        assert(outcome is Ok);
        Ok(change)
    }

    /// `after` is `before` with every use of atom `a` moved to the new decoder's
    /// image.
    pub open spec fn is_refit(
        &self,
        table: Seq<Vec<BasisEval<S>>>,
        a: int,
        decoder: &Matrix<S>,
        before: &Matrix<S>,
        after: &Matrix<S>,
    ) -> bool {
        exists|images: Seq<Vec<S>>|
            {
                &&& #[trigger] self.are_image_changes(table, a, decoder, images)
                &&& self.adds_images(a, images, before, after)
            }
    }

    /// `after` is `before` with the images added to their rows.
    pub open spec fn adds_images(
        &self,
        a: int,
        images: Seq<Vec<S>>,
        before: &Matrix<S>,
        after: &Matrix<S>,
    ) -> bool {
        &&& after.has_shape(before.nrows(), before.ncols())
        &&& forall|row: int, c: int|
            0 <= row < before.nrows() && 0 <= c < before.ncols() ==> #[trigger] after.at(row, c)
                == refitted(
                before.at(row, c),
                self.uses()[a],
                images,
                row,
                c,
                images.len() as int,
            )
    }

    /// Installing a decoder leaves the fit of every row alone that does not use
    /// the atom: in particular, of all rows of the other atoms of its class.
    pub proof fn law_install_touches_own_rows_only(
        &self,
        table: Seq<Vec<BasisEval<S>>>,
        a: int,
        decoder: &Matrix<S>,
        before: &Matrix<S>,
        after: &Matrix<S>,
        row: int,
        c: int,
    )
        requires
            self.wf(),
            0 <= a < self.k(),
            self.is_refit(table, a, decoder, before, after),
            0 <= row < self.rows(),
            before.has_shape(self.rows(), self.width()),
            0 <= c < self.width(),
            forall|slot: int|
                0 <= slot < self.support(row).len() ==> #[trigger] self.support(row)[slot] != a,
        ensures
            after.at(row, c) == before.at(row, c),
    {
        let images = choose|images: Seq<Vec<S>>|
            {
                &&& #[trigger] self.are_image_changes(table, a, decoder, images)
                &&& self.adds_images(a, images, before, after)
            };
        assert forall|e: int| 0 <= e < self.uses()[a].len() implies (
        #[trigger] self.uses()[a][e]).0 != row by {
            self.lemma_use(a, e);
        }
        lemma_untouched_row(
            before.at(row, c),
            self.uses()[a],
            images,
            row,
            c,
            images.len() as int,
        );
    }
}

/// `chain` goes from one fit to the next by installing `class[i]`'s decoder.
pub open spec fn is_refit_chain<S: Scalar>(
    term: &SaeSupportSparseTerm<S>,
    table: Seq<Vec<BasisEval<S>>>,
    class: Seq<usize>,
    decoders: Seq<Matrix<S>>,
    chain: Seq<Matrix<S>>,
    n: int,
) -> bool {
    &&& chain.len() == n + 1
    &&& forall|i: int|
        #![trigger chain[i + 1]]
        0 <= i < n ==> term.is_refit(
            table,
            class[i] as int,
            &decoders[i],
            &chain[i],
            &chain[i + 1],
        )
}

/// The class names distinct atoms below `k`.
pub open spec fn names_atoms(class: Seq<usize>, k: nat) -> bool {
    &&& forall|i: int| 0 <= i < class.len() ==> #[trigger] class[i] < k
    &&& forall|i: int, j: int|
        0 <= i < j < class.len() ==> #[trigger] class[i] != #[trigger] class[j]
}

/// How far each member's coefficients move.
pub open spec fn class_move<S: Scalar>(
    term: &SaeSupportSparseTerm<S>,
    class: Seq<usize>,
    decoders: Seq<Matrix<S>>,
) -> spec_fn(int) -> S {
    |i: int| s_largest_move(&decoders[i], &term.atom_seq()[class[i] as int].decoder())
}

/// One exact decoder sweep in progress: the classes still to be visited, and the
/// largest move of a coefficient so far.
#[derive(Debug)]
pub struct DecoderSweep<S> {
    pub classes: Vec<Vec<usize>>,
    pub next: usize,
    pub max_change: S,
}

impl<S: Scalar> DecoderSweep<S> {
    /// Every class names distinct atoms of the term.
    pub open spec fn wf(&self, term: &SaeSupportSparseTerm<S>) -> bool {
        &&& self.next <= self.classes@.len()
        &&& forall|c: int|
            0 <= c < self.classes@.len() ==> #[trigger] names_atoms(self.classes@[c]@, term.k())
    }

    /// Starts a sweep: nothing visited, nothing moved.
    pub fn begin(term: &SaeSupportSparseTerm<S>) -> (r: DecoderSweep<S>)
        requires
            term.wf(),
        ensures
            r.wf(term),
            r.next == 0,
            r.max_change == S::s_zero(),
            exists|colors: Seq<usize>|
                crate::coloring::are_greedy_classes(
                    term.state().supports(),
                    term.k(),
                    colors,
                    r.classes@,
                ),
    {
        let classes: Vec<Vec<usize>> = term.decoder_conflict_colors();
        proof {
            let colors = choose|colors: Seq<usize>|
                crate::coloring::are_greedy_classes(
                    term.state().supports(),
                    term.k(),
                    colors,
                    classes@,
                );
            assert(crate::coloring::are_greedy_classes(
                term.state().supports(),
                term.k(),
                colors,
                classes@,
            ));
            assert forall|c: int| 0 <= c < classes@.len() implies #[trigger] names_atoms(
                classes@[c]@,
                term.k(),
            ) by {
                crate::coloring::lemma_members(colors, c, term.k() as int);
                assert(classes@[c]@ == crate::coloring::members(colors, c, term.k() as int));
            }
        }
        DecoderSweep { classes, next: 0, max_change: S::zero() }
    }

    /// Whether every class has been visited.
    pub fn is_done(&self) -> (r: bool)
        ensures
            r == (self.next >= self.classes@.len()),
    {
        self.next >= self.classes.len()
    }

    /// The normal equations of the next class, all against the same fit.
    pub fn class_equations(
        &self,
        term: &SaeSupportSparseTerm<S>,
        target: &Matrix<S>,
        fitted: &Matrix<S>,
        table: &Vec<Vec<BasisEval<S>>>,
    ) -> (r: Vec<NormalEquations<S>>)
        requires
            term.wf(),
            self.wf(term),
            self.next < self.classes@.len(),
            term.table_fits(table@),
            target.has_shape(term.rows(), term.width()),
            fitted.has_shape(term.rows(), term.width()),
        ensures
            r@.len() == self.classes@[self.next as int]@.len(),
            forall|i: int|
                0 <= i < r@.len() ==> term.are_equations(
                    target,
                    fitted,
                    table@,
                    self.classes@[self.next as int]@[i] as int,
                    &#[trigger] r@[i],
                ),
    {
        let class: &Vec<usize> = &self.classes[self.next];
        assert(names_atoms(self.classes@[self.next as int]@, term.k()));
        let mut out: Vec<NormalEquations<S>> = Vec::new();
        for i in 0..class.len()
            invariant
                term.wf(),
                names_atoms(class@, term.k()),
                term.table_fits(table@),
                target.has_shape(term.rows(), term.width()),
                fitted.has_shape(term.rows(), term.width()),
                out@.len() == i,
                forall|j: int|
                    0 <= j < i ==> term.are_equations(
                        target,
                        fitted,
                        table@,
                        class@[j] as int,
                        &#[trigger] out@[j],
                    ),
        {
            assert(class@[i as int] < term.k());
            out.push(term.atom_equations(target, fitted, table, class[i]));
        }
        out
    }

    /// Installs the solutions of the next class and moves on.
    pub fn install_class(
        &mut self,
        term: &mut SaeSupportSparseTerm<S>,
        decoders: Vec<Matrix<S>>,
        table: &Vec<Vec<BasisEval<S>>>,
        fitted: &mut Matrix<S>,
    )
        requires
            old(term).wf(),
            old(self).wf(old(term)),
            old(self).next < old(self).classes@.len(),
            old(term).table_fits(table@),
            old(fitted).has_shape(old(term).rows(), old(term).width()),
            decoders@.len() == old(self).classes@[old(self).next as int]@.len(),
            forall|i: int|
                0 <= i < decoders@.len() ==> (#[trigger] decoders@[i]).has_shape(
                    old(term).atom_seq()[old(self).classes@[old(self).next as int]@[i] as int].m() as nat,
                    old(term).width(),
                ),
        ensures
            final(term).wf(),
            final(term).same_but_decoders(old(term)),
            final(self).wf(final(term)),
            final(self).classes == old(self).classes,
            final(self).next == old(self).next + 1,
            forall|i: int|
                0 <= i < decoders@.len() ==> final(term).atom_seq()[old(self).classes@[old(self).next as int]@[i] as int].decoder()
                    == #[trigger] decoders@[i],
            forall|a: int|
                0 <= a < old(term).k() && !old(self).classes@[old(self).next as int]@.contains(a as usize)
                    ==> final(term).atom_seq()[a] == #[trigger] old(term).atom_seq()[a],
            final(self).max_change == s_max(
                old(self).max_change,
                decoders@.len() as int,
                class_move(old(term), old(self).classes@[old(self).next as int]@, decoders@),
            ),
            exists|chain: Seq<Matrix<S>>|
                {
                    &&& #[trigger] is_refit_chain(
                        old(term),
                        table@,
                        old(self).classes@[old(self).next as int]@,
                        decoders@,
                        chain,
                        decoders@.len() as int,
                    )
                    &&& chain[0] == *old(fitted)
                    &&& chain[decoders@.len() as int] == *final(fitted)
                },
    {
        let ghost start = *term;
        let ghost class = self.classes@[self.next as int]@;
        let ghost first = *fitted;
        let ghost change0 = self.max_change;
        assert(names_atoms(class, term.k()));
        let n: usize = decoders.len();
        let mut rest: Vec<Matrix<S>> = decoders;
        assert(rest@ =~= decoders@.skip(0));
        let ghost mut chain: Seq<Matrix<S>> = seq![*fitted];
        let mut change: S = self.max_change;
        let ghost f = class_move(&start, class, decoders@);
        let mut i: usize = 0;
        while i < n
            invariant
                i <= n,
                n == decoders@.len(),
                rest@ == decoders@.skip(i as int),
                n == class.len(),
                self.next < self.classes@.len(),
                class == self.classes@[self.next as int]@,
                self.classes == old(self).classes,
                self.next == old(self).next,
                names_atoms(class, start.k()),
                start.wf(),
                term.wf(),
                term.same_but_decoders(&start),
                start.table_fits(table@),
                term.table_fits(table@),
                fitted.has_shape(start.rows(), start.width()),
                forall|j: int|
                    0 <= j < n ==> (#[trigger] decoders@[j]).has_shape(
                        start.atom_seq()[class[j] as int].m() as nat,
                        start.width(),
                    ),
                forall|j: int|
                    0 <= j < i ==> term.atom_seq()[class[j] as int].decoder()
                        == #[trigger] decoders@[j],
                forall|a: int|
                    0 <= a < start.k() && (forall|j: int|
                        0 <= j < i ==> #[trigger] class[j] != a) ==> term.atom_seq()[a]
                        == #[trigger] start.atom_seq()[a],
                f == class_move(&start, class, decoders@),
                change == s_max(change0, i as int, f),
                is_refit_chain(&start, table@, class, decoders@, chain, i as int),
                chain[0] == first,
                chain[i as int] == *fitted,
            decreases n - i,
        {
            let atom: usize = self.classes[self.next][i];
            assert(atom == class[i as int]);
            assert(class[i as int] < start.k());
            assert(forall|j: int| 0 <= j < i ==> #[trigger] class[j] != atom);
            assert(term.atom_seq()[atom as int] == start.atom_seq()[atom as int]);
            let ghost before = *fitted;
            let ghost middle = *term;
            assert(rest@[0] == decoders@[i as int]);
            let decoder: Matrix<S> = rest.remove(0);
            assert(rest@ =~= decoders@.skip(i + 1));
            match term.install_decoder(atom, decoder, table, fitted) {
                Ok(moved) => {
                    change = change.larger(moved);
                },
                Err(_) => {
                    assert(false);
                },
            }
            proof {
                let images = choose|images: Seq<Vec<S>>|
                    {
                        &&& #[trigger] middle.are_image_changes(
                            table@,
                            atom as int,
                            &decoder,
                            images,
                        )
                        &&& middle.adds_images(atom as int, images, &before, fitted)
                    };
                assert(start.are_image_changes(table@, atom as int, &decoder, images));
                assert(start.adds_images(atom as int, images, &before, fitted));
                assert(start.is_refit(table@, atom as int, &decoder, &before, fitted));
                chain = chain.push(*fitted);
                term.lemma_fits_any_decoder(&start, table@);
            }
            i = i + 1;
        }
        self.max_change = change;
        assert(self.classes.len() == self.classes@.len());
        self.next = self.next + 1;
        proof {
            assert forall|a: int| 0 <= a < start.k() && !class.contains(a as usize) implies
                term.atom_seq()[a] == #[trigger] start.atom_seq()[a] by {
                assert forall|j: int| 0 <= j < n implies #[trigger] class[j] != a by {
                    assert(class.contains(class[j]));
                }
            }
        }
    }
}

impl<S: Scalar> SaeSupportSparseTerm<S> {
    /// Members of one class commute: installing atom `b`'s decoder changes no
    /// entry of the normal equations of an atom `a` that shares no row with it.
    /// Solving a class together is the same as solving it one by one.
    pub proof fn law_class_members_commute(
        &self,
        target: &Matrix<S>,
        table: Seq<Vec<BasisEval<S>>>,
        a: int,
        b: int,
        decoder: &Matrix<S>,
        before: &Matrix<S>,
        after: &Matrix<S>,
        l: int,
        c: int,
    )
        requires
            self.wf(),
            0 <= a < self.k(),
            0 <= b < self.k(),
            !crate::coloring::conflict(self.state().supports(), a, b),
            before.has_shape(self.rows(), self.width()),
            self.is_refit(table, b, decoder, before, after),
            0 <= c < self.width(),
        ensures
            self.rhs_at(target, after, table, a, l, c, self.uses()[a].len() as int)
                == self.rhs_at(target, before, table, a, l, c, self.uses()[a].len() as int),
    {
        let supports = self.state().supports();
        let n = self.uses()[a].len() as int;
        let f = |e: int|
            self.use_phi(table, a, e)[l].s_times(self.unexplained(target, after, table, a, e, c));
        let g = |e: int|
            self.use_phi(table, a, e)[l].s_times(self.unexplained(target, before, table, a, e, c));
        assert forall|e: int| 0 <= e < n implies #[trigger] f(e) == g(e) by {
            self.lemma_use(a, e);
            let row = self.uses()[a][e].0 as int;
            let slot = self.uses()[a][e].1 as int;
            assert forall|t: int| 0 <= t < self.support(row).len() implies
                #[trigger] self.support(row)[t] != b by {
                if supports[row][t] == b {
                    assert(supports[row][slot] == a && supports[row][t] == b);
                    assert(crate::coloring::conflict(supports, a, b));
                }
            }
            self.law_install_touches_own_rows_only(table, b, decoder, before, after, row, c);
        }
        lemma_sum_ext(S::s_zero(), n, f, g);
    }

    /// How many atoms a row couples at most: the size of the support, counted as
    /// at least one. It bounds the coupling of every row.
    pub open spec fn s_coupling(&self) -> S {
        S::s_count(at_least_one(self.state().mode_spec()->k as nat))
    }

    /// Entry `(l, c)` of atom `a`'s negative gradient: its basis against the
    /// residual, less its roughness.
    pub open spec fn descent_at(
        &self,
        residual: &Matrix<S>,
        lambda: Seq<S>,
        table: Seq<Vec<BasisEval<S>>>,
        a: int,
        l: int,
        c: int,
    ) -> S {
        let atom = self.atom_seq()[a];
        self.residual_at(residual, table, a, l, c, self.uses()[a].len() as int).s_minus(
            s_product_at(&atom.penalty(), &atom.decoder(), l, c, atom.m() as int).s_times(
                lambda[a],
            ),
        )
    }

    /// Its basis against the residual, over the first `n` uses.
    pub open spec fn residual_at(
        &self,
        residual: &Matrix<S>,
        table: Seq<Vec<BasisEval<S>>>,
        a: int,
        l: int,
        c: int,
        n: int,
    ) -> S {
        s_sum(
            S::s_zero(),
            n,
            |e: int|
                self.use_phi(table, a, e)[l].s_times(residual.at(self.uses()[a][e].0 as int, c)),
        )
    }

    /// `equations` give atom `a`'s step against the majoriser `s G + lambda S`.
    pub open spec fn are_majorized_equations(
        &self,
        residual: &Matrix<S>,
        lambda: Seq<S>,
        table: Seq<Vec<BasisEval<S>>>,
        a: int,
        equations: &NormalEquations<S>,
    ) -> bool {
        let m = self.atom_seq()[a].m() as nat;
        &&& equations.gram.has_shape(m, m)
        &&& forall|l: int, r: int|
            0 <= l < m && 0 <= r < m ==> #[trigger] equations.gram.at(l, r) == self.gram_at(
                table,
                a,
                l,
                r,
                self.uses()[a].len() as int,
            ).s_times(self.s_coupling())
        &&& equations.rhs.has_shape(m, self.width())
        &&& forall|l: int, c: int|
            0 <= l < m && 0 <= c < self.width() ==> #[trigger] equations.rhs.at(l, c)
                == self.descent_at(residual, lambda, table, a, l, c)
    }

    /// The equations of one atom's step in an accelerated pass.
    pub fn majorized_equations(
        &self,
        residual: &Matrix<S>,
        lambda: &Vec<S>,
        table: &Vec<Vec<BasisEval<S>>>,
        atom: usize,
    ) -> (r: NormalEquations<S>)
        requires
            self.wf(),
            atom < self.k(),
            lambda@.len() == self.k(),
            self.table_fits(table@),
            residual.has_shape(self.rows(), self.width()),
        ensures
            self.are_majorized_equations(residual, lambda@, table@, atom as int, &r),
    {
        proof {
            assert(self.atom_wf(atom as int));
            self.atom_seq()[atom as int].decoder().lemma_size();
        }
        let template: &SaeManifoldAtom<S> = self.atom(atom);
        let m: usize = template.basis_size();
        let width: usize = self.output_dim();
        let weight: S = lambda[atom];
        let coupling: S = match self.assignment().mode() {
            AssignmentMode::TopK { k } => count_at_least_one::<S>(k),
            // A term's supports are hard.
            _ => S::one(),
        };
        let plain: Matrix<S> = self.atom_gram(table, atom);
        let mut gram: Matrix<S> = plain.copy();
        for l in 0..m
            invariant
                plain.has_shape(m as nat, m as nat),
                gram.has_shape(m as nat, m as nat),
                forall|i: int, j: int|
                    0 <= i < l && 0 <= j < m ==> #[trigger] gram.at(i, j) == plain.at(
                        i,
                        j,
                    ).s_times(coupling),
        {
            for r in 0..m
                invariant
                    l < m,
                    plain.has_shape(m as nat, m as nat),
                    gram.has_shape(m as nat, m as nat),
                    forall|i: int, j: int|
                        0 <= i < m && 0 <= j < m && (i < l || (i == l && j < r))
                            ==> #[trigger] gram.at(i, j) == plain.at(i, j).s_times(coupling),
            {
                gram.set(l, r, plain.get(l, r).times(coupling));
            }
        }
        let uses: &Vec<(usize, usize)> = self.rows_of_atom(atom);
        let ghost a = atom as int;
        let mut rhs: Matrix<S> = Matrix::constant(m, width, S::zero());
        for e in 0..uses.len()
            invariant
                self.wf(),
                a == atom,
                atom < self.k(),
                self.table_fits(table@),
                residual.has_shape(self.rows(), self.width()),
                uses@ == self.uses()[a],
                m == self.atom_seq()[a].m(),
                width == self.width(),
                rhs.has_shape(m as nat, width as nat),
                forall|i: int, j: int|
                    0 <= i < m && 0 <= j < width ==> #[trigger] rhs.at(i, j) == self.residual_at(
                        residual,
                        table@,
                        a,
                        i,
                        j,
                        e as int,
                    ),
        {
            let (row, slot): (usize, usize) = uses[e];
            proof {
                self.lemma_use(a, e as int);
                assert(self.row_fits(table@[row as int]@, row as int));
                assert(table@[row as int]@[slot as int].has_shape(
                    self.active(row as int, slot as int).m() as nat,
                    self.active(row as int, slot as int).dim() as nat,
                ));
            }
            let phi: &Vec<S> = &table[row][slot].phi;
            for l in 0..m
                invariant
                    row < self.rows(),
                    width == self.width(),
                    uses@ == self.uses()[a],
                    e < uses@.len(),
                    uses@[e as int] == (row, slot),
                    phi@ == self.use_phi(table@, a, e as int),
                    phi@.len() == m,
                    residual.has_shape(self.rows(), self.width()),
                    rhs.has_shape(m as nat, width as nat),
                    forall|i: int, j: int|
                        0 <= i < m && 0 <= j < width ==> #[trigger] rhs.at(i, j)
                            == self.residual_at(
                            residual,
                            table@,
                            a,
                            i,
                            j,
                            if i < l {
                                e + 1
                            } else {
                                e as int
                            },
                        ),
            {
                for c in 0..width
                    invariant
                        l < m,
                        row < self.rows(),
                        width == self.width(),
                        uses@ == self.uses()[a],
                        e < uses@.len(),
                        uses@[e as int] == (row, slot),
                        phi@ == self.use_phi(table@, a, e as int),
                        phi@.len() == m,
                        residual.has_shape(self.rows(), self.width()),
                        rhs.has_shape(m as nat, width as nat),
                        forall|i: int, j: int|
                            0 <= i < m && 0 <= j < width ==> #[trigger] rhs.at(i, j)
                                == self.residual_at(
                                residual,
                                table@,
                                a,
                                i,
                                j,
                                if i < l || (i == l && j < c) {
                                    e + 1
                                } else {
                                    e as int
                                },
                            ),
                {
                    let value: S = rhs.get(l, c).plus(phi[l].times(residual.get(row, c)));
                    rhs.set(l, c, value);
                }
            }
        }
        let sb: Matrix<S> = product(template.smooth_penalty(), template.decoder_coefficients());
        let ghost data = rhs;
        for l in 0..m
            invariant
                rhs.has_shape(m as nat, width as nat),
                data.has_shape(m as nat, width as nat),
                sb.has_shape(m as nat, width as nat),
                forall|i: int, j: int|
                    0 <= i < m && 0 <= j < width ==> #[trigger] rhs.at(i, j) == (if i < l {
                        data.at(i, j).s_minus(sb.at(i, j).s_times(weight))
                    } else {
                        data.at(i, j)
                    }),
        {
            for c in 0..width
                invariant
                    l < m,
                    rhs.has_shape(m as nat, width as nat),
                    data.has_shape(m as nat, width as nat),
                    sb.has_shape(m as nat, width as nat),
                    forall|i: int, j: int|
                        0 <= i < m && 0 <= j < width ==> #[trigger] rhs.at(i, j) == (if i < l || (i
                            == l && j < c) {
                            data.at(i, j).s_minus(sb.at(i, j).s_times(weight))
                        } else {
                            data.at(i, j)
                        }),
            {
                let value: S = rhs.get(l, c).minus(sb.get(l, c).times(weight));
                rhs.set(l, c, value);
            }
        }
        NormalEquations { gram, rhs }
    }
}

/// An accelerated decoder update in progress.
#[derive(Debug)]
pub struct FistaState<S> {
    /// The iterates before extrapolation.
    pub previous: Vec<Matrix<S>>,
    pub momentum: S,
    /// The largest step of a coefficient in any pass.
    pub max_change: S,
    pub pass_index: usize,
    /// The largest step of a coefficient in the last pass.
    pub previous_pass_change: S,
}

/// The next momentum: `(1 + sqrt(1 + 4 t^2)) / 2`.
pub open spec fn s_next_momentum<S: Scalar>(t: S) -> S {
    s_half::<S>().s_times(
        S::s_one().s_plus(S::s_one().s_plus(S::s_count(4).s_times(t).s_times(t)).s_root()),
    )
}

/// The weight of the extrapolation: `(t - 1) / next_t`.
pub open spec fn s_extrapolation<S: Scalar>(t: S) -> S {
    t.s_minus(S::s_one()).s_over(s_next_momentum(t))
}

/// Whether the passes stop: after at least `passes` of them, and once a pass
/// moves nothing or no less than the one before.
pub open spec fn s_passes_stop<S: Scalar>(
    pass_index: nat,
    passes: nat,
    pass_change: S,
    previous: S,
) -> bool {
    pass_index >= passes && (!S::s_zero().s_below(pass_change) || previous.s_at_most(pass_change))
}

/// Entry `(b, c)` of the next iterate of an atom: its decoder plus the step.
pub open spec fn s_stepped<S: Scalar>(decoder: &Matrix<S>, delta: &Matrix<S>, b: int, c: int) -> S {
    decoder.at(b, c).s_plus(delta.at(b, c))
}

/// Entry `(b, c)` of the extrapolated iterate.
pub open spec fn s_extrapolated<S: Scalar>(
    decoder: &Matrix<S>,
    delta: &Matrix<S>,
    previous: &Matrix<S>,
    beta: S,
    b: int,
    c: int,
) -> S {
    let new = s_stepped(decoder, delta, b, c);
    new.s_plus(new.s_minus(previous.at(b, c)).s_times(beta))
}

/// The largest step in the first `n` atoms' updates, on top of `start`.
pub open spec fn s_pass_change<S: Scalar>(start: S, deltas: Seq<Matrix<S>>, n: int) -> S
    decreases n,
{
    if n <= 0 {
        start
    } else {
        let delta = deltas[n - 1];
        s_grid_max(
            s_pass_change(start, deltas, n - 1),
            delta.nrows() as int,
            delta.ncols() as int,
            |b: int, c: int| delta.at(b, c).s_magnitude(),
        )
    }
}

fn grow_max<S: Scalar>(start: S, m: &Matrix<S>) -> (r: S)
    requires
        m.wf(),
    ensures
        r == s_grid_max(
            start,
            m.nrows() as int,
            m.ncols() as int,
            |b: int, c: int| m.at(b, c).s_magnitude(),
        ),
{
    let rows: usize = m.row_count();
    let cols: usize = m.col_count();
    let ghost f = |b: int, c: int| m.at(b, c).s_magnitude();
    let mut acc: S = start;
    for b in 0..rows
        invariant
            m.has_shape(rows as nat, cols as nat),
            f == (|b: int, c: int| m.at(b, c).s_magnitude()),
            acc == s_grid_max(start, b as int, cols as int, f),
    {
        for c in 0..cols
            invariant
                b < rows,
                m.has_shape(rows as nat, cols as nat),
                f == (|b: int, c: int| m.at(b, c).s_magnitude()),
                acc == s_line_max(
                    s_grid_max(start, b as int, cols as int, f),
                    b as int,
                    c as int,
                    f,
                ),
        {
            acc = acc.larger(m.get(b, c).magnitude());
        }
    }
    acc
}

impl<S: Scalar> FistaState<S> {
    /// One iterate per atom, of the atom's shape.
    pub open spec fn wf(&self, term: &SaeSupportSparseTerm<S>) -> bool {
        &&& self.previous@.len() == term.k()
        &&& forall|a: int|
            0 <= a < term.k() ==> (#[trigger] self.previous@[a]).has_shape(
                term.atom_seq()[a].m() as nat,
                term.width(),
            )
    }

    /// Starts from the current decoders, at rest.
    pub fn begin(term: &SaeSupportSparseTerm<S>) -> (r: FistaState<S>)
        requires
            term.wf(),
        ensures
            r.wf(term),
            forall|a: int|
                0 <= a < term.k() ==> (#[trigger] r.previous@[a]).same_as(
                    &term.atom_seq()[a].decoder(),
                ),
            r.momentum == S::s_one(),
            r.max_change == S::s_zero(),
            r.pass_index == 0,
            r.previous_pass_change == S::s_infinity(),
    {
        let k_atoms: usize = term.k_atoms();
        let mut previous: Vec<Matrix<S>> = Vec::new();
        for a in 0..k_atoms
            invariant
                term.wf(),
                k_atoms == term.k(),
                previous@.len() == a,
                forall|b: int|
                    0 <= b < a ==> (#[trigger] previous@[b]).has_shape(
                        term.atom_seq()[b].m() as nat,
                        term.width(),
                    ) && previous@[b].same_as(&term.atom_seq()[b].decoder()),
        {
            assert(term.atom_wf(a as int));
            previous.push(term.atom(a).decoder_coefficients().copy());
        }
        FistaState {
            previous,
            momentum: S::one(),
            max_change: S::zero(),
            pass_index: 0,
            previous_pass_change: S::infinity(),
        }
    }
}

/// The images that a step of atom `a`'s decoder adds at its uses.
pub open spec fn are_step_images<S: Scalar>(
    term: &SaeSupportSparseTerm<S>,
    table: Seq<Vec<BasisEval<S>>>,
    a: int,
    step: &Matrix<S>,
    images: Seq<Vec<S>>,
) -> bool {
    &&& images.len() == term.uses()[a].len()
    &&& forall|e: int| 0 <= e < images.len() ==> (#[trigger] images[e])@.len() == term.width()
    &&& forall|e: int, c: int|
        0 <= e < images.len() && 0 <= c < term.width() ==> #[trigger] images[e]@[c] == s_row_times(
            term.use_phi(table, a, e),
            step,
            c,
            term.atom_seq()[a].m() as int,
        )
}

/// The step of atom `a`'s decoder in a pass.
pub open spec fn is_pass_step<S: Scalar>(
    decoder: &Matrix<S>,
    delta: &Matrix<S>,
    previous: &Matrix<S>,
    beta: S,
    step: &Matrix<S>,
) -> bool {
    &&& step.has_shape(decoder.nrows(), decoder.ncols())
    &&& forall|b: int, c: int|
        0 <= b < step.nrows() && 0 <= c < step.ncols() ==> #[trigger] step.at(b, c)
            == s_extrapolated(decoder, delta, previous, beta, b, c).s_minus(decoder.at(b, c))
}

/// `after` is `before` moved by atom `a`'s step in a pass.
pub open spec fn is_pass_refit<S: Scalar>(
    term: &SaeSupportSparseTerm<S>,
    state: &FistaState<S>,
    deltas: Seq<Matrix<S>>,
    table: Seq<Vec<BasisEval<S>>>,
    a: int,
    before: &Matrix<S>,
    after: &Matrix<S>,
) -> bool {
    exists|step: Matrix<S>, images: Seq<Vec<S>>|
        {
            &&& is_pass_step(
                &term.atom_seq()[a].decoder(),
                &deltas[a],
                &state.previous@[a],
                s_extrapolation(state.momentum),
                &step,
            )
            &&& #[trigger] are_step_images(term, table, a, &step, images)
            &&& term.adds_images(a, images, before, after)
        }
}

/// `chain` goes from one fit to the next, atom by atom.
pub open spec fn is_pass_chain<S: Scalar>(
    term: &SaeSupportSparseTerm<S>,
    state: &FistaState<S>,
    deltas: Seq<Matrix<S>>,
    table: Seq<Vec<BasisEval<S>>>,
    chain: Seq<Matrix<S>>,
    n: int,
) -> bool {
    &&& chain.len() == n + 1
    &&& forall|a: int|
        #![trigger chain[a + 1]]
        0 <= a < n ==> is_pass_refit(term, state, deltas, table, a, &chain[a], &chain[a + 1])
}

impl<S: Scalar> SaeSupportSparseTerm<S> {
    fn step_images(
        &self,
        table: &Vec<Vec<BasisEval<S>>>,
        atom: usize,
        step: &Matrix<S>,
    ) -> (images: Vec<Vec<S>>)
        requires
            self.wf(),
            atom < self.k(),
            self.table_fits(table@),
            step.has_shape(self.atom_seq()[atom as int].m() as nat, self.width()),
        ensures
            are_step_images(self, table@, atom as int, step, images@),
    {
        let uses: &Vec<(usize, usize)> = self.rows_of_atom(atom);
        let ghost a = atom as int;
        let mut images: Vec<Vec<S>> = Vec::new();
        for e in 0..uses.len()
            invariant
                self.wf(),
                a == atom,
                atom < self.k(),
                self.table_fits(table@),
                step.has_shape(self.atom_seq()[a].m() as nat, self.width()),
                uses@ == self.uses()[a],
                images@.len() == e,
                forall|f: int| 0 <= f < e ==> (#[trigger] images@[f])@.len() == self.width(),
                forall|f: int, c: int|
                    0 <= f < e && 0 <= c < self.width() ==> #[trigger] images@[f]@[c]
                        == s_row_times(
                        self.use_phi(table@, a, f),
                        step,
                        c,
                        self.atom_seq()[a].m() as int,
                    ),
        {
            let (row, slot): (usize, usize) = uses[e];
            proof {
                self.lemma_use(a, e as int);
                assert(self.row_fits(table@[row as int]@, row as int));
                assert(table@[row as int]@[slot as int].has_shape(
                    self.active(row as int, slot as int).m() as nat,
                    self.active(row as int, slot as int).dim() as nat,
                ));
            }
            images.push(row_times(&table[row][slot].phi, step));
        }
        images
    }

    /// One accelerated pass: every atom takes its solved step, the iterates are
    /// extrapolated and installed, and the fit follows. Says whether the passes
    /// stop here.
    pub fn fista_pass(
        &mut self,
        state: &mut FistaState<S>,
        deltas: &Vec<Matrix<S>>,
        table: &Vec<Vec<BasisEval<S>>>,
        fitted: &mut Matrix<S>,
        passes: usize,
    ) -> (stop: bool)
        requires
            old(self).wf(),
            old(state).wf(old(self)),
            old(state).pass_index < usize::MAX,
            old(self).table_fits(table@),
            old(fitted).has_shape(old(self).rows(), old(self).width()),
            deltas@.len() == old(self).k(),
            forall|a: int|
                0 <= a < deltas@.len() ==> (#[trigger] deltas@[a]).has_shape(
                    old(self).atom_seq()[a].m() as nat,
                    old(self).width(),
                ),
        ensures
            final(self).wf(),
            final(self).same_but_decoders(old(self)),
            final(state).wf(final(self)),
            forall|a: int, b: int, c: int|
                0 <= a < old(self).k() && 0 <= b < old(self).atom_seq()[a].m() && 0 <= c < old(self).width()
                    ==> #[trigger] final(self).atom_seq()[a].decoder().at(b, c) == s_extrapolated(
                    &old(self).atom_seq()[a].decoder(),
                    &deltas@[a],
                    &old(state).previous@[a],
                    s_extrapolation(old(state).momentum),
                    b,
                    c,
                ),
            forall|a: int, b: int, c: int|
                0 <= a < old(self).k() && 0 <= b < old(self).atom_seq()[a].m() && 0 <= c < old(self).width()
                    ==> #[trigger] final(state).previous@[a].at(b, c) == s_stepped(
                    &old(self).atom_seq()[a].decoder(),
                    &deltas@[a],
                    b,
                    c,
                ),
            final(state).momentum == s_next_momentum(old(state).momentum),
            final(state).max_change == s_pass_change(
                old(state).max_change,
                deltas@,
                deltas@.len() as int,
            ),
            final(state).pass_index == old(state).pass_index + 1,
            final(state).previous_pass_change == s_pass_change(
                S::s_zero(),
                deltas@,
                deltas@.len() as int,
            ),
            stop == s_passes_stop(
                final(state).pass_index as nat,
                passes as nat,
                final(state).previous_pass_change,
                old(state).previous_pass_change,
            ),
            exists|chain: Seq<Matrix<S>>|
                {
                    &&& #[trigger] is_pass_chain(
                        old(self),
                        old(state),
                        deltas@,
                        table@,
                        chain,
                        old(self).k() as int,
                    )
                    &&& chain[0] == *old(fitted)
                    &&& chain[old(self).k() as int] == *final(fitted)
                },
    {
        let ghost start = *self;
        let ghost state0 = *state;
        let ghost first = *fitted;
        let t: S = state.momentum;
        let next_t: S = half::<S>().times(
            S::one().plus(S::one().plus(S::count(4).times(t).times(t)).root()),
        );
        let beta: S = t.minus(S::one()).over(next_t);
        let k_atoms: usize = self.k_atoms();
        let mut pass_change: S = S::zero();
        let mut max_change: S = state.max_change;
        let ghost mut chain: Seq<Matrix<S>> = seq![*fitted];
        let mut atom: usize = 0;
        while atom < k_atoms
            invariant
                atom <= k_atoms,
                k_atoms == start.k(),
                start.wf(),
                self.wf(),
                self.same_but_decoders(&start),
                start.table_fits(table@),
                self.table_fits(table@),
                state0.wf(&start),
                state.wf(&start),
                state.pass_index == state0.pass_index,
                state.previous_pass_change == state0.previous_pass_change,
                fitted.has_shape(start.rows(), start.width()),
                beta == s_extrapolation(state0.momentum),
                deltas@.len() == start.k(),
                forall|a: int|
                    0 <= a < deltas@.len() ==> (#[trigger] deltas@[a]).has_shape(
                        start.atom_seq()[a].m() as nat,
                        start.width(),
                    ),
                forall|a: int|
                    atom <= a < start.k() ==> self.atom_seq()[a] == #[trigger] start.atom_seq()[a],
                forall|a: int|
                    atom <= a < start.k() ==> state.previous@[a] == #[trigger] state0.previous@[a],
                forall|a: int, b: int, c: int|
                    0 <= a < atom && 0 <= b < start.atom_seq()[a].m() && 0 <= c < start.width()
                        ==> #[trigger] self.atom_seq()[a].decoder().at(b, c) == s_extrapolated(
                        &start.atom_seq()[a].decoder(),
                        &deltas@[a],
                        &state0.previous@[a],
                        beta,
                        b,
                        c,
                    ),
                forall|a: int, b: int, c: int|
                    0 <= a < atom && 0 <= b < start.atom_seq()[a].m() && 0 <= c < start.width()
                        ==> #[trigger] state.previous@[a].at(b, c) == s_stepped(
                        &start.atom_seq()[a].decoder(),
                        &deltas@[a],
                        b,
                        c,
                    ),
                pass_change == s_pass_change(S::s_zero(), deltas@, atom as int),
                max_change == s_pass_change(state0.max_change, deltas@, atom as int),
                is_pass_chain(&start, &state0, deltas@, table@, chain, atom as int),
                chain[0] == first,
                chain[atom as int] == *fitted,
            decreases k_atoms - atom,
        {
            proof {
                assert(start.atom_wf(atom as int));
                assert(self.atom_wf(atom as int));
                assert(self.atom_seq()[atom as int] == start.atom_seq()[atom as int]);
                assert(state.previous@[atom as int] == state0.previous@[atom as int]);
                assert(state0.previous@[atom as int].has_shape(
                    start.atom_seq()[atom as int].m() as nat,
                    start.width(),
                ));
            }
            let ghost middle = *self;
            let ghost before = *fitted;
            let delta: &Matrix<S> = &deltas[atom];
            assert(delta.has_shape(start.atom_seq()[atom as int].m() as nat, start.width()));
            pass_change = grow_max(pass_change, delta);
            max_change = grow_max(max_change, delta);
            let decoder: &Matrix<S> = self.atom(atom).decoder_coefficients();
            let (new, extrapolated, step) = extrapolate(
                decoder,
                delta,
                &state.previous[atom],
                beta,
            );
            let images: Vec<Vec<S>> = self.step_images(table, atom, &step);
            self.refit(atom, &images, fitted);
            proof {
                assert(are_step_images(&start, table@, atom as int, &step, images@));
                assert(start.adds_images(atom as int, images@, &before, fitted));
                assert(is_pass_refit(
                    &start,
                    &state0,
                    deltas@,
                    table@,
                    atom as int,
                    &before,
                    fitted,
                ));
            }
            let ghost installed = extrapolated;
            let outcome = self.set_decoder_coefficients(atom, extrapolated);
            assert(outcome is Ok);
            state.previous.set(atom, new);
            proof {
                chain = chain.push(*fitted);
                self.lemma_fits_any_decoder(&start, table@);
                assert forall|a: int, b: int, c: int|
                    0 <= a < atom + 1 && 0 <= b < start.atom_seq()[a].m() && 0 <= c
                        < start.width() implies #[trigger] self.atom_seq()[a].decoder().at(b, c)
                    == s_extrapolated(
                    &start.atom_seq()[a].decoder(),
                    &deltas@[a],
                    &state0.previous@[a],
                    beta,
                    b,
                    c,
                ) by {
                    if a < atom {
                        assert(self.atom_seq()[a] == middle.atom_seq()[a]);
                        assert(middle.atom_seq()[a].decoder().at(b, c) == s_extrapolated(
                            &start.atom_seq()[a].decoder(),
                            &deltas@[a],
                            &state0.previous@[a],
                            beta,
                            b,
                            c,
                        ));
                    } else {
                        assert(self.atom_seq()[a].decoder() == installed);
                        assert(installed.at(b, c) == s_extrapolated(
                            &start.atom_seq()[a].decoder(),
                            &deltas@[a],
                            &state0.previous@[a],
                            beta,
                            b,
                            c,
                        ));
                    }
                }
            }
            atom = atom + 1;
        }
        state.momentum = next_t;
        state.max_change = max_change;
        state.pass_index = state.pass_index + 1;
        let previous: S = state.previous_pass_change;
        state.previous_pass_change = pass_change;
        proof {
            assert forall|a: int| 0 <= a < self.k() implies (#[trigger] state.previous@[a]).has_shape(
                self.atom_seq()[a].m() as nat,
                self.width(),
            ) by {
                assert(self.atom_seq()[a].same_chart(&start.atom_seq()[a]));
            }
        }
        state.pass_index >= passes && (!S::zero().below(pass_change) || previous.at_most(
            pass_change,
        ))
    }
}

/// The next iterate, its extrapolation, and the step from the decoder to it.
fn extrapolate<S: Scalar>(
    decoder: &Matrix<S>,
    delta: &Matrix<S>,
    previous: &Matrix<S>,
    beta: S,
) -> (r: (Matrix<S>, Matrix<S>, Matrix<S>))
    requires
        decoder.wf(),
        delta.has_shape(decoder.nrows(), decoder.ncols()),
        previous.has_shape(decoder.nrows(), decoder.ncols()),
    ensures
        r.0.has_shape(decoder.nrows(), decoder.ncols()),
        r.1.has_shape(decoder.nrows(), decoder.ncols()),
        forall|b: int, c: int|
            0 <= b < decoder.nrows() && 0 <= c < decoder.ncols() ==> #[trigger] r.0.at(b, c)
                == s_stepped(decoder, delta, b, c),
        forall|b: int, c: int|
            0 <= b < decoder.nrows() && 0 <= c < decoder.ncols() ==> #[trigger] r.1.at(b, c)
                == s_extrapolated(decoder, delta, previous, beta, b, c),
        is_pass_step(decoder, delta, previous, beta, &r.2),
{
    let rows: usize = decoder.row_count();
    let cols: usize = decoder.col_count();
    let mut new: Matrix<S> = decoder.copy();
    let mut far: Matrix<S> = decoder.copy();
    let mut step: Matrix<S> = decoder.copy();
    for b in 0..rows
        invariant
            decoder.has_shape(rows as nat, cols as nat),
            delta.has_shape(rows as nat, cols as nat),
            previous.has_shape(rows as nat, cols as nat),
            new.has_shape(rows as nat, cols as nat),
            far.has_shape(rows as nat, cols as nat),
            step.has_shape(rows as nat, cols as nat),
            forall|i: int, j: int|
                0 <= i < b && 0 <= j < cols ==> #[trigger] new.at(i, j) == s_stepped(
                    decoder,
                    delta,
                    i,
                    j,
                ),
            forall|i: int, j: int|
                0 <= i < b && 0 <= j < cols ==> #[trigger] far.at(i, j) == s_extrapolated(
                    decoder,
                    delta,
                    previous,
                    beta,
                    i,
                    j,
                ),
            forall|i: int, j: int|
                0 <= i < b && 0 <= j < cols ==> #[trigger] step.at(i, j) == s_extrapolated(
                    decoder,
                    delta,
                    previous,
                    beta,
                    i,
                    j,
                ).s_minus(decoder.at(i, j)),
    {
        for c in 0..cols
            invariant
                b < rows,
                decoder.has_shape(rows as nat, cols as nat),
                delta.has_shape(rows as nat, cols as nat),
                previous.has_shape(rows as nat, cols as nat),
                new.has_shape(rows as nat, cols as nat),
                far.has_shape(rows as nat, cols as nat),
                step.has_shape(rows as nat, cols as nat),
                forall|i: int, j: int|
                    0 <= i < rows && 0 <= j < cols && (i < b || (i == b && j < c))
                        ==> #[trigger] new.at(i, j) == s_stepped(decoder, delta, i, j),
                forall|i: int, j: int|
                    0 <= i < rows && 0 <= j < cols && (i < b || (i == b && j < c))
                        ==> #[trigger] far.at(i, j) == s_extrapolated(
                        decoder,
                        delta,
                        previous,
                        beta,
                        i,
                        j,
                    ),
                forall|i: int, j: int|
                    0 <= i < rows && 0 <= j < cols && (i < b || (i == b && j < c))
                        ==> #[trigger] step.at(i, j) == s_extrapolated(
                        decoder,
                        delta,
                        previous,
                        beta,
                        i,
                        j,
                    ).s_minus(decoder.at(i, j)),
        {
            let here: S = decoder.get(b, c);
            let moved: S = here.plus(delta.get(b, c));
            let reached: S = moved.plus(moved.minus(previous.get(b, c)).times(beta));
            new.set(b, c, moved);
            far.set(b, c, reached);
            step.set(b, c, reached.minus(here));
        }
    }
    (new, far, step)
}

} // verus!
