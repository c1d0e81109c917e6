//! Active evaluations: the decoded image and tangent of each (row, slot) pair,
//! and the reconstruction they add up to.
//!
//! The charts' basis rows and jets come from the atoms' evaluators. A pass over
//! the active set takes them as a table, one entry per (row, slot) pair, taken
//! at the pair's coordinates.
use crate::atom::SaeManifoldAtom;
use crate::matrix::Matrix;
use crate::scalar::{filled, s_sum, Scalar};
use crate::term::SaeSupportSparseTerm;
use vstd::prelude::*;

verus! {

/// An atom's basis at one coordinate: the basis row, and for each basis
/// function its derivative along every chart axis.
#[derive(Debug)]
pub struct BasisEval<S> {
    pub phi: Vec<S>,
    pub jet: Vec<Vec<S>>,
}

impl<S> BasisEval<S> {
    /// The evaluation has `m` basis functions and `d` axes.
    pub open spec fn has_shape(&self, m: nat, d: nat) -> bool {
        &&& self.phi@.len() == m
        &&& self.jet@.len() == m
        &&& forall|b: int| 0 <= b < m ==> (#[trigger] self.jet@[b])@.len() == d
    }

    pub fn fits(&self, m: usize, d: usize) -> (r: bool)
        ensures
            r == self.has_shape(m as nat, d as nat),
    {
        if self.phi.len() != m || self.jet.len() != m {
            return false;
        }
        for b in 0..m
            invariant
                self.jet@.len() == m,
                forall|a: int| 0 <= a < b ==> (#[trigger] self.jet@[a])@.len() == d,
        {
            if self.jet[b].len() != d {
                return false;
            }
        }
        true
    }
}

/// What one active atom contributes at its coordinates.
#[derive(Debug)]
pub struct ActiveAtom<S> {
    /// `basis_row * decoder`, one entry per channel.
    pub decoded: Vec<S>,
    /// `d decoded / d t`, one line per axis.
    pub jacobian: Vec<Vec<S>>,
}

/// Channel `c` of an atom's image, over the first `n` basis functions.
pub open spec fn s_decoded<S: Scalar>(
    atom: SaeManifoldAtom<S>,
    phi: Seq<S>,
    c: int,
    n: int,
) -> S {
    s_sum(S::s_zero(), n, |b: int| phi[b].s_times(atom.coefficient(b, c)))
}

/// Channel `c` of an atom's tangent along `axis`, over the first `n` basis
/// functions.
pub open spec fn s_tangent<S: Scalar>(
    atom: SaeManifoldAtom<S>,
    jet: Seq<Vec<S>>,
    axis: int,
    c: int,
    n: int,
) -> S {
    s_sum(S::s_zero(), n, |b: int| jet[b]@[axis].s_times(atom.coefficient(b, c)))
}

/// `image` is the atom's image at the basis row `phi`.
pub open spec fn is_image<S: Scalar>(
    atom: SaeManifoldAtom<S>,
    phi: Seq<S>,
    image: Seq<S>,
) -> bool {
    &&& phi.len() == atom.m()
    &&& image.len() == atom.width()
    &&& forall|c: int|
        0 <= c < image.len() ==> #[trigger] image[c] == s_decoded(atom, phi, c, atom.m() as int)
}

/// An atom's image at a basis row.
pub fn decode<S: Scalar>(atom: &SaeManifoldAtom<S>, phi: &Vec<S>) -> (r: Vec<S>)
    requires
        atom.wf(),
        atom.spans_basis(),
        phi@.len() == atom.m(),
    ensures
        r@.len() == atom.width(),
        forall|c: int|
            0 <= c < atom.width() ==> #[trigger] r@[c] == s_decoded(
                *atom,
                phi@,
                c,
                atom.m() as int,
            ),
{
    let width: usize = atom.output_dim();
    let decoder: &Matrix<S> = atom.decoder_coefficients();
    let mut out: Vec<S> = filled(width, S::zero());
    for basis in 0..phi.len()
        invariant
            *decoder == atom.decoder(),
            decoder.has_shape(phi@.len(), width as nat),
            out@.len() == width,
            forall|c: int|
                0 <= c < width ==> #[trigger] out@[c] == s_decoded(*atom, phi@, c, basis as int),
    {
        for channel in 0..width
            invariant
                *decoder == atom.decoder(),
                decoder.has_shape(phi@.len(), width as nat),
                basis < phi@.len(),
                out@.len() == width,
                forall|c: int|
                    0 <= c < width ==> #[trigger] out@[c] == s_decoded(
                        *atom,
                        phi@,
                        c,
                        if c < channel {
                            basis + 1
                        } else {
                            basis as int
                        },
                    ),
        {
            let value: S = out[channel].plus(phi[basis].times(decoder.get(basis, channel)));
            out.set(channel, value);
        }
    }
    out
}

/// An atom's tangent along one axis.
pub fn decode_axis<S: Scalar>(
    atom: &SaeManifoldAtom<S>,
    jet: &Vec<Vec<S>>,
    axis: usize,
) -> (r: Vec<S>)
    requires
        atom.wf(),
        atom.spans_basis(),
        jet@.len() == atom.m(),
        forall|b: int| 0 <= b < jet@.len() ==> axis < (#[trigger] jet@[b])@.len(),
    ensures
        r@.len() == atom.width(),
        forall|c: int|
            0 <= c < atom.width() ==> #[trigger] r@[c] == s_tangent(
                *atom,
                jet@,
                axis as int,
                c,
                atom.m() as int,
            ),
{
    let width: usize = atom.output_dim();
    let decoder: &Matrix<S> = atom.decoder_coefficients();
    let mut out: Vec<S> = filled(width, S::zero());
    for basis in 0..jet.len()
        invariant
            *decoder == atom.decoder(),
            decoder.has_shape(jet@.len(), width as nat),
            forall|b: int| 0 <= b < jet@.len() ==> axis < (#[trigger] jet@[b])@.len(),
            out@.len() == width,
            forall|c: int|
                0 <= c < width ==> #[trigger] out@[c] == s_tangent(
                    *atom,
                    jet@,
                    axis as int,
                    c,
                    basis as int,
                ),
    {
        let weight: S = jet[basis][axis];
        for channel in 0..width
            invariant
                *decoder == atom.decoder(),
                decoder.has_shape(jet@.len(), width as nat),
                basis < jet@.len(),
                weight == jet@[basis as int]@[axis as int],
                out@.len() == width,
                forall|c: int|
                    0 <= c < width ==> #[trigger] out@[c] == s_tangent(
                        *atom,
                        jet@,
                        axis as int,
                        c,
                        if c < channel {
                            basis + 1
                        } else {
                            basis as int
                        },
                    ),
        {
            let value: S = out[channel].plus(weight.times(decoder.get(basis, channel)));
            out.set(channel, value);
        }
    }
    out
}

/// Why a decode request is refused.
#[derive(Clone, Copy, Debug, PartialEq, Eq, Structural)]
pub enum DecodeError {
    /// There is no such atom.
    AtomRange { atom: usize, k_atoms: usize },
    /// The coordinates have the wrong number of axes.
    CoordWidth { found: usize, expected: usize },
    /// A basis row has the wrong number of functions.
    BasisWidth { row: usize },
}

/// Why a target matrix is refused.
#[derive(Clone, Copy, Debug, PartialEq, Eq)]
pub struct ShapeError {
    pub found: (usize, usize),
    pub expected: (usize, usize),
}

impl<S: Scalar> SaeSupportSparseTerm<S> {
    pub open spec fn row_fits(&self, evals: Seq<BasisEval<S>>, row: int) -> bool {
        &&& evals.len() == self.support(row).len()
        &&& forall|slot: int|
            0 <= slot < evals.len() ==> (#[trigger] evals[slot]).has_shape(
                self.active(row, slot).m() as nat,
                self.active(row, slot).dim() as nat,
            )
    }

    /// The table has one evaluation of the right shape per active pair.
    pub open spec fn table_fits(&self, table: Seq<Vec<BasisEval<S>>>) -> bool {
        &&& table.len() == self.rows()
        &&& forall|row: int| 0 <= row < table.len() ==> self.row_fits(#[trigger] table[row]@, row)
    }

    /// What a table has to fit does not depend on the decoders' entries.
    pub proof fn lemma_fits_any_decoder(
        &self,
        other: &SaeSupportSparseTerm<S>,
        table: Seq<Vec<BasisEval<S>>>,
    )
        requires
            self.wf(),
            self.same_but_decoders(other),
            other.table_fits(table),
        ensures
            self.table_fits(table),
    {
        assert forall|row: int| 0 <= row < table.len() implies self.row_fits(
            #[trigger] table[row]@,
            row,
        ) by {
            assert(other.row_fits(table[row]@, row));
            assert forall|slot: int| 0 <= slot < table[row]@.len() implies (
            #[trigger] table[row]@[slot]).has_shape(
                self.active(row, slot).m() as nat,
                self.active(row, slot).dim() as nat,
            ) by {
                self.lemma_active(row, slot);
                let a = self.support(row)[slot] as int;
                assert(self.atom_seq()[a].same_chart(&other.atom_seq()[a]));
                assert(table[row]@[slot].has_shape(
                    other.active(row, slot).m() as nat,
                    other.active(row, slot).dim() as nat,
                ));
            }
        }
    }

    /// Channel `c` of the image at `(row, slot)`.
    pub open spec fn decoded(
        &self,
        table: Seq<Vec<BasisEval<S>>>,
        row: int,
        slot: int,
        c: int,
    ) -> S {
        s_decoded(
            self.active(row, slot),
            table[row]@[slot].phi@,
            c,
            self.active(row, slot).m() as int,
        )
    }

    /// Channel `c` of the tangent along `axis` at `(row, slot)`.
    pub open spec fn tangent(
        &self,
        table: Seq<Vec<BasisEval<S>>>,
        row: int,
        slot: int,
        axis: int,
        c: int,
    ) -> S {
        s_tangent(
            self.active(row, slot),
            table[row]@[slot].jet@,
            axis,
            c,
            self.active(row, slot).m() as int,
        )
    }

    /// Channel `c` of row `row`'s reconstruction, over its first `n` slots.
    pub open spec fn fitted_upto(
        &self,
        table: Seq<Vec<BasisEval<S>>>,
        row: int,
        c: int,
        n: int,
    ) -> S {
        s_sum(S::s_zero(), n, |slot: int| self.decoded(table, row, slot, c))
    }

    pub open spec fn fitted(&self, table: Seq<Vec<BasisEval<S>>>, row: int, c: int) -> S {
        self.fitted_upto(table, row, c, self.support(row).len() as int)
    }

    /// `fitted` is the reconstruction.
    pub open spec fn is_reconstruction(
        &self,
        table: Seq<Vec<BasisEval<S>>>,
        fitted: &Matrix<S>,
    ) -> bool {
        &&& fitted.has_shape(self.rows(), self.width())
        &&& forall|row: int, c: int|
            0 <= row < self.rows() && 0 <= c < self.width() ==> #[trigger] fitted.at(row, c)
                == self.fitted(table, row, c)
    }

    /// Whether a table fits.
    pub fn check_table(&self, table: &Vec<Vec<BasisEval<S>>>) -> (r: bool)
        requires
            self.wf(),
        ensures
            r == self.table_fits(table@),
    {
        let n: usize = self.n_obs();
        if table.len() != n {
            return false;
        }
        for row in 0..n
            invariant
                self.wf(),
                n == self.rows(),
                table@.len() == n,
                forall|q: int| 0 <= q < row ==> self.row_fits(#[trigger] table@[q]@, q),
        {
            if !self.check_row(row, &table[row]) {
                return false;
            }
        }
        true
    }

    /// Whether one row's evaluations fit.
    pub fn check_row(&self, row: usize, evals: &Vec<BasisEval<S>>) -> (r: bool)
        requires
            self.wf(),
            row < self.rows(),
        ensures
            r == self.row_fits(evals@, row as int),
    {
        let support: &Vec<u32> = self.assignment().support_indices(row);
        if evals.len() != support.len() {
            return false;
        }
        for slot in 0..support.len()
            invariant
                self.wf(),
                row < self.rows(),
                support@ == self.support(row as int),
                evals@.len() == support@.len(),
                forall|s: int|
                    0 <= s < slot ==> (#[trigger] evals@[s]).has_shape(
                        self.active(row as int, s).m() as nat,
                        self.active(row as int, s).dim() as nat,
                    ),
        {
            proof {
                self.lemma_active(row as int, slot as int);
            }
            let atom: &SaeManifoldAtom<S> = self.atom(support[slot] as usize);
            if !evals[slot].fits(atom.basis_size(), atom.latent_dim()) {
                return false;
            }
        }
        true
    }

    /// The image and tangent of one active pair, at the given evaluation.
    pub fn fill_active_eval(&self, row: usize, slot: usize, eval: &BasisEval<S>) -> (r: ActiveAtom<
        S,
    >)
        requires
            self.wf(),
            row < self.rows(),
            slot < self.support(row as int).len(),
            eval.has_shape(
                self.active(row as int, slot as int).m() as nat,
                self.active(row as int, slot as int).dim() as nat,
            ),
        ensures
            r.decoded@.len() == self.width(),
            forall|c: int|
                0 <= c < self.width() ==> #[trigger] r.decoded@[c] == s_decoded(
                    self.active(row as int, slot as int),
                    eval.phi@,
                    c,
                    self.active(row as int, slot as int).m() as int,
                ),
            r.jacobian@.len() == self.active(row as int, slot as int).dim(),
            forall|axis: int|
                0 <= axis < r.jacobian@.len() ==> (#[trigger] r.jacobian@[axis])@.len()
                    == self.width(),
            forall|axis: int, c: int|
                0 <= axis < r.jacobian@.len() && 0 <= c < self.width()
                    ==> #[trigger] r.jacobian@[axis]@[c] == s_tangent(
                    self.active(row as int, slot as int),
                    eval.jet@,
                    axis,
                    c,
                    self.active(row as int, slot as int).m() as int,
                ),
    {
        proof {
            self.lemma_active(row as int, slot as int);
        }
        let index: usize = self.assignment().support_indices(row)[slot] as usize;
        let atom: &SaeManifoldAtom<S> = self.atom(index);
        let decoded: Vec<S> = decode(atom, &eval.phi);
        let mut jacobian: Vec<Vec<S>> = Vec::new();
        let d: usize = atom.latent_dim();
        for axis in 0..d
            invariant
                atom.wf(),
                atom.spans_basis(),
                atom.width() == self.width(),
                eval.has_shape(atom.m() as nat, d as nat),
                jacobian@.len() == axis,
                forall|a: int|
                    0 <= a < axis ==> (#[trigger] jacobian@[a])@.len() == self.width(),
                forall|a: int, c: int|
                    0 <= a < axis && 0 <= c < self.width() ==> #[trigger] jacobian@[a]@[c]
                        == s_tangent(*atom, eval.jet@, a, c, atom.m() as int),
        {
            jacobian.push(decode_axis(atom, &eval.jet, axis));
        }
        ActiveAtom { decoded, jacobian }
    }

    /// One row's reconstruction: the sum of its slots' images.
    pub fn reconstruct_row(&self, row: usize, evals: &Vec<BasisEval<S>>) -> (r: Vec<S>)
        requires
            self.wf(),
            row < self.rows(),
            self.row_fits(evals@, row as int),
        ensures
            r@.len() == self.width(),
            forall|c: int|
                0 <= c < self.width() ==> #[trigger] r@[c] == self.row_image(
                    evals@,
                    row as int,
                    c,
                    evals@.len() as int,
                ),
    {
        let width: usize = self.output_dim();
        let support: &Vec<u32> = self.assignment().support_indices(row);
        let mut out: Vec<S> = filled(width, S::zero());
        for slot in 0..support.len()
            invariant
                self.wf(),
                row < self.rows(),
                width == self.width(),
                support@ == self.support(row as int),
                self.row_fits(evals@, row as int),
                out@.len() == width,
                forall|c: int|
                    0 <= c < width ==> #[trigger] out@[c] == self.row_image(
                        evals@,
                        row as int,
                        c,
                        slot as int,
                    ),
        {
            proof {
                self.lemma_active(row as int, slot as int);
                assert(evals@[slot as int].has_shape(
                    self.active(row as int, slot as int).m() as nat,
                    self.active(row as int, slot as int).dim() as nat,
                ));
            }
            let image: Vec<S> = decode(self.atom(support[slot] as usize), &evals[slot].phi);
            for channel in 0..width
                invariant
                    image@.len() == width,
                    out@.len() == width,
                    forall|c: int|
                        0 <= c < width ==> #[trigger] image@[c] == s_decoded(
                            self.active(row as int, slot as int),
                            evals@[slot as int].phi@,
                            c,
                            self.active(row as int, slot as int).m() as int,
                        ),
                    forall|c: int|
                        0 <= c < width ==> #[trigger] out@[c] == self.row_image(
                            evals@,
                            row as int,
                            c,
                            if c < channel {
                                slot + 1
                            } else {
                                slot as int
                            },
                        ),
            {
                let value: S = out[channel].plus(image[channel]);
                out.set(channel, value);
            }
        }
        out
    }

    /// Channel `c` of the first `n` images of a row.
    pub open spec fn row_image(&self, evals: Seq<BasisEval<S>>, row: int, c: int, n: int) -> S {
        s_sum(
            S::s_zero(),
            n,
            |slot: int|
                s_decoded(
                    self.active(row, slot),
                    evals[slot].phi@,
                    c,
                    self.active(row, slot).m() as int,
                ),
        )
    }

    /// A row image of a table is the reconstruction of the row.
    pub proof fn lemma_row_image(&self, table: Seq<Vec<BasisEval<S>>>, row: int, c: int)
        requires
            self.table_fits(table),
            0 <= row < self.rows(),
        ensures
            self.row_image(table[row]@, row, c, table[row]@.len() as int) == self.fitted(
                table,
                row,
                c,
            ),
    {
        let evals = table[row]@;
        assert(self.row_fits(table[row]@, row));
        crate::scalar::lemma_sum_ext(
            S::s_zero(),
            evals.len() as int,
            |slot: int|
                s_decoded(
                    self.active(row, slot),
                    evals[slot].phi@,
                    c,
                    self.active(row, slot).m() as int,
                ),
            |slot: int| self.decoded(table, row, slot, c),
        );
    }

    /// Writes the reconstruction into a buffer of its shape; any other buffer is
    /// refused and kept as it is.
    pub fn reconstruct_into(
        &self,
        table: &Vec<Vec<BasisEval<S>>>,
        fitted: &mut Matrix<S>,
    ) -> (r: Result<(), ShapeError>)
        requires
            self.wf(),
            self.table_fits(table@),
            old(fitted).wf(),
        ensures
            r is Ok <==> old(fitted).nrows() == self.rows() && old(fitted).ncols() == self.width(),
            r is Ok ==> self.is_reconstruction(table@, final(fitted)),
            r matches Err(e) ==> {
                &&& *final(fitted) == *old(fitted)
                &&& e == (ShapeError {
                    found: (old(fitted).nrows() as usize, old(fitted).ncols() as usize),
                    expected: (self.rows() as usize, self.width() as usize),
                })
            },
    {
        let n: usize = self.n_obs();
        let width: usize = self.output_dim();
        let found: (usize, usize) = (fitted.row_count(), fitted.col_count());
        if found.0 != n || found.1 != width {
            return Err(ShapeError { found, expected: (n, width) });
        }
        for row in 0..n
            invariant
                self.wf(),
                self.table_fits(table@),
                n == self.rows(),
                width == self.width(),
                fitted.has_shape(n as nat, width as nat),
                forall|q: int, c: int|
                    0 <= q < row && 0 <= c < width ==> #[trigger] fitted.at(q, c) == self.fitted(
                        table@,
                        q,
                        c,
                    ),
        {
            assert(self.row_fits(table@[row as int]@, row as int));
            let line: Vec<S> = self.reconstruct_row(row, &table[row]);
            for channel in 0..width
                invariant
                    n == self.rows(),
                    width == self.width(),
                    row < n,
                    self.table_fits(table@),
                    line@.len() == width,
                    forall|c: int|
                        0 <= c < width ==> #[trigger] line@[c] == self.row_image(
                            table@[row as int]@,
                            row as int,
                            c,
                            table@[row as int]@.len() as int,
                        ),
                    fitted.has_shape(n as nat, width as nat),
                    forall|q: int, c: int|
                        0 <= q < n && 0 <= c < width && (q < row || (q == row && c < channel))
                            ==> #[trigger] fitted.at(q, c) == self.fitted(table@, q, c),
            {
                proof {
                    self.lemma_row_image(table@, row as int, channel as int);
                }
                fitted.set(row, channel, line[channel]);
            }
        }
        Ok(())
    }

    /// The reconstruction of every row from its active atoms alone.
    pub fn reconstruct(&self, table: &Vec<Vec<BasisEval<S>>>) -> (r: Matrix<S>)
        requires
            self.wf(),
            self.table_fits(table@),
            self.rows() * self.width() <= usize::MAX,
        ensures
            self.is_reconstruction(table@, &r),
    {
        let mut fitted: Matrix<S> = Matrix::constant(self.n_obs(), self.output_dim(), S::zero());
        let outcome = self.reconstruct_into(table, &mut fitted);
        assert(outcome is Ok);
        fitted
    }

    /// `target - fitted`, before any smoothing or prior. A target of another
    /// shape is refused.
    pub fn raw_residual(&self, target: &Matrix<S>, table: &Vec<Vec<BasisEval<S>>>) -> (r: Result<
        Matrix<S>,
        ShapeError,
    >)
        requires
            self.wf(),
            self.table_fits(table@),
            target.wf(),
        ensures
            r is Ok <==> target.nrows() == self.rows() && target.ncols() == self.width(),
            r matches Ok(residual) ==> {
                &&& residual.has_shape(self.rows(), self.width())
                &&& forall|row: int, c: int|
                    0 <= row < self.rows() && 0 <= c < self.width() ==> #[trigger] residual.at(
                        row,
                        c,
                    ) == target.at(row, c).s_minus(self.fitted(table@, row, c))
            },
            r matches Err(e) ==> e == (ShapeError {
                found: (target.nrows() as usize, target.ncols() as usize),
                expected: (self.rows() as usize, self.width() as usize),
            }),
    {
        let n: usize = self.n_obs();
        let width: usize = self.output_dim();
        let found: (usize, usize) = (target.row_count(), target.col_count());
        if found.0 != n || found.1 != width {
            return Err(ShapeError { found, expected: (n, width) });
        }
        let mut residual: Matrix<S> = target.copy();
        let outcome = self.reconstruct_into(table, &mut residual);
        assert(outcome is Ok);
        Ok(difference(target, &residual))
    }

    /// An atom's images at given basis rows, taken at coordinates with
    /// `coord_width` axes.
    pub fn decode_atom_at(
        &self,
        atom_idx: usize,
        coord_width: usize,
        basis_rows: &Vec<Vec<S>>,
    ) -> (r: Result<Vec<Vec<S>>, DecodeError>)
        requires
            self.wf(),
        ensures
            match r {
                Ok(images) => {
                    let atom = self.atom_seq()[atom_idx as int];
                    &&& atom_idx < self.k()
                    &&& coord_width == atom.dim()
                    &&& images@.len() == basis_rows@.len()
                    &&& forall|i: int|
                        0 <= i < basis_rows@.len() ==> is_image(
                            atom,
                            basis_rows@[i]@,
                            #[trigger] images@[i]@,
                        )
                },
                Err(DecodeError::AtomRange { atom, k_atoms }) => atom_idx >= self.k() && atom
                    == atom_idx && k_atoms == self.k(),
                Err(DecodeError::CoordWidth { found, expected }) => {
                    &&& atom_idx < self.k()
                    &&& coord_width != self.atom_seq()[atom_idx as int].dim()
                    &&& found == coord_width
                    &&& expected == self.atom_seq()[atom_idx as int].dim()
                },
                Err(DecodeError::BasisWidth { row }) => {
                    &&& atom_idx < self.k()
                    &&& coord_width == self.atom_seq()[atom_idx as int].dim()
                    &&& row < basis_rows@.len()
                    &&& basis_rows@[row as int]@.len() != self.atom_seq()[atom_idx as int].m()
                },
            },
    {
        let k_atoms: usize = self.k_atoms();
        if atom_idx >= k_atoms {
            return Err(DecodeError::AtomRange { atom: atom_idx, k_atoms });
        }
        assert(self.atom_wf(atom_idx as int));
        let atom: &SaeManifoldAtom<S> = self.atom(atom_idx);
        let expected: usize = atom.latent_dim();
        if coord_width != expected {
            return Err(DecodeError::CoordWidth { found: coord_width, expected });
        }
        let m: usize = atom.basis_size();
        let mut images: Vec<Vec<S>> = Vec::new();
        for row in 0..basis_rows.len()
            invariant
                atom.wf(),
                atom.spans_basis(),
                atom.width() == self.width(),
                m == atom.m(),
                atom_idx < self.k(),
                *atom == self.atom_seq()[atom_idx as int],
                coord_width == atom.dim(),
                images@.len() == row,
                forall|i: int|
                    0 <= i < row ==> is_image(*atom, basis_rows@[i]@, #[trigger] images@[i]@),
        {
            if basis_rows[row].len() != m {
                return Err(DecodeError::BasisWidth { row });
            }
            let image: Vec<S> = decode(atom, &basis_rows[row]);
            assert(is_image(*atom, basis_rows@[row as int]@, image@));
            images.push(image);
        }
        Ok(images)
    }
}

/// `left - right`, entry by entry.
pub fn difference<S: Scalar>(left: &Matrix<S>, right: &Matrix<S>) -> (r: Matrix<S>)
    requires
        left.wf(),
        right.has_shape(left.nrows(), left.ncols()),
    ensures
        r.has_shape(left.nrows(), left.ncols()),
        forall|i: int, j: int|
            0 <= i < left.nrows() && 0 <= j < left.ncols() ==> #[trigger] r.at(i, j) == left.at(
                i,
                j,
            ).s_minus(right.at(i, j)),
{
    let rows: usize = left.row_count();
    let cols: usize = left.col_count();
    let mut out: Matrix<S> = left.copy();
    for i in 0..rows
        invariant
            left.has_shape(rows as nat, cols as nat),
            right.has_shape(rows as nat, cols as nat),
            out.has_shape(rows as nat, cols as nat),
            forall|a: int, b: int|
                0 <= a < rows && 0 <= b < cols ==> #[trigger] out.at(a, b) == (if a < i {
                    left.at(a, b).s_minus(right.at(a, b))
                } else {
                    left.at(a, b)
                }),
    {
        for j in 0..cols
            invariant
                left.has_shape(rows as nat, cols as nat),
                right.has_shape(rows as nat, cols as nat),
                out.has_shape(rows as nat, cols as nat),
                i < rows,
                forall|a: int, b: int|
                    0 <= a < rows && 0 <= b < cols ==> #[trigger] out.at(a, b) == (if a < i || (a
                        == i && b < j) {
                        left.at(a, b).s_minus(right.at(a, b))
                    } else {
                        left.at(a, b)
                    }),
        {
            let value: S = left.get(i, j).minus(right.get(i, j));
            out.set(i, j, value);
        }
    }
    out
}

} // verus!
