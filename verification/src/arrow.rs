//! The Gauss-Newton system of the term, in arrow form.
//!
//! Each row has a small dense block over its own coordinates; the decoder block
//! and the coupling between the two are matrix-free.
use crate::active::{ActiveAtom, BasisEval, ShapeError};
use crate::atom::SaeManifoldAtom;
use crate::coordinates::{flat, law_flat_state_holds_the_rows, row_start};
use crate::layout::{
    beta_index, beta_start, is_layout, is_layout_fault, law_blocks_follow_one_another,
    lemma_beta_index_in_block, LayoutError,
};
use crate::matrix::{lemma_flat_index, product, s_product_at, Matrix};
use crate::objective::{all_positive, s_positive, HyperFault, PriorTerm};
use crate::operator::{
    before, SupportBasisBlock, SupportBetaOperator, SupportLinearizedRow,
};
use crate::scalar::{contents, copied, dot, s_dot, s_less, s_sum, Scalar};
use crate::term::{is_use, law_uses_invert_the_support, SaeSupportSparseTerm};
use vstd::prelude::*;

verus! {

/// One row's block: the gradient and the curvature over its coordinates.
#[derive(Debug)]
pub struct ArrowRow<S> {
    pub gt: Vec<S>,
    pub htt: Vec<Vec<S>>,
    /// The coupling to the decoder. It has no columns: its products are the
    /// operator's.
    pub htbeta: Matrix<S>,
}

/// The assembled system.
#[derive(Debug)]
pub struct ArrowSchurSystem<S> {
    pub rows: Vec<ArrowRow<S>>,
    /// The gradient over the decoder coefficients.
    pub gb: Vec<S>,
    /// The diagonal of the decoder block.
    pub hbb_diag: Vec<S>,
    /// Where each atom's coefficients start and end.
    pub block_offsets: Vec<(usize, usize)>,
    /// Products with the decoder block and the coupling.
    pub operator: SupportBetaOperator<S>,
}

/// A vector with a coordinate part and a decoder part.
#[derive(Debug)]
pub struct SaeArrowVector<S> {
    pub t: Vec<S>,
    pub beta: Vec<S>,
}

/// The rows' gradients.
pub open spec fn row_gradients<S>(rows: Seq<ArrowRow<S>>) -> Seq<Seq<S>> {
    Seq::new(rows.len(), |r: int| rows[r].gt@)
}

/// The gradient of a system: the rows' gradients one after another, and the
/// decoder gradient.
pub fn gradient<S: Scalar>(system: &ArrowSchurSystem<S>) -> (r: SaeArrowVector<S>)
    ensures
        r.t@ == flat(row_gradients(system.rows@), system.rows@.len() as int),
        r.beta@ == system.gb@,
{
    let ghost lines = row_gradients(system.rows@);
    let mut t: Vec<S> = Vec::new();
    for row in 0..system.rows.len()
        invariant
            lines == row_gradients(system.rows@),
            t@ == flat(lines, row as int),
    {
        let line: &Vec<S> = &system.rows[row].gt;
        let ghost start = t@;
        for i in 0..line.len()
            invariant
                t@ == start + line@.take(i as int),
        {
            t.push(line[i]);
            assert(t@ =~= start + line@.take(i + 1));
        }
        assert(start + line@.take(line@.len() as int) =~= start + lines[row as int]);
    }
    SaeArrowVector { t, beta: copied(&system.gb) }
}

/// Why a system is not assembled.
#[derive(Clone, Copy, Debug, PartialEq, Eq)]
pub enum ArrowError {
    Shape(ShapeError),
    Hyper(HyperFault),
    Layout(LayoutError),
}

/// The lines of several blocks, one after another.
pub open spec fn are_block_lines<S: Scalar>(
    term: &SaeSupportSparseTerm<S>,
    evals: Seq<BasisEval<S>>,
    row: int,
    lines: Seq<Vec<S>>,
    slots: int,
) -> bool {
    &&& lines.len() == term.state().slot_start(row, slots)
    &&& forall|i: int| 0 <= i < lines.len() ==> (#[trigger] lines[i])@.len() == term.width()
    &&& forall|slot: int, axis: int, c: int|
        #![trigger lines[term.state().slot_start(row, slot) + axis]@[c]]
        0 <= slot < slots && 0 <= axis < term.state().slot_dim(row, slot) && 0 <= c < term.width()
            ==> lines[term.state().slot_start(row, slot) + axis]@[c]
            == crate::active::s_tangent(
            term.active(row, slot),
            evals[slot].jet@,
            axis,
            c,
            term.active(row, slot).m() as int,
        )
}

impl<S: Scalar> SaeSupportSparseTerm<S> {
    /// `lines` is the row's Jacobian: for every slot and axis, the tangent.
    pub open spec fn is_row_jacobian(
        &self,
        evals: Seq<BasisEval<S>>,
        row: int,
        lines: Seq<Vec<S>>,
    ) -> bool {
        are_block_lines(self, evals, row, lines, self.support(row).len() as int)
    }

    /// A row's Jacobian, one line per coordinate.
    pub fn row_jacobian(&self, row: usize, evals: &Vec<BasisEval<S>>) -> (lines: Vec<Vec<S>>)
        requires
            self.wf(),
            row < self.rows(),
            self.row_fits(evals@, row as int),
        ensures
            self.is_row_jacobian(evals@, row as int, lines@),
    {
        let slots: usize = self.assignment().support_indices(row).len();
        let mut lines: Vec<Vec<S>> = Vec::new();
        for slot in 0..slots
            invariant
                self.wf(),
                row < self.rows(),
                slots == self.support(row as int).len(),
                self.row_fits(evals@, row as int),
                are_block_lines(self, evals@, row as int, lines@, slot as int),
        {
            proof {
                self.lemma_active(row as int, slot as int);
                self.state().lemma_slot_in_row(row as int, slot as int);
                assert(evals@[slot as int].has_shape(
                    self.active(row as int, slot as int).m() as nat,
                    self.active(row as int, slot as int).dim() as nat,
                ));
            }
            let active: ActiveAtom<S> = self.fill_active_eval(row, slot, &evals[slot]);
            let ghost start = lines@;
            let ghost base = self.state().slot_start(row as int, slot as int) as int;
            for axis in 0..active.jacobian.len()
                invariant
                    self.wf(),
                    row < self.rows(),
                    slot < self.support(row as int).len(),
                    base == self.state().slot_start(row as int, slot as int),
                    start.len() == base,
                    are_block_lines(self, evals@, row as int, start, slot as int),
                    active.jacobian@.len() == self.state().slot_dim(row as int, slot as int),
                    forall|a: int|
                        0 <= a < active.jacobian@.len() ==> (#[trigger] active.jacobian@[a])@.len()
                            == self.width(),
                    lines@.len() == base + axis,
                    forall|i: int| 0 <= i < base ==> #[trigger] lines@[i] == start[i],
                    forall|a: int|
                        0 <= a < axis ==> (#[trigger] lines@[base + a])@
                            == active.jacobian@[a]@,
            {
                lines.push(copied(&active.jacobian[axis]));
            }
            proof {
                assert forall|i: int| 0 <= i < lines@.len() implies (#[trigger] lines@[i])@.len()
                    == self.width() by {
                    if i >= base {
                        assert(lines@[base + (i - base)]@ == active.jacobian@[i - base]@);
                    } else {
                        assert(start[i]@.len() == self.width());
                    }
                }
                assert forall|s: int, axis: int, c: int|
                    #![trigger lines@[self.state().slot_start(row as int, s) + axis]@[c]]
                    0 <= s < slot + 1 && 0 <= axis < self.state().slot_dim(row as int, s) && 0 <= c
                        < self.width() implies lines@[self.state().slot_start(row as int, s)
                    + axis]@[c] == crate::active::s_tangent(
                    self.active(row as int, s),
                    evals@[s].jet@,
                    axis,
                    c,
                    self.active(row as int, s).m() as int,
                ) by {
                    if s < slot {
                        self.state().lemma_slot_in_row(row as int, s);
                        crate::assignment::lemma_block_start_monotone(
                            self.state().dims(),
                            self.support(row as int),
                            s + 1,
                            slot as int,
                        );
                        let i = self.state().slot_start(row as int, s) + axis;
                        assert(lines@[i] == start[i]);
                        assert(start[i]@[c] == crate::active::s_tangent(
                            self.active(row as int, s),
                            evals@[s].jet@,
                            axis,
                            c,
                            self.active(row as int, s).m() as int,
                        ));
                    } else {
                        assert(lines@[base + axis]@ == active.jacobian@[axis]@);
                        assert(active.jacobian@[axis]@[c] == lines@[base + axis]@[c]);
                    }
                }
            }
        }
        lines
    }

    /// A row's prior terms, one per coordinate.
    pub open spec fn prior_list(
        &self,
        priors: Seq<Vec<PriorTerm<S>>>,
        row: int,
    ) -> Seq<PriorTerm<S>> {
        flat(contents(priors), self.support(row).len() as int)
    }

    /// The prior list has one term per coordinate, in slot order.
    pub proof fn lemma_prior_list(&self, priors: Seq<Vec<PriorTerm<S>>>, row: int)
        requires
            self.wf(),
            0 <= row < self.rows(),
            self.row_priors_fit(priors, row),
        ensures
            self.prior_list(priors, row).len() == self.coords()[row].len(),
            forall|slot: int, axis: int|
                0 <= slot < priors.len() && 0 <= axis < priors[slot]@.len()
                    ==> #[trigger] self.prior_list(priors, row)[self.state().slot_start(row, slot)
                    + axis] == priors[slot]@[axis],
    {
        let lines = contents(priors);
        let n = lines.len() as int;
        assert(self.state().row_wf(row));
        self.lemma_prior_starts(priors, row, n);
        law_flat_state_holds_the_rows(lines, n);
        assert forall|slot: int, axis: int|
            0 <= slot < priors.len() && 0 <= axis < priors[slot]@.len() implies
            #[trigger] self.prior_list(priors, row)[self.state().slot_start(row, slot) + axis]
            == priors[slot]@[axis] by {
            self.lemma_prior_starts(priors, row, slot);
            let a = row_start(lines, slot) as int;
            let b = (row_start(lines, slot) + lines[slot].len()) as int;
            assert(flat(lines, n).subrange(a, b) == lines[slot]);
            assert(flat(lines, n).subrange(a, b)[axis] == lines[slot][axis]);
        }
    }

    proof fn lemma_prior_starts(&self, priors: Seq<Vec<PriorTerm<S>>>, row: int, n: int)
        requires
            self.wf(),
            0 <= row < self.rows(),
            self.row_priors_fit(priors, row),
            0 <= n <= priors.len(),
        ensures
            row_start(contents(priors), n) == self.state().slot_start(row, n),
        decreases n,
    {
        if n > 0 {
            self.lemma_prior_starts(priors, row, n - 1);
            assert(priors[n - 1]@.len() == self.state().slot_dim(row, n - 1));
        }
    }

    /// A row's prior terms, one per coordinate.
    pub fn row_prior_list(&self, row: usize, priors: &Vec<Vec<PriorTerm<S>>>) -> (r: Vec<
        PriorTerm<S>,
    >)
        requires
            self.wf(),
            row < self.rows(),
            self.row_priors_fit(priors@, row as int),
        ensures
            r@ == self.prior_list(priors@, row as int),
            r@.len() == self.coords()[row as int].len(),
    {
        let ghost lines = contents(priors@);
        let mut out: Vec<PriorTerm<S>> = Vec::new();
        for slot in 0..priors.len()
            invariant
                lines == contents(priors@),
                out@ == flat(lines, slot as int),
        {
            let block: &Vec<PriorTerm<S>> = &priors[slot];
            let ghost start = out@;
            for axis in 0..block.len()
                invariant
                    out@ == start + block@.take(axis as int),
            {
                out.push(block[axis]);
                assert(out@ =~= start + block@.take(axis + 1));
            }
            assert(start + block@.take(block@.len() as int) =~= start + lines[slot as int]);
        }
        proof {
            self.lemma_prior_list(priors@, row as int);
        }
        out
    }

    /// One row's block: `J J'` and `-J r`, with the prior on the diagonal and
    /// in the gradient.
    pub open spec fn is_arrow_row(
        &self,
        lines: Seq<Vec<S>>,
        list: Seq<PriorTerm<S>>,
        residual: Seq<S>,
        block: ArrowRow<S>,
    ) -> bool {
        &&& block.gt@.len() == lines.len()
        &&& block.htt@.len() == lines.len()
        &&& block.htbeta.has_shape(lines.len(), 0)
        &&& forall|i: int|
            0 <= i < lines.len() ==> #[trigger] block.gt@[i] == s_dot(
                lines[i]@,
                residual,
            ).s_negate().s_plus(list[i].grad)
        &&& forall|i: int|
            0 <= i < lines.len() ==> (#[trigger] block.htt@[i])@.len() == lines.len()
        &&& forall|i: int, j: int|
            0 <= i < lines.len() && 0 <= j < lines.len() ==> #[trigger] block.htt@[i]@[j] == (if i
                == j {
                s_dot(lines[i]@, lines[j]@).s_plus(list[i].curvature)
            } else {
                s_dot(lines[i]@, lines[j]@)
            })
    }

    fn arrow_row(
        &self,
        lines: &Vec<Vec<S>>,
        list: &Vec<PriorTerm<S>>,
        residual: &Vec<S>,
    ) -> (block: ArrowRow<S>)
        requires
            list@.len() == lines@.len(),
            residual@.len() == self.width(),
            forall|i: int| 0 <= i < lines@.len() ==> (#[trigger] lines@[i])@.len() == self.width(),
        ensures
            self.is_arrow_row(lines@, list@, residual@, block),
    {
        let q: usize = lines.len();
        let mut gt: Vec<S> = Vec::new();
        let mut htt: Vec<Vec<S>> = Vec::new();
        for i in 0..q
            invariant
                q == lines@.len(),
                list@.len() == q,
                residual@.len() == self.width(),
                forall|a: int| 0 <= a < q ==> (#[trigger] lines@[a])@.len() == self.width(),
                gt@.len() == i,
                htt@.len() == i,
                forall|a: int|
                    0 <= a < i ==> #[trigger] gt@[a] == s_dot(
                        lines@[a]@,
                        residual@,
                    ).s_negate().s_plus(list@[a].grad),
                forall|a: int| 0 <= a < i ==> (#[trigger] htt@[a])@.len() == q,
                forall|a: int, b: int|
                    0 <= a < i && 0 <= b < q ==> #[trigger] htt@[a]@[b] == (if a == b {
                        s_dot(lines@[a]@, lines@[b]@).s_plus(list@[a].curvature)
                    } else {
                        s_dot(lines@[a]@, lines@[b]@)
                    }),
        {
            gt.push(dot(&lines[i], residual).negate().plus(list[i].grad));
            let mut line: Vec<S> = Vec::new();
            for j in 0..q
                invariant
                    q == lines@.len(),
                    list@.len() == q,
                    i < q,
                    forall|a: int| 0 <= a < q ==> (#[trigger] lines@[a])@.len() == self.width(),
                    line@.len() == j,
                    forall|b: int|
                        0 <= b < j ==> #[trigger] line@[b] == (if i == b {
                            s_dot(lines@[i as int]@, lines@[b]@).s_plus(list@[i as int].curvature)
                        } else {
                            s_dot(lines@[i as int]@, lines@[b]@)
                        }),
            {
                let mut value: S = dot(&lines[i], &lines[j]);
                if i == j {
                    value = value.plus(list[i].curvature);
                }
                line.push(value);
            }
            htt.push(line);
        }
        ArrowRow { gt, htt, htbeta: Matrix::constant(q, 0, S::zero()) }
    }

    /// Entry `(b, c)` of atom `a` in the decoder gradient.
    pub open spec fn beta_grad(
        &self,
        residual: &Matrix<S>,
        lambda: Seq<S>,
        table: Seq<Vec<BasisEval<S>>>,
        a: int,
        b: int,
        c: int,
    ) -> S {
        let atom = self.atom_seq()[a];
        self.data_grad(residual, table, a, b, c, self.uses()[a].len() as int).s_plus(
            lambda[a].s_times(
                s_product_at(&atom.penalty(), &atom.decoder(), b, c, atom.m() as int),
            ),
        )
    }

    /// The part of it that the first `n` uses contribute.
    pub open spec fn data_grad(
        &self,
        residual: &Matrix<S>,
        table: Seq<Vec<BasisEval<S>>>,
        a: int,
        b: int,
        c: int,
        n: int,
    ) -> S {
        s_less(
            S::s_zero(),
            n,
            |e: int|
                self.use_phi(table, a, e)[b].s_times(residual.at(self.uses()[a][e].0 as int, c)),
        )
    }

    /// The diagonal of the decoder block at basis function `b` of atom `a`.
    pub open spec fn beta_diag(
        &self,
        lambda: Seq<S>,
        table: Seq<Vec<BasisEval<S>>>,
        a: int,
        b: int,
    ) -> S {
        self.data_diag(table, a, b, self.uses()[a].len() as int).s_plus(
            lambda[a].s_times(self.atom_seq()[a].roughness(b, b)),
        )
    }

    pub open spec fn data_diag(
        &self,
        table: Seq<Vec<BasisEval<S>>>,
        a: int,
        b: int,
        n: int,
    ) -> S {
        s_sum(
            S::s_zero(),
            n,
            |e: int| self.use_phi(table, a, e)[b].s_times(self.use_phi(table, a, e)[b]),
        )
    }

    /// Atom `a`'s precisions are one per axis, finite and positive.
    pub open spec fn ard_block_positive(&self, ard: Seq<Vec<S>>, a: int) -> bool {
        &&& ard[a]@.len() == self.state().dims()[a]
        &&& forall|i: int| 0 <= i < ard[a]@.len() ==> s_positive(#[trigger] ard[a]@[i])
    }

    pub open spec fn first_strict_ard_fault(&self, ard: Seq<Vec<S>>, a: int) -> Option<HyperFault>
        decreases ard.len() - a,
    {
        if a >= ard.len() {
            None
        } else if !self.ard_block_positive(ard, a) {
            Some(HyperFault::ArdBlock { atom: a as usize })
        } else {
            self.first_strict_ard_fault(ard, a + 1)
        }
    }

    /// What keeps the system from being assembled, before its layout: the target's
    /// shape, the smoothing strengths, or a precision that is not positive.
    pub open spec fn assembly_fault(
        &self,
        target: &Matrix<S>,
        lambda: Seq<S>,
        ard: Seq<Vec<S>>,
    ) -> Option<ArrowError> {
        if target.nrows() != self.rows() || target.ncols() != self.width() {
            Some(
                ArrowError::Shape(
                    ShapeError {
                        found: (target.nrows() as usize, target.ncols() as usize),
                        expected: (self.rows() as usize, self.width() as usize),
                    },
                ),
            )
        } else {
            match self.smoothing_fault(lambda) {
                Some(fault) => Some(ArrowError::Hyper(fault)),
                None => if ard.len() != self.k() {
                    Some(
                        ArrowError::Hyper(
                            HyperFault::ArdLength {
                                found: ard.len() as usize,
                                expected: self.k() as usize,
                            },
                        ),
                    )
                } else {
                    match self.first_strict_ard_fault(ard, 0) {
                        Some(fault) => Some(ArrowError::Hyper(fault)),
                        None => None,
                    }
                },
            }
        }
    }

    /// The system is the one these inputs assemble.
    pub open spec fn is_assembled(
        &self,
        residual: &Matrix<S>,
        lambda: Seq<S>,
        table: Seq<Vec<BasisEval<S>>>,
        priors: Seq<Vec<Vec<PriorTerm<S>>>>,
        system: &ArrowSchurSystem<S>,
    ) -> bool {
        let op = &system.operator;
        &&& op.wf()
        &&& op.output_dim == self.width()
        &&& op.basis_sizes@ == self.basis_sizes()
        &&& op.lambda_smooth@ == lambda
        &&& contents(op.atom_blocks@) == self.uses()
        &&& forall|a: int|
            0 <= a < self.k() ==> (#[trigger] op.penalties@[a]).same_as(
                &self.atom_seq()[a].penalty(),
            )
        &&& op.rows@.len() == self.rows()
        &&& forall|r: int|
            0 <= r < self.rows() ==> self.is_linearized(
                table[r]@,
                r,
                op.beta_offsets@,
                #[trigger] op.rows@[r],
            )
        &&& system.rows@.len() == self.rows()
        &&& forall|r: int|
            0 <= r < self.rows() ==> self.is_arrow_row(
                op.rows@[r].jacobian@,
                self.prior_list(priors[r]@, r),
                residual.row(r),
                #[trigger] system.rows@[r],
            )
        &&& system.gb@.len() == op.beta_dim
        &&& system.hbb_diag@.len() == op.beta_dim
        &&& forall|a: int, b: int, c: int|
            0 <= a < self.k() && 0 <= b < self.basis_sizes()[a] && 0 <= c < self.width()
                ==> #[trigger] system.gb@[beta_index(self.basis_sizes(), self.width(), a, b, c)]
                == self.beta_grad(residual, lambda, table, a, b, c)
        &&& forall|a: int, b: int, c: int|
            0 <= a < self.k() && 0 <= b < self.basis_sizes()[a] && 0 <= c < self.width()
                ==> #[trigger] system.hbb_diag@[beta_index(
                self.basis_sizes(),
                self.width(),
                a,
                b,
                c,
            )] == self.beta_diag(lambda, table, a, b)
        &&& system.block_offsets@.len() == self.k()
        &&& forall|a: int|
            0 <= a < self.k() ==> {
                &&& (#[trigger] system.block_offsets@[a]).0 as nat == beta_start(
                    self.basis_sizes(),
                    self.width(),
                    a,
                )
                &&& system.block_offsets@[a].1 as nat == beta_start(
                    self.basis_sizes(),
                    self.width(),
                    a + 1,
                )
            }
    }

    /// The row's blocks are its active atoms' basis rows, and its Jacobian is
    /// the row's.
    pub open spec fn is_linearized(
        &self,
        evals: Seq<BasisEval<S>>,
        row: int,
        offsets: Seq<usize>,
        line: SupportLinearizedRow<S>,
    ) -> bool {
        &&& line.blocks@.len() == self.support(row).len()
        &&& forall|slot: int|
            0 <= slot < line.blocks@.len() ==> {
                &&& (#[trigger] line.blocks@[slot]).beta_offset == offsets[self.support(
                    row,
                )[slot] as int]
                &&& line.blocks@[slot].phi@ == evals[slot].phi@
            }
        &&& self.is_row_jacobian(evals, row, line.jacobian@)
    }

    fn linearized_row(
        &self,
        row: usize,
        evals: &Vec<BasisEval<S>>,
        offsets: &Vec<usize>,
    ) -> (line: SupportLinearizedRow<S>)
        requires
            self.wf(),
            row < self.rows(),
            self.row_fits(evals@, row as int),
            offsets@.len() == self.k(),
        ensures
            self.is_linearized(evals@, row as int, offsets@, line),
    {
        let support: &Vec<u32> = self.assignment().support_indices(row);
        let mut blocks: Vec<SupportBasisBlock<S>> = Vec::new();
        for slot in 0..support.len()
            invariant
                self.wf(),
                row < self.rows(),
                support@ == self.support(row as int),
                evals@.len() == support@.len(),
                offsets@.len() == self.k(),
                blocks@.len() == slot,
                forall|s: int|
                    0 <= s < slot ==> {
                        &&& (#[trigger] blocks@[s]).beta_offset == offsets@[self.support(
                            row as int,
                        )[s] as int]
                        &&& blocks@[s].phi@ == evals@[s].phi@
                    },
        {
            proof {
                self.lemma_active(row as int, slot as int);
            }
            blocks.push(
                SupportBasisBlock {
                    beta_offset: offsets[support[slot] as usize],
                    phi: copied(&evals[slot].phi),
                },
            );
        }
        SupportLinearizedRow { blocks, jacobian: self.row_jacobian(row, evals) }
    }

    /// One atom's entries of the decoder gradient and of the diagonal.
    fn beta_block(
        &self,
        residual: &Matrix<S>,
        lambda: &Vec<S>,
        table: &Vec<Vec<BasisEval<S>>>,
        atom: usize,
    ) -> (r: (Matrix<S>, Vec<S>))
        requires
            self.wf(),
            atom < self.k(),
            lambda@.len() == self.k(),
            self.table_fits(table@),
            residual.has_shape(self.rows(), self.width()),
        ensures
            r.0.has_shape(self.atom_seq()[atom as int].m() as nat, self.width()),
            forall|b: int, c: int|
                0 <= b < r.0.nrows() && 0 <= c < self.width() ==> #[trigger] r.0.at(b, c)
                    == self.beta_grad(residual, lambda@, table@, atom as int, b, c),
            r.1@.len() == self.atom_seq()[atom as int].m(),
            forall|b: int|
                0 <= b < r.1@.len() ==> #[trigger] r.1@[b] == self.beta_diag(
                    lambda@,
                    table@,
                    atom as int,
                    b,
                ),
    {
        proof {
            assert(self.atom_wf(atom as int));
        }
        let template: &SaeManifoldAtom<S> = self.atom(atom);
        let m: usize = template.basis_size();
        let width: usize = self.output_dim();
        let weight: S = lambda[atom];
        proof {
            template.decoder().lemma_size();
        }
        let penalty: &Matrix<S> = template.smooth_penalty();
        let sb: Matrix<S> = product(penalty, template.decoder_coefficients());
        let mut grad: Matrix<S> = Matrix::constant(m, width, S::zero());
        let mut diag: Vec<S> = crate::scalar::filled(m, S::zero());
        let uses: &Vec<(usize, usize)> = self.rows_of_atom(atom);
        let ghost a = atom as int;
        for e in 0..uses.len()
            invariant
                self.wf(),
                a == atom,
                atom < self.k(),
                uses@ == self.uses()[a],
                m == self.atom_seq()[a].m(),
                width == self.width(),
                self.table_fits(table@),
                residual.has_shape(self.rows(), self.width()),
                grad.has_shape(m as nat, width as nat),
                diag@.len() == m,
                forall|b: int, c: int|
                    0 <= b < m && 0 <= c < width ==> #[trigger] grad.at(b, c) == self.data_grad(
                        residual,
                        table@,
                        a,
                        b,
                        c,
                        e as int,
                    ),
                forall|b: int|
                    0 <= b < m ==> #[trigger] diag@[b] == self.data_diag(table@, a, b, e as int),
        {
            let (row, slot): (usize, usize) = uses[e];
            proof {
                self.lemma_use(a, e as int);
                assert(self.row_fits(table@[row as int]@, row as int));
                assert(table@[row as int]@[slot as int].has_shape(
                    self.active(row as int, slot as int).m() as nat,
                    self.active(row as int, slot as int).dim() as nat,
                ));
            }
            let phi: &Vec<S> = &table[row][slot].phi;
            for basis in 0..m
                invariant
                    a == atom,
                    atom < self.k(),
                    uses@ == self.uses()[a],
                    e < uses@.len(),
                    uses@[e as int] == (row, slot),
                    phi@ == self.use_phi(table@, a, e as int),
                    phi@.len() == m,
                    row < self.rows(),
                    width == self.width(),
                    residual.has_shape(self.rows(), self.width()),
                    grad.has_shape(m as nat, width as nat),
                    diag@.len() == m,
                    forall|b: int, c: int|
                        0 <= b < m && 0 <= c < width ==> #[trigger] grad.at(b, c)
                            == self.data_grad(
                            residual,
                            table@,
                            a,
                            b,
                            c,
                            if b < basis {
                                e + 1
                            } else {
                                e as int
                            },
                        ),
                    forall|b: int|
                        0 <= b < m ==> #[trigger] diag@[b] == self.data_diag(
                            table@,
                            a,
                            b,
                            if b < basis {
                                e + 1
                            } else {
                                e as int
                            },
                        ),
            {
                let bent: S = diag[basis].plus(phi[basis].times(phi[basis]));
                diag.set(basis, bent);
                for channel in 0..width
                    invariant
                        a == atom,
                        atom < self.k(),
                        uses@ == self.uses()[a],
                        e < uses@.len(),
                        uses@[e as int] == (row, slot),
                        phi@ == self.use_phi(table@, a, e as int),
                        phi@.len() == m,
                        basis < m,
                        row < self.rows(),
                        width == self.width(),
                        residual.has_shape(self.rows(), self.width()),
                        grad.has_shape(m as nat, width as nat),
                        forall|b: int, c: int|
                            0 <= b < m && 0 <= c < width ==> #[trigger] grad.at(b, c)
                                == self.data_grad(
                                residual,
                                table@,
                                a,
                                b,
                                c,
                                if b < basis || (b == basis && c < channel) {
                                    e + 1
                                } else {
                                    e as int
                                },
                            ),
                {
                    let value: S = grad.get(basis, channel).minus(
                        phi[basis].times(residual.get(row, channel)),
                    );
                    grad.set(basis, channel, value);
                }
            }
        }
        let ghost data = grad;
        let ghost bent = diag@;
        for basis in 0..m
            invariant
                grad.has_shape(m as nat, width as nat),
                data.has_shape(m as nat, width as nat),
                sb.has_shape(m as nat, width as nat),
                penalty.has_shape(m as nat, m as nat),
                diag@.len() == m,
                bent.len() == m,
                forall|b: int, c: int|
                    0 <= b < m && 0 <= c < width ==> #[trigger] grad.at(b, c) == (if b < basis {
                        data.at(b, c).s_plus(weight.s_times(sb.at(b, c)))
                    } else {
                        data.at(b, c)
                    }),
                forall|b: int|
                    0 <= b < m ==> #[trigger] diag@[b] == (if b < basis {
                        bent[b].s_plus(weight.s_times(penalty.at(b, b)))
                    } else {
                        bent[b]
                    }),
        {
            let value: S = diag[basis].plus(weight.times(penalty.get(basis, basis)));
            diag.set(basis, value);
            for channel in 0..width
                invariant
                    basis < m,
                    grad.has_shape(m as nat, width as nat),
                    data.has_shape(m as nat, width as nat),
                    sb.has_shape(m as nat, width as nat),
                    forall|b: int, c: int|
                        0 <= b < m && 0 <= c < width ==> #[trigger] grad.at(b, c) == (if b < basis
                            || (b == basis && c < channel) {
                            data.at(b, c).s_plus(weight.s_times(sb.at(b, c)))
                        } else {
                            data.at(b, c)
                        }),
            {
                let value: S = grad.get(basis, channel).plus(
                    weight.times(sb.get(basis, channel)),
                );
                grad.set(basis, channel, value);
            }
        }
        (grad, diag)
    }

    /// The linearised rows and the inverse of the support form an operator.
    proof fn lemma_operator_wf(
        &self,
        table: Seq<Vec<BasisEval<S>>>,
        op: &SupportBetaOperator<S>,
    )
        requires
            self.wf(),
            self.table_fits(table),
            is_layout(
                op.beta_offsets@,
                self.basis_sizes(),
                self.width(),
                op.beta_dim as nat,
            ),
            op.output_dim == self.width(),
            op.basis_sizes@ == self.basis_sizes(),
            op.lambda_smooth@.len() == self.k(),
            contents(op.atom_blocks@) == self.uses(),
            op.penalties@.len() == self.k(),
            forall|a: int|
                0 <= a < self.k() ==> (#[trigger] op.penalties@[a]).wf() && op.penalties@[a].same_as(
                    &self.atom_seq()[a].penalty(),
                ),
            op.rows@.len() == self.rows(),
            forall|r: int|
                0 <= r < self.rows() ==> self.is_linearized(
                    table[r]@,
                    r,
                    op.beta_offsets@,
                    #[trigger] op.rows@[r],
                ),
        ensures
            op.wf(),
    {
        let supports = self.state().supports();
        assert forall|q: int| 0 <= q < supports.len() implies (#[trigger] supports[q]).len()
            <= usize::MAX by {
            assert(1 <= self.support(q).len() <= self.state().mode_spec()->k);
        }
        assert(self.uses().len() == self.k());
        assert forall|a: int| 0 <= a < op.penalties@.len() implies (
        #[trigger] op.penalties@[a]).has_shape(
            op.basis_sizes@[a] as nat,
            op.basis_sizes@[a] as nat,
        ) by {
            assert(self.atom_wf(a));
        }
        assert forall|a: int| 0 <= a < op.atom_blocks@.len() implies #[trigger] op.lists_atom(a) by {
            law_uses_invert_the_support(supports, self.rows() as int, a);
            let entries = op.atom_blocks@[a]@;
            assert(entries == self.uses()[a]);
            assert forall|e: int| 0 <= e < entries.len() implies {
                &&& (#[trigger] entries[e]).0 < op.rows@.len()
                &&& entries[e].1 < op.rows@[entries[e].0 as int].blocks@.len()
                &&& op.block_is_of(entries[e].0 as int, entries[e].1 as int, a)
            } by {
                assert(is_use(supports, self.rows() as int, self.uses()[a][e], a));
                let r = entries[e].0 as int;
                let s = entries[e].1 as int;
                assert(self.is_linearized(table[r]@, r, op.beta_offsets@, op.rows@[r]));
                assert(self.row_fits(table[r]@, r));
                assert(table[r]@[s].has_shape(
                    self.active(r, s).m() as nat,
                    self.active(r, s).dim() as nat,
                ));
                assert(op.rows@[r].blocks@[s].beta_offset == op.beta_offsets@[a]);
            }
        }
        assert forall|r: int, b: int|
            0 <= r < op.rows@.len() && 0 <= b < op.rows@[r].blocks@.len() implies
            #[trigger] op.is_listed(r, b) by {
            assert(self.is_linearized(table[r]@, r, op.beta_offsets@, op.rows@[r]));
            let a = supports[r][b] as int;
            self.lemma_active(r, b);
            law_uses_invert_the_support(supports, self.rows() as int, a);
            assert(supports[r][b] == a);
            assert(self.uses()[a].contains((r as usize, b as usize)));
            let e = choose|e: int|
                0 <= e < self.uses()[a].len() && self.uses()[a][e] == (r as usize, b as usize);
            assert(op.atom_blocks@[a]@[e] == (r as usize, b as usize));
        }
    }

    /// Assembles the Gauss-Newton system at the given evaluations of the basis
    /// and of the prior.
    pub fn assemble_arrow_schur(
        &self,
        target: &Matrix<S>,
        lambda: &Vec<S>,
        ard: &Vec<Vec<S>>,
        table: &Vec<Vec<BasisEval<S>>>,
        priors: &Vec<Vec<Vec<PriorTerm<S>>>>,
    ) -> (r: Result<ArrowSchurSystem<S>, ArrowError>)
        requires
            self.wf(),
            target.wf(),
            self.table_fits(table@),
            self.priors_fit(priors@),
        ensures
            match r {
                Ok(system) => {
                    &&& self.assembly_fault(target, lambda@, ard@) is None
                    &&& beta_start(self.basis_sizes(), self.width(), self.k() as int)
                        <= usize::MAX
                    &&& exists|residual: Matrix<S>|
                        {
                            &&& #[trigger] self.is_residual(target, table@, &residual)
                            &&& self.is_assembled(&residual, lambda@, table@, priors@, &system)
                        }
                },
                Err(ArrowError::Layout(e)) => {
                    &&& self.assembly_fault(target, lambda@, ard@) is None
                    &&& is_layout_fault(self.basis_sizes(), self.width(), e)
                    &&& beta_start(self.basis_sizes(), self.width(), self.k() as int)
                        > usize::MAX
                },
                Err(error) => self.assembly_fault(target, lambda@, ard@) == Some(error),
            },
    {
        let residual: Matrix<S> = match self.raw_residual(target, table) {
            Ok(residual) => residual,
            Err(e) => {
                return Err(ArrowError::Shape(e));
            },
        };
        assert(self.is_residual(target, table@, &residual));
        if let Err(fault) = self.validate_smoothing(lambda) {
            return Err(ArrowError::Hyper(fault));
        }
        let k_atoms: usize = self.k_atoms();
        if ard.len() != k_atoms {
            return Err(
                ArrowError::Hyper(HyperFault::ArdLength { found: ard.len(), expected: k_atoms }),
            );
        }
        for atom in 0..k_atoms
            invariant
                self.wf(),
                k_atoms == self.k(),
                ard@.len() == k_atoms,
                self.first_strict_ard_fault(ard@, 0) == self.first_strict_ard_fault(
                    ard@,
                    atom as int,
                ),
                target.nrows() == self.rows(),
                target.ncols() == self.width(),
                self.smoothing_fault(lambda@) is None,
        {
            if ard[atom].len() != self.assignment().atom_coord_dim(atom) {
                assert(!self.ard_block_positive(ard@, atom as int));
                return Err(ArrowError::Hyper(HyperFault::ArdBlock { atom }));
            }
            if !all_positive(&ard[atom]) {
                assert(!self.ard_block_positive(ard@, atom as int));
                return Err(ArrowError::Hyper(HyperFault::ArdBlock { atom }));
            }
            assert(self.ard_block_positive(ard@, atom as int));
        }
        let (beta_offsets, beta_dim): (Vec<usize>, usize) = match self.beta_layout() {
            Ok(layout) => layout,
            Err(e) => {
                proof {
                    let sizes = self.basis_sizes();
                    let a = match e {
                        LayoutError::BlockOverflow { atom } => atom as int,
                        LayoutError::TotalOverflow { atom } => atom as int,
                    };
                    assert(beta_start(sizes, self.width(), a + 1) > usize::MAX);
                    lemma_beta_start_monotone(sizes, self.width(), a + 1, sizes.len() as int);
                }
                return Err(ArrowError::Layout(e));
            },
        };
        let n: usize = self.n_obs();
        let mut lines: Vec<SupportLinearizedRow<S>> = Vec::new();
        let mut rows: Vec<ArrowRow<S>> = Vec::new();
        for row in 0..n
            invariant
                self.wf(),
                n == self.rows(),
                self.table_fits(table@),
                self.priors_fit(priors@),
                residual.has_shape(self.rows(), self.width()),
                beta_offsets@.len() == self.k(),
                lines@.len() == row,
                rows@.len() == row,
                forall|r: int|
                    0 <= r < row ==> self.is_linearized(
                        table@[r]@,
                        r,
                        beta_offsets@,
                        #[trigger] lines@[r],
                    ),
                forall|r: int|
                    0 <= r < row ==> self.is_arrow_row(
                        lines@[r].jacobian@,
                        self.prior_list(priors@[r]@, r),
                        residual.row(r),
                        #[trigger] rows@[r],
                    ),
        {
            assert(self.row_fits(table@[row as int]@, row as int));
            assert(self.row_priors_fit(priors@[row as int]@, row as int));
            assert(self.state().row_wf(row as int));
            let line: SupportLinearizedRow<S> = self.linearized_row(
                row,
                &table[row],
                &beta_offsets,
            );
            let list: Vec<PriorTerm<S>> = self.row_prior_list(row, &priors[row]);
            let error: Vec<S> = matrix_row(&residual, row);
            let block: ArrowRow<S> = self.arrow_row(&line.jacobian, &list, &error);
            lines.push(line);
            rows.push(block);
        }
        let mut gb: Vec<S> = Vec::new();
        let mut hbb_diag: Vec<S> = Vec::new();
        let mut block_offsets: Vec<(usize, usize)> = Vec::new();
        let mut atom_blocks: Vec<Vec<(usize, usize)>> = Vec::new();
        let mut penalties: Vec<Matrix<S>> = Vec::new();
        let ghost sizes = self.basis_sizes();
        let ghost width = self.width();
        for atom in 0..k_atoms
            invariant
                self.wf(),
                k_atoms == self.k(),
                sizes == self.basis_sizes(),
                width == self.width(),
                lambda@.len() == k_atoms,
                self.table_fits(table@),
                residual.has_shape(self.rows(), self.width()),
                is_layout(beta_offsets@, sizes, width, beta_dim as nat),
                gb@.len() == beta_start(sizes, width, atom as int),
                hbb_diag@.len() == beta_start(sizes, width, atom as int),
                forall|a: int, b: int, c: int|
                    0 <= a < atom && 0 <= b < sizes[a] && 0 <= c < width
                        ==> #[trigger] gb@[beta_index(sizes, width, a, b, c)] == self.beta_grad(
                        &residual,
                        lambda@,
                        table@,
                        a,
                        b,
                        c,
                    ),
                forall|a: int, b: int, c: int|
                    0 <= a < atom && 0 <= b < sizes[a] && 0 <= c < width
                        ==> #[trigger] hbb_diag@[beta_index(sizes, width, a, b, c)]
                        == self.beta_diag(lambda@, table@, a, b),
                block_offsets@.len() == atom,
                forall|a: int|
                    0 <= a < atom ==> {
                        &&& (#[trigger] block_offsets@[a]).0 as nat == beta_start(sizes, width, a)
                        &&& block_offsets@[a].1 as nat == beta_start(sizes, width, a + 1)
                    },
                atom_blocks@.len() == atom,
                forall|a: int|
                    0 <= a < atom ==> (#[trigger] atom_blocks@[a])@ == self.uses()[a],
                penalties@.len() == atom,
                forall|a: int|
                    0 <= a < atom ==> (#[trigger] penalties@[a]).wf() && penalties@[a].same_as(
                        &self.atom_seq()[a].penalty(),
                    ),
        {
            proof {
                assert(self.atom_wf(atom as int));
                law_blocks_follow_one_another(sizes, width, atom as int, sizes.len() as int);
            }
            let (block, diag): (Matrix<S>, Vec<S>) = self.beta_block(
                &residual,
                lambda,
                table,
                atom,
            );
            let ghost gb_before = gb@;
            let ghost diag_before = hbb_diag@;
            push_matrix(&mut gb, &block);
            push_repeated(&mut hbb_diag, &diag, self.output_dim());
            proof {
                let start = beta_start(sizes, width, atom as int);
                assert forall|a: int, b: int, c: int|
                    0 <= a < atom + 1 && 0 <= b < sizes[a] && 0 <= c < width implies
                    #[trigger] gb@[beta_index(sizes, width, a, b, c)] == self.beta_grad(
                    &residual,
                    lambda@,
                    table@,
                    a,
                    b,
                    c,
                ) by {
                    lemma_beta_index_in_block(sizes, width, a, b, c);
                    if a < atom {
                        law_blocks_follow_one_another(sizes, width, a, atom as int);
                        assert(gb_before[beta_index(sizes, width, a, b, c)] == gb@[beta_index(
                            sizes,
                            width,
                            a,
                            b,
                            c,
                        )]);
                    } else {
                        assert(gb@[start + b * width + c] == block.at(b, c));
                    }
                }
                assert forall|a: int, b: int, c: int|
                    0 <= a < atom + 1 && 0 <= b < sizes[a] && 0 <= c < width implies
                    #[trigger] hbb_diag@[beta_index(sizes, width, a, b, c)] == self.beta_diag(
                    lambda@,
                    table@,
                    a,
                    b,
                ) by {
                    lemma_beta_index_in_block(sizes, width, a, b, c);
                    if a < atom {
                        law_blocks_follow_one_another(sizes, width, a, atom as int);
                        assert(diag_before[beta_index(sizes, width, a, b, c)]
                            == hbb_diag@[beta_index(sizes, width, a, b, c)]);
                    } else {
                        assert(hbb_diag@[start + b * width + c] == diag@[b]);
                    }
                }
            }
            let size: usize = self.atom_basis_size(atom) * self.output_dim();
            block_offsets.push((beta_offsets[atom], beta_offsets[atom] + size));
            atom_blocks.push(copied(self.rows_of_atom(atom)));
            penalties.push(self.atom(atom).smooth_penalty().copy());
        }
        let operator = SupportBetaOperator {
            rows: lines,
            atom_blocks,
            beta_offsets,
            basis_sizes: self.basis_size_list(),
            penalties,
            lambda_smooth: copied(lambda),
            output_dim: self.output_dim(),
            beta_dim,
        };
        proof {
            assert(self.uses().len() == self.k());
            assert(contents(operator.atom_blocks@) =~= self.uses());
            self.lemma_operator_wf(table@, &operator);
        }
        let system = ArrowSchurSystem { rows, gb, hbb_diag, block_offsets, operator };
        assert(self.is_assembled(&residual, lambda@, table@, priors@, &system));
        Ok(system)
    }
}

proof fn lemma_beta_start_monotone(sizes: Seq<usize>, width: nat, a: int, b: int)
    requires
        0 <= a <= b <= sizes.len(),
    ensures
        beta_start(sizes, width, a) <= beta_start(sizes, width, b),
{
    if a < b {
        law_blocks_follow_one_another(sizes, width, a, b);
        assert(0 <= sizes[a] as nat * width) by (nonlinear_arith);
    }
}

/// Row `i` of a matrix.
pub fn matrix_row<S: Scalar>(m: &Matrix<S>, i: usize) -> (r: Vec<S>)
    requires
        m.wf(),
        i < m.nrows(),
    ensures
        r@ == m.row(i as int),
{
    let cols: usize = m.col_count();
    let mut out: Vec<S> = Vec::new();
    for j in 0..cols
        invariant
            m.wf(),
            i < m.nrows(),
            cols == m.ncols(),
            out@ == m.row(i as int).take(j as int),
    {
        out.push(m.get(i, j));
        assert(out@ =~= m.row(i as int).take(j + 1));
    }
    assert(m.row(i as int).take(cols as int) =~= m.row(i as int));
    out
}

/// Appends a matrix, row after row.
fn push_matrix<S: Scalar>(out: &mut Vec<S>, block: &Matrix<S>)
    requires
        block.wf(),
    ensures
        final(out)@.len() == old(out)@.len() + block.nrows() * block.ncols(),
        forall|i: int| 0 <= i < old(out)@.len() ==> #[trigger] final(out)@[i] == old(out)@[i],
        forall|b: int, c: int|
            0 <= b < block.nrows() && 0 <= c < block.ncols()
                ==> #[trigger] final(out)@[old(out)@.len() + b * block.ncols() + c] == block.at(
                b,
                c,
            ),
{
    let rows: usize = block.row_count();
    let cols: usize = block.col_count();
    let ghost start = out@;
    assert(0 * cols == 0) by (nonlinear_arith);
    for i in 0..rows
        invariant
            block.has_shape(rows as nat, cols as nat),
            out@.len() == start.len() + i * cols,
            forall|k: int| 0 <= k < start.len() ==> #[trigger] out@[k] == start[k],
            forall|b: int, c: int|
                0 <= b < i && 0 <= c < cols ==> #[trigger] out@[start.len() + b * cols + c]
                    == block.at(b, c),
    {
        for j in 0..cols
            invariant
                block.has_shape(rows as nat, cols as nat),
                i < rows,
                out@.len() == start.len() + i * cols + j,
                forall|k: int| 0 <= k < start.len() ==> #[trigger] out@[k] == start[k],
                forall|b: int, c: int|
                    0 <= b <= i && 0 <= c < (if b < i {
                        cols as int
                    } else {
                        j as int
                    }) ==> #[trigger] out@[start.len() + b * cols + c] == block.at(b, c),
        {
            let ghost previous = out@;
            out.push(block.get(i, j));
            proof {
                assert(0 <= i * cols) by (nonlinear_arith);
                assert forall|b: int, c: int|
                    0 <= b <= i && 0 <= c < (if b < i {
                        cols as int
                    } else {
                        j + 1
                    }) implies #[trigger] out@[start.len() + b * cols + c] == block.at(b, c) by {
                    if b < i {
                        lemma_flat_index(i as int, cols as int, b, c);
                    }
                    assert(0 <= b * cols) by (nonlinear_arith)
                        requires
                            0 <= b,
                    ;
                    if b < i || c < j {
                        assert(previous[start.len() + b * cols + c] == block.at(b, c));
                    }
                }
            }
        }
        proof {
            assert((i + 1) * cols == i * cols + cols) by (nonlinear_arith);
        }
    }
}

/// Appends every value `width` times.
fn push_repeated<S: Scalar>(out: &mut Vec<S>, values: &Vec<S>, width: usize)
    ensures
        final(out)@.len() == old(out)@.len() + values@.len() * width,
        forall|i: int| 0 <= i < old(out)@.len() ==> #[trigger] final(out)@[i] == old(out)@[i],
        forall|b: int, c: int|
            0 <= b < values@.len() && 0 <= c < width
                ==> #[trigger] final(out)@[old(out)@.len() + b * width + c] == values@[b],
{
    let ghost start = out@;
    assert(0 * width == 0) by (nonlinear_arith);
    for i in 0..values.len()
        invariant
            out@.len() == start.len() + i * width,
            forall|k: int| 0 <= k < start.len() ==> #[trigger] out@[k] == start[k],
            forall|b: int, c: int|
                0 <= b < i && 0 <= c < width ==> #[trigger] out@[start.len() + b * width + c]
                    == values@[b],
    {
        for j in 0..width
            invariant
                i < values@.len(),
                out@.len() == start.len() + i * width + j,
                forall|k: int| 0 <= k < start.len() ==> #[trigger] out@[k] == start[k],
                forall|b: int, c: int|
                    0 <= b <= i && 0 <= c < (if b < i {
                        width as int
                    } else {
                        j as int
                    }) ==> #[trigger] out@[start.len() + b * width + c] == values@[b],
        {
            let ghost previous = out@;
            out.push(values[i]);
            proof {
                assert(0 <= i * width) by (nonlinear_arith);
                assert forall|b: int, c: int|
                    0 <= b <= i && 0 <= c < (if b < i {
                        width as int
                    } else {
                        j + 1
                    }) implies #[trigger] out@[start.len() + b * width + c] == values@[b] by {
                    if b < i {
                        lemma_flat_index(i as int, width as int, b, c);
                    }
                    assert(0 <= b * width) by (nonlinear_arith)
                        requires
                            0 <= b,
                    ;
                    if b < i || c < j {
                        assert(previous[start.len() + b * width + c] == values@[b]);
                    }
                }
            }
        }
        proof {
            assert((i + 1) * width == i * width + width) by (nonlinear_arith);
        }
    }
}

} // verus!
