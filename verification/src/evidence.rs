//! What an evidence factor and a smoother report: rows priced as a clamp basin,
//! spectrally deflated rows, the separation barrier's factored curvature, and the
//! null calibrations of a smoother.
use crate::arrow::SaeArrowVector;
use crate::matrix::Matrix;
use crate::scalar::{max_abs, s_grid_sum, s_line_sum, s_max, s_max_abs, s_sum, Scalar};
use crate::spectral::s_trace;
use vstd::prelude::*;

verus! {

/// A row's spectrum before and after it was conditioned.
#[derive(Debug)]
pub struct RowDeflationSpectrum<S> {
    pub raw_evals: Vec<S>,
    pub cond_evals: Vec<S>,
}

/// What an arrow factor records of its rows.
#[derive(Debug)]
pub struct ArrowFactorCache<S> {
    pub deflation_row_spectra: Vec<Option<RowDeflationSpectrum<S>>>,
    /// How many directions of each row were deflated.
    pub deflated_row_directions: Vec<usize>,
    /// The width of the border.
    pub k: usize,
    pub gauge_deflated_directions: usize,
}

/// The smaller of two lengths.
pub open spec fn shorter(a: nat, b: nat) -> nat {
    if a < b {
        a
    } else {
        b
    }
}

impl<S: Scalar> RowDeflationSpectrum<S> {
    /// Eigenvalue `i` was repriced by more than rounding.
    pub open spec fn moved(&self, i: int) -> bool {
        let raw = self.raw_evals@[i];
        let priced = self.cond_evals@[i];
        S::s_epsilon().s_times(
            raw.s_magnitude().s_larger(priced.s_magnitude()).s_larger(S::s_one()),
        ).s_below(raw.s_minus(priced).s_magnitude())
    }

    /// At least one eigenvalue was repriced.
    pub open spec fn repriced(&self) -> bool {
        exists|i: int|
            0 <= i < shorter(self.raw_evals@.len(), self.cond_evals@.len()) && #[trigger] self.moved(
                i,
            )
    }

    /// Whether at least one eigenvalue was repriced.
    pub fn is_repriced(&self) -> (r: bool)
        ensures
            r == self.repriced(),
    {
        let mut n: usize = self.raw_evals.len();
        if self.cond_evals.len() < n {
            n = self.cond_evals.len();
        }
        for i in 0..n
            invariant
                n == shorter(self.raw_evals@.len(), self.cond_evals@.len()),
                forall|j: int| 0 <= j < i ==> !#[trigger] self.moved(j),
        {
            let raw: S = self.raw_evals[i];
            let priced: S = self.cond_evals[i];
            let scale: S = raw.magnitude().larger(priced.magnitude()).larger(S::one());
            if S::epsilon().times(scale).below(raw.minus(priced).magnitude()) {
                assert(self.moved(i as int));
                return true;
            }
        }
        false
    }
}

impl<S: Scalar> ArrowFactorCache<S> {
    /// A row with a recorded, repriced spectrum and no deflated direction.
    pub open spec fn is_clamp_basin(&self, row: int) -> bool {
        &&& self.deflation_row_spectra@[row] is Some
        &&& self.deflated_row_directions@[row] == 0
        &&& self.deflation_row_spectra@[row]->0.repriced()
    }

    /// The clamp-basin rows among the first `n`.
    pub open spec fn clamp_rows(&self, n: int) -> Seq<usize>
        decreases n,
    {
        if n <= 0 {
            Seq::empty()
        } else if self.is_clamp_basin(n - 1) {
            self.clamp_rows(n - 1).push((n - 1) as usize)
        } else {
            self.clamp_rows(n - 1)
        }
    }

    /// How many of the first `n` rows carry a recorded spectrum.
    pub open spec fn spectral_rows(&self, n: int) -> nat
        decreases n,
    {
        if n <= 0 {
            0
        } else if self.deflation_row_spectra@[n - 1] is Some {
            self.spectral_rows(n - 1) + 1
        } else {
            self.spectral_rows(n - 1)
        }
    }

    /// There are spectral rows exactly when some row carries a spectrum.
    proof fn lemma_spectral_rows(&self, n: int)
        requires
            0 <= n <= self.deflation_row_spectra@.len(),
        ensures
            self.spectral_rows(n) <= n,
            self.spectral_rows(n) > 0 <==> exists|row: int|
                0 <= row < n && #[trigger] self.deflation_row_spectra@[row] is Some,
        decreases n,
    {
        if n > 0 {
            self.lemma_spectral_rows(n - 1);
            if self.deflation_row_spectra@[n - 1] is Some {
                assert(self.deflation_row_spectra@[n - 1] is Some);
            }
        }
    }
}

/// Rows recorded with a spectrum that reprices at least one eigenvalue and no
/// deflated direction. A spectrum that reprices nothing is not counted.
pub fn clamp_basin_rows<S: Scalar>(cache: &ArrowFactorCache<S>) -> (rows: Vec<usize>)
    ensures
        rows@ == cache.clamp_rows(
            shorter(
                cache.deflation_row_spectra@.len(),
                cache.deflated_row_directions@.len(),
            ) as int,
        ),
{
    let mut n: usize = cache.deflation_row_spectra.len();
    if cache.deflated_row_directions.len() < n {
        n = cache.deflated_row_directions.len();
    }
    let mut rows: Vec<usize> = Vec::new();
    for row in 0..n
        invariant
            n == shorter(
                cache.deflation_row_spectra@.len(),
                cache.deflated_row_directions@.len(),
            ),
            rows@ == cache.clamp_rows(row as int),
    {
        if let Some(spectrum) = &cache.deflation_row_spectra[row] {
            if cache.deflated_row_directions[row] == 0 && spectrum.is_repriced() {
                rows.push(row);
            }
        }
    }
    rows
}

/// The clamp-basin rows are exactly the rows of that shape, in ascending order.
pub proof fn law_clamp_rows_are_the_basins<S: Scalar>(cache: &ArrowFactorCache<S>, n: int)
    requires
        0 <= n <= usize::MAX + 1,
    ensures
        forall|i: int|
            0 <= i < cache.clamp_rows(n).len() ==> {
                &&& #[trigger] cache.clamp_rows(n)[i] < n
                &&& cache.is_clamp_basin(cache.clamp_rows(n)[i] as int)
            },
        forall|row: int|
            0 <= row < n && #[trigger] cache.is_clamp_basin(row) ==> cache.clamp_rows(n).contains(
                row as usize,
            ),
        forall|i: int, j: int|
            0 <= i < j < cache.clamp_rows(n).len() ==> #[trigger] cache.clamp_rows(n)[i]
                < #[trigger] cache.clamp_rows(n)[j],
    decreases n,
{
    if n > 0 {
        law_clamp_rows_are_the_basins(cache, n - 1);
        let before = cache.clamp_rows(n - 1);
        let after = cache.clamp_rows(n);
        assert forall|row: int| 0 <= row < n && #[trigger] cache.is_clamp_basin(
            row,
        ) implies after.contains(row as usize) by {
            if row == n - 1 {
                assert(after[after.len() - 1] == row as usize);
            } else {
                let i = choose|i: int| 0 <= i < before.len() && before[i] == row as usize;
                assert(after[i] == row as usize);
            }
        }
    }
}

/// Why a state is no fixture for spectral deflation.
#[derive(Clone, Copy, Debug, PartialEq, Eq, Structural)]
pub enum ColdStateFault {
    /// No row carries a recorded spectrum; so many gauge directions were
    /// deflated instead.
    NoSpectralRow { gauge_directions: usize },
    /// There is no border.
    NoBorder,
}

/// The spectrally deflated rows of a factor, counted; a factor without one, or
/// without a border, is refused.
pub fn spectrally_deflated_cold_state<S: Scalar>(cache: &ArrowFactorCache<S>) -> (r: Result<
    usize,
    ColdStateFault,
>)
    ensures
        ({
            let rows = cache.spectral_rows(cache.deflation_row_spectra@.len() as int);
            if rows == 0 {
                r == Err::<usize, ColdStateFault>(
                    ColdStateFault::NoSpectralRow {
                        gauge_directions: cache.gauge_deflated_directions,
                    },
                )
            } else if cache.k == 0 {
                r == Err::<usize, ColdStateFault>(ColdStateFault::NoBorder)
            } else {
                r is Ok && r->Ok_0 == rows
            }
        }),
        r is Ok ==> exists|row: int|
            0 <= row < cache.deflation_row_spectra@.len()
                && #[trigger] cache.deflation_row_spectra@[row] is Some,
{
    let mut rows: usize = 0;
    for row in 0..cache.deflation_row_spectra.len()
        invariant
            rows == cache.spectral_rows(row as int),
            rows <= row,
    {
        if cache.deflation_row_spectra[row].is_some() {
            rows = rows + 1;
        }
    }
    proof {
        cache.lemma_spectral_rows(cache.deflation_row_spectra@.len() as int);
    }
    if rows == 0 {
        Err(
            ColdStateFault::NoSpectralRow {
                gauge_directions: cache.gauge_deflated_directions,
            },
        )
    } else if cache.k == 0 {
        Err(ColdStateFault::NoBorder)
    } else {
        Ok(rows)
    }
}

/// One run of a carrier: an atom and the values on its decoder block.
#[derive(Debug)]
pub struct CarrierRun<S> {
    pub atom: usize,
    pub values: Vec<S>,
}

/// One component's curvature in factored form: the sum over its edges `a, b` of
/// `coupling[a, b] v_a v_b'`, where `v_a` is edge `a`'s carrier.
#[derive(Debug)]
pub struct SeparationBarrierCurvature<S> {
    pub coupling: Matrix<S>,
    pub carriers: Vec<Vec<CarrierRun<S>>>,
}

/// What the separation barrier adds to an empty system.
#[derive(Debug)]
pub struct BarrierOutcome<S> {
    /// Whether the barrier is active at all.
    pub active: bool,
    pub curvature: Vec<SeparationBarrierCurvature<S>>,
}

/// Why a barrier's curvature is refused.
#[derive(Clone, Copy, Debug, PartialEq, Eq, Structural)]
pub enum BarrierFault {
    /// The barrier is not active.
    Inactive,
}

/// The factored curvature that the barrier leaves behind; an inactive barrier is
/// refused.
pub fn deferred_curvature<S: Scalar>(outcome: BarrierOutcome<S>) -> (r: Result<
    Vec<SeparationBarrierCurvature<S>>,
    BarrierFault,
>)
    ensures
        r == (if outcome.active {
            Ok::<Vec<SeparationBarrierCurvature<S>>, BarrierFault>(outcome.curvature)
        } else {
            Err(BarrierFault::Inactive)
        }),
{
    if outcome.active {
        Ok(outcome.curvature)
    } else {
        Err(BarrierFault::Inactive)
    }
}

impl<S: Scalar> SeparationBarrierCurvature<S> {
    /// Every carrier is exactly the two atom blocks that its edge touches, in
    /// ascending order of the atoms; `widths` are the blocks' widths.
    pub open spec fn has_two_block_carriers(&self, widths: Seq<usize>) -> bool {
        &&& self.coupling.nrows() == self.carriers@.len()
        &&& self.coupling.ncols() == self.carriers@.len()
        &&& forall|e: int|
            0 <= e < self.carriers@.len() ==> #[trigger] is_two_block(self.carriers@[e]@, widths)
    }

    /// Whether every carrier is exactly two whole atom blocks.
    pub fn carriers_are_two_blocks(&self, widths: &Vec<usize>) -> (r: bool)
        ensures
            r == self.has_two_block_carriers(widths@),
    {
        let n: usize = self.carriers.len();
        if self.coupling.row_count() != n || self.coupling.col_count() != n {
            return false;
        }
        for e in 0..n
            invariant
                n == self.carriers@.len(),
                forall|a: int|
                    0 <= a < e ==> #[trigger] is_two_block(self.carriers@[a]@, widths@),
        {
            let runs: &Vec<CarrierRun<S>> = &self.carriers[e];
            let fits: bool = runs.len() == 2 && runs[0].atom < runs[1].atom && runs[1].atom
                < widths.len() && runs[0].values.len() == widths[runs[0].atom]
                && runs[1].values.len() == widths[runs[1].atom];
            if !fits {
                assert(!is_two_block(self.carriers@[e as int]@, widths@));
                return false;
            }
        }
        true
    }
}

/// `runs` are two whole blocks, of ascending atoms.
pub open spec fn is_two_block<S>(runs: Seq<CarrierRun<S>>, widths: Seq<usize>) -> bool {
    &&& runs.len() == 2
    &&& runs[0].atom < runs[1].atom < widths.len()
    &&& runs[0].values@.len() == widths[runs[0].atom as int]
    &&& runs[1].values@.len() == widths[runs[1].atom as int]
}

/// Why a null calibration is refused.
#[derive(Clone, Copy, Debug, PartialEq, Eq, Structural)]
pub enum NullEvFault {
    /// There are fewer than two rows.
    TooFewRows,
    /// The rank is zero or more than the number of rows.
    RankOutOfRange { n_rows: usize, rank: usize },
}

/// The explained variance that a free projection of the given rank has on
/// centered noise, `(rank - 1) / (n - 1)`.
pub fn centered_free_projection_null_ev<S: Scalar>(
    n_rows: usize,
    total_rank_including_intercept: usize,
) -> (r: Result<S, NullEvFault>)
    ensures
        r == (if n_rows < 2 {
            Err::<S, NullEvFault>(NullEvFault::TooFewRows)
        } else if total_rank_including_intercept == 0 || total_rank_including_intercept > n_rows {
            Err(NullEvFault::RankOutOfRange { n_rows, rank: total_rank_including_intercept })
        } else {
            Ok(
                S::s_count((total_rank_including_intercept - 1) as nat).s_over(
                    S::s_count((n_rows - 1) as nat),
                ),
            )
        }),
{
    if n_rows < 2 {
        return Err(NullEvFault::TooFewRows);
    }
    if total_rank_including_intercept == 0 || total_rank_including_intercept > n_rows {
        return Err(NullEvFault::RankOutOfRange { n_rows, rank: total_rank_including_intercept });
    }
    Ok(S::count(total_rank_including_intercept - 1).over(S::count(n_rows - 1)))
}

/// The three null quantities of a smoother with one eigenvalue `s`.
#[derive(Clone, Copy, Debug)]
pub struct SmootherNull<S> {
    /// The expected explained variance, `2 s - s s`.
    pub expected_ev: S,
    /// The trace of the influence, `s`.
    pub trace_influence: S,
    /// The expected output energy, `s s`.
    pub expected_output_energy: S,
}

/// The null quantities of a smoother with one eigenvalue.
pub fn smoother_null<S: Scalar>(eigenvalue: S) -> (r: SmootherNull<S>)
    ensures
        r.expected_ev == S::s_count(2).s_times(eigenvalue).s_minus(
            eigenvalue.s_times(eigenvalue),
        ),
        r.trace_influence == eigenvalue,
        r.expected_output_energy == eigenvalue.s_times(eigenvalue),
{
    let square: S = eigenvalue.times(eigenvalue);
    SmootherNull {
        expected_ev: S::count(2).times(eigenvalue).minus(square),
        trace_influence: eigenvalue,
        expected_output_energy: square,
    }
}

/// Why a concatenated design is refused.
#[derive(Clone, Copy, Debug, PartialEq, Eq, Structural)]
pub enum DesignFault {
    RowMismatch { atom: usize, found: usize },
    NonFinite { atom: usize },
    WidthOverflow,
}

/// Some entry is not finite.
pub open spec fn has_non_finite<S: Scalar>(m: &Matrix<S>) -> bool {
    exists|i: int, j: int|
        0 <= i < m.nrows() && 0 <= j < m.ncols() && !(#[trigger] m.at(i, j)).s_finite()
}

fn any_non_finite<S: Scalar>(m: &Matrix<S>) -> (r: bool)
    requires
        m.wf(),
    ensures
        r == has_non_finite(m),
{
    let rows: usize = m.row_count();
    let cols: usize = m.col_count();
    for i in 0..rows
        invariant
            m.wf(),
            rows == m.nrows(),
            cols == m.ncols(),
            forall|a: int, b: int|
                0 <= a < i && 0 <= b < cols ==> (#[trigger] m.at(a, b)).s_finite(),
    {
        for j in 0..cols
            invariant
                m.wf(),
                i < rows,
                rows == m.nrows(),
                cols == m.ncols(),
                forall|a: int, b: int|
                    0 <= a < i && 0 <= b < cols ==> (#[trigger] m.at(a, b)).s_finite(),
                forall|b: int| 0 <= b < j ==> (#[trigger] m.at(i as int, b)).s_finite(),
        {
            if !m.get(i, j).finite() {
                assert(!m.at(i as int, j as int).s_finite());
                return true;
            }
        }
    }
    false
}

/// The width of the first `n` designs, side by side.
pub open spec fn design_width<S>(designs: Seq<Matrix<S>>, n: int) -> nat
    decreases n,
{
    if n <= 0 {
        0
    } else {
        design_width(designs, n - 1) + designs[n - 1].ncols()
    }
}

/// The first fault of designs to be set side by side, from the `a`-th on.
pub open spec fn design_fault<S: Scalar>(
    designs: Seq<Matrix<S>>,
    n_rows: usize,
    a: int,
) -> Option<DesignFault>
    decreases designs.len() - a,
{
    if a < 0 || a >= designs.len() {
        None
    } else if designs[a].nrows() != n_rows {
        Some(DesignFault::RowMismatch { atom: a as usize, found: designs[a].nrows() as usize })
    } else if has_non_finite(&designs[a]) {
        Some(DesignFault::NonFinite { atom: a as usize })
    } else if design_width(designs, a + 1) > usize::MAX {
        Some(DesignFault::WidthOverflow)
    } else {
        design_fault(designs, n_rows, a + 1)
    }
}

/// Row `i` of the first `n` designs, side by side.
pub open spec fn joined_row<S>(designs: Seq<Matrix<S>>, i: int, n: int) -> Seq<S>
    decreases n,
{
    if n <= 0 {
        Seq::empty()
    } else {
        joined_row(designs, i, n - 1) + designs[n - 1].row(i)
    }
}

/// The designs side by side, as a list of rows; a design of another height or
/// with an entry that is not finite is refused.
pub fn concatenated_design<S: Scalar>(designs: &Vec<Matrix<S>>, n_rows: usize) -> (r: Result<
    Vec<Vec<S>>,
    DesignFault,
>)
    requires
        forall|a: int| 0 <= a < designs@.len() ==> (#[trigger] designs@[a]).wf(),
    ensures
        match design_fault(designs@, n_rows, 0) {
            Some(fault) => r == Err::<Vec<Vec<S>>, DesignFault>(fault),
            None => {
                &&& r is Ok
                &&& r->Ok_0@.len() == n_rows
                &&& forall|i: int|
                    0 <= i < n_rows ==> (#[trigger] r->Ok_0@[i])@ == joined_row(
                        designs@,
                        i,
                        designs@.len() as int,
                    )
            },
        },
{
    let mut width: usize = 0;
    for a in 0..designs.len()
        invariant
            forall|a: int| 0 <= a < designs@.len() ==> (#[trigger] designs@[a]).wf(),
            width == design_width(designs@, a as int),
            design_fault(designs@, n_rows, 0) == design_fault(designs@, n_rows, a as int),
            forall|b: int| 0 <= b < a ==> (#[trigger] designs@[b]).nrows() == n_rows,
    {
        let rows: usize = designs[a].row_count();
        if rows != n_rows {
            return Err(DesignFault::RowMismatch { atom: a, found: rows });
        }
        if any_non_finite(&designs[a]) {
            return Err(DesignFault::NonFinite { atom: a });
        }
        match width.checked_add(designs[a].col_count()) {
            Some(total) => {
                width = total;
            },
            None => {
                return Err(DesignFault::WidthOverflow);
            },
        }
    }
    let mut out: Vec<Vec<S>> = Vec::new();
    for i in 0..n_rows
        invariant
            forall|a: int| 0 <= a < designs@.len() ==> (#[trigger] designs@[a]).wf(),
            forall|b: int| 0 <= b < designs@.len() ==> (#[trigger] designs@[b]).nrows() == n_rows,
            out@.len() == i,
            forall|k: int|
                0 <= k < i ==> (#[trigger] out@[k])@ == joined_row(
                    designs@,
                    k,
                    designs@.len() as int,
                ),
    {
        let mut line: Vec<S> = Vec::new();
        for a in 0..designs.len()
            invariant
                i < n_rows,
                forall|a: int| 0 <= a < designs@.len() ==> (#[trigger] designs@[a]).wf(),
                forall|b: int|
                    0 <= b < designs@.len() ==> (#[trigger] designs@[b]).nrows() == n_rows,
                line@ == joined_row(designs@, i as int, a as int),
        {
            let cols: usize = designs[a].col_count();
            let ghost before = line@;
            for j in 0..cols
                invariant
                    i < n_rows,
                    a < designs@.len(),
                    designs@[a as int].wf(),
                    designs@[a as int].nrows() == n_rows,
                    cols == designs@[a as int].ncols(),
                    line@ == before + designs@[a as int].row(i as int).take(j as int),
            {
                line.push(designs[a].get(i, j));
                assert(line@ =~= before + designs@[a as int].row(i as int).take(j + 1));
            }
            assert(designs@[a as int].row(i as int).take(cols as int) =~= designs@[a as int].row(
                i as int,
            ));
        }
        out.push(line);
    }
    Ok(out)
}

/// The largest of a list of singular values.
pub open spec fn s_largest<S: Scalar>(values: Seq<S>) -> S {
    s_max(S::s_zero(), values.len() as int, |i: int| values[i])
}

/// How many of the first `n` values exceed a cutoff.
pub open spec fn count_above<S: Scalar>(values: Seq<S>, cutoff: S, n: int) -> nat
    decreases n,
{
    if n <= 0 {
        0
    } else if cutoff.s_below(values[n - 1]) {
        count_above(values, cutoff, n - 1) + 1
    } else {
        count_above(values, cutoff, n - 1)
    }
}

/// The rank that a list of singular values shows: how many exceed `relative`
/// times the largest. It is zero when the largest is zero.
pub fn rank_of_singular_values<S: Scalar>(values: &Vec<S>, relative: S) -> (r: usize)
    ensures
        r == (if s_largest(values@).s_same(S::s_zero()) {
            0
        } else {
            count_above(values@, relative.s_times(s_largest(values@)), values@.len() as int)
        }),
{
    let mut largest: S = S::zero();
    let ghost f = |i: int| values@[i];
    for i in 0..values.len()
        invariant
            f == (|i: int| values@[i]),
            largest == s_max(S::s_zero(), i as int, f),
    {
        largest = largest.larger(values[i]);
    }
    if largest.same(S::zero()) {
        return 0;
    }
    let cutoff: S = relative.times(largest);
    let mut count: usize = 0;
    for i in 0..values.len()
        invariant
            count == count_above(values@, cutoff, i as int),
            count <= i,
    {
        if cutoff.below(values[i]) {
            count = count + 1;
        }
    }
    count
}

/// Entry `(i, j)` of `I - R`.
pub open spec fn s_complement_at<S: Scalar>(m: &Matrix<S>, i: int, j: int) -> S {
    if i == j {
        S::s_one().s_minus(m.at(i, j))
    } else {
        m.at(i, j).s_negate()
    }
}

/// The squared Frobenius norm of `I - R`.
pub open spec fn s_residual_dof<S: Scalar>(m: &Matrix<S>) -> S {
    s_grid_sum(
        S::s_zero(),
        m.nrows() as int,
        m.ncols() as int,
        |i: int, j: int| s_complement_at(m, i, j).s_times(s_complement_at(m, i, j)),
    )
}

/// The trace of a response matrix `R`, and the squared norm of `I - R`.
pub fn trace_and_residual_dof<S: Scalar>(response: &Matrix<S>) -> (r: (S, S))
    requires
        response.wf(),
        response.nrows() <= response.ncols(),
    ensures
        r.0 == s_trace(response),
        r.1 == s_residual_dof(response),
{
    let rows: usize = response.row_count();
    let cols: usize = response.col_count();
    let mut trace: S = S::zero();
    let ghost f = |i: int| response.at(i, i);
    for i in 0..rows
        invariant
            response.wf(),
            rows == response.nrows(),
            rows <= response.ncols(),
            f == (|i: int| response.at(i, i)),
            trace == s_sum(S::s_zero(), i as int, f),
    {
        trace = trace.plus(response.get(i, i));
    }
    let mut dof: S = S::zero();
    let ghost g = |i: int, j: int|
        s_complement_at(response, i, j).s_times(s_complement_at(response, i, j));
    for i in 0..rows
        invariant
            response.wf(),
            rows == response.nrows(),
            cols == response.ncols(),
            g == (|i: int, j: int|
                s_complement_at(response, i, j).s_times(s_complement_at(response, i, j))),
            dof == s_grid_sum(S::s_zero(), i as int, cols as int, g),
    {
        let ghost start = dof;
        for j in 0..cols
            invariant
                response.wf(),
                i < rows,
                rows == response.nrows(),
                cols == response.ncols(),
                g == (|i: int, j: int|
                    s_complement_at(response, i, j).s_times(s_complement_at(response, i, j))),
                dof == s_line_sum(start, i as int, j as int, g),
        {
            let value: S = response.get(i, j);
            let entry: S = if i == j {
                S::one().minus(value)
            } else {
                value.negate()
            };
            dof = dof.plus(entry.times(entry));
        }
    }
    (trace, dof)
}

/// The largest relative gap of the first `n` entries, from `start` on.
pub open spec fn s_entry_gap<S: Scalar>(start: S, reference: Seq<S>, actual: Seq<S>) -> S {
    s_max(
        start,
        reference.len() as int,
        |i: int|
            reference[i].s_minus(actual[i]).s_magnitude().s_over(
                S::s_one().s_plus(reference[i].s_magnitude()),
            ),
    )
}

fn entry_gap<S: Scalar>(start: S, reference: &Vec<S>, actual: &Vec<S>) -> (r: S)
    requires
        reference@.len() == actual@.len(),
    ensures
        r == s_entry_gap(start, reference@, actual@),
{
    let mut gap: S = start;
    let ghost f = |i: int|
        reference@[i].s_minus(actual@[i]).s_magnitude().s_over(
            S::s_one().s_plus(reference@[i].s_magnitude()),
        );
    for i in 0..reference.len()
        invariant
            reference@.len() == actual@.len(),
            f == (|i: int|
                reference@[i].s_minus(actual@[i]).s_magnitude().s_over(
                    S::s_one().s_plus(reference@[i].s_magnitude()),
                )),
            gap == s_max(start, i as int, f),
    {
        let expected: S = reference[i];
        gap = gap.larger(
            expected.minus(actual[i]).magnitude().over(S::one().plus(expected.magnitude())),
        );
    }
    gap
}

/// How far two arrow vectors are apart, entry by entry and relative to the
/// reference, and the reference's largest entry.
pub fn adjoint_gap<S: Scalar>(reference: &SaeArrowVector<S>, actual: &SaeArrowVector<S>) -> (r: (
    S,
    S,
))
    requires
        reference.t@.len() == actual.t@.len(),
        reference.beta@.len() == actual.beta@.len(),
    ensures
        r.0 == s_entry_gap(
            s_entry_gap(S::s_zero(), reference.t@, actual.t@),
            reference.beta@,
            actual.beta@,
        ),
        r.1 == s_max_abs(reference.t@).s_larger(s_max_abs(reference.beta@)),
{
    let gap: S = entry_gap(S::zero(), &reference.t, &actual.t);
    let scale: S = max_abs(&reference.t).larger(max_abs(&reference.beta));
    (entry_gap(gap, &reference.beta, &actual.beta), scale)
}

} // verus!
