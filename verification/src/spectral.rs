//! Penalised normal equations and effective degrees of freedom.
//!
//! `G + lambda S` is never formed. A large `lambda` would set the matrix's own
//! rank floor above the information `G` has in the null space of `S`. Rotating
//! into the eigenbasis of `S` and scaling each mode by `1 / sqrt(1 + lambda s)`
//! takes `lambda` out of the conditioning: what the penalty contributes lies
//! between zero and one for every `lambda`.
//!
//! The symmetric eigendecompositions are made elsewhere. Each step here takes
//! one and says which matrix is to be decomposed next.
use crate::matrix::{
    is_matrix_product, is_symmetric_part, is_transposed_product, matrix_max_abs, product,
    s_matrix_max_abs, symmetric_part, transposed_product, Matrix,
};
use crate::scalar::{at_least_one, copied, count_at_least_one, max_abs, s_max_abs, s_sum, Scalar};
use vstd::prelude::*;

verus! {

/// Eigenvalues and, column by column, eigenvectors of a symmetric matrix.
#[derive(Debug)]
pub struct Eigen<S> {
    pub values: Vec<S>,
    pub vectors: Matrix<S>,
}

impl<S> Eigen<S> {
    pub open spec fn has_size(&self, m: nat) -> bool {
        self.values@.len() == m && self.vectors.has_shape(m, m)
    }
}

/// Why an equation is not solved.
#[derive(Clone, Copy, Debug, PartialEq, Eq, Structural)]
pub enum SolveError {
    /// The matrix is not square, or the right-hand side has other rows.
    SystemShape,
    /// The penalty's shape is not the matrix's.
    PenaltyShape,
    /// The smoothing strength is negative or not finite.
    Smoothing,
    /// The penalty has a negative direction.
    PenaltyNotPsd,
    /// The matrix has a negative direction.
    NotPsd,
    /// The right-hand side reaches into the matrix's null space.
    NullComponent,
}

/// The level below which an eigenvalue, or an entry, of this scale is noise.
pub open spec fn s_noise_floor<S: Scalar>(scale: S, m: nat) -> S {
    S::s_epsilon().s_times(scale).s_times(S::s_count(at_least_one(m)))
}

pub fn noise_floor<S: Scalar>(scale: S, m: usize) -> (r: S)
    ensures
        r == s_noise_floor(scale, m as nat),
{
    S::epsilon().times(scale).times(count_at_least_one::<S>(m))
}

/// No value lies below `-floor`.
pub open spec fn none_below<S: Scalar>(values: Seq<S>, floor: S) -> bool {
    forall|i: int| 0 <= i < values.len() ==> !(#[trigger] values[i]).s_below(floor.s_negate())
}

fn check_none_below<S: Scalar>(values: &Vec<S>, floor: S) -> (r: bool)
    ensures
        r == none_below(values@, floor),
{
    let bound: S = floor.negate();
    for i in 0..values.len()
        invariant
            bound == floor.s_negate(),
            forall|j: int| 0 <= j < i ==> !(#[trigger] values@[j]).s_below(bound),
    {
        if values[i].below(bound) {
            assert(values@[i as int].s_below(floor.s_negate()));
            return false;
        }
    }
    true
}

/// A mode that is kept: its eigenvalue is above the noise floor.
pub open spec fn is_resolved<S: Scalar>(eigen: &Eigen<S>, mode: int) -> bool {
    s_noise_floor(s_max_abs(eigen.values@), eigen.values@.len()).s_below(eigen.values@[mode])
}

/// Some entry of a row is above `floor` in magnitude.
pub open spec fn row_exceeds<S: Scalar>(m: &Matrix<S>, row: int, floor: S) -> bool {
    exists|c: int| 0 <= c < m.ncols() && floor.s_below((#[trigger] m.at(row, c)).s_magnitude())
}

/// The right-hand side reaches into the null space: a mode that is not resolved
/// carries more than noise.
pub open spec fn reaches_null_space<S: Scalar>(
    eigen: &Eigen<S>,
    rhs: &Matrix<S>,
    projected: &Matrix<S>,
) -> bool {
    exists|mode: int|
        0 <= mode < eigen.values@.len() && !is_resolved(eigen, mode) && #[trigger] row_exceeds(
            projected,
            mode,
            s_noise_floor(s_matrix_max_abs(rhs), eigen.values@.len()),
        )
}

/// `scaled` divides each resolved mode of `projected` by its eigenvalue and
/// drops the others.
pub open spec fn is_mode_quotient<S: Scalar>(
    eigen: &Eigen<S>,
    projected: &Matrix<S>,
    scaled: &Matrix<S>,
) -> bool {
    &&& scaled.has_shape(projected.nrows(), projected.ncols())
    &&& forall|mode: int, c: int|
        0 <= mode < scaled.nrows() && 0 <= c < scaled.ncols() ==> #[trigger] scaled.at(mode, c)
            == (if is_resolved(eigen, mode) {
            projected.at(mode, c).s_over(eigen.values@[mode])
        } else {
            S::s_zero()
        })
}

/// `out` is the minimum-norm solution: the right-hand side in the eigenbasis,
/// divided mode by mode, and rotated back.
pub open spec fn is_minimum_norm_solution<S: Scalar>(
    eigen: &Eigen<S>,
    rhs: &Matrix<S>,
    out: &Matrix<S>,
) -> bool {
    exists|projected: Matrix<S>, scaled: Matrix<S>|
        {
            &&& is_transposed_product(&eigen.vectors, rhs, &projected)
            &&& !reaches_null_space(eigen, rhs, &projected)
            &&& #[trigger] is_mode_quotient(eigen, &projected, &scaled)
            &&& is_matrix_product(&eigen.vectors, &scaled, out)
        }
}

/// The matrix whose eigendecomposition a minimum-norm solve needs.
pub fn psd_solve_request<S: Scalar>(gram: &Matrix<S>, rhs: &Matrix<S>) -> (r: Result<
    Matrix<S>,
    SolveError,
>)
    requires
        gram.wf(),
        rhs.wf(),
    ensures
        r is Ok <==> gram.ncols() == gram.nrows() && rhs.nrows() == gram.nrows(),
        r matches Ok(m) ==> is_symmetric_part(gram, &m),
        r matches Err(e) ==> e == SolveError::SystemShape,
{
    if gram.col_count() != gram.row_count() || rhs.row_count() != gram.row_count() {
        return Err(SolveError::SystemShape);
    }
    Ok(symmetric_part(gram))
}

/// The minimum-norm solution of a symmetric positive semidefinite equation,
/// given the eigendecomposition of its matrix. A negative direction is refused,
/// and so is a right-hand side with a component in the null space.
pub fn solve_psd_minimum_norm<S: Scalar>(rhs: &Matrix<S>, eigen: &Eigen<S>) -> (r: Result<
    Matrix<S>,
    SolveError,
>)
    requires
        rhs.wf(),
        eigen.has_size(rhs.nrows()),
    ensures
        match r {
            Ok(out) => {
                &&& none_below(
                    eigen.values@,
                    s_noise_floor(s_max_abs(eigen.values@), eigen.values@.len()),
                )
                &&& is_minimum_norm_solution(eigen, rhs, &out)
                &&& out.has_shape(rhs.nrows(), rhs.ncols())
            },
            Err(SolveError::NotPsd) => !none_below(
                eigen.values@,
                s_noise_floor(s_max_abs(eigen.values@), eigen.values@.len()),
            ),
            Err(SolveError::NullComponent) => {
                &&& none_below(
                    eigen.values@,
                    s_noise_floor(s_max_abs(eigen.values@), eigen.values@.len()),
                )
                &&& exists|projected: Matrix<S>|
                    {
                        &&& #[trigger] is_transposed_product(&eigen.vectors, rhs, &projected)
                        &&& reaches_null_space(eigen, rhs, &projected)
                    }
            },
            Err(_) => false,
        },
{
    let m: usize = rhs.row_count();
    let cols: usize = rhs.col_count();
    let tolerance: S = noise_floor(max_abs(&eigen.values), m);
    if !check_none_below(&eigen.values, tolerance) {
        return Err(SolveError::NotPsd);
    }
    proof {
        rhs.lemma_size();
    }
    let projected: Matrix<S> = transposed_product(&eigen.vectors, rhs);
    let rhs_tolerance: S = noise_floor(matrix_max_abs(rhs), m);
    let mut scaled: Matrix<S> = Matrix::constant(m, cols, S::zero());
    for mode in 0..m
        invariant
            m == rhs.nrows(),
            cols == rhs.ncols(),
            eigen.has_size(m as nat),
            tolerance == s_noise_floor(s_max_abs(eigen.values@), eigen.values@.len()),
            rhs_tolerance == s_noise_floor(s_matrix_max_abs(rhs), eigen.values@.len()),
            none_below(
                eigen.values@,
                s_noise_floor(s_max_abs(eigen.values@), eigen.values@.len()),
            ),
            projected.has_shape(m as nat, cols as nat),
            is_transposed_product(&eigen.vectors, rhs, &projected),
            scaled.has_shape(m as nat, cols as nat),
            forall|i: int, c: int|
                0 <= i < m && 0 <= c < cols ==> #[trigger] scaled.at(i, c) == (if i < mode
                    && is_resolved(eigen, i) {
                    projected.at(i, c).s_over(eigen.values@[i])
                } else {
                    S::s_zero()
                }),
            forall|i: int|
                0 <= i < mode && !is_resolved(eigen, i) ==> !#[trigger] row_exceeds(
                    &projected,
                    i,
                    rhs_tolerance,
                ),
    {
        let value: S = eigen.values[mode];
        if tolerance.below(value) {
            assert(is_resolved(eigen, mode as int));
            for c in 0..cols
                invariant
                    mode < m,
                    eigen.has_size(m as nat),
                    value == eigen.values@[mode as int],
                    is_resolved(eigen, mode as int),
                    projected.has_shape(m as nat, cols as nat),
                    scaled.has_shape(m as nat, cols as nat),
                    forall|i: int, j: int|
                        0 <= i < m && 0 <= j < cols ==> #[trigger] scaled.at(i, j) == (if (i < mode
                            || (i == mode && j < c)) && is_resolved(eigen, i) {
                            projected.at(i, j).s_over(eigen.values@[i])
                        } else {
                            S::s_zero()
                        }),
            {
                scaled.set(mode, c, projected.get(mode, c).over(value));
            }
        } else {
            assert(!is_resolved(eigen, mode as int));
            for c in 0..cols
                invariant
                    mode < m,
                    m == rhs.nrows(),
                    eigen.has_size(m as nat),
                    !is_resolved(eigen, mode as int),
                    none_below(
                        eigen.values@,
                        s_noise_floor(s_max_abs(eigen.values@), eigen.values@.len()),
                    ),
                    rhs_tolerance == s_noise_floor(s_matrix_max_abs(rhs), eigen.values@.len()),
                    projected.has_shape(m as nat, cols as nat),
                    is_transposed_product(&eigen.vectors, rhs, &projected),
                    forall|j: int|
                        0 <= j < c ==> !rhs_tolerance.s_below(
                            (#[trigger] projected.at(mode as int, j)).s_magnitude(),
                        ),
            {
                if rhs_tolerance.below(projected.get(mode, c).magnitude()) {
                    proof {
                        assert(rhs_tolerance.s_below(
                            projected.at(mode as int, c as int).s_magnitude(),
                        ));
                        assert(row_exceeds(&projected, mode as int, rhs_tolerance));
                        assert(reaches_null_space(eigen, rhs, &projected));
                    }
                    return Err(SolveError::NullComponent);
                }
            }
            assert(!row_exceeds(&projected, mode as int, rhs_tolerance));
        }
    }
    proof {
        assert(is_mode_quotient(eigen, &projected, &scaled));
        assert(!reaches_null_space(eigen, rhs, &projected));
    }
    let out: Matrix<S> = product(&eigen.vectors, &scaled);
    proof {
        assert(is_minimum_norm_solution(eigen, rhs, &out));
    }
    Ok(out)
}

/// The eigenvalue of a mode of the penalty; rounding can put one a hair below
/// zero, and such a mode carries no penalty.
pub open spec fn s_mode_penalty<S: Scalar>(penalty: &Eigen<S>, mode: int) -> S {
    penalty.values@[mode].s_larger(S::s_zero())
}

/// `1 / sqrt(1 + lambda s)` of a mode.
pub open spec fn s_mode_scale<S: Scalar>(penalty: &Eigen<S>, lambda: S, mode: int) -> S {
    S::s_one().s_over(
        S::s_one().s_plus(lambda.s_times(s_mode_penalty(penalty, mode))).s_root(),
    )
}

fn mode_scale<S: Scalar>(penalty: &Eigen<S>, lambda: S, mode: usize) -> (r: S)
    requires
        mode < penalty.values@.len(),
    ensures
        r == s_mode_scale(penalty, lambda, mode as int),
{
    let s: S = penalty.values[mode].larger(S::zero());
    S::one().over(S::one().plus(lambda.times(s)).root())
}

/// `rotated` is `U' G U`.
pub open spec fn is_rotated<S: Scalar>(
    basis: &Matrix<S>,
    gram: &Matrix<S>,
    rotated: &Matrix<S>,
) -> bool {
    exists|half_way: Matrix<S>|
        {
            &&& #[trigger] is_transposed_product(basis, gram, &half_way)
            &&& is_matrix_product(&half_way, basis, rotated)
        }
}

/// `U' G U`.
pub fn rotate<S: Scalar>(basis: &Matrix<S>, gram: &Matrix<S>) -> (rotated: Matrix<S>)
    requires
        gram.wf(),
        gram.nrows() == gram.ncols(),
        basis.has_shape(gram.nrows(), gram.nrows()),
    ensures
        is_rotated(basis, gram, &rotated),
        rotated.has_shape(gram.nrows(), gram.nrows()),
{
    proof {
        gram.lemma_size();
    }
    let half_way: Matrix<S> = transposed_product(basis, gram);
    product(&half_way, basis)
}

/// A penalised equation in the penalty's eigenbasis, with every mode scaled.
#[derive(Debug)]
pub struct ScaledSystem<S> {
    pub matrix: Matrix<S>,
    pub rhs: Matrix<S>,
}

/// The matrix whose eigendecomposition starts a penalised solve.
pub fn penalty_request<S: Scalar>(
    gram: &Matrix<S>,
    penalty: &Matrix<S>,
    lambda: S,
) -> (r: Result<Matrix<S>, SolveError>)
    requires
        gram.wf(),
        penalty.wf(),
    ensures
        match r {
            Ok(m) => {
                &&& penalty.nrows() == gram.nrows() && penalty.ncols() == gram.nrows()
                &&& S::s_zero().s_at_most(lambda) && lambda.s_finite()
                &&& is_symmetric_part(penalty, &m)
            },
            Err(SolveError::PenaltyShape) => penalty.nrows() != gram.nrows() || penalty.ncols()
                != gram.nrows(),
            Err(SolveError::Smoothing) => {
                &&& penalty.nrows() == gram.nrows() && penalty.ncols() == gram.nrows()
                &&& !(S::s_zero().s_at_most(lambda) && lambda.s_finite())
            },
            Err(_) => false,
        },
{
    let m: usize = gram.row_count();
    if penalty.row_count() != m || penalty.col_count() != m {
        return Err(SolveError::PenaltyShape);
    }
    if !S::zero().at_most(lambda) || !lambda.finite() {
        return Err(SolveError::Smoothing);
    }
    Ok(symmetric_part(penalty))
}

/// `system` is the penalised equation in the penalty's eigenbasis, scaled.
pub open spec fn is_scaled_system<S: Scalar>(
    gram: &Matrix<S>,
    rhs: &Matrix<S>,
    lambda: S,
    penalty: &Eigen<S>,
    system: &ScaledSystem<S>,
) -> bool {
    exists|rotated: Matrix<S>, turned: Matrix<S>|
        {
            &&& #[trigger] is_rotated(&penalty.vectors, gram, &rotated)
            &&& #[trigger] is_transposed_product(&penalty.vectors, rhs, &turned)
            &&& system.matrix.has_shape(gram.nrows(), gram.nrows())
            &&& forall|i: int, j: int|
                0 <= i < gram.nrows() && 0 <= j < gram.nrows() ==> #[trigger] system.matrix.at(
                    i,
                    j,
                ) == s_scaled_entry(&rotated, penalty, lambda, i, j)
            &&& system.rhs.has_shape(rhs.nrows(), rhs.ncols())
            &&& forall|i: int, c: int|
                0 <= i < rhs.nrows() && 0 <= c < rhs.ncols() ==> #[trigger] system.rhs.at(i, c)
                    == turned.at(i, c).s_times(s_mode_scale(penalty, lambda, i))
        }
}

/// Entry `(i, j)` of the scaled matrix: `G` scaled on both sides, and on the
/// diagonal the share that the penalty holds, up to and including its limit.
pub open spec fn s_scaled_entry<S: Scalar>(
    rotated: &Matrix<S>,
    penalty: &Eigen<S>,
    lambda: S,
    i: int,
    j: int,
) -> S {
    let data = rotated.at(i, j).s_times(s_mode_scale(penalty, lambda, i)).s_times(
        s_mode_scale(penalty, lambda, j),
    );
    if i == j {
        data.s_plus(s_penalty_fraction(penalty, lambda, i))
    } else {
        data
    }
}

/// Rotates and scales a penalised equation, given the penalty's
/// eigendecomposition. A penalty with a negative direction is refused.
pub fn scale_system<S: Scalar>(
    gram: &Matrix<S>,
    rhs: &Matrix<S>,
    lambda: S,
    penalty: &Eigen<S>,
) -> (r: Result<ScaledSystem<S>, SolveError>)
    requires
        gram.wf(),
        gram.nrows() == gram.ncols(),
        rhs.wf(),
        rhs.nrows() == gram.nrows(),
        penalty.has_size(gram.nrows()),
    ensures
        match r {
            Ok(system) => {
                &&& none_below(
                    penalty.values@,
                    s_noise_floor(s_max_abs(penalty.values@), penalty.values@.len()),
                )
                &&& is_scaled_system(gram, rhs, lambda, penalty, &system)
                &&& system.matrix.has_shape(gram.nrows(), gram.nrows())
                &&& system.rhs.has_shape(rhs.nrows(), rhs.ncols())
            },
            Err(e) => {
                &&& e == SolveError::PenaltyNotPsd
                &&& !none_below(
                    penalty.values@,
                    s_noise_floor(s_max_abs(penalty.values@), penalty.values@.len()),
                )
            },
        },
{
    let m: usize = gram.row_count();
    let cols: usize = rhs.col_count();
    if !check_none_below(&penalty.values, noise_floor(max_abs(&penalty.values), m)) {
        return Err(SolveError::PenaltyNotPsd);
    }
    let rotated: Matrix<S> = rotate(&penalty.vectors, gram);
    proof {
        rhs.lemma_size();
    }
    let turned: Matrix<S> = transposed_product(&penalty.vectors, rhs);
    let mut matrix: Matrix<S> = rotated.copy();
    for i in 0..m
        invariant
            penalty.has_size(m as nat),
            rotated.has_shape(m as nat, m as nat),
            matrix.has_shape(m as nat, m as nat),
            forall|a: int, b: int|
                0 <= a < i && 0 <= b < m ==> #[trigger] matrix.at(a, b) == s_scaled_entry(
                    &rotated,
                    penalty,
                    lambda,
                    a,
                    b,
                ),
    {
        let left: S = mode_scale(penalty, lambda, i);
        for j in 0..m
            invariant
                i < m,
                penalty.has_size(m as nat),
                left == s_mode_scale(penalty, lambda, i as int),
                rotated.has_shape(m as nat, m as nat),
                matrix.has_shape(m as nat, m as nat),
                forall|a: int, b: int|
                    0 <= a < m && 0 <= b < m && (a < i || (a == i && b < j))
                        ==> #[trigger] matrix.at(a, b) == s_scaled_entry(
                        &rotated,
                        penalty,
                        lambda,
                        a,
                        b,
                    ),
        {
            let mut value: S = rotated.get(i, j).times(left).times(mode_scale(penalty, lambda, j));
            if i == j {
                value = value.plus(penalty_fraction(penalty, lambda, i));
            }
            matrix.set(i, j, value);
        }
    }
    let scaled_rhs: Matrix<S> = scale_rows(&turned, lambda, penalty);
    let system = ScaledSystem { matrix, rhs: scaled_rhs };
    assert(is_scaled_system(gram, rhs, lambda, penalty, &system));
    Ok(system)
}

/// Multiplies every row by its mode's scale.
fn scale_rows<S: Scalar>(m: &Matrix<S>, lambda: S, penalty: &Eigen<S>) -> (out: Matrix<S>)
    requires
        m.wf(),
        penalty.has_size(m.nrows()),
    ensures
        out.has_shape(m.nrows(), m.ncols()),
        forall|i: int, c: int|
            0 <= i < m.nrows() && 0 <= c < m.ncols() ==> #[trigger] out.at(i, c) == m.at(
                i,
                c,
            ).s_times(s_mode_scale(penalty, lambda, i)),
{
    let rows: usize = m.row_count();
    let cols: usize = m.col_count();
    let mut out: Matrix<S> = m.copy();
    for i in 0..rows
        invariant
            m.has_shape(rows as nat, cols as nat),
            penalty.has_size(rows as nat),
            out.has_shape(rows as nat, cols as nat),
            forall|a: int, c: int|
                0 <= a < i && 0 <= c < cols ==> #[trigger] out.at(a, c) == m.at(a, c).s_times(
                    s_mode_scale(penalty, lambda, a),
                ),
    {
        let scale: S = mode_scale(penalty, lambda, i);
        for c in 0..cols
            invariant
                i < rows,
                scale == s_mode_scale(penalty, lambda, i as int),
                m.has_shape(rows as nat, cols as nat),
                out.has_shape(rows as nat, cols as nat),
                forall|a: int, b: int|
                    0 <= a < rows && 0 <= b < cols && (a < i || (a == i && b < c))
                        ==> #[trigger] out.at(a, b) == m.at(a, b).s_times(
                        s_mode_scale(penalty, lambda, a),
                    ),
        {
            out.set(i, c, m.get(i, c).times(scale));
        }
    }
    out
}

/// `out` is the penalised solution: the scaled equation's minimum-norm solution,
/// unscaled and rotated back out of the penalty's eigenbasis.
pub open spec fn is_penalized_solution<S: Scalar>(
    system: &ScaledSystem<S>,
    lambda: S,
    penalty: &Eigen<S>,
    eigen: &Eigen<S>,
    out: &Matrix<S>,
) -> bool {
    exists|solution: Matrix<S>, unscaled: Matrix<S>|
        {
            &&& is_minimum_norm_solution(eigen, &system.rhs, &solution)
            &&& unscaled.has_shape(solution.nrows(), solution.ncols())
            &&& forall|i: int, c: int|
                0 <= i < unscaled.nrows() && 0 <= c < unscaled.ncols() ==> #[trigger] unscaled.at(
                    i,
                    c,
                ) == solution.at(i, c).s_times(s_mode_scale(penalty, lambda, i))
            &&& #[trigger] solution.has_shape(system.rhs.nrows(), system.rhs.ncols())
            &&& #[trigger] is_matrix_product(&penalty.vectors, &unscaled, out)
        }
}

/// Solves `(G + lambda S) B = rhs`, given the eigendecompositions of the penalty
/// and of the scaled matrix.
pub fn solve_penalized_normal_equations<S: Scalar>(
    system: &ScaledSystem<S>,
    lambda: S,
    penalty: &Eigen<S>,
    eigen: &Eigen<S>,
) -> (r: Result<Matrix<S>, SolveError>)
    requires
        system.rhs.wf(),
        penalty.has_size(system.rhs.nrows()),
        eigen.has_size(system.rhs.nrows()),
    ensures
        match r {
            Ok(out) => {
                &&& none_below(
                    eigen.values@,
                    s_noise_floor(s_max_abs(eigen.values@), eigen.values@.len()),
                )
                &&& is_penalized_solution(system, lambda, penalty, eigen, &out)
                &&& out.has_shape(system.rhs.nrows(), system.rhs.ncols())
            },
            Err(SolveError::NotPsd) => !none_below(
                eigen.values@,
                s_noise_floor(s_max_abs(eigen.values@), eigen.values@.len()),
            ),
            Err(SolveError::NullComponent) => {
                &&& none_below(
                    eigen.values@,
                    s_noise_floor(s_max_abs(eigen.values@), eigen.values@.len()),
                )
                &&& exists|projected: Matrix<S>|
                    {
                        &&& #[trigger] is_transposed_product(
                            &eigen.vectors,
                            &system.rhs,
                            &projected,
                        )
                        &&& reaches_null_space(eigen, &system.rhs, &projected)
                    }
            },
            Err(_) => false,
        },
{
    let solution: Matrix<S> = match solve_psd_minimum_norm(&system.rhs, eigen) {
        Ok(solution) => solution,
        Err(e) => {
            return Err(e);
        },
    };
    let unscaled: Matrix<S> = scale_rows(&solution, lambda, penalty);
    proof {
        system.rhs.lemma_size();
    }
    let out: Matrix<S> = product(&penalty.vectors, &unscaled);
    proof {
        assert(solution.has_shape(system.rhs.nrows(), system.rhs.ncols()));
        assert(is_matrix_product(&penalty.vectors, &unscaled, &out));
        assert(is_penalized_solution(system, lambda, penalty, eigen, &out));
    }
    Ok(out)
}

/// What a census of one atom has come to: `G` in the penalty's eigenbasis, scaled,
/// the penalty's eigenvalues, and the dimension of its null space.
#[derive(Debug)]
pub struct Census<S> {
    pub scaled: Matrix<S>,
    pub penalties: Vec<S>,
    pub null_dim: usize,
}

/// How many of the first `n` penalty eigenvalues count as zero.
pub open spec fn null_modes<S: Scalar>(penalty: &Eigen<S>, n: int) -> nat
    decreases n,
{
    if n <= 0 {
        0
    } else {
        null_modes(penalty, n - 1) + (if penalty.values@[n - 1].s_at_most(
            s_noise_floor(s_max_abs(penalty.values@), penalty.values@.len()),
        ) {
            1nat
        } else {
            0nat
        })
    }
}

/// The share of a mode that the penalty holds: `x / (1 + x)` for `x = lambda s`,
/// and its limit one when the product overflows.
pub open spec fn s_penalty_fraction<S: Scalar>(penalty: &Eigen<S>, lambda: S, mode: int) -> S {
    let s = s_mode_penalty(penalty, mode);
    let x = lambda.s_times(s);
    if S::s_zero().s_below(s) && S::s_zero().s_below(lambda) {
        if x.s_finite() {
            x.s_over(S::s_one().s_plus(x))
        } else {
            S::s_one()
        }
    } else {
        S::s_zero()
    }
}

fn penalty_fraction<S: Scalar>(penalty: &Eigen<S>, lambda: S, mode: usize) -> (r: S)
    requires
        mode < penalty.values@.len(),
    ensures
        r == s_penalty_fraction(penalty, lambda, mode as int),
{
    let s: S = penalty.values[mode].larger(S::zero());
    if S::zero().below(s) && S::zero().below(lambda) {
        let x: S = lambda.times(s);
        if x.finite() {
            x.over(S::one().plus(x))
        } else {
            S::one()
        }
    } else {
        S::zero()
    }
}

/// The census of a Gram matrix under a penalty.
pub open spec fn is_census<S: Scalar>(
    gram: &Matrix<S>,
    lambda: S,
    penalty: &Eigen<S>,
    census: &Census<S>,
) -> bool {
    &&& census.null_dim == null_modes(penalty, penalty.values@.len() as int)
    &&& census.penalties@ == penalty.values@
    &&& exists|rotated: Matrix<S>|
        {
            &&& #[trigger] is_rotated(&penalty.vectors, gram, &rotated)
            &&& census.scaled.has_shape(gram.nrows(), gram.nrows())
            &&& forall|i: int, j: int|
                0 <= i < gram.nrows() && 0 <= j < gram.nrows() ==> #[trigger] census.scaled.at(
                    i,
                    j,
                ) == s_mode_scale(penalty, lambda, i).s_times(rotated.at(i, j)).s_times(
                    s_mode_scale(penalty, lambda, j),
                )
        }
}

/// `shifted` adds the penalty's share to the diagonal.
pub open spec fn is_shifted<S: Scalar>(
    census: &Census<S>,
    lambda: S,
    penalty: &Eigen<S>,
    shifted: &Matrix<S>,
) -> bool {
    &&& shifted.has_shape(census.scaled.nrows(), census.scaled.nrows())
    &&& forall|i: int, j: int|
        0 <= i < shifted.nrows() && 0 <= j < shifted.ncols() ==> #[trigger] shifted.at(i, j) == (
        if i == j {
            census.scaled.at(i, j).s_plus(s_penalty_fraction(penalty, lambda, i))
        } else {
            census.scaled.at(i, j)
        })
}

/// Starts the census of a Gram matrix, given the penalty's eigendecomposition.
/// Returns what it has come to and the matrix to be decomposed next.
pub fn census_request<S: Scalar>(gram: &Matrix<S>, lambda: S, penalty: &Eigen<S>) -> (r: (
    Census<S>,
    Matrix<S>,
))
    requires
        gram.wf(),
        gram.nrows() == gram.ncols(),
        penalty.has_size(gram.nrows()),
    ensures
        is_census(gram, lambda, penalty, &r.0),
        exists|shifted: Matrix<S>|
            #[trigger] is_shifted(&r.0, lambda, penalty, &shifted) && is_symmetric_part(
                &shifted,
                &r.1,
            ),
{
    let m: usize = gram.row_count();
    let floor: S = noise_floor(max_abs(&penalty.values), m);
    let mut null_dim: usize = 0;
    for i in 0..m
        invariant
            penalty.values@.len() == m,
            floor == s_noise_floor(s_max_abs(penalty.values@), penalty.values@.len()),
            null_dim == null_modes(penalty, i as int),
            null_dim <= i,
    {
        if penalty.values[i].at_most(floor) {
            null_dim = null_dim + 1;
        }
    }
    let rotated: Matrix<S> = rotate(&penalty.vectors, gram);
    let mut scaled: Matrix<S> = rotated.copy();
    let mut shifted: Matrix<S> = rotated.copy();
    for i in 0..m
        invariant
            penalty.has_size(m as nat),
            rotated.has_shape(m as nat, m as nat),
            scaled.has_shape(m as nat, m as nat),
            shifted.has_shape(m as nat, m as nat),
            forall|a: int, b: int|
                0 <= a < i && 0 <= b < m ==> #[trigger] scaled.at(a, b) == s_mode_scale(
                    penalty,
                    lambda,
                    a,
                ).s_times(rotated.at(a, b)).s_times(s_mode_scale(penalty, lambda, b)),
            forall|a: int, b: int|
                0 <= a < i && 0 <= b < m ==> #[trigger] shifted.at(a, b) == (if a == b {
                    scaled.at(a, b).s_plus(s_penalty_fraction(penalty, lambda, a))
                } else {
                    scaled.at(a, b)
                }),
    {
        let left: S = mode_scale(penalty, lambda, i);
        for j in 0..m
            invariant
                i < m,
                penalty.has_size(m as nat),
                left == s_mode_scale(penalty, lambda, i as int),
                rotated.has_shape(m as nat, m as nat),
                scaled.has_shape(m as nat, m as nat),
                shifted.has_shape(m as nat, m as nat),
                forall|a: int, b: int|
                    0 <= a < m && 0 <= b < m && (a < i || (a == i && b < j))
                        ==> #[trigger] scaled.at(a, b) == s_mode_scale(penalty, lambda, a).s_times(
                        rotated.at(a, b),
                    ).s_times(s_mode_scale(penalty, lambda, b)),
                forall|a: int, b: int|
                    0 <= a < m && 0 <= b < m && (a < i || (a == i && b < j))
                        ==> #[trigger] shifted.at(a, b) == (if a == b {
                        scaled.at(a, b).s_plus(s_penalty_fraction(penalty, lambda, a))
                    } else {
                        scaled.at(a, b)
                    }),
        {
            let value: S = left.times(rotated.get(i, j)).times(mode_scale(penalty, lambda, j));
            scaled.set(i, j, value);
            if i == j {
                shifted.set(i, j, value.plus(penalty_fraction(penalty, lambda, i)));
            } else {
                shifted.set(i, j, value);
            }
        }
    }
    let census = Census { scaled, penalties: copied(&penalty.values), null_dim };
    proof {
        assert(is_rotated(&penalty.vectors, gram, &rotated));
        assert(is_shifted(&census, lambda, penalty, &shifted));
    }
    (census, symmetric_part(&shifted))
}

/// The trace of the scaled Gram matrix.
pub open spec fn s_trace<S: Scalar>(m: &Matrix<S>) -> S {
    s_sum(S::s_zero(), m.nrows() as int, |i: int| m.at(i, i))
}

/// The roughness of a mode: the penalty's eigenvalues against the mode's squared
/// entries, of which the first `n` are taken.
pub open spec fn s_mode_roughness<S: Scalar>(
    penalties: Seq<S>,
    vectors: &Matrix<S>,
    mode: int,
    n: int,
) -> S {
    s_sum(
        S::s_zero(),
        n,
        |i: int|
            penalties[i].s_larger(S::s_zero()).s_times(
                vectors.at(i, mode).s_times(vectors.at(i, mode)),
            ),
    )
}

/// A mode lies in the penalty's null space: its roughness is noise.
pub open spec fn is_unpenalized<S: Scalar>(
    penalties: Seq<S>,
    vectors: &Matrix<S>,
    mode: int,
) -> bool {
    s_mode_roughness(penalties, vectors, mode, penalties.len() as int).s_at_most(
        s_noise_floor(s_max_abs(penalties), penalties.len()),
    )
}

fn unpenalized<S: Scalar>(penalties: &Vec<S>, vectors: &Matrix<S>, mode: usize) -> (r: bool)
    requires
        vectors.has_shape(penalties@.len(), penalties@.len()),
        mode < penalties@.len(),
    ensures
        r == is_unpenalized(penalties@, vectors, mode as int),
{
    let m: usize = penalties.len();
    let mut roughness: S = S::zero();
    for i in 0..m
        invariant
            m == penalties@.len(),
            mode < m,
            vectors.has_shape(m as nat, m as nat),
            roughness == s_mode_roughness(penalties@, vectors, mode as int, i as int),
    {
        let entry: S = vectors.get(i, mode);
        roughness = roughness.plus(penalties[i].larger(S::zero()).times(entry.times(entry)));
    }
    roughness.at_most(noise_floor(max_abs(penalties), m))
}

/// The degrees of freedom of the first `n` modes. A mode whose eigenvalue is above
/// `floor` has the share of it that comes from the Gram matrix. One that is not
/// sees nothing to divide by, and has one degree of freedom if it lies in the
/// penalty's null space, as every mode there does, and none otherwise.
pub open spec fn s_counted_trace<S: Scalar>(
    projected: &Matrix<S>,
    penalties: Seq<S>,
    eigen: &Eigen<S>,
    floor: S,
    n: int,
) -> S
    decreases n,
{
    if n <= 0 {
        S::s_zero()
    } else {
        let rest = s_counted_trace(projected, penalties, eigen, floor, n - 1);
        let value = eigen.values@[n - 1];
        if floor.s_below(value) {
            rest.s_plus(projected.at(n - 1, n - 1).s_over(value))
        } else if is_unpenalized(penalties, &eigen.vectors, n - 1) {
            rest.s_plus(S::s_one())
        } else {
            rest
        }
    }
}

/// The trace of a census: the modes' degrees of freedom, and never fewer than the
/// penalty's null space has.
pub open spec fn s_census_trace<S: Scalar>(
    projected: &Matrix<S>,
    census: &Census<S>,
    eigen: &Eigen<S>,
) -> S {
    s_counted_trace(
        projected,
        census.penalties@,
        eigen,
        s_noise_floor(s_trace(&census.scaled).s_larger(S::s_one()), census.scaled.nrows()),
        census.scaled.nrows() as int,
    ).s_larger(S::s_count(census.null_dim as nat))
}

/// `tr((G + lambda S)^-1 G)` of a census, given the eigendecomposition that it
/// asked for, and the dimension of the penalty's null space.
pub fn penalized_trace_and_null_dim<S: Scalar>(census: &Census<S>, eigen: &Eigen<S>) -> (r: (S, S))
    requires
        census.scaled.wf(),
        census.scaled.nrows() == census.scaled.ncols(),
        eigen.has_size(census.scaled.nrows()),
        census.penalties@.len() == census.scaled.nrows(),
    ensures
        r.1 == S::s_count(census.null_dim as nat),
        exists|projected: Matrix<S>|
            {
                &&& #[trigger] is_rotated(&eigen.vectors, &census.scaled, &projected)
                &&& r.0 == s_census_trace(&projected, census, eigen)
            },
{
    let m: usize = census.scaled.row_count();
    let mut scaled_trace: S = S::zero();
    let ghost f = |i: int| census.scaled.at(i, i);
    for i in 0..m
        invariant
            census.scaled.has_shape(m as nat, m as nat),
            f == (|i: int| census.scaled.at(i, i)),
            scaled_trace == s_sum(S::s_zero(), i as int, f),
    {
        scaled_trace = scaled_trace.plus(census.scaled.get(i, i));
    }
    let floor: S = noise_floor(scaled_trace.larger(S::one()), m);
    let projected: Matrix<S> = rotate(&eigen.vectors, &census.scaled);
    let mut trace: S = S::zero();
    for mode in 0..m
        invariant
            projected.has_shape(m as nat, m as nat),
            eigen.has_size(m as nat),
            census.penalties@.len() == m,
            trace == s_counted_trace(
                &projected,
                census.penalties@,
                eigen,
                floor,
                mode as int,
            ),
    {
        if floor.below(eigen.values[mode]) {
            trace = trace.plus(projected.get(mode, mode).over(eigen.values[mode]));
        } else if unpenalized(&census.penalties, &eigen.vectors, mode) {
            trace = trace.plus(S::one());
        }
    }
    assert(is_rotated(&eigen.vectors, &census.scaled, &projected));
    let null_dim: S = S::count(census.null_dim);
    (trace.larger(null_dim), null_dim)
}

} // verus!
