//! What scaling and repetition do, in exact arithmetic.
use crate::exact::{
    is_exact, lemma_exact_grid_of, lemma_over_scaled, lemma_square, lemma_total2_not_negative,
    lemma_total2_scaled, total2,
};
use crate::hyper::AtomCensus;
use crate::matrix::{s_matrix_energy, s_matrix_max_abs, Matrix};
use crate::scalar::{at_least_one, s_grid_max, s_line_max, Scalar};
use crate::term::SaeSupportSparseTerm;
use vstd::prelude::*;

verus! {

/// The squares of a matrix's entries.
pub open spec fn squares<S: Scalar>(v: spec_fn(S) -> real, m: &Matrix<S>) -> spec_fn(
    int,
    int,
) -> real {
    |i: int, j: int| v(m.at(i, j)) * v(m.at(i, j))
}

/// The energy is the sum of the squares.
pub proof fn lemma_exact_energy<S: Scalar>(v: spec_fn(S) -> real, m: &Matrix<S>)
    requires
        is_exact(v),
    ensures
        v(s_matrix_energy(m)) == total2(m.nrows() as int, m.ncols() as int, squares(v, m)),
        v(s_matrix_energy(m)) >= 0 as real,
{
    let f = |i: int, j: int| m.at(i, j).s_times(m.at(i, j));
    let g = squares(v, m);
    let rows = m.nrows() as int;
    let cols = m.ncols() as int;
    lemma_exact_grid_of(v, S::s_zero(), rows, cols, f, g);
    assert forall|i: int, j: int| 0 <= i < rows && 0 <= j < cols implies #[trigger] g(i, j)
        >= 0 as real by {
        lemma_square(v(m.at(i, j)));
    }
    lemma_total2_not_negative(rows, cols, g);
}

proof fn lemma_line_max_not_below<S: Scalar>(
    v: spec_fn(S) -> real,
    start: S,
    r: int,
    n: int,
    f: spec_fn(int, int) -> S,
)
    requires
        is_exact(v),
    ensures
        v(s_line_max(start, r, n, f)) >= v(start),
    decreases n,
{
    if n > 0 {
        lemma_line_max_not_below(v, start, r, n - 1, f);
    }
}

proof fn lemma_grid_max_not_below<S: Scalar>(
    v: spec_fn(S) -> real,
    start: S,
    rows: int,
    cols: int,
    f: spec_fn(int, int) -> S,
)
    requires
        is_exact(v),
    ensures
        v(s_grid_max(start, rows, cols, f)) >= v(start),
    decreases rows,
{
    if rows > 0 {
        lemma_grid_max_not_below(v, start, rows - 1, cols, f);
        lemma_line_max_not_below(v, s_grid_max(start, rows - 1, cols, f), rows - 1, cols, f);
    }
}

/// The roughness that counts as rounding is not negative.
proof fn lemma_floor_not_negative<S: Scalar>(
    v: spec_fn(S) -> real,
    term: &SaeSupportSparseTerm<S>,
    a: int,
)
    requires
        is_exact(v),
    ensures
        v(term.roughness_floor(a)) >= 0 as real,
{
    let atom = term.atom_seq()[a];
    let f = |i: int, j: int| atom.penalty().at(i, j).s_magnitude();
    lemma_grid_max_not_below(
        v,
        S::s_zero(),
        atom.penalty().nrows() as int,
        atom.penalty().ncols() as int,
        f,
    );
    lemma_exact_energy(v, &atom.decoder());
    let x = v(S::s_epsilon());
    let y = v(s_matrix_max_abs(&atom.penalty()));
    let z = v(s_matrix_energy(&atom.decoder()));
    let w = v(S::s_count(at_least_one(atom.m() as nat)));
    assert(x * y * z * w >= 0 as real) by (nonlinear_arith)
        requires
            x >= 0 as real,
            y >= 0 as real,
            z >= 0 as real,
            w >= 0 as real,
    {
        assert(x * y >= 0 as real);
        assert(x * y * z >= 0 as real);
    }
}

/// An update of the smoothing strengths scales with the residual: where the
/// residual is `c` times another, every strength that the evidence sets is `c * c`
/// times the one set at the other, and every other strength is kept at both.
pub proof fn law_updated_strengths_scale_with_the_residual<S: Scalar>(
    v: spec_fn(S) -> real,
    term: &SaeSupportSparseTerm<S>,
    lambda: Seq<S>,
    residual: &Matrix<S>,
    scaled: &Matrix<S>,
    c: real,
    census: Seq<AtomCensus<S>>,
    a: int,
)
    requires
        is_exact(v),
        c != 0 as real,
        scaled.nrows() == residual.nrows(),
        scaled.ncols() == residual.ncols(),
        forall|i: int, j: int|
            0 <= i < residual.nrows() && 0 <= j < residual.ncols() ==> v(
                #[trigger] scaled.at(i, j),
            ) == c * v(residual.at(i, j)),
        term.fellner_schall_fault(lambda, census) is None,
    ensures
        if term.has_smoothing_evidence(census, a) && S::s_zero().s_below(
            term.smoothing_candidate(residual, census, a),
        ) {
            v(term.smoothing_update(lambda, scaled, census, a)) == c * c * v(
                term.smoothing_update(lambda, residual, census, a),
            )
        } else {
            &&& term.smoothing_update(lambda, residual, census, a) == lambda[a]
            &&& term.smoothing_update(lambda, scaled, census, a) == lambda[a]
        },
{
    let rows = residual.nrows() as int;
    let cols = residual.ncols() as int;
    lemma_exact_energy(v, residual);
    lemma_exact_energy(v, scaled);
    let k = c * c;
    let f = squares(v, residual);
    let g = squares(v, scaled);
    assert forall|i: int, j: int| 0 <= i < rows && 0 <= j < cols implies #[trigger] g(i, j) == k
        * f(i, j) by {
        let x = v(residual.at(i, j));
        assert(v(scaled.at(i, j)) == c * x);
        assert((c * x) * (c * x) == (c * c) * (x * x)) by (nonlinear_arith);
    }
    lemma_total2_scaled(rows, cols, k, f, g);
    let left = v(term.total_df().s_minus(term.spent_df(census)));
    let energy = v(s_matrix_energy(residual));
    lemma_over_scaled(k, energy, left);
    let scale = energy / left;
    let width = v(S::s_count(term.width()));
    let signal = v(census[a].trace.s_minus(census[a].null_dim));
    assert((k * scale) * width * signal == k * (scale * width * signal)) by (nonlinear_arith);
    assert(k > 0 as real) by (nonlinear_arith)
        requires
            k == c * c,
            c != 0 as real,
    ;
    if term.has_smoothing_evidence(census, a) {
        lemma_floor_not_negative(v, term, a);
        let rough = v(term.atom_roughness(a));
        assert(rough > 0 as real);
        lemma_over_scaled(k, scale * width * signal, rough);
        let before = v(term.smoothing_candidate(residual, census, a));
        let after = v(term.smoothing_candidate(scaled, census, a));
        assert(after == k * before);
        assert((after > 0 as real) == (before > 0 as real)) by (nonlinear_arith)
            requires
                after == k * before,
                k > 0 as real,
        ;
    }
}

} // verus!
