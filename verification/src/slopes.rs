//! What the first-order residual reports, in exact arithmetic.
use crate::active::BasisEval;
use crate::exact::{
    is_exact, is_root, lemma_exact_grid_of, lemma_exact_sum_of, lemma_square, lemma_total2_not_negative,
    lemma_total_ext, lemma_total_not_negative, magnitude, total, total2,
};
use crate::matrix::Matrix;
use crate::objective::PriorTerm;
use crate::peaks::{
    lemma_exact_grid_max_of, lemma_exact_max_of, lemma_exact_ragged_max_of,
    lemma_exact_ragged_sum_of, lemma_peak_ext, peak, ragged_peak, ragged_total,
};
use crate::scalar::Scalar;
use crate::term::SaeSupportSparseTerm;
use vstd::prelude::*;

verus! {

/// The slope along coefficient `(b, c)` of atom `a`'s decoder.
pub open spec fn decoder_slope<S: Scalar>(
    v: spec_fn(S) -> real,
    term: &SaeSupportSparseTerm<S>,
    residual: &Matrix<S>,
    lambda: Seq<S>,
    table: Seq<Vec<BasisEval<S>>>,
    a: int,
) -> spec_fn(int, int) -> real {
    |b: int, c: int|
        v(term.decoder_grad(residual, lambda, table, a, b, c, term.uses()[a].len() as int))
}

/// The slope along one coordinate of a row.
pub open spec fn coordinate_slope<S: Scalar>(
    v: spec_fn(S) -> real,
    term: &SaeSupportSparseTerm<S>,
    residual: &Matrix<S>,
    table: Seq<Vec<BasisEval<S>>>,
    priors: Seq<Vec<Vec<PriorTerm<S>>>>,
    row: int,
) -> spec_fn(int, int) -> real {
    |slot: int, axis: int| v(term.coord_grad(residual, table, priors, row, slot, axis))
}

/// How far a coordinate with this slope and curvature is from rest; nothing is said
/// of one without curvature.
pub open spec fn step_to_rest(slope: real, curvature: real) -> real {
    if curvature > 0 as real {
        magnitude(slope) / curvature
    } else {
        0 as real
    }
}

proof fn lemma_decoder_norms<S: Scalar>(
    v: spec_fn(S) -> real,
    term: &SaeSupportSparseTerm<S>,
    residual: &Matrix<S>,
    lambda: Seq<S>,
    table: Seq<Vec<BasisEval<S>>>,
    a: int,
)
    requires
        is_exact(v),
    ensures
        ({
            let norms = term.decoder_norms_spec(residual, lambda, table, a);
            let m = term.atom_seq()[a].m() as int;
            let w = term.width() as int;
            let n = term.uses()[a].len() as int;
            let slope = decoder_slope(v, term, residual, lambda, table, a);
            &&& v(norms.sq) == total2(m, w, |b: int, c: int| slope(b, c) * slope(b, c))
            &&& v(norms.sq) >= 0 as real
            &&& v(norms.max) == peak(m, |b: int| peak(w, |c: int| magnitude(slope(b, c))))
            &&& v(norms.scaled_max) == peak(
                m,
                |b: int|
                    peak(
                        w,
                        |c: int|
                            step_to_rest(
                                slope(b, c),
                                v(term.decoder_curv(lambda, table, a, b, n)),
                            ),
                    ),
            )
        }),
{
    let m = term.atom_seq()[a].m() as int;
    let w = term.width() as int;
    let n = term.uses()[a].len() as int;
    let slope = decoder_slope(v, term, residual, lambda, table, a);
    let f = |b: int, c: int|
        term.decoder_grad(residual, lambda, table, a, b, c, n).s_times(
            term.decoder_grad(residual, lambda, table, a, b, c, n),
        );
    let g = |b: int, c: int| slope(b, c) * slope(b, c);
    lemma_exact_grid_of(v, S::s_zero(), m, w, f, g);
    assert forall|b: int, c: int| 0 <= b < m && 0 <= c < w implies #[trigger] g(b, c)
        >= 0 as real by {
        lemma_square(slope(b, c));
    }
    lemma_total2_not_negative(m, w, g);
    let f1 = |b: int, c: int|
        term.decoder_grad(residual, lambda, table, a, b, c, n).s_magnitude();
    let g1 = |b: int, c: int| magnitude(slope(b, c));
    lemma_exact_grid_max_of(v, m, w, f1, g1);
    let p1 = |b: int| peak(w, |c: int| g1(b, c));
    let q1 = |b: int| peak(w, |c: int| magnitude(slope(b, c)));
    assert forall|b: int| 0 <= b < m implies #[trigger] p1(b) == q1(b) by {
        lemma_peak_ext(w, |c: int| g1(b, c), |c: int| magnitude(slope(b, c)));
    }
    lemma_peak_ext(m, p1, q1);
    let keep = |b: int, c: int| S::s_zero().s_below(term.decoder_curv(lambda, table, a, b, n));
    let f2 = |b: int, c: int|
        term.decoder_grad(residual, lambda, table, a, b, c, n).s_magnitude().s_over(
            term.decoder_curv(lambda, table, a, b, n),
        );
    let g2 = |b: int, c: int|
        step_to_rest(slope(b, c), v(term.decoder_curv(lambda, table, a, b, n)));
    let width = |b: int| w;
    lemma_exact_ragged_max_of(v, m, width, keep, f2, g2);
    let p2 = |b: int| peak(width(b), |c: int| g2(b, c));
    let q2 = |b: int|
        peak(
            w,
            |c: int| step_to_rest(slope(b, c), v(term.decoder_curv(lambda, table, a, b, n))),
        );
    assert forall|b: int| 0 <= b < m implies #[trigger] p2(b) == q2(b) by {
        lemma_peak_ext(
            w,
            |c: int| g2(b, c),
            |c: int| step_to_rest(slope(b, c), v(term.decoder_curv(lambda, table, a, b, n))),
        );
    }
    lemma_peak_ext(m, p2, q2);
}

/// The decoders' part of the first-order residual: the norm of all slopes, the largest
/// slope, and the largest slope over its curvature.
pub proof fn law_the_decoder_norms_are_those_of_the_slopes<S: Scalar>(
    v: spec_fn(S) -> real,
    term: &SaeSupportSparseTerm<S>,
    residual: &Matrix<S>,
    lambda: Seq<S>,
    table: Seq<Vec<BasisEval<S>>>,
)
    requires
        is_exact(v),
    ensures
        ({
            let k = term.k() as int;
            let w = term.width() as int;
            let m = |a: int| term.atom_seq()[a].m() as int;
            let slope = |a: int, b: int, c: int|
                decoder_slope(v, term, residual, lambda, table, a)(b, c);
            let curvature = |a: int, b: int|
                v(term.decoder_curv(lambda, table, a, b, term.uses()[a].len() as int));
            let norms = term.decoder_totals(residual, lambda, table, k);
            &&& is_root(
                total(
                    k,
                    |a: int| total2(m(a), w, |b: int, c: int| slope(a, b, c) * slope(a, b, c)),
                ),
                v(norms.sq.s_root()),
            )
            &&& v(norms.max) == peak(
                k,
                |a: int| peak(m(a), |b: int| peak(w, |c: int| magnitude(slope(a, b, c)))),
            )
            &&& v(norms.scaled_max) == peak(
                k,
                |a: int|
                    peak(
                        m(a),
                        |b: int|
                            peak(w, |c: int| step_to_rest(slope(a, b, c), curvature(a, b))),
                    ),
            )
        }),
{
    let k = term.k() as int;
    let w = term.width() as int;
    let m = |a: int| term.atom_seq()[a].m() as int;
    let slope = |a: int, b: int, c: int|
        decoder_slope(v, term, residual, lambda, table, a)(b, c);
    let curvature = |a: int, b: int|
        v(term.decoder_curv(lambda, table, a, b, term.uses()[a].len() as int));
    let f0 = |a: int| term.decoder_norms_spec(residual, lambda, table, a).sq;
    let g0 = |a: int| total2(m(a), w, |b: int, c: int| slope(a, b, c) * slope(a, b, c));
    let f1 = |a: int| term.decoder_norms_spec(residual, lambda, table, a).max;
    let g1 = |a: int| peak(m(a), |b: int| peak(w, |c: int| magnitude(slope(a, b, c))));
    let f2 = |a: int| term.decoder_norms_spec(residual, lambda, table, a).scaled_max;
    let g2 = |a: int|
        peak(m(a), |b: int| peak(w, |c: int| step_to_rest(slope(a, b, c), curvature(a, b))));
    assert forall|a: int|
        #![trigger g0(a)]
        #![trigger g1(a)]
        #![trigger g2(a)]
        0 <= a < k implies v(f0(a)) == g0(a) && g0(a) >= 0 as real && v(f1(a)) == g1(a) && v(f2(a))
        == g2(a) by {
        lemma_decoder_norms(v, term, residual, lambda, table, a);
        let one = decoder_slope(v, term, residual, lambda, table, a);
        let n = term.uses()[a].len() as int;
        crate::exact::lemma_total2_ext(
            m(a),
            w,
            |b: int, c: int| one(b, c) * one(b, c),
            |b: int, c: int| slope(a, b, c) * slope(a, b, c),
        );
        let p1 = |b: int| peak(w, |c: int| magnitude(one(b, c)));
        let q1 = |b: int| peak(w, |c: int| magnitude(slope(a, b, c)));
        assert forall|b: int| 0 <= b < m(a) implies #[trigger] p1(b) == q1(b) by {
            lemma_peak_ext(w, |c: int| magnitude(one(b, c)), |c: int| magnitude(slope(a, b, c)));
        }
        lemma_peak_ext(m(a), p1, q1);
        let p2 = |b: int|
            peak(w, |c: int| step_to_rest(one(b, c), v(term.decoder_curv(lambda, table, a, b, n))));
        let q2 = |b: int| peak(w, |c: int| step_to_rest(slope(a, b, c), curvature(a, b)));
        assert forall|b: int| 0 <= b < m(a) implies #[trigger] p2(b) == q2(b) by {
            lemma_peak_ext(
                w,
                |c: int| step_to_rest(one(b, c), v(term.decoder_curv(lambda, table, a, b, n))),
                |c: int| step_to_rest(slope(a, b, c), curvature(a, b)),
            );
        }
        lemma_peak_ext(m(a), p2, q2);
    }
    lemma_exact_sum_of(v, S::s_zero(), k, f0, g0);
    lemma_total_not_negative(k, g0);
    lemma_exact_max_of(v, k, f1, g1);
    lemma_exact_max_of(v, k, f2, g2);
}

proof fn lemma_coordinate_norms<S: Scalar>(
    v: spec_fn(S) -> real,
    term: &SaeSupportSparseTerm<S>,
    residual: &Matrix<S>,
    table: Seq<Vec<BasisEval<S>>>,
    priors: Seq<Vec<Vec<PriorTerm<S>>>>,
    row: int,
)
    requires
        is_exact(v),
    ensures
        ({
            let norms = term.coordinate_norms_spec(residual, table, priors, row);
            let n = term.support(row).len() as int;
            let dim = |slot: int| term.state().slot_dim(row, slot) as int;
            let slope = coordinate_slope(v, term, residual, table, priors, row);
            &&& v(norms.sq) == ragged_total(n, dim, |s: int, x: int| slope(s, x) * slope(s, x))
            &&& v(norms.sq) >= 0 as real
            &&& v(norms.max) == ragged_peak(n, dim, |s: int, x: int| magnitude(slope(s, x)))
            &&& v(norms.scaled_max) == ragged_peak(
                n,
                dim,
                |s: int, x: int|
                    step_to_rest(slope(s, x), v(term.coord_curv(table, priors, row, s, x))),
            )
        }),
{
    let n = term.support(row).len() as int;
    let dim = |slot: int| term.state().slot_dim(row, slot) as int;
    let slope = coordinate_slope(v, term, residual, table, priors, row);
    let f = |slot: int, axis: int|
        term.coord_grad(residual, table, priors, row, slot, axis).s_times(
            term.coord_grad(residual, table, priors, row, slot, axis),
        );
    let g = |s: int, x: int| slope(s, x) * slope(s, x);
    lemma_exact_ragged_sum_of(v, n, dim, f, g);
    let lines = |s: int| total(dim(s), |x: int| g(s, x));
    assert forall|s: int| 0 <= s < n implies #[trigger] lines(s) >= 0 as real by {
        let line = |x: int| g(s, x);
        assert forall|x: int| 0 <= x < dim(s) implies #[trigger] line(x) >= 0 as real by {
            lemma_square(slope(s, x));
        }
        lemma_total_not_negative(dim(s), line);
    }
    lemma_total_not_negative(n, lines);
    let all = |slot: int, axis: int| true;
    let f1 = |slot: int, axis: int|
        term.coord_grad(residual, table, priors, row, slot, axis).s_magnitude();
    let g1 = |s: int, x: int| magnitude(slope(s, x));
    lemma_exact_ragged_max_of(v, n, dim, all, f1, g1);
    let keep = |slot: int, axis: int|
        S::s_zero().s_below(term.coord_curv(table, priors, row, slot, axis));
    let f2 = |slot: int, axis: int|
        term.coord_grad(residual, table, priors, row, slot, axis).s_magnitude().s_over(
            term.coord_curv(table, priors, row, slot, axis),
        );
    let g2 = |s: int, x: int|
        step_to_rest(slope(s, x), v(term.coord_curv(table, priors, row, s, x)));
    lemma_exact_ragged_max_of(v, n, dim, keep, f2, g2);
}

/// The coordinates' part of the first-order residual: the norm of all slopes, the
/// largest slope, and the largest slope over its curvature. What is reported where the
/// decoders are held fixed is the first two.
pub proof fn law_the_coordinate_norms_are_those_of_the_slopes<S: Scalar>(
    v: spec_fn(S) -> real,
    term: &SaeSupportSparseTerm<S>,
    residual: &Matrix<S>,
    table: Seq<Vec<BasisEval<S>>>,
    priors: Seq<Vec<Vec<PriorTerm<S>>>>,
)
    requires
        is_exact(v),
    ensures
        ({
            let rows = term.rows() as int;
            let n = |row: int| term.support(row).len() as int;
            let dim = |row: int, slot: int| term.state().slot_dim(row, slot) as int;
            let slope = |row: int, s: int, x: int|
                coordinate_slope(v, term, residual, table, priors, row)(s, x);
            let curvature = |row: int, s: int, x: int|
                v(term.coord_curv(table, priors, row, s, x));
            let norms = term.coordinate_totals(residual, table, priors, rows);
            let fixed = term.slope_totals(residual, table, priors, rows);
            let energy = total(
                rows,
                |row: int|
                    total(
                        n(row),
                        |s: int|
                            total(dim(row, s), |x: int| slope(row, s, x) * slope(row, s, x)),
                    ),
            );
            let largest = peak(
                rows,
                |row: int|
                    peak(
                        n(row),
                        |s: int| peak(dim(row, s), |x: int| magnitude(slope(row, s, x))),
                    ),
            );
            &&& is_root(energy, v(norms.sq.s_root()))
            &&& v(norms.max) == largest
            &&& v(norms.scaled_max) == peak(
                rows,
                |row: int|
                    peak(
                        n(row),
                        |s: int|
                            peak(
                                dim(row, s),
                                |x: int| step_to_rest(slope(row, s, x), curvature(row, s, x)),
                            ),
                    ),
            )
            &&& v(fixed.0) == energy
            &&& v(fixed.1) == largest
        }),
{
    let rows = term.rows() as int;
    let n = |row: int| term.support(row).len() as int;
    let dim = |row: int, slot: int| term.state().slot_dim(row, slot) as int;
    let slope = |row: int, s: int, x: int|
        coordinate_slope(v, term, residual, table, priors, row)(s, x);
    let curvature = |row: int, s: int, x: int| v(term.coord_curv(table, priors, row, s, x));
    let f0 = |row: int| term.coordinate_norms_spec(residual, table, priors, row).sq;
    let f1 = |row: int| term.coordinate_norms_spec(residual, table, priors, row).max;
    let f2 = |row: int| term.coordinate_norms_spec(residual, table, priors, row).scaled_max;
    let f3 = |row: int| term.slope_norms_spec(residual, table, priors, row).0;
    let f4 = |row: int| term.slope_norms_spec(residual, table, priors, row).1;
    let g0 = |row: int|
        total(
            n(row),
            |s: int| total(dim(row, s), |x: int| slope(row, s, x) * slope(row, s, x)),
        );
    let g1 = |row: int|
        peak(n(row), |s: int| peak(dim(row, s), |x: int| magnitude(slope(row, s, x))));
    let g2 = |row: int|
        peak(
            n(row),
            |s: int|
                peak(dim(row, s), |x: int| step_to_rest(slope(row, s, x), curvature(row, s, x))),
        );
    assert forall|row: int|
        #![trigger g0(row)]
        #![trigger g1(row)]
        #![trigger g2(row)]
        0 <= row < rows implies v(f0(row)) == g0(row) && g0(row) >= 0 as real && v(f1(row)) == g1(
        row,
    ) && v(f2(row)) == g2(row) && v(f3(row)) == g0(row) && v(f4(row)) == g1(row) by {
        lemma_coordinate_norms(v, term, residual, table, priors, row);
        let one = coordinate_slope(v, term, residual, table, priors, row);
        let w = |slot: int| term.state().slot_dim(row, slot) as int;
        let h0 = |s: int, x: int| one(s, x) * one(s, x);
        let h1 = |s: int, x: int| magnitude(one(s, x));
        let h2 = |s: int, x: int|
            step_to_rest(one(s, x), v(term.coord_curv(table, priors, row, s, x)));
        let p0 = |s: int| total(w(s), |x: int| h0(s, x));
        let q0 = |s: int| total(dim(row, s), |x: int| slope(row, s, x) * slope(row, s, x));
        let p1 = |s: int| peak(w(s), |x: int| h1(s, x));
        let q1 = |s: int| peak(dim(row, s), |x: int| magnitude(slope(row, s, x)));
        let p2 = |s: int| peak(w(s), |x: int| h2(s, x));
        let q2 = |s: int|
            peak(dim(row, s), |x: int| step_to_rest(slope(row, s, x), curvature(row, s, x)));
        assert forall|s: int|
            #![trigger p0(s)]
            #![trigger p1(s)]
            #![trigger p2(s)]
            0 <= s < n(row) implies p0(s) == q0(s) && p1(s) == q1(s) && p2(s) == q2(s) by {
            lemma_total_ext(
                w(s),
                |x: int| h0(s, x),
                |x: int| slope(row, s, x) * slope(row, s, x),
            );
            lemma_peak_ext(w(s), |x: int| h1(s, x), |x: int| magnitude(slope(row, s, x)));
            lemma_peak_ext(
                w(s),
                |x: int| h2(s, x),
                |x: int| step_to_rest(slope(row, s, x), curvature(row, s, x)),
            );
        }
        lemma_total_ext(n(row), p0, q0);
        lemma_peak_ext(n(row), p1, q1);
        lemma_peak_ext(n(row), p2, q2);
        let f = |slot: int, axis: int|
            term.coord_slope(residual, table, priors, row, slot, axis).s_times(
                term.coord_slope(residual, table, priors, row, slot, axis),
            );
        let e = |slot: int, axis: int|
            term.coord_slope(residual, table, priors, row, slot, axis).s_magnitude();
        assert forall|s: int, x: int|
            #![trigger h0(s, x)]
            #![trigger h1(s, x)]
            h0(s, x) == v(f(s, x)) && h1(s, x) == v(e(s, x)) by {
            crate::landscape::law_the_coordinate_gradient_is_the_slope(
                v,
                term,
                residual,
                table,
                priors,
                row,
                s,
                x,
                0 as real,
            );
        }
        lemma_exact_ragged_sum_of(v, n(row), w, f, h0);
        let all = |slot: int, axis: int| true;
        lemma_exact_ragged_max_of(v, n(row), w, all, e, h1);
    }
    lemma_exact_sum_of(v, S::s_zero(), rows, f0, g0);
    lemma_total_not_negative(rows, g0);
    lemma_exact_max_of(v, rows, f1, g1);
    lemma_exact_max_of(v, rows, f2, g2);
    lemma_exact_sum_of(v, S::s_zero(), rows, f3, g0);
    lemma_exact_max_of(v, rows, f4, g1);
}

} // verus!
