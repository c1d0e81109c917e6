//! A corpus listed twice, in exact arithmetic.
use crate::active::BasisEval;
use crate::exact::{
    is_exact, lemma_exact_grid_of, lemma_exact_less_of, lemma_exact_sum_of,
    lemma_square, lemma_total2_not_negative, lemma_total2_scaled, lemma_total_ext,
    lemma_total_not_negative, lemma_total_scaled, lemma_total_split, magnitude, total,
};
use crate::matrix::{s_product_at, Matrix};
use crate::objective::PriorTerm;
use crate::peaks::{
    lemma_exact_grid_max_of, lemma_exact_max_of, lemma_exact_ragged_max_of, lemma_peak_ext,
    lemma_peak_scaled, lemma_peak_split, peak,
};
use crate::scalar::Scalar;
use crate::term::{uses_in_row, uses_of, SaeSupportSparseTerm};
use vstd::prelude::*;

verus! {

proof fn lemma_uses_in_a_later_row(support: Seq<u32>, row: int, by: int, n: int, a: int)
    requires
        0 <= n <= support.len() <= usize::MAX,
        0 <= row,
        0 <= by,
        row + by <= usize::MAX,
    ensures
        uses_in_row(support, row + by, n, a).len() == uses_in_row(support, row, n, a).len(),
        forall|e: int|
            0 <= e < uses_in_row(support, row, n, a).len() ==> #[trigger] uses_in_row(
                support,
                row + by,
                n,
                a,
            )[e] == ((row + by) as usize, uses_in_row(support, row, n, a)[e].1),
        forall|e: int|
            0 <= e < uses_in_row(support, row, n, a).len() ==> (#[trigger] uses_in_row(
                support,
                row,
                n,
                a,
            )[e]).0 == row as usize,
    decreases n,
{
    if n > 0 {
        lemma_uses_in_a_later_row(support, row, by, n - 1, a);
    }
}

proof fn lemma_uses_of_a_prefix(supports: Seq<Seq<u32>>, more: Seq<Seq<u32>>, n: int, a: int)
    requires
        0 <= n <= supports.len(),
    ensures
        uses_of(supports + more, n, a) == uses_of(supports, n, a),
    decreases n,
{
    if n > 0 {
        lemma_uses_of_a_prefix(supports, more, n - 1, a);
        assert((supports + more)[n - 1] == supports[n - 1]);
    }
}

/// A use, `by` rows later.
pub open spec fn later(entry: (usize, usize), by: int) -> (usize, usize) {
    ((entry.0 + by) as usize, entry.1)
}

/// The uses in a list of rows followed by its first `n` rows.
proof fn lemma_uses_of_a_repetition(supports: Seq<Seq<u32>>, n: int, a: int)
    requires
        0 <= n <= supports.len(),
        2 * supports.len() <= usize::MAX,
        forall|r: int| 0 <= r < supports.len() ==> (#[trigger] supports[r]).len() <= usize::MAX,
    ensures
        ({
            let whole = uses_of(supports, supports.len() as int, a);
            let part = uses_of(supports, n, a);
            let all = uses_of(supports + supports, supports.len() + n, a);
            &&& all.len() == whole.len() + part.len()
            &&& forall|e: int| 0 <= e < whole.len() ==> #[trigger] all[e] == whole[e]
            &&& forall|e: int|
                0 <= e < part.len() ==> all[whole.len() + e] == later(
                    #[trigger] part[e],
                    supports.len() as int,
                ) && part[e].0 < n
        }),
    decreases n,
{
    let twice = supports + supports;
    let size = supports.len() as int;
    if n > 0 {
        lemma_uses_of_a_repetition(supports, n - 1, a);
        let last = supports[n - 1];
        assert(twice[size + n - 1] == last);
        lemma_uses_in_a_later_row(last, n - 1, size, last.len() as int, a);
        let whole = uses_of(supports, size, a);
        let part = uses_of(supports, n, a);
        let rest = uses_of(supports, n - 1, a);
        let tail = uses_in_row(last, n - 1, last.len() as int, a);
        let all = uses_of(twice, size + n, a);
        let before = uses_of(twice, size + n - 1, a);
        let after = uses_in_row(last, size + n - 1, last.len() as int, a);
        assert(all == before + after);
        assert(part == rest + tail);
        assert(before.len() == whole.len() + rest.len());
        assert forall|e: int| 0 <= e < whole.len() implies #[trigger] all[e] == whole[e] by {
            assert(all[e] == before[e]);
        }
        assert forall|e: int| 0 <= e < part.len() implies all[whole.len() + e] == later(
            #[trigger] part[e],
            size,
        ) && part[e].0 < n by {
            if e < rest.len() {
                assert(all[whole.len() + e] == before[whole.len() + e]);
                assert(part[e] == rest[e]);
                assert(before[whole.len() + e] == later(rest[e], size));
            } else {
                let j = e - rest.len();
                assert(part[e] == tail[j]);
                assert(all[whole.len() + e] == after[j]);
                assert(after[j] == ((n - 1 + size) as usize, tail[j].1));
            }
        }
    } else {
        lemma_uses_of_a_prefix(supports, supports, size, a);
    }
}

/// `twice` has the atoms of `term`, and its rows twice over, one list after the
/// other, each with the evaluations, residuals and priors it has in `term`.
pub open spec fn is_listed_twice<S: Scalar>(
    term: &SaeSupportSparseTerm<S>,
    table: Seq<Vec<BasisEval<S>>>,
    residual: &Matrix<S>,
    priors: Seq<Vec<Vec<PriorTerm<S>>>>,
    twice: &SaeSupportSparseTerm<S>,
    table2: Seq<Vec<BasisEval<S>>>,
    residual2: &Matrix<S>,
    priors2: Seq<Vec<Vec<PriorTerm<S>>>>,
) -> bool {
    &&& twice.width() == term.width()
    &&& twice.atom_seq() == term.atom_seq()
    &&& twice.state().dims() == term.state().dims()
    &&& twice.state().supports() == term.state().supports() + term.state().supports()
    &&& forall|r: int|
        0 <= r < term.rows() ==> #[trigger] is_same_row(
            term,
            table,
            residual,
            priors,
            r,
            table2,
            residual2,
            priors2,
            r,
        )
    &&& forall|r: int|
        0 <= r < term.rows() ==> #[trigger] is_same_row(
            term,
            table,
            residual,
            priors,
            r,
            table2,
            residual2,
            priors2,
            r + term.rows(),
        )
}

/// Row `s` of the second lists is row `r` of the first.
pub open spec fn is_same_row<S: Scalar>(
    term: &SaeSupportSparseTerm<S>,
    table: Seq<Vec<BasisEval<S>>>,
    residual: &Matrix<S>,
    priors: Seq<Vec<Vec<PriorTerm<S>>>>,
    r: int,
    table2: Seq<Vec<BasisEval<S>>>,
    residual2: &Matrix<S>,
    priors2: Seq<Vec<Vec<PriorTerm<S>>>>,
    s: int,
) -> bool {
    &&& table2[s]@ == table[r]@
    &&& priors2[s]@ == priors[r]@
    &&& forall|c: int| 0 <= c < term.width() ==> residual2.at(s, c) == #[trigger] residual.at(r, c)
}

/// A sum whose second half repeats its first.
proof fn lemma_repeated_total(n: int, f: spec_fn(int) -> real, g: spec_fn(int) -> real)
    requires
        0 <= n,
        forall|e: int| 0 <= e < n ==> #[trigger] f(e) == g(e),
        forall|e: int| 0 <= e < n ==> f(e) == #[trigger] g(n + e),
    ensures
        total(2 * n, g) == 2 as real * total(n, f),
{
    lemma_total_split(n, n, g);
    lemma_total_ext(n, f, g);
    let later = |j: int| g(n + j);
    assert forall|e: int| 0 <= e < n implies #[trigger] f(e) == later(e) by {
        assert(f(e) == g(n + e));
    }
    lemma_total_ext(n, f, later);
}

/// A largest value whose second half repeats its first.
proof fn lemma_repeated_peak(n: int, f: spec_fn(int) -> real, g: spec_fn(int) -> real)
    requires
        0 <= n,
        forall|e: int| 0 <= e < n ==> #[trigger] f(e) == g(e),
        forall|e: int| 0 <= e < n ==> f(e) == #[trigger] g(n + e),
    ensures
        peak(2 * n, g) == peak(n, f),
{
    lemma_peak_split(n, n, g);
    lemma_peak_ext(n, f, g);
    let later = |j: int| g(n + j);
    assert forall|e: int| 0 <= e < n implies #[trigger] f(e) == later(e) by {
        assert(f(e) == g(n + e));
    }
    lemma_peak_ext(n, f, later);
}

proof fn lemma_repeated_uses<S: Scalar>(
    term: &SaeSupportSparseTerm<S>,
    twice: &SaeSupportSparseTerm<S>,
    a: int,
)
    requires
        term.wf(),
        twice.wf(),
        twice.atom_seq() == term.atom_seq(),
        twice.state().supports() == term.state().supports() + term.state().supports(),
        0 <= a < term.k(),
    ensures
        twice.uses()[a].len() == 2 * term.uses()[a].len(),
        forall|e: int|
            0 <= e < term.uses()[a].len() ==> #[trigger] twice.uses()[a][e] == term.uses()[a][e],
        forall|e: int|
            0 <= e < term.uses()[a].len() ==> twice.uses()[a][term.uses()[a].len() + e] == later(
                #[trigger] term.uses()[a][e],
                term.rows() as int,
            ) && term.uses()[a][e].0 < term.rows(),
{
    let supports = term.state().supports();
    assert forall|r: int| 0 <= r < supports.len() implies (#[trigger] supports[r]).len()
        <= usize::MAX by {
        assert(1 <= term.support(r).len() <= term.state().mode_spec()->k);
    }
    lemma_uses_of_a_repetition(supports, supports.len() as int, a);
}

/// A decoder entry's gradient and curvature double.
proof fn lemma_repeated_entry<S: Scalar>(
    v: spec_fn(S) -> real,
    term: &SaeSupportSparseTerm<S>,
    lambda: Seq<S>,
    table: Seq<Vec<BasisEval<S>>>,
    residual: &Matrix<S>,
    priors: Seq<Vec<Vec<PriorTerm<S>>>>,
    twice: &SaeSupportSparseTerm<S>,
    lambda2: Seq<S>,
    table2: Seq<Vec<BasisEval<S>>>,
    residual2: &Matrix<S>,
    priors2: Seq<Vec<Vec<PriorTerm<S>>>>,
    a: int,
    b: int,
    c: int,
)
    requires
        is_exact(v),
        term.wf(),
        twice.wf(),
        is_listed_twice(term, table, residual, priors, twice, table2, residual2, priors2),
        0 <= a < term.k(),
        0 <= c < term.width(),
        v(lambda2[a]) == 2 as real * v(lambda[a]),
    ensures
        v(
            twice.decoder_grad(
                residual2,
                lambda2,
                table2,
                a,
                b,
                c,
                twice.uses()[a].len() as int,
            ),
        ) == 2 as real * v(
            term.decoder_grad(residual, lambda, table, a, b, c, term.uses()[a].len() as int),
        ),
        v(twice.decoder_curv(lambda2, table2, a, b, twice.uses()[a].len() as int)) == 2 as real * v(
            term.decoder_curv(lambda, table, a, b, term.uses()[a].len() as int),
        ),
{
    lemma_repeated_uses(term, twice, a);
    let n = term.uses()[a].len() as int;
    let rows = term.rows() as int;
    let atom = term.atom_seq()[a];
    let f = |e: int|
        term.use_phi(table, a, e)[b].s_times(residual.at(term.uses()[a][e].0 as int, c));
    let f2 = |e: int|
        twice.use_phi(table2, a, e)[b].s_times(residual2.at(twice.uses()[a][e].0 as int, c));
    let h = |e: int| term.use_phi(table, a, e)[b].s_times(term.use_phi(table, a, e)[b]);
    let h2 = |e: int| twice.use_phi(table2, a, e)[b].s_times(twice.use_phi(table2, a, e)[b]);
    let g = |e: int| v(f(e));
    let g2 = |e: int| v(f2(e));
    let k = |e: int| v(h(e));
    let k2 = |e: int| v(h2(e));
    assert forall|e: int|
        #![trigger g(e)]
        #![trigger k(e)]
        0 <= e < n implies g(e) == g2(e) && k(e) == k2(e) by {
        assert(twice.uses()[a][e] == term.uses()[a][e]);
        let r = term.uses()[a][e].0 as int;
        assert(is_same_row(term, table, residual, priors, r, table2, residual2, priors2, r));
        assert(residual2.at(r, c) == residual.at(r, c));
    }
    assert forall|e: int|
        #![trigger g2(n + e)]
        #![trigger k2(n + e)]
        0 <= e < n implies g(e) == g2(n + e) && k(e) == k2(n + e) by {
        assert(twice.uses()[a][n + e] == later(term.uses()[a][e], rows));
        let r = term.uses()[a][e].0 as int;
        assert(twice.rows() == 2 * rows);
        assert(r + rows <= usize::MAX);
        assert(is_same_row(term, table, residual, priors, r, table2, residual2, priors2, r + rows));
        assert(residual2.at(r + rows, c) == residual.at(r, c));
    }
    lemma_repeated_total(n, g, g2);
    lemma_repeated_total(n, k, k2);
    let smooth = s_product_at(&atom.penalty(), &atom.decoder(), b, c, atom.m() as int);
    lemma_exact_less_of(v, smooth.s_times(lambda[a]), n, f, g);
    lemma_exact_less_of(v, smooth.s_times(lambda2[a]), 2 * n, f2, g2);
    lemma_exact_sum_of(v, lambda[a].s_times(atom.roughness(b, b)), n, h, k);
    lemma_exact_sum_of(v, lambda2[a].s_times(atom.roughness(b, b)), 2 * n, h2, k2);
    let x = v(smooth);
    let y = v(lambda[a]);
    let z = v(atom.roughness(b, b));
    assert(x * (2 as real * y) == 2 as real * (x * y)) by (nonlinear_arith);
    assert((2 as real * y) * z == 2 as real * (y * z)) by (nonlinear_arith);
}

/// One atom's norms: the raw ones grow, the scaled one stays.
proof fn lemma_repeated_atom<S: Scalar>(
    v: spec_fn(S) -> real,
    term: &SaeSupportSparseTerm<S>,
    lambda: Seq<S>,
    table: Seq<Vec<BasisEval<S>>>,
    residual: &Matrix<S>,
    priors: Seq<Vec<Vec<PriorTerm<S>>>>,
    twice: &SaeSupportSparseTerm<S>,
    lambda2: Seq<S>,
    table2: Seq<Vec<BasisEval<S>>>,
    residual2: &Matrix<S>,
    priors2: Seq<Vec<Vec<PriorTerm<S>>>>,
    a: int,
)
    requires
        is_exact(v),
        term.wf(),
        twice.wf(),
        is_listed_twice(term, table, residual, priors, twice, table2, residual2, priors2),
        0 <= a < term.k(),
        v(lambda2[a]) == 2 as real * v(lambda[a]),
    ensures
        v(twice.decoder_norms_spec(residual2, lambda2, table2, a).max) == 2 as real * v(
            term.decoder_norms_spec(residual, lambda, table, a).max,
        ),
        v(twice.decoder_norms_spec(residual2, lambda2, table2, a).scaled_max) == v(
            term.decoder_norms_spec(residual, lambda, table, a).scaled_max,
        ),
        v(twice.decoder_norms_spec(residual2, lambda2, table2, a).sq) == 4 as real * v(
            term.decoder_norms_spec(residual, lambda, table, a).sq,
        ),
        v(term.decoder_norms_spec(residual, lambda, table, a).sq) >= 0 as real,
{
    let n = term.uses()[a].len() as int;
    let n2 = twice.uses()[a].len() as int;
    let m = term.atom_seq()[a].m() as int;
    let p = term.width() as int;
    let grad = |b: int, c: int| v(term.decoder_grad(residual, lambda, table, a, b, c, n));
    let grad2 = |b: int, c: int| v(twice.decoder_grad(residual2, lambda2, table2, a, b, c, n2));
    let curv = |b: int| v(term.decoder_curv(lambda, table, a, b, n));
    let curv2 = |b: int| v(twice.decoder_curv(lambda2, table2, a, b, n2));
    assert forall|b: int, c: int|
        #![trigger grad2(b, c)]
        #![trigger grad(b, c)]
        0 <= b < m && 0 <= c < p implies {
        &&& grad2(b, c) == 2 as real * grad(b, c)
        &&& curv2(b) == 2 as real * curv(b)
    } by {
        lemma_repeated_entry(
            v,
            term,
            lambda,
            table,
            residual,
            priors,
            twice,
            lambda2,
            table2,
            residual2,
            priors2,
            a,
            b,
            c,
        );
    }
    // The largest entry.
    let f = |b: int, c: int|
        term.decoder_grad(residual, lambda, table, a, b, c, n).s_magnitude();
    let f2 = |b: int, c: int|
        twice.decoder_grad(residual2, lambda2, table2, a, b, c, n2).s_magnitude();
    let high = |b: int, c: int| magnitude(grad(b, c));
    let high2 = |b: int, c: int| magnitude(grad2(b, c));
    lemma_exact_grid_max_of(v, m, p, f, high);
    lemma_exact_grid_max_of(v, m, p, f2, high2);
    let lines = |r: int| peak(p, |c: int| high(r, c));
    let lines2 = |r: int| peak(p, |c: int| high2(r, c));
    assert forall|b: int| 0 <= b < m implies #[trigger] lines2(b) == 2 as real * lines(b) by {
        let one = |c: int| high(b, c);
        let two = |c: int| high2(b, c);
        assert forall|c: int| 0 <= c < p implies #[trigger] two(c) == 2 as real * one(c) by {
            assert(grad2(b, c) == 2 as real * grad(b, c));
        }
        lemma_peak_scaled(p, 2 as real, one, two);
    }
    lemma_peak_scaled(m, 2 as real, lines, lines2);
    // The squares.
    let q = |b: int, c: int|
        term.decoder_grad(residual, lambda, table, a, b, c, n).s_times(
            term.decoder_grad(residual, lambda, table, a, b, c, n),
        );
    let q2 = |b: int, c: int|
        twice.decoder_grad(residual2, lambda2, table2, a, b, c, n2).s_times(
            twice.decoder_grad(residual2, lambda2, table2, a, b, c, n2),
        );
    let square = |b: int, c: int| grad(b, c) * grad(b, c);
    let square2 = |b: int, c: int| grad2(b, c) * grad2(b, c);
    lemma_exact_grid_of(v, S::s_zero(), m, p, q, square);
    lemma_exact_grid_of(v, S::s_zero(), m, p, q2, square2);
    assert forall|b: int, c: int| 0 <= b < m && 0 <= c < p implies #[trigger] square2(b, c)
        == 4 as real * square(b, c) by {
        let x = grad(b, c);
        assert(grad2(b, c) == 2 as real * x);
        assert((2 as real * x) * (2 as real * x) == 4 as real * (x * x)) by (nonlinear_arith);
    }
    lemma_total2_scaled(m, p, 4 as real, square, square2);
    assert forall|b: int, c: int| 0 <= b < m && 0 <= c < p implies #[trigger] square(b, c)
        >= 0 as real by {
        lemma_square(grad(b, c));
    }
    lemma_total2_not_negative(m, p, square);
    // The scaled entries.
    let keep = |b: int, c: int| S::s_zero().s_below(term.decoder_curv(lambda, table, a, b, n));
    let keep2 = |b: int, c: int|
        S::s_zero().s_below(twice.decoder_curv(lambda2, table2, a, b, n2));
    let s = |b: int, c: int|
        term.decoder_grad(residual, lambda, table, a, b, c, n).s_magnitude().s_over(
            term.decoder_curv(lambda, table, a, b, n),
        );
    let s2 = |b: int, c: int|
        twice.decoder_grad(residual2, lambda2, table2, a, b, c, n2).s_magnitude().s_over(
            twice.decoder_curv(lambda2, table2, a, b, n2),
        );
    let width = |b: int| p;
    let scaled = |b: int, c: int|
        if keep(b, c) {
            v(s(b, c))
        } else {
            0 as real
        };
    lemma_exact_ragged_max_of(v, m, width, keep, s, scaled);
    assert forall|b: int, c: int| 0 <= b < m && 0 <= c < width(b) implies #[trigger] scaled(b, c)
        == (if keep2(b, c) {
        v(s2(b, c))
    } else {
        0 as real
    }) by {
        assert(grad2(b, c) == 2 as real * grad(b, c));
        let x = magnitude(grad(b, c));
        let d = curv(b);
        if d > 0 as real {
            assert((2 as real * x) / (2 as real * d) == x / d) by (nonlinear_arith)
                requires
                    d > 0 as real,
            ;
        }
    }
    lemma_exact_ragged_max_of(v, m, width, keep2, s2, scaled);
}

/// A repeated row has the norms it had.
proof fn lemma_repeated_row<S: Scalar>(
    v: spec_fn(S) -> real,
    term: &SaeSupportSparseTerm<S>,
    table: Seq<Vec<BasisEval<S>>>,
    residual: &Matrix<S>,
    priors: Seq<Vec<Vec<PriorTerm<S>>>>,
    twice: &SaeSupportSparseTerm<S>,
    table2: Seq<Vec<BasisEval<S>>>,
    residual2: &Matrix<S>,
    priors2: Seq<Vec<Vec<PriorTerm<S>>>>,
    r: int,
    s: int,
)
    requires
        is_exact(v),
        twice.width() == term.width(),
        twice.atom_seq() == term.atom_seq(),
        twice.state().dims() == term.state().dims(),
        twice.support(s) == term.support(r),
        is_same_row(term, table, residual, priors, r, table2, residual2, priors2, s),
    ensures
        v(twice.coordinate_norms_spec(residual2, table2, priors2, s).max) == v(
            term.coordinate_norms_spec(residual, table, priors, r).max,
        ),
        v(twice.coordinate_norms_spec(residual2, table2, priors2, s).scaled_max) == v(
            term.coordinate_norms_spec(residual, table, priors, r).scaled_max,
        ),
{
    let n = term.support(r).len() as int;
    let w = |slot: int| term.state().slot_dim(r, slot) as int;
    let w2 = |slot: int| twice.state().slot_dim(s, slot) as int;
    let p = term.width() as int;
    assert(w =~= w2);
    let grad = |slot: int, axis: int|
        term.coord_grad(residual, table, priors, r, slot, axis);
    let grad2 = |slot: int, axis: int|
        twice.coord_grad(residual2, table2, priors2, s, slot, axis);
    let curv = |slot: int, axis: int| term.coord_curv(table, priors, r, slot, axis);
    let curv2 = |slot: int, axis: int| twice.coord_curv(table2, priors2, s, slot, axis);
    assert forall|slot: int, axis: int|
        #![trigger grad(slot, axis)]
        #![trigger grad2(slot, axis)]
        #![trigger curv(slot, axis)]
        #![trigger curv2(slot, axis)]
        0 <= slot < n && 0 <= axis < w(slot) implies {
        &&& v(grad2(slot, axis)) == v(grad(slot, axis))
        &&& v(curv2(slot, axis)) == v(curv(slot, axis))
    } by {
        let f = |c: int| term.tangent(table, r, slot, axis, c).s_times(residual.at(r, c));
        let f2 = |c: int| twice.tangent(table2, s, slot, axis, c).s_times(residual2.at(s, c));
        let h = |c: int|
            term.tangent(table, r, slot, axis, c).s_times(term.tangent(table, r, slot, axis, c));
        let h2 = |c: int|
            twice.tangent(table2, s, slot, axis, c).s_times(
                twice.tangent(table2, s, slot, axis, c),
            );
        let g = |c: int| v(f(c));
        let k = |c: int| v(h(c));
        assert forall|c: int| 0 <= c < p implies v(f2(c)) == #[trigger] g(c) by {
            assert(residual2.at(s, c) == residual.at(r, c));
        }
        lemma_exact_less_of(v, S::s_zero(), p, f, g);
        lemma_exact_less_of(v, S::s_zero(), p, f2, g);
        lemma_exact_sum_of(v, S::s_zero(), p, h, k);
        lemma_exact_sum_of(v, S::s_zero(), p, h2, k);
    }
    let f = |slot: int, axis: int|
        term.coord_grad(residual, table, priors, r, slot, axis).s_magnitude();
    let f2 = |slot: int, axis: int|
        twice.coord_grad(residual2, table2, priors2, s, slot, axis).s_magnitude();
    let all = |slot: int, axis: int| true;
    let high = |slot: int, axis: int| v(f(slot, axis));
    assert forall|slot: int, axis: int| 0 <= slot < n && 0 <= axis < w(slot) implies
        #[trigger] high(slot, axis) == v(f2(slot, axis)) by {
        assert(v(grad2(slot, axis)) == v(grad(slot, axis)));
    }
    lemma_exact_ragged_max_of(v, n, w, all, f, high);
    lemma_exact_ragged_max_of(v, n, w, all, f2, high);
    let keep = |slot: int, axis: int|
        S::s_zero().s_below(term.coord_curv(table, priors, r, slot, axis));
    let keep2 = |slot: int, axis: int|
        S::s_zero().s_below(twice.coord_curv(table2, priors2, s, slot, axis));
    let q = |slot: int, axis: int|
        term.coord_grad(residual, table, priors, r, slot, axis).s_magnitude().s_over(
            term.coord_curv(table, priors, r, slot, axis),
        );
    let q2 = |slot: int, axis: int|
        twice.coord_grad(residual2, table2, priors2, s, slot, axis).s_magnitude().s_over(
            twice.coord_curv(table2, priors2, s, slot, axis),
        );
    let scaled = |slot: int, axis: int|
        if keep(slot, axis) {
            v(q(slot, axis))
        } else {
            0 as real
        };
    assert forall|slot: int, axis: int| 0 <= slot < n && 0 <= axis < w(slot) implies
        #[trigger] scaled(slot, axis) == (if keep2(slot, axis) {
        v(q2(slot, axis))
    } else {
        0 as real
    }) by {
        assert(v(grad2(slot, axis)) == v(grad(slot, axis)));
        assert(v(curv2(slot, axis)) == v(curv(slot, axis)));
    }
    lemma_exact_ragged_max_of(v, n, w, keep, q, scaled);
    lemma_exact_ragged_max_of(v, n, w, keep2, q2, scaled);
}

/// A corpus with every row listed twice and every smoothing strength doubled is
/// certified as before: the scaled norms stay. The decoder's raw norms double, and
/// the largest raw coordinate gradient stays.
pub proof fn law_a_corpus_listed_twice_keeps_its_scaled_norms<S: Scalar>(
    v: spec_fn(S) -> real,
    term: &SaeSupportSparseTerm<S>,
    lambda: Seq<S>,
    table: Seq<Vec<BasisEval<S>>>,
    residual: &Matrix<S>,
    priors: Seq<Vec<Vec<PriorTerm<S>>>>,
    twice: &SaeSupportSparseTerm<S>,
    lambda2: Seq<S>,
    table2: Seq<Vec<BasisEval<S>>>,
    residual2: &Matrix<S>,
    priors2: Seq<Vec<Vec<PriorTerm<S>>>>,
)
    requires
        is_exact(v),
        term.wf(),
        twice.wf(),
        is_listed_twice(term, table, residual, priors, twice, table2, residual2, priors2),
        forall|a: int|
            0 <= a < term.k() ==> v(#[trigger] lambda2[a]) == 2 as real * v(lambda[a]),
    ensures
        ({
            let once = SaeSupportSparseTerm::stationarity_of(
                term.decoder_totals(residual, lambda, table, term.k() as int),
                term.coordinate_totals(residual, table, priors, term.rows() as int),
            );
            let again = SaeSupportSparseTerm::stationarity_of(
                twice.decoder_totals(residual2, lambda2, table2, twice.k() as int),
                twice.coordinate_totals(residual2, table2, priors2, twice.rows() as int),
            );
            &&& v(again.decoder_scaled_max_abs) == v(once.decoder_scaled_max_abs)
            &&& v(again.coordinate_scaled_max_abs) == v(once.coordinate_scaled_max_abs)
            &&& v(again.decoder_max_abs) == 2 as real * v(once.decoder_max_abs)
            &&& v(again.decoder_l2) == 2 as real * v(once.decoder_l2)
            &&& v(again.coordinate_max_abs) == v(once.coordinate_max_abs)
        }),
{
    let k = term.k() as int;
    let rows = term.rows() as int;
    let f_max = |a: int| term.decoder_norms_spec(residual, lambda, table, a).max;
    let f_max2 = |a: int| twice.decoder_norms_spec(residual2, lambda2, table2, a).max;
    let f_scaled = |a: int| term.decoder_norms_spec(residual, lambda, table, a).scaled_max;
    let f_scaled2 = |a: int| twice.decoder_norms_spec(residual2, lambda2, table2, a).scaled_max;
    let f_sq = |a: int| term.decoder_norms_spec(residual, lambda, table, a).sq;
    let f_sq2 = |a: int| twice.decoder_norms_spec(residual2, lambda2, table2, a).sq;
    let high = |a: int| v(f_max(a));
    let high2 = |a: int| v(f_max2(a));
    let scaled = |a: int| v(f_scaled(a));
    let sq = |a: int| v(f_sq(a));
    let sq2 = |a: int| v(f_sq2(a));
    assert forall|a: int|
        #![trigger high2(a)]
        #![trigger scaled(a)]
        #![trigger sq2(a)]
        #![trigger sq(a)]
        0 <= a < k implies {
        &&& high2(a) == 2 as real * high(a)
        &&& scaled(a) == v(f_scaled2(a))
        &&& sq2(a) == 4 as real * sq(a)
        &&& sq(a) >= 0 as real
    } by {
        assert(v(lambda2[a]) == 2 as real * v(lambda[a]));
        lemma_repeated_atom(
            v,
            term,
            lambda,
            table,
            residual,
            priors,
            twice,
            lambda2,
            table2,
            residual2,
            priors2,
            a,
        );
    }
    lemma_exact_max_of(v, k, f_max, high);
    lemma_exact_max_of(v, k, f_max2, high2);
    lemma_peak_scaled(k, 2 as real, high, high2);
    lemma_exact_max_of(v, k, f_scaled, scaled);
    lemma_exact_max_of(v, k, f_scaled2, scaled);
    lemma_exact_sum_of(v, S::s_zero(), k, f_sq, sq);
    lemma_exact_sum_of(v, S::s_zero(), k, f_sq2, sq2);
    lemma_total_scaled(k, 4 as real, sq);
    lemma_total_ext(k, sq2, |a: int| 4 as real * sq(a));
    lemma_total_not_negative(k, sq);
    let x = total(k, sq);
    let root = v(term.decoder_totals(residual, lambda, table, k).sq.s_root());
    let root2 = v(twice.decoder_totals(residual2, lambda2, table2, k).sq.s_root());
    assert(root2 == 2 as real * root) by (nonlinear_arith)
        requires
            root >= 0 as real,
            root * root == x,
            root2 >= 0 as real,
            root2 * root2 == 4 as real * x,
    {
        assert((root2 - 2 as real * root) * (root2 + 2 as real * root) == 0 as real);
    }
    // The rows.
    let r_max = |row: int| term.coordinate_norms_spec(residual, table, priors, row).max;
    let r_max2 = |row: int| twice.coordinate_norms_spec(residual2, table2, priors2, row).max;
    let r_scaled = |row: int| term.coordinate_norms_spec(residual, table, priors, row).scaled_max;
    let r_scaled2 = |row: int|
        twice.coordinate_norms_spec(residual2, table2, priors2, row).scaled_max;
    let up = |row: int| v(r_max(row));
    let up2 = |row: int| v(r_max2(row));
    let over = |row: int| v(r_scaled(row));
    let over2 = |row: int| v(r_scaled2(row));
    assert(twice.rows() == 2 * rows);
    assert forall|r: int|
        #![trigger up(r)]
        #![trigger over(r)]
        0 <= r < rows implies up(r) == up2(r) && over(r) == over2(r) by {
        assert(is_same_row(term, table, residual, priors, r, table2, residual2, priors2, r));
        assert(twice.support(r) == term.support(r));
        lemma_repeated_row(
            v,
            term,
            table,
            residual,
            priors,
            twice,
            table2,
            residual2,
            priors2,
            r,
            r,
        );
    }
    assert forall|r: int|
        #![trigger up2(rows + r)]
        #![trigger over2(rows + r)]
        0 <= r < rows implies up(r) == up2(rows + r) && over(r) == over2(rows + r) by {
        assert(is_same_row(term, table, residual, priors, r, table2, residual2, priors2, r + rows));
        assert(twice.support(r + rows) == term.support(r));
        lemma_repeated_row(
            v,
            term,
            table,
            residual,
            priors,
            twice,
            table2,
            residual2,
            priors2,
            r,
            r + rows,
        );
    }
    lemma_exact_max_of(v, rows, r_max, up);
    lemma_exact_max_of(v, 2 * rows, r_max2, up2);
    lemma_repeated_peak(rows, up, up2);
    lemma_exact_max_of(v, rows, r_scaled, over);
    lemma_exact_max_of(v, 2 * rows, r_scaled2, over2);
    lemma_repeated_peak(rows, over, over2);
}

} // verus!
