//! The assembled system against the first-order residual, in exact arithmetic.
use crate::active::BasisEval;
use crate::arrow::{row_gradients, ArrowRow, ArrowSchurSystem};
use crate::coordinates::flat;
use crate::exact::{
    is_exact, is_root, lemma_exact_grid_of, lemma_exact_less_of, lemma_exact_sum_of, lemma_square,
    lemma_total2_ext, lemma_total2_lines, lemma_total_ext, lemma_total_not_negative, magnitude, total,
};
use crate::forms::{bilinear, is_semidefinite, lemma_layout_total};
use crate::gram::{gram, law_a_gram_matrix_is_semidefinite, with_diagonal};
use crate::layout::{beta_index, beta_start};
use crate::matrix::{s_product_at, Matrix};
use crate::objective::PriorTerm;
use crate::peaks::{
    lemma_exact_grid_max_of, lemma_exact_max_of, lemma_exact_ragged_max_of,
    lemma_exact_ragged_sum_of, lemma_layout_peak, lemma_peak_ext, lemma_rows, lemma_slots, peak,
};
use crate::scalar::{s_dot, Scalar};
use crate::term::SaeSupportSparseTerm;
use vstd::prelude::*;

verus! {

/// The sum of the squares of `values`.
pub open spec fn energy<S>(v: spec_fn(S) -> real, values: Seq<S>) -> real {
    total(values.len() as int, |i: int| v(values[i]) * v(values[i]))
}

/// The largest magnitude among `values`, or zero where there are none.
pub open spec fn summit<S>(v: spec_fn(S) -> real, values: Seq<S>) -> real {
    peak(values.len() as int, |i: int| magnitude(v(values[i])))
}

/// The assembly and the first-order residual add a decoder entry's parts in
/// different orders.
proof fn lemma_decoder_entry<S: Scalar>(
    v: spec_fn(S) -> real,
    term: &SaeSupportSparseTerm<S>,
    residual: &Matrix<S>,
    lambda: Seq<S>,
    table: Seq<Vec<BasisEval<S>>>,
    a: int,
    b: int,
    c: int,
)
    requires
        is_exact(v),
    ensures
        v(term.beta_grad(residual, lambda, table, a, b, c)) == v(
            term.decoder_grad(residual, lambda, table, a, b, c, term.uses()[a].len() as int),
        ),
{
    let n = term.uses()[a].len() as int;
    let atom = term.atom_seq()[a];
    let f = |e: int|
        term.use_phi(table, a, e)[b].s_times(residual.at(term.uses()[a][e].0 as int, c));
    let g = |e: int| v(f(e));
    let smooth = s_product_at(&atom.penalty(), &atom.decoder(), b, c, atom.m() as int);
    lemma_exact_less_of(v, S::s_zero(), n, f, g);
    lemma_exact_less_of(v, smooth.s_times(lambda[a]), n, f, g);
    let x = v(smooth);
    let y = v(lambda[a]);
    assert(x * y == y * x) by (nonlinear_arith);
}

proof fn lemma_decoder_norms<S: Scalar>(
    v: spec_fn(S) -> real,
    term: &SaeSupportSparseTerm<S>,
    residual: &Matrix<S>,
    lambda: Seq<S>,
    table: Seq<Vec<BasisEval<S>>>,
    gb: Seq<S>,
    a: int,
)
    requires
        is_exact(v),
        0 <= a < term.k(),
        forall|b: int, c: int|
            0 <= b < term.basis_sizes()[a] && 0 <= c < term.width() ==> #[trigger] gb[beta_index(
                term.basis_sizes(),
                term.width(),
                a,
                b,
                c,
            )] == term.beta_grad(residual, lambda, table, a, b, c),
    ensures
        v(term.decoder_norms_spec(residual, lambda, table, a).max) == peak(
            term.basis_sizes()[a] as int,
            |b: int|
                peak(
                    term.width() as int,
                    |c: int|
                        magnitude(
                            v(gb[beta_index(term.basis_sizes(), term.width(), a, b, c)]),
                        ),
                ),
        ),
        v(term.decoder_norms_spec(residual, lambda, table, a).sq) == total(
            term.basis_sizes()[a] as int,
            |b: int|
                total(
                    term.width() as int,
                    |c: int|
                        v(gb[beta_index(term.basis_sizes(), term.width(), a, b, c)]) * v(
                            gb[beta_index(term.basis_sizes(), term.width(), a, b, c)],
                        ),
                ),
        ),
{
    let n = term.uses()[a].len() as int;
    let m = term.basis_sizes()[a] as int;
    let w = term.width() as int;
    let sizes = term.basis_sizes();
    let width = term.width();
    assert(m == term.atom_seq()[a].m());
    let grad = |b: int, c: int| term.decoder_grad(residual, lambda, table, a, b, c, n);
    let high = |b: int, c: int| magnitude(v(grad(b, c)));
    let square = |b: int, c: int| v(grad(b, c)) * v(grad(b, c));
    let f_max = |b: int, c: int|
        term.decoder_grad(residual, lambda, table, a, b, c, n).s_magnitude();
    let f_sq = |b: int, c: int|
        term.decoder_grad(residual, lambda, table, a, b, c, n).s_times(
            term.decoder_grad(residual, lambda, table, a, b, c, n),
        );
    lemma_exact_grid_max_of(v, m, w, f_max, high);
    lemma_exact_grid_of(v, S::s_zero(), m, w, f_sq, square);
    let p1 = |b: int| peak(w, |c: int| high(b, c));
    let p2 = |b: int| peak(w, |c: int| magnitude(v(gb[beta_index(sizes, width, a, b, c)])));
    let t1 = |b: int| total(w, |c: int| square(b, c));
    let t2 = |b: int|
        total(
            w,
            |c: int|
                v(gb[beta_index(sizes, width, a, b, c)]) * v(
                    gb[beta_index(sizes, width, a, b, c)],
                ),
        );
    assert forall|b: int|
        #![trigger p1(b)]
        #![trigger t1(b)]
        0 <= b < m implies p1(b) == p2(b) && t1(b) == t2(b) by {
        let h1 = |c: int| high(b, c);
        let h2 = |c: int| magnitude(v(gb[beta_index(sizes, width, a, b, c)]));
        let s1 = |c: int| square(b, c);
        let s2 = |c: int|
            v(gb[beta_index(sizes, width, a, b, c)]) * v(gb[beta_index(sizes, width, a, b, c)]);
        assert forall|c: int|
            #![trigger h1(c)]
            #![trigger s1(c)]
            0 <= c < w implies h1(c) == h2(c) && s1(c) == s2(c) by {
            lemma_decoder_entry(v, term, residual, lambda, table, a, b, c);
            assert(gb[beta_index(sizes, width, a, b, c)] == term.beta_grad(
                residual,
                lambda,
                table,
                a,
                b,
                c,
            ));
        }
        lemma_peak_ext(w, h1, h2);
        lemma_total_ext(w, s1, s2);
    }
    lemma_peak_ext(m, p1, p2);
    lemma_total_ext(m, t1, t2);
    lemma_total2_lines(m, w, square, t1);
}

/// The decoder part of the assembled gradient.
proof fn lemma_decoder_part<S: Scalar>(
    v: spec_fn(S) -> real,
    term: &SaeSupportSparseTerm<S>,
    residual: &Matrix<S>,
    lambda: Seq<S>,
    table: Seq<Vec<BasisEval<S>>>,
    gb: Seq<S>,
)
    requires
        is_exact(v),
        gb.len() == beta_start(term.basis_sizes(), term.width(), term.k() as int),
        forall|a: int, b: int, c: int|
            0 <= a < term.k() && 0 <= b < term.basis_sizes()[a] && 0 <= c < term.width()
                ==> #[trigger] gb[beta_index(term.basis_sizes(), term.width(), a, b, c)]
                == term.beta_grad(residual, lambda, table, a, b, c),
    ensures
        v(term.decoder_totals(residual, lambda, table, term.k() as int).max) == summit(v, gb),
        v(term.decoder_totals(residual, lambda, table, term.k() as int).sq) == energy(v, gb),
{
    let k = term.k() as int;
    let sizes = term.basis_sizes();
    let width = term.width();
    let high = |i: int| magnitude(v(gb[i]));
    let square = |i: int| v(gb[i]) * v(gb[i]);
    lemma_layout_peak(sizes, width, k, high);
    lemma_layout_total(sizes, width, k, square);
    let f_max = |a: int| term.decoder_norms_spec(residual, lambda, table, a).max;
    let f_sq = |a: int| term.decoder_norms_spec(residual, lambda, table, a).sq;
    let g_max = |a: int| v(f_max(a));
    let g_sq = |a: int| v(f_sq(a));
    lemma_exact_max_of(v, k, f_max, g_max);
    lemma_exact_sum_of(v, S::s_zero(), k, f_sq, g_sq);
    let peaks = |a: int|
        peak(
            sizes[a] as int,
            |b: int| peak(width as int, |c: int| high(beta_index(sizes, width, a, b, c))),
        );
    let sums = |a: int|
        total(
            sizes[a] as int,
            |b: int| total(width as int, |c: int| square(beta_index(sizes, width, a, b, c))),
        );
    assert forall|a: int|
        #![trigger g_max(a)]
        #![trigger g_sq(a)]
        0 <= a < k implies g_max(a) == peaks(a) && g_sq(a) == sums(a) by {
        lemma_decoder_norms(v, term, residual, lambda, table, gb, a);
        let m = sizes[a] as int;
        let w = width as int;
        let p1 = |b: int| peak(w, |c: int| magnitude(v(gb[beta_index(sizes, width, a, b, c)])));
        let p2 = |b: int| peak(width as int, |c: int| high(beta_index(sizes, width, a, b, c)));
        let t1 = |b: int|
            total(
                w,
                |c: int|
                    v(gb[beta_index(sizes, width, a, b, c)]) * v(
                        gb[beta_index(sizes, width, a, b, c)],
                    ),
            );
        let t2 = |b: int| total(width as int, |c: int| square(beta_index(sizes, width, a, b, c)));
        assert forall|b: int|
            #![trigger p1(b)]
            #![trigger t1(b)]
            0 <= b < m implies p1(b) == p2(b) && t1(b) == t2(b) by {
            lemma_peak_ext(
                w,
                |c: int| magnitude(v(gb[beta_index(sizes, width, a, b, c)])),
                |c: int| high(beta_index(sizes, width, a, b, c)),
            );
            lemma_total_ext(
                w,
                |c: int|
                    v(gb[beta_index(sizes, width, a, b, c)]) * v(
                        gb[beta_index(sizes, width, a, b, c)],
                    ),
                |c: int| square(beta_index(sizes, width, a, b, c)),
            );
        }
        lemma_peak_ext(m, p1, p2);
        lemma_total_ext(m, t1, t2);
    }
    lemma_peak_ext(k, g_max, peaks);
    lemma_total_ext(k, g_sq, sums);
}

/// A coordinate entry, likewise.
proof fn lemma_coordinate_entry<S: Scalar>(
    v: spec_fn(S) -> real,
    term: &SaeSupportSparseTerm<S>,
    residual: &Matrix<S>,
    table: Seq<Vec<BasisEval<S>>>,
    priors: Seq<Vec<Vec<PriorTerm<S>>>>,
    lines: Seq<Vec<S>>,
    block: ArrowRow<S>,
    row: int,
    slot: int,
    axis: int,
)
    requires
        is_exact(v),
        term.wf(),
        0 <= row < term.rows(),
        residual.ncols() == term.width(),
        term.row_priors_fit(priors[row]@, row),
        term.is_row_jacobian(table[row]@, row, lines),
        term.is_arrow_row(lines, term.prior_list(priors[row]@, row), residual.row(row), block),
        0 <= slot < term.support(row).len(),
        0 <= axis < term.state().slot_dim(row, slot),
    ensures
        term.state().slot_start(row, slot) + axis < block.gt@.len(),
        v(block.gt@[term.state().slot_start(row, slot) + axis]) == v(
            term.coord_grad(residual, table, priors, row, slot, axis),
        ),
{
    let i = term.state().slot_start(row, slot) + axis;
    let w = term.width() as int;
    term.lemma_prior_list(priors[row]@, row);
    let dims = term.state().dims();
    let support = term.support(row);
    crate::assignment::lemma_block_start_monotone(dims, support, slot + 1, support.len() as int);
    assert(i < lines.len());
    assert(priors[row]@[slot]@.len() == term.state().slot_dim(row, slot));
    assert(term.prior_list(priors[row]@, row)[i] == priors[row]@[slot]@[axis]);
    let left = lines[i]@;
    let right = residual.row(row);
    assert(left.len() == w);
    let f = |c: int| left[c].s_times(right[c]);
    let h = |c: int| term.tangent(table, row, slot, axis, c).s_times(residual.at(row, c));
    let g = |c: int| v(h(c));
    assert forall|c: int| 0 <= c < w implies v(f(c)) == #[trigger] g(c) by {
        assert(lines[term.state().slot_start(row, slot) + axis]@[c] == term.tangent(
            table,
            row,
            slot,
            axis,
            c,
        ));
    }
    lemma_exact_sum_of(v, S::s_zero(), w, f, g);
    lemma_exact_less_of(v, S::s_zero(), w, h, g);
    assert(block.gt@[i] == s_dot(left, right).s_negate().s_plus(
        term.prior_list(priors[row]@, row)[i].grad,
    ));
}

/// One row of the assembled gradient.
proof fn lemma_coordinate_norms<S: Scalar>(
    v: spec_fn(S) -> real,
    term: &SaeSupportSparseTerm<S>,
    residual: &Matrix<S>,
    table: Seq<Vec<BasisEval<S>>>,
    priors: Seq<Vec<Vec<PriorTerm<S>>>>,
    lines: Seq<Vec<S>>,
    block: ArrowRow<S>,
    row: int,
)
    requires
        is_exact(v),
        term.wf(),
        0 <= row < term.rows(),
        residual.ncols() == term.width(),
        term.row_priors_fit(priors[row]@, row),
        term.is_row_jacobian(table[row]@, row, lines),
        term.is_arrow_row(lines, term.prior_list(priors[row]@, row), residual.row(row), block),
    ensures
        v(term.coordinate_norms_spec(residual, table, priors, row).max) == peak(
            block.gt@.len() as int,
            |i: int| magnitude(v(block.gt@[i])),
        ),
        v(term.coordinate_norms_spec(residual, table, priors, row).sq) == total(
            block.gt@.len() as int,
            |i: int| v(block.gt@[i]) * v(block.gt@[i]),
        ),
{
    let n = term.support(row).len() as int;
    let dims = term.state().dims();
    let support = term.support(row);
    let w = |slot: int| term.state().slot_dim(row, slot) as int;
    let wide = |s: int| dims[support[s] as int] as int;
    let f_max = |slot: int, axis: int|
        term.coord_grad(residual, table, priors, row, slot, axis).s_magnitude();
    let f_sq = |slot: int, axis: int|
        term.coord_grad(residual, table, priors, row, slot, axis).s_times(
            term.coord_grad(residual, table, priors, row, slot, axis),
        );
    let keep = |slot: int, axis: int| true;
    let high = |s: int, x: int| v(f_max(s, x));
    let square = |s: int, x: int| v(f_sq(s, x));
    lemma_exact_ragged_max_of(v, n, w, keep, f_max, high);
    lemma_exact_ragged_sum_of(v, n, w, f_sq, square);
    let flat_high = |i: int| magnitude(v(block.gt@[i]));
    let flat_square = |i: int| v(block.gt@[i]) * v(block.gt@[i]);
    assert forall|s: int, x: int| 0 <= s < n && 0 <= x < dims[support[s] as int] implies
        #[trigger] high(s, x) == flat_high(crate::assignment::block_start(dims, support, s) + x) by {
        lemma_coordinate_entry(v, term, residual, table, priors, lines, block, row, s, x);
    }
    assert forall|s: int, x: int| 0 <= s < n && 0 <= x < dims[support[s] as int] implies
        #[trigger] square(s, x) == flat_square(
        crate::assignment::block_start(dims, support, s) + x,
    ) by {
        lemma_coordinate_entry(v, term, residual, table, priors, lines, block, row, s, x);
    }
    lemma_slots(dims, support, n, flat_high, high);
    lemma_slots(dims, support, n, flat_square, square);
    assert(w =~= wide);
}

/// The assembled gradient has the norms that the first-order residual reports, in
/// the decoder and in the coordinates: the largest magnitude and the length.
pub proof fn law_the_assembled_gradient_has_the_reported_norms<S: Scalar>(
    v: spec_fn(S) -> real,
    term: &SaeSupportSparseTerm<S>,
    residual: &Matrix<S>,
    lambda: Seq<S>,
    table: Seq<Vec<BasisEval<S>>>,
    priors: Seq<Vec<Vec<PriorTerm<S>>>>,
    system: &ArrowSchurSystem<S>,
)
    requires
        is_exact(v),
        term.wf(),
        residual.ncols() == term.width(),
        term.priors_fit(priors),
        term.is_assembled(residual, lambda, table, priors, system),
    ensures
        ({
            let reported = SaeSupportSparseTerm::stationarity_of(
                term.decoder_totals(residual, lambda, table, term.k() as int),
                term.coordinate_totals(residual, table, priors, term.rows() as int),
            );
            let t = flat(row_gradients(system.rows@), system.rows@.len() as int);
            &&& v(reported.decoder_max_abs) == summit(v, system.gb@)
            &&& is_root(energy(v, system.gb@), v(reported.decoder_l2))
            &&& v(reported.coordinate_max_abs) == summit(v, t)
            &&& is_root(energy(v, t), v(reported.coordinate_l2))
        }),
{
    lemma_decoder_part(v, term, residual, lambda, table, system.gb@);
    let n = term.rows() as int;
    let rows = row_gradients(system.rows@);
    let high = |x: S| magnitude(v(x));
    let square = |x: S| v(x) * v(x);
    let f_max = |row: int| term.coordinate_norms_spec(residual, table, priors, row).max;
    let f_sq = |row: int| term.coordinate_norms_spec(residual, table, priors, row).sq;
    let g_max = |row: int| v(f_max(row));
    let g_sq = |row: int| v(f_sq(row));
    lemma_exact_max_of(v, n, f_max, g_max);
    lemma_exact_sum_of(v, S::s_zero(), n, f_sq, g_sq);
    let sums_high = |r: int| total(rows[r].len() as int, |i: int| high(rows[r][i]));
    let peaks_square = |r: int| peak(rows[r].len() as int, |i: int| square(rows[r][i]));
    assert forall|r: int| 0 <= r < n implies #[trigger] g_max(r) == peak(
        rows[r].len() as int,
        |i: int| high(rows[r][i]),
    ) by {
        assert(system.operator.rows@[r].jacobian@.len() >= 0);
        assert(term.is_linearized(
            table[r]@,
            r,
            system.operator.beta_offsets@,
            system.operator.rows@[r],
        ));
        assert(term.row_priors_fit(priors[r]@, r));
        lemma_coordinate_norms(
            v,
            term,
            residual,
            table,
            priors,
            system.operator.rows@[r].jacobian@,
            system.rows@[r],
            r,
        );
        lemma_peak_ext(
            rows[r].len() as int,
            |i: int| magnitude(v(system.rows@[r].gt@[i])),
            |i: int| high(rows[r][i]),
        );
    }
    assert forall|r: int| 0 <= r < n implies #[trigger] g_sq(r) == total(
        rows[r].len() as int,
        |i: int| square(rows[r][i]),
    ) by {
        assert(term.is_linearized(
            table[r]@,
            r,
            system.operator.beta_offsets@,
            system.operator.rows@[r],
        ));
        assert(term.row_priors_fit(priors[r]@, r));
        lemma_coordinate_norms(
            v,
            term,
            residual,
            table,
            priors,
            system.operator.rows@[r].jacobian@,
            system.rows@[r],
            r,
        );
        lemma_total_ext(
            rows[r].len() as int,
            |i: int| v(system.rows@[r].gt@[i]) * v(system.rows@[r].gt@[i]),
            |i: int| square(rows[r][i]),
        );
    }
    lemma_rows(rows, n, high, sums_high, g_max);
    lemma_rows(rows, n, square, g_sq, peaks_square);
    let t = flat(rows, n);
    lemma_peak_ext(
        t.len() as int,
        |i: int| high(flat(rows, n)[i]),
        |i: int| magnitude(v(t[i])),
    );
    lemma_total_ext(
        t.len() as int,
        |i: int| square(flat(rows, n)[i]),
        |i: int| v(t[i]) * v(t[i]),
    );
    lemma_energy_not_negative(v, t);
    lemma_energy_not_negative(v, system.gb@);
}

proof fn lemma_energy_not_negative<S>(v: spec_fn(S) -> real, values: Seq<S>)
    ensures
        energy(v, values) >= 0 as real,
{
    let f = |i: int| v(values[i]) * v(values[i]);
    assert forall|i: int| 0 <= i < values.len() implies #[trigger] f(i) >= 0 as real by {
        lemma_square(v(values[i]));
    }
    lemma_total_not_negative(values.len() as int, f);
}

/// A row's curvature, as a real matrix.
pub open spec fn curvature_value<S>(v: spec_fn(S) -> real, block: ArrowRow<S>) -> spec_fn(
    int,
    int,
) -> real {
    |i: int, j: int| v(block.htt@[i]@[j])
}

/// Every row's curvature is symmetric, and semidefinite where no prior bends down.
pub proof fn law_a_rows_curvature_is_symmetric_and_semidefinite<S: Scalar>(
    v: spec_fn(S) -> real,
    term: &SaeSupportSparseTerm<S>,
    lines: Seq<Vec<S>>,
    list: Seq<PriorTerm<S>>,
    residual: Seq<S>,
    block: ArrowRow<S>,
)
    requires
        is_exact(v),
        forall|i: int| 0 <= i < lines.len() ==> (#[trigger] lines[i])@.len() == term.width(),
        term.is_arrow_row(lines, list, residual, block),
    ensures
        forall|i: int, j: int|
            0 <= i < lines.len() && 0 <= j < lines.len() ==> #[trigger] curvature_value(v, block)(
                i,
                j,
            ) == curvature_value(v, block)(j, i),
        (forall|i: int| 0 <= i < lines.len() ==> v((#[trigger] list[i]).curvature) >= 0 as real)
            ==> is_semidefinite(lines.len() as int, curvature_value(v, block)),
{
    let q = lines.len() as int;
    let w = term.width() as int;
    let l = |i: int, c: int| v(lines[i]@[c]);
    let d = |i: int| v(list[i].curvature);
    let p = with_diagonal(gram(w, l), d);
    let h = curvature_value(v, block);
    assert forall|i: int, j: int| 0 <= i < q && 0 <= j < q implies #[trigger] h(i, j) == p(i, j) by {
        let f = |c: int| lines[i]@[c].s_times(lines[j]@[c]);
        let g = |c: int| l(i, c) * l(j, c);
        lemma_exact_sum_of(v, S::s_zero(), w, f, g);
        assert(lines[i]@.len() == w);
        assert(v(s_dot(lines[i]@, lines[j]@)) == total(w, g));
        assert(block.htt@[i]@[j] == (if i == j {
            s_dot(lines[i]@, lines[j]@).s_plus(list[i].curvature)
        } else {
            s_dot(lines[i]@, lines[j]@)
        }));
    }
    assert forall|i: int, j: int| 0 <= i < q && 0 <= j < q implies #[trigger] h(i, j) == h(j, i) by {
        assert(h(i, j) == p(i, j));
        assert(h(j, i) == p(j, i));
        let one = |c: int| l(i, c) * l(j, c);
        let two = |c: int| l(j, c) * l(i, c);
        assert forall|c: int| 0 <= c < w implies #[trigger] one(c) == two(c) by {
            let x = l(i, c);
            let y = l(j, c);
            assert(x * y == y * x) by (nonlinear_arith);
        }
        lemma_total_ext(w, one, two);
    }
    if forall|i: int| 0 <= i < lines.len() ==> v((#[trigger] list[i]).curvature) >= 0 as real {
        assert forall|i: int| 0 <= i < q implies #[trigger] d(i) >= 0 as real by {
            assert(v(list[i].curvature) >= 0 as real);
        }
        law_a_gram_matrix_is_semidefinite(q, w, l, d);
        assert forall|z: spec_fn(int) -> real| #[trigger] bilinear(q, h, z, z) >= 0 as real by {
            let one = |b: int, r: int| z(b) * (h(b, r) * z(r));
            let two = |b: int, r: int| z(b) * (p(b, r) * z(r));
            assert forall|b: int, r: int| 0 <= b < q && 0 <= r < q implies #[trigger] one(b, r)
                == two(b, r) by {
                assert(h(b, r) == p(b, r));
            }
            lemma_total2_ext(q, q, one, two);
            assert(bilinear(q, p, z, z) >= 0 as real);
        }
    }
}

} // verus!
