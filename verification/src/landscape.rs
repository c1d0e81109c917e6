//! The objective and its slopes, in exact arithmetic.
use crate::active::BasisEval;
use crate::descent::{coefficients, lemma_exact_roughness, penalty_of};
use crate::exact::{
    is_exact, lemma_exact_less_of, lemma_exact_sum_of, lemma_total2_ext, lemma_total_ext,
    lemma_total_minus, lemma_total_plus, lemma_total_scaled, total, total2,
};
use crate::forms::bilinear;
use crate::matrix::{s_product_at, Matrix};
use crate::objective::{CodeLengths, PriorTerm};
use crate::peaks::{lemma_exact_ragged_sum_of, ragged_total};
use crate::quadratic::{applied, lemma_form_of_a_sum, lemma_form_of_applied, lemma_single_term};
use crate::scalar::{s_half, s_line_sum, s_ragged_sum, Scalar};
use crate::scaling::{lemma_exact_energy, squares};
use crate::term::SaeSupportSparseTerm;
use crate::updates::{roughness_value, tangent_value};
use vstd::prelude::*;

verus! {

/// The sum of the squares of a residual.
pub open spec fn squared_error<S: Scalar>(v: spec_fn(S) -> real, residual: &Matrix<S>) -> real {
    total2(
        residual.nrows() as int,
        residual.ncols() as int,
        |i: int, j: int| v(residual.at(i, j)) * v(residual.at(i, j)),
    )
}

proof fn lemma_squared_error<S: Scalar>(v: spec_fn(S) -> real, residual: &Matrix<S>)
    requires
        is_exact(v),
    ensures
        v(crate::matrix::s_matrix_energy(residual)) == squared_error(v, residual),
{
    lemma_exact_energy(v, residual);
    lemma_total2_ext(
        residual.nrows() as int,
        residual.ncols() as int,
        squares(v, residual),
        |i: int, j: int| v(residual.at(i, j)) * v(residual.at(i, j)),
    );
}

/// The prior's energy on a row: one term for every slot and axis.
pub open spec fn row_prior_value<S: Scalar>(
    v: spec_fn(S) -> real,
    term: &SaeSupportSparseTerm<S>,
    priors: Seq<Vec<Vec<PriorTerm<S>>>>,
    row: int,
) -> real {
    ragged_total(
        term.support(row).len() as int,
        |slot: int| term.state().dims()[term.support(row)[slot] as int] as int,
        |slot: int, axis: int| v(priors[row]@[slot]@[axis].value),
    )
}

/// What the used atoms' coefficients cost in bits, half a logarithm of the number of
/// rows each.
pub open spec fn used_bits_value<S: Scalar>(
    v: spec_fn(S) -> real,
    term: &SaeSupportSparseTerm<S>,
    codes: CodeLengths<S>,
    n: int,
) -> real {
    total(
        n,
        |a: int|
            if term.uses()[a].len() > 0 {
                term.atom_seq()[a].m() as real * term.width() as real * (v(codes.log2_rows)
                    / 2 as real)
            } else {
                0 as real
            },
    )
}

proof fn lemma_row_prior<S: Scalar>(
    v: spec_fn(S) -> real,
    term: &SaeSupportSparseTerm<S>,
    priors: Seq<Vec<Vec<PriorTerm<S>>>>,
    row: int,
)
    requires
        is_exact(v),
    ensures
        v(term.row_prior(priors, row)) == row_prior_value(v, term, priors, row),
{
    let width = |slot: int| term.state().slot_dim(row, slot) as int;
    let f = |slot: int, axis: int| priors[row]@[slot]@[axis].value;
    let g = |slot: int, axis: int| v(priors[row]@[slot]@[axis].value);
    let n = term.support(row).len() as int;
    lemma_exact_ragged_sum_of(v, n, width, f, g);
    let p = |i: int| total(width(i), |j: int| g(i, j));
    let raw = |slot: int| term.state().dims()[term.support(row)[slot] as int] as int;
    let q = |i: int| total(raw(i), |j: int| g(i, j));
    assert forall|i: int| 0 <= i < n implies #[trigger] p(i) == q(i) by {
        assert(width(i) == raw(i));
    }
    lemma_total_ext(n, p, q);
}

proof fn lemma_used_bits<S: Scalar>(
    v: spec_fn(S) -> real,
    term: &SaeSupportSparseTerm<S>,
    codes: CodeLengths<S>,
    n: int,
)
    requires
        is_exact(v),
    ensures
        v(term.used_bits(codes, n)) == used_bits_value(v, term, codes, n),
    decreases n,
{
    if n > 0 {
        lemma_used_bits(v, term, codes, n - 1);
        let half = v(s_half::<S>());
        assert(half == 1 as real / 2 as real);
        let b = v(codes.log2_rows);
        assert(half * b == b / 2 as real);
    }
}

/// The objective is half the squared error, half of every atom's roughness times its
/// strength, and the prior's energies; where admission is priced, also the noise level
/// times the nats that the used atoms' coefficients cost.
pub proof fn law_the_objective_is_loss_roughness_prior_and_code<S: Scalar>(
    v: spec_fn(S) -> real,
    term: &SaeSupportSparseTerm<S>,
    residual: &Matrix<S>,
    lambda: Seq<S>,
    priors: Seq<Vec<Vec<PriorTerm<S>>>>,
    codes: CodeLengths<S>,
)
    requires
        is_exact(v),
    ensures
        v(term.s_objective(residual, lambda, priors, codes)) == squared_error(v, residual)
            / 2 as real + total(
            term.k() as int,
            |a: int| v(lambda[a]) * roughness_value(v, term, a) / 2 as real,
        ) + total(term.rows() as int, |row: int| row_prior_value(v, term, priors, row)) + (
        match term.knob_spec().admission_dof_sigma2 {
            Some(sigma2) => v(sigma2) * v(codes.ln_two) * used_bits_value(
                v,
                term,
                codes,
                term.k() as int,
            ),
            None => 0 as real,
        }),
{
    let k = term.k() as int;
    let half = v(s_half::<S>());
    assert(half == 1 as real / 2 as real);
    lemma_squared_error(v, residual);
    let start = s_half::<S>().s_times(crate::matrix::s_matrix_energy(residual));
    let f = |a: int| s_half::<S>().s_times(lambda[a]).s_times(term.atom_roughness(a));
    let g = |a: int| v(lambda[a]) * roughness_value(v, term, a) / 2 as real;
    assert forall|a: int| 0 <= a < k implies v(f(a)) == #[trigger] g(a) by {
        lemma_exact_roughness(v, term, a);
        let x = v(lambda[a]);
        let y = roughness_value(v, term, a);
        assert(v(term.atom_roughness(a)) == y);
        assert((half * x) * y == half * (x * y)) by (nonlinear_arith);
    }
    lemma_exact_sum_of(v, start, k, f, g);
    let p = |row: int| term.row_prior(priors, row);
    let q = |row: int| row_prior_value(v, term, priors, row);
    assert forall|row: int| 0 <= row < term.rows() implies v(p(row)) == #[trigger] q(row) by {
        lemma_row_prior(v, term, priors, row);
    }
    lemma_exact_sum_of(v, S::s_zero(), term.rows() as int, p, q);
    lemma_used_bits(v, term, codes, k);
}

/// The part of the objective that coordinates move is half the squared error and the
/// prior's energies.
pub proof fn law_the_coordinate_objective_is_loss_and_prior<S: Scalar>(
    v: spec_fn(S) -> real,
    term: &SaeSupportSparseTerm<S>,
    residual: &Matrix<S>,
    priors: Seq<Vec<Vec<PriorTerm<S>>>>,
    n: int,
)
    requires
        is_exact(v),
    ensures
        v(term.frozen_part(residual, priors, n)) == squared_error(v, residual) / 2 as real + total(
            n,
            |row: int| row_prior_value(v, term, priors, row),
        ),
    decreases n,
{
    if n > 0 {
        law_the_coordinate_objective_is_loss_and_prior(v, term, residual, priors, n - 1);
        lemma_row_prior(v, term, priors, n - 1);
        let width = |slot: int| term.state().slot_dim(n - 1, slot) as int;
        let f = |slot: int, axis: int| priors[n - 1]@[slot]@[axis].value;
        lemma_ragged_start(
            v,
            term.frozen_part(residual, priors, n - 1),
            term.support(n - 1).len() as int,
            width,
            f,
        );
    } else {
        lemma_squared_error(v, residual);
        assert(v(s_half::<S>()) == 1 as real / 2 as real);
    }
}

proof fn lemma_line_start<S: Scalar>(
    v: spec_fn(S) -> real,
    start: S,
    other: S,
    r: int,
    n: int,
    f: spec_fn(int, int) -> S,
)
    requires
        is_exact(v),
    ensures
        v(s_line_sum(start, r, n, f)) - v(start) == v(s_line_sum(other, r, n, f)) - v(other),
    decreases n,
{
    if n > 0 {
        lemma_line_start(v, start, other, r, n - 1, f);
    }
}

/// A sum that goes on from `start`.
proof fn lemma_ragged_start<S: Scalar>(
    v: spec_fn(S) -> real,
    start: S,
    rows: int,
    width: spec_fn(int) -> int,
    f: spec_fn(int, int) -> S,
)
    requires
        is_exact(v),
    ensures
        v(s_ragged_sum(start, rows, width, f)) == v(start) + v(
            s_ragged_sum(S::s_zero(), rows, width, f),
        ),
    decreases rows,
{
    if rows > 0 {
        lemma_ragged_start(v, start, rows - 1, width, f);
        lemma_line_start(
            v,
            s_ragged_sum(start, rows - 1, width, f),
            s_ragged_sum(S::s_zero(), rows - 1, width, f),
            rows - 1,
            width(rows - 1),
            f,
        );
    }
}

/// The squares of numbers that move along a line.
pub proof fn lemma_squares_along(
    n: int,
    r: spec_fn(int) -> real,
    d: spec_fn(int) -> real,
    t: real,
)
    ensures
        total(n, |i: int| (r(i) - t * d(i)) * (r(i) - t * d(i))) == total(n, |i: int| r(i) * r(i))
            - 2 as real * (t * total(n, |i: int| d(i) * r(i))) + (t * t) * total(
            n,
            |i: int| d(i) * d(i),
        ),
{
    let whole = |i: int| (r(i) - t * d(i)) * (r(i) - t * d(i));
    let rr = |i: int| r(i) * r(i);
    let dr = |i: int| d(i) * r(i);
    let dd = |i: int| d(i) * d(i);
    let two = 2 as real * t;
    let tt = t * t;
    let sdr = |i: int| two * dr(i);
    let sdd = |i: int| tt * dd(i);
    let part = |i: int| rr(i) - sdr(i);
    let all = |i: int| part(i) + sdd(i);
    assert forall|i: int| 0 <= i < n implies #[trigger] whole(i) == all(i) by {
        let x = r(i);
        let y = d(i);
        assert((x - t * y) * (x - t * y) == x * x - (2 as real * t) * (y * x) + (t * t) * (y * y))
            by (nonlinear_arith);
    }
    lemma_total_ext(n, whole, all);
    lemma_total_scaled(n, two, dr);
    lemma_total_scaled(n, tt, dd);
    lemma_total_minus(n, rr, sdr);
    lemma_total_plus(n, part, sdd);
    let s = total(n, dr);
    assert((2 as real * t) * s == 2 as real * (t * s)) by (nonlinear_arith);
}

/// Channel `c` of atom `a`'s decoder with coefficient `b` moved by `t`.
pub open spec fn moved_coefficients<S: Scalar>(
    v: spec_fn(S) -> real,
    term: &SaeSupportSparseTerm<S>,
    a: int,
    b: int,
    c: int,
    t: real,
) -> spec_fn(int) -> real {
    |i: int|
        v(term.atom_seq()[a].decoder().at(i, c)) + (if i == b {
            t
        } else {
            0 as real
        })
}

/// What the objective holds of coefficient `(b, c)` of atom `a`'s decoder moved by `t`:
/// half the squared error in the rows that use the atom, and half its roughness there
/// times its strength.
pub open spec fn coefficient_cost<S: Scalar>(
    v: spec_fn(S) -> real,
    term: &SaeSupportSparseTerm<S>,
    residual: &Matrix<S>,
    lambda: Seq<S>,
    table: Seq<Vec<BasisEval<S>>>,
    a: int,
    b: int,
    c: int,
    t: real,
) -> real {
    let uses = term.uses()[a];
    let r = |e: int| v(residual.at(uses[e].0 as int, c));
    let phi = |e: int| v(table[uses[e].0 as int]@[uses[e].1 as int].phi@[b]);
    let y = moved_coefficients(v, term, a, b, c, t);
    total(uses.len() as int, |e: int| (r(e) - t * phi(e)) * (r(e) - t * phi(e))) / 2 as real + v(
        lambda[a],
    ) * bilinear(term.atom_seq()[a].m() as int, penalty_of(v, term, a), y, y) / 2 as real
}

/// The decoder gradient is the slope of the objective, and the decoder curvature its
/// bend: a coefficient that moves by `t` changes the objective by `t` times the one and
/// half of `t` squared times the other.
pub proof fn law_the_decoder_gradient_is_the_slope<S: Scalar>(
    v: spec_fn(S) -> real,
    term: &SaeSupportSparseTerm<S>,
    residual: &Matrix<S>,
    lambda: Seq<S>,
    table: Seq<Vec<BasisEval<S>>>,
    a: int,
    b: int,
    c: int,
    t: real,
)
    requires
        is_exact(v),
        0 <= b < term.atom_seq()[a].m(),
        forall|i: int, j: int|
            0 <= i < term.atom_seq()[a].m() && 0 <= j < term.atom_seq()[a].m()
                ==> #[trigger] penalty_of(v, term, a)(i, j) == penalty_of(v, term, a)(j, i),
    ensures
        coefficient_cost(v, term, residual, lambda, table, a, b, c, t) == coefficient_cost(
            v,
            term,
            residual,
            lambda,
            table,
            a,
            b,
            c,
            0 as real,
        ) + t * v(
            term.decoder_grad(residual, lambda, table, a, b, c, term.uses()[a].len() as int),
        ) + (t * t) * v(term.decoder_curv(lambda, table, a, b, term.uses()[a].len() as int))
            / 2 as real,
{
    let atom = term.atom_seq()[a];
    let m = atom.m() as int;
    let uses = term.uses()[a];
    let n = uses.len() as int;
    let p = penalty_of(v, term, a);
    let l = v(lambda[a]);
    let r = |e: int| v(residual.at(uses[e].0 as int, c));
    let phi = |e: int| v(table[uses[e].0 as int]@[uses[e].1 as int].phi@[b]);
    let rest = moved_coefficients(v, term, a, b, c, 0 as real);
    let moved = moved_coefficients(v, term, a, b, c, t);
    let d = |i: int|
        if i == b {
            t
        } else {
            0 as real
        };
    assert forall|i: int| 0 <= i < m implies #[trigger] moved(i) == rest(i) + d(i) by {}
    lemma_form_of_a_sum(m, p, rest, d, moved);
    lemma_form_of_applied(m, p, d, rest);
    lemma_form_of_applied(m, p, d, d);
    let at_rest = |i: int| d(i) * applied(m, p, rest, i);
    let at_step = |i: int| d(i) * applied(m, p, d, i);
    assert forall|i: int| 0 <= i < m && i != b implies #[trigger] at_rest(i) == 0 as real by {
        let x = applied(m, p, rest, i);
        assert((0 as real) * x == 0 as real) by (nonlinear_arith);
    }
    assert forall|i: int| 0 <= i < m && i != b implies #[trigger] at_step(i) == 0 as real by {
        let x = applied(m, p, d, i);
        assert((0 as real) * x == 0 as real) by (nonlinear_arith);
    }
    lemma_single_term(m, b, at_rest);
    lemma_single_term(m, b, at_step);
    let line = |i: int| p(b, i) * d(i);
    assert forall|i: int| 0 <= i < m && i != b implies #[trigger] line(i) == 0 as real by {
        let x = p(b, i);
        assert(x * (0 as real) == 0 as real) by (nonlinear_arith);
    }
    lemma_single_term(m, b, line);
    let pull = applied(m, p, rest, b);
    let bend = p(b, b);
    assert(applied(m, p, d, b) == bend * t);
    assert(bilinear(m, p, d, rest) == t * pull);
    assert(bilinear(m, p, d, d) == t * (bend * t));
    // The gradient.
    let f = |i: int| atom.penalty().at(b, i).s_times(atom.decoder().at(i, c));
    let g = |i: int| p(b, i) * rest(i);
    lemma_exact_sum_of(v, S::s_zero(), m, f, g);
    assert(v(s_product_at(&atom.penalty(), &atom.decoder(), b, c, m)) == pull);
    let fe = |e: int|
        term.use_phi(table, a, e)[b].s_times(residual.at(term.uses()[a][e].0 as int, c));
    let ge = |e: int| phi(e) * r(e);
    lemma_exact_less_of(
        v,
        s_product_at(&atom.penalty(), &atom.decoder(), b, c, m).s_times(lambda[a]),
        n,
        fe,
        ge,
    );
    let he = |e: int| term.use_phi(table, a, e)[b].s_times(term.use_phi(table, a, e)[b]);
    let ke = |e: int| phi(e) * phi(e);
    lemma_exact_sum_of(v, lambda[a].s_times(atom.roughness(b, b)), n, he, ke);
    lemma_squares_along(n, r, phi, t);
    lemma_squares_along(n, r, phi, 0 as real);
    let dr = total(n, ge);
    let dd = total(n, ke);
    lemma_total_ext(n, ge, |i: int| phi(i) * r(i));
    lemma_total_ext(n, ke, |i: int| phi(i) * phi(i));
    let grad = v(term.decoder_grad(residual, lambda, table, a, b, c, n));
    let curv = v(term.decoder_curv(lambda, table, a, b, n));
    assert(grad == pull * l - dr);
    assert(curv == l * bend + dd);
    let zero = 0 as real;
    assert(zero * dr == zero) by (nonlinear_arith)
        requires
            zero == 0 as real,
    ;
    assert((zero * zero) * dd == zero) by (nonlinear_arith)
        requires
            zero == 0 as real,
    ;
    let q = bilinear(m, p, rest, rest);
    assert(l * (q + 2 as real * (t * pull) + t * (bend * t)) == l * q + 2 as real * (t * (pull * l))
        + (t * t) * (l * bend)) by (nonlinear_arith);
    assert(t * (pull * l - dr) == t * (pull * l) - t * dr) by (nonlinear_arith);
    assert((t * t) * (l * bend + dd) == (t * t) * (l * bend) + (t * t) * dd) by (nonlinear_arith);
}

/// What a row's objective holds, to second order, of one coordinate moved by `t`: half
/// the squared error along the tangent, and the prior's slope and curvature.
pub open spec fn coordinate_cost<S: Scalar>(
    v: spec_fn(S) -> real,
    term: &SaeSupportSparseTerm<S>,
    residual: &Matrix<S>,
    table: Seq<Vec<BasisEval<S>>>,
    priors: Seq<Vec<Vec<PriorTerm<S>>>>,
    row: int,
    slot: int,
    axis: int,
    t: real,
) -> real {
    let r = |c: int| v(residual.at(row, c));
    let d = |c: int|
        tangent_value(v, term.active(row, slot), table[row]@[slot].jet@, axis, c);
    let prior = priors[row]@[slot]@[axis];
    total(term.width() as int, |c: int| (r(c) - t * d(c)) * (r(c) - t * d(c))) / 2 as real + t * v(
        prior.grad,
    ) + (t * t) * v(prior.curvature) / 2 as real
}

/// The coordinate gradient is the slope of the row's objective, and the coordinate
/// curvature its bend along the tangent; the slope that is reported where the decoders
/// are held fixed is the same.
pub proof fn law_the_coordinate_gradient_is_the_slope<S: Scalar>(
    v: spec_fn(S) -> real,
    term: &SaeSupportSparseTerm<S>,
    residual: &Matrix<S>,
    table: Seq<Vec<BasisEval<S>>>,
    priors: Seq<Vec<Vec<PriorTerm<S>>>>,
    row: int,
    slot: int,
    axis: int,
    t: real,
)
    requires
        is_exact(v),
    ensures
        coordinate_cost(v, term, residual, table, priors, row, slot, axis, t) == coordinate_cost(
            v,
            term,
            residual,
            table,
            priors,
            row,
            slot,
            axis,
            0 as real,
        ) + t * v(term.coord_grad(residual, table, priors, row, slot, axis)) + (t * t) * v(
            term.coord_curv(table, priors, row, slot, axis),
        ) / 2 as real,
        v(term.coord_slope(residual, table, priors, row, slot, axis)) == v(
            term.coord_grad(residual, table, priors, row, slot, axis),
        ),
{
    let w = term.width() as int;
    let atom = term.active(row, slot);
    let jet = table[row]@[slot].jet@;
    let prior = priors[row]@[slot]@[axis];
    let r = |c: int| v(residual.at(row, c));
    let d = |c: int| tangent_value(v, atom, jet, axis, c);
    assert forall|c: int| v(#[trigger] term.tangent(table, row, slot, axis, c)) == d(c) by {
        let p = |b: int| jet[b]@[axis].s_times(atom.coefficient(b, c));
        let q = |b: int| v(jet[b]@[axis]) * v(atom.decoder().at(b, c));
        lemma_exact_sum_of(v, S::s_zero(), atom.m() as int, p, q);
    }
    let f = |c: int| term.tangent(table, row, slot, axis, c).s_times(residual.at(row, c));
    let g = |c: int| d(c) * r(c);
    lemma_exact_less_of(v, S::s_zero(), w, f, g);
    let f2 = |c: int|
        term.tangent(table, row, slot, axis, c).s_negate().s_times(residual.at(row, c));
    let g2 = |c: int| (-1 as real) * g(c);
    assert forall|c: int| 0 <= c < w implies v(f2(c)) == #[trigger] g2(c) by {
        let x = d(c);
        let y = r(c);
        assert((-x) * y == (-1 as real) * (x * y)) by (nonlinear_arith);
    }
    lemma_exact_sum_of(v, S::s_zero(), w, f2, g2);
    lemma_total_scaled(w, -1 as real, g);
    let h = |c: int|
        term.tangent(table, row, slot, axis, c).s_times(
            term.tangent(table, row, slot, axis, c),
        );
    let k = |c: int| d(c) * d(c);
    lemma_exact_sum_of(v, S::s_zero(), w, h, k);
    lemma_squares_along(w, r, d, t);
    lemma_squares_along(w, r, d, 0 as real);
    let dr = total(w, g);
    let dd = total(w, k);
    lemma_total_ext(w, g, |i: int| d(i) * r(i));
    lemma_total_ext(w, k, |i: int| d(i) * d(i));
    let pg = v(prior.grad);
    let pc = v(prior.curvature);
    let zero = 0 as real;
    assert(zero * dr == zero && zero * pg == zero) by (nonlinear_arith)
        requires
            zero == 0 as real,
    ;
    assert((zero * zero) * dd == zero && (zero * zero) * pc == zero) by (nonlinear_arith)
        requires
            zero == 0 as real,
    ;
    assert(t * (-dr + pg) == -(t * dr) + t * pg) by (nonlinear_arith);
    assert((t * t) * (dd + pc) == (t * t) * dd + (t * t) * pc) by (nonlinear_arith);
}

} // verus!
