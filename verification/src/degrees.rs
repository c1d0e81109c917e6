//! Degrees of freedom against the smoothing strength, in exact arithmetic.
use crate::descent::{against, along, lemma_transpose};
use crate::exact::{
    lemma_over, lemma_product_grows, lemma_product_not_negative, lemma_product_positive,
    lemma_quotient,
    is_exact, lemma_square, lemma_total2_exchange, lemma_total2_lines,
    lemma_total_at_most, lemma_total_ext, lemma_total_not_negative, lemma_total_plus,
    lemma_total_scaled, total,
};
use crate::forms::{bilinear, is_semidefinite};
use crate::gram::{gram, image, lemma_diagonal_form, lemma_gram_form, with_diagonal};
use crate::hyper::AtomCensus;
use crate::matrix::Matrix;
use crate::quadratic::{applied, lemma_form_of_a_sum, lemma_form_of_applied};
use crate::scalar::{s_max_abs, Scalar};
use crate::solving::{
    column, entries, image_of, is_decomposed, is_scaled_matrix, lemma_accepted,
    lemma_applied_ext, lemma_exact_rotated, lemma_mode_quotient_solves, lemma_mode_scale,
    lemma_no_floor, lemma_unwound, times, turned,
};
use crate::spectral::{
    is_census, is_rotated, is_shifted, none_below, null_modes, s_census_trace, s_counted_trace, s_mode_scale,
    s_noise_floor, s_penalty_fraction, Census, Eigen,
};
use crate::term::SaeSupportSparseTerm;
use vstd::prelude::*;

verus! {

/// `g` is the Gram matrix of `n` basis rows.
pub open spec fn is_gram_of(
    m: int,
    n: int,
    x: spec_fn(int, int) -> real,
    g: spec_fn(int, int) -> real,
) -> bool {
    forall|l: int, r: int|
        0 <= l < m && 0 <= r < m ==> #[trigger] g(l, r) == total(n, |e: int| x(e, l) * x(e, r))
}

/// Column `i` of a matrix.
pub open spec fn column_at(u: spec_fn(int, int) -> real, i: int) -> spec_fn(int) -> real {
    |l: int| u(l, i)
}

/// Basis rows in a rotated basis.
pub open spec fn rotated_rows(
    m: int,
    x: spec_fn(int, int) -> real,
    u: spec_fn(int, int) -> real,
) -> spec_fn(int, int) -> real {
    |e: int, i: int| along(m, x, column_at(u, i), e)
}

/// A rotated Gram matrix is the Gram matrix of the rotated rows.
proof fn lemma_rotated_gram(
    m: int,
    n: int,
    x: spec_fn(int, int) -> real,
    g: spec_fn(int, int) -> real,
    u: spec_fn(int, int) -> real,
)
    requires
        is_gram_of(m, n, x, g),
    ensures
        is_gram_of(m, n, rotated_rows(m, x, u), times(m, times(m, turned(u), g), u)),
{
    let a = rotated_rows(m, x, u);
    let half = times(m, turned(u), g);
    let all = times(m, half, u);
    assert forall|i: int, k: int| 0 <= i < m && 0 <= k < m implies #[trigger] all(i, k) == total(
        n,
        |e: int| a(e, i) * a(e, k),
    ) by {
        let ui = column_at(u, i);
        let uk = column_at(u, k);
        let ai = |e: int| along(m, x, ui, e);
        let f = |r: int| half(i, r) * u(r, k);
        let h = |r: int| uk(r) * against(n, x, ai, r);
        assert forall|r: int| 0 <= r < m implies #[trigger] f(r) == h(r) by {
            let xr = |e: int| x(e, r);
            lemma_transpose(m, n, x, ui, xr);
            let one = |l: int| turned(u)(i, l) * g(l, r);
            let two = |l: int| ui(l) * against(n, x, xr, l);
            assert forall|l: int| 0 <= l < m implies #[trigger] one(l) == two(l) by {
                assert(g(l, r) == total(n, |e: int| x(e, l) * x(e, r)));
                lemma_total_ext(n, |e: int| x(e, l) * x(e, r), |e: int| x(e, l) * xr(e));
            }
            lemma_total_ext(m, one, two);
            lemma_total_ext(n, |e: int| xr(e) * along(m, x, ui, e), |e: int| x(e, r) * ai(e));
            let p = half(i, r);
            let q = u(r, k);
            assert(p * q == q * p) by (nonlinear_arith);
        }
        lemma_total_ext(m, f, h);
        lemma_transpose(m, n, x, uk, ai);
        lemma_total_ext(n, |e: int| ai(e) * along(m, x, uk, e), |e: int| a(e, i) * a(e, k));
    }
}

/// The form of a penalised Gram matrix.
proof fn lemma_penalized_form(
    m: int,
    g: spec_fn(int, int) -> real,
    p: spec_fn(int, int) -> real,
    lambda: real,
    y: spec_fn(int) -> real,
    z: spec_fn(int) -> real,
)
    ensures
        bilinear(m, |l: int, r: int| g(l, r) + lambda * p(l, r), y, z) == bilinear(m, g, y, z)
            + lambda * bilinear(m, p, y, z),
{
    let k = |l: int, r: int| g(l, r) + lambda * p(l, r);
    lemma_form_of_applied(m, k, y, z);
    lemma_form_of_applied(m, g, y, z);
    lemma_form_of_applied(m, p, y, z);
    let fk = |b: int| y(b) * applied(m, k, z, b);
    let fg = |b: int| y(b) * applied(m, g, z, b);
    let fp = |b: int| y(b) * applied(m, p, z, b);
    let scaled = |b: int| lambda * fp(b);
    let both = |b: int| fg(b) + scaled(b);
    assert forall|b: int| 0 <= b < m implies #[trigger] fk(b) == both(b) by {
        crate::steps::lemma_two_parts(m, g, p, lambda, z, b);
        lemma_total_ext(
            m,
            |r: int| k(b, r) * z(r),
            |r: int| (g(b, r) + lambda * p(b, r)) * z(r),
        );
        let s = y(b);
        let i = applied(m, g, z, b);
        let j = applied(m, p, z, b);
        let e = lambda * j;
        assert(s * (i + e) == s * i + s * e) by (nonlinear_arith);
        assert(s * (lambda * j) == lambda * (s * j)) by (nonlinear_arith);
    }
    lemma_total_scaled(m, lambda, fp);
    lemma_total_plus(m, fg, scaled);
    lemma_total_ext(m, fk, both);
}

/// A Gram matrix is semidefinite and symmetric.
proof fn lemma_gram_is_plain(
    m: int,
    n: int,
    x: spec_fn(int, int) -> real,
    g: spec_fn(int, int) -> real,
    z: spec_fn(int) -> real,
)
    requires
        is_gram_of(m, n, x, g),
    ensures
        bilinear(m, g, z, z) >= 0 as real,
        forall|l: int, r: int| 0 <= l < m && 0 <= r < m ==> #[trigger] g(l, r) == g(r, l),
{
    let lines = |l: int, e: int| x(e, l);
    let h = gram(n, lines);
    let one = |b: int, r: int| z(b) * (g(b, r) * z(r));
    let two = |b: int, r: int| z(b) * (h(b, r) * z(r));
    assert forall|l: int, r: int| 0 <= l < m && 0 <= r < m implies #[trigger] g(l, r) == h(l, r) by {
        lemma_total_ext(n, |e: int| x(e, l) * x(e, r), |c: int| lines(l, c) * lines(r, c));
    }
    assert forall|b: int, r: int| 0 <= b < m && 0 <= r < m implies #[trigger] one(b, r) == two(
        b,
        r,
    ) by {
        assert(g(b, r) == h(b, r));
    }
    crate::exact::lemma_total2_ext(m, m, one, two);
    lemma_gram_form(m, n, lines, z, z);
    let squares = |c: int| image(m, lines, z, c) * image(m, lines, z, c);
    assert forall|c: int| 0 <= c < n implies #[trigger] squares(c) >= 0 as real by {
        lemma_square(image(m, lines, z, c));
    }
    lemma_total_not_negative(n, squares);
    assert forall|l: int, r: int| 0 <= l < m && 0 <= r < m implies #[trigger] g(l, r) == g(r, l) by {
        let p = |e: int| x(e, l) * x(e, r);
        let q = |e: int| x(e, r) * x(e, l);
        assert forall|e: int| 0 <= e < n implies #[trigger] p(e) == q(e) by {
            let s = x(e, l);
            let t = x(e, r);
            assert(s * t == t * s) by (nonlinear_arith);
        }
        lemma_total_ext(n, p, q);
        assert(g(l, r) == total(n, p));
        assert(g(r, l) == total(n, q));
    }
}

/// `y` solves `(g + lambda p) y = f`.
pub open spec fn is_answer(
    m: int,
    g: spec_fn(int, int) -> real,
    p: spec_fn(int, int) -> real,
    lambda: real,
    f: spec_fn(int) -> real,
    y: spec_fn(int) -> real,
) -> bool {
    forall|b: int|
        0 <= b < m ==> applied(m, g, y, b) + lambda * applied(m, p, y, b) == #[trigger] f(b)
}

/// The form of an answer is its product with the right-hand side.
proof fn lemma_answer_form(
    m: int,
    g: spec_fn(int, int) -> real,
    p: spec_fn(int, int) -> real,
    lambda: real,
    f: spec_fn(int) -> real,
    y: spec_fn(int) -> real,
    z: spec_fn(int) -> real,
)
    requires
        is_answer(m, g, p, lambda, f, y),
    ensures
        bilinear(m, g, z, y) + lambda * bilinear(m, p, z, y) == total(m, |l: int| z(l) * f(l)),
{
    lemma_form_of_applied(m, g, z, y);
    lemma_form_of_applied(m, p, z, y);
    let fg = |b: int| z(b) * applied(m, g, y, b);
    let fp = |b: int| z(b) * applied(m, p, y, b);
    let scaled = |b: int| lambda * fp(b);
    let both = |b: int| fg(b) + scaled(b);
    let rhs = |l: int| z(l) * f(l);
    assert forall|b: int| 0 <= b < m implies #[trigger] both(b) == rhs(b) by {
        let s = z(b);
        let i = applied(m, g, y, b);
        let j = applied(m, p, y, b);
        let e = lambda * j;
        assert(i + e == f(b));
        assert(s * (i + e) == s * i + s * e) by (nonlinear_arith);
        assert(s * (lambda * j) == lambda * (s * j)) by (nonlinear_arith);
    }
    lemma_total_scaled(m, lambda, fp);
    lemma_total_plus(m, fg, scaled);
    lemma_total_ext(m, both, rhs);
}

/// A stronger penalty lowers a right-hand side's product with its answer.
proof fn lemma_answers_fall(
    m: int,
    n: int,
    x: spec_fn(int, int) -> real,
    g: spec_fn(int, int) -> real,
    p: spec_fn(int, int) -> real,
    weak: real,
    strong: real,
    f: spec_fn(int) -> real,
    y: spec_fn(int) -> real,
    z: spec_fn(int) -> real,
)
    requires
        is_gram_of(m, n, x, g),
        is_semidefinite(m, p),
        forall|b: int, r: int| 0 <= b < m && 0 <= r < m ==> #[trigger] p(b, r) == p(r, b),
        0 as real <= weak <= strong,
        is_answer(m, g, p, weak, f, y),
        is_answer(m, g, p, strong, f, z),
    ensures
        total(m, |l: int| z(l) * f(l)) <= total(m, |l: int| y(l) * f(l)),
{
    let d = |l: int| y(l) - z(l);
    // y = z + d under the weak matrix.
    lemma_gram_is_plain(m, n, x, g, d);
    lemma_form_of_a_sum(m, g, z, d, y);
    lemma_form_of_a_sum(m, p, z, d, y);
    lemma_answer_form(m, g, p, weak, f, y, y);
    lemma_answer_form(m, g, p, weak, f, y, z);
    lemma_answer_form(m, g, p, strong, f, z, z);
    // z' A y = z' A z + z' A d, and d' A z = z' A d.
    crate::forms::lemma_bilinear_symmetric(m, g, d, z);
    crate::forms::lemma_bilinear_symmetric(m, p, d, z);
    crate::quadratic::lemma_form_plus(m, g, z, z, d, y);
    crate::quadratic::lemma_form_plus(m, p, z, z, d, y);
    let gzz = bilinear(m, g, z, z);
    let pzz = bilinear(m, p, z, z);
    let gdz = bilinear(m, g, d, z);
    let pdz = bilinear(m, p, d, z);
    let gdd = bilinear(m, g, d, d);
    let pdd = bilinear(m, p, d, d);
    assert(pzz >= 0 as real);
    assert(pdd >= 0 as real);
    let fy = total(m, |l: int| y(l) * f(l));
    let fz = total(m, |l: int| z(l) * f(l));
    let a = weak * pzz;
    let b = weak * pdz;
    let c = weak * pdd;
    let e = strong * pzz;
    assert(weak * (pzz + 2 as real * pdz + pdd) == weak * pzz + 2 as real * (weak * pdz) + weak
        * pdd) by (nonlinear_arith);
    assert(weak * (pzz + pdz) == weak * pzz + weak * pdz) by (nonlinear_arith);
    lemma_product_not_negative(weak, pdd);
    lemma_product_grows(weak, strong, pzz);
    assert(fy == gzz + 2 as real * gdz + gdd + (a + 2 as real * b + c));
    assert(fz == gzz + gdz + (a + b));
    assert(fz == gzz + e);
}

/// A matrix and its transpose are adjoint.
proof fn lemma_turned_dot(
    m: int,
    u: spec_fn(int, int) -> real,
    x: spec_fn(int) -> real,
    z: spec_fn(int) -> real,
)
    ensures
        total(m, |l: int| x(l) * applied(m, u, z, l)) == total(
            m,
            |j: int| z(j) * applied(m, turned(u), x, j),
        ),
{
    lemma_form_of_applied(m, u, x, z);
    lemma_form_of_applied(m, turned(u), z, x);
    let f = |b: int, r: int| x(b) * (u(b, r) * z(r));
    let g = |b: int, r: int| z(b) * (turned(u)(b, r) * x(r));
    assert forall|b: int, r: int| 0 <= b < m && 0 <= r < m implies #[trigger] g(r, b) == f(b, r) by {
        let s = x(b);
        let t = z(r);
        let q = u(b, r);
        assert(s * (q * t) == t * (q * s)) by (nonlinear_arith);
    }
    lemma_total2_exchange(m, m, f, g);
    lemma_total_ext(
        m,
        |b: int| x(b) * applied(m, u, z, b),
        |l: int| x(l) * applied(m, u, z, l),
    );
    lemma_total_ext(
        m,
        |b: int| z(b) * applied(m, turned(u), x, b),
        |j: int| z(j) * applied(m, turned(u), x, j),
    );
}

/// A row in the rotated basis, as a product with the transpose.
proof fn lemma_rotated_row(
    m: int,
    x: spec_fn(int, int) -> real,
    u: spec_fn(int, int) -> real,
    row: spec_fn(int) -> real,
    e: int,
    i: int,
)
    requires
        forall|l: int| 0 <= l < m ==> #[trigger] row(l) == x(e, l),
    ensures
        applied(m, turned(u), row, i) == rotated_rows(m, x, u)(e, i),
{
    let f = |r: int| turned(u)(i, r) * row(r);
    let g = |l: int| x(e, l) * column_at(u, i)(l);
    assert forall|r: int| 0 <= r < m implies #[trigger] f(r) == g(r) by {
        let a = u(r, i);
        let b = x(e, r);
        assert(row(r) == b);
        assert(a * b == b * a) by (nonlinear_arith);
    }
    lemma_total_ext(m, f, g);
}

/// Where every mode is above the floor, the counted trace is the sum of the shares.
proof fn lemma_counted_trace<S: Scalar>(
    v: spec_fn(S) -> real,
    projected: &Matrix<S>,
    penalties: Seq<S>,
    eigen: &Eigen<S>,
    floor: S,
    n: int,
    shares: spec_fn(int) -> real,
)
    requires
        is_exact(v),
        v(floor) == 0 as real,
        forall|j: int| 0 <= j < n ==> v(#[trigger] eigen.values@[j]) > 0 as real,
        forall|j: int|
            0 <= j < n ==> #[trigger] shares(j) == v(projected.at(j, j)) / v(eigen.values@[j]),
    ensures
        v(s_counted_trace(projected, penalties, eigen, floor, n)) == total(n, shares),
    decreases n,
{
    if n > 0 {
        lemma_counted_trace(v, projected, penalties, eigen, floor, n - 1, shares);
        assert(v(eigen.values@[n - 1]) > 0 as real);
        assert(shares(n - 1) == v(projected.at(n - 1, n - 1)) / v(eigen.values@[n - 1]));
    }
}

/// A census with its eigendecompositions, without rounding: the penalty's and that of
/// the shifted matrix are exact, and no direction is left undetermined.
pub open spec fn is_exact_census<S: Scalar>(
    v: spec_fn(S) -> real,
    m: nat,
    data: &Matrix<S>,
    matrix: &Matrix<S>,
    lambda: S,
    penalty: &Eigen<S>,
    census: &Census<S>,
    shifted: &Matrix<S>,
    eigen: &Eigen<S>,
    projected: &Matrix<S>,
) -> bool {
    &&& v(S::s_epsilon()) == 0 as real
    &&& v(lambda) >= 0 as real
    &&& data.has_shape(m, m)
    &&& penalty.has_size(m)
    &&& eigen.has_size(m)
    &&& is_decomposed(v, m as int, entries(v, matrix), penalty)
    &&& none_below(
        penalty.values@,
        s_noise_floor(s_max_abs(penalty.values@), penalty.values@.len()),
    )
    &&& is_census(data, lambda, penalty, census)
    &&& is_shifted(census, lambda, penalty, shifted)
    &&& is_decomposed(v, m as int, entries(v, shifted), eigen)
    &&& forall|j: int| 0 <= j < m ==> v(#[trigger] eigen.values@[j]) > 0 as real
    &&& is_rotated(&eigen.vectors, &census.scaled, projected)
}

/// The rows of the census's scaled matrix.
spec fn scaled_rows<S: Scalar>(
    v: spec_fn(S) -> real,
    m: int,
    x: spec_fn(int, int) -> real,
    lambda: S,
    penalty: &Eigen<S>,
) -> spec_fn(int, int) -> real {
    |e: int, i: int|
        rotated_rows(m, x, entries(v, &penalty.vectors))(e, i) * v(
            s_mode_scale(penalty, lambda, i),
        )
}

/// The census's scaled matrix is the Gram matrix of scaled rows, and the shifted one
/// has the penalty's share besides.
proof fn lemma_census_matrices<S: Scalar>(
    v: spec_fn(S) -> real,
    m: nat,
    n: int,
    x: spec_fn(int, int) -> real,
    data: &Matrix<S>,
    matrix: &Matrix<S>,
    lambda: S,
    penalty: &Eigen<S>,
    census: &Census<S>,
    shifted: &Matrix<S>,
    eigen: &Eigen<S>,
    projected: &Matrix<S>,
)
    requires
        is_exact(v),
        is_gram_of(m as int, n, x, entries(v, data)),
        is_exact_census(
            v,
            m,
            data,
            matrix,
            lambda,
            penalty,
            census,
            shifted,
            eigen,
            projected,
        ),
    ensures
        is_gram_of(
            m as int,
            n,
            scaled_rows(v, m as int, x, lambda, penalty),
            entries(v, &census.scaled),
        ),
        is_scaled_matrix(
            m as int,
            times(
                m as int,
                times(m as int, turned(entries(v, &penalty.vectors)), entries(v, data)),
                entries(v, &penalty.vectors),
            ),
            |i: int| v(s_mode_scale(penalty, lambda, i)),
            |i: int|
                v(lambda) * v(penalty.values@[i]) * v(s_mode_scale(penalty, lambda, i)) * v(
                    s_mode_scale(penalty, lambda, i),
                ),
            entries(v, shifted),
        ),
{
    let size = m as int;
    let u = entries(v, &penalty.vectors);
    let g = entries(v, data);
    let a = rotated_rows(size, x, u);
    let t = scaled_rows(v, size, x, lambda, penalty);
    let d = |i: int| v(s_mode_scale(penalty, lambda, i));
    let turn = times(size, times(size, turned(u), g), u);
    lemma_rotated_gram(size, n, x, g, u);
    let rotated = choose|rotated: Matrix<S>|
        {
            &&& #[trigger] is_rotated(&penalty.vectors, data, &rotated)
            &&& census.scaled.has_shape(data.nrows(), data.nrows())
            &&& forall|i: int, j: int|
                0 <= i < data.nrows() && 0 <= j < data.nrows() ==> #[trigger] census.scaled.at(
                    i,
                    j,
                ) == s_mode_scale(penalty, lambda, i).s_times(rotated.at(i, j)).s_times(
                    s_mode_scale(penalty, lambda, j),
                )
        };
    let scaled = entries(v, &census.scaled);
    assert forall|i: int, j: int| 0 <= i < size && 0 <= j < size implies #[trigger] scaled(i, j)
        == turn(i, j) * d(i) * d(j) by {
        lemma_exact_rotated(v, &penalty.vectors, data, &rotated, m, i, j);
        assert(census.scaled.at(i, j) == s_mode_scale(penalty, lambda, i).s_times(
            rotated.at(i, j),
        ).s_times(s_mode_scale(penalty, lambda, j)));
        let p = turn(i, j);
        let q = d(i);
        assert(q * p == p * q) by (nonlinear_arith);
    }
    assert forall|i: int, j: int| 0 <= i < size && 0 <= j < size implies #[trigger] scaled(i, j)
        == total(n, |e: int| t(e, i) * t(e, j)) by {
        let f = |e: int| a(e, i) * a(e, j);
        let k = d(i) * d(j);
        lemma_total_scaled(n, k, f);
        let one = |e: int| k * f(e);
        let two = |e: int| t(e, i) * t(e, j);
        assert forall|e: int| 0 <= e < n implies #[trigger] one(e) == two(e) by {
            let p = a(e, i);
            let q = a(e, j);
            let r = d(i);
            let s = d(j);
            assert((r * s) * (p * q) == (p * r) * (q * s)) by (nonlinear_arith);
        }
        lemma_total_ext(n, one, two);
        assert(turn(i, j) == total(n, f));
        let p = total(n, f);
        let r = d(i);
        let s = d(j);
        assert(p * r * s == (r * s) * p) by (nonlinear_arith);
    }
    let moved = entries(v, shifted);
    let share = |i: int|
        v(lambda) * v(penalty.values@[i]) * v(s_mode_scale(penalty, lambda, i)) * v(
            s_mode_scale(penalty, lambda, i),
        );
    assert forall|i: int, j: int| 0 <= i < size && 0 <= j < size implies #[trigger] moved(i, j)
        == turn(i, j) * d(i) * d(j) + (if i == j {
        share(i)
    } else {
        0 as real
    }) by {
        lemma_accepted(v, penalty.values@, i);
        lemma_mode_scale(v, penalty, lambda, i);
        assert(scaled(i, j) == turn(i, j) * d(i) * d(j));
        assert(shifted.at(i, j) == (if i == j {
            census.scaled.at(i, j).s_plus(s_penalty_fraction(penalty, lambda, i))
        } else {
            census.scaled.at(i, j)
        }));
    }
}

/// One row's part of the trace: its coordinate in every mode, squared, over the
/// mode's eigenvalue. It is the row's product with its answer.
proof fn lemma_row_answer<S: Scalar>(
    v: spec_fn(S) -> real,
    m: nat,
    n: int,
    x: spec_fn(int, int) -> real,
    data: &Matrix<S>,
    matrix: &Matrix<S>,
    lambda: S,
    penalty: &Eigen<S>,
    census: &Census<S>,
    shifted: &Matrix<S>,
    eigen: &Eigen<S>,
    projected: &Matrix<S>,
    e: int,
) -> (out: spec_fn(int) -> real)
    requires
        is_exact(v),
        is_gram_of(m as int, n, x, entries(v, data)),
        is_exact_census(
            v,
            m,
            data,
            matrix,
            lambda,
            penalty,
            census,
            shifted,
            eigen,
            projected,
        ),
        0 <= e < n,
    ensures
        is_answer(
            m as int,
            entries(v, data),
            entries(v, matrix),
            v(lambda),
            |l: int| x(e, l),
            out,
        ),
        total(m as int, |l: int| out(l) * x(e, l)) == total(
            m as int,
            |j: int| mode_part(v, m as int, x, lambda, penalty, eigen, e, j),
        ),
{
    let size = m as int;
    let u = entries(v, &penalty.vectors);
    let w = entries(v, &eigen.vectors);
    let g = entries(v, data);
    let p = entries(v, matrix);
    let t = scaled_rows(v, size, x, lambda, penalty);
    let a = rotated_rows(size, x, u);
    let b = rotated_rows(size, t, w);
    let d = |i: int| v(s_mode_scale(penalty, lambda, i));
    let row = |l: int| x(e, l);
    let scaled_row = |i: int| t(e, i);
    let quotient = |j: int| b(e, j) / v(eigen.values@[j]);
    let inner = image_of(size, w, quotient);
    let unscaled = |j: int| inner(j) * d(j);
    let out = image_of(size, u, unscaled);
    lemma_census_matrices(
        v,
        m,
        n,
        x,
        data,
        matrix,
        lambda,
        penalty,
        census,
        shifted,
        eigen,
        projected,
    );
    assert forall|i: int| 0 <= i < size implies #[trigger] d(i) > 0 as real by {
        lemma_accepted(v, penalty.values@, i);
        lemma_mode_scale(v, penalty, lambda, i);
    }
    assert forall|j: int| 0 <= j < size implies v(eigen.values@[j]) * #[trigger] quotient(j)
        == applied(size, turned(w), scaled_row, j) by {
        lemma_rotated_row(size, t, w, scaled_row, e, j);
        let mu = v(eigen.values@[j]);
        let y = b(e, j);
        let q = quotient(j);
        lemma_over(y, mu);
    }
    let moved = entries(v, shifted);
    assert forall|i: int| 0 <= i < size implies applied(size, moved, inner, i) == d(i)
        * #[trigger] applied(size, turned(u), row, i) by {
        lemma_mode_quotient_solves(v, size, moved, eigen, scaled_row, quotient, inner, i);
        lemma_rotated_row(size, x, u, row, e, i);
        let y = a(e, i);
        let z = d(i);
        assert(y * z == z * y) by (nonlinear_arith);
    }
    let share = |i: int|
        v(lambda) * v(penalty.values@[i]) * v(s_mode_scale(penalty, lambda, i)) * v(
            s_mode_scale(penalty, lambda, i),
        );
    let share2 = |i: int| v(lambda) * v(penalty.values@[i]) * d(i) * d(i);
    assert(share =~= share2);
    assert forall|i: int| 0 <= i < size implies #[trigger] out(i) == applied(
        size,
        u,
        |j: int| inner(j) * d(j),
        i,
    ) by {
        lemma_applied_ext(size, u, u, unscaled, |j: int| inner(j) * d(j), i);
    }
    assert forall|c: int| 0 <= c < size implies applied(size, g, out, c) + v(lambda) * applied(
        size,
        p,
        out,
        c,
    ) == #[trigger] row(c) by {
        lemma_unwound(v, size, g, p, penalty, v(lambda), d, moved, row, inner, out, c);
    }
    // The product with the answer.
    let f1 = |l: int| out(l) * x(e, l);
    let f2 = |l: int| row(l) * applied(size, u, unscaled, l);
    assert forall|l: int| 0 <= l < size implies #[trigger] f1(l) == f2(l) by {
        let y = out(l);
        let z = row(l);
        assert(y * z == z * y) by (nonlinear_arith);
    }
    lemma_total_ext(size, f1, f2);
    lemma_turned_dot(size, u, row, unscaled);
    let f3 = |j: int| unscaled(j) * applied(size, turned(u), row, j);
    let f4 = |l: int| scaled_row(l) * applied(size, w, quotient, l);
    assert forall|j: int| 0 <= j < size implies #[trigger] f3(j) == f4(j) by {
        lemma_rotated_row(size, x, u, row, e, j);
        let y = inner(j);
        let z = d(j);
        let q = a(e, j);
        assert((y * z) * q == (q * z) * y) by (nonlinear_arith);
    }
    lemma_total_ext(size, f3, f4);
    lemma_turned_dot(size, w, scaled_row, quotient);
    let f5 = |j: int| quotient(j) * applied(size, turned(w), scaled_row, j);
    let f6 = |j: int| mode_part(v, size, x, lambda, penalty, eigen, e, j);
    assert forall|j: int| 0 <= j < size implies #[trigger] f5(j) == f6(j) by {
        lemma_rotated_row(size, t, w, scaled_row, e, j);
        let y = quotient(j);
        let z = b(e, j);
        assert(y * z == z * y) by (nonlinear_arith);
    }
    lemma_total_ext(size, f5, f6);
    out
}

/// A row's coordinate in a mode, squared, over the mode's eigenvalue.
spec fn mode_part<S: Scalar>(
    v: spec_fn(S) -> real,
    m: int,
    x: spec_fn(int, int) -> real,
    lambda: S,
    penalty: &Eigen<S>,
    eigen: &Eigen<S>,
    e: int,
    j: int,
) -> real {
    let b = rotated_rows(
        m,
        scaled_rows(v, m, x, lambda, penalty),
        entries(v, &eigen.vectors),
    )(e, j);
    b * (b / v(eigen.values@[j]))
}

/// The counted trace, row by row.
proof fn lemma_trace_by_row<S: Scalar>(
    v: spec_fn(S) -> real,
    m: nat,
    n: int,
    x: spec_fn(int, int) -> real,
    data: &Matrix<S>,
    matrix: &Matrix<S>,
    lambda: S,
    penalty: &Eigen<S>,
    census: &Census<S>,
    shifted: &Matrix<S>,
    eigen: &Eigen<S>,
    projected: &Matrix<S>,
    floor: S,
    rows: spec_fn(int) -> real,
)
    requires
        is_exact(v),
        v(floor) == 0 as real,
        is_gram_of(m as int, n, x, entries(v, data)),
        is_exact_census(
            v,
            m,
            data,
            matrix,
            lambda,
            penalty,
            census,
            shifted,
            eigen,
            projected,
        ),
        forall|e: int|
            0 <= e < n ==> #[trigger] rows(e) == total(
                m as int,
                |j: int| mode_part(v, m as int, x, lambda, penalty, eigen, e, j),
            ),
    ensures
        v(s_counted_trace(projected, census.penalties@, eigen, floor, m as int)) == total(n, rows),
{
    let size = m as int;
    let w = entries(v, &eigen.vectors);
    let t = scaled_rows(v, size, x, lambda, penalty);
    let b = rotated_rows(size, t, w);
    lemma_census_matrices(
        v,
        m,
        n,
        x,
        data,
        matrix,
        lambda,
        penalty,
        census,
        shifted,
        eigen,
        projected,
    );
    lemma_rotated_gram(size, n, t, entries(v, &census.scaled), w);
    let cell = |e: int, j: int| mode_part(v, size, x, lambda, penalty, eigen, e, j);
    let shares = |j: int| v(projected.at(j, j)) / v(eigen.values@[j]);
    let swapped = |j: int, e: int| cell(e, j);
    assert(census.scaled.has_shape(m, m));
    assert forall|j: int| 0 <= j < size implies #[trigger] shares(j) == total(
        n,
        |e: int| swapped(j, e),
    ) by {
        lemma_exact_rotated(v, &eigen.vectors, &census.scaled, projected, m, j, j);
        let turn = times(
            size,
            times(size, turned(w), entries(v, &census.scaled)),
            w,
        );
        let f = |e: int| b(e, j) * b(e, j);
        assert(turn(j, j) == total(n, f));
        let mu = v(eigen.values@[j]);
        let h = |e: int| swapped(j, e);
        lemma_total_scaled(n, mu, h);
        let scaled = |e: int| mu * h(e);
        assert forall|e: int| 0 <= e < n implies #[trigger] scaled(e) == f(e) by {
            let y = b(e, j);
            let q = y / mu;
            lemma_over(y, mu);
            assert(mu * (y * q) == y * (q * mu)) by (nonlinear_arith);
        }
        lemma_total_ext(n, scaled, f);
        let part = total(n, h);
        let whole = total(n, f);
        lemma_quotient(whole, mu, part);
    }
    lemma_counted_trace(v, projected, census.penalties@, eigen, floor, size, shares);
    lemma_total2_lines(size, n, swapped, shares);
    lemma_total2_exchange(size, n, swapped, cell);
    assert forall|e: int| 0 <= e < n implies #[trigger] rows(e) == total(
        size,
        |j: int| cell(e, j),
    ) by {
        lemma_total_ext(
            size,
            |j: int| mode_part(v, size, x, lambda, penalty, eigen, e, j),
            |j: int| cell(e, j),
        );
    }
    lemma_total2_lines(n, size, cell, rows);
}

/// The trace falls as the smoothing strength grows, without rounding: with exact
/// eigendecompositions at two strengths, and no direction that neither the data nor
/// the penalty determines, the stronger one has no more degrees of freedom.
pub proof fn law_the_trace_falls_as_the_strength_grows<S: Scalar>(
    v: spec_fn(S) -> real,
    m: nat,
    n: int,
    x: spec_fn(int, int) -> real,
    data: &Matrix<S>,
    matrix: &Matrix<S>,
    penalty: &Eigen<S>,
    weak: S,
    weak_census: &Census<S>,
    weak_shifted: &Matrix<S>,
    weak_eigen: &Eigen<S>,
    weak_projected: &Matrix<S>,
    strong: S,
    strong_census: &Census<S>,
    strong_shifted: &Matrix<S>,
    strong_eigen: &Eigen<S>,
    strong_projected: &Matrix<S>,
)
    requires
        is_exact(v),
        0 <= n,
        is_gram_of(m as int, n, x, entries(v, data)),
        is_semidefinite(m as int, entries(v, matrix)),
        forall|b: int, r: int|
            0 <= b < m && 0 <= r < m ==> #[trigger] entries(v, matrix)(b, r) == entries(v, matrix)(
                r,
                b,
            ),
        v(weak) <= v(strong),
        is_exact_census(
            v,
            m,
            data,
            matrix,
            weak,
            penalty,
            weak_census,
            weak_shifted,
            weak_eigen,
            weak_projected,
        ),
        is_exact_census(
            v,
            m,
            data,
            matrix,
            strong,
            penalty,
            strong_census,
            strong_shifted,
            strong_eigen,
            strong_projected,
        ),
    ensures
        v(s_census_trace(strong_projected, strong_census, strong_eigen)) <= v(
            s_census_trace(weak_projected, weak_census, weak_eigen),
        ),
{
    let size = m as int;
    let g = entries(v, data);
    let p = entries(v, matrix);
    let y = |e: int| total(size, |j: int| mode_part(v, size, x, weak, penalty, weak_eigen, e, j));
    let z = |e: int|
        total(size, |j: int| mode_part(v, size, x, strong, penalty, strong_eigen, e, j));
    assert forall|e: int| 0 <= e < n implies #[trigger] z(e) <= y(e) by {
        let row = |l: int| x(e, l);
        let one = lemma_row_answer(
            v,
            m,
            n,
            x,
            data,
            matrix,
            weak,
            penalty,
            weak_census,
            weak_shifted,
            weak_eigen,
            weak_projected,
            e,
        );
        let two = lemma_row_answer(
            v,
            m,
            n,
            x,
            data,
            matrix,
            strong,
            penalty,
            strong_census,
            strong_shifted,
            strong_eigen,
            strong_projected,
            e,
        );
        lemma_answers_fall(size, n, x, g, p, v(weak), v(strong), row, one, two);
        lemma_total_ext(size, |l: int| one(l) * row(l), |l: int| one(l) * x(e, l));
        lemma_total_ext(size, |l: int| two(l) * row(l), |l: int| two(l) * x(e, l));
    }
    lemma_total_at_most(n, z, y);
    let weak_floor = s_noise_floor(
        crate::spectral::s_trace(&weak_census.scaled).s_larger(S::s_one()),
        weak_census.scaled.nrows(),
    );
    let strong_floor = s_noise_floor(
        crate::spectral::s_trace(&strong_census.scaled).s_larger(S::s_one()),
        strong_census.scaled.nrows(),
    );
    lemma_no_floor(
        v,
        crate::spectral::s_trace(&weak_census.scaled).s_larger(S::s_one()),
        weak_census.scaled.nrows(),
    );
    lemma_no_floor(
        v,
        crate::spectral::s_trace(&strong_census.scaled).s_larger(S::s_one()),
        strong_census.scaled.nrows(),
    );
    lemma_trace_by_row(
        v,
        m,
        n,
        x,
        data,
        matrix,
        weak,
        penalty,
        weak_census,
        weak_shifted,
        weak_eigen,
        weak_projected,
        weak_floor,
        y,
    );
    lemma_trace_by_row(
        v,
        m,
        n,
        x,
        data,
        matrix,
        strong,
        penalty,
        strong_census,
        strong_shifted,
        strong_eigen,
        strong_projected,
        strong_floor,
        z,
    );
    assert(weak_census.scaled.nrows() == m);
    assert(strong_census.scaled.nrows() == m);
}

/// A diagonal entry of a rotated matrix is the form of a column.
proof fn lemma_rotated_diagonal(
    m: int,
    u: spec_fn(int, int) -> real,
    c: spec_fn(int, int) -> real,
    j: int,
)
    ensures
        times(m, times(m, turned(u), c), u)(j, j) == bilinear(
            m,
            c,
            column_at(u, j),
            column_at(u, j),
        ),
{
    let half = times(m, turned(u), c);
    let y = column_at(u, j);
    let f = |r: int| half(j, r) * u(r, j);
    let cell = |r: int, l: int| y(l) * (c(l, r) * y(r));
    assert forall|r: int| 0 <= r < m implies #[trigger] f(r) == total(m, |l: int| cell(r, l)) by {
        let h = |l: int| turned(u)(j, l) * c(l, r);
        let k = u(r, j);
        lemma_total_scaled(m, k, h);
        let one = |l: int| k * h(l);
        let two = |l: int| cell(r, l);
        assert forall|l: int| 0 <= l < m implies #[trigger] one(l) == two(l) by {
            let a = u(l, j);
            let b = c(l, r);
            assert(k * (a * b) == a * (b * k)) by (nonlinear_arith);
        }
        lemma_total_ext(m, one, two);
        lemma_total_ext(m, h, |q: int| turned(u)(j, q) * c(q, r));
        let x = total(m, h);
        assert(x * k == k * x) by (nonlinear_arith);
    }
    lemma_total2_lines(m, m, cell, f);
    let swapped = |l: int, r: int| y(l) * (c(l, r) * y(r));
    lemma_total2_exchange(m, m, cell, swapped);
    lemma_total_ext(m, f, |k: int| half(j, k) * u(k, j));
}

/// Every mode has one degree of freedom at most.
proof fn lemma_mode_share<S: Scalar>(
    v: spec_fn(S) -> real,
    m: nat,
    data: &Matrix<S>,
    matrix: &Matrix<S>,
    lambda: S,
    penalty: &Eigen<S>,
    census: &Census<S>,
    shifted: &Matrix<S>,
    eigen: &Eigen<S>,
    projected: &Matrix<S>,
    j: int,
)
    requires
        is_exact(v),
        is_exact_census(
            v,
            m,
            data,
            matrix,
            lambda,
            penalty,
            census,
            shifted,
            eigen,
            projected,
        ),
        0 <= j < m,
    ensures
        v(projected.at(j, j)) / v(eigen.values@[j]) <= 1 as real,
{
    let size = m as int;
    let w = entries(v, &eigen.vectors);
    let c = entries(v, &census.scaled);
    let moved = entries(v, shifted);
    let share = |i: int| v(s_penalty_fraction(penalty, lambda, i));
    let y = column_at(w, j);
    let mu = v(eigen.values@[j]);
    assert(census.scaled.has_shape(m, m));
    lemma_exact_rotated(v, &eigen.vectors, &census.scaled, projected, m, j, j);
    lemma_rotated_diagonal(size, w, c, j);
    // The shifted matrix has the eigenvalue on the mode.
    lemma_form_of_applied(size, moved, y, y);
    let f = |b: int| y(b) * applied(size, moved, y, b);
    let squares = |k: int| turned(w)(j, k) * w(k, j);
    let scaled = |k: int| mu * squares(k);
    assert forall|b: int| 0 <= b < size implies #[trigger] f(b) == scaled(b) by {
        let t = times(size, moved, w);
        assert(t(b, j) == w(b, j) * mu);
        lemma_total_ext(size, |r: int| moved(b, r) * y(r), |k: int| moved(b, k) * w(k, j));
        let a = w(b, j);
        assert(a * (a * mu) == mu * (a * a)) by (nonlinear_arith);
    }
    lemma_total_scaled(size, mu, squares);
    lemma_total_ext(size, f, scaled);
    assert(times(size, turned(w), w)(j, j) == 1 as real);
    assert(total(size, squares) == 1 as real);
    assert(bilinear(size, moved, y, y) == mu);
    // It is the scaled matrix with shares on the diagonal.
    let p = with_diagonal(c, share);
    let one = |b: int, r: int| y(b) * (moved(b, r) * y(r));
    let two = |b: int, r: int| y(b) * (p(b, r) * y(r));
    assert forall|b: int, r: int| 0 <= b < size && 0 <= r < size implies #[trigger] one(b, r)
        == two(b, r) by {
        assert(shifted.at(b, r) == (if b == r {
            census.scaled.at(b, r).s_plus(s_penalty_fraction(penalty, lambda, b))
        } else {
            census.scaled.at(b, r)
        }));
    }
    crate::exact::lemma_total2_ext(size, size, one, two);
    lemma_diagonal_form(size, c, share, y, y);
    let diag = |i: int| y(i) * (share(i) * y(i));
    assert forall|i: int| 0 <= i < size implies #[trigger] diag(i) >= 0 as real by {
        lemma_accepted(v, penalty.values@, i);
        lemma_mode_scale(v, penalty, lambda, i);
        let l = v(lambda);
        let s = v(penalty.values@[i]);
        let d = v(s_mode_scale(penalty, lambda, i));
        let q = l * s;
        lemma_product_not_negative(l, s);
        let k = q * d;
        lemma_product_not_negative(q, d);
        let h = k * d;
        lemma_product_not_negative(k, d);
        assert(share(i) == h);
        let t = y(i);
        lemma_square(t);
        let z = t * t;
        lemma_product_not_negative(h, z);
        assert(t * (h * t) == h * (t * t)) by (nonlinear_arith);
    }
    lemma_total_not_negative(size, diag);
    let part = v(projected.at(j, j));
    assert(part <= mu);
    let q = part / mu;
    lemma_over(part, mu);
    if q > 1 as real {
        lemma_product_positive(mu, q - 1 as real);
        assert(mu * (q - 1 as real) == mu * q - mu) by (nonlinear_arith);
    }
}

proof fn lemma_null_modes_bound<S: Scalar>(penalty: &Eigen<S>, n: int)
    requires
        0 <= n,
    ensures
        null_modes(penalty, n) <= n,
    decreases n,
{
    if n > 0 {
        lemma_null_modes_bound(penalty, n - 1);
    }
}

/// An atom's curvature degrees of freedom lie between zero and its width less the
/// dimension of its penalty's null space, without rounding.
pub proof fn law_curvature_degrees_lie_within_the_bending_width<S: Scalar>(
    v: spec_fn(S) -> real,
    term: &SaeSupportSparseTerm<S>,
    list: Seq<AtomCensus<S>>,
    a: int,
    m: nat,
    data: &Matrix<S>,
    matrix: &Matrix<S>,
    lambda: S,
    penalty: &Eigen<S>,
    census: &Census<S>,
    shifted: &Matrix<S>,
    eigen: &Eigen<S>,
    projected: &Matrix<S>,
)
    requires
        is_exact(v),
        is_exact_census(
            v,
            m,
            data,
            matrix,
            lambda,
            penalty,
            census,
            shifted,
            eigen,
            projected,
        ),
        list[a].trace == s_census_trace(projected, census, eigen),
        list[a].null_dim == S::s_count(census.null_dim as nat),
    ensures
        0 as real <= v(term.curvature_df(list, a)) <= m as real - census.null_dim as real,
{
    let size = m as int;
    let scale = crate::spectral::s_trace(&census.scaled).s_larger(S::s_one());
    let floor = s_noise_floor(scale, census.scaled.nrows());
    lemma_no_floor(v, scale, census.scaled.nrows());
    let shares = |j: int| v(projected.at(j, j)) / v(eigen.values@[j]);
    lemma_counted_trace(v, projected, census.penalties@, eigen, floor, size, shares);
    let ones = |j: int| 1 as real;
    assert forall|j: int| 0 <= j < size implies #[trigger] shares(j) <= ones(j) by {
        lemma_mode_share(
            v,
            m,
            data,
            matrix,
            lambda,
            penalty,
            census,
            shifted,
            eigen,
            projected,
            j,
        );
    }
    lemma_total_at_most(size, shares, ones);
    lemma_total_ones(size, ones);
    lemma_null_modes_bound(penalty, size);
    assert(census.scaled.nrows() == m);
}

proof fn lemma_total_ones(n: int, f: spec_fn(int) -> real)
    requires
        0 <= n,
        forall|i: int| 0 <= i < n ==> #[trigger] f(i) == 1 as real,
    ensures
        total(n, f) == n as real,
    decreases n,
{
    if n > 0 {
        lemma_total_ones(n - 1, f);
        assert(f(n - 1) == 1 as real);
    }
}

/// An atom's curvature degrees of freedom fall as its own strength grows, where the
/// trace does.
pub proof fn law_curvature_degrees_fall_as_the_strength_grows<S: Scalar>(
    v: spec_fn(S) -> real,
    term: &SaeSupportSparseTerm<S>,
    weak_list: Seq<AtomCensus<S>>,
    strong_list: Seq<AtomCensus<S>>,
    a: int,
    m: nat,
    n: int,
    x: spec_fn(int, int) -> real,
    data: &Matrix<S>,
    matrix: &Matrix<S>,
    penalty: &Eigen<S>,
    weak: S,
    weak_census: &Census<S>,
    weak_shifted: &Matrix<S>,
    weak_eigen: &Eigen<S>,
    weak_projected: &Matrix<S>,
    strong: S,
    strong_census: &Census<S>,
    strong_shifted: &Matrix<S>,
    strong_eigen: &Eigen<S>,
    strong_projected: &Matrix<S>,
)
    requires
        is_exact(v),
        0 <= n,
        is_gram_of(m as int, n, x, entries(v, data)),
        is_semidefinite(m as int, entries(v, matrix)),
        forall|b: int, r: int|
            0 <= b < m && 0 <= r < m ==> #[trigger] entries(v, matrix)(b, r) == entries(v, matrix)(
                r,
                b,
            ),
        v(weak) <= v(strong),
        is_exact_census(
            v,
            m,
            data,
            matrix,
            weak,
            penalty,
            weak_census,
            weak_shifted,
            weak_eigen,
            weak_projected,
        ),
        is_exact_census(
            v,
            m,
            data,
            matrix,
            strong,
            penalty,
            strong_census,
            strong_shifted,
            strong_eigen,
            strong_projected,
        ),
        weak_list[a].trace == s_census_trace(weak_projected, weak_census, weak_eigen),
        weak_list[a].null_dim == S::s_count(weak_census.null_dim as nat),
        strong_list[a].trace == s_census_trace(strong_projected, strong_census, strong_eigen),
        strong_list[a].null_dim == S::s_count(strong_census.null_dim as nat),
    ensures
        v(term.curvature_df(strong_list, a)) <= v(term.curvature_df(weak_list, a)),
{
    law_the_trace_falls_as_the_strength_grows(
        v,
        m,
        n,
        x,
        data,
        matrix,
        penalty,
        weak,
        weak_census,
        weak_shifted,
        weak_eigen,
        weak_projected,
        strong,
        strong_census,
        strong_shifted,
        strong_eigen,
        strong_projected,
    );
}

/// An atom's curvature degrees of freedom are its own: whatever another atom's
/// strength does to that atom's census, they stay.
pub proof fn law_curvature_degrees_are_the_atoms_own<S: Scalar>(
    term: &SaeSupportSparseTerm<S>,
    census: Seq<AtomCensus<S>>,
    a: int,
    other: int,
    changed: AtomCensus<S>,
)
    requires
        0 <= a < census.len(),
        0 <= other < census.len(),
        a != other,
    ensures
        term.curvature_df(census.update(other, changed), a) == term.curvature_df(census, a),
{
}

} // verus!
