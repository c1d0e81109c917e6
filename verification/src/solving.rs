//! The penalised solve, with exact eigendecompositions: it solves the assembled
//! equation.
use crate::exact::{
    lemma_cancel, lemma_over, lemma_product_not_negative, lemma_quotient,
    is_exact, lemma_exact_sum_of, lemma_total2_exchange, lemma_total2_lines, lemma_total_ext,
    lemma_total_plus, lemma_total_scaled, magnitude, total,
};
use crate::matrix::{
    is_matrix_product, is_transposed_product, s_matrix_max_abs, s_transposed_product_at, Matrix,
};
use crate::quadratic::{applied, lemma_single_term};
use crate::scalar::{s_max_abs, Scalar};
use crate::spectral::{
    is_minimum_norm_solution, is_mode_quotient, is_penalized_solution, is_resolved, is_rotated,
    is_scaled_system, none_below, reaches_null_space, row_exceeds, s_mode_penalty, s_mode_scale,
    s_noise_floor, s_penalty_fraction, s_scaled_entry, Eigen, ScaledSystem,
};
use crate::steps::{lemma_two_parts, solves_equations};
use crate::sweep::NormalEquations;
use vstd::prelude::*;

verus! {

/// The entries of a matrix, as real numbers.
pub open spec fn entries<S: Scalar>(v: spec_fn(S) -> real, m: &Matrix<S>) -> spec_fn(
    int,
    int,
) -> real {
    |i: int, j: int| v(m.at(i, j))
}

/// A column of a matrix.
pub open spec fn column<S: Scalar>(v: spec_fn(S) -> real, m: &Matrix<S>, c: int) -> spec_fn(
    int,
) -> real {
    |i: int| v(m.at(i, c))
}

/// The transpose.
pub open spec fn turned(p: spec_fn(int, int) -> real) -> spec_fn(int, int) -> real {
    |i: int, j: int| p(j, i)
}

/// The product of two matrices.
pub open spec fn times(
    m: int,
    p: spec_fn(int, int) -> real,
    q: spec_fn(int, int) -> real,
) -> spec_fn(int, int) -> real {
    |b: int, j: int| total(m, |k: int| p(b, k) * q(k, j))
}

/// The product of a matrix with a vector.
pub open spec fn image_of(
    m: int,
    p: spec_fn(int, int) -> real,
    z: spec_fn(int) -> real,
) -> spec_fn(int) -> real {
    |b: int| applied(m, p, z, b)
}

/// The matrix's lines are orthonormal, and so are its columns.
pub open spec fn is_orthogonal(m: int, u: spec_fn(int, int) -> real) -> bool {
    &&& forall|i: int, j: int|
        0 <= i < m && 0 <= j < m ==> #[trigger] times(m, turned(u), u)(i, j) == (if i == j {
            1 as real
        } else {
            0 as real
        })
    &&& forall|i: int, j: int|
        0 <= i < m && 0 <= j < m ==> #[trigger] times(m, u, turned(u))(i, j) == (if i == j {
            1 as real
        } else {
            0 as real
        })
}

/// The eigendecomposition of a matrix, exact.
pub open spec fn is_decomposed<S: Scalar>(
    v: spec_fn(S) -> real,
    m: int,
    p: spec_fn(int, int) -> real,
    eigen: &Eigen<S>,
) -> bool {
    &&& is_orthogonal(m, entries(v, &eigen.vectors))
    &&& forall|i: int, j: int|
        0 <= i < m && 0 <= j < m ==> #[trigger] times(m, p, entries(v, &eigen.vectors))(i, j)
            == entries(v, &eigen.vectors)(i, j) * v(eigen.values@[j])
}

pub proof fn lemma_applied_ext(
    m: int,
    p: spec_fn(int, int) -> real,
    q: spec_fn(int, int) -> real,
    y: spec_fn(int) -> real,
    z: spec_fn(int) -> real,
    b: int,
)
    requires
        forall|r: int| 0 <= r < m ==> #[trigger] p(b, r) == q(b, r),
        forall|r: int| 0 <= r < m ==> #[trigger] y(r) == z(r),
    ensures
        applied(m, p, y, b) == applied(m, q, z, b),
{
    let f = |r: int| p(b, r) * y(r);
    let g = |r: int| q(b, r) * z(r);
    assert forall|r: int| 0 <= r < m implies #[trigger] f(r) == g(r) by {
        assert(p(b, r) == q(b, r));
        assert(y(r) == z(r));
    }
    lemma_total_ext(m, f, g);
}

/// Two products in turn are one product.
pub proof fn lemma_applied_twice(
    m: int,
    p: spec_fn(int, int) -> real,
    q: spec_fn(int, int) -> real,
    z: spec_fn(int) -> real,
    b: int,
)
    ensures
        applied(m, p, image_of(m, q, z), b) == applied(m, times(m, p, q), z, b),
{
    let cell = |k: int, j: int| p(b, k) * (q(k, j) * z(j));
    let lines = |k: int| p(b, k) * image_of(m, q, z)(k);
    assert forall|k: int| 0 <= k < m implies #[trigger] lines(k) == total(m, |j: int| cell(k, j)) by {
        let f = |j: int| q(k, j) * z(j);
        lemma_total_scaled(m, p(b, k), f);
        lemma_total_ext(m, |j: int| p(b, k) * f(j), |j: int| cell(k, j));
    }
    lemma_total2_lines(m, m, cell, lines);
    let swapped = |j: int, k: int| cell(k, j);
    lemma_total2_exchange(m, m, cell, swapped);
    let t = times(m, p, q);
    let columns = |j: int| t(b, j) * z(j);
    assert forall|j: int| 0 <= j < m implies #[trigger] columns(j) == total(
        m,
        |k: int| swapped(j, k),
    ) by {
        let f = |k: int| p(b, k) * q(k, j);
        let y = z(j);
        lemma_total_scaled(m, y, f);
        let one = |k: int| y * f(k);
        let two = |k: int| swapped(j, k);
        assert forall|k: int| 0 <= k < m implies #[trigger] one(k) == two(k) by {
            let a = p(b, k);
            let e = q(k, j);
            assert(y * (a * e) == a * (e * y)) by (nonlinear_arith);
        }
        lemma_total_ext(m, one, two);
        let x = total(m, f);
        assert(y * x == x * y) by (nonlinear_arith);
    }
    lemma_total2_lines(m, m, swapped, columns);
}

/// A matrix that is the identity changes nothing.
proof fn lemma_identity(m: int, p: spec_fn(int, int) -> real, z: spec_fn(int) -> real, b: int)
    requires
        0 <= b < m,
        forall|j: int|
            0 <= j < m ==> #[trigger] p(b, j) == (if b == j {
                1 as real
            } else {
                0 as real
            }),
    ensures
        applied(m, p, z, b) == z(b),
{
    let f = |r: int| p(b, r) * z(r);
    assert forall|r: int| 0 <= r < m && r != b implies #[trigger] f(r) == 0 as real by {
        let y = z(r);
        assert(p(b, r) == 0 as real);
        assert((0 as real) * y == 0 as real) by (nonlinear_arith);
    }
    lemma_single_term(m, b, f);
    assert(p(b, b) == 1 as real);
}

/// Rotating there and back.
pub proof fn lemma_there_and_back(
    m: int,
    u: spec_fn(int, int) -> real,
    z: spec_fn(int) -> real,
    b: int,
)
    requires
        is_orthogonal(m, u),
        0 <= b < m,
    ensures
        applied(m, u, image_of(m, turned(u), z), b) == z(b),
        applied(m, turned(u), image_of(m, u, z), b) == z(b),
{
    lemma_applied_twice(m, u, turned(u), z, b);
    lemma_identity(m, times(m, u, turned(u)), z, b);
    lemma_applied_twice(m, turned(u), u, z, b);
    lemma_identity(m, times(m, turned(u), u), z, b);
}

/// A decomposed matrix, applied in its own basis.
pub proof fn lemma_decomposed_applied<S: Scalar>(
    v: spec_fn(S) -> real,
    m: int,
    p: spec_fn(int, int) -> real,
    eigen: &Eigen<S>,
    z: spec_fn(int) -> real,
    weighted: spec_fn(int) -> real,
    b: int,
)
    requires
        is_decomposed(v, m, p, eigen),
        0 <= b < m,
        forall|j: int| 0 <= j < m ==> #[trigger] weighted(j) == v(eigen.values@[j]) * z(j),
    ensures
        applied(m, p, image_of(m, entries(v, &eigen.vectors), z), b) == applied(
            m,
            entries(v, &eigen.vectors),
            weighted,
            b,
        ),
{
    let u = entries(v, &eigen.vectors);
    lemma_applied_twice(m, p, u, z, b);
    let t = times(m, p, u);
    let one = |r: int| t(b, r) * z(r);
    let two = |r: int| u(b, r) * weighted(r);
    assert forall|r: int| 0 <= r < m implies #[trigger] one(r) == two(r) by {
        let a = u(b, r);
        let s = v(eigen.values@[r]);
        let y = z(r);
        assert(t(b, r) == a * s);
        assert(weighted(r) == s * y);
        assert((a * s) * y == a * (s * y)) by (nonlinear_arith);
    }
    lemma_total_ext(m, one, two);
}

/// A vector divided mode by mode solves the decomposed equation, where the modes
/// that are dropped carry nothing.
pub proof fn lemma_mode_quotient_solves<S: Scalar>(
    v: spec_fn(S) -> real,
    m: int,
    p: spec_fn(int, int) -> real,
    eigen: &Eigen<S>,
    t: spec_fn(int) -> real,
    quotient: spec_fn(int) -> real,
    w: spec_fn(int) -> real,
    b: int,
)
    requires
        is_decomposed(v, m, p, eigen),
        0 <= b < m,
        forall|j: int|
            0 <= j < m ==> v(eigen.values@[j]) * #[trigger] quotient(j) == applied(
                m,
                turned(entries(v, &eigen.vectors)),
                t,
                j,
            ),
        forall|i: int|
            0 <= i < m ==> #[trigger] w(i) == applied(m, entries(v, &eigen.vectors), quotient, i),
    ensures
        applied(m, p, w, b) == t(b),
{
    let u = entries(v, &eigen.vectors);
    lemma_applied_ext(m, p, p, w, image_of(m, u, quotient), b);
    let projected = image_of(m, turned(u), t);
    assert forall|j: int| 0 <= j < m implies #[trigger] projected(j) == v(eigen.values@[j])
        * quotient(j) by {
        assert(v(eigen.values@[j]) * quotient(j) == applied(m, turned(u), t, j));
    }
    lemma_decomposed_applied(v, m, p, eigen, quotient, projected, b);
    lemma_there_and_back(m, u, t, b);
}

/// A product of sums.
proof fn lemma_applied_sum(
    m: int,
    p: spec_fn(int, int) -> real,
    x: spec_fn(int) -> real,
    y: spec_fn(int) -> real,
    lambda: real,
    z: spec_fn(int) -> real,
    b: int,
)
    requires
        forall|r: int| 0 <= r < m ==> #[trigger] z(r) == x(r) + lambda * y(r),
    ensures
        applied(m, p, z, b) == applied(m, p, x, b) + lambda * applied(m, p, y, b),
{
    let fx = |r: int| p(b, r) * x(r);
    let fy = |r: int| p(b, r) * y(r);
    let fz = |r: int| p(b, r) * z(r);
    let scaled = |r: int| lambda * fy(r);
    let both = |r: int| fx(r) + scaled(r);
    assert forall|r: int| 0 <= r < m implies #[trigger] fz(r) == both(r) by {
        let k = p(b, r);
        let i = x(r);
        let j = y(r);
        let e = lambda * j;
        assert(z(r) == i + e);
        assert(k * (i + e) == k * i + k * e) by (nonlinear_arith);
        assert(k * (lambda * j) == lambda * (k * j)) by (nonlinear_arith);
    }
    lemma_total_scaled(m, lambda, fy);
    lemma_total_plus(m, fx, scaled);
    lemma_total_ext(m, fz, both);
}

/// The scaled matrix: the rotated one, scaled on both sides, with the penalty's share
/// on the diagonal.
pub open spec fn is_scaled_matrix(
    m: int,
    rotated: spec_fn(int, int) -> real,
    d: spec_fn(int) -> real,
    share: spec_fn(int) -> real,
    scaled: spec_fn(int, int) -> real,
) -> bool {
    forall|i: int, j: int|
        0 <= i < m && 0 <= j < m ==> #[trigger] scaled(i, j) == rotated(i, j) * d(i) * d(j) + (
        if i == j {
            share(i)
        } else {
            0 as real
        })
}

/// The scaled matrix, applied.
proof fn lemma_scaled_applied(
    m: int,
    rotated: spec_fn(int, int) -> real,
    d: spec_fn(int) -> real,
    share: spec_fn(int) -> real,
    scaled: spec_fn(int, int) -> real,
    w: spec_fn(int) -> real,
    e: spec_fn(int) -> real,
    i: int,
)
    requires
        0 <= i < m,
        is_scaled_matrix(m, rotated, d, share, scaled),
        forall|j: int| 0 <= j < m ==> #[trigger] e(j) == w(j) * d(j),
    ensures
        applied(m, scaled, w, i) == d(i) * applied(m, rotated, e, i) + share(i) * w(i),
{
    let all = |j: int| scaled(i, j) * w(j);
    let part = |j: int| rotated(i, j) * e(j);
    let data = |j: int| d(i) * part(j);
    let diag = |j: int|
        if j == i {
            share(i) * w(i)
        } else {
            0 as real
        };
    let both = |j: int| data(j) + diag(j);
    assert forall|j: int| 0 <= j < m implies #[trigger] all(j) == both(j) by {
        let a = rotated(i, j);
        let x = d(i);
        let y = d(j);
        let t = w(j);
        let n = share(i);
        assert(e(j) == t * y);
        assert((a * x * y) * t == x * (a * (t * y))) by (nonlinear_arith);
        if i == j {
            let k = a * x * y;
            assert((k + n) * t == k * t + n * t) by (nonlinear_arith);
        }
    }
    lemma_total_scaled(m, d(i), part);
    lemma_total_plus(m, data, diag);
    lemma_total_ext(m, all, both);
    lemma_single_term(m, i, diag);
}

/// Unwinding the scaled equation.
pub proof fn lemma_unwound<S: Scalar>(
    v: spec_fn(S) -> real,
    m: int,
    g: spec_fn(int, int) -> real,
    p: spec_fn(int, int) -> real,
    penalty: &Eigen<S>,
    lambda: real,
    d: spec_fn(int) -> real,
    scaled: spec_fn(int, int) -> real,
    rhs: spec_fn(int) -> real,
    w: spec_fn(int) -> real,
    out: spec_fn(int) -> real,
    b: int,
)
    requires
        is_decomposed(v, m, p, penalty),
        0 <= b < m,
        forall|i: int| 0 <= i < m ==> #[trigger] d(i) > 0 as real,
        is_scaled_matrix(
            m,
            times(
                m,
                times(m, turned(entries(v, &penalty.vectors)), g),
                entries(v, &penalty.vectors),
            ),
            d,
            |i: int| lambda * v(penalty.values@[i]) * d(i) * d(i),
            scaled,
        ),
        forall|i: int|
            0 <= i < m ==> applied(m, scaled, w, i) == d(i) * #[trigger] applied(
                m,
                turned(entries(v, &penalty.vectors)),
                rhs,
                i,
            ),
        forall|i: int|
            0 <= i < m ==> #[trigger] out(i) == applied(
                m,
                entries(v, &penalty.vectors),
                |j: int| w(j) * d(j),
                i,
            ),
    ensures
        applied(m, g, out, b) + lambda * applied(m, p, out, b) == rhs(b),
{
    let u = entries(v, &penalty.vectors);
    let back = turned(u);
    let half = times(m, back, g);
    let rotated = times(m, half, u);
    let e = |j: int| w(j) * d(j);
    let share = |i: int| lambda * v(penalty.values@[i]) * d(i) * d(i);
    let left = image_of(m, g, out);
    let right = image_of(m, p, out);
    let k = |i: int| left(i) + lambda * right(i);
    let stretched = |j: int| v(penalty.values@[j]) * e(j);
    let start = image_of(m, u, e);
    assert forall|i: int| 0 <= i < m implies #[trigger] start(i) == out(i) by {
        assert(out(i) == applied(m, u, |j: int| w(j) * d(j), i));
        lemma_applied_ext(m, u, u, e, |j: int| w(j) * d(j), i);
    }
    let one = image_of(m, back, k);
    let two = image_of(m, back, rhs);
    assert forall|i: int| 0 <= i < m implies #[trigger] one(i) == two(i) by {
        lemma_applied_sum(m, back, left, right, lambda, k, i);
        // The data.
        lemma_applied_twice(m, back, g, out, i);
        lemma_applied_ext(m, half, half, start, out, i);
        lemma_applied_twice(m, half, u, e, i);
        assert(applied(m, back, left, i) == applied(m, rotated, e, i));
        // The penalty.
        let bent = image_of(m, u, stretched);
        assert forall|q: int| 0 <= q < m implies #[trigger] bent(q) == right(q) by {
            lemma_applied_ext(m, p, p, start, out, q);
            lemma_decomposed_applied(v, m, p, penalty, e, stretched, q);
        }
        lemma_applied_ext(m, back, back, bent, right, i);
        lemma_there_and_back(m, u, stretched, i);
        assert(applied(m, back, right, i) == stretched(i));
        // The scaled equation.
        lemma_scaled_applied(m, rotated, d, share, scaled, w, e, i);
        let x = d(i);
        let y = applied(m, rotated, e, i);
        let s = v(penalty.values@[i]);
        let t = w(i);
        assert(applied(m, scaled, w, i) == x * applied(m, back, rhs, i));
        let ls = lambda * s;
        let tx = t * x;
        assert(lambda * (s * tx) == (lambda * s) * tx) by (nonlinear_arith);
        assert((ls * x * x) * t == x * (ls * (t * x))) by (nonlinear_arith);
        let z = lambda * (s * (t * x));
        let r = applied(m, back, rhs, i);
        assert(x * (y + z) == x * y + x * z) by (nonlinear_arith);
        let a = y + z;
        lemma_cancel(x, a, r);
    }
    lemma_applied_ext(m, u, u, one, two, b);
    lemma_there_and_back(m, u, k, b);
    lemma_there_and_back(m, u, rhs, b);
}

/// The scale of a mode and the penalty's share in it.
pub proof fn lemma_mode_scale<S: Scalar>(
    v: spec_fn(S) -> real,
    penalty: &Eigen<S>,
    lambda: S,
    i: int,
)
    requires
        is_exact(v),
        v(lambda) >= 0 as real,
        v(penalty.values@[i]) >= 0 as real,
    ensures
        v(s_mode_scale(penalty, lambda, i)) > 0 as real,
        v(s_penalty_fraction(penalty, lambda, i)) == v(lambda) * v(penalty.values@[i]) * v(
            s_mode_scale(penalty, lambda, i),
        ) * v(s_mode_scale(penalty, lambda, i)),
{
    let s = v(penalty.values@[i]);
    assert(v(s_mode_penalty(penalty, i)) == s);
    let l = v(lambda);
    let x = l * s;
    lemma_product_not_negative(l, s);
    let inner = S::s_one().s_plus(lambda.s_times(s_mode_penalty(penalty, i)));
    let y = v(inner);
    assert(y == 1 as real + x);
    let root = v(inner.s_root());
    if root == 0 as real {
        assert((0 as real) * (0 as real) == 0 as real) by (nonlinear_arith);
    }
    let d = v(s_mode_scale(penalty, lambda, i));
    assert(d == 1 as real / root);
    lemma_over(1 as real, root);
    if d <= 0 as real {
        lemma_product_not_negative(-d, root);
        assert((-d) * root == -(d * root)) by (nonlinear_arith);
    }
    assert((d * d) * (root * root) == (d * root) * (d * root)) by (nonlinear_arith);
    let square = d * d;
    assert(square * y == 1 as real);
    let fraction = v(s_penalty_fraction(penalty, lambda, i));
    assert(x * d * d == x * (d * d)) by (nonlinear_arith);
    if s > 0 as real && l > 0 as real {
        assert(fraction == x / y);
        assert(y * (x * square) == x * (square * y)) by (nonlinear_arith);
        lemma_quotient(x, y, x * square);
    } else {
        assert((0 as real) * s == 0 as real) by (nonlinear_arith);
        assert(l * (0 as real) == 0 as real) by (nonlinear_arith);
        assert(x == 0 as real);
        assert((0 as real) * square == 0 as real) by (nonlinear_arith);
    }
}

pub proof fn lemma_no_floor<S: Scalar>(v: spec_fn(S) -> real, scale: S, m: nat)
    requires
        is_exact(v),
        v(S::s_epsilon()) == 0 as real,
    ensures
        v(s_noise_floor(scale, m)) == 0 as real,
{
    let x = v(scale);
    let y = v(S::s_count(crate::scalar::at_least_one(m)));
    assert((0 as real) * x == 0 as real) by (nonlinear_arith);
    assert((0 as real) * y == 0 as real) by (nonlinear_arith);
}

/// Without rounding, no eigenvalue that is accepted is negative.
pub proof fn lemma_accepted<S: Scalar>(v: spec_fn(S) -> real, values: Seq<S>, i: int)
    requires
        is_exact(v),
        v(S::s_epsilon()) == 0 as real,
        none_below(values, s_noise_floor(s_max_abs(values), values.len())),
        0 <= i < values.len(),
    ensures
        v(values[i]) >= 0 as real,
{
    lemma_no_floor(v, s_max_abs(values), values.len());
    assert(!values[i].s_below(s_noise_floor(s_max_abs(values), values.len()).s_negate()));
}

/// An exact transposed product.
proof fn lemma_exact_transposed<S: Scalar>(
    v: spec_fn(S) -> real,
    left: &Matrix<S>,
    right: &Matrix<S>,
    out: &Matrix<S>,
    i: int,
    j: int,
)
    requires
        is_exact(v),
        is_transposed_product(left, right, out),
        0 <= i < left.ncols(),
        0 <= j < right.ncols(),
    ensures
        v(out.at(i, j)) == applied(
            left.nrows() as int,
            turned(entries(v, left)),
            column(v, right, j),
            i,
        ),
{
    let n = left.nrows() as int;
    let f = |k: int| left.at(k, i).s_times(right.at(k, j));
    let g = |r: int| turned(entries(v, left))(i, r) * column(v, right, j)(r);
    assert(out.at(i, j) == s_transposed_product_at(left, right, i, j, n));
    lemma_exact_sum_of(v, S::s_zero(), n, f, g);
}

/// An exact product.
proof fn lemma_exact_matrix_product<S: Scalar>(
    v: spec_fn(S) -> real,
    left: &Matrix<S>,
    right: &Matrix<S>,
    out: &Matrix<S>,
    i: int,
    j: int,
)
    requires
        is_exact(v),
        is_matrix_product(left, right, out),
        0 <= i < left.nrows(),
        0 <= j < right.ncols(),
    ensures
        v(out.at(i, j)) == applied(
            left.ncols() as int,
            entries(v, left),
            column(v, right, j),
            i,
        ),
{
    let n = left.ncols() as int;
    let f = |k: int| left.at(i, k).s_times(right.at(k, j));
    let g = |r: int| entries(v, left)(i, r) * column(v, right, j)(r);
    lemma_exact_sum_of(v, S::s_zero(), n, f, g);
}

/// An exact rotation.
pub proof fn lemma_exact_rotated<S: Scalar>(
    v: spec_fn(S) -> real,
    basis: &Matrix<S>,
    gram: &Matrix<S>,
    rotated: &Matrix<S>,
    m: nat,
    i: int,
    j: int,
)
    requires
        is_exact(v),
        basis.has_shape(m, m),
        gram.has_shape(m, m),
        is_rotated(basis, gram, rotated),
        0 <= i < m,
        0 <= j < m,
    ensures
        v(rotated.at(i, j)) == times(
            m as int,
            times(m as int, turned(entries(v, basis)), entries(v, gram)),
            entries(v, basis),
        )(i, j),
{
    let n = m as int;
    let half_way = choose|half_way: Matrix<S>|
        {
            &&& #[trigger] is_transposed_product(basis, gram, &half_way)
            &&& is_matrix_product(&half_way, basis, rotated)
        };
    let half = times(n, turned(entries(v, basis)), entries(v, gram));
    lemma_exact_matrix_product(v, &half_way, basis, rotated, i, j);
    let f = |r: int| entries(v, &half_way)(i, r) * column(v, basis, j)(r);
    let g = |k: int| half(i, k) * entries(v, basis)(k, j);
    assert forall|r: int| 0 <= r < n implies #[trigger] f(r) == g(r) by {
        lemma_exact_transposed(v, basis, gram, &half_way, i, r);
        lemma_total_ext(
            n,
            |q: int| turned(entries(v, basis))(i, q) * column(v, gram, r)(q),
            |k: int| turned(entries(v, basis))(i, k) * entries(v, gram)(k, r),
        );
    }
    lemma_total_ext(n, f, g);
}

/// The minimum-norm solve solves its equation.
proof fn lemma_minimum_norm_solves<S: Scalar>(
    v: spec_fn(S) -> real,
    m: nat,
    matrix: &Matrix<S>,
    eigen: &Eigen<S>,
    rhs: &Matrix<S>,
    out: &Matrix<S>,
    b: int,
    c: int,
)
    requires
        is_exact(v),
        v(S::s_epsilon()) == 0 as real,
        eigen.has_size(m),
        rhs.nrows() == m,
        is_decomposed(v, m as int, entries(v, matrix), eigen),
        none_below(
            eigen.values@,
            s_noise_floor(s_max_abs(eigen.values@), eigen.values@.len()),
        ),
        is_minimum_norm_solution(eigen, rhs, out),
        0 <= b < m,
        0 <= c < rhs.ncols(),
    ensures
        applied(m as int, entries(v, matrix), column(v, out, c), b) == v(rhs.at(b, c)),
{
    let n = m as int;
    let (projected, scaled) = choose|projected: Matrix<S>, scaled: Matrix<S>|
        {
            &&& is_transposed_product(&eigen.vectors, rhs, &projected)
            &&& !reaches_null_space(eigen, rhs, &projected)
            &&& #[trigger] is_mode_quotient(eigen, &projected, &scaled)
            &&& is_matrix_product(&eigen.vectors, &scaled, out)
        };
    let u = entries(v, &eigen.vectors);
    let t = column(v, rhs, c);
    let quotient = column(v, &scaled, c);
    let w = column(v, out, c);
    let floor = s_noise_floor(s_matrix_max_abs(rhs), eigen.values@.len());
    lemma_no_floor(v, s_matrix_max_abs(rhs), eigen.values@.len());
    lemma_no_floor(v, s_max_abs(eigen.values@), eigen.values@.len());
    assert forall|j: int| 0 <= j < n implies v(eigen.values@[j]) * #[trigger] quotient(j)
        == applied(n, turned(u), t, j) by {
        lemma_exact_transposed(v, &eigen.vectors, rhs, &projected, j, c);
        lemma_accepted(v, eigen.values@, j);
        let mu = v(eigen.values@[j]);
        let x = v(projected.at(j, c));
        let q = v(scaled.at(j, c));
        if is_resolved(eigen, j) {
            assert(q == x / mu);
            lemma_over(x, mu);
        } else {
            assert(mu == 0 as real);
            assert(!row_exceeds(&projected, j, floor));
            assert(!floor.s_below(projected.at(j, c).s_magnitude()));
            assert(magnitude(x) <= 0 as real);
            assert((0 as real) * q == 0 as real) by (nonlinear_arith);
        }
    }
    assert forall|i: int| 0 <= i < n implies #[trigger] w(i) == applied(n, u, quotient, i) by {
        lemma_exact_matrix_product(v, &eigen.vectors, &scaled, out, i, c);
    }
    lemma_mode_quotient_solves(v, n, entries(v, matrix), eigen, t, quotient, w, b);
}

/// The penalised solve solves the assembled equation `(G + lambda S) B = rhs`, which it
/// never assembles: without rounding, and with exact eigendecompositions of the
/// penalty and of the scaled matrix.
pub proof fn law_the_penalized_solve_solves_the_assembled_equation<S: Scalar>(
    v: spec_fn(S) -> real,
    m: nat,
    equations: &NormalEquations<S>,
    matrix: &Matrix<S>,
    lambda: S,
    penalty: &Eigen<S>,
    system: &ScaledSystem<S>,
    eigen: &Eigen<S>,
    out: &Matrix<S>,
)
    requires
        is_exact(v),
        v(S::s_epsilon()) == 0 as real,
        v(lambda) >= 0 as real,
        equations.gram.has_shape(m, m),
        equations.rhs.nrows() == m,
        penalty.has_size(m),
        eigen.has_size(m),
        is_decomposed(v, m as int, entries(v, matrix), penalty),
        none_below(
            penalty.values@,
            s_noise_floor(s_max_abs(penalty.values@), penalty.values@.len()),
        ),
        is_scaled_system(&equations.gram, &equations.rhs, lambda, penalty, system),
        is_decomposed(v, m as int, entries(v, &system.matrix), eigen),
        none_below(
            eigen.values@,
            s_noise_floor(s_max_abs(eigen.values@), eigen.values@.len()),
        ),
        is_penalized_solution(system, lambda, penalty, eigen, out),
    ensures
        solves_equations(v, equations, matrix, lambda, out, m, equations.rhs.ncols()),
{
    let n = m as int;
    let gram = &equations.gram;
    let rhs = &equations.rhs;
    let (rotated, turned_rhs) = choose|rotated: Matrix<S>, turned_rhs: Matrix<S>|
        {
            &&& #[trigger] is_rotated(&penalty.vectors, gram, &rotated)
            &&& #[trigger] is_transposed_product(&penalty.vectors, rhs, &turned_rhs)
            &&& system.matrix.has_shape(gram.nrows(), gram.nrows())
            &&& forall|i: int, j: int|
                0 <= i < gram.nrows() && 0 <= j < gram.nrows() ==> #[trigger] system.matrix.at(
                    i,
                    j,
                ) == s_scaled_entry(&rotated, penalty, lambda, i, j)
            &&& system.rhs.has_shape(rhs.nrows(), rhs.ncols())
            &&& forall|i: int, c: int|
                0 <= i < rhs.nrows() && 0 <= c < rhs.ncols() ==> #[trigger] system.rhs.at(i, c)
                    == turned_rhs.at(i, c).s_times(s_mode_scale(penalty, lambda, i))
        };
    let (solution, unscaled) = choose|solution: Matrix<S>, unscaled: Matrix<S>|
        {
            &&& is_minimum_norm_solution(eigen, &system.rhs, &solution)
            &&& unscaled.has_shape(solution.nrows(), solution.ncols())
            &&& forall|i: int, c: int|
                0 <= i < unscaled.nrows() && 0 <= c < unscaled.ncols() ==> #[trigger] unscaled.at(
                    i,
                    c,
                ) == solution.at(i, c).s_times(s_mode_scale(penalty, lambda, i))
            &&& #[trigger] solution.has_shape(system.rhs.nrows(), system.rhs.ncols())
            &&& #[trigger] is_matrix_product(&penalty.vectors, &unscaled, out)
        };
    let l = v(lambda);
    let u = entries(v, &penalty.vectors);
    let g = entries(v, gram);
    let p = entries(v, matrix);
    let d = |i: int| v(s_mode_scale(penalty, lambda, i));
    let share = |i: int| l * v(penalty.values@[i]) * d(i) * d(i);
    let scaled = entries(v, &system.matrix);
    let turn = times(n, times(n, turned(u), g), u);
    assert forall|i: int| 0 <= i < n implies #[trigger] d(i) > 0 as real by {
        lemma_accepted(v, penalty.values@, i);
        lemma_mode_scale(v, penalty, lambda, i);
    }
    assert forall|i: int, j: int| 0 <= i < n && 0 <= j < n implies #[trigger] scaled(i, j) == turn(
        i,
        j,
    ) * d(i) * d(j) + (if i == j {
        share(i)
    } else {
        0 as real
    }) by {
        lemma_exact_rotated(v, &penalty.vectors, gram, &rotated, m, i, j);
        lemma_accepted(v, penalty.values@, i);
        lemma_mode_scale(v, penalty, lambda, i);
        assert(system.matrix.at(i, j) == s_scaled_entry(&rotated, penalty, lambda, i, j));
    }
    assert(is_scaled_matrix(n, turn, d, share, scaled));
    assert forall|b: int, c: int| 0 <= b < m && 0 <= c < rhs.ncols() implies total(
        n,
        |r: int| (v(gram.at(b, r)) + l * v(matrix.at(b, r))) * v(out.at(r, c)),
    ) == v(#[trigger] rhs.at(b, c)) by {
        let w = column(v, &solution, c);
        let start = column(v, rhs, c);
        let x = column(v, out, c);
        assert forall|i: int| 0 <= i < n implies applied(n, scaled, w, i) == d(i)
            * #[trigger] applied(n, turned(u), start, i) by {
            lemma_minimum_norm_solves(
                v,
                m,
                &system.matrix,
                eigen,
                &system.rhs,
                &solution,
                i,
                c,
            );
            assert(system.rhs.at(i, c) == turned_rhs.at(i, c).s_times(
                s_mode_scale(penalty, lambda, i),
            ));
            lemma_exact_transposed(v, &penalty.vectors, rhs, &turned_rhs, i, c);
            let y = v(turned_rhs.at(i, c));
            let z = d(i);
            assert(y * z == z * y) by (nonlinear_arith);
        }
        assert forall|i: int| 0 <= i < n implies #[trigger] x(i) == applied(
            n,
            u,
            |j: int| w(j) * d(j),
            i,
        ) by {
            lemma_exact_matrix_product(v, &penalty.vectors, &unscaled, out, i, c);
            let one = column(v, &unscaled, c);
            let two = |j: int| w(j) * d(j);
            assert forall|j: int| 0 <= j < n implies #[trigger] one(j) == two(j) by {
                assert(unscaled.at(j, c) == solution.at(j, c).s_times(
                    s_mode_scale(penalty, lambda, j),
                ));
            }
            lemma_applied_ext(n, u, u, one, two, i);
        }
        assert(share =~= |i: int| l * v(penalty.values@[i]) * d(i) * d(i));
        lemma_unwound(v, n, g, p, penalty, l, d, scaled, start, w, x, b);
        lemma_two_parts(n, g, p, l, x, b);
        lemma_total_ext(
            n,
            |r: int| (g(b, r) + l * p(b, r)) * x(r),
            |r: int| (v(gram.at(b, r)) + l * v(matrix.at(b, r))) * v(out.at(r, c)),
        );
    }
}

} // verus!
