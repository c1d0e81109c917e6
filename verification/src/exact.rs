//! Exact arithmetic.
//!
//! Some laws hold of real numbers and are broken by rounding: a product is
//! symmetric, a quadratic form is not negative, a minimiser lowers its objective.
//! They are stated of a number type whose values stand for real numbers, with
//! operations that give the exact result. Sums are taken to real sums, about which
//! this module has the usual facts.
use crate::scalar::{s_grid_sum, s_less, s_line_sum, s_sum, Scalar};
use vstd::prelude::*;

verus! {

/// `v` gives every number the real number it stands for, and every operation gives
/// the exact result.
pub open spec fn is_exact<S: Scalar>(v: spec_fn(S) -> real) -> bool {
    &&& v(S::s_zero()) == 0 as real
    &&& v(S::s_one()) == 1 as real
    &&& v(S::s_epsilon()) >= 0 as real
    &&& forall|n: nat| v(#[trigger] S::s_count(n)) == n as real
    &&& forall|x: S, y: S| v(#[trigger] x.s_plus(y)) == v(x) + v(y)
    &&& forall|x: S, y: S| v(#[trigger] x.s_minus(y)) == v(x) - v(y)
    &&& forall|x: S, y: S| v(#[trigger] x.s_times(y)) == v(x) * v(y)
    &&& forall|x: S, y: S| v(y) != 0 as real ==> v(#[trigger] x.s_over(y)) == v(x) / v(y)
    &&& forall|x: S| v(#[trigger] x.s_negate()) == -v(x)
    &&& forall|x: S| v(#[trigger] x.s_magnitude()) == magnitude(v(x))
    &&& forall|x: S| v(x) >= 0 as real ==> is_root(v(x), v(#[trigger] x.s_root()))
    &&& forall|x: S, y: S| v(#[trigger] x.s_larger(y)) == larger(v(x), v(y))
    &&& forall|x: S, y: S| v(#[trigger] x.s_smaller(y)) == -larger(-v(x), -v(y))
    &&& forall|x: S, y: S| #[trigger] x.s_below(y) == (v(x) < v(y))
    &&& forall|x: S, y: S| #[trigger] x.s_at_most(y) == (v(x) <= v(y))
    &&& forall|x: S, y: S| #[trigger] x.s_same(y) == (v(x) == v(y))
    &&& forall|x: S| #[trigger] x.s_finite()
}

pub open spec fn magnitude(x: real) -> real {
    if x < 0 as real {
        -x
    } else {
        x
    }
}

pub open spec fn larger(x: real, y: real) -> real {
    if x < y {
        y
    } else {
        x
    }
}

/// `r` is the square root of `x`.
pub open spec fn is_root(x: real, r: real) -> bool {
    r >= 0 as real && r * r == x
}

/// `f(0) + .. + f(n - 1)`.
pub open spec fn total(n: int, f: spec_fn(int) -> real) -> real
    decreases n,
{
    if n <= 0 {
        0 as real
    } else {
        total(n - 1, f) + f(n - 1)
    }
}

pub proof fn lemma_total_ext(n: int, f: spec_fn(int) -> real, g: spec_fn(int) -> real)
    requires
        forall|i: int| 0 <= i < n ==> #[trigger] f(i) == g(i),
    ensures
        total(n, f) == total(n, g),
    decreases n,
{
    if n > 0 {
        lemma_total_ext(n - 1, f, g);
        assert(f(n - 1) == g(n - 1));
    }
}

pub proof fn lemma_total_plus(n: int, f: spec_fn(int) -> real, g: spec_fn(int) -> real)
    ensures
        total(n, |i: int| f(i) + g(i)) == total(n, f) + total(n, g),
    decreases n,
{
    if n > 0 {
        lemma_total_plus(n - 1, f, g);
    }
}

pub proof fn lemma_total_scaled(n: int, c: real, f: spec_fn(int) -> real)
    ensures
        total(n, |i: int| c * f(i)) == c * total(n, f),
    decreases n,
{
    if n > 0 {
        lemma_total_scaled(n - 1, c, f);
        let rest = total(n - 1, f);
        let last = f(n - 1);
        assert(c * (rest + last) == c * rest + c * last) by (nonlinear_arith);
    } else {
        assert(c * (0 as real) == 0 as real) by (nonlinear_arith);
    }
}

pub proof fn lemma_total_zero(n: int, f: spec_fn(int) -> real)
    requires
        forall|i: int| 0 <= i < n ==> #[trigger] f(i) == 0 as real,
    ensures
        total(n, f) == 0 as real,
    decreases n,
{
    if n > 0 {
        lemma_total_zero(n - 1, f);
        assert(f(n - 1) == 0 as real);
    }
}

pub proof fn lemma_total_at_most(n: int, f: spec_fn(int) -> real, g: spec_fn(int) -> real)
    requires
        forall|i: int| 0 <= i < n ==> #[trigger] f(i) <= g(i),
    ensures
        total(n, f) <= total(n, g),
    decreases n,
{
    if n > 0 {
        lemma_total_at_most(n - 1, f, g);
        assert(f(n - 1) <= g(n - 1));
    }
}

pub proof fn lemma_total_not_negative(n: int, f: spec_fn(int) -> real)
    requires
        forall|i: int| 0 <= i < n ==> #[trigger] f(i) >= 0 as real,
    ensures
        total(n, f) >= 0 as real,
    decreases n,
{
    if n > 0 {
        lemma_total_not_negative(n - 1, f);
        assert(f(n - 1) >= 0 as real);
    }
}

/// The order of two sums may be exchanged.
pub proof fn lemma_total_exchange(n: int, m: int, f: spec_fn(int, int) -> real)
    ensures
        total(n, |i: int| total(m, |j: int| f(i, j))) == total(
            m,
            |j: int| total(n, |i: int| f(i, j)),
        ),
    decreases n,
{
    if n <= 0 {
        lemma_total_zero(m, |j: int| total(n, |i: int| f(i, j)));
    } else {
        lemma_total_exchange(n - 1, m, f);
        let inner = |j: int| total(n - 1, |i: int| f(i, j));
        let last = |j: int| f(n - 1, j);
        lemma_total_plus(m, inner, last);
        lemma_total_ext(
            m,
            |j: int| total(n, |i: int| f(i, j)),
            |j: int| inner(j) + last(j),
        );
        let rows = |i: int| total(m, |j: int| f(i, j));
        assert(rows(n - 1) == total(m, last)) by {
            assert(rows(n - 1) == total(m, |j: int| f(n - 1, j)));
        }
        assert(total(n, rows) == total(n - 1, rows) + rows(n - 1));
    }
}

/// A sum over a range is the sum over its two parts.
pub proof fn lemma_total_split(n: int, m: int, f: spec_fn(int) -> real)
    requires
        0 <= n,
        0 <= m,
    ensures
        total(n + m, f) == total(n, f) + total(m, |j: int| f(n + j)),
    decreases m,
{
    if m > 0 {
        lemma_total_split(n, m - 1, f);
    }
}

/// A sum over a grid, line by line.
pub proof fn lemma_total_grid(rows: int, cols: int, f: spec_fn(int) -> real)
    requires
        0 <= rows,
        0 <= cols,
    ensures
        total(rows * cols, f) == total(rows, |r: int| total(cols, |c: int| f(r * cols + c))),
    decreases rows,
{
    let lines = |r: int| total(cols, |c: int| f(r * cols + c));
    if rows > 0 {
        lemma_total_grid(rows - 1, cols, f);
        assert((rows - 1) * cols >= 0) by (nonlinear_arith)
            requires
                rows > 0,
                cols >= 0,
        ;
        assert(rows * cols == (rows - 1) * cols + cols) by (nonlinear_arith);
        lemma_total_split((rows - 1) * cols, cols, f);
        assert(lines(rows - 1) == total(cols, |c: int| f((rows - 1) * cols + c)));
    } else {
        assert(rows * cols == 0) by (nonlinear_arith)
            requires
                rows == 0,
        ;
    }
}

/// A sum whose terms vanish outside of a window is the sum over the window.
pub proof fn lemma_total_window(n: int, from: int, len: int, f: spec_fn(int) -> real)
    requires
        0 <= from,
        0 <= len,
        from + len <= n,
        forall|i: int| 0 <= i < n && !(from <= i < from + len) ==> #[trigger] f(i) == 0 as real,
    ensures
        total(n, f) == total(len, |j: int| f(from + j)),
{
    lemma_total_split(from + len, n - from - len, f);
    lemma_total_split(from, len, f);
    lemma_total_zero(from, f);
    lemma_total_zero(n - from - len, |j: int| f(from + len + j));
}

/// A sum of a difference.
pub proof fn lemma_total_minus(n: int, f: spec_fn(int) -> real, g: spec_fn(int) -> real)
    ensures
        total(n, |i: int| f(i) - g(i)) == total(n, f) - total(n, g),
    decreases n,
{
    if n > 0 {
        lemma_total_minus(n - 1, f, g);
    }
}

/// `z` is `s * x + t * y`.
pub open spec fn combines(s: real, t: real, x: real, y: real, z: real) -> bool {
    z == s * x + t * y
}

/// A sum of combinations is the combination of the sums.
pub proof fn lemma_total_combines(
    n: int,
    s: real,
    t: real,
    f: spec_fn(int) -> real,
    g: spec_fn(int) -> real,
    h: spec_fn(int) -> real,
)
    requires
        forall|i: int| 0 <= i < n ==> combines(s, t, f(i), g(i), #[trigger] h(i)),
    ensures
        combines(s, t, total(n, f), total(n, g), total(n, h)),
{
    lemma_total_scaled(n, s, f);
    lemma_total_scaled(n, t, g);
    let p = |i: int| s * f(i);
    let q = |i: int| t * g(i);
    lemma_total_plus(n, p, q);
    lemma_total_ext(n, h, |i: int| p(i) + q(i));
}

/// Scaling keeps a combination.
pub proof fn lemma_scaled_combines(c: real, s: real, t: real, x: real, y: real, z: real)
    requires
        combines(s, t, x, y, z),
    ensures
        combines(s, t, c * x, c * y, c * z),
{
    let a = s * x;
    let b = t * y;
    lemma_distributes(c, a, b);
    lemma_commutes(c, s, x);
    lemma_commutes(c, t, y);
}

proof fn lemma_distributes(c: real, a: real, b: real)
    ensures
        c * (a + b) == c * a + c * b,
{
    assert(c * (a + b) == c * a + c * b) by (nonlinear_arith);
}

proof fn lemma_commutes(c: real, s: real, x: real)
    ensures
        c * (s * x) == s * (c * x),
{
    assert(c * (s * x) == s * (c * x)) by (nonlinear_arith);
}

/// The sum of `f(i, j)` over a grid.
pub open spec fn total2(n: int, m: int, f: spec_fn(int, int) -> real) -> real {
    total(n, |i: int| total(m, |j: int| f(i, j)))
}

pub proof fn lemma_total2_ext(
    n: int,
    m: int,
    f: spec_fn(int, int) -> real,
    g: spec_fn(int, int) -> real,
)
    requires
        forall|i: int, j: int| 0 <= i < n && 0 <= j < m ==> #[trigger] f(i, j) == g(i, j),
    ensures
        total2(n, m, f) == total2(n, m, g),
{
    let p = |i: int| total(m, |j: int| f(i, j));
    let q = |i: int| total(m, |j: int| g(i, j));
    assert forall|i: int| 0 <= i < n implies #[trigger] p(i) == q(i) by {
        lemma_total_ext(m, |j: int| f(i, j), |j: int| g(i, j));
    }
    lemma_total_ext(n, p, q);
}

/// The grid's lines and columns may change places.
pub proof fn lemma_total2_exchange(
    n: int,
    m: int,
    f: spec_fn(int, int) -> real,
    g: spec_fn(int, int) -> real,
)
    requires
        forall|i: int, j: int| 0 <= i < n && 0 <= j < m ==> #[trigger] g(j, i) == f(i, j),
    ensures
        total2(n, m, f) == total2(m, n, g),
{
    lemma_total_exchange(n, m, f);
    let p = |j: int| total(n, |i: int| f(i, j));
    let q = |j: int| total(n, |i: int| g(j, i));
    assert forall|j: int| 0 <= j < m implies #[trigger] p(j) == q(j) by {
        let one = |i: int| f(i, j);
        let two = |i: int| g(j, i);
        assert forall|i: int| 0 <= i < n implies #[trigger] one(i) == two(i) by {
            assert(g(j, i) == f(i, j));
        }
        lemma_total_ext(n, one, two);
    }
    lemma_total_ext(m, p, q);
}

/// The sum over a grid is the sum of its lines' sums.
pub proof fn lemma_total2_lines(
    n: int,
    m: int,
    f: spec_fn(int, int) -> real,
    lines: spec_fn(int) -> real,
)
    requires
        forall|i: int| 0 <= i < n ==> #[trigger] lines(i) == total(m, |j: int| f(i, j)),
    ensures
        total2(n, m, f) == total(n, lines),
{
    lemma_total_ext(n, lines, |i: int| total(m, |j: int| f(i, j)));
}

/// An exact sum is the real sum.
pub proof fn lemma_exact_sum<S: Scalar>(
    v: spec_fn(S) -> real,
    start: S,
    n: int,
    f: spec_fn(int) -> S,
)
    requires
        is_exact(v),
    ensures
        v(s_sum(start, n, f)) == v(start) + total(n, |i: int| v(f(i))),
    decreases n,
{
    if n > 0 {
        lemma_exact_sum(v, start, n - 1, f);
    }
}

/// An exact difference from a start is the start less the real sum.
pub proof fn lemma_exact_less<S: Scalar>(
    v: spec_fn(S) -> real,
    start: S,
    n: int,
    f: spec_fn(int) -> S,
)
    requires
        is_exact(v),
    ensures
        v(s_less(start, n, f)) == v(start) - total(n, |i: int| v(f(i))),
    decreases n,
{
    if n > 0 {
        lemma_exact_less(v, start, n - 1, f);
    }
}

proof fn lemma_exact_line<S: Scalar>(
    v: spec_fn(S) -> real,
    start: S,
    r: int,
    n: int,
    f: spec_fn(int, int) -> S,
)
    requires
        is_exact(v),
    ensures
        v(s_line_sum(start, r, n, f)) == v(start) + total(n, |c: int| v(f(r, c))),
    decreases n,
{
    if n > 0 {
        lemma_exact_line(v, start, r, n - 1, f);
    }
}

/// An exact sum over a grid is the real double sum.
pub proof fn lemma_exact_grid<S: Scalar>(
    v: spec_fn(S) -> real,
    start: S,
    rows: int,
    cols: int,
    f: spec_fn(int, int) -> S,
)
    requires
        is_exact(v),
    ensures
        v(s_grid_sum(start, rows, cols, f)) == v(start) + total(
            rows,
            |r: int| total(cols, |c: int| v(f(r, c))),
        ),
    decreases rows,
{
    if rows > 0 {
        lemma_exact_grid(v, start, rows - 1, cols, f);
        lemma_exact_line(v, s_grid_sum(start, rows - 1, cols, f), rows - 1, cols, f);
        let lines = |r: int| total(cols, |c: int| v(f(r, c)));
        assert(lines(rows - 1) == total(cols, |c: int| v(f(rows - 1, c))));
    }
}

/// A quotient scales with its numerator.
pub proof fn lemma_over_scaled(k: real, x: real, d: real)
    requires
        d != 0 as real,
    ensures
        (k * x) / d == k * (x / d),
{
    lemma_over(x, d);
    lemma_over(k * x, d);
    let q = x / d;
    let p = (k * x) / d;
    assert(k * (q * d) == d * (k * q)) by (nonlinear_arith);
    assert(p * d == d * p) by (nonlinear_arith);
    lemma_cancel(d, p, k * q);
}

pub proof fn lemma_product_not_negative(a: real, b: real)
    requires
        a >= 0 as real,
        b >= 0 as real,
    ensures
        a * b >= 0 as real,
{
    assert(a * b >= 0 as real) by (nonlinear_arith)
        requires
            a >= 0 as real,
            b >= 0 as real,
    ;
}

pub proof fn lemma_product_positive(a: real, b: real)
    requires
        a > 0 as real,
        b > 0 as real,
    ensures
        a * b > 0 as real,
{
    assert(a * b > 0 as real) by (nonlinear_arith)
        requires
            a > 0 as real,
            b > 0 as real,
    ;
}

/// A larger factor gives a larger product.
pub proof fn lemma_product_grows(a: real, b: real, k: real)
    requires
        a <= b,
        k >= 0 as real,
    ensures
        a * k <= b * k,
{
    lemma_product_not_negative(b - a, k);
    assert((b - a) * k == b * k - a * k) by (nonlinear_arith);
}

pub proof fn lemma_zero_product(a: real, b: real)
    requires
        a * b == 0 as real,
    ensures
        a == 0 as real || b == 0 as real,
{
    if a > 0 as real {
        if b > 0 as real {
            lemma_product_positive(a, b);
        } else if b < 0 as real {
            lemma_product_positive(a, -b);
            assert(a * (-b) == -(a * b)) by (nonlinear_arith);
        }
    } else if a < 0 as real {
        if b > 0 as real {
            lemma_product_positive(-a, b);
            assert((-a) * b == -(a * b)) by (nonlinear_arith);
        } else if b < 0 as real {
            lemma_product_positive(-a, -b);
            assert((-a) * (-b) == a * b) by (nonlinear_arith);
        }
    }
}

pub proof fn lemma_cancel(x: real, a: real, b: real)
    requires
        x != 0 as real,
        x * a == x * b,
    ensures
        a == b,
{
    assert(x * (a - b) == x * a - x * b) by (nonlinear_arith);
    lemma_zero_product(x, a - b);
}

/// A quotient times its divisor.
pub proof fn lemma_over(x: real, d: real)
    requires
        d != 0 as real,
    ensures
        (x / d) * d == x,
        d * (x / d) == x,
{
    assert((x / d) * d == x) by (nonlinear_arith)
        requires
            d != 0 as real,
    ;
    let q = x / d;
    assert(d * q == q * d) by (nonlinear_arith);
}

/// A number that gives the dividend is the quotient.
pub proof fn lemma_quotient(x: real, d: real, q: real)
    requires
        d != 0 as real,
        d * q == x,
    ensures
        x / d == q,
{
    lemma_over(x, d);
    lemma_cancel(d, x / d, q);
}

/// An exact sum over a grid whose terms stand for `g`.
pub proof fn lemma_exact_grid_of<S: Scalar>(
    v: spec_fn(S) -> real,
    start: S,
    rows: int,
    cols: int,
    f: spec_fn(int, int) -> S,
    g: spec_fn(int, int) -> real,
)
    requires
        is_exact(v),
        forall|i: int, j: int| 0 <= i < rows && 0 <= j < cols ==> v(f(i, j)) == #[trigger] g(i, j),
    ensures
        v(s_grid_sum(start, rows, cols, f)) == v(start) + total2(rows, cols, g),
{
    lemma_exact_grid(v, start, rows, cols, f);
    let p = |r: int| total(cols, |c: int| v(f(r, c)));
    let q = |r: int| total(cols, |c: int| g(r, c));
    assert forall|r: int| 0 <= r < rows implies #[trigger] p(r) == q(r) by {
        let one = |c: int| v(f(r, c));
        let two = |c: int| g(r, c);
        assert forall|c: int| 0 <= c < cols implies #[trigger] one(c) == two(c) by {
            assert(v(f(r, c)) == g(r, c));
        }
        lemma_total_ext(cols, one, two);
    }
    lemma_total_ext(rows, p, q);
    lemma_total2_lines(rows, cols, g, q);
}

/// An exact sum whose terms stand for `g`.
pub proof fn lemma_exact_sum_of<S: Scalar>(
    v: spec_fn(S) -> real,
    start: S,
    n: int,
    f: spec_fn(int) -> S,
    g: spec_fn(int) -> real,
)
    requires
        is_exact(v),
        forall|i: int| 0 <= i < n ==> v(f(i)) == #[trigger] g(i),
    ensures
        v(s_sum(start, n, f)) == v(start) + total(n, g),
{
    lemma_exact_sum(v, start, n, f);
    let p = |i: int| v(f(i));
    assert forall|i: int| 0 <= i < n implies #[trigger] p(i) == g(i) by {
        assert(v(f(i)) == g(i));
    }
    lemma_total_ext(n, p, g);
}

/// An exact difference from a start, whose terms stand for `g`.
pub proof fn lemma_exact_less_of<S: Scalar>(
    v: spec_fn(S) -> real,
    start: S,
    n: int,
    f: spec_fn(int) -> S,
    g: spec_fn(int) -> real,
)
    requires
        is_exact(v),
        forall|i: int| 0 <= i < n ==> v(f(i)) == #[trigger] g(i),
    ensures
        v(s_less(start, n, f)) == v(start) - total(n, g),
{
    lemma_exact_less(v, start, n, f);
    let p = |i: int| v(f(i));
    assert forall|i: int| 0 <= i < n implies #[trigger] p(i) == g(i) by {
        assert(v(f(i)) == g(i));
    }
    lemma_total_ext(n, p, g);
}

pub proof fn lemma_total2_not_negative(n: int, m: int, f: spec_fn(int, int) -> real)
    requires
        forall|i: int, j: int| 0 <= i < n && 0 <= j < m ==> #[trigger] f(i, j) >= 0 as real,
    ensures
        total2(n, m, f) >= 0 as real,
{
    let lines = |i: int| total(m, |j: int| f(i, j));
    assert forall|i: int| 0 <= i < n implies #[trigger] lines(i) >= 0 as real by {
        lemma_total_not_negative(m, |j: int| f(i, j));
    }
    lemma_total_not_negative(n, lines);
}

pub proof fn lemma_total2_scaled(
    n: int,
    m: int,
    k: real,
    f: spec_fn(int, int) -> real,
    g: spec_fn(int, int) -> real,
)
    requires
        forall|i: int, j: int| 0 <= i < n && 0 <= j < m ==> #[trigger] g(i, j) == k * f(i, j),
    ensures
        total2(n, m, g) == k * total2(n, m, f),
{
    let p = |i: int| total(m, |j: int| f(i, j));
    let q = |i: int| total(m, |j: int| g(i, j));
    assert forall|i: int| 0 <= i < n implies #[trigger] q(i) == k * p(i) by {
        let one = |j: int| f(i, j);
        let two = |j: int| g(i, j);
        lemma_total_scaled(m, k, one);
        lemma_total_ext(m, two, |j: int| k * one(j));
    }
    lemma_total_scaled(n, k, p);
    lemma_total_ext(n, q, |i: int| k * p(i));
}

/// A square is not negative.
pub proof fn lemma_square(x: real)
    ensures
        x * x >= 0 as real,
{
    assert(x * x >= 0 as real) by (nonlinear_arith);
}

} // verus!
