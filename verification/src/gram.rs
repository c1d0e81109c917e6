//! Gram matrices of real lines, and the forms they give.
use crate::exact::{
    lemma_product_not_negative,
    lemma_square, lemma_total2_exchange, lemma_total2_ext, lemma_total2_lines, lemma_total_ext,
    lemma_total_not_negative, lemma_total_plus, lemma_total_scaled, lemma_total_window, total,
    total2,
};
use crate::forms::{bilinear, is_semidefinite};
use vstd::prelude::*;

verus! {

/// The products of the lines `l(i, ..)` of `w` entries with one another.
pub open spec fn gram(w: int, l: spec_fn(int, int) -> real) -> spec_fn(int, int) -> real {
    |i: int, j: int| total(w, |c: int| l(i, c) * l(j, c))
}

/// Entry `c` of the combination of the lines with weights `y`.
pub open spec fn image(
    q: int,
    l: spec_fn(int, int) -> real,
    y: spec_fn(int) -> real,
    c: int,
) -> real {
    total(q, |i: int| y(i) * l(i, c))
}

/// A matrix with `d` added on the diagonal.
pub open spec fn with_diagonal(
    p: spec_fn(int, int) -> real,
    d: spec_fn(int) -> real,
) -> spec_fn(int, int) -> real {
    |i: int, j: int|
        if i == j {
            p(i, j) + d(i)
        } else {
            p(i, j)
        }
}

/// Four factors, regrouped.
proof fn lemma_regroup(a: real, b: real, s: real, t: real)
    ensures
        (a * b) * (s * t) == (a * s) * (b * t),
{
    let u = s * t;
    let m = b * t;
    assert((a * b) * u == a * (b * u)) by (nonlinear_arith);
    assert(b * (s * t) == s * (b * t)) by (nonlinear_arith);
    assert(a * (s * m) == (a * s) * m) by (nonlinear_arith);
}

/// One line of a Gram form.
proof fn lemma_gram_line(
    q: int,
    w: int,
    l: spec_fn(int, int) -> real,
    y: spec_fn(int) -> real,
    z: spec_fn(int) -> real,
    i: int,
)
    ensures
        total(q, |j: int| y(i) * (gram(w, l)(i, j) * z(j))) == total(
            w,
            |c: int| (y(i) * l(i, c)) * image(q, l, z, c),
        ),
{
    let p = gram(w, l);
    let one = |j: int| y(i) * (p(i, j) * z(j));
    let cell = |j: int, c: int| (y(i) * l(i, c)) * (z(j) * l(j, c));
    assert forall|j: int| 0 <= j < q implies #[trigger] one(j) == total(w, |c: int| cell(j, c)) by {
        let inner = |c: int| l(i, c) * l(j, c);
        let k = y(i) * z(j);
        lemma_total_scaled(w, k, inner);
        let scaled = |c: int| k * inner(c);
        let here = |c: int| cell(j, c);
        assert forall|c: int| 0 <= c < w implies #[trigger] scaled(c) == here(c) by {
            let a = y(i);
            let b = z(j);
            let s = l(i, c);
            let t = l(j, c);
            lemma_regroup(a, b, s, t);
        }
        lemma_total_ext(w, scaled, here);
        let g = p(i, j);
        let a = y(i);
        let b = z(j);
        assert(a * (g * b) == (a * b) * g) by (nonlinear_arith);
    }
    lemma_total2_lines(q, w, cell, one);
    let swapped = |c: int, j: int| cell(j, c);
    lemma_total2_exchange(q, w, cell, swapped);
    let columns = |c: int| (y(i) * l(i, c)) * image(q, l, z, c);
    assert forall|c: int| 0 <= c < w implies #[trigger] columns(c) == total(
        q,
        |j: int| swapped(c, j),
    ) by {
        let k = y(i) * l(i, c);
        let f = |j: int| z(j) * l(j, c);
        lemma_total_scaled(q, k, f);
        lemma_total_ext(q, |j: int| k * f(j), |j: int| swapped(c, j));
    }
    lemma_total2_lines(w, q, swapped, columns);
}

/// A Gram form is the product of the two combinations.
pub proof fn lemma_gram_form(
    q: int,
    w: int,
    l: spec_fn(int, int) -> real,
    y: spec_fn(int) -> real,
    z: spec_fn(int) -> real,
)
    ensures
        bilinear(q, gram(w, l), y, z) == total(w, |c: int| image(q, l, y, c) * image(q, l, z, c)),
{
    let p = gram(w, l);
    let cells = |b: int, r: int| y(b) * (p(b, r) * z(r));
    let grid = |i: int, c: int| (y(i) * l(i, c)) * image(q, l, z, c);
    let lines = |i: int| total(w, |c: int| grid(i, c));
    let firsts = |i: int| total(q, |r: int| cells(i, r));
    assert forall|i: int| 0 <= i < q implies #[trigger] firsts(i) == lines(i) by {
        lemma_gram_line(q, w, l, y, z, i);
        lemma_total_ext(q, |r: int| cells(i, r), |j: int| y(i) * (gram(w, l)(i, j) * z(j)));
        lemma_total_ext(
            w,
            |c: int| grid(i, c),
            |c: int| (y(i) * l(i, c)) * image(q, l, z, c),
        );
    }
    lemma_total_ext(q, firsts, lines);
    lemma_total2_lines(q, q, cells, firsts);
    lemma_total2_lines(q, w, grid, lines);
    let swapped = |c: int, i: int| grid(i, c);
    lemma_total2_exchange(q, w, grid, swapped);
    let columns = |c: int| image(q, l, y, c) * image(q, l, z, c);
    assert forall|c: int| 0 <= c < w implies #[trigger] columns(c) == total(
        q,
        |i: int| swapped(c, i),
    ) by {
        let k = image(q, l, z, c);
        let f = |i: int| y(i) * l(i, c);
        lemma_total_scaled(q, k, f);
        let scaled = |i: int| k * f(i);
        let here = |i: int| swapped(c, i);
        assert forall|i: int| 0 <= i < q implies #[trigger] scaled(i) == here(i) by {
            let a = f(i);
            assert(k * a == a * k) by (nonlinear_arith);
        }
        lemma_total_ext(q, scaled, here);
        let s = total(q, f);
        assert(k * s == s * k) by (nonlinear_arith);
    }
    lemma_total2_lines(w, q, swapped, columns);
}

/// A diagonal adds its own weighted products.
pub proof fn lemma_diagonal_form(
    q: int,
    p: spec_fn(int, int) -> real,
    d: spec_fn(int) -> real,
    y: spec_fn(int) -> real,
    z: spec_fn(int) -> real,
)
    ensures
        bilinear(q, with_diagonal(p, d), y, z) == bilinear(q, p, y, z) + total(
            q,
            |i: int| y(i) * (d(i) * z(i)),
        ),
{
    let m = with_diagonal(p, d);
    let all = |b: int, r: int| y(b) * (m(b, r) * z(r));
    let part = |b: int, r: int| y(b) * (p(b, r) * z(r));
    let lines = |b: int| total(q, |r: int| all(b, r));
    let parts = |b: int| total(q, |r: int| part(b, r));
    let diag = |i: int| y(i) * (d(i) * z(i));
    assert forall|b: int| 0 <= b < q implies #[trigger] lines(b) == parts(b) + diag(b) by {
        let one = |r: int| all(b, r);
        let two = |r: int| part(b, r);
        let extra = |r: int|
            if r == b {
                diag(b)
            } else {
                0 as real
            };
        assert forall|r: int| 0 <= r < q implies #[trigger] one(r) == two(r) + extra(r) by {
            if r == b {
                let s = y(b);
                let g = p(b, b);
                let e = d(b);
                let t = z(b);
                assert(s * ((g + e) * t) == s * (g * t) + s * (e * t)) by (nonlinear_arith);
            }
        }
        lemma_total_plus(q, two, extra);
        lemma_total_ext(q, one, |r: int| two(r) + extra(r));
        lemma_total_window(q, b, 1, extra);
        let window = |j: int| extra(b + j);
        assert(total(1, window) == total(0, window) + window(0));
    }
    lemma_total_plus(q, parts, diag);
    lemma_total_ext(q, lines, |b: int| parts(b) + diag(b));
    lemma_total2_lines(q, q, all, lines);
    lemma_total2_lines(q, q, part, parts);
}

/// A Gram matrix with nothing negative added on the diagonal is semidefinite.
pub proof fn law_a_gram_matrix_is_semidefinite(
    q: int,
    w: int,
    l: spec_fn(int, int) -> real,
    d: spec_fn(int) -> real,
)
    requires
        forall|i: int| 0 <= i < q ==> #[trigger] d(i) >= 0 as real,
    ensures
        is_semidefinite(q, with_diagonal(gram(w, l), d)),
{
    let p = gram(w, l);
    assert forall|z: spec_fn(int) -> real| #[trigger] bilinear(q, with_diagonal(p, d), z, z)
        >= 0 as real by {
        lemma_diagonal_form(q, p, d, z, z);
        lemma_gram_form(q, w, l, z, z);
        let squares = |c: int| image(q, l, z, c) * image(q, l, z, c);
        assert forall|c: int| 0 <= c < w implies #[trigger] squares(c) >= 0 as real by {
            lemma_square(image(q, l, z, c));
        }
        lemma_total_not_negative(w, squares);
        let diag = |i: int| z(i) * (d(i) * z(i));
        assert forall|i: int| 0 <= i < q implies #[trigger] diag(i) >= 0 as real by {
            let e = d(i);
            let t = z(i);
            lemma_square(t);
            lemma_product_not_negative(e, t * t);
            assert(t * (e * t) == e * (t * t)) by (nonlinear_arith);
        }
        lemma_total_not_negative(q, diag);
    }
}

} // verus!
