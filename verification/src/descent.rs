//! Decoder updates against the objective, in exact arithmetic: a step that solves
//! its equations does not raise the objective.
use crate::active::{s_decoded, BasisEval};
use crate::exact::{
    lemma_product_not_negative,
    is_exact, lemma_exact_grid_of, lemma_exact_sum_of, lemma_square, lemma_total2_exchange,
    lemma_total2_ext, lemma_total2_lines, lemma_total_at_most, lemma_total_ext, lemma_total_minus,
    lemma_total_not_negative, lemma_total_plus, lemma_total_scaled, lemma_total_zero,
    total,
};
use crate::forms::{bilinear, is_semidefinite};
use crate::matrix::{s_matrix_energy, s_product_at, Matrix};
use crate::quadratic::{
    applied, lemma_all_uses_total, lemma_form_of_a_sum, lemma_form_of_applied, lemma_single_term,
    lemma_square_of_a_sum,
};
use crate::scalar::{s_half, Scalar};
use crate::scaling::{lemma_exact_energy, squares};
use crate::term::{uses_of, SaeSupportSparseTerm};
use vstd::prelude::*;

verus! {

/// Channel `c` of atom `a`'s decoder.
pub open spec fn coefficients<S: Scalar>(
    v: spec_fn(S) -> real,
    term: &SaeSupportSparseTerm<S>,
    a: int,
    c: int,
) -> spec_fn(int) -> real {
    |b: int| v(term.atom_seq()[a].coefficient(b, c))
}

/// How far channel `c` of atom `a`'s decoder moves from `before` to `after`.
pub open spec fn step<S: Scalar>(
    v: spec_fn(S) -> real,
    before: &SaeSupportSparseTerm<S>,
    after: &SaeSupportSparseTerm<S>,
    a: int,
    c: int,
) -> spec_fn(int) -> real {
    |b: int| coefficients(v, after, a, c)(b) - coefficients(v, before, a, c)(b)
}

/// Atom `a`'s penalty.
pub open spec fn penalty_of<S: Scalar>(
    v: spec_fn(S) -> real,
    term: &SaeSupportSparseTerm<S>,
    a: int,
) -> spec_fn(int, int) -> real {
    |b: int, r: int| v(term.atom_seq()[a].penalty().at(b, r))
}

/// Twice the objective in one channel, without the prior: the squared residuals,
/// and every atom's roughness with its strength.
pub open spec fn channel_value<S: Scalar>(
    v: spec_fn(S) -> real,
    term: &SaeSupportSparseTerm<S>,
    residual: &Matrix<S>,
    lambda: Seq<S>,
    c: int,
) -> real {
    total(term.rows() as int, |row: int| v(residual.at(row, c)) * v(residual.at(row, c))) + total(
        term.k() as int,
        |a: int|
            v(lambda[a]) * bilinear(
                term.atom_seq()[a].m() as int,
                penalty_of(v, term, a),
                coefficients(v, term, a, c),
                coefficients(v, term, a, c),
            ),
    )
}

/// The roughness of an atom, channel by channel.
pub proof fn lemma_exact_roughness<S: Scalar>(
    v: spec_fn(S) -> real,
    term: &SaeSupportSparseTerm<S>,
    a: int,
)
    requires
        is_exact(v),
    ensures
        v(term.atom_roughness(a)) == total(
            term.width() as int,
            |c: int|
                bilinear(
                    term.atom_seq()[a].m() as int,
                    penalty_of(v, term, a),
                    coefficients(v, term, a, c),
                    coefficients(v, term, a, c),
                ),
        ),
{
    let atom = term.atom_seq()[a];
    let m = atom.m() as int;
    let w = term.width() as int;
    let p = penalty_of(v, term, a);
    let f = |b: int, c: int|
        atom.coefficient(b, c).s_times(s_product_at(&atom.penalty(), &atom.decoder(), b, c, m));
    let g = |b: int, c: int|
        coefficients(v, term, a, c)(b) * applied(m, p, coefficients(v, term, a, c), b);
    assert forall|b: int, c: int| 0 <= b < m && 0 <= c < w implies v(f(b, c)) == #[trigger] g(
        b,
        c,
    ) by {
        let h = |k: int| atom.penalty().at(b, k).s_times(atom.decoder().at(k, c));
        let q = |r: int| p(b, r) * coefficients(v, term, a, c)(r);
        lemma_exact_sum_of(v, S::s_zero(), m, h, q);
    }
    lemma_exact_grid_of(v, S::s_zero(), m, w, f, g);
    let swapped = |c: int, b: int| g(b, c);
    lemma_total2_exchange(m, w, g, swapped);
    let forms = |c: int|
        bilinear(m, p, coefficients(v, term, a, c), coefficients(v, term, a, c));
    assert forall|c: int| 0 <= c < w implies #[trigger] forms(c) == total(
        m,
        |b: int| swapped(c, b),
    ) by {
        let y = coefficients(v, term, a, c);
        lemma_form_of_applied(m, p, y, y);
        lemma_total_ext(m, |b: int| y(b) * applied(m, p, y, b), |b: int| swapped(c, b));
    }
    lemma_total2_lines(w, m, swapped, forms);
}

/// The loss and the roughness, channel by channel.
pub proof fn lemma_objective_by_channel<S: Scalar>(
    v: spec_fn(S) -> real,
    term: &SaeSupportSparseTerm<S>,
    residual: &Matrix<S>,
    lambda: Seq<S>,
)
    requires
        is_exact(v),
        residual.has_shape(term.rows(), term.width()),
    ensures
        2 as real * v(term.smooth_part(residual, lambda, term.k() as int)) == total(
            term.width() as int,
            |c: int| channel_value(v, term, residual, lambda, c),
        ),
{
    let n = term.rows() as int;
    let w = term.width() as int;
    let k = term.k() as int;
    assert(v(s_half::<S>()) == 1 as real / 2 as real);
    let half = v(s_half::<S>());
    assert(half + half == 1 as real);
    // The residual.
    lemma_exact_energy(v, residual);
    let square = squares(v, residual);
    let turned = |c: int, row: int| square(row, c);
    lemma_total2_exchange(n, w, square, turned);
    let loss = |c: int|
        total(n, |row: int| v(residual.at(row, c)) * v(residual.at(row, c)));
    assert forall|c: int| 0 <= c < w implies #[trigger] loss(c) == total(
        n,
        |row: int| turned(c, row),
    ) by {
        lemma_total_ext(
            n,
            |row: int| v(residual.at(row, c)) * v(residual.at(row, c)),
            |row: int| turned(c, row),
        );
    }
    lemma_total2_lines(w, n, turned, loss);
    // The roughness.
    let f = |a: int| s_half::<S>().s_times(lambda[a]).s_times(term.atom_roughness(a));
    let g = |a: int| v(f(a));
    lemma_exact_sum_of(v, s_half::<S>().s_times(s_matrix_energy(residual)), k, f, g);
    let form = |a: int, c: int|
        bilinear(
            term.atom_seq()[a].m() as int,
            penalty_of(v, term, a),
            coefficients(v, term, a, c),
            coefficients(v, term, a, c),
        );
    let cell = |a: int, c: int| v(lambda[a]) * form(a, c);
    let twice = |a: int| 2 as real * g(a);
    assert forall|a: int| 0 <= a < k implies #[trigger] twice(a) == total(w, |c: int| cell(a, c)) by {
        lemma_exact_roughness(v, term, a);
        let forms = |c: int| form(a, c);
        lemma_total_ext(
            w,
            forms,
            |c: int|
                bilinear(
                    term.atom_seq()[a].m() as int,
                    penalty_of(v, term, a),
                    coefficients(v, term, a, c),
                    coefficients(v, term, a, c),
                ),
        );
        let x = v(lambda[a]);
        let y = total(w, forms);
        assert(v(term.atom_roughness(a)) == y);
        assert(2 as real * ((half * x) * y) == (2 as real * half) * (x * y)) by (nonlinear_arith);
        lemma_total_scaled(w, x, forms);
        lemma_total_ext(w, |c: int| x * forms(c), |c: int| cell(a, c));
    }
    lemma_total_scaled(k, 2 as real, g);
    lemma_total_ext(k, twice, |a: int| 2 as real * g(a));
    lemma_total2_lines(k, w, cell, twice);
    let swapped = |c: int, a: int| cell(a, c);
    lemma_total2_exchange(k, w, cell, swapped);
    let rough = |c: int|
        total(
            k,
            |a: int|
                v(lambda[a]) * bilinear(
                    term.atom_seq()[a].m() as int,
                    penalty_of(v, term, a),
                    coefficients(v, term, a, c),
                    coefficients(v, term, a, c),
                ),
        );
    assert forall|c: int| 0 <= c < w implies #[trigger] rough(c) == total(
        k,
        |a: int| swapped(c, a),
    ) by {
        lemma_total_ext(
            k,
            |a: int|
                v(lambda[a]) * bilinear(
                    term.atom_seq()[a].m() as int,
                    penalty_of(v, term, a),
                    coefficients(v, term, a, c),
                    coefficients(v, term, a, c),
                ),
            |a: int| swapped(c, a),
        );
    }
    lemma_total2_lines(w, k, swapped, rough);
    lemma_total_plus(w, loss, rough);
    lemma_total_ext(
        w,
        |c: int| channel_value(v, term, residual, lambda, c),
        |c: int| loss(c) + rough(c),
    );
    let energy = v(s_matrix_energy(residual));
    assert(2 as real * (half * energy) == (2 as real * half) * energy) by (nonlinear_arith);
}

/// The product of basis row `e` with a vector.
pub open spec fn along(m: int, phi: spec_fn(int, int) -> real, d: spec_fn(int) -> real, e: int) -> real {
    total(m, |l: int| phi(e, l) * d(l))
}

/// All of them.
pub open spec fn images(
    m: int,
    phi: spec_fn(int, int) -> real,
    d: spec_fn(int) -> real,
) -> spec_fn(int) -> real {
    |e: int| along(m, phi, d, e)
}

/// Column `l` of the basis rows against one number per row.
pub open spec fn against(
    n: int,
    phi: spec_fn(int, int) -> real,
    y: spec_fn(int) -> real,
    l: int,
) -> real {
    total(n, |e: int| phi(e, l) * y(e))
}

/// The basis rows and their transpose are adjoint.
pub proof fn lemma_transpose(
    m: int,
    n: int,
    phi: spec_fn(int, int) -> real,
    d: spec_fn(int) -> real,
    y: spec_fn(int) -> real,
)
    ensures
        total(m, |l: int| d(l) * against(n, phi, y, l)) == total(
            n,
            |e: int| y(e) * along(m, phi, d, e),
        ),
{
    let cell = |l: int, e: int| d(l) * (phi(e, l) * y(e));
    let lines = |l: int| d(l) * against(n, phi, y, l);
    assert forall|l: int| 0 <= l < m implies #[trigger] lines(l) == total(n, |e: int| cell(l, e)) by {
        let f = |e: int| phi(e, l) * y(e);
        lemma_total_scaled(n, d(l), f);
        lemma_total_ext(n, |e: int| d(l) * f(e), |e: int| cell(l, e));
    }
    lemma_total2_lines(m, n, cell, lines);
    let swapped = |e: int, l: int| cell(l, e);
    lemma_total2_exchange(m, n, cell, swapped);
    let columns = |e: int| y(e) * along(m, phi, d, e);
    assert forall|e: int| 0 <= e < n implies #[trigger] columns(e) == total(
        m,
        |l: int| swapped(e, l),
    ) by {
        let f = |l: int| phi(e, l) * d(l);
        let k = y(e);
        lemma_total_scaled(m, k, f);
        let one = |l: int| k * f(l);
        let two = |l: int| swapped(e, l);
        assert forall|l: int| 0 <= l < m implies #[trigger] one(l) == two(l) by {
            let a = phi(e, l);
            let b = d(l);
            assert(k * (a * b) == b * (a * k)) by (nonlinear_arith);
        }
        lemma_total_ext(m, one, two);
    }
    lemma_total2_lines(n, m, swapped, columns);
}

/// `d` solves `(s G + lambda P) d = phi' r - lambda P y`, `G` being the Gram matrix of
/// the basis rows.
pub open spec fn is_balanced(
    m: int,
    n: int,
    phi: spec_fn(int, int) -> real,
    p: spec_fn(int, int) -> real,
    s: real,
    lambda: real,
    r: spec_fn(int) -> real,
    y: spec_fn(int) -> real,
    d: spec_fn(int) -> real,
) -> bool {
    forall|l: int|
        0 <= l < m ==> s * against(n, phi, images(m, phi, d), l) + lambda * applied(m, p, d, l)
            == #[trigger] against(n, phi, r, l) - lambda * applied(m, p, y, l)
}

/// What a solved step does to the loss and the roughness.
proof fn lemma_balance(
    m: int,
    n: int,
    phi: spec_fn(int, int) -> real,
    p: spec_fn(int, int) -> real,
    s: real,
    lambda: real,
    r: spec_fn(int) -> real,
    y: spec_fn(int) -> real,
    d: spec_fn(int) -> real,
)
    requires
        is_balanced(m, n, phi, p, s, lambda, r, y, d),
    ensures
        s * total(n, |e: int| along(m, phi, d, e) * along(m, phi, d, e)) + lambda * bilinear(
            m,
            p,
            d,
            d,
        ) == total(n, |e: int| r(e) * along(m, phi, d, e)) - lambda * bilinear(m, p, d, y),
{
    let image = images(m, phi, d);
    lemma_transpose(m, n, phi, d, image);
    lemma_transpose(m, n, phi, d, r);
    lemma_form_of_applied(m, p, d, d);
    lemma_form_of_applied(m, p, d, y);
    let f1 = |l: int| d(l) * against(n, phi, image, l);
    let f2 = |l: int| d(l) * applied(m, p, d, l);
    let f3 = |l: int| d(l) * against(n, phi, r, l);
    let f4 = |l: int| d(l) * applied(m, p, y, l);
    let g1 = |l: int| s * f1(l);
    let g2 = |l: int| lambda * f2(l);
    let g4 = |l: int| lambda * f4(l);
    lemma_total_scaled(m, s, f1);
    lemma_total_scaled(m, lambda, f2);
    lemma_total_scaled(m, lambda, f4);
    let left = |l: int| g1(l) + g2(l);
    let right = |l: int| f3(l) - g4(l);
    assert forall|l: int| 0 <= l < m implies #[trigger] left(l) == right(l) by {
        let k = d(l);
        let a1 = against(n, phi, image, l);
        let a2 = applied(m, p, d, l);
        let a3 = against(n, phi, r, l);
        let a4 = applied(m, p, y, l);
        assert(s * a1 + lambda * a2 == a3 - lambda * a4);
        let e1 = s * a1;
        let e2 = lambda * a2;
        let e4 = lambda * a4;
        let whole = e1 + e2;
        assert(whole == a3 - e4);
        assert(k * (e1 + e2) == k * e1 + k * e2) by (nonlinear_arith);
        assert(k * (a3 - e4) == k * a3 - k * e4) by (nonlinear_arith);
        assert(k * (s * a1) == s * (k * a1)) by (nonlinear_arith);
        assert(k * (lambda * a2) == lambda * (k * a2)) by (nonlinear_arith);
        assert(k * (lambda * a4) == lambda * (k * a4)) by (nonlinear_arith);
    }
    lemma_total_plus(m, g1, g2);
    lemma_total_minus(m, f3, g4);
    lemma_total_ext(m, left, right);
    lemma_total_ext(
        n,
        |e: int| image(e) * along(m, phi, d, e),
        |e: int| along(m, phi, d, e) * along(m, phi, d, e),
    );
}

/// The basis rows of atom `a`'s uses.
pub open spec fn use_rows<S: Scalar>(
    v: spec_fn(S) -> real,
    term: &SaeSupportSparseTerm<S>,
    table: Seq<Vec<BasisEval<S>>>,
    a: int,
) -> spec_fn(int, int) -> real {
    |e: int, l: int| v(term.use_phi(table, a, e)[l])
}

/// Channel `c` of the residual at atom `a`'s uses.
pub open spec fn use_residual<S: Scalar>(
    v: spec_fn(S) -> real,
    term: &SaeSupportSparseTerm<S>,
    residual: &Matrix<S>,
    a: int,
    c: int,
) -> spec_fn(int) -> real {
    |e: int| v(residual.at(term.uses()[a][e].0 as int, c))
}

/// How far the image at `(row, slot)` moves.
pub open spec fn moved<S: Scalar>(
    v: spec_fn(S) -> real,
    before: &SaeSupportSparseTerm<S>,
    after: &SaeSupportSparseTerm<S>,
    table: Seq<Vec<BasisEval<S>>>,
    row: int,
    slot: int,
    c: int,
) -> real {
    let a = before.support(row)[slot] as int;
    total(
        before.atom_seq()[a].m() as int,
        |b: int| v(table[row]@[slot].phi@[b]) * step(v, before, after, a, c)(b),
    )
}

/// How far a row's fit moves.
pub open spec fn row_moved<S: Scalar>(
    v: spec_fn(S) -> real,
    before: &SaeSupportSparseTerm<S>,
    after: &SaeSupportSparseTerm<S>,
    table: Seq<Vec<BasisEval<S>>>,
    row: int,
    c: int,
) -> real {
    total(
        before.support(row).len() as int,
        |slot: int| moved(v, before, after, table, row, slot, c),
    )
}

/// The squared moves in a row.
pub open spec fn row_squares<S: Scalar>(
    v: spec_fn(S) -> real,
    before: &SaeSupportSparseTerm<S>,
    after: &SaeSupportSparseTerm<S>,
    table: Seq<Vec<BasisEval<S>>>,
    row: int,
    c: int,
) -> real {
    total(
        before.support(row).len() as int,
        |slot: int|
            moved(v, before, after, table, row, slot, c) * moved(
                v,
                before,
                after,
                table,
                row,
                slot,
                c,
            ),
    )
}

/// Channel `c` of an image.
pub proof fn lemma_exact_decoded<S: Scalar>(
    v: spec_fn(S) -> real,
    term: &SaeSupportSparseTerm<S>,
    a: int,
    phi: Seq<S>,
    c: int,
)
    requires
        is_exact(v),
    ensures
        v(s_decoded(term.atom_seq()[a], phi, c, term.atom_seq()[a].m() as int)) == total(
            term.atom_seq()[a].m() as int,
            |b: int| v(phi[b]) * coefficients(v, term, a, c)(b),
        ),
{
    let atom = term.atom_seq()[a];
    let f = |b: int| phi[b].s_times(atom.coefficient(b, c));
    let g = |b: int| v(phi[b]) * coefficients(v, term, a, c)(b);
    lemma_exact_sum_of(v, S::s_zero(), atom.m() as int, f, g);
}

/// The fit moves with the images.
pub proof fn lemma_fit_moves<S: Scalar>(
    v: spec_fn(S) -> real,
    before: &SaeSupportSparseTerm<S>,
    after: &SaeSupportSparseTerm<S>,
    table: Seq<Vec<BasisEval<S>>>,
    row: int,
    c: int,
)
    requires
        is_exact(v),
        before.wf(),
        after.same_but_decoders(before),
        0 <= row < before.rows(),
    ensures
        v(after.fitted(table, row, c)) == v(before.fitted(table, row, c)) + row_moved(
            v,
            before,
            after,
            table,
            row,
            c,
        ),
{
    let n = before.support(row).len() as int;
    let f = |slot: int| before.decoded(table, row, slot, c);
    let f2 = |slot: int| after.decoded(table, row, slot, c);
    let g = |slot: int| v(f(slot));
    let g2 = |slot: int| v(f2(slot));
    lemma_exact_sum_of(v, S::s_zero(), n, f, g);
    lemma_exact_sum_of(v, S::s_zero(), n, f2, g2);
    let d = |slot: int| moved(v, before, after, table, row, slot, c);
    assert forall|slot: int| 0 <= slot < n implies #[trigger] d(slot) == g2(slot) - g(slot) by {
        before.lemma_active(row, slot);
        let a = before.support(row)[slot] as int;
        let phi = table[row]@[slot].phi@;
        assert(after.atom_seq()[a].same_chart(&before.atom_seq()[a]));
        lemma_image_moves(v, before, after, a, phi, c);
        lemma_total_ext(
            before.atom_seq()[a].m() as int,
            |b: int| v(table[row]@[slot].phi@[b]) * step(v, before, after, a, c)(b),
            |b: int| v(phi[b]) * step(v, before, after, a, c)(b),
        );
    }
    lemma_total_minus(n, g2, g);
    lemma_total_ext(n, d, |slot: int| g2(slot) - g(slot));
}

/// An image moves with the decoder.
pub proof fn lemma_image_moves<S: Scalar>(
    v: spec_fn(S) -> real,
    before: &SaeSupportSparseTerm<S>,
    after: &SaeSupportSparseTerm<S>,
    a: int,
    phi: Seq<S>,
    c: int,
)
    requires
        is_exact(v),
        after.atom_seq()[a].m() == before.atom_seq()[a].m(),
    ensures
        v(s_decoded(after.atom_seq()[a], phi, c, after.atom_seq()[a].m() as int)) - v(
            s_decoded(before.atom_seq()[a], phi, c, before.atom_seq()[a].m() as int),
        ) == total(
            before.atom_seq()[a].m() as int,
            |b: int| v(phi[b]) * step(v, before, after, a, c)(b),
        ),
{
    let m = before.atom_seq()[a].m() as int;
    lemma_exact_decoded(v, before, a, phi, c);
    lemma_exact_decoded(v, after, a, phi, c);
    let old_terms = |b: int| v(phi[b]) * coefficients(v, before, a, c)(b);
    let new_terms = |b: int| v(phi[b]) * coefficients(v, after, a, c)(b);
    let diff = |b: int| v(phi[b]) * step(v, before, after, a, c)(b);
    lemma_total_minus(m, new_terms, old_terms);
    let gap = |b: int| new_terms(b) - old_terms(b);
    assert forall|b: int| 0 <= b < m implies #[trigger] diff(b) == gap(b) by {
        let x = v(phi[b]);
        let y = coefficients(v, before, a, c)(b);
        let z = coefficients(v, after, a, c)(b);
        assert(x * (z - y) == x * z - x * y) by (nonlinear_arith);
    }
    lemma_total_ext(m, diff, gap);
}

/// The residual moves against the fit.
proof fn lemma_residual_moves<S: Scalar>(
    v: spec_fn(S) -> real,
    before: &SaeSupportSparseTerm<S>,
    after: &SaeSupportSparseTerm<S>,
    target: &Matrix<S>,
    table: Seq<Vec<BasisEval<S>>>,
    residual: &Matrix<S>,
    moved_residual: &Matrix<S>,
    row: int,
    c: int,
)
    requires
        is_exact(v),
        before.wf(),
        after.same_but_decoders(before),
        before.is_residual(target, table, residual),
        after.is_residual(target, table, moved_residual),
        0 <= row < before.rows(),
        0 <= c < before.width(),
    ensures
        v(moved_residual.at(row, c)) == v(residual.at(row, c)) - row_moved(
            v,
            before,
            after,
            table,
            row,
            c,
        ),
{
    lemma_fit_moves(v, before, after, table, row, c);
    assert(residual.at(row, c) == target.at(row, c).s_minus(before.fitted(table, row, c)));
    assert(moved_residual.at(row, c) == target.at(row, c).s_minus(after.fitted(table, row, c)));
}

/// The step does not move channel `c` of atom `a`.
pub open spec fn stays<S: Scalar>(
    v: spec_fn(S) -> real,
    before: &SaeSupportSparseTerm<S>,
    after: &SaeSupportSparseTerm<S>,
    a: int,
    c: int,
) -> bool {
    forall|b: int|
        0 <= b < before.atom_seq()[a].m() ==> #[trigger] step(v, before, after, a, c)(b)
            == 0 as real
}

/// The step solves atom `a`'s equations in channel `c`, with the loss's curvature
/// taken `s` times.
pub open spec fn solves<S: Scalar>(
    v: spec_fn(S) -> real,
    before: &SaeSupportSparseTerm<S>,
    after: &SaeSupportSparseTerm<S>,
    table: Seq<Vec<BasisEval<S>>>,
    residual: &Matrix<S>,
    lambda: Seq<S>,
    s: real,
    a: int,
    c: int,
) -> bool {
    is_balanced(
        before.atom_seq()[a].m() as int,
        before.uses()[a].len() as int,
        use_rows(v, before, table, a),
        penalty_of(v, before, a),
        s,
        v(lambda[a]),
        use_residual(v, before, residual, a, c),
        coefficients(v, before, a, c),
        step(v, before, after, a, c),
    )
}

/// One atom's part in the change of a channel.
proof fn lemma_atom_balance<S: Scalar>(
    v: spec_fn(S) -> real,
    before: &SaeSupportSparseTerm<S>,
    after: &SaeSupportSparseTerm<S>,
    table: Seq<Vec<BasisEval<S>>>,
    residual: &Matrix<S>,
    lambda: Seq<S>,
    s: real,
    a: int,
    c: int,
)
    requires
        before.wf(),
        0 <= a < before.k(),
        stays(v, before, after, a, c) || solves(
            v,
            before,
            after,
            table,
            residual,
            lambda,
            s,
            a,
            c,
        ),
    ensures
        s * total(
            before.uses()[a].len() as int,
            |e: int|
                moved(
                    v,
                    before,
                    after,
                    table,
                    before.uses()[a][e].0 as int,
                    before.uses()[a][e].1 as int,
                    c,
                ) * moved(
                    v,
                    before,
                    after,
                    table,
                    before.uses()[a][e].0 as int,
                    before.uses()[a][e].1 as int,
                    c,
                ),
        ) + v(lambda[a]) * bilinear(
            before.atom_seq()[a].m() as int,
            penalty_of(v, before, a),
            step(v, before, after, a, c),
            step(v, before, after, a, c),
        ) == total(
            before.uses()[a].len() as int,
            |e: int|
                v(residual.at(before.uses()[a][e].0 as int, c)) * moved(
                    v,
                    before,
                    after,
                    table,
                    before.uses()[a][e].0 as int,
                    before.uses()[a][e].1 as int,
                    c,
                ),
        ) - v(lambda[a]) * bilinear(
            before.atom_seq()[a].m() as int,
            penalty_of(v, before, a),
            step(v, before, after, a, c),
            coefficients(v, before, a, c),
        ),
{
    let m = before.atom_seq()[a].m() as int;
    let n = before.uses()[a].len() as int;
    let phi = use_rows(v, before, table, a);
    let p = penalty_of(v, before, a);
    let r = use_residual(v, before, residual, a, c);
    let y = coefficients(v, before, a, c);
    let d = step(v, before, after, a, c);
    let x = v(lambda[a]);
    let at = |e: int|
        moved(
            v,
            before,
            after,
            table,
            before.uses()[a][e].0 as int,
            before.uses()[a][e].1 as int,
            c,
        );
    let sq = |e: int|
        moved(
            v,
            before,
            after,
            table,
            before.uses()[a][e].0 as int,
            before.uses()[a][e].1 as int,
            c,
        ) * moved(
            v,
            before,
            after,
            table,
            before.uses()[a][e].0 as int,
            before.uses()[a][e].1 as int,
            c,
        );
    let cross = |e: int|
        v(residual.at(before.uses()[a][e].0 as int, c)) * moved(
            v,
            before,
            after,
            table,
            before.uses()[a][e].0 as int,
            before.uses()[a][e].1 as int,
            c,
        );
    assert forall|e: int| 0 <= e < n implies #[trigger] at(e) == along(m, phi, d, e) by {
        before.lemma_use(a, e);
        let row = before.uses()[a][e].0 as int;
        let slot = before.uses()[a][e].1 as int;
        lemma_total_ext(
            m,
            |b: int| v(table[row]@[slot].phi@[b]) * step(v, before, after, a, c)(b),
            |l: int| phi(e, l) * d(l),
        );
    }
    if stays(v, before, after, a, c) {
        assert forall|e: int| 0 <= e < n implies #[trigger] at(e) == 0 as real by {
            let f = |l: int| phi(e, l) * d(l);
            assert forall|l: int| 0 <= l < m implies #[trigger] f(l) == 0 as real by {
                let k = phi(e, l);
                assert(d(l) == 0 as real);
                assert(k * (0 as real) == 0 as real) by (nonlinear_arith);
            }
            lemma_total_zero(m, f);
        }
        assert forall|e: int| 0 <= e < n implies #[trigger] sq(e) == 0 as real by {
            assert(at(e) == 0 as real);
        }
        assert forall|e: int| 0 <= e < n implies #[trigger] cross(e) == 0 as real by {
            assert(at(e) == 0 as real);
            let k = v(residual.at(before.uses()[a][e].0 as int, c));
            assert(k * (0 as real) == 0 as real) by (nonlinear_arith);
        }
        lemma_total_zero(n, sq);
        lemma_total_zero(n, cross);
        lemma_form_of_nothing(m, p, d, d);
        lemma_form_of_nothing(m, p, d, y);
        assert(s * (0 as real) == 0 as real) by (nonlinear_arith);
        assert(x * (0 as real) == 0 as real) by (nonlinear_arith);
    } else {
        lemma_balance(m, n, phi, p, s, x, r, y, d);
        let one = |e: int| along(m, phi, d, e) * along(m, phi, d, e);
        let two = |e: int| r(e) * along(m, phi, d, e);
        assert forall|e: int| 0 <= e < n implies #[trigger] one(e) == sq(e) by {
            assert(at(e) == along(m, phi, d, e));
        }
        assert forall|e: int| 0 <= e < n implies #[trigger] two(e) == cross(e) by {
            assert(at(e) == along(m, phi, d, e));
        }
        lemma_total_ext(n, one, sq);
        lemma_total_ext(n, two, cross);
    }
}

proof fn lemma_form_of_nothing(
    m: int,
    p: spec_fn(int, int) -> real,
    d: spec_fn(int) -> real,
    z: spec_fn(int) -> real,
)
    requires
        forall|b: int| 0 <= b < m ==> #[trigger] d(b) == 0 as real,
    ensures
        bilinear(m, p, d, z) == 0 as real,
{
    lemma_form_of_applied(m, p, d, z);
    let f = |b: int| d(b) * applied(m, p, z, b);
    assert forall|b: int| 0 <= b < m implies #[trigger] f(b) == 0 as real by {
        assert(d(b) == 0 as real);
        let k = applied(m, p, z, b);
        assert((0 as real) * k == 0 as real) by (nonlinear_arith);
    }
    lemma_total_zero(m, f);
}

/// The uses' squared moves and their products with the residual, row by row.
proof fn lemma_moves_by_row<S: Scalar>(
    v: spec_fn(S) -> real,
    before: &SaeSupportSparseTerm<S>,
    after: &SaeSupportSparseTerm<S>,
    table: Seq<Vec<BasisEval<S>>>,
    residual: &Matrix<S>,
    c: int,
    ax: spec_fn(int) -> real,
    ar: spec_fn(int) -> real,
)
    requires
        before.wf(),
        forall|a: int|
            0 <= a < before.k() ==> #[trigger] ax(a) == total(
                before.uses()[a].len() as int,
                |e: int|
                    moved(
                        v,
                        before,
                        after,
                        table,
                        before.uses()[a][e].0 as int,
                        before.uses()[a][e].1 as int,
                        c,
                    ) * moved(
                        v,
                        before,
                        after,
                        table,
                        before.uses()[a][e].0 as int,
                        before.uses()[a][e].1 as int,
                        c,
                    ),
            ),
        forall|a: int|
            0 <= a < before.k() ==> #[trigger] ar(a) == total(
                before.uses()[a].len() as int,
                |e: int|
                    v(residual.at(before.uses()[a][e].0 as int, c)) * moved(
                        v,
                        before,
                        after,
                        table,
                        before.uses()[a][e].0 as int,
                        before.uses()[a][e].1 as int,
                        c,
                    ),
            ),
    ensures
        total(before.k() as int, ax) == total(
            before.rows() as int,
            |row: int| row_squares(v, before, after, table, row, c),
        ),
        total(before.k() as int, ar) == total(
            before.rows() as int,
            |row: int| v(residual.at(row, c)) * row_moved(v, before, after, table, row, c),
        ),
{
    let supports = before.state().supports();
    let k = before.k() as int;
    let n = before.rows() as int;
    assert forall|r: int| 0 <= r < supports.len() implies (#[trigger] supports[r]).len()
        <= usize::MAX by {
        assert(1 <= before.support(r).len() <= before.state().mode_spec()->k);
    }
    assert forall|r: int, s: int| 0 <= r < supports.len() && 0 <= s < supports[r].len() implies (
    #[trigger] supports[r][s]) < k by {
        before.lemma_active(r, s);
    }
    let g = |row: int, slot: int|
        moved(v, before, after, table, row, slot, c) * moved(
            v,
            before,
            after,
            table,
            row,
            slot,
            c,
        );
    let h = |row: int, slot: int|
        v(residual.at(row, c)) * moved(v, before, after, table, row, slot, c);
    let sq = |row: int| row_squares(v, before, after, table, row, c);
    let cross = |row: int|
        v(residual.at(row, c)) * row_moved(v, before, after, table, row, c);
    assert forall|a: int|
        #![trigger ax(a)]
        #![trigger ar(a)]
        0 <= a < k implies {
        &&& ax(a) == total(
            uses_of(supports, n, a).len() as int,
            |e: int| g(uses_of(supports, n, a)[e].0 as int, uses_of(supports, n, a)[e].1 as int),
        )
        &&& ar(a) == total(
            uses_of(supports, n, a).len() as int,
            |e: int| h(uses_of(supports, n, a)[e].0 as int, uses_of(supports, n, a)[e].1 as int),
        )
    } by {
        let uses = before.uses()[a];
        assert(uses == uses_of(supports, n, a));
        let one = |e: int| g(uses[e].0 as int, uses[e].1 as int);
        let two = |e: int| h(uses[e].0 as int, uses[e].1 as int);
        lemma_total_ext(
            uses.len() as int,
            one,
            |e: int|
                moved(
                    v,
                    before,
                    after,
                    table,
                    before.uses()[a][e].0 as int,
                    before.uses()[a][e].1 as int,
                    c,
                ) * moved(
                    v,
                    before,
                    after,
                    table,
                    before.uses()[a][e].0 as int,
                    before.uses()[a][e].1 as int,
                    c,
                ),
        );
        lemma_total_ext(
            uses.len() as int,
            two,
            |e: int|
                v(residual.at(before.uses()[a][e].0 as int, c)) * moved(
                    v,
                    before,
                    after,
                    table,
                    before.uses()[a][e].0 as int,
                    before.uses()[a][e].1 as int,
                    c,
                ),
        );
        lemma_total_ext(
            uses.len() as int,
            one,
            |e: int| g(uses_of(supports, n, a)[e].0 as int, uses_of(supports, n, a)[e].1 as int),
        );
        lemma_total_ext(
            uses.len() as int,
            two,
            |e: int| h(uses_of(supports, n, a)[e].0 as int, uses_of(supports, n, a)[e].1 as int),
        );
    }
    assert forall|r: int|
        #![trigger sq(r)]
        #![trigger cross(r)]
        0 <= r < supports.len() implies {
        &&& sq(r) == total(supports[r].len() as int, |slot: int| g(r, slot))
        &&& cross(r) == total(supports[r].len() as int, |slot: int| h(r, slot))
    } by {
        let len = supports[r].len() as int;
        lemma_total_ext(
            len,
            |slot: int| g(r, slot),
            |slot: int|
                moved(v, before, after, table, r, slot, c) * moved(
                    v,
                    before,
                    after,
                    table,
                    r,
                    slot,
                    c,
                ),
        );
        let f = |slot: int| moved(v, before, after, table, r, slot, c);
        let z = v(residual.at(r, c));
        lemma_total_scaled(len, z, f);
        lemma_total_ext(len, |slot: int| z * f(slot), |slot: int| h(r, slot));
    }
    lemma_all_uses_total(supports, k, g, ax, sq);
    lemma_all_uses_total(supports, k, h, ar, cross);
}

/// The strength is not negative, and the penalty is symmetric and semidefinite.
pub open spec fn has_plain_penalty<S: Scalar>(
    v: spec_fn(S) -> real,
    term: &SaeSupportSparseTerm<S>,
    lambda: Seq<S>,
    a: int,
) -> bool {
    let m = term.atom_seq()[a].m() as int;
    &&& v(lambda[a]) >= 0 as real
    &&& forall|b: int, r: int|
        0 <= b < m && 0 <= r < m ==> #[trigger] penalty_of(v, term, a)(b, r) == penalty_of(
            v,
            term,
            a,
        )(r, b)
    &&& is_semidefinite(m, penalty_of(v, term, a))
}

/// The squared move of a row's fit is at most `s` times the squared moves of its parts.
pub open spec fn is_coupled_at_most<S: Scalar>(
    v: spec_fn(S) -> real,
    before: &SaeSupportSparseTerm<S>,
    after: &SaeSupportSparseTerm<S>,
    table: Seq<Vec<BasisEval<S>>>,
    s: real,
    row: int,
    c: int,
) -> bool {
    row_moved(v, before, after, table, row, c) * row_moved(v, before, after, table, row, c) <= s
        * row_squares(v, before, after, table, row, c)
}

/// An atom's roughness after its step.
proof fn lemma_roughness_moves<S: Scalar>(
    v: spec_fn(S) -> real,
    before: &SaeSupportSparseTerm<S>,
    after: &SaeSupportSparseTerm<S>,
    lambda: Seq<S>,
    a: int,
    c: int,
)
    requires
        before.wf(),
        after.same_but_decoders(before),
        0 <= a < before.k(),
        has_plain_penalty(v, before, lambda, a),
    ensures
        v(lambda[a]) * bilinear(
            after.atom_seq()[a].m() as int,
            penalty_of(v, after, a),
            coefficients(v, after, a, c),
            coefficients(v, after, a, c),
        ) == v(lambda[a]) * bilinear(
            before.atom_seq()[a].m() as int,
            penalty_of(v, before, a),
            coefficients(v, before, a, c),
            coefficients(v, before, a, c),
        ) + 2 as real * (v(lambda[a]) * bilinear(
            before.atom_seq()[a].m() as int,
            penalty_of(v, before, a),
            step(v, before, after, a, c),
            coefficients(v, before, a, c),
        )) + v(lambda[a]) * bilinear(
            before.atom_seq()[a].m() as int,
            penalty_of(v, before, a),
            step(v, before, after, a, c),
            step(v, before, after, a, c),
        ),
        v(lambda[a]) * bilinear(
            before.atom_seq()[a].m() as int,
            penalty_of(v, before, a),
            step(v, before, after, a, c),
            step(v, before, after, a, c),
        ) >= 0 as real,
{
    assert(before.atom_wf(a));
    assert(after.atom_seq()[a].same_chart(&before.atom_seq()[a]));
    let m = before.atom_seq()[a].m() as int;
    let p = penalty_of(v, before, a);
    let q = penalty_of(v, after, a);
    let y = coefficients(v, before, a, c);
    let z = coefficients(v, after, a, c);
    let d = step(v, before, after, a, c);
    let one = |b: int, r: int| z(b) * (q(b, r) * z(r));
    let two = |b: int, r: int| z(b) * (p(b, r) * z(r));
    assert forall|b: int, r: int| 0 <= b < m && 0 <= r < m implies #[trigger] one(b, r) == two(
        b,
        r,
    ) by {
        assert(after.atom_seq()[a].penalty().at(b, r) == before.atom_seq()[a].penalty().at(b, r));
    }
    lemma_total2_ext(m, m, one, two);
    lemma_form_of_a_sum(m, p, y, d, z);
    let x = v(lambda[a]);
    let f = bilinear(m, p, y, y);
    let g = bilinear(m, p, d, y);
    let h = bilinear(m, p, d, d);
    assert(x * (f + 2 as real * g + h) == x * f + 2 as real * (x * g) + x * h) by (nonlinear_arith);
    assert(h >= 0 as real);
    lemma_product_not_negative(x, h);
}

/// In every channel, a solved step does not raise the objective.
proof fn lemma_channel_descends<S: Scalar>(
    v: spec_fn(S) -> real,
    before: &SaeSupportSparseTerm<S>,
    after: &SaeSupportSparseTerm<S>,
    target: &Matrix<S>,
    table: Seq<Vec<BasisEval<S>>>,
    residual: &Matrix<S>,
    moved_residual: &Matrix<S>,
    lambda: Seq<S>,
    s: real,
    c: int,
)
    requires
        is_exact(v),
        before.wf(),
        after.same_but_decoders(before),
        before.is_residual(target, table, residual),
        after.is_residual(target, table, moved_residual),
        0 <= c < before.width(),
        forall|a: int| 0 <= a < before.k() ==> #[trigger] has_plain_penalty(v, before, lambda, a),
        forall|a: int|
            0 <= a < before.k() ==> #[trigger] stays(v, before, after, a, c) || solves(
                v,
                before,
                after,
                table,
                residual,
                lambda,
                s,
                a,
                c,
            ),
        forall|row: int|
            0 <= row < before.rows() ==> #[trigger] is_coupled_at_most(
                v,
                before,
                after,
                table,
                s,
                row,
                c,
            ),
    ensures
        channel_value(v, after, moved_residual, lambda, c) <= channel_value(
            v,
            before,
            residual,
            lambda,
            c,
        ),
{
    let n = before.rows() as int;
    let k = before.k() as int;
    // Atom by atom.
    let ax = |a: int|
        total(
            before.uses()[a].len() as int,
            |e: int|
                moved(
                    v,
                    before,
                    after,
                    table,
                    before.uses()[a][e].0 as int,
                    before.uses()[a][e].1 as int,
                    c,
                ) * moved(
                    v,
                    before,
                    after,
                    table,
                    before.uses()[a][e].0 as int,
                    before.uses()[a][e].1 as int,
                    c,
                ),
        );
    let ar = |a: int|
        total(
            before.uses()[a].len() as int,
            |e: int|
                v(residual.at(before.uses()[a][e].0 as int, c)) * moved(
                    v,
                    before,
                    after,
                    table,
                    before.uses()[a][e].0 as int,
                    before.uses()[a][e].1 as int,
                    c,
                ),
        );
    let ap = |a: int|
        v(lambda[a]) * bilinear(
            before.atom_seq()[a].m() as int,
            penalty_of(v, before, a),
            step(v, before, after, a, c),
            step(v, before, after, a, c),
        );
    let aq = |a: int|
        v(lambda[a]) * bilinear(
            before.atom_seq()[a].m() as int,
            penalty_of(v, before, a),
            step(v, before, after, a, c),
            coefficients(v, before, a, c),
        );
    let ay = |a: int|
        v(lambda[a]) * bilinear(
            before.atom_seq()[a].m() as int,
            penalty_of(v, before, a),
            coefficients(v, before, a, c),
            coefficients(v, before, a, c),
        );
    let az = |a: int|
        v(lambda[a]) * bilinear(
            after.atom_seq()[a].m() as int,
            penalty_of(v, after, a),
            coefficients(v, after, a, c),
            coefficients(v, after, a, c),
        );
    let sx = |a: int| s * ax(a);
    let left = |a: int| sx(a) + ap(a);
    let right = |a: int| ar(a) - aq(a);
    assert forall|a: int| 0 <= a < k implies #[trigger] left(a) == right(a) by {
        assert(stays(v, before, after, a, c) || solves(
            v,
            before,
            after,
            table,
            residual,
            lambda,
            s,
            a,
            c,
        ));
        lemma_atom_balance(v, before, after, table, residual, lambda, s, a, c);
    }
    lemma_total_scaled(k, s, ax);
    lemma_total_plus(k, sx, ap);
    lemma_total_minus(k, ar, aq);
    lemma_total_ext(k, left, right);
    let q2 = |a: int| 2 as real * aq(a);
    let some = |a: int| ay(a) + q2(a);
    let all = |a: int| some(a) + ap(a);
    assert forall|a: int|
        #![trigger az(a)]
        #![trigger ap(a)]
        0 <= a < k implies az(a) == all(a) && ap(a) >= 0 as real by {
        assert(has_plain_penalty(v, before, lambda, a));
        lemma_roughness_moves(v, before, after, lambda, a, c);
    }
    lemma_total_not_negative(k, ap);
    lemma_total_scaled(k, 2 as real, aq);
    lemma_total_plus(k, ay, q2);
    lemma_total_plus(k, some, ap);
    lemma_total_ext(k, az, all);
    // Row by row.
    lemma_moves_by_row(v, before, after, table, residual, c, ax, ar);
    let sq = |row: int| row_squares(v, before, after, table, row, c);
    let cross = |row: int|
        v(residual.at(row, c)) * row_moved(v, before, after, table, row, c);
    let old_loss = |row: int| v(residual.at(row, c)) * v(residual.at(row, c));
    let new_loss = |row: int| v(moved_residual.at(row, c)) * v(moved_residual.at(row, c));
    let whole = |row: int|
        row_moved(v, before, after, table, row, c) * row_moved(v, before, after, table, row, c);
    let cross2 = |row: int| 2 as real * cross(row);
    let part = |row: int| old_loss(row) - cross2(row);
    let sum = |row: int| part(row) + whole(row);
    assert forall|row: int| 0 <= row < n implies #[trigger] new_loss(row) == sum(row) by {
        lemma_residual_moves(
            v,
            before,
            after,
            target,
            table,
            residual,
            moved_residual,
            row,
            c,
        );
        let x = v(residual.at(row, c));
        let y = row_moved(v, before, after, table, row, c);
        assert((x - y) * (x - y) == x * x - 2 as real * (x * y) + y * y) by (nonlinear_arith);
    }
    lemma_total_scaled(n, 2 as real, cross);
    lemma_total_minus(n, old_loss, cross2);
    lemma_total_plus(n, part, whole);
    lemma_total_ext(n, new_loss, sum);
    let ssq = |row: int| s * sq(row);
    assert forall|row: int|
        #![trigger whole(row)]
        0 <= row < n implies whole(row) <= ssq(row) && whole(row) >= 0 as real by {
        assert(is_coupled_at_most(v, before, after, table, s, row, c));
        lemma_square(row_moved(v, before, after, table, row, c));
    }
    lemma_total_scaled(n, s, sq);
    lemma_total_at_most(n, whole, ssq);
    lemma_total_not_negative(n, whole);
    assert(channel_value(v, before, residual, lambda, c) == total(n, old_loss) + total(k, ay));
    assert(channel_value(v, after, moved_residual, lambda, c) == total(n, new_loss) + total(
        k,
        az,
    ));
}

/// A decoder step does not raise the loss and the roughness where every atom stays
/// or solves its equations, with the loss's curvature taken as often as a row couples
/// moving atoms.
pub proof fn law_a_solved_step_descends<S: Scalar>(
    v: spec_fn(S) -> real,
    before: &SaeSupportSparseTerm<S>,
    after: &SaeSupportSparseTerm<S>,
    target: &Matrix<S>,
    table: Seq<Vec<BasisEval<S>>>,
    residual: &Matrix<S>,
    moved_residual: &Matrix<S>,
    lambda: Seq<S>,
    s: real,
)
    requires
        is_exact(v),
        before.wf(),
        after.same_but_decoders(before),
        before.is_residual(target, table, residual),
        after.is_residual(target, table, moved_residual),
        forall|a: int| 0 <= a < before.k() ==> #[trigger] has_plain_penalty(v, before, lambda, a),
        forall|a: int, c: int|
            0 <= a < before.k() && 0 <= c < before.width() ==> #[trigger] stays(
                v,
                before,
                after,
                a,
                c,
            ) || solves(v, before, after, table, residual, lambda, s, a, c),
        forall|row: int, c: int|
            0 <= row < before.rows() && 0 <= c < before.width()
                ==> #[trigger] is_coupled_at_most(v, before, after, table, s, row, c),
    ensures
        v(after.smooth_part(moved_residual, lambda, after.k() as int)) <= v(
            before.smooth_part(residual, lambda, before.k() as int),
        ),
{
    let w = before.width() as int;
    let f = |c: int| channel_value(v, after, moved_residual, lambda, c);
    let g = |c: int| channel_value(v, before, residual, lambda, c);
    assert forall|c: int| 0 <= c < w implies #[trigger] f(c) <= g(c) by {
        lemma_channel_descends(
            v,
            before,
            after,
            target,
            table,
            residual,
            moved_residual,
            lambda,
            s,
            c,
        );
    }
    lemma_total_at_most(w, f, g);
    lemma_objective_by_channel(v, before, residual, lambda);
    lemma_objective_by_channel(v, after, moved_residual, lambda);
}

} // verus!
