//! The two decoder updates never raise the objective, in exact arithmetic.
use crate::active::BasisEval;
use crate::coloring::conflict;
use crate::descent::{
    against, along, coefficients, has_plain_penalty, images, is_coupled_at_most,
    law_a_solved_step_descends, lemma_exact_decoded, moved, penalty_of, row_moved, row_squares,
    solves, stays, step, use_residual, use_rows,
};
use crate::exact::{
    lemma_product_grows, lemma_product_positive, lemma_quotient,
    is_exact, lemma_exact_sum_of, lemma_square, lemma_total2_exchange, lemma_total2_lines,
    lemma_total_ext, lemma_total_not_negative, lemma_total_plus, lemma_total_scaled,
    lemma_total_zero, total,
};
use crate::matrix::{s_product_at, Matrix};
use crate::objective::{CodeLengths, PriorTerm};
use crate::quadratic::{applied, lemma_single_term, lemma_square_of_a_sum};
use crate::scalar::Scalar;
use crate::sweep::{
    s_extrapolated, s_extrapolation, s_next_momentum, s_stepped, FistaState, NormalEquations,
};
use crate::term::SaeSupportSparseTerm;
use vstd::prelude::*;

verus! {

/// `x` solves `(gram + lambda penalty) x = rhs`, channel by channel.
pub open spec fn solves_equations<S: Scalar>(
    v: spec_fn(S) -> real,
    equations: &NormalEquations<S>,
    penalty: &Matrix<S>,
    lambda: S,
    x: &Matrix<S>,
    m: nat,
    width: nat,
) -> bool {
    forall|l: int, c: int|
        0 <= l < m && 0 <= c < width ==> total(
            m as int,
            |r: int|
                (v(equations.gram.at(l, r)) + v(lambda) * v(penalty.at(l, r))) * v(x.at(r, c)),
        ) == v(#[trigger] equations.rhs.at(l, c))
}

/// `(g + lambda p) z`, in two parts.
pub proof fn lemma_two_parts(
    m: int,
    g: spec_fn(int, int) -> real,
    p: spec_fn(int, int) -> real,
    lambda: real,
    z: spec_fn(int) -> real,
    l: int,
)
    ensures
        total(m, |r: int| (g(l, r) + lambda * p(l, r)) * z(r)) == applied(m, g, z, l) + lambda
            * applied(m, p, z, l),
{
    let f = |r: int| g(l, r) * z(r);
    let h = |r: int| p(l, r) * z(r);
    let k = |r: int| lambda * h(r);
    let all = |r: int| (g(l, r) + lambda * p(l, r)) * z(r);
    lemma_total_scaled(m, lambda, h);
    lemma_total_plus(m, f, k);
    let both = |r: int| f(r) + k(r);
    assert forall|r: int| 0 <= r < m implies #[trigger] all(r) == both(r) by {
        let a = g(l, r);
        let b = p(l, r);
        let t = z(r);
        let e = lambda * b;
        assert((a + e) * t == a * t + e * t) by (nonlinear_arith);
        assert((lambda * b) * t == lambda * (b * t)) by (nonlinear_arith);
    }
    lemma_total_ext(m, all, both);
}

/// The Gram matrix of the basis rows, applied.
proof fn lemma_gram_applied(
    m: int,
    n: int,
    phi: spec_fn(int, int) -> real,
    g: spec_fn(int, int) -> real,
    s: real,
    z: spec_fn(int) -> real,
    l: int,
)
    requires
        forall|r: int|
            0 <= r < m ==> #[trigger] g(l, r) == s * total(n, |e: int| phi(e, l) * phi(e, r)),
    ensures
        applied(m, g, z, l) == s * against(n, phi, images(m, phi, z), l),
{
    let cell = |r: int, e: int| (phi(e, l) * phi(e, r)) * z(r);
    let lines = |r: int| total(n, |e: int| phi(e, l) * phi(e, r)) * z(r);
    assert forall|r: int| 0 <= r < m implies #[trigger] lines(r) == total(n, |e: int| cell(r, e)) by {
        let f = |e: int| phi(e, l) * phi(e, r);
        let t = z(r);
        lemma_total_scaled(n, t, f);
        let one = |e: int| t * f(e);
        let two = |e: int| cell(r, e);
        assert forall|e: int| 0 <= e < n implies #[trigger] one(e) == two(e) by {
            let x = f(e);
            assert(t * x == x * t) by (nonlinear_arith);
        }
        lemma_total_ext(n, one, two);
        let x = total(n, f);
        assert(t * x == x * t) by (nonlinear_arith);
    }
    lemma_total2_lines(m, n, cell, lines);
    let swapped = |e: int, r: int| cell(r, e);
    lemma_total2_exchange(m, n, cell, swapped);
    let image = images(m, phi, z);
    let columns = |e: int| phi(e, l) * image(e);
    assert forall|e: int| 0 <= e < n implies #[trigger] columns(e) == total(
        m,
        |r: int| swapped(e, r),
    ) by {
        let f = |r: int| phi(e, r) * z(r);
        let t = phi(e, l);
        lemma_total_scaled(m, t, f);
        let one = |r: int| t * f(r);
        let two = |r: int| swapped(e, r);
        assert forall|r: int| 0 <= r < m implies #[trigger] one(r) == two(r) by {
            let x = phi(e, r);
            let y = z(r);
            assert(t * (x * y) == (t * x) * y) by (nonlinear_arith);
        }
        lemma_total_ext(m, one, two);
    }
    lemma_total2_lines(n, m, swapped, columns);
    let direct = |r: int| g(l, r) * z(r);
    let scaled = |r: int| s * lines(r);
    assert forall|r: int| 0 <= r < m implies #[trigger] direct(r) == scaled(r) by {
        let x = total(n, |e: int| phi(e, l) * phi(e, r));
        let y = z(r);
        assert(g(l, r) == s * x);
        assert((s * x) * y == s * (x * y)) by (nonlinear_arith);
    }
    lemma_total_scaled(m, s, lines);
    lemma_total_ext(m, direct, scaled);
}

/// An exact Gram matrix is the real one.
proof fn lemma_exact_gram<S: Scalar>(
    v: spec_fn(S) -> real,
    term: &SaeSupportSparseTerm<S>,
    table: Seq<Vec<BasisEval<S>>>,
    a: int,
    l: int,
    r: int,
)
    requires
        is_exact(v),
    ensures
        v(term.gram_at(table, a, l, r, term.uses()[a].len() as int)) == total(
            term.uses()[a].len() as int,
            |e: int| use_rows(v, term, table, a)(e, l) * use_rows(v, term, table, a)(e, r),
        ),
{
    let n = term.uses()[a].len() as int;
    let f = |e: int| term.use_phi(table, a, e)[l].s_times(term.use_phi(table, a, e)[r]);
    let g = |e: int| use_rows(v, term, table, a)(e, l) * use_rows(v, term, table, a)(e, r);
    lemma_exact_sum_of(v, S::s_zero(), n, f, g);
}

/// An exact roughness product is the real one.
proof fn lemma_exact_penalized<S: Scalar>(
    v: spec_fn(S) -> real,
    term: &SaeSupportSparseTerm<S>,
    a: int,
    l: int,
    c: int,
)
    requires
        is_exact(v),
    ensures
        v(
            s_product_at(
                &term.atom_seq()[a].penalty(),
                &term.atom_seq()[a].decoder(),
                l,
                c,
                term.atom_seq()[a].m() as int,
            ),
        ) == applied(
            term.atom_seq()[a].m() as int,
            penalty_of(v, term, a),
            coefficients(v, term, a, c),
            l,
        ),
{
    let atom = term.atom_seq()[a];
    let m = atom.m() as int;
    let f = |k: int| atom.penalty().at(l, k).s_times(atom.decoder().at(k, c));
    let g = |r: int| penalty_of(v, term, a)(l, r) * coefficients(v, term, a, c)(r);
    lemma_exact_sum_of(v, S::s_zero(), m, f, g);
}

/// A step that solves the majorised equations.
proof fn lemma_majorized_solves<S: Scalar>(
    v: spec_fn(S) -> real,
    before: &SaeSupportSparseTerm<S>,
    after: &SaeSupportSparseTerm<S>,
    table: Seq<Vec<BasisEval<S>>>,
    residual: &Matrix<S>,
    lambda: Seq<S>,
    equations: &NormalEquations<S>,
    delta: &Matrix<S>,
    a: int,
    c: int,
)
    requires
        is_exact(v),
        before.wf(),
        0 <= a < before.k(),
        0 <= c < before.width(),
        before.are_majorized_equations(residual, lambda, table, a, equations),
        solves_equations(
            v,
            equations,
            &before.atom_seq()[a].penalty(),
            lambda[a],
            delta,
            before.atom_seq()[a].m() as nat,
            before.width(),
        ),
        forall|b: int|
            0 <= b < before.atom_seq()[a].m() ==> #[trigger] step(v, before, after, a, c)(b) == v(
                delta.at(b, c),
            ),
    ensures
        solves(
            v,
            before,
            after,
            table,
            residual,
            lambda,
            v(before.s_coupling()),
            a,
            c,
        ),
{
    let m = before.atom_seq()[a].m() as int;
    let n = before.uses()[a].len() as int;
    let phi = use_rows(v, before, table, a);
    let p = penalty_of(v, before, a);
    let x = v(lambda[a]);
    let s = v(before.s_coupling());
    let r = use_residual(v, before, residual, a, c);
    let y = coefficients(v, before, a, c);
    let d = step(v, before, after, a, c);
    let z = |b: int| v(delta.at(b, c));
    let g = |l: int, q: int| v(equations.gram.at(l, q));
    let penalty = before.atom_seq()[a].penalty();
    assert forall|l: int| 0 <= l < m implies s * against(n, phi, images(m, phi, d), l) + x
        * applied(m, p, d, l) == #[trigger] against(n, phi, r, l) - x * applied(m, p, y, l) by {
        assert forall|q: int| 0 <= q < m implies #[trigger] g(l, q) == s * total(
            n,
            |e: int| phi(e, l) * phi(e, q),
        ) by {
            lemma_exact_gram(v, before, table, a, l, q);
            let t = total(n, |e: int| phi(e, l) * phi(e, q));
            assert(equations.gram.at(l, q) == before.gram_at(table, a, l, q, n).s_times(
                before.s_coupling(),
            ));
            assert(t * s == s * t) by (nonlinear_arith);
        }
        lemma_gram_applied(m, n, phi, g, s, d, l);
        lemma_two_parts(m, g, p, x, d, l);
        let one = |q: int| (g(l, q) + x * p(l, q)) * d(q);
        let two = |q: int|
            (v(equations.gram.at(l, q)) + v(lambda[a]) * v(penalty.at(l, q))) * v(delta.at(q, c));
        assert forall|q: int| 0 <= q < m implies #[trigger] one(q) == two(q) by {
            assert(d(q) == v(delta.at(q, c)));
        }
        lemma_total_ext(m, one, two);
        assert(total(m, two) == v(equations.rhs.at(l, c)));
        assert(equations.rhs.at(l, c) == before.descent_at(residual, lambda, table, a, l, c));
        let f = |e: int|
            before.use_phi(table, a, e)[l].s_times(residual.at(before.uses()[a][e].0 as int, c));
        let h = |e: int| phi(e, l) * r(e);
        lemma_exact_sum_of(v, S::s_zero(), n, f, h);
        lemma_exact_penalized(v, before, a, l, c);
        let t = applied(m, p, y, l);
        assert(t * x == x * t) by (nonlinear_arith);
    }
}

/// `fitted` stands for the term's reconstruction.
pub open spec fn is_exact_fit<S: Scalar>(
    v: spec_fn(S) -> real,
    term: &SaeSupportSparseTerm<S>,
    table: Seq<Vec<BasisEval<S>>>,
    fitted: &Matrix<S>,
) -> bool {
    &&& fitted.has_shape(term.rows(), term.width())
    &&& forall|row: int, c: int|
        0 <= row < term.rows() && 0 <= c < term.width() ==> v(#[trigger] fitted.at(row, c)) == v(
            term.fitted(table, row, c),
        )
}

/// A decoder that solves the atom's own normal equations.
proof fn lemma_exact_solves<S: Scalar>(
    v: spec_fn(S) -> real,
    before: &SaeSupportSparseTerm<S>,
    after: &SaeSupportSparseTerm<S>,
    target: &Matrix<S>,
    fitted: &Matrix<S>,
    table: Seq<Vec<BasisEval<S>>>,
    residual: &Matrix<S>,
    lambda: Seq<S>,
    equations: &NormalEquations<S>,
    a: int,
    c: int,
)
    requires
        is_exact(v),
        before.wf(),
        0 <= a < before.k(),
        0 <= c < before.width(),
        is_exact_fit(v, before, table, fitted),
        before.is_residual(target, table, residual),
        before.are_equations(target, fitted, table, a, equations),
        solves_equations(
            v,
            equations,
            &before.atom_seq()[a].penalty(),
            lambda[a],
            &after.atom_seq()[a].decoder(),
            before.atom_seq()[a].m() as nat,
            before.width(),
        ),
    ensures
        solves(v, before, after, table, residual, lambda, 1 as real, a, c),
{
    let m = before.atom_seq()[a].m() as int;
    let n = before.uses()[a].len() as int;
    let phi = use_rows(v, before, table, a);
    let p = penalty_of(v, before, a);
    let x = v(lambda[a]);
    let r = use_residual(v, before, residual, a, c);
    let y = coefficients(v, before, a, c);
    let z = coefficients(v, after, a, c);
    let d = step(v, before, after, a, c);
    let g = |l: int, q: int| v(equations.gram.at(l, q));
    let penalty = before.atom_seq()[a].penalty();
    let decoder = after.atom_seq()[a].decoder();
    let one: real = 1 as real;
    assert forall|l: int| 0 <= l < m implies one * against(n, phi, images(m, phi, d), l) + x
        * applied(m, p, d, l) == #[trigger] against(n, phi, r, l) - x * applied(m, p, y, l) by {
        assert forall|q: int| 0 <= q < m implies #[trigger] g(l, q) == one * total(
            n,
            |e: int| phi(e, l) * phi(e, q),
        ) by {
            lemma_exact_gram(v, before, table, a, l, q);
            assert(equations.gram.at(l, q) == before.gram_at(table, a, l, q, n));
        }
        lemma_gram_applied(m, n, phi, g, one, z, l);
        lemma_two_parts(m, g, p, x, z, l);
        lemma_total_ext(
            m,
            |q: int| (g(l, q) + x * p(l, q)) * z(q),
            |q: int|
                (v(equations.gram.at(l, q)) + v(lambda[a]) * v(penalty.at(l, q))) * v(
                    decoder.at(q, c),
                ),
        );
        assert(v(equations.rhs.at(l, c)) == applied(m, g, z, l) + x * applied(m, p, z, l));
        assert(equations.rhs.at(l, c) == before.rhs_at(target, fitted, table, a, l, c, n));
        // The right-hand side: the residual and the atom's own image.
        let f = |e: int|
            before.use_phi(table, a, e)[l].s_times(
                before.unexplained(target, fitted, table, a, e, c),
            );
        let own = images(m, phi, y);
        let h1 = |e: int| phi(e, l) * r(e);
        let h2 = |e: int| phi(e, l) * own(e);
        let h = |e: int| h1(e) + h2(e);
        assert forall|e: int| 0 <= e < n implies v(f(e)) == #[trigger] h(e) by {
            before.lemma_use(a, e);
            let row = before.uses()[a][e].0 as int;
            let basis = before.use_phi(table, a, e);
            lemma_exact_decoded(v, before, a, basis, c);
            lemma_total_ext(
                m,
                |b: int| v(basis[b]) * coefficients(v, before, a, c)(b),
                |q: int| phi(e, q) * y(q),
            );
            assert(v(fitted.at(row, c)) == v(before.fitted(table, row, c)));
            assert(residual.at(row, c) == target.at(row, c).s_minus(before.fitted(table, row, c)));
            let t = phi(e, l);
            let i = r(e);
            let j = own(e);
            assert(t * (i + j) == t * i + t * j) by (nonlinear_arith);
        }
        lemma_exact_sum_of(v, S::s_zero(), n, f, h);
        lemma_total_plus(n, h1, h2);
        // The move is the new decoder less the old.
        lemma_applied_split(m, p, y, d, z, l);
        let to = images(m, phi, z);
        let gap = images(m, phi, d);
        assert forall|e: int| 0 <= e < n implies #[trigger] to(e) == own(e) + gap(e) by {
            lemma_along_split(m, phi, y, d, z, e);
        }
        let k1 = |e: int| phi(e, l) * to(e);
        let k2 = |e: int| phi(e, l) * gap(e);
        let k = |e: int| h2(e) + k2(e);
        lemma_total_plus(n, h2, k2);
        assert forall|e: int| 0 <= e < n implies #[trigger] k1(e) == k(e) by {
            assert(to(e) == own(e) + gap(e));
            let t = phi(e, l);
            let i = own(e);
            let j = gap(e);
            assert(t * (i + j) == t * i + t * j) by (nonlinear_arith);
        }
        lemma_total_ext(n, k1, k);
        let i = applied(m, p, y, l);
        let j = applied(m, p, d, l);
        assert(x * (i + j) == x * i + x * j) by (nonlinear_arith);
    }
}

proof fn lemma_applied_split(
    m: int,
    p: spec_fn(int, int) -> real,
    y: spec_fn(int) -> real,
    d: spec_fn(int) -> real,
    z: spec_fn(int) -> real,
    l: int,
)
    requires
        forall|r: int| 0 <= r < m ==> #[trigger] z(r) == y(r) + d(r),
    ensures
        applied(m, p, z, l) == applied(m, p, y, l) + applied(m, p, d, l),
{
    let fy = |r: int| p(l, r) * y(r);
    let fd = |r: int| p(l, r) * d(r);
    let fz = |r: int| p(l, r) * z(r);
    let both = |r: int| fy(r) + fd(r);
    assert forall|r: int| 0 <= r < m implies #[trigger] fz(r) == both(r) by {
        let t = p(l, r);
        let i = y(r);
        let j = d(r);
        assert(z(r) == i + j);
        assert(t * (i + j) == t * i + t * j) by (nonlinear_arith);
    }
    lemma_total_plus(m, fy, fd);
    lemma_total_ext(m, fz, both);
}

proof fn lemma_along_split(
    m: int,
    phi: spec_fn(int, int) -> real,
    y: spec_fn(int) -> real,
    d: spec_fn(int) -> real,
    z: spec_fn(int) -> real,
    e: int,
)
    requires
        forall|r: int| 0 <= r < m ==> #[trigger] z(r) == y(r) + d(r),
    ensures
        along(m, phi, z, e) == along(m, phi, y, e) + along(m, phi, d, e),
{
    lemma_applied_split(m, phi, y, d, z, e);
    lemma_total_ext(m, |r: int| phi(e, r) * z(r), |l: int| phi(e, l) * z(l));
    lemma_total_ext(m, |r: int| phi(e, r) * y(r), |l: int| phi(e, l) * y(l));
    lemma_total_ext(m, |r: int| phi(e, r) * d(r), |l: int| phi(e, l) * d(l));
}

/// The prior and the code lengths do not see the decoders.
proof fn lemma_same_rest<S: Scalar>(
    v: spec_fn(S) -> real,
    before: &SaeSupportSparseTerm<S>,
    after: &SaeSupportSparseTerm<S>,
    residual: &Matrix<S>,
    moved_residual: &Matrix<S>,
    lambda: Seq<S>,
    priors: Seq<Vec<Vec<PriorTerm<S>>>>,
    codes: CodeLengths<S>,
)
    requires
        is_exact(v),
        after.same_but_decoders(before),
        v(after.smooth_part(moved_residual, lambda, after.k() as int)) <= v(
            before.smooth_part(residual, lambda, before.k() as int),
        ),
    ensures
        v(after.s_objective(moved_residual, lambda, priors, codes)) <= v(
            before.s_objective(residual, lambda, priors, codes),
        ),
{
    let n = before.rows() as int;
    let f = |row: int| before.row_prior(priors, row);
    let g = |row: int| after.row_prior(priors, row);
    assert forall|row: int| 0 <= row < n implies #[trigger] f(row) == g(row) by {
        let w = |slot: int| before.state().slot_dim(row, slot) as int;
        let w2 = |slot: int| after.state().slot_dim(row, slot) as int;
        assert(w =~= w2);
    }
    crate::scalar::lemma_sum_ext(S::s_zero(), n, f, g);
    lemma_same_bits(before, after, codes, before.k() as int);
}

proof fn lemma_same_bits<S: Scalar>(
    before: &SaeSupportSparseTerm<S>,
    after: &SaeSupportSparseTerm<S>,
    codes: CodeLengths<S>,
    n: int,
)
    requires
        after.same_but_decoders(before),
        n <= before.k(),
    ensures
        after.used_bits(codes, n) == before.used_bits(codes, n),
    decreases n,
{
    if n > 0 {
        lemma_same_bits(before, after, codes, n - 1);
        assert(after.atom_seq()[n - 1].same_chart(&before.atom_seq()[n - 1]));
    }
}

/// A row couples no more atoms than its support holds.
proof fn lemma_coupled_by_support<S: Scalar>(
    v: spec_fn(S) -> real,
    before: &SaeSupportSparseTerm<S>,
    after: &SaeSupportSparseTerm<S>,
    table: Seq<Vec<BasisEval<S>>>,
    row: int,
    c: int,
)
    requires
        is_exact(v),
        before.wf(),
        0 <= row < before.rows(),
    ensures
        is_coupled_at_most(v, before, after, table, v(before.s_coupling()), row, c),
{
    let n = before.support(row).len() as int;
    let f = |slot: int| moved(v, before, after, table, row, slot, c);
    lemma_square_of_a_sum(n, f);
    let g = |slot: int| f(slot) * f(slot);
    let h = |slot: int|
        moved(v, before, after, table, row, slot, c) * moved(
            v,
            before,
            after,
            table,
            row,
            slot,
            c,
        );
    lemma_total_ext(n, g, h);
    assert forall|slot: int| 0 <= slot < n implies #[trigger] g(slot) >= 0 as real by {
        lemma_square(f(slot));
    }
    lemma_total_not_negative(n, g);
    assert(1 <= before.support(row).len() <= before.state().mode_spec()->k);
    let few = n as real;
    let s = v(before.s_coupling());
    let q = total(n, g);
    assert(few <= s);
    lemma_product_grows(few, s, q);
}

/// A row in which one slot moves at most is coupled once.
proof fn lemma_coupled_once<S: Scalar>(
    v: spec_fn(S) -> real,
    before: &SaeSupportSparseTerm<S>,
    after: &SaeSupportSparseTerm<S>,
    table: Seq<Vec<BasisEval<S>>>,
    row: int,
    c: int,
    at: int,
)
    requires
        before.wf(),
        0 <= row < before.rows(),
        0 <= at < before.support(row).len(),
        forall|slot: int|
            0 <= slot < before.support(row).len() && slot != at ==> #[trigger] stays(
                v,
                before,
                after,
                before.support(row)[slot] as int,
                c,
            ),
    ensures
        is_coupled_at_most(v, before, after, table, 1 as real, row, c),
{
    let n = before.support(row).len() as int;
    let f = |slot: int| moved(v, before, after, table, row, slot, c);
    let h = |slot: int|
        moved(v, before, after, table, row, slot, c) * moved(
            v,
            before,
            after,
            table,
            row,
            slot,
            c,
        );
    assert forall|slot: int| 0 <= slot < n && slot != at implies #[trigger] f(slot) == 0 as real by {
        let a = before.support(row)[slot] as int;
        assert(stays(v, before, after, a, c));
        let m = before.atom_seq()[a].m() as int;
        let g = |b: int| v(table[row]@[slot].phi@[b]) * step(v, before, after, a, c)(b);
        assert forall|b: int| 0 <= b < m implies #[trigger] g(b) == 0 as real by {
            let k = v(table[row]@[slot].phi@[b]);
            assert(step(v, before, after, a, c)(b) == 0 as real);
            assert(k * (0 as real) == 0 as real) by (nonlinear_arith);
        }
        lemma_total_zero(m, g);
    }
    assert forall|slot: int| 0 <= slot < n && slot != at implies #[trigger] h(slot) == 0 as real by {
        assert(f(slot) == 0 as real);
    }
    lemma_single_term(n, at, f);
    lemma_single_term(n, at, h);
}

/// At rest, the momentum adds nothing.
proof fn lemma_rest_adds_nothing<S: Scalar>(v: spec_fn(S) -> real, momentum: S)
    requires
        is_exact(v),
        v(momentum) == 1 as real,
    ensures
        v(s_extrapolation(momentum)) == 0 as real,
{
    let inner = S::s_one().s_plus(S::s_count(4).s_times(momentum).s_times(momentum));
    assert(v(inner) == 1 as real + 4 as real * v(momentum) * v(momentum));
    assert(v(inner) >= 0 as real);
    let root = v(inner.s_root());
    assert(root >= 0 as real);
    let half = v(crate::scalar::s_half::<S>());
    assert(half == 1 as real / 2 as real);
    let next = v(s_next_momentum(momentum));
    assert(next == half * (1 as real + root));
    lemma_product_positive(half, 1 as real + root);
    assert(next * (0 as real) == 0 as real) by (nonlinear_arith);
    lemma_quotient(0 as real, next, 0 as real);
}

/// The steps of an accelerated pass: they solve the majorised equations.
pub open spec fn are_majorized_steps<S: Scalar>(
    v: spec_fn(S) -> real,
    before: &SaeSupportSparseTerm<S>,
    table: Seq<Vec<BasisEval<S>>>,
    residual: &Matrix<S>,
    lambda: Seq<S>,
    equations: Seq<NormalEquations<S>>,
    deltas: Seq<Matrix<S>>,
) -> bool {
    forall|a: int|
        0 <= a < before.k() ==> {
            &&& before.are_majorized_equations(residual, lambda, table, a, &#[trigger] equations[a])
            &&& solves_equations(
                v,
                &equations[a],
                &before.atom_seq()[a].penalty(),
                lambda[a],
                &deltas[a],
                before.atom_seq()[a].m() as nat,
                before.width(),
            )
        }
}

/// A step against the majoriser never raises the objective, with every atom updated at
/// once: the coupling counts as many atoms as a support may hold. `after` holds the
/// iterates that the steps lead to, before any extrapolation.
pub proof fn law_a_majorized_step_never_raises_the_objective<S: Scalar>(
    v: spec_fn(S) -> real,
    before: &SaeSupportSparseTerm<S>,
    after: &SaeSupportSparseTerm<S>,
    target: &Matrix<S>,
    table: Seq<Vec<BasisEval<S>>>,
    residual: &Matrix<S>,
    moved_residual: &Matrix<S>,
    lambda: Seq<S>,
    priors: Seq<Vec<Vec<PriorTerm<S>>>>,
    codes: CodeLengths<S>,
    equations: Seq<NormalEquations<S>>,
    deltas: Seq<Matrix<S>>,
)
    requires
        is_exact(v),
        before.wf(),
        after.same_but_decoders(before),
        before.is_residual(target, table, residual),
        after.is_residual(target, table, moved_residual),
        forall|a: int| 0 <= a < before.k() ==> #[trigger] has_plain_penalty(v, before, lambda, a),
        are_majorized_steps(v, before, table, residual, lambda, equations, deltas),
        forall|a: int, b: int, c: int|
            0 <= a < before.k() && 0 <= b < before.atom_seq()[a].m() && 0 <= c < before.width()
                ==> v(#[trigger] after.atom_seq()[a].decoder().at(b, c)) == v(
                s_stepped(&before.atom_seq()[a].decoder(), &deltas[a], b, c),
            ),
    ensures
        v(after.s_objective(moved_residual, lambda, priors, codes)) <= v(
            before.s_objective(residual, lambda, priors, codes),
        ),
{
    let s = v(before.s_coupling());
    assert forall|a: int, c: int| 0 <= a < before.k() && 0 <= c < before.width() implies
        #[trigger] stays(v, before, after, a, c) || solves(
        v,
        before,
        after,
        table,
        residual,
        lambda,
        s,
        a,
        c,
    ) by {
        let d = step(v, before, after, a, c);
        assert forall|b: int| 0 <= b < before.atom_seq()[a].m() implies #[trigger] d(b) == v(
            deltas[a].at(b, c),
        ) by {
            assert(v(after.atom_seq()[a].decoder().at(b, c)) == v(
                s_stepped(&before.atom_seq()[a].decoder(), &deltas[a], b, c),
            ));
        }
        assert(before.are_majorized_equations(residual, lambda, table, a, &equations[a]));
        lemma_majorized_solves(
            v,
            before,
            after,
            table,
            residual,
            lambda,
            &equations[a],
            &deltas[a],
            a,
            c,
        );
    }
    assert forall|row: int, c: int| 0 <= row < before.rows() && 0 <= c < before.width() implies
        #[trigger] is_coupled_at_most(v, before, after, table, s, row, c) by {
        lemma_coupled_by_support(v, before, after, table, row, c);
    }
    law_a_solved_step_descends(
        v,
        before,
        after,
        target,
        table,
        residual,
        moved_residual,
        lambda,
        s,
    );
    lemma_same_rest(v, before, after, residual, moved_residual, lambda, priors, codes);
}

/// An accelerated pass from rest never raises the objective: nothing is extrapolated
/// yet, and the pass installs the iterates that its steps lead to.
pub proof fn law_an_accelerated_pass_from_rest_never_raises_the_objective<S: Scalar>(
    v: spec_fn(S) -> real,
    before: &SaeSupportSparseTerm<S>,
    after: &SaeSupportSparseTerm<S>,
    state: &FistaState<S>,
    target: &Matrix<S>,
    table: Seq<Vec<BasisEval<S>>>,
    residual: &Matrix<S>,
    moved_residual: &Matrix<S>,
    lambda: Seq<S>,
    priors: Seq<Vec<Vec<PriorTerm<S>>>>,
    codes: CodeLengths<S>,
    equations: Seq<NormalEquations<S>>,
    deltas: Seq<Matrix<S>>,
)
    requires
        is_exact(v),
        before.wf(),
        after.same_but_decoders(before),
        before.is_residual(target, table, residual),
        after.is_residual(target, table, moved_residual),
        forall|a: int| 0 <= a < before.k() ==> #[trigger] has_plain_penalty(v, before, lambda, a),
        are_majorized_steps(v, before, table, residual, lambda, equations, deltas),
        v(state.momentum) == 1 as real,
        forall|a: int, b: int, c: int|
            0 <= a < before.k() && 0 <= b < before.atom_seq()[a].m() && 0 <= c < before.width()
                ==> #[trigger] after.atom_seq()[a].decoder().at(b, c) == s_extrapolated(
                &before.atom_seq()[a].decoder(),
                &deltas[a],
                &state.previous@[a],
                s_extrapolation(state.momentum),
                b,
                c,
            ),
    ensures
        v(after.s_objective(moved_residual, lambda, priors, codes)) <= v(
            before.s_objective(residual, lambda, priors, codes),
        ),
{
    lemma_rest_adds_nothing(v, state.momentum);
    assert forall|a: int, b: int, c: int|
        0 <= a < before.k() && 0 <= b < before.atom_seq()[a].m() && 0 <= c
            < before.width() implies v(#[trigger] after.atom_seq()[a].decoder().at(b, c)) == v(
        s_stepped(&before.atom_seq()[a].decoder(), &deltas[a], b, c),
    ) by {
        let stepped = s_stepped(&before.atom_seq()[a].decoder(), &deltas[a], b, c);
        let far = v(stepped.s_minus(state.previous@[a].at(b, c)));
        assert(far * (0 as real) == 0 as real) by (nonlinear_arith);
    }
    law_a_majorized_step_never_raises_the_objective(
        v,
        before,
        after,
        target,
        table,
        residual,
        moved_residual,
        lambda,
        priors,
        codes,
        equations,
        deltas,
    );
}

/// No row names an atom twice.
pub open spec fn names_once(supports: Seq<Seq<u32>>) -> bool {
    forall|r: int, s: int, t: int|
        0 <= r < supports.len() && 0 <= s < t < supports[r].len() ==> #[trigger] supports[r][s]
            != #[trigger] supports[r][t]
}

/// One class of an exact sweep: no row holds two of its atoms, each gets the decoder
/// that solves its own equations against the same exact fit, and the others stay.
pub open spec fn is_exact_class_update<S: Scalar>(
    v: spec_fn(S) -> real,
    before: &SaeSupportSparseTerm<S>,
    after: &SaeSupportSparseTerm<S>,
    target: &Matrix<S>,
    fitted: &Matrix<S>,
    table: Seq<Vec<BasisEval<S>>>,
    lambda: Seq<S>,
    class: Seq<usize>,
    equations: Seq<NormalEquations<S>>,
) -> bool {
    &&& after.same_but_decoders(before)
    &&& is_exact_fit(v, before, table, fitted)
    &&& forall|i: int, j: int|
        0 <= i < j < class.len() ==> !conflict(
            before.state().supports(),
            (#[trigger] class[i]) as int,
            (#[trigger] class[j]) as int,
        )
    &&& forall|i: int|
        0 <= i < class.len() ==> {
            let a = (#[trigger] class[i]) as int;
            &&& a < before.k()
            &&& before.are_equations(target, fitted, table, a, &equations[i])
            &&& solves_equations(
                v,
                &equations[i],
                &before.atom_seq()[a].penalty(),
                lambda[a],
                &after.atom_seq()[a].decoder(),
                before.atom_seq()[a].m() as nat,
                before.width(),
            )
        }
    &&& forall|a: int|
        0 <= a < before.k() && !class.contains(a as usize) ==> #[trigger] after.atom_seq()[a]
            == before.atom_seq()[a]
}

/// The slot holds an atom of the class.
spec fn is_moving(support: Seq<u32>, class: Seq<usize>, slot: int) -> bool {
    0 <= slot < support.len() && class.contains(support[slot] as usize)
}

/// Solving one class exactly never raises the objective.
pub proof fn law_an_exact_class_update_never_raises_the_objective<S: Scalar>(
    v: spec_fn(S) -> real,
    before: &SaeSupportSparseTerm<S>,
    after: &SaeSupportSparseTerm<S>,
    target: &Matrix<S>,
    fitted: &Matrix<S>,
    table: Seq<Vec<BasisEval<S>>>,
    residual: &Matrix<S>,
    moved_residual: &Matrix<S>,
    lambda: Seq<S>,
    priors: Seq<Vec<Vec<PriorTerm<S>>>>,
    codes: CodeLengths<S>,
    class: Seq<usize>,
    equations: Seq<NormalEquations<S>>,
)
    requires
        is_exact(v),
        before.wf(),
        names_once(before.state().supports()),
        before.is_residual(target, table, residual),
        after.is_residual(target, table, moved_residual),
        forall|a: int| 0 <= a < before.k() ==> #[trigger] has_plain_penalty(v, before, lambda, a),
        is_exact_class_update(
            v,
            before,
            after,
            target,
            fitted,
            table,
            lambda,
            class,
            equations,
        ),
    ensures
        v(after.s_objective(moved_residual, lambda, priors, codes)) <= v(
            before.s_objective(residual, lambda, priors, codes),
        ),
{
    let s: real = 1 as real;
    let supports = before.state().supports();
    assert forall|a: int, c: int|
        0 <= a < before.k() && !class.contains(a as usize) implies #[trigger] stays(
        v,
        before,
        after,
        a,
        c,
    ) by {
        assert(after.atom_seq()[a] == before.atom_seq()[a]);
    }
    assert forall|a: int, c: int| 0 <= a < before.k() && 0 <= c < before.width() implies
        #[trigger] stays(v, before, after, a, c) || solves(
        v,
        before,
        after,
        table,
        residual,
        lambda,
        s,
        a,
        c,
    ) by {
        if class.contains(a as usize) {
            let i = choose|i: int| 0 <= i < class.len() && class[i] == a as usize;
            assert(class[i] == a);
            lemma_exact_solves(
                v,
                before,
                after,
                target,
                fitted,
                table,
                residual,
                lambda,
                &equations[i],
                a,
                c,
            );
        }
    }
    assert forall|row: int, c: int| 0 <= row < before.rows() && 0 <= c < before.width() implies
        #[trigger] is_coupled_at_most(v, before, after, table, s, row, c) by {
        assert(1 <= before.support(row).len());
        let support = before.support(row);
        let at: int = if exists|slot: int| is_moving(support, class, slot) {
            choose|slot: int| is_moving(support, class, slot)
        } else {
            0
        };
        assert forall|slot: int| 0 <= slot < before.support(row).len() && slot != at implies
            #[trigger] stays(v, before, after, before.support(row)[slot] as int, c) by {
            let a = before.support(row)[slot] as int;
            before.lemma_active(row, slot);
            if class.contains(a as usize) {
                assert(is_moving(support, class, slot));
                assert(is_moving(support, class, at));
                let b = before.support(row)[at] as int;
                let i = choose|i: int| 0 <= i < class.len() && class[i] == a as usize;
                let j = choose|j: int| 0 <= j < class.len() && class[j] == b as usize;
                assert(supports[row][slot] == a && supports[row][at] == b);
                assert(conflict(supports, a, b));
                assert(conflict(supports, b, a));
                if slot < at {
                    assert(supports[row][slot] != supports[row][at]);
                } else {
                    assert(supports[row][at] != supports[row][slot]);
                }
                if i < j {
                    assert(!conflict(supports, class[i] as int, class[j] as int));
                } else {
                    assert(!conflict(supports, class[j] as int, class[i] as int));
                }
                assert(false);
            }
        }
        lemma_coupled_once(v, before, after, table, row, c, at);
    }
    law_a_solved_step_descends(
        v,
        before,
        after,
        target,
        table,
        residual,
        moved_residual,
        lambda,
        s,
    );
    lemma_same_rest(v, before, after, residual, moved_residual, lambda, priors, codes);
}

} // verus!
