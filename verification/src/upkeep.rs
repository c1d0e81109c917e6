//! The fit that a sweep maintains, in exact arithmetic: exact at entry, it is exact at
//! exit, and the objective has not risen.
use crate::active::{s_decoded, BasisEval};
use crate::coloring::conflict;
use crate::descent::{
    has_plain_penalty, lemma_fit_moves, lemma_image_moves, moved, penalty_of,
    step,
};
use crate::exact::{
    is_exact, lemma_exact_sum_of, lemma_total2_exchange, lemma_total2_ext, lemma_total2_lines,
    lemma_total_ext, lemma_total_zero, total,
};
use crate::forms::bilinear;
use crate::matrix::Matrix;
use crate::objective::{CodeLengths, PriorTerm};
use crate::quadratic::{lemma_single_term, lemma_uses_total, only};
use crate::scalar::Scalar;
use crate::steps::{
    is_exact_class_update, is_exact_fit, law_an_exact_class_update_never_raises_the_objective,
    names_once, solves_equations,
};
use crate::sweep::{
    is_refit_chain, names_atoms, refitted, s_row_times, NormalEquations,
};
use crate::term::{uses_of, SaeSupportSparseTerm};
use vstd::prelude::*;

verus! {

/// What atom `a` adds to a row's fit.
pub open spec fn added<S: Scalar>(
    v: spec_fn(S) -> real,
    before: &SaeSupportSparseTerm<S>,
    after: &SaeSupportSparseTerm<S>,
    table: Seq<Vec<BasisEval<S>>>,
    a: int,
    row: int,
    c: int,
) -> real {
    total(before.support(row).len() as int, added_at(v, before, after, table, a, row, c))
}

/// The move of a slot that names atom `a`, and zero elsewhere.
pub open spec fn added_at<S: Scalar>(
    v: spec_fn(S) -> real,
    before: &SaeSupportSparseTerm<S>,
    after: &SaeSupportSparseTerm<S>,
    table: Seq<Vec<BasisEval<S>>>,
    a: int,
    row: int,
    c: int,
) -> spec_fn(int) -> real {
    |slot: int|
        if before.support(row)[slot] == a {
            moved(v, before, after, table, row, slot, c)
        } else {
            0 as real
        }
}

/// Adding images to rows, exactly.
proof fn lemma_exact_refitted<S: Scalar>(
    v: spec_fn(S) -> real,
    start: S,
    uses: Seq<(usize, usize)>,
    images: Seq<Vec<S>>,
    row: int,
    c: int,
    n: int,
    f: spec_fn(int) -> real,
)
    requires
        is_exact(v),
        forall|e: int|
            0 <= e < n ==> #[trigger] f(e) == (if uses[e].0 == row {
                v(images[e]@[c])
            } else {
                0 as real
            }),
    ensures
        v(refitted(start, uses, images, row, c, n)) == v(start) + total(n, f),
    decreases n,
{
    if n > 0 {
        lemma_exact_refitted(v, start, uses, images, row, c, n - 1, f);
        assert(f(n - 1) == (if uses[n - 1].0 == row {
            v(images[n - 1]@[c])
        } else {
            0 as real
        }));
    }
}

/// Installing one decoder moves the fit by what its atom adds.
proof fn lemma_refit_adds<S: Scalar>(
    v: spec_fn(S) -> real,
    before: &SaeSupportSparseTerm<S>,
    after: &SaeSupportSparseTerm<S>,
    table: Seq<Vec<BasisEval<S>>>,
    a: int,
    decoder: &Matrix<S>,
    fit: &Matrix<S>,
    next: &Matrix<S>,
    row: int,
    c: int,
)
    requires
        is_exact(v),
        before.wf(),
        after.same_but_decoders(before),
        0 <= a < before.k(),
        after.atom_seq()[a].decoder() == *decoder,
        fit.has_shape(before.rows(), before.width()),
        before.is_refit(table, a, decoder, fit, next),
        0 <= row < before.rows(),
        0 <= c < before.width(),
    ensures
        v(next.at(row, c)) == v(fit.at(row, c)) + added(v, before, after, table, a, row, c),
{
    let images = choose|images: Seq<Vec<S>>|
        {
            &&& #[trigger] before.are_image_changes(table, a, decoder, images)
            &&& before.adds_images(a, images, fit, next)
        };
    let uses = before.uses()[a];
    let n = uses.len() as int;
    let supports = before.state().supports();
    let rows = before.rows() as int;
    assert forall|r: int| 0 <= r < supports.len() implies (#[trigger] supports[r]).len()
        <= usize::MAX by {
        assert(1 <= before.support(r).len() <= before.state().mode_spec()->k);
    }
    let g = |r: int, slot: int|
        if r == row {
            moved(v, before, after, table, r, slot, c)
        } else {
            0 as real
        };
    let f = |e: int| g(uses[e].0 as int, uses[e].1 as int);
    assert(after.atom_seq()[a].same_chart(&before.atom_seq()[a]));
    let m = before.atom_seq()[a].m() as int;
    assert forall|e: int| 0 <= e < n implies #[trigger] f(e) == (if uses[e].0 == row {
        v(images[e]@[c])
    } else {
        0 as real
    }) by {
        if uses[e].0 == row {
            before.lemma_use(a, e);
            let slot = uses[e].1 as int;
            let phi = before.use_phi(table, a, e);
            assert(images[e]@[c] == s_row_times(phi, decoder, c, m).s_minus(
                s_decoded(before.atom_seq()[a], phi, c, m),
            ));
            let p = |b: int| phi[b].s_times(decoder.at(b, c));
            let q = |b: int| phi[b].s_times(after.atom_seq()[a].coefficient(b, c));
            let r = |b: int| v(q(b));
            lemma_exact_sum_of(v, S::s_zero(), m, p, r);
            lemma_exact_sum_of(v, S::s_zero(), m, q, r);
            lemma_image_moves(v, before, after, a, phi, c);
            lemma_total_ext(
                m,
                |b: int| v(table[row]@[slot].phi@[b]) * step(v, before, after, a, c)(b),
                |b: int| v(phi[b]) * step(v, before, after, a, c)(b),
            );
        }
    }
    lemma_exact_refitted(v, fit.at(row, c), uses, images, row, c, n, f);
    assert(next.at(row, c) == refitted(fit.at(row, c), uses, images, row, c, n));
    let lines = |r: int|
        total(supports[r].len() as int, |slot: int| only(supports, a, g)(r, slot));
    lemma_uses_total(supports, rows, a, g, lines);
    assert(uses == uses_of(supports, rows, a));
    lemma_total_ext(
        n,
        f,
        |e: int|
            g(uses_of(supports, rows, a)[e].0 as int, uses_of(supports, rows, a)[e].1 as int),
    );
    assert forall|r: int| 0 <= r < rows && r != row implies #[trigger] lines(r) == 0 as real by {
        lemma_total_zero(
            supports[r].len() as int,
            |slot: int| only(supports, a, g)(r, slot),
        );
    }
    lemma_single_term(rows, row, lines);
    let len = supports[row].len() as int;
    let one = |slot: int| only(supports, a, g)(row, slot);
    let two = added_at(v, before, after, table, a, row, c);
    assert(lines(row) == total(len, one));
    lemma_total_ext(len, one, two);
    assert(added(v, before, after, table, a, row, c) == total(len, two));
    assert(v(next.at(row, c)) == v(fit.at(row, c)) + total(n, f));
    assert(total(n, f) == total(rows, lines));
}

/// The fit along a chain of installed decoders.
proof fn lemma_chain_adds<S: Scalar>(
    v: spec_fn(S) -> real,
    before: &SaeSupportSparseTerm<S>,
    after: &SaeSupportSparseTerm<S>,
    table: Seq<Vec<BasisEval<S>>>,
    class: Seq<usize>,
    decoders: Seq<Matrix<S>>,
    chain: Seq<Matrix<S>>,
    n: int,
    i: int,
    row: int,
    c: int,
)
    requires
        is_exact(v),
        before.wf(),
        after.same_but_decoders(before),
        names_atoms(class, before.k()),
        0 <= i <= n <= class.len(),
        forall|j: int|
            0 <= j < n ==> after.atom_seq()[(#[trigger] class[j]) as int].decoder() == decoders[j],
        is_refit_chain(before, table, class, decoders, chain, n),
        chain[0].has_shape(before.rows(), before.width()),
        0 <= row < before.rows(),
        0 <= c < before.width(),
    ensures
        chain[i].has_shape(before.rows(), before.width()),
        v(chain[i].at(row, c)) == v(chain[0].at(row, c)) + total(
            i,
            |j: int| added(v, before, after, table, class[j] as int, row, c),
        ),
    decreases i,
{
    if i > 0 {
        lemma_chain_adds(
            v,
            before,
            after,
            table,
            class,
            decoders,
            chain,
            n,
            i - 1,
            row,
            c,
        );
        assert(class[i - 1] < before.k());
        assert(chain[(i - 1) + 1] == chain[i]);
        assert(before.is_refit(
            table,
            class[i - 1] as int,
            &decoders[i - 1],
            &chain[i - 1],
            &chain[(i - 1) + 1],
        ));
        lemma_refit_adds(
            v,
            before,
            after,
            table,
            class[i - 1] as int,
            &decoders[i - 1],
            &chain[i - 1],
            &chain[i],
            row,
            c,
        );
    }
}

/// Installing decoders keeps the fit's shape.
proof fn lemma_chain_shape<S: Scalar>(
    before: &SaeSupportSparseTerm<S>,
    table: Seq<Vec<BasisEval<S>>>,
    class: Seq<usize>,
    decoders: Seq<Matrix<S>>,
    chain: Seq<Matrix<S>>,
    n: int,
    i: int,
)
    requires
        0 <= i <= n,
        is_refit_chain(before, table, class, decoders, chain, n),
        chain[0].has_shape(before.rows(), before.width()),
    ensures
        chain[i].has_shape(before.rows(), before.width()),
    decreases i,
{
    if i > 0 {
        lemma_chain_shape(before, table, class, decoders, chain, n, i - 1);
        assert(chain[(i - 1) + 1] == chain[i]);
    }
}

/// Installing a class keeps the fit exact.
pub proof fn law_installing_a_class_keeps_the_fit_exact<S: Scalar>(
    v: spec_fn(S) -> real,
    before: &SaeSupportSparseTerm<S>,
    after: &SaeSupportSparseTerm<S>,
    table: Seq<Vec<BasisEval<S>>>,
    class: Seq<usize>,
    decoders: Seq<Matrix<S>>,
    chain: Seq<Matrix<S>>,
)
    requires
        is_exact(v),
        before.wf(),
        after.same_but_decoders(before),
        names_atoms(class, before.k()),
        decoders.len() == class.len(),
        forall|j: int|
            0 <= j < class.len() ==> after.atom_seq()[(#[trigger] class[j]) as int].decoder()
                == decoders[j],
        forall|a: int|
            0 <= a < before.k() && !class.contains(a as usize) ==> #[trigger] after.atom_seq()[a]
                == before.atom_seq()[a],
        is_refit_chain(before, table, class, decoders, chain, class.len() as int),
        is_exact_fit(v, before, table, &chain[0]),
    ensures
        is_exact_fit(v, after, table, &chain[class.len() as int]),
{
    let n = class.len() as int;
    let last = chain[n];
    assert forall|row: int, c: int| 0 <= row < after.rows() && 0 <= c < after.width() implies v(
        #[trigger] last.at(row, c),
    ) == v(after.fitted(table, row, c)) by {
        lemma_chain_adds(v, before, after, table, class, decoders, chain, n, n, row, c);
        lemma_fit_moves(v, before, after, table, row, c);
        assert(v(chain[0].at(row, c)) == v(before.fitted(table, row, c)));
        let len = before.support(row).len() as int;
        let support = before.support(row);
        let part = |slot: int| moved(v, before, after, table, row, slot, c);
        let cell = |j: int, slot: int|
            if support[slot] == class[j] as int {
                part(slot)
            } else {
                0 as real
            };
        let lines = |j: int| added(v, before, after, table, class[j] as int, row, c);
        assert forall|j: int| 0 <= j < n implies #[trigger] lines(j) == total(
            len,
            |slot: int| cell(j, slot),
        ) by {
            lemma_total_ext(
                len,
                added_at(v, before, after, table, class[j] as int, row, c),
                |slot: int| cell(j, slot),
            );
        }
        lemma_total2_lines(n, len, cell, lines);
        let swapped = |slot: int, j: int| cell(j, slot);
        lemma_total2_exchange(n, len, cell, swapped);
        assert forall|slot: int| 0 <= slot < len implies #[trigger] part(slot) == total(
            n,
            |j: int| swapped(slot, j),
        ) by {
            before.lemma_active(row, slot);
            let a = support[slot] as int;
            let f = |j: int| swapped(slot, j);
            if class.contains(a as usize) {
                let at = choose|at: int| 0 <= at < class.len() && class[at] == a as usize;
                assert forall|j: int| 0 <= j < n && j != at implies #[trigger] f(j) == 0 as real by {
                    if j < at {
                        assert(class[j] != class[at]);
                    } else {
                        assert(class[at] != class[j]);
                    }
                }
                lemma_single_term(n, at, f);
            } else {
                assert(after.atom_seq()[a] == before.atom_seq()[a]);
                let m = before.atom_seq()[a].m() as int;
                let g = |b: int|
                    v(table[row]@[slot].phi@[b]) * step(v, before, after, a, c)(b);
                assert forall|b: int| 0 <= b < m implies #[trigger] g(b) == 0 as real by {
                    let k = v(table[row]@[slot].phi@[b]);
                    assert(k * (0 as real) == 0 as real) by (nonlinear_arith);
                }
                lemma_total_zero(m, g);
                assert forall|j: int| 0 <= j < n implies #[trigger] f(j) == 0 as real by {
                    if class[j] == a {
                        assert(class.contains(a as usize));
                    }
                }
                lemma_total_zero(n, f);
            }
        }
        lemma_total2_lines(len, n, swapped, part);
    }
    lemma_chain_shape(before, table, class, decoders, chain, n, n);
}

/// A penalty stays what it is when decoders change.
proof fn lemma_same_penalty<S: Scalar>(
    v: spec_fn(S) -> real,
    before: &SaeSupportSparseTerm<S>,
    after: &SaeSupportSparseTerm<S>,
    lambda: Seq<S>,
    a: int,
)
    requires
        before.wf(),
        after.same_but_decoders(before),
        0 <= a < before.k(),
        has_plain_penalty(v, before, lambda, a),
    ensures
        has_plain_penalty(v, after, lambda, a),
{
    assert(before.atom_wf(a));
    assert(after.atom_seq()[a].same_chart(&before.atom_seq()[a]));
    let m = before.atom_seq()[a].m() as int;
    let p = penalty_of(v, before, a);
    let q = penalty_of(v, after, a);
    assert forall|b: int, r: int| 0 <= b < m && 0 <= r < m implies #[trigger] q(b, r) == p(b, r) by {
        assert(after.atom_seq()[a].penalty().at(b, r) == before.atom_seq()[a].penalty().at(b, r));
    }
    assert forall|b: int, r: int| 0 <= b < m && 0 <= r < m implies #[trigger] q(b, r) == q(r, b) by {
        assert(q(b, r) == p(b, r));
        assert(q(r, b) == p(r, b));
        assert(p(b, r) == p(r, b));
    }
    assert forall|z: spec_fn(int) -> real| #[trigger] bilinear(m, q, z, z) >= 0 as real by {
        let one = |b: int, r: int| z(b) * (q(b, r) * z(r));
        let two = |b: int, r: int| z(b) * (p(b, r) * z(r));
        assert forall|b: int, r: int| 0 <= b < m && 0 <= r < m implies #[trigger] one(b, r) == two(
            b,
            r,
        ) by {
            assert(q(b, r) == p(b, r));
        }
        lemma_total2_ext(m, m, one, two);
        assert(bilinear(m, p, z, z) >= 0 as real);
    }
}

/// One class of a sweep: its atoms share no row, each gets the decoder that solves its
/// equations against the fit at the class's start, and the fit follows.
pub open spec fn is_class_step<S: Scalar>(
    v: spec_fn(S) -> real,
    before: &SaeSupportSparseTerm<S>,
    after: &SaeSupportSparseTerm<S>,
    target: &Matrix<S>,
    table: Seq<Vec<BasisEval<S>>>,
    lambda: Seq<S>,
    class: Seq<usize>,
    equations: Seq<NormalEquations<S>>,
    decoders: Seq<Matrix<S>>,
    chain: Seq<Matrix<S>>,
) -> bool {
    &&& after.wf()
    &&& after.same_but_decoders(before)
    &&& names_atoms(class, before.k())
    &&& decoders.len() == class.len()
    &&& forall|i: int, j: int|
        0 <= i < j < class.len() ==> !conflict(
            before.state().supports(),
            (#[trigger] class[i]) as int,
            (#[trigger] class[j]) as int,
        )
    &&& forall|i: int|
        0 <= i < class.len() ==> {
            let a = (#[trigger] class[i]) as int;
            &&& before.are_equations(target, &chain[0], table, a, &equations[i])
            &&& solves_equations(
                v,
                &equations[i],
                &before.atom_seq()[a].penalty(),
                lambda[a],
                &decoders[i],
                before.atom_seq()[a].m() as nat,
                before.width(),
            )
            &&& after.atom_seq()[a].decoder() == decoders[i]
        }
    &&& forall|a: int|
        0 <= a < before.k() && !class.contains(a as usize) ==> #[trigger] after.atom_seq()[a]
            == before.atom_seq()[a]
    &&& is_refit_chain(before, table, class, decoders, chain, class.len() as int)
}

/// The steps of a sweep follow one another: class `i` starts from the term and the fit
/// that the one before it left.
pub open spec fn is_sweep_step<S: Scalar>(
    v: spec_fn(S) -> real,
    target: &Matrix<S>,
    table: Seq<Vec<BasisEval<S>>>,
    lambda: Seq<S>,
    terms: Seq<SaeSupportSparseTerm<S>>,
    fits: Seq<Matrix<S>>,
    classes: Seq<Seq<usize>>,
    equations: Seq<Seq<NormalEquations<S>>>,
    decoders: Seq<Seq<Matrix<S>>>,
    chains: Seq<Seq<Matrix<S>>>,
    i: int,
) -> bool {
    &&& chains[i][0] == fits[i]
    &&& chains[i][classes[i].len() as int] == fits[i + 1]
    &&& is_class_step(
        v,
        &terms[i],
        &terms[i + 1],
        target,
        table,
        lambda,
        classes[i],
        equations[i],
        decoders[i],
        chains[i],
    )
}

/// An exact sweep never raises the objective, and a fit that is exact at its start is
/// exact at its end.
pub proof fn law_an_exact_sweep_never_raises_the_objective<S: Scalar>(
    v: spec_fn(S) -> real,
    target: &Matrix<S>,
    table: Seq<Vec<BasisEval<S>>>,
    lambda: Seq<S>,
    priors: Seq<Vec<Vec<PriorTerm<S>>>>,
    codes: CodeLengths<S>,
    terms: Seq<SaeSupportSparseTerm<S>>,
    fits: Seq<Matrix<S>>,
    residuals: Seq<Matrix<S>>,
    classes: Seq<Seq<usize>>,
    equations: Seq<Seq<NormalEquations<S>>>,
    decoders: Seq<Seq<Matrix<S>>>,
    chains: Seq<Seq<Matrix<S>>>,
    n: int,
)
    requires
        is_exact(v),
        0 <= n,
        terms[0].wf(),
        names_once(terms[0].state().supports()),
        forall|a: int|
            0 <= a < terms[0].k() ==> #[trigger] has_plain_penalty(v, &terms[0], lambda, a),
        is_exact_fit(v, &terms[0], table, &fits[0]),
        forall|i: int|
            0 <= i <= n ==> (#[trigger] terms[i]).is_residual(target, table, &residuals[i]),
        forall|i: int|
            0 <= i < n ==> #[trigger] is_sweep_step(
                v,
                target,
                table,
                lambda,
                terms,
                fits,
                classes,
                equations,
                decoders,
                chains,
                i,
            ),
    ensures
        terms[n].wf(),
        terms[n].state() == terms[0].state(),
        terms[n].k() == terms[0].k(),
        forall|a: int|
            0 <= a < terms[n].k() ==> #[trigger] has_plain_penalty(v, &terms[n], lambda, a),
        is_exact_fit(v, &terms[n], table, &fits[n]),
        v(terms[n].s_objective(&residuals[n], lambda, priors, codes)) <= v(
            terms[0].s_objective(&residuals[0], lambda, priors, codes),
        ),
    decreases n,
{
    if n > 0 {
        law_an_exact_sweep_never_raises_the_objective(
            v,
            target,
            table,
            lambda,
            priors,
            codes,
            terms,
            fits,
            residuals,
            classes,
            equations,
            decoders,
            chains,
            n - 1,
        );
        let i = n - 1;
        let before = terms[i];
        let after = terms[n];
        assert(terms[i + 1] == after);
        assert(is_sweep_step(
            v,
            target,
            table,
            lambda,
            terms,
            fits,
            classes,
            equations,
            decoders,
            chains,
            i,
        ));
        let class = classes[i];
        law_installing_a_class_keeps_the_fit_exact(
            v,
            &before,
            &after,
            table,
            class,
            decoders[i],
            chains[i],
        );
        assert forall|a: int| 0 <= a < after.k() implies #[trigger] has_plain_penalty(
            v,
            &after,
            lambda,
            a,
        ) by {
            assert(has_plain_penalty(v, &before, lambda, a));
            lemma_same_penalty(v, &before, &after, lambda, a);
        }
        assert(is_exact_class_update(
            v,
            &before,
            &after,
            target,
            &fits[i],
            table,
            lambda,
            class,
            equations[i],
        ));
        law_an_exact_class_update_never_raises_the_objective(
            v,
            &before,
            &after,
            target,
            &fits[i],
            table,
            &residuals[i],
            &residuals[n],
            lambda,
            priors,
            codes,
            class,
            equations[i],
        );
    }
}

} // verus!
