//! What a trial point is measured by, and when it is accepted, in exact arithmetic.
use crate::active::{s_decoded, BasisEval};
use crate::exact::{
    is_exact, lemma_exact_sum_of, lemma_product_positive,
    lemma_total_ext, magnitude, total,
};
use crate::routing::{image_value, lemma_exact_image};
use crate::row_solve::{s_armijo, s_halved, KahanSum, LineSearch, TrialMeasure};
use crate::scalar::{s_half, Scalar};
use crate::term::SaeSupportSparseTerm;
use vstd::arithmetic::power2::{lemma2_to64, lemma_pow2_unfold, pow2};
use vstd::prelude::*;

verus! {

/// A fused product is the exact product and sum.
pub open spec fn fuses_exactly<S: Scalar>(v: spec_fn(S) -> real) -> bool {
    forall|x: S, y: S, z: S| v(#[trigger] x.s_fused(y, z)) == v(x) * v(y) + v(z)
}

/// Channel `c` of a row's fit: the images of its active atoms, added up.
pub open spec fn fit_value<S: Scalar>(
    v: spec_fn(S) -> real,
    term: &SaeSupportSparseTerm<S>,
    evals: Seq<BasisEval<S>>,
    row: int,
    c: int,
) -> real {
    total(
        term.support(row).len() as int,
        |slot: int| image_value(v, term.active(row, slot), evals[slot].phi@, c),
    )
}

/// Half the squared error of a row's fit.
pub open spec fn row_loss<S: Scalar>(
    v: spec_fn(S) -> real,
    term: &SaeSupportSparseTerm<S>,
    target: Seq<S>,
    evals: Seq<BasisEval<S>>,
    row: int,
) -> real {
    total(
        term.width() as int,
        |c: int|
            (v(target[c]) - fit_value(v, term, evals, row, c)) * (v(target[c]) - fit_value(
                v,
                term,
                evals,
                row,
                c,
            )) / 2 as real,
    )
}

/// The sum of a row's prior changes.
pub open spec fn prior_change<S: Scalar>(v: spec_fn(S) -> real, prior_changes: Seq<S>) -> real {
    total(prior_changes.len() as int, |i: int| v(prior_changes[i]))
}

/// A compensated sum of exact numbers needs no compensation.
pub proof fn law_a_compensated_sum_is_exact<S: Scalar>(
    v: spec_fn(S) -> real,
    sum: KahanSum<S>,
    term: S,
)
    requires
        is_exact(v),
        v(sum.carry) == 0 as real,
    ensures
        v(sum.with(term).carry) == 0 as real,
        v(sum.with(term).total) == v(sum.total) + v(term),
        v(KahanSum::<S>::empty().carry) == 0 as real,
        v(KahanSum::<S>::empty().total) == 0 as real,
{
}

proof fn lemma_slot_change<S: Scalar>(
    v: spec_fn(S) -> real,
    term: &SaeSupportSparseTerm<S>,
    start: KahanSum<S>,
    current: Seq<BasisEval<S>>,
    trial: Seq<BasisEval<S>>,
    row: int,
    slot: int,
    c: int,
    n: int,
)
    requires
        is_exact(v),
        v(start.carry) == 0 as real,
    ensures
        ({
            let atom = term.active(row, slot);
            let sum = term.slot_change(start, current, trial, row, slot, c, n);
            let before = |b: int| v(current[slot].phi@[b]) * v(atom.decoder().at(b, c));
            let after = |b: int| v(trial[slot].phi@[b]) * v(atom.decoder().at(b, c));
            &&& v(sum.carry) == 0 as real
            &&& v(sum.total) == v(start.total) + total(n, after) - total(n, before)
        }),
    decreases n,
{
    if n > 0 {
        lemma_slot_change(v, term, start, current, trial, row, slot, c, n - 1);
        let atom = term.active(row, slot);
        let x = v(trial[slot].phi@[n - 1]);
        let y = v(current[slot].phi@[n - 1]);
        let z = v(atom.decoder().at(n - 1, c));
        assert((x - y) * z == x * z - y * z) by (nonlinear_arith);
    }
}

proof fn lemma_image_change<S: Scalar>(
    v: spec_fn(S) -> real,
    term: &SaeSupportSparseTerm<S>,
    current: Seq<BasisEval<S>>,
    trial: Seq<BasisEval<S>>,
    row: int,
    c: int,
    n: int,
)
    requires
        is_exact(v),
    ensures
        ({
            let sum = term.image_change(current, trial, row, c, n);
            let before = |slot: int|
                image_value(v, term.active(row, slot), current[slot].phi@, c);
            let after = |slot: int| image_value(v, term.active(row, slot), trial[slot].phi@, c);
            &&& v(sum.carry) == 0 as real
            &&& v(sum.total) == total(n, after) - total(n, before)
        }),
    decreases n,
{
    if n > 0 {
        lemma_image_change(v, term, current, trial, row, c, n - 1);
        let atom = term.active(row, n - 1);
        let start = term.image_change(current, trial, row, c, n - 1);
        lemma_slot_change(v, term, start, current, trial, row, n - 1, c, atom.m() as int);
        let b1 = |b: int| v(current[n - 1].phi@[b]) * v(atom.decoder().at(b, c));
        let b2 = |b: int| v(current[n - 1].phi@[b]) * v(atom.decoder().at(b, c));
        lemma_total_ext(atom.m() as int, b1, b2);
        let a1 = |b: int| v(trial[n - 1].phi@[b]) * v(atom.decoder().at(b, c));
        let a2 = |b: int| v(trial[n - 1].phi@[b]) * v(atom.decoder().at(b, c));
        lemma_total_ext(atom.m() as int, a1, a2);
    }
}

proof fn lemma_loss_change<S: Scalar>(
    v: spec_fn(S) -> real,
    term: &SaeSupportSparseTerm<S>,
    target: Seq<S>,
    residual: Seq<S>,
    current: Seq<BasisEval<S>>,
    trial: Seq<BasisEval<S>>,
    row: int,
    n: int,
)
    requires
        is_exact(v),
        fuses_exactly(v),
        forall|c: int|
            0 <= c < n ==> v(#[trigger] residual[c]) == v(target[c]) - fit_value(
                v,
                term,
                current,
                row,
                c,
            ),
    ensures
        ({
            let sum = term.loss_change(residual, current, trial, row, n);
            let before = |c: int|
                (v(target[c]) - fit_value(v, term, current, row, c)) * (v(target[c]) - fit_value(
                    v,
                    term,
                    current,
                    row,
                    c,
                )) / 2 as real;
            let after = |c: int|
                (v(target[c]) - fit_value(v, term, trial, row, c)) * (v(target[c]) - fit_value(
                    v,
                    term,
                    trial,
                    row,
                    c,
                )) / 2 as real;
            &&& v(sum.carry) == 0 as real
            &&& v(sum.total) == total(n, after) - total(n, before)
        }),
    decreases n,
{
    if n > 0 {
        lemma_loss_change(v, term, target, residual, current, trial, row, n - 1);
        let c = n - 1;
        lemma_image_change(v, term, current, trial, row, c, term.support(row).len() as int);
        let y = v(target[c]);
        let p = fit_value(v, term, current, row, c);
        let q = fit_value(v, term, trial, row, c);
        let d = term.image_change(current, trial, row, c, term.support(row).len() as int).total;
        assert(v(d) == q - p);
        assert(v(residual[c]) == y - p);
        let half = v(s_half::<S>());
        assert(half == 1 as real / 2 as real);
        let e = q - p;
        let r = y - p;
        assert((y - q) * (y - q) == (r - e) * (r - e)) by (nonlinear_arith)
            requires
                e == q - p,
                r == y - p,
        ;
        assert((r - e) * (r - e) == r * r - 2 as real * (e * r) + e * e) by (nonlinear_arith);
        let he = half * e;
        assert(he == e / 2 as real);
        assert(e * (he - r) == e * he - e * r) by (nonlinear_arith);
        let ee = e * e;
        assert(e * he == half * (e * e)) by (nonlinear_arith)
            requires
                he == half * e,
        ;
        assert(e * he == ee / 2 as real);
    }
}

/// In exact arithmetic a trial is measured by the row's objective there less the one at
/// the current point: the change of half the squared error, and the prior's changes.
pub proof fn law_a_trial_is_measured_by_its_objective<S: Scalar>(
    v: spec_fn(S) -> real,
    term: &SaeSupportSparseTerm<S>,
    row: int,
    target: Seq<S>,
    residual: Seq<S>,
    current: Seq<BasisEval<S>>,
    trial: Seq<BasisEval<S>>,
    prior_changes: Seq<S>,
)
    requires
        is_exact(v),
        fuses_exactly(v),
        forall|c: int|
            0 <= c < term.width() ==> v(#[trigger] residual[c]) == v(target[c]) - fit_value(
                v,
                term,
                current,
                row,
                c,
            ),
    ensures
        v(
            term.objective_change(
                residual,
                current,
                trial,
                prior_changes,
                row,
                prior_changes.len() as int,
            ).total,
        ) == row_loss(v, term, target, trial, row) - row_loss(v, term, target, current, row)
            + prior_change(v, prior_changes),
{
    lemma_objective_change(
        v,
        term,
        target,
        residual,
        current,
        trial,
        prior_changes,
        row,
        prior_changes.len() as int,
    );
}

proof fn lemma_objective_change<S: Scalar>(
    v: spec_fn(S) -> real,
    term: &SaeSupportSparseTerm<S>,
    target: Seq<S>,
    residual: Seq<S>,
    current: Seq<BasisEval<S>>,
    trial: Seq<BasisEval<S>>,
    prior_changes: Seq<S>,
    row: int,
    n: int,
)
    requires
        is_exact(v),
        fuses_exactly(v),
        forall|c: int|
            0 <= c < term.width() ==> v(#[trigger] residual[c]) == v(target[c]) - fit_value(
                v,
                term,
                current,
                row,
                c,
            ),
    ensures
        ({
            let sum = term.objective_change(residual, current, trial, prior_changes, row, n);
            &&& v(sum.carry) == 0 as real
            &&& v(sum.total) == row_loss(v, term, target, trial, row) - row_loss(
                v,
                term,
                target,
                current,
                row,
            ) + total(n, |i: int| v(prior_changes[i]))
        }),
    decreases n,
{
    if n > 0 {
        lemma_objective_change(
            v,
            term,
            target,
            residual,
            current,
            trial,
            prior_changes,
            row,
            n - 1,
        );
    } else {
        lemma_loss_change(
            v,
            term,
            target,
            residual,
            current,
            trial,
            row,
            term.width() as int,
        );
    }
}

/// A row's residual is its target less its fit.
pub proof fn law_a_residual_is_what_the_fit_leaves<S: Scalar>(
    v: spec_fn(S) -> real,
    term: &SaeSupportSparseTerm<S>,
    target: Seq<S>,
    evals: Seq<BasisEval<S>>,
    row: int,
)
    requires
        is_exact(v),
        term.row_fits(evals, row),
    ensures
        term.row_residual(target, evals, row).len() == term.width(),
        forall|c: int|
            0 <= c < term.width() ==> v(#[trigger] term.row_residual(target, evals, row)[c]) == v(
                target[c],
            ) - fit_value(v, term, evals, row, c),
{
    assert forall|c: int| 0 <= c < term.width() implies v(
        #[trigger] term.row_residual(target, evals, row)[c],
    ) == v(target[c]) - fit_value(v, term, evals, row, c) by {
        let f = |slot: int|
            s_decoded(
                term.active(row, slot),
                evals[slot].phi@,
                c,
                term.active(row, slot).m() as int,
            );
        let g = |slot: int| image_value(v, term.active(row, slot), evals[slot].phi@, c);
        assert forall|slot: int| 0 <= slot < evals.len() implies v(f(slot)) == #[trigger] g(
            slot,
        ) by {
            lemma_exact_image(v, term.active(row, slot), evals[slot].phi@, c);
        }
        lemma_exact_sum_of(v, S::s_zero(), evals.len() as int, f, g);
    }
}

/// A step halved `h` times is one over two to the power `h`.
pub proof fn law_a_step_is_halved<S: Scalar>(v: spec_fn(S) -> real, h: nat)
    requires
        is_exact(v),
    ensures
        v(s_halved::<S>(h)) > 0 as real,
        v(s_halved::<S>(h)) * (pow2(h) as real) == 1 as real,
    decreases h,
{
    if h > 0 {
        law_a_step_is_halved::<S>(v, (h - 1) as nat);
        lemma_pow2_unfold(h);
        let s = v(s_halved::<S>((h - 1) as nat));
        let half = v(s_half::<S>());
        let p = pow2((h - 1) as nat) as real;
        assert(half == 1 as real / 2 as real);
        assert(s * half == s / 2 as real);
        let t = s / 2 as real;
        assert(pow2(h) as real == 2 as real * p);
        assert(t * (2 as real * p) == (2 as real * t) * p) by (nonlinear_arith);
    } else {
        lemma2_to64();
    }
}

/// Along a direction whose slope is positive a trial is accepted if it takes off the
/// objective a ten-thousandth of what the slope foretells for its step, and otherwise
/// only if the change drowns in rounding and the gradient has become smaller.
pub proof fn law_a_trial_is_accepted_for_a_decrease<S: Scalar>(
    v: spec_fn(S) -> real,
    search: &LineSearch<S>,
    trial: TrialMeasure<S>,
)
    requires
        is_exact(v),
        search.wf(),
        v(search.directional) > 0 as real,
    ensures
        search.accepts(trial) <==> v(trial.objective_delta) * 10000 as real <= -(v(search.step) * v(
            search.directional,
        )) || (magnitude(v(trial.objective_delta)) <= v(search.resolution) && v(trial.gradient_max)
            < v(search.gradient_max)),
        search.accepts(trial) && magnitude(v(trial.objective_delta)) > v(search.resolution) ==> v(
            trial.objective_delta,
        ) < 0 as real,
{
    law_a_step_is_halved::<S>(v, search.halving as nat);
    let s = v(search.step);
    let d = v(search.directional);
    let a = v(s_armijo::<S>());
    assert(a == 1 as real / 10000 as real);
    assert(v(search.armijo_bound()) == ((-a) * s) * d);
    let sd = s * d;
    assert(((-a) * s) * d == -(a * sd)) by (nonlinear_arith)
        requires
            sd == s * d,
    ;
    assert(a * sd == sd / 10000 as real);
    lemma_product_positive(s, d);
}

/// A trial that is accepted and measurable lowers the row's objective, by a
/// ten-thousandth of its step times the slope or more; one whose change drowns in
/// rounding has a smaller gradient.
pub proof fn law_an_accepted_trial_lowers_the_objective<S: Scalar>(
    v: spec_fn(S) -> real,
    term: &SaeSupportSparseTerm<S>,
    search: &LineSearch<S>,
    measured: TrialMeasure<S>,
    row: int,
    target: Seq<S>,
    current: Seq<BasisEval<S>>,
    trial: Seq<BasisEval<S>>,
    prior_changes: Seq<S>,
)
    requires
        is_exact(v),
        fuses_exactly(v),
        term.row_fits(current, row),
        search.wf(),
        v(search.directional) > 0 as real,
        measured.objective_delta == term.objective_change(
            term.row_residual(target, current, row),
            current,
            trial,
            prior_changes,
            row,
            prior_changes.len() as int,
        ).total,
        search.accepts(measured),
    ensures
        ({
            let change = row_loss(v, term, target, trial, row) - row_loss(
                v,
                term,
                target,
                current,
                row,
            ) + prior_change(v, prior_changes);
            ||| change < 0 as real && change * 10000 as real <= -(v(search.step) * v(
                search.directional,
            ))
            ||| magnitude(change) <= v(search.resolution) && v(measured.gradient_max) < v(
                search.gradient_max,
            )
        }),
{
    law_a_residual_is_what_the_fit_leaves(v, term, target, current, row);
    law_a_trial_is_measured_by_its_objective(
        v,
        term,
        row,
        target,
        term.row_residual(target, current, row),
        current,
        trial,
        prior_changes,
    );
    law_a_trial_is_accepted_for_a_decrease(v, search, measured);
    law_a_step_is_halved::<S>(v, search.halving as nat);
    lemma_product_positive(v(search.step), v(search.directional));
}

} // verus!
