//! What a marginal score is, and which trials and candidates are kept, in exact
//! arithmetic.
use crate::exact::{
    is_exact, larger, lemma_exact_sum_of, lemma_total_ext, lemma_total_minus, lemma_total_scaled,
    total,
};
use crate::reroute::{image_of, s_total, BasisTrial};
use crate::router::s_two;
use crate::routing::{
    image_value, lemma_distance, lemma_exact_image, squared_distance, squared_length,
};
use crate::scalar::{s_max, Scalar};
use crate::selection::{
    best_trial, s_fit_score, s_trial_score, top_score, worth_keeping, Candidate, Trial,
};
use crate::term::SaeSupportSparseTerm;
use vstd::prelude::*;

verus! {

/// A fit score is what an image takes off the squared length of a row.
pub proof fn law_a_fit_score_is_the_squared_length_explained<S: Scalar>(
    v: spec_fn(S) -> real,
    row: Seq<S>,
    image: Seq<S>,
)
    requires
        is_exact(v),
    ensures
        v(s_fit_score(row, image)) == squared_length(v, row) - squared_distance(
            v,
            row,
            |c: int| v(image[c]),
        ),
{
    let n = row.len() as int;
    let at = |c: int| v(image[c]);
    let f = |c: int|
        s_two::<S>().s_times(row[c]).s_times(image[c]).s_minus(image[c].s_times(image[c]));
    let cross = |c: int| v(row[c]) * at(c);
    let square = |c: int| at(c) * at(c);
    let twice = |c: int| 2 as real * cross(c);
    let g = |c: int| twice(c) - square(c);
    assert(v(s_two::<S>()) == 2 as real);
    assert forall|c: int| 0 <= c < n implies v(f(c)) == #[trigger] g(c) by {
        let x = v(row[c]);
        let y = at(c);
        assert((2 as real * x) * y == 2 as real * (x * y)) by (nonlinear_arith);
    }
    lemma_exact_sum_of(v, S::s_zero(), n, f, g);
    lemma_total_scaled(n, 2 as real, cross);
    lemma_total_minus(n, twice, square);
    lemma_distance(v, row, at);
    lemma_total_ext(n, cross, |c: int| v(row[c]) * at(c));
    lemma_total_ext(n, square, |c: int| at(c) * at(c));
}

/// A trial's score is twice what it takes off the row's penalised objective: the squared
/// length of the row less the squared error left, less twice the prior's energy on all
/// its axes where the prior is scored.
pub proof fn law_a_trial_scores_what_it_takes_off_the_objective<S: Scalar>(
    v: spec_fn(S) -> real,
    term: &SaeSupportSparseTerm<S>,
    point: BasisTrial<S>,
    with_prior: bool,
    a: int,
    trial: Trial<S>,
    row: Seq<S>,
)
    requires
        is_exact(v),
        term.is_decoded_trial(point, with_prior, a, trial),
        row.len() == term.atom_seq()[a].width(),
    ensures
        v(s_trial_score(row, trial)) == squared_length(v, row) - squared_distance(
            v,
            row,
            |c: int| image_value(v, term.atom_seq()[a], point.phi@, c),
        ) - (if with_prior {
            2 as real * total(point.priors@.len() as int, |i: int| v(point.priors@[i]))
        } else {
            0 as real
        }),
{
    let atom = term.atom_seq()[a];
    let n = row.len() as int;
    law_a_fit_score_is_the_squared_length_explained(v, row, trial.image@);
    let one = |c: int| v(trial.image@[c]);
    let two = |c: int| image_value(v, atom, point.phi@, c);
    let p = |c: int| (v(row[c]) - one(c)) * (v(row[c]) - one(c));
    let q = |c: int| (v(row[c]) - two(c)) * (v(row[c]) - two(c));
    assert forall|c: int| 0 <= c < n implies #[trigger] p(c) == q(c) by {
        lemma_exact_image(v, atom, point.phi@, c);
        assert(trial.image@[c] == image_of(atom, point.phi@)[c]);
    }
    lemma_total_ext(n, p, q);
    let f = |i: int| point.priors@[i];
    let g = |i: int| v(point.priors@[i]);
    lemma_exact_sum_of(v, S::s_zero(), point.priors@.len() as int, f, g);
    assert(v(s_two::<S>()) == 2 as real);
    assert(v(s_total(point.priors@)) == total(point.priors@.len() as int, g));
}

/// Of the trials whose scores are numbers the first with the largest score is taken.
pub proof fn law_the_best_trial_is_taken<S: Scalar>(
    v: spec_fn(S) -> real,
    row: Seq<S>,
    trials: Seq<Trial<S>>,
    n: int,
)
    requires
        is_exact(v),
        0 < n <= trials.len() <= usize::MAX,
        forall|i: int|
            0 <= i < trials.len() ==> v(#[trigger] s_trial_score(row, trials[i])) > -v(
                S::s_infinity(),
            ),
    ensures
        best_trial(row, trials, n).1 matches Some(t) && {
            &&& t < n
            &&& best_trial(row, trials, n).0 == s_trial_score(row, trials[t as int])
            &&& forall|i: int|
                0 <= i < n ==> v(#[trigger] s_trial_score(row, trials[i])) <= v(
                    s_trial_score(row, trials[t as int]),
                )
            &&& forall|i: int|
                0 <= i < t ==> v(#[trigger] s_trial_score(row, trials[i])) < v(
                    s_trial_score(row, trials[t as int]),
                )
        },
    decreases n,
{
    assert(v(s_trial_score(row, trials[n - 1])) > -v(S::s_infinity()));
    if n > 1 {
        law_the_best_trial_is_taken(v, row, trials, n - 1);
    } else {
        assert(best_trial(row, trials, 0) == (S::s_infinity().s_negate(), None::<usize>));
    }
}

/// The top score is the largest.
pub proof fn law_the_top_score_is_the_largest<S: Scalar>(
    v: spec_fn(S) -> real,
    selected: Seq<Candidate<S>>,
)
    requires
        is_exact(v),
        selected.len() > 0,
        forall|i: int|
            0 <= i < selected.len() ==> v((#[trigger] selected[i]).score) > -v(S::s_infinity()),
    ensures
        forall|i: int|
            0 <= i < selected.len() ==> v((#[trigger] selected[i]).score) <= v(top_score(selected)),
        exists|i: int|
            0 <= i < selected.len() && v((#[trigger] selected[i]).score) == v(top_score(selected)),
{
    lemma_top(v, selected, selected.len() as int);
}

proof fn lemma_top<S: Scalar>(v: spec_fn(S) -> real, selected: Seq<Candidate<S>>, n: int)
    requires
        is_exact(v),
        0 < n <= selected.len(),
        forall|i: int|
            0 <= i < selected.len() ==> v((#[trigger] selected[i]).score) > -v(S::s_infinity()),
    ensures
        ({
            let top = s_max(S::s_infinity().s_negate(), n, |i: int| selected[i].score);
            &&& forall|i: int| 0 <= i < n ==> v((#[trigger] selected[i]).score) <= v(top)
            &&& exists|i: int| 0 <= i < n && v((#[trigger] selected[i]).score) == v(top)
        }),
    decreases n,
{
    let f = |i: int| selected[i].score;
    let top = s_max(S::s_infinity().s_negate(), n, f);
    let before = s_max(S::s_infinity().s_negate(), n - 1, f);
    assert(v(selected[n - 1].score) > -v(S::s_infinity()));
    assert(v(top) == larger(v(before), v(selected[n - 1].score)));
    if n > 1 {
        lemma_top(v, selected, n - 1);
        let i = choose|i: int|
            0 <= i < n - 1 && v((#[trigger] selected[i]).score) == v(before);
        if v(before) < v(selected[n - 1].score) {
            assert(v(selected[n - 1].score) == v(top));
        } else {
            assert(v(selected[i].score) == v(top));
        }
    } else {
        assert(before == S::s_infinity().s_negate());
        assert(v(selected[0].score) == v(top));
    }
}

/// Where only paying candidates are wanted, a candidate is kept if its score is
/// positive or the best one, and only those are.
pub proof fn law_paying_candidates_are_kept<S: Scalar>(
    v: spec_fn(S) -> real,
    selected: Seq<Candidate<S>>,
    best: S,
    n: int,
)
    requires
        is_exact(v),
        0 <= n <= selected.len(),
    ensures
        forall|i: int|
            0 <= i < n && (v((#[trigger] selected[i]).score) > 0 as real || v(selected[i].score)
                == v(best)) ==> worth_keeping(selected, best, n).contains(selected[i]),
        forall|j: int|
            0 <= j < worth_keeping(selected, best, n).len() ==> {
                let kept = #[trigger] worth_keeping(selected, best, n)[j];
                &&& v(kept.score) > 0 as real || v(kept.score) == v(best)
                &&& selected.contains(kept)
            },
    decreases n,
{
    if n > 0 {
        law_paying_candidates_are_kept(v, selected, best, n - 1);
        let rest = worth_keeping(selected, best, n - 1);
        let all = worth_keeping(selected, best, n);
        let last = selected[n - 1];
        assert forall|i: int|
            0 <= i < n && (v((#[trigger] selected[i]).score) > 0 as real || v(selected[i].score)
                == v(best)) implies all.contains(selected[i]) by {
            if i < n - 1 {
                assert(rest.contains(selected[i]));
                let j = choose|j: int| 0 <= j < rest.len() && rest[j] == selected[i];
                assert(all[j] == selected[i]);
            } else {
                assert(all[rest.len() as int] == last);
            }
        }
        assert forall|j: int| 0 <= j < all.len() implies {
            let kept = #[trigger] all[j];
            &&& v(kept.score) > 0 as real || v(kept.score) == v(best)
            &&& selected.contains(kept)
        } by {
            if j < rest.len() {
                assert(all[j] == rest[j]);
            } else {
                assert(all[j] == last);
                assert(selected[n - 1] == last);
            }
        }
    }
}

} // verus!
