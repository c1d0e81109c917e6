//! Routing one row by marginal score.
//!
//! An atom with several chart axes has no grid to search, so it is scored at a
//! handful of trial points, alone, and the best scores make the support. A score
//! is what the atom explains of the row, less what the prior charges for the
//! point and what admission charges for the atom.
use crate::router::s_two;
use crate::scalar::{s_max, s_sum, Scalar};
use crate::unroll::orders_finite;
use vstd::prelude::*;

verus! {

/// A trial point of an atom: its coordinates, the atom's image there, and the
/// prior's charge for the point on the scale of a score.
#[derive(Debug)]
pub struct Trial<S> {
    pub coords: Vec<S>,
    pub image: Vec<S>,
    pub prior_term: S,
}

/// An atom at its best trial; `None` stands for the fallback point.
#[derive(Clone, Copy, Debug)]
pub struct Candidate<S> {
    pub atom: usize,
    pub score: S,
    pub trial: Option<usize>,
}

/// How much of a row an image explains: `sum 2 * row * image - image^2`.
pub open spec fn s_fit_score<S: Scalar>(row: Seq<S>, image: Seq<S>) -> S {
    s_sum(
        S::s_zero(),
        row.len() as int,
        |c: int| s_two::<S>().s_times(row[c]).s_times(image[c]).s_minus(image[c].s_times(image[c])),
    )
}

pub fn fit_score<S: Scalar>(row: &Vec<S>, image: &Vec<S>) -> (r: S)
    requires
        row@.len() == image@.len(),
    ensures
        r == s_fit_score(row@, image@),
{
    let mut acc: S = S::zero();
    let ghost f = |c: int|
        s_two::<S>().s_times(row@[c]).s_times(image@[c]).s_minus(image@[c].s_times(image@[c]));
    for c in 0..row.len()
        invariant
            row@.len() == image@.len(),
            f == (|c: int|
                s_two::<S>().s_times(row@[c]).s_times(image@[c]).s_minus(
                    image@[c].s_times(image@[c]),
                )),
            acc == s_sum(S::s_zero(), c as int, f),
    {
        let fit: S = image[c];
        acc = acc.plus(S::count(2).times(row[c]).times(fit).minus(fit.times(fit)));
    }
    acc
}

/// A trial's score: what its image explains of the row, less the prior's charge.
pub open spec fn s_trial_score<S: Scalar>(row: Seq<S>, trial: Trial<S>) -> S {
    s_fit_score(row, trial.image@).s_minus(trial.prior_term)
}

fn trial_score<S: Scalar>(row: &Vec<S>, trial: &Trial<S>) -> (r: S)
    requires
        row@.len() == trial.image@.len(),
    ensures
        r == s_trial_score(row@, *trial),
{
    fit_score(row, &trial.image).minus(trial.prior_term)
}

/// The best of the first `n` trials, and its score: a trial replaces it only
/// when its score is larger.
pub open spec fn best_trial<S: Scalar>(row: Seq<S>, trials: Seq<Trial<S>>, n: int) -> (
    S,
    Option<usize>,
)
    decreases n,
{
    if n <= 0 {
        (S::s_infinity().s_negate(), None)
    } else {
        let best = best_trial(row, trials, n - 1);
        let score = s_trial_score(row, trials[n - 1]);
        if best.0.s_below(score) {
            (score, Some((n - 1) as usize))
        } else {
            best
        }
    }
}

/// The trial that a choice names.
pub open spec fn chosen<S>(
    trials: Seq<Trial<S>>,
    fallback: Trial<S>,
    choice: Option<usize>,
) -> Trial<S> {
    match choice {
        Some(i) => trials[i as int],
        None => fallback,
    }
}

/// Atom `a` as a candidate.
pub open spec fn candidate_of<S: Scalar>(
    row: Seq<S>,
    trials: Seq<Vec<Trial<S>>>,
    fallbacks: Seq<Trial<S>>,
    charges: Seq<S>,
    a: int,
) -> Candidate<S> {
    let choice = best_trial(row, trials[a]@, trials[a]@.len() as int).1;
    Candidate {
        atom: a as usize,
        score: s_trial_score(row, chosen(trials[a]@, fallbacks[a], choice)).s_minus(charges[a]),
        trial: choice,
    }
}

/// A larger score is better; of equal scores the earlier atom's.
pub open spec fn s_better<S: Scalar>(left: Candidate<S>, right: Candidate<S>) -> bool {
    right.score.s_below(left.score) || (left.score.s_same(right.score) && left.atom < right.atom)
}

fn better<S: Scalar>(left: Candidate<S>, right: Candidate<S>) -> (r: bool)
    ensures
        r == s_better(left, right),
{
    right.score.below(left.score) || (left.score.same(right.score) && left.atom < right.atom)
}

/// The place of the worst of the first `n` candidates.
pub open spec fn worst_of<S: Scalar>(selected: Seq<Candidate<S>>, n: int) -> int
    decreases n,
{
    if n <= 1 {
        0
    } else {
        let worst = worst_of(selected, n - 1);
        if s_better(selected[worst], selected[n - 1]) {
            n - 1
        } else {
            worst
        }
    }
}

/// The candidates kept after the first `n` atoms: the first `k`, and from then
/// on a better one in place of the worst.
pub open spec fn keep_best<S: Scalar>(
    row: Seq<S>,
    trials: Seq<Vec<Trial<S>>>,
    fallbacks: Seq<Trial<S>>,
    charges: Seq<S>,
    k: nat,
    n: int,
) -> Seq<Candidate<S>>
    decreases n,
{
    if n <= 0 {
        Seq::empty()
    } else {
        let selected = keep_best(row, trials, fallbacks, charges, k, n - 1);
        let next = candidate_of(row, trials, fallbacks, charges, n - 1);
        if selected.len() < k {
            selected.push(next)
        } else if k == 0 {
            selected
        } else {
            let worst = worst_of(selected, selected.len() as int);
            if s_better(next, selected[worst]) {
                selected.update(worst, next)
            } else {
                selected
            }
        }
    }
}

/// The best score among the candidates.
pub open spec fn top_score<S: Scalar>(selected: Seq<Candidate<S>>) -> S {
    s_max(S::s_infinity().s_negate(), selected.len() as int, |i: int| selected[i].score)
}

/// Of the first `n` candidates, those with a positive score or the best one.
pub open spec fn worth_keeping<S: Scalar>(
    selected: Seq<Candidate<S>>,
    best: S,
    n: int,
) -> Seq<Candidate<S>>
    decreases n,
{
    if n <= 0 {
        Seq::empty()
    } else {
        let rest = worth_keeping(selected, best, n - 1);
        let last = selected[n - 1];
        if S::s_zero().s_below(last.score) || last.score.s_same(best) {
            rest.push(last)
        } else {
            rest
        }
    }
}

/// The support of a row: the best `k` candidates, and when only paying ones are
/// wanted, those of them that pay.
pub open spec fn support_of<S: Scalar>(
    row: Seq<S>,
    trials: Seq<Vec<Trial<S>>>,
    fallbacks: Seq<Trial<S>>,
    charges: Seq<S>,
    k: nat,
    only_paying: bool,
) -> Seq<Candidate<S>> {
    let selected = keep_best(row, trials, fallbacks, charges, k, trials.len() as int);
    if only_paying && selected.len() > 1 {
        worth_keeping(selected, top_score(selected), selected.len() as int)
    } else {
        selected
    }
}

/// Atom `a` is among the candidates.
pub open spec fn has_atom<S>(selected: Seq<Candidate<S>>, a: int) -> bool {
    exists|i: int| 0 <= i < selected.len() && (#[trigger] selected[i]).atom == a
}

/// The candidate of atom `a`.
pub open spec fn candidate_at<S>(selected: Seq<Candidate<S>>, a: int) -> Candidate<S> {
    selected[choose|i: int| 0 <= i < selected.len() && (#[trigger] selected[i]).atom == a]
}

/// Those of the candidates that fall on the first `n` atoms, in atom order.
pub open spec fn by_atom<S>(selected: Seq<Candidate<S>>, n: int) -> Seq<Candidate<S>>
    decreases n,
{
    if n <= 0 {
        Seq::empty()
    } else if has_atom(selected, n - 1) {
        by_atom(selected, n - 1).push(candidate_at(selected, n - 1))
    } else {
        by_atom(selected, n - 1)
    }
}

/// Candidates name distinct atoms below `n`, with trials that exist.
pub open spec fn are_candidates<S>(
    selected: Seq<Candidate<S>>,
    trials: Seq<Vec<Trial<S>>>,
    n: int,
) -> bool {
    &&& forall|i: int|
        0 <= i < selected.len() ==> {
            &&& (#[trigger] selected[i]).atom < n
            &&& selected[i].trial matches Some(t) ==> t < trials[selected[i].atom as int]@.len()
        }
    &&& forall|i: int, j: int|
        0 <= i < j < selected.len() ==> (#[trigger] selected[i]).atom != (
        #[trigger] selected[j]).atom
}

proof fn lemma_best_trial<S: Scalar>(row: Seq<S>, trials: Seq<Trial<S>>, n: int)
    requires
        0 <= n <= trials.len() <= usize::MAX,
    ensures
        best_trial(row, trials, n).1 matches Some(t) ==> t < n,
    decreases n,
{
    if n > 0 {
        lemma_best_trial(row, trials, n - 1);
    }
}

proof fn lemma_worst_of<S: Scalar>(selected: Seq<Candidate<S>>, n: int)
    requires
        1 <= n <= selected.len(),
    ensures
        0 <= worst_of(selected, n) < n,
    decreases n,
{
    if n > 1 {
        lemma_worst_of(selected, n - 1);
    }
}

/// The kept candidates name distinct atoms, and there are as many as there are
/// atoms to choose from, up to `k`.
pub proof fn law_kept_candidates_are_distinct<S: Scalar>(
    row: Seq<S>,
    trials: Seq<Vec<Trial<S>>>,
    fallbacks: Seq<Trial<S>>,
    charges: Seq<S>,
    k: nat,
    n: int,
)
    requires
        0 <= n <= trials.len() <= usize::MAX,
        forall|a: int| 0 <= a < trials.len() ==> (#[trigger] trials[a])@.len() <= usize::MAX,
    ensures
        are_candidates(keep_best(row, trials, fallbacks, charges, k, n), trials, n),
        keep_best(row, trials, fallbacks, charges, k, n).len() == (if n < k {
            n as nat
        } else {
            k
        }),
    decreases n,
{
    if n > 0 {
        law_kept_candidates_are_distinct(row, trials, fallbacks, charges, k, n - 1);
        let before = keep_best(row, trials, fallbacks, charges, k, n - 1);
        let after = keep_best(row, trials, fallbacks, charges, k, n);
        assert(trials[n - 1]@.len() <= usize::MAX);
        lemma_best_trial(row, trials[n - 1]@, trials[n - 1]@.len() as int);
        if before.len() >= k && k > 0 {
            lemma_worst_of(before, before.len() as int);
        }
        assert forall|i: int| 0 <= i < after.len() implies {
            &&& (#[trigger] after[i]).atom < n
            &&& after[i].trial matches Some(t) ==> t < trials[after[i].atom as int]@.len()
        } by {
            if i < before.len() && after[i] == before[i] {
                assert(before[i].atom < n - 1);
            }
        }
        assert forall|i: int, j: int| 0 <= i < j < after.len() implies (#[trigger] after[i]).atom
            != (#[trigger] after[j]).atom by {
            if i < before.len() {
                assert(before[i].atom < n - 1);
            }
            if j < before.len() {
                assert(before[j].atom < n - 1);
                assert(before[i].atom != before[j].atom);
            }
        }
    }
}

proof fn lemma_worth_keeping<S: Scalar>(
    selected: Seq<Candidate<S>>,
    best: S,
    trials: Seq<Vec<Trial<S>>>,
    limit: int,
    n: int,
)
    requires
        0 <= n <= selected.len(),
        are_candidates(selected, trials, limit),
    ensures
        are_candidates(worth_keeping(selected, best, n), trials, limit),
        forall|i: int|
            0 <= i < worth_keeping(selected, best, n).len() ==> exists|j: int|
                0 <= j < n && #[trigger] selected[j] == #[trigger] worth_keeping(
                    selected,
                    best,
                    n,
                )[i],
        worth_keeping(selected, best, n).len() <= n,
    decreases n,
{
    if n > 0 {
        lemma_worth_keeping(selected, best, trials, limit, n - 1);
        let rest = worth_keeping(selected, best, n - 1);
        let all = worth_keeping(selected, best, n);
        assert(selected[n - 1].atom < limit);
        assert forall|i: int| 0 <= i < all.len() implies exists|j: int|
            0 <= j < n && #[trigger] selected[j] == #[trigger] all[i] by {
            if i < rest.len() {
                assert(all[i] == rest[i]);
                let j = choose|j: int| 0 <= j < n - 1 && #[trigger] selected[j] == rest[i];
                assert(selected[j] == all[i]);
            } else {
                assert(selected[n - 1] == all[i]);
            }
        }
        assert forall|i: int, j: int| 0 <= i < j < all.len() implies (#[trigger] all[i]).atom != (
        #[trigger] all[j]).atom by {
            assert(all[i] == rest[i]);
            if j == rest.len() {
                let x = choose|x: int| 0 <= x < n - 1 && #[trigger] selected[x] == rest[i];
                assert(selected[x].atom != selected[n - 1].atom);
            } else {
                assert(all[j] == rest[j]);
            }
        }
        assert forall|i: int| 0 <= i < all.len() implies {
            &&& (#[trigger] all[i]).atom < limit
            &&& all[i].trial matches Some(t) ==> t < trials[all[i].atom as int]@.len()
        } by {
            if i < rest.len() {
                assert(rest[i].atom < limit);
            }
        }
    }
}

/// A row's support names distinct atoms, at most `k` of them.
pub proof fn law_support_is_distinct<S: Scalar>(
    row: Seq<S>,
    trials: Seq<Vec<Trial<S>>>,
    fallbacks: Seq<Trial<S>>,
    charges: Seq<S>,
    k: nat,
    only_paying: bool,
)
    requires
        trials.len() <= usize::MAX,
        forall|a: int| 0 <= a < trials.len() ==> (#[trigger] trials[a])@.len() <= usize::MAX,
    ensures
        are_candidates(
            support_of(row, trials, fallbacks, charges, k, only_paying),
            trials,
            trials.len() as int,
        ),
        support_of(row, trials, fallbacks, charges, k, only_paying).len() <= k,
{
    let n = trials.len() as int;
    law_kept_candidates_are_distinct(row, trials, fallbacks, charges, k, n);
    let selected = keep_best(row, trials, fallbacks, charges, k, n);
    if only_paying && selected.len() > 1 {
        lemma_worth_keeping(selected, top_score(selected), trials, n, selected.len() as int);
    }
}

/// Every atom's score is finite.
pub open spec fn scores_are_finite<S: Scalar>(
    row: Seq<S>,
    trials: Seq<Vec<Trial<S>>>,
    fallbacks: Seq<Trial<S>>,
    charges: Seq<S>,
) -> bool {
    forall|a: int|
        0 <= a < trials.len() ==> (#[trigger] candidate_of(
            row,
            trials,
            fallbacks,
            charges,
            a,
        )).score.s_finite()
}

/// Scores are ordered by `below`, and two are the same where neither is below the
/// other.
pub open spec fn orders_scores<S: Scalar>() -> bool {
    &&& orders_finite::<S>()
    &&& forall|x: S, y: S|
        x.s_finite() && y.s_finite() ==> (#[trigger] x.s_same(y) <==> !x.s_below(y)
            && !y.s_below(x))
}

/// Of two candidates with finite scores and different atoms one is better; and
/// what is better than a better one is better.
proof fn lemma_better_orders<S: Scalar>(x: Candidate<S>, y: Candidate<S>, z: Candidate<S>)
    requires
        orders_scores::<S>(),
        x.score.s_finite(),
        y.score.s_finite(),
        z.score.s_finite(),
    ensures
        !(s_better(x, y) && s_better(y, x)),
        !s_better(x, y) && !s_better(y, z) ==> !s_better(x, z),
{
    let a = x.score;
    let b = y.score;
    let c = z.score;
    assert(!a.s_below(a) && !b.s_below(b) && !c.s_below(c));
    if a.s_below(b) && b.s_below(a) {
        assert(a.s_below(a));
    }
    if !s_better(x, y) && !s_better(y, z) && s_better(x, z) {
        assert(!b.s_below(a));
        assert(!c.s_below(b));
        if c.s_below(a) {
            assert(!c.s_below(b) && !b.s_below(a));
            assert(!c.s_below(a));
        } else {
            assert(a.s_same(c));
            assert(!a.s_below(c));
            if a.s_below(b) {
                assert(!a.s_below(c) && !c.s_below(b));
                assert(!a.s_below(b));
            }
            assert(a.s_same(b));
            if b.s_below(c) {
                assert(!b.s_below(a) && !a.s_below(c));
                assert(!b.s_below(c));
            }
            assert(b.s_same(c));
        }
    }
}

/// The candidate in the worst place is better than no other.
proof fn lemma_worst_is_worst<S: Scalar>(selected: Seq<Candidate<S>>, n: int, i: int)
    requires
        orders_scores::<S>(),
        0 <= i < n <= selected.len(),
        forall|j: int| 0 <= j < n ==> (#[trigger] selected[j]).score.s_finite(),
    ensures
        0 <= worst_of(selected, n) < n,
        !s_better(selected[worst_of(selected, n)], selected[i]),
    decreases n,
{
    lemma_worst_of(selected, n);
    if n > 1 {
        let before = worst_of(selected, n - 1);
        lemma_worst_of(selected, n - 1);
        let worst = worst_of(selected, n);
        assert(selected[before].score.s_finite());
        assert(selected[n - 1].score.s_finite());
        assert(selected[i].score.s_finite());
        lemma_better_orders(selected[before], selected[n - 1], selected[before]);
        lemma_better_orders(selected[n - 1], selected[before], selected[i]);
        lemma_better_orders(selected[worst], selected[worst], selected[worst]);
        if i < n - 1 {
            lemma_worst_is_worst(selected, n - 1, i);
        }
    } else {
        assert(selected[i].score.s_finite());
        lemma_better_orders(selected[i], selected[i], selected[i]);
    }
}

/// The best are kept: no atom that is left out is better than one that is kept.
pub proof fn law_no_better_atom_is_left_out<S: Scalar>(
    row: Seq<S>,
    trials: Seq<Vec<Trial<S>>>,
    fallbacks: Seq<Trial<S>>,
    charges: Seq<S>,
    k: nat,
    n: int,
)
    requires
        orders_scores::<S>(),
        0 <= n <= trials.len() <= usize::MAX,
        scores_are_finite(row, trials, fallbacks, charges),
    ensures
        ({
            let kept = keep_best(row, trials, fallbacks, charges, k, n);
            &&& forall|i: int|
                0 <= i < kept.len() ==> {
                    &&& (#[trigger] kept[i]).atom < n
                    &&& kept[i] == candidate_of(
                        row,
                        trials,
                        fallbacks,
                        charges,
                        kept[i].atom as int,
                    )
                }
            &&& forall|a: int, i: int|
                0 <= a < n && !has_atom(kept, a) && 0 <= i < kept.len() ==> !s_better(
                    #[trigger] candidate_of(row, trials, fallbacks, charges, a),
                    #[trigger] kept[i],
                )
        }),
    decreases n,
{
    if n > 0 {
        law_no_better_atom_is_left_out(row, trials, fallbacks, charges, k, n - 1);
        assert forall|a: int| 0 <= a < trials.len() implies (#[trigger] trials[a])@.len()
            <= usize::MAX by {
            assert(trials[a].len() == trials[a]@.len());
        }
        law_kept_candidates_are_distinct(row, trials, fallbacks, charges, k, n - 1);
        let before = keep_best(row, trials, fallbacks, charges, k, n - 1);
        let kept = keep_best(row, trials, fallbacks, charges, k, n);
        let next = candidate_of(row, trials, fallbacks, charges, n - 1);
        assert forall|j: int| 0 <= j < before.len() implies (
        #[trigger] before[j]).score.s_finite() by {
            assert(candidate_of(
                row,
                trials,
                fallbacks,
                charges,
                before[j].atom as int,
            ).score.s_finite());
        }
        assert(next.score.s_finite());
        let len = before.len() as int;
        if len >= k && k > 0 {
            lemma_worst_of(before, len);
        }
        let worst = worst_of(before, len);
        assert forall|a: int, i: int|
            0 <= a < n && !has_atom(kept, a) && 0 <= i < kept.len() implies !s_better(
            #[trigger] candidate_of(row, trials, fallbacks, charges, a),
            #[trigger] kept[i],
        ) by {
            let out = candidate_of(row, trials, fallbacks, charges, a);
            assert(out.score.s_finite());
            if len < k {
                assert(kept[len] == next);
                if a < n - 1 {
                    if has_atom(before, a) {
                        let j = choose|j: int|
                            0 <= j < before.len() && (#[trigger] before[j]).atom == a;
                        assert(kept[j].atom == a);
                    }
                    assert(len == n - 1);
                    lemma_all_kept(row, trials, fallbacks, charges, k, n - 1, a);
                }
            } else if k > 0 && s_better(next, before[worst]) {
                assert(kept[worst] == next);
                // What was kept before is, but for the worst, kept still.
                let target = kept[i];
                if a == n - 1 {
                    assert(has_atom(kept, a));
                } else if has_atom(before, a) {
                    let j = choose|j: int|
                        0 <= j < before.len() && (#[trigger] before[j]).atom == a;
                    if j != worst {
                        assert(kept[j].atom == a);
                    }
                    assert(out == before[worst]);
                    lemma_better_orders(next, before[worst], before[worst]);
                    if i != worst {
                        lemma_worst_is_worst(before, len, i);
                    }
                } else {
                    assert(!s_better(out, before[worst]));
                    if i == worst {
                        lemma_better_orders(next, before[worst], before[worst]);
                        lemma_better_orders(out, before[worst], next);
                    } else {
                        assert(!s_better(out, before[i]));
                    }
                }
            } else if k > 0 {
                if a == n - 1 {
                    lemma_worst_is_worst(before, len, i);
                    lemma_better_orders(next, before[worst], before[i]);
                }
            }
        }
    }
}

/// While there is room every atom is kept.
proof fn lemma_all_kept<S: Scalar>(
    row: Seq<S>,
    trials: Seq<Vec<Trial<S>>>,
    fallbacks: Seq<Trial<S>>,
    charges: Seq<S>,
    k: nat,
    n: int,
    a: int,
)
    requires
        0 <= a < n <= k,
        n <= trials.len() <= usize::MAX,
    ensures
        has_atom(keep_best(row, trials, fallbacks, charges, k, n), a),
        keep_best(row, trials, fallbacks, charges, k, n).len() == n,
    decreases n,
{
    assert forall|b: int| 0 <= b < trials.len() implies (#[trigger] trials[b])@.len()
        <= usize::MAX by {
        assert(trials[b].len() == trials[b]@.len());
    }
    law_kept_candidates_are_distinct(row, trials, fallbacks, charges, k, n);
    law_kept_candidates_are_distinct(row, trials, fallbacks, charges, k, n - 1);
    let before = keep_best(row, trials, fallbacks, charges, k, n - 1);
    let kept = keep_best(row, trials, fallbacks, charges, k, n);
    assert(before.len() == n - 1);
    if a == n - 1 {
        assert(kept[n - 1].atom == a);
    } else {
        lemma_all_kept(row, trials, fallbacks, charges, k, n - 1, a);
        let j = choose|j: int| 0 <= j < before.len() && (#[trigger] before[j]).atom == a;
        assert(kept[j].atom == a);
    }
}

/// Subtracting a charge rounds no two scores together.
pub open spec fn keeps_scores_apart<S: Scalar>(charge: S, x: S, y: S) -> bool {
    &&& x.s_minus(charge).s_below(y.s_minus(charge)) == x.s_below(y)
    &&& x.s_minus(charge).s_same(y.s_minus(charge)) == x.s_same(y)
}

/// Atom `a`'s score before its admission charge.
pub open spec fn raw_score<S: Scalar>(
    row: Seq<S>,
    trials: Seq<Vec<Trial<S>>>,
    fallbacks: Seq<Trial<S>>,
    a: int,
) -> S {
    s_trial_score(
        row,
        chosen(
            trials[a]@,
            fallbacks[a],
            best_trial(row, trials[a]@, trials[a]@.len() as int).1,
        ),
    )
}

/// On this row a charge rounds no two atoms' scores together.
pub open spec fn charge_keeps_scores<S: Scalar>(
    row: Seq<S>,
    trials: Seq<Vec<Trial<S>>>,
    fallbacks: Seq<Trial<S>>,
    charge: S,
) -> bool {
    forall|a: int, b: int|
        0 <= a < trials.len() && 0 <= b < trials.len() ==> keeps_scores_apart(
            charge,
            #[trigger] raw_score(row, trials, fallbacks, a),
            #[trigger] raw_score(row, trials, fallbacks, b),
        )
}

/// Two lists of candidates name the same atoms at the same trials, in the same
/// order.
pub open spec fn same_candidates<S>(left: Seq<Candidate<S>>, right: Seq<Candidate<S>>) -> bool {
    &&& left.len() == right.len()
    &&& forall|i: int|
        0 <= i < left.len() ==> (#[trigger] left[i]).atom == right[i].atom && left[i].trial
            == right[i].trial
}

/// The candidates' scores are their atoms' own, after the charge.
pub open spec fn scored_with<S: Scalar>(
    selected: Seq<Candidate<S>>,
    row: Seq<S>,
    trials: Seq<Vec<Trial<S>>>,
    fallbacks: Seq<Trial<S>>,
    charge: S,
) -> bool {
    forall|i: int|
        0 <= i < selected.len() ==> {
            &&& (#[trigger] selected[i]).atom < trials.len()
            &&& selected[i].score == raw_score(
                row,
                trials,
                fallbacks,
                selected[i].atom as int,
            ).s_minus(charge)
        }
}

proof fn lemma_same_worst<S: Scalar>(
    left: Seq<Candidate<S>>,
    right: Seq<Candidate<S>>,
    row: Seq<S>,
    trials: Seq<Vec<Trial<S>>>,
    fallbacks: Seq<Trial<S>>,
    charge: S,
    other: S,
    n: int,
)
    requires
        same_candidates(left, right),
        scored_with(left, row, trials, fallbacks, charge),
        scored_with(right, row, trials, fallbacks, other),
        charge_keeps_scores(row, trials, fallbacks, charge),
        charge_keeps_scores(row, trials, fallbacks, other),
        1 <= n <= left.len(),
    ensures
        worst_of(left, n) == worst_of(right, n),
    decreases n,
{
    if n > 1 {
        lemma_same_worst(left, right, row, trials, fallbacks, charge, other, n - 1);
        lemma_worst_of(left, n - 1);
        let w = worst_of(left, n - 1);
        lemma_same_better(
            left[w],
            left[n - 1],
            right[w],
            right[n - 1],
            row,
            trials,
            fallbacks,
            charge,
            other,
        );
    }
}

proof fn lemma_same_better<S: Scalar>(
    x: Candidate<S>,
    y: Candidate<S>,
    u: Candidate<S>,
    v: Candidate<S>,
    row: Seq<S>,
    trials: Seq<Vec<Trial<S>>>,
    fallbacks: Seq<Trial<S>>,
    charge: S,
    other: S,
)
    requires
        x.atom == u.atom,
        y.atom == v.atom,
        x.atom < trials.len(),
        y.atom < trials.len(),
        x.score == raw_score(row, trials, fallbacks, x.atom as int).s_minus(charge),
        y.score == raw_score(row, trials, fallbacks, y.atom as int).s_minus(charge),
        u.score == raw_score(row, trials, fallbacks, x.atom as int).s_minus(other),
        v.score == raw_score(row, trials, fallbacks, y.atom as int).s_minus(other),
        charge_keeps_scores(row, trials, fallbacks, charge),
        charge_keeps_scores(row, trials, fallbacks, other),
    ensures
        s_better(x, y) == s_better(u, v),
{
    let p = raw_score(row, trials, fallbacks, x.atom as int);
    let q = raw_score(row, trials, fallbacks, y.atom as int);
    assert(keeps_scores_apart(charge, q, p));
    assert(keeps_scores_apart(other, q, p));
    assert(keeps_scores_apart(charge, p, q));
    assert(keeps_scores_apart(other, p, q));
}

/// A charge that is the same for every atom reorders nothing: with one common
/// charge or another, none among them, the same atoms are kept at the same trials.
/// It holds as far as subtracting the charge rounds no two scores together.
pub proof fn law_a_common_charge_keeps_the_candidates<S: Scalar>(
    row: Seq<S>,
    trials: Seq<Vec<Trial<S>>>,
    fallbacks: Seq<Trial<S>>,
    left: Seq<S>,
    right: Seq<S>,
    charge: S,
    other: S,
    k: nat,
    n: int,
)
    requires
        0 <= n <= trials.len() <= usize::MAX,
        forall|a: int| 0 <= a < trials.len() ==> #[trigger] left[a] == charge,
        forall|a: int| 0 <= a < trials.len() ==> #[trigger] right[a] == other,
        charge_keeps_scores(row, trials, fallbacks, charge),
        charge_keeps_scores(row, trials, fallbacks, other),
    ensures
        same_candidates(
            keep_best(row, trials, fallbacks, left, k, n),
            keep_best(row, trials, fallbacks, right, k, n),
        ),
        scored_with(
            keep_best(row, trials, fallbacks, left, k, n),
            row,
            trials,
            fallbacks,
            charge,
        ),
        scored_with(
            keep_best(row, trials, fallbacks, right, k, n),
            row,
            trials,
            fallbacks,
            other,
        ),
    decreases n,
{
    if n > 0 {
        law_a_common_charge_keeps_the_candidates(
            row,
            trials,
            fallbacks,
            left,
            right,
            charge,
            other,
            k,
            n - 1,
        );
        let x = keep_best(row, trials, fallbacks, left, k, n - 1);
        let y = keep_best(row, trials, fallbacks, right, k, n - 1);
        let p = candidate_of(row, trials, fallbacks, left, n - 1);
        let q = candidate_of(row, trials, fallbacks, right, n - 1);
        assert(left[n - 1] == charge);
        assert(right[n - 1] == other);
        if x.len() >= k && k > 0 {
            lemma_same_worst(
                x,
                y,
                row,
                trials,
                fallbacks,
                charge,
                other,
                x.len() as int,
            );
            lemma_worst_of(x, x.len() as int);
            let w = worst_of(x, x.len() as int);
            lemma_same_better(p, x[w], q, y[w], row, trials, fallbacks, charge, other);
        }
    }
}

proof fn lemma_same_by_atom<S>(left: Seq<Candidate<S>>, right: Seq<Candidate<S>>, n: int)
    requires
        same_candidates(left, right),
        forall|i: int, j: int|
            0 <= i < j < left.len() ==> (#[trigger] left[i]).atom != (#[trigger] left[j]).atom,
    ensures
        same_candidates(by_atom(left, n), by_atom(right, n)),
    decreases n,
{
    if n > 0 {
        lemma_same_by_atom(left, right, n - 1);
        let a = n - 1;
        if has_atom(left, a) {
            let i = choose|i: int| 0 <= i < left.len() && (#[trigger] left[i]).atom == a;
            assert(right[i].atom == a);
            assert(has_atom(right, a));
            let j = choose|j: int| 0 <= j < right.len() && (#[trigger] right[j]).atom == a;
            assert(left[j].atom == right[j].atom);
            assert(i == j);
        } else if has_atom(right, a) {
            let j = choose|j: int| 0 <= j < right.len() && (#[trigger] right[j]).atom == a;
            assert(left[j].atom == a);
        }
    }
}

/// A row's support is the same, atom by atom and trial by trial, under any charge
/// that all atoms share, where every place of it is filled.
pub proof fn law_a_common_charge_keeps_the_support<S: Scalar>(
    row: Seq<S>,
    trials: Seq<Vec<Trial<S>>>,
    fallbacks: Seq<Trial<S>>,
    left: Seq<S>,
    right: Seq<S>,
    charge: S,
    other: S,
    k: nat,
)
    requires
        trials.len() <= usize::MAX,
        forall|a: int| 0 <= a < trials.len() ==> #[trigger] left[a] == charge,
        forall|a: int| 0 <= a < trials.len() ==> #[trigger] right[a] == other,
        charge_keeps_scores(row, trials, fallbacks, charge),
        charge_keeps_scores(row, trials, fallbacks, other),
    ensures
        same_candidates(
            by_atom(
                support_of(row, trials, fallbacks, left, k, false),
                trials.len() as int,
            ),
            by_atom(
                support_of(row, trials, fallbacks, right, k, false),
                trials.len() as int,
            ),
        ),
{
    let n = trials.len() as int;
    law_a_common_charge_keeps_the_candidates(
        row,
        trials,
        fallbacks,
        left,
        right,
        charge,
        other,
        k,
        n,
    );
    assert forall|a: int| 0 <= a < trials.len() implies (#[trigger] trials[a])@.len()
        <= usize::MAX by {
        assert(trials[a].len() == trials[a]@.len());
    }
    law_kept_candidates_are_distinct(row, trials, fallbacks, left, k, n);
    lemma_same_by_atom(
        keep_best(row, trials, fallbacks, left, k, n),
        keep_best(row, trials, fallbacks, right, k, n),
        n,
    );
}

fn pick_trial<S: Scalar>(row: &Vec<S>, trials: &Vec<Trial<S>>) -> (r: Option<usize>)
    requires
        forall|i: int| 0 <= i < trials@.len() ==> (#[trigger] trials@[i]).image@.len() == row@.len(),
    ensures
        r == best_trial(row@, trials@, trials@.len() as int).1,
        r matches Some(t) ==> t < trials@.len(),
{
    let mut best: S = S::infinity().negate();
    let mut choice: Option<usize> = None;
    for i in 0..trials.len()
        invariant
            forall|i: int|
                0 <= i < trials@.len() ==> (#[trigger] trials@[i]).image@.len() == row@.len(),
            (best, choice) == best_trial(row@, trials@, i as int),
    {
        let score: S = trial_score(row, &trials[i]);
        if best.below(score) {
            best = score;
            choice = Some(i);
        }
    }
    proof {
        lemma_best_trial(row@, trials@, trials@.len() as int);
    }
    choice
}

/// The support of one row, in atom order.
pub fn select_row<S: Scalar>(
    row: &Vec<S>,
    trials: &Vec<Vec<Trial<S>>>,
    fallbacks: &Vec<Trial<S>>,
    charges: &Vec<S>,
    k: usize,
    only_paying: bool,
) -> (r: Vec<Candidate<S>>)
    requires
        trials@.len() == fallbacks@.len(),
        trials@.len() == charges@.len(),
        forall|a: int, i: int|
            0 <= a < trials@.len() && 0 <= i < trials@[a]@.len() ==> (
            #[trigger] trials@[a]@[i]).image@.len() == row@.len(),
        forall|a: int|
            0 <= a < fallbacks@.len() ==> (#[trigger] fallbacks@[a]).image@.len() == row@.len(),
    ensures
        r@ == by_atom(
            support_of(row@, trials@, fallbacks@, charges@, k as nat, only_paying),
            trials@.len() as int,
        ),
{
    let n: usize = trials.len();
    proof {
        assert forall|a: int| 0 <= a < trials@.len() implies (#[trigger] trials@[a])@.len()
            <= usize::MAX by {
            assert(trials@[a].len() == trials@[a]@.len());
        }
    }
    let mut selected: Vec<Candidate<S>> = Vec::new();
    for a in 0..n
        invariant
            n == trials@.len(),
            n == fallbacks@.len(),
            n == charges@.len(),
            forall|a: int, i: int|
                0 <= a < trials@.len() && 0 <= i < trials@[a]@.len() ==> (
                #[trigger] trials@[a]@[i]).image@.len() == row@.len(),
            forall|a: int|
                0 <= a < fallbacks@.len() ==> (#[trigger] fallbacks@[a]).image@.len()
                    == row@.len(),
            forall|a: int| 0 <= a < trials@.len() ==> (#[trigger] trials@[a])@.len() <= usize::MAX,
            selected@ == keep_best(
                row@,
                trials@,
                fallbacks@,
                charges@,
                k as nat,
                a as int,
            ),
    {
        let choice: Option<usize> = pick_trial(row, &trials[a]);
        let point: &Trial<S> = match choice {
            Some(i) => &trials[a][i],
            None => &fallbacks[a],
        };
        let next = Candidate {
            atom: a,
            score: trial_score(row, point).minus(charges[a]),
            trial: choice,
        };
        proof {
            law_kept_candidates_are_distinct(
                row@,
                trials@,
                fallbacks@,
                charges@,
                k as nat,
                a as int,
            );
        }
        if selected.len() < k {
            selected.push(next);
        } else if k > 0 {
            let worst: usize = worst_place(&selected);
            if better(next, selected[worst]) {
                selected.set(worst, next);
            }
        }
    }
    proof {
        law_kept_candidates_are_distinct(
            row@,
            trials@,
            fallbacks@,
            charges@,
            k as nat,
            n as int,
        );
        law_support_is_distinct(row@, trials@, fallbacks@, charges@, k as nat, only_paying);
    }
    if only_paying && selected.len() > 1 {
        let best: S = best_score(&selected);
        let mut kept: Vec<Candidate<S>> = Vec::new();
        for i in 0..selected.len()
            invariant
                kept@ == worth_keeping(selected@, best, i as int),
        {
            let last: Candidate<S> = selected[i];
            if S::zero().below(last.score) || last.score.same(best) {
                kept.push(last);
            }
        }
        sort_candidates(&kept, n, Ghost(trials@))
    } else {
        sort_candidates(&selected, n, Ghost(trials@))
    }
}

fn worst_place<S: Scalar>(selected: &Vec<Candidate<S>>) -> (r: usize)
    requires
        selected@.len() > 0,
    ensures
        r == worst_of(selected@, selected@.len() as int),
        r < selected@.len(),
{
    let mut worst: usize = 0;
    for slot in 1..selected.len()
        invariant
            selected@.len() > 0,
            worst < slot,
            worst == worst_of(selected@, slot as int),
    {
        if better(selected[worst], selected[slot]) {
            worst = slot;
        }
    }
    worst
}

fn best_score<S: Scalar>(selected: &Vec<Candidate<S>>) -> (r: S)
    ensures
        r == top_score(selected@),
{
    let mut best: S = S::infinity().negate();
    let ghost f = |i: int| selected@[i].score;
    for i in 0..selected.len()
        invariant
            f == (|i: int| selected@[i].score),
            best == s_max(S::s_infinity().s_negate(), i as int, f),
    {
        best = best.larger(selected[i].score);
    }
    best
}

fn sort_candidates<S: Scalar>(
    selected: &Vec<Candidate<S>>,
    n: usize,
    Ghost(trials): Ghost<Seq<Vec<Trial<S>>>>,
) -> (r: Vec<Candidate<S>>)
    requires
        are_candidates(selected@, trials, n as int),
    ensures
        r@ == by_atom(selected@, n as int),
{
    let mut slots: Vec<Option<Candidate<S>>> = Vec::new();
    for a in 0..n
        invariant
            slots@.len() == a,
            forall|b: int| 0 <= b < a ==> #[trigger] slots@[b] is None,
    {
        slots.push(None);
    }
    for i in 0..selected.len()
        invariant
            slots@.len() == n,
            are_candidates(selected@, trials, n as int),
            forall|j: int|
                0 <= j < i ==> slots@[(#[trigger] selected@[j]).atom as int] == Some(selected@[j]),
            forall|a: int|
                0 <= a < n && (#[trigger] slots@[a]) is Some ==> exists|j: int|
                    0 <= j < i && (#[trigger] selected@[j]).atom == a,
    {
        let entry: Candidate<S> = selected[i];
        let ghost before = slots@;
        slots.set(entry.atom, Some(entry));
        assert forall|a: int| 0 <= a < n && (#[trigger] slots@[a]) is Some implies exists|j: int|
            0 <= j < i + 1 && (#[trigger] selected@[j]).atom == a by {
            if a == entry.atom {
                assert(selected@[i as int].atom == a);
            } else {
                assert(before[a] is Some);
            }
        }
    }
    let mut out: Vec<Candidate<S>> = Vec::new();
    for a in 0..n
        invariant
            slots@.len() == n,
            are_candidates(selected@, trials, n as int),
            forall|j: int|
                0 <= j < selected@.len() ==> slots@[(#[trigger] selected@[j]).atom as int] == Some(
                    selected@[j],
                ),
            forall|b: int|
                0 <= b < n && (#[trigger] slots@[b]) is Some ==> exists|j: int|
                    0 <= j < selected@.len() && (#[trigger] selected@[j]).atom == b,
            out@ == by_atom(selected@, a as int),
    {
        match slots[a] {
            Some(entry) => {
                proof {
                    assert(slots@[a as int] is Some);
                    assert(has_atom(selected@, a as int));
                    let i = choose|i: int|
                        0 <= i < selected@.len() && (#[trigger] selected@[i]).atom == a;
                    assert(slots@[selected@[i].atom as int] == Some(selected@[i]));
                }
                out.push(entry);
            },
            None => {
                proof {
                    if has_atom(selected@, a as int) {
                        let i = choose|i: int|
                            0 <= i < selected@.len() && (#[trigger] selected@[i]).atom == a;
                        assert(slots@[selected@[i].atom as int] == Some(selected@[i]));
                    }
                }
            },
        }
    }
    out
}

/// In atom order the atoms increase, and each entry is one of the candidates.
pub proof fn lemma_by_atom<S>(
    selected: Seq<Candidate<S>>,
    trials: Seq<Vec<Trial<S>>>,
    limit: int,
    n: int,
)
    requires
        0 <= n <= usize::MAX,
        are_candidates(selected, trials, limit),
    ensures
        forall|i: int|
            0 <= i < by_atom(selected, n).len() ==> {
                let entry = #[trigger] by_atom(selected, n)[i];
                &&& entry.atom < n
                &&& has_atom(selected, entry.atom as int)
                &&& entry.atom < limit
                &&& entry.trial matches Some(t) ==> t < trials[entry.atom as int]@.len()
            },
        forall|i: int, j: int|
            0 <= i < j < by_atom(selected, n).len() ==> (#[trigger] by_atom(selected, n)[i]).atom
                < (#[trigger] by_atom(selected, n)[j]).atom,
    decreases n,
{
    if n > 0 {
        lemma_by_atom(selected, trials, limit, n - 1);
        if has_atom(selected, n - 1) {
            let i = choose|i: int| 0 <= i < selected.len() && (#[trigger] selected[i]).atom == n - 1;
            assert(selected[i].atom == n - 1);
        }
    }
}

} // verus!
