//! Pooled strengths and extrapolated limits, in exact arithmetic.
use crate::exact::{
    is_exact, lemma_over, lemma_product_not_negative, lemma_product_positive,
    lemma_total_not_negative, larger, magnitude, total,
};
use crate::pooling::{s_aitken_limit, PooledScale};
use crate::scalar::Scalar;
use crate::term::SaeSupportSparseTerm;
use crate::updates::lemma_over_positive;
use vstd::prelude::*;

verus! {

/// An atom speaks to its family's shared scale: rows use it, it is in the family, and
/// it has degrees of freedom.
pub open spec fn speaks<S: Scalar>(
    v: spec_fn(S) -> real,
    term: &SaeSupportSparseTerm<S>,
    freedoms: Seq<S>,
    periodic: bool,
    a: int,
) -> bool {
    &&& term.uses()[a].len() > 0
    &&& term.is_periodic_atom(a) == periodic
    &&& v(freedoms[a]) > 0 as real
}

/// `value` summed over the atoms among the first `n` that speak to a family's scale.
pub open spec fn over_speakers<S: Scalar>(
    v: spec_fn(S) -> real,
    term: &SaeSupportSparseTerm<S>,
    freedoms: Seq<S>,
    periodic: bool,
    n: int,
    value: spec_fn(int) -> real,
) -> real {
    total(
        n,
        |a: int|
            if speaks(v, term, freedoms, periodic, a) {
                value(a)
            } else {
                0 as real
            },
    )
}

proof fn lemma_pool_sums<S: Scalar>(
    v: spec_fn(S) -> real,
    term: &SaeSupportSparseTerm<S>,
    freedoms: Seq<S>,
    logs: Seq<S>,
    periodic: bool,
    n: int,
)
    requires
        is_exact(v),
        0 <= n,
    ensures
        ({
            let sums = term.pool_sums(freedoms, logs, periodic, n);
            &&& sums.atoms as real == over_speakers(
                v,
                term,
                freedoms,
                periodic,
                n,
                |a: int| 1 as real,
            )
            &&& v(sums.weight) == over_speakers(
                v,
                term,
                freedoms,
                periodic,
                n,
                |a: int| v(freedoms[a]),
            )
            &&& v(sums.weighted_log) == over_speakers(
                v,
                term,
                freedoms,
                periodic,
                n,
                |a: int| v(freedoms[a]) * v(logs[a]),
            )
            &&& v(sums.weight) > 0 as real <==> sums.atoms > 0
        }),
    decreases n,
{
    if n > 0 {
        lemma_pool_sums(v, term, freedoms, logs, periodic, n - 1);
        let x = v(freedoms[n - 1]);
        let y = v(logs[n - 1]);
        assert(y * x == x * y) by (nonlinear_arith);
        assert(term.contributes(freedoms, logs, periodic, n - 1) == speaks(
            v,
            term,
            freedoms,
            periodic,
            n - 1,
        ));
        let weight = |a: int| v(freedoms[a]);
        let f = |a: int|
            if speaks(v, term, freedoms, periodic, a) {
                weight(a)
            } else {
                0 as real
            };
        assert(over_speakers(v, term, freedoms, periodic, n - 1, weight) == total(n - 1, f));
        lemma_total_not_negative(n - 1, f);
    }
}

/// An average of two numbers by weights.
proof fn lemma_average(own: real, mean: real, x: real, y: real)
    requires
        own >= 0 as real,
        mean > 0 as real,
    ensures
        ({
            let w = own / (own + mean);
            &&& (w * x + (1 as real - w) * y) * (own + mean) == own * x + mean * y
            &&& w > 0 as real <==> own > 0 as real
            &&& own == 0 as real ==> y * (own + mean) == own * x + mean * y
        }),
{
    let all = own + mean;
    let w = own / all;
    lemma_over(own, all);
    let wx = w * x;
    let uy = (1 as real - w) * y;
    assert((wx + uy) * all == wx * all + uy * all) by (nonlinear_arith);
    assert((w * x) * all == (w * all) * x) by (nonlinear_arith);
    assert(((1 as real - w) * y) * all == all * y - (w * all) * y) by (nonlinear_arith);
    assert((own + mean) * y == own * y + mean * y) by (nonlinear_arith);
    if own > 0 as real {
        lemma_over_positive(own, all);
    } else {
        crate::exact::lemma_zero_product(w, all);
        assert((0 as real) * x == 0 as real) by (nonlinear_arith);
        assert(y * mean == mean * y) by (nonlinear_arith);
    }
}

/// A pooled logarithm is the atom's own one, weighted by its degrees of freedom, and the
/// family's shared one, weighted by the average degrees of freedom of the atoms that
/// speak to it. The shared one is their logarithms' average by degrees of freedom. An
/// atom that no row uses, or one of a family that nothing speaks to, keeps its strength;
/// one without degrees of freedom of its own takes the shared scale.
pub proof fn law_a_pooled_strength_is_a_weighted_average<S: Scalar>(
    v: spec_fn(S) -> real,
    term: &SaeSupportSparseTerm<S>,
    strengths: Seq<S>,
    freedoms: Seq<S>,
    logs: Seq<S>,
    a: int,
)
    requires
        is_exact(v),
        0 <= a < term.k(),
    ensures
        ({
            let k = term.k() as int;
            let periodic = term.is_periodic_atom(a);
            let atoms = over_speakers(v, term, freedoms, periodic, k, |a: int| 1 as real);
            let weight = over_speakers(v, term, freedoms, periodic, k, |a: int| v(freedoms[a]));
            let weighted = over_speakers(
                v,
                term,
                freedoms,
                periodic,
                k,
                |a: int| v(freedoms[a]) * v(logs[a]),
            );
            let shared = weighted / weight;
            let mean = weight / atoms;
            let own = larger(v(freedoms[a]), 0 as real);
            if term.uses()[a].len() == 0 || atoms == 0 as real {
                term.pooled_scale(strengths, freedoms, logs, a) == PooledScale::Kept(strengths[a])
            } else {
                &&& atoms > 0 as real
                &&& weight > 0 as real
                &&& shared * weight == weighted
                &&& mean * atoms == weight
                &&& term.pooled_scale(strengths, freedoms, logs, a) matches PooledScale::Exp(log)
                    && v(log) * (own + mean) == own * v(logs[a]) + mean * shared
            }
        }),
{
    let k = term.k() as int;
    let periodic = term.is_periodic_atom(a);
    lemma_pool_sums(v, term, freedoms, logs, periodic, k);
    let sums = term.pool_sums(freedoms, logs, periodic, k);
    if term.uses()[a].len() > 0 && sums.atoms > 0 {
        let atoms = sums.atoms as real;
        let weight = v(sums.weight);
        let weighted = v(sums.weighted_log);
        lemma_over(weighted, weight);
        lemma_over(weight, atoms);
        lemma_over_positive(weight, atoms);
        let shared = weighted / weight;
        let mean = weight / atoms;
        let own = larger(v(freedoms[a]), 0 as real);
        let log = v(logs[a]);
        lemma_average(own, mean, log, shared);
    }
}

/// Where three positive iterates draw nearer to a limit at one rate between zero and
/// one, on the logarithmic scale and by more than rounding, that limit is the one that
/// is extrapolated.
pub proof fn law_a_contraction_is_extrapolated_to_its_limit<S: Scalar>(
    v: spec_fn(S) -> real,
    values: (S, S, S),
    logs: (S, S, S),
    limit: real,
    gap: real,
    rate: real,
)
    requires
        is_exact(v),
        v(values.0) > 0 as real,
        v(values.1) > 0 as real,
        v(values.2) > 0 as real,
        rate > 0 as real,
        rate < 1 as real,
        v(logs.0) == limit + gap,
        v(logs.1) == limit + rate * gap,
        v(logs.2) == limit + rate * (rate * gap),
        magnitude(v(logs.1) - v(logs.0)) > v(S::s_epsilon()),
    ensures
        s_aitken_limit(values, logs) matches Some(found) && v(found) == limit,
{
    let d1 = v(logs.1) - v(logs.0);
    let d2 = v(logs.2) - v(logs.1);
    lemma_geometric(d1, d2, gap, rate);
}

/// Two steps towards a limit at one rate, and what is left of the way.
proof fn lemma_geometric(d1: real, d2: real, gap: real, rate: real)
    requires
        d1 == rate * gap - gap,
        d2 == rate * (rate * gap) - rate * gap,
        d1 != 0 as real,
        rate < 1 as real,
    ensures
        d2 / d1 == rate,
        (d2 * rate) / (1 as real - rate) == -(rate * (rate * gap)),
{
    let g = rate * gap;
    assert((g - gap) * rate == rate * g - rate * gap) by (nonlinear_arith);
    crate::exact::lemma_quotient(d2, d1, rate);
    let rest = 1 as real - rate;
    let far = -(rate * g);
    assert((1 as real - rate) * (-(rate * g)) == (rate * g - g) * rate) by (nonlinear_arith);
    crate::exact::lemma_quotient(d2 * rate, rest, far);
}

/// A limit is extrapolated only from three positive iterates whose second step goes on
/// in the direction of the first and is shorter, the first being more than rounding.
/// Times the shortening of the step, the way from the last iterate to the limit is the
/// square of the last step.
pub proof fn law_an_extrapolated_limit_is_that_of_a_contraction<S: Scalar>(
    v: spec_fn(S) -> real,
    values: (S, S, S),
    logs: (S, S, S),
)
    requires
        is_exact(v),
    ensures
        ({
            let d1 = v(logs.1) - v(logs.0);
            let d2 = v(logs.2) - v(logs.1);
            let contracts = v(values.0) > 0 as real && v(values.1) > 0 as real && v(values.2)
                > 0 as real && magnitude(d1) > v(S::s_epsilon()) && d1 * d2 > 0 as real
                && magnitude(d2) < magnitude(d1);
            match s_aitken_limit(values, logs) {
                Some(found) => contracts && (v(found) - v(logs.2)) * (d1 - d2) == d2 * d2,
                None => !contracts,
            }
        }),
{
    let d1 = v(logs.1) - v(logs.0);
    let d2 = v(logs.2) - v(logs.1);
    if magnitude(d1) > v(S::s_epsilon()) {
        lemma_steps(d1, d2);
    }
}

/// When a second step is a fraction of the first, and what is left of the way.
proof fn lemma_steps(d1: real, d2: real)
    requires
        d1 != 0 as real,
    ensures
        ({
            let rate = d2 / d1;
            &&& rate > 0 as real <==> d1 * d2 > 0 as real
            &&& rate > 0 as real ==> (rate < 1 as real <==> magnitude(d2) < magnitude(d1))
            &&& rate < 1 as real ==> ((d2 * rate) / (1 as real - rate)) * (d1 - d2) == d2 * d2
        }),
{
    lemma_over(d2, d1);
    let rate = d2 / d1;
    let sq = d1 * d1;
    assert(d1 * (rate * d1) == rate * (d1 * d1)) by (nonlinear_arith);
    assert(d1 * d2 == rate * sq);
    lemma_product_of_a_square(d1);
    lemma_sign_of_a_product(rate, sq);
    if rate > 0 as real {
        lemma_magnitudes(rate, d1, d2);
    }
    if rate < 1 as real {
        let rest = 1 as real - rate;
        let top = d2 * rate;
        lemma_over(top, rest);
        let q = top / rest;
        assert(q * (d1 - rate * d1) == (q * (1 as real - rate)) * d1) by (nonlinear_arith);
        assert((d2 * rate) * d1 == d2 * (rate * d1)) by (nonlinear_arith);
    }
}

proof fn lemma_magnitudes(rate: real, d1: real, d2: real)
    requires
        rate > 0 as real,
        rate * d1 == d2,
    ensures
        d1 != 0 as real ==> (rate < 1 as real <==> magnitude(d2) < magnitude(d1)),
{
    let m1 = magnitude(d1);
    assert(rate * (-d1) == -(rate * d1)) by (nonlinear_arith);
    if d1 > 0 as real {
        lemma_product_positive(rate, d1);
    } else if d1 < 0 as real {
        lemma_product_positive(rate, -d1);
    }
    if d1 != 0 as real {
        assert(magnitude(d2) == rate * m1);
        lemma_sign_of_a_product(1 as real - rate, m1);
        assert((1 as real - rate) * m1 == m1 - rate * m1) by (nonlinear_arith);
    }
}

proof fn lemma_sign_of_a_product(x: real, y: real)
    requires
        y > 0 as real,
    ensures
        x > 0 as real <==> x * y > 0 as real,
{
    if x > 0 as real {
        lemma_product_positive(x, y);
    } else {
        lemma_product_not_negative(-x, y);
        assert((-x) * y == -(x * y)) by (nonlinear_arith);
    }
}

proof fn lemma_product_of_a_square(x: real)
    requires
        x != 0 as real,
    ensures
        x * x > 0 as real,
{
    if x > 0 as real {
        lemma_product_positive(x, x);
    } else {
        lemma_product_positive(-x, -x);
        assert((-x) * (-x) == x * x) by (nonlinear_arith);
    }
}

} // verus!
