//! Bounds that survive rounding.
//!
//! No law of algebra holds of rounded arithmetic, but an arithmetic that rounds
//! each result to a representable number next to it keeps every order between an
//! exact result and a representable bound. The facts below say so of the
//! operations that meet a bound here; `Fixed` has them, and so does any
//! round-to-nearest binary format whose significand holds 32 bits or more. The
//! laws of this module rest on these facts and on nothing else.
use crate::fixed::{Fixed, UNIT};
use crate::hyper::s_determined;
use crate::matrix::Matrix;
use crate::pooling::s_own_weight;
use crate::scalar::Scalar;
use crate::spectral::{
    is_census, is_unpenalized, null_modes, s_census_trace, s_counted_trace, s_mode_penalty,
    s_noise_floor, s_penalty_fraction, s_trace, Census, Eigen,
};
use crate::unroll::{s_unrolled, PhaseGap};
use vstd::prelude::*;

verus! {

/// Counts up to this one are represented exactly.
pub const EXACT_COUNTS: u64 = 4294967296;

/// `x` lies between zero and one.
pub open spec fn is_fraction<S: Scalar>(x: S) -> bool {
    S::s_zero().s_at_most(x) && x.s_at_most(S::s_one())
}

/// Adding at most one to a sum of at most `n` gives at most `n + 1`.
pub open spec fn sum_stays_counted<S: Scalar>(x: S, y: S, n: nat) -> bool {
    n < EXACT_COUNTS && S::s_zero().s_at_most(x) && x.s_at_most(S::s_count(n)) ==> {
        &&& x.s_at_most(S::s_count(n + 1))
        &&& is_fraction(y) ==> S::s_zero().s_at_most(x.s_plus(y)) && x.s_plus(y).s_at_most(
            S::s_count(n + 1),
        )
    }
}

/// Adding what is not negative keeps a sum at `n`; adding one or more lifts it to
/// `n + 1`.
pub open spec fn sum_keeps_count<S: Scalar>(x: S, y: S, n: nat) -> bool {
    n < EXACT_COUNTS && S::s_count(n).s_at_most(x) && S::s_zero().s_at_most(y) ==> {
        &&& S::s_count(n).s_at_most(x.s_plus(y))
        &&& S::s_one().s_at_most(y) ==> S::s_count(n + 1).s_at_most(x.s_plus(y))
    }
}

/// A sum of two numbers that are not negative is at least either, and is positive
/// where one of them is.
pub open spec fn sum_covers_parts<S: Scalar>(x: S, y: S) -> bool {
    S::s_zero().s_at_most(x) && S::s_zero().s_at_most(y) ==> {
        &&& x.s_at_most(x.s_plus(y))
        &&& y.s_at_most(x.s_plus(y))
        &&& S::s_zero().s_below(x) ==> S::s_zero().s_below(x.s_plus(y))
    }
}

/// A part over its positive whole is a fraction; the whole over itself is one.
pub open spec fn part_over_whole<S: Scalar>(part: S, whole: S) -> bool {
    part.s_finite() && S::s_zero().s_at_most(part) && part.s_at_most(whole)
        && S::s_zero().s_below(whole) ==> {
        &&& is_fraction(part.s_over(whole))
        &&& part == whole ==> S::s_one().s_at_most(part.s_over(whole))
    }
}

/// Products and quotients of numbers that are not negative are not negative.
pub open spec fn signs_multiply<S: Scalar>(x: S, y: S) -> bool {
    x.s_finite() && y.s_finite() && S::s_zero().s_at_most(x) && S::s_zero().s_below(y) ==> {
        &&& S::s_zero().s_at_most(x.s_times(y))
        &&& S::s_zero().s_at_most(x.s_over(y))
    }
}

/// Clamping to the unit interval lands in it; so does the complement of a number
/// that lies in it.
pub open spec fn clamps<S: Scalar>(x: S) -> bool {
    &&& is_fraction(x.s_larger(S::s_zero()).s_smaller(S::s_one()))
    &&& S::s_zero().s_at_most(x) ==> is_fraction(x.s_smaller(S::s_one()))
    &&& is_fraction(x) ==> {
        &&& is_fraction(S::s_one().s_minus(x))
        &&& is_fraction(x.s_larger(S::s_zero()))
    }
}

/// Stretching the unit interval by two and shifting it by one gives the interval
/// from minus one to one.
pub open spec fn stretches<S: Scalar>(x: S) -> bool {
    is_fraction(x) ==> {
        let image = S::s_one().s_negate().s_plus(S::s_count(2).s_times(x));
        S::s_one().s_negate().s_at_most(image) && image.s_at_most(S::s_one())
    }
}

/// The larger of a number and a count is at least the count, and within a bound
/// that both are within.
pub open spec fn larger_covers<S: Scalar>(x: S, n: nat, bound: nat) -> bool {
    &&& S::s_count(n).s_at_most(x.s_larger(S::s_count(n)))
    &&& n <= bound <= EXACT_COUNTS && x.s_at_most(S::s_count(bound)) ==> x.s_larger(
        S::s_count(n),
    ).s_at_most(S::s_count(bound))
}

/// Rounding keeps the order between a result and a representable bound.
pub open spec fn rounds_monotonically<S: Scalar>() -> bool {
    &&& S::s_zero().s_at_most(S::s_count(0))
    &&& S::s_count(0).s_at_most(S::s_zero())
    &&& is_fraction(S::s_zero())
    &&& is_fraction(S::s_one())
    &&& S::s_zero().s_below(S::s_one())
    &&& S::s_one().s_negate().s_at_most(S::s_zero())
    &&& forall|x: S, y: S, n: nat| #[trigger] sum_stays_counted(x, y, n)
    &&& forall|x: S, y: S, n: nat| #[trigger] sum_keeps_count(x, y, n)
    &&& forall|x: S, y: S| #[trigger] sum_covers_parts(x, y)
    &&& forall|part: S, whole: S| #[trigger] part_over_whole(part, whole)
    &&& forall|x: S, y: S| #[trigger] signs_multiply(x, y)
    &&& forall|x: S| #[trigger] clamps(x)
    &&& forall|x: S| #[trigger] stretches(x)
    &&& forall|x: S, n: nat, bound: nat| #[trigger] larger_covers(x, n, bound)
}

proof fn lemma_fixed_quotient(part: Fixed, whole: Fixed)
    ensures
        part_over_whole(part, whole),
        signs_multiply(part, whole),
{
    let p = part.raw as int;
    let w = whole.raw as int;
    if 0 <= p && 0 < w {
        assert(0 <= p * UNIT) by (nonlinear_arith)
            requires
                0 <= p,
        ;
        assert(0 <= p * w) by (nonlinear_arith)
            requires
                0 <= p,
                0 < w,
        ;
        vstd::arithmetic::div_mod::lemma_div_pos_is_pos(p * UNIT, w);
        vstd::arithmetic::div_mod::lemma_div_pos_is_pos(p * w, UNIT as int);
        if p <= w {
            assert(p * UNIT <= UNIT * w) by (nonlinear_arith)
                requires
                    p <= w,
            ;
            vstd::arithmetic::div_mod::lemma_div_is_ordered(p * UNIT, UNIT * w, w);
            vstd::arithmetic::div_mod::lemma_div_by_multiple(UNIT as int, w);
            if p == w {
                assert(p * UNIT == UNIT * w) by (nonlinear_arith)
                    requires
                        p == w,
                ;
            }
        }
    }
}

/// Fixed-point numbers round monotonically.
pub proof fn law_fixed_numbers_round_monotonically()
    ensures
        rounds_monotonically::<Fixed>(),
{
    assert forall|part: Fixed, whole: Fixed| #[trigger] part_over_whole(part, whole) by {
        lemma_fixed_quotient(part, whole);
    }
    assert forall|x: Fixed, y: Fixed| #[trigger] signs_multiply(x, y) by {
        lemma_fixed_quotient(x, y);
    }
    assert forall|x: Fixed| #[trigger] stretches(x) by {
        let two = 2 * UNIT;
        assert(Fixed::s_count(2).raw == two);
        let raw = x.raw as int;
        assert(two * raw == UNIT * (2 * raw)) by (nonlinear_arith)
            requires
                two == 2 * UNIT,
        ;
        vstd::arithmetic::div_mod::lemma_div_multiples_vanish(2 * raw, UNIT as int);
    }
    assert forall|x: Fixed, n: nat, bound: nat| #[trigger] larger_covers(x, n, bound) by {
        assert(n <= bound ==> n * UNIT <= bound * UNIT) by (nonlinear_arith);
    }
}

/// How many of the first `n` modes the penalty leaves untouched: all of such a
/// mode's eigenvalue comes from the Gram matrix, or it has no eigenvalue to speak of
/// and lies in the penalty's null space.
pub open spec fn untouched_modes<S: Scalar>(
    projected: &Matrix<S>,
    penalties: Seq<S>,
    eigen: &Eigen<S>,
    floor: S,
    n: int,
) -> nat
    decreases n,
{
    if n <= 0 {
        0
    } else {
        let value = eigen.values@[n - 1];
        let untouched = if floor.s_below(value) {
            projected.at(n - 1, n - 1) == value
        } else {
            is_unpenalized(penalties, &eigen.vectors, n - 1)
        };
        untouched_modes(projected, penalties, eigen, floor, n - 1) + (if untouched {
            1nat
        } else {
            0nat
        })
    }
}

/// Each resolved mode has a positive eigenvalue, of which the Gram matrix
/// contributes a part.
pub open spec fn gram_is_a_part<S: Scalar>(
    projected: &Matrix<S>,
    values: Seq<S>,
    floor: S,
    n: int,
) -> bool {
    forall|i: int|
        0 <= i < n && floor.s_below(#[trigger] values[i]) ==> {
            &&& projected.at(i, i).s_finite()
            &&& S::s_zero().s_at_most(projected.at(i, i))
            &&& projected.at(i, i).s_at_most(values[i])
            &&& S::s_zero().s_below(values[i])
        }
}

/// The modes' degrees of freedom add up to a number between zero and the number of
/// modes, whatever the smoothing strength, and to at least the number of modes that
/// the penalty leaves untouched.
pub proof fn law_modes_have_one_degree_of_freedom_at_most<S: Scalar>(
    projected: &Matrix<S>,
    penalties: Seq<S>,
    eigen: &Eigen<S>,
    floor: S,
    n: int,
)
    requires
        rounds_monotonically::<S>(),
        0 <= n <= EXACT_COUNTS,
        gram_is_a_part(projected, eigen.values@, floor, n),
    ensures
        S::s_zero().s_at_most(s_counted_trace(projected, penalties, eigen, floor, n)),
        s_counted_trace(projected, penalties, eigen, floor, n).s_at_most(S::s_count(n as nat)),
        forall|k: nat|
            k <= untouched_modes(projected, penalties, eigen, floor, n) ==> (
            #[trigger] S::s_count(k)).s_at_most(
                s_counted_trace(projected, penalties, eigen, floor, n),
            ),
    decreases n,
{
    let trace = s_counted_trace(projected, penalties, eigen, floor, n);
    if n > 0 {
        law_modes_have_one_degree_of_freedom_at_most(projected, penalties, eigen, floor, n - 1);
        lemma_untouched_bound(projected, penalties, eigen, floor, n - 1);
        let rest = s_counted_trace(projected, penalties, eigen, floor, n - 1);
        let below = untouched_modes(projected, penalties, eigen, floor, n - 1);
        let value = eigen.values@[n - 1];
        let part = projected.at(n - 1, n - 1);
        let share = if floor.s_below(value) {
            part.s_over(value)
        } else {
            S::s_one()
        };
        assert(sum_stays_counted(rest, share, (n - 1) as nat));
        if floor.s_below(value) {
            assert(part_over_whole(part, value));
        }
        if floor.s_below(value) || is_unpenalized(penalties, &eigen.vectors, n - 1) {
            assert(is_fraction(share));
            assert(trace == rest.s_plus(share));
            assert forall|k: nat|
                k <= untouched_modes(projected, penalties, eigen, floor, n) implies (
            #[trigger] S::s_count(k)).s_at_most(trace) by {
                if k <= below {
                    assert(S::s_count(k).s_at_most(rest));
                    assert(sum_keeps_count(rest, share, k));
                } else {
                    assert(S::s_count(below).s_at_most(rest));
                    assert(sum_keeps_count(rest, share, below));
                }
            }
        }
    }
}

proof fn lemma_untouched_bound<S: Scalar>(
    projected: &Matrix<S>,
    penalties: Seq<S>,
    eigen: &Eigen<S>,
    floor: S,
    n: int,
)
    requires
        0 <= n,
    ensures
        untouched_modes(projected, penalties, eigen, floor, n) <= n,
    decreases n,
{
    if n > 0 {
        lemma_untouched_bound(projected, penalties, eigen, floor, n - 1);
    }
}

proof fn lemma_null_modes_bound<S: Scalar>(penalty: &Eigen<S>, n: int)
    requires
        0 <= n,
    ensures
        null_modes(penalty, n) <= n,
    decreases n,
{
    if n > 0 {
        lemma_null_modes_bound(penalty, n - 1);
    }
}

/// The trace of a census is at least the dimension of the penalty's null space, so
/// that the difference counts degrees of freedom. It holds of every census.
pub proof fn law_the_trace_covers_the_null_space<S: Scalar>(
    projected: &Matrix<S>,
    census: &Census<S>,
    eigen: &Eigen<S>,
)
    requires
        rounds_monotonically::<S>(),
    ensures
        S::s_count(census.null_dim as nat).s_at_most(s_census_trace(projected, census, eigen)),
{
    let counted = s_counted_trace(
        projected,
        census.penalties@,
        eigen,
        s_noise_floor(s_trace(&census.scaled).s_larger(S::s_one()), census.scaled.nrows()),
        census.scaled.nrows() as int,
    );
    assert(larger_covers(counted, census.null_dim as nat, 0));
}

/// The trace of a census is at most the number of modes, whatever the smoothing
/// strength.
pub proof fn law_the_trace_is_at_most_the_width<S: Scalar>(
    gram: &Matrix<S>,
    lambda: S,
    penalty: &Eigen<S>,
    projected: &Matrix<S>,
    census: &Census<S>,
    eigen: &Eigen<S>,
)
    requires
        rounds_monotonically::<S>(),
        penalty.has_size(gram.nrows()),
        is_census(gram, lambda, penalty, census),
        census.scaled.nrows() <= EXACT_COUNTS,
        gram_is_a_part(
            projected,
            eigen.values@,
            s_noise_floor(s_trace(&census.scaled).s_larger(S::s_one()), census.scaled.nrows()),
            census.scaled.nrows() as int,
        ),
    ensures
        s_census_trace(projected, census, eigen).s_at_most(S::s_count(census.scaled.nrows())),
{
    let m = census.scaled.nrows();
    let floor = s_noise_floor(s_trace(&census.scaled).s_larger(S::s_one()), m);
    law_modes_have_one_degree_of_freedom_at_most(
        projected,
        census.penalties@,
        eigen,
        floor,
        m as int,
    );
    lemma_null_modes_bound(penalty, penalty.values@.len() as int);
    let counted = s_counted_trace(projected, census.penalties@, eigen, floor, m as int);
    assert(larger_covers(counted, census.null_dim as nat, m));
}

/// What the penalty contributes to a mode lies between zero and one, for every
/// smoothing strength and every eigenvalue.
pub proof fn law_the_penalty_holds_a_fraction<S: Scalar>(
    penalty: &Eigen<S>,
    lambda: S,
    mode: int,
)
    requires
        rounds_monotonically::<S>(),
        lambda.s_finite(),
        S::s_zero().s_at_most(lambda),
        s_mode_penalty(penalty, mode).s_finite(),
    ensures
        is_fraction(s_penalty_fraction(penalty, lambda, mode)),
{
    let s = s_mode_penalty(penalty, mode);
    let x = lambda.s_times(s);
    if S::s_zero().s_below(s) && S::s_zero().s_below(lambda) && x.s_finite() {
        assert(signs_multiply(lambda, s));
        assert(sum_covers_parts(S::s_one(), x));
        assert(part_over_whole(x, S::s_one().s_plus(x)));
    }
}

/// The well-determined share of a coordinate lies between zero and one.
pub proof fn law_the_determined_share_is_a_fraction<S: Scalar>(alpha: S, curvature: S)
    requires
        rounds_monotonically::<S>(),
        alpha.s_finite(),
        S::s_zero().s_at_most(alpha),
        curvature.s_finite(),
        S::s_zero().s_below(curvature),
    ensures
        is_fraction(s_determined(alpha, curvature)),
{
    assert(signs_multiply(alpha, curvature));
    let share = alpha.s_over(curvature);
    assert(clamps(share));
    assert(clamps(share.s_smaller(S::s_one())));
    assert(clamps(S::s_one().s_minus(share.s_smaller(S::s_one()))));
}

/// An atom with degrees of freedom weighs its own scale against its family's by
/// a fraction.
pub proof fn law_the_own_weight_is_a_fraction<S: Scalar>(freedom: S, mean: S)
    requires
        rounds_monotonically::<S>(),
        freedom.s_finite(),
        S::s_zero().s_at_most(freedom),
        S::s_zero().s_below(freedom),
        S::s_zero().s_at_most(mean),
    ensures
        is_fraction(s_own_weight(freedom, mean)),
{
    assert(sum_covers_parts(freedom, mean));
    assert(part_over_whole(freedom, freedom.s_plus(mean)));
}

/// A cut loop comes to lie on the interval from minus one to one.
pub proof fn law_an_unrolled_phase_lies_on_the_interval<S: Scalar>(phase: S, gap: PhaseGap<S>)
    requires
        rounds_monotonically::<S>(),
    ensures
        S::s_one().s_negate().s_at_most(s_unrolled(phase, gap)),
        s_unrolled(phase, gap).s_at_most(S::s_one()),
{
    let arc_length = S::s_one().s_minus(gap.length);
    let along = phase.s_minus(gap.end).s_modulo(S::s_one()).s_smaller(arc_length);
    let share = along.s_over(arc_length);
    assert(clamps(share));
    assert(stretches(share.s_larger(S::s_zero()).s_smaller(S::s_one())));
}

} // verus!
