//! Periodic charts that are used as open curves.
//!
//! A one-dimensional periodic atom whose uses leave a wide arc empty, or whose
//! image is a segment, is given a straight chart: its phases are unwrapped
//! through the largest gap between them onto the interval from minus one to one,
//! and its decoder is set to zero, to be fitted again.
use crate::atom::{AtomError, SaeAtomBasisKind, SaeManifoldAtom};
use crate::fixed::Fixed;
use crate::matrix::Matrix;
use crate::scalar::{energy, filled, s_energy, s_sum, Scalar};
use crate::term::{law_uses_invert_the_support, SaeSupportSparseTerm};
use vstd::prelude::*;

verus! {

/// Two ordered runs, merged; of two values of which neither is below the other,
/// the left run's comes first.
pub open spec fn s_merge<S: Scalar>(left: Seq<S>, right: Seq<S>) -> Seq<S>
    decreases left.len() + right.len(),
{
    if left.len() == 0 {
        right
    } else if right.len() == 0 {
        left
    } else if right[0].s_below(left[0]) {
        seq![right[0]] + s_merge(left, right.skip(1))
    } else {
        seq![left[0]] + s_merge(left.skip(1), right)
    }
}

/// The values in ascending order.
pub open spec fn s_sorted<S: Scalar>(values: Seq<S>) -> Seq<S>
    decreases values.len(),
{
    if values.len() <= 1 {
        values
    } else {
        let middle = (values.len() / 2) as int;
        s_merge(s_sorted(values.take(middle)), s_sorted(values.skip(middle)))
    }
}

/// The finite numbers are ordered by `below`.
pub open spec fn orders_finite<S: Scalar>() -> bool {
    &&& forall|x: S| x.s_finite() ==> !#[trigger] x.s_below(x)
    &&& forall|x: S, y: S, z: S|
        x.s_finite() && y.s_finite() && z.s_finite() && #[trigger] x.s_below(y)
            && #[trigger] y.s_below(z) ==> x.s_below(z)
    &&& forall|x: S, y: S, z: S|
        x.s_finite() && y.s_finite() && z.s_finite() && !#[trigger] y.s_below(x)
            && !#[trigger] z.s_below(y) ==> !z.s_below(x)
}

pub open spec fn is_ascending<S: Scalar>(values: Seq<S>) -> bool {
    forall|i: int, j: int|
        0 <= i < j < values.len() ==> !(#[trigger] values[j]).s_below(#[trigger] values[i])
}

pub open spec fn all_finite<S: Scalar>(values: Seq<S>) -> bool {
    forall|i: int| 0 <= i < values.len() ==> (#[trigger] values[i]).s_finite()
}

proof fn lemma_merge_multiset<S: Scalar>(left: Seq<S>, right: Seq<S>)
    ensures
        s_merge(left, right).to_multiset() == left.to_multiset().add(right.to_multiset()),
        s_merge(left, right).len() == left.len() + right.len(),
    decreases left.len() + right.len(),
{
    broadcast use vstd::seq_lib::group_to_multiset_ensures;

    if left.len() == 0 {
        assert(left.to_multiset() =~= vstd::multiset::Multiset::empty());
        assert(left.to_multiset().add(right.to_multiset()) =~= right.to_multiset());
    } else if right.len() == 0 {
        assert(right.to_multiset() =~= vstd::multiset::Multiset::empty());
        assert(left.to_multiset().add(right.to_multiset()) =~= left.to_multiset());
    } else if right[0].s_below(left[0]) {
        let rest = right.skip(1);
        lemma_merge_multiset(left, rest);
        assert(right =~= seq![right[0]] + rest);
        vstd::seq_lib::lemma_multiset_commutative(seq![right[0]], rest);
        vstd::seq_lib::lemma_multiset_commutative(seq![right[0]], s_merge(left, rest));
        assert(s_merge(left, right).to_multiset() =~= left.to_multiset().add(right.to_multiset()));
    } else {
        let rest = left.skip(1);
        lemma_merge_multiset(rest, right);
        assert(left =~= seq![left[0]] + rest);
        vstd::seq_lib::lemma_multiset_commutative(seq![left[0]], rest);
        vstd::seq_lib::lemma_multiset_commutative(seq![left[0]], s_merge(rest, right));
        assert(s_merge(left, right).to_multiset() =~= left.to_multiset().add(right.to_multiset()));
    }
}

/// Every merged value is one of the runs' values.
proof fn lemma_merge_contains<S: Scalar>(left: Seq<S>, right: Seq<S>, i: int)
    requires
        0 <= i < s_merge(left, right).len(),
    ensures
        left.contains(s_merge(left, right)[i]) || right.contains(s_merge(left, right)[i]),
    decreases left.len() + right.len(),
{
    let merged = s_merge(left, right);
    if left.len() == 0 {
        assert(right[i] == merged[i]);
    } else if right.len() == 0 {
        assert(left[i] == merged[i]);
    } else if right[0].s_below(left[0]) {
        let rest = right.skip(1);
        if i == 0 {
            assert(right[0] == merged[0]);
        } else {
            assert(merged[i] == s_merge(left, rest)[i - 1]);
            lemma_merge_contains(left, rest, i - 1);
            if rest.contains(merged[i]) {
                let k = choose|k: int| 0 <= k < rest.len() && rest[k] == merged[i];
                assert(right[k + 1] == merged[i]);
            }
        }
    } else {
        let rest = left.skip(1);
        if i == 0 {
            assert(left[0] == merged[0]);
        } else {
            assert(merged[i] == s_merge(rest, right)[i - 1]);
            lemma_merge_contains(rest, right, i - 1);
            if rest.contains(merged[i]) {
                let k = choose|k: int| 0 <= k < rest.len() && rest[k] == merged[i];
                assert(left[k + 1] == merged[i]);
            }
        }
    }
}

proof fn lemma_merge_ascending<S: Scalar>(left: Seq<S>, right: Seq<S>)
    requires
        orders_finite::<S>(),
        all_finite(left),
        all_finite(right),
        is_ascending(left),
        is_ascending(right),
    ensures
        is_ascending(s_merge(left, right)),
        all_finite(s_merge(left, right)),
    decreases left.len() + right.len(),
{
    if left.len() > 0 && right.len() > 0 {
        let merged = s_merge(left, right);
        if right[0].s_below(left[0]) {
            let rest = right.skip(1);
            assert(is_ascending(rest)) by {
                assert forall|i: int, j: int|
                    0 <= i < j < rest.len() implies !(#[trigger] rest[j]).s_below(
                    #[trigger] rest[i],
                ) by {
                    assert(!right[j + 1].s_below(right[i + 1]));
                }
            }
            lemma_merge_ascending(left, rest);
            let tail = s_merge(left, rest);
            assert forall|k: int| 0 <= k < tail.len() implies !(#[trigger] tail[k]).s_below(
                right[0],
            ) by {
                lemma_merge_contains(left, rest, k);
                if left.contains(tail[k]) {
                    let p = choose|p: int| 0 <= p < left.len() && left[p] == tail[k];
                    assert(left[0].s_finite() && left[p].s_finite() && right[0].s_finite());
                    if p > 0 {
                        assert(!left[p].s_below(left[0]));
                    }
                    if tail[k].s_below(right[0]) {
                        assert(tail[k].s_below(left[0]));
                    }
                } else {
                    let p = choose|p: int| 0 <= p < rest.len() && rest[p] == tail[k];
                    assert(!right[p + 1].s_below(right[0]));
                }
            }
            assert forall|i: int, j: int| 0 <= i < j < merged.len() implies !(
            #[trigger] merged[j]).s_below(#[trigger] merged[i]) by {
                assert(merged[j] == tail[j - 1]);
                if i > 0 {
                    assert(merged[i] == tail[i - 1]);
                }
            }
            assert forall|i: int| 0 <= i < merged.len() implies (
            #[trigger] merged[i]).s_finite() by {
                if i > 0 {
                    assert(merged[i] == tail[i - 1]);
                }
            }
        } else {
            let rest = left.skip(1);
            assert(is_ascending(rest)) by {
                assert forall|i: int, j: int|
                    0 <= i < j < rest.len() implies !(#[trigger] rest[j]).s_below(
                    #[trigger] rest[i],
                ) by {
                    assert(!left[j + 1].s_below(left[i + 1]));
                }
            }
            lemma_merge_ascending(rest, right);
            let tail = s_merge(rest, right);
            assert forall|k: int| 0 <= k < tail.len() implies !(#[trigger] tail[k]).s_below(
                left[0],
            ) by {
                lemma_merge_contains(rest, right, k);
                if rest.contains(tail[k]) {
                    let p = choose|p: int| 0 <= p < rest.len() && rest[p] == tail[k];
                    assert(!left[p + 1].s_below(left[0]));
                } else {
                    let p = choose|p: int| 0 <= p < right.len() && right[p] == tail[k];
                    assert(left[0].s_finite() && right[0].s_finite() && right[p].s_finite());
                    if p > 0 {
                        assert(!right[p].s_below(right[0]));
                        assert(!right[0].s_below(left[0]));
                    }
                }
            }
            assert forall|i: int, j: int| 0 <= i < j < merged.len() implies !(
            #[trigger] merged[j]).s_below(#[trigger] merged[i]) by {
                assert(merged[j] == tail[j - 1]);
                if i > 0 {
                    assert(merged[i] == tail[i - 1]);
                }
            }
            assert forall|i: int| 0 <= i < merged.len() implies (
            #[trigger] merged[i]).s_finite() by {
                if i > 0 {
                    assert(merged[i] == tail[i - 1]);
                }
            }
        }
    }
}

/// Sorting keeps the values, and puts finite ones in ascending order.
pub proof fn law_sorted_values_ascend<S: Scalar>(values: Seq<S>)
    requires
        orders_finite::<S>(),
        all_finite(values),
    ensures
        s_sorted(values).to_multiset() == values.to_multiset(),
        s_sorted(values).len() == values.len(),
        is_ascending(s_sorted(values)),
        all_finite(s_sorted(values)),
    decreases values.len(),
{
    if values.len() > 1 {
        let middle = (values.len() / 2) as int;
        let left = values.take(middle);
        let right = values.skip(middle);
        law_sorted_values_ascend(left);
        law_sorted_values_ascend(right);
        lemma_merge_multiset(s_sorted(left), s_sorted(right));
        lemma_merge_ascending(s_sorted(left), s_sorted(right));
        assert(values =~= left + right);
        vstd::seq_lib::lemma_multiset_commutative(left, right);
    }
}

/// Fixed-point numbers are ordered.
pub proof fn law_fixed_numbers_are_ordered()
    ensures
        orders_finite::<Fixed>(),
{
}

fn merge<S: Scalar>(left: &Vec<S>, right: &Vec<S>) -> (r: Vec<S>)
    ensures
        r@ == s_merge(left@, right@),
{
    let mut out: Vec<S> = Vec::new();
    let mut i: usize = 0;
    let mut j: usize = 0;
    assert(left@.skip(0) =~= left@);
    assert(right@.skip(0) =~= right@);
    assert(out@ + s_merge(left@.skip(0), right@.skip(0)) =~= s_merge(left@, right@));
    while i < left.len() || j < right.len()
        invariant
            i <= left@.len(),
            j <= right@.len(),
            out@ + s_merge(left@.skip(i as int), right@.skip(j as int)) == s_merge(left@, right@),
        decreases left@.len() - i + right@.len() - j,
    {
        let ghost a = left@.skip(i as int);
        let ghost b = right@.skip(j as int);
        let ghost before = out@;
        let from_right: bool = if i == left.len() {
            true
        } else if j == right.len() {
            false
        } else {
            right[j].below(left[i])
        };
        if from_right {
            assert(b.skip(1) =~= right@.skip(j + 1));
            assert(s_merge(a, b) =~= seq![b[0]] + s_merge(a, b.skip(1)));
            out.push(right[j]);
            j = j + 1;
        } else {
            assert(a.skip(1) =~= left@.skip(i + 1));
            assert(s_merge(a, b) =~= seq![a[0]] + s_merge(a.skip(1), b));
            out.push(left[i]);
            i = i + 1;
        }
        assert(out@ + s_merge(left@.skip(i as int), right@.skip(j as int)) =~= before + s_merge(
            a,
            b,
        ));
    }
    assert(s_merge(left@.skip(i as int), right@.skip(j as int)) =~= Seq::empty());
    out
}

fn sorted_range<S: Scalar>(values: &Vec<S>, from: usize, to: usize) -> (r: Vec<S>)
    requires
        from <= to <= values@.len(),
    ensures
        r@ == s_sorted(values@.subrange(from as int, to as int)),
    decreases to - from,
{
    let ghost part = values@.subrange(from as int, to as int);
    if to - from <= 1 {
        let mut out: Vec<S> = Vec::new();
        if from < to {
            out.push(values[from]);
        }
        assert(out@ =~= part);
        return out;
    }
    let middle: usize = from + (to - from) / 2;
    assert(part.take(middle - from) =~= values@.subrange(from as int, middle as int));
    assert(part.skip(middle - from) =~= values@.subrange(middle as int, to as int));
    let left: Vec<S> = sorted_range(values, from, middle);
    let right: Vec<S> = sorted_range(values, middle, to);
    merge(&left, &right)
}

/// The values in ascending order.
pub fn sorted<S: Scalar>(values: &Vec<S>) -> (r: Vec<S>)
    ensures
        r@ == s_sorted(values@),
{
    assert(values@.subrange(0, values@.len() as int) =~= values@);
    sorted_range(values, 0, values.len())
}

/// The widest gap between neighbouring phases on the circle: the phase it starts
/// from, its length, and the phase that ends it.
#[derive(Clone, Copy, Debug)]
pub struct PhaseGap<S> {
    pub start: S,
    pub length: S,
    pub end: S,
}

/// The widest gap among the first `n` phases, each measured to the next one
/// around the circle; of equally wide ones the first.
pub open spec fn s_widest_gap<S: Scalar>(phases: Seq<S>, n: int) -> PhaseGap<S>
    decreases n,
{
    if n <= 0 {
        PhaseGap { start: S::s_zero(), length: S::s_zero(), end: S::s_zero() }
    } else {
        let before = s_widest_gap(phases, n - 1);
        let here = phases[n - 1];
        let end = if n == phases.len() {
            phases[0]
        } else {
            phases[n]
        };
        let next = if n == phases.len() {
            end.s_plus(S::s_one())
        } else {
            end
        };
        if before.length.s_below(next.s_minus(here)) {
            PhaseGap { start: here, length: next.s_minus(here), end }
        } else {
            before
        }
    }
}

/// The widest gap between phases, given in any order.
pub fn widest_gap<S: Scalar>(phases: &Vec<S>) -> (r: PhaseGap<S>)
    ensures
        r == s_widest_gap(s_sorted(phases@), s_sorted(phases@).len() as int),
{
    let ring: Vec<S> = sorted(phases);
    let n: usize = ring.len();
    let mut gap = PhaseGap { start: S::zero(), length: S::zero(), end: S::zero() };
    for i in 0..n
        invariant
            n == ring@.len(),
            gap == s_widest_gap(ring@, i as int),
    {
        let here: S = ring[i];
        let end: S = if i + 1 == n {
            ring[0]
        } else {
            ring[i + 1]
        };
        let next: S = if i + 1 == n {
            end.plus(S::one())
        } else {
            end
        };
        let length: S = next.minus(here);
        if gap.length.below(length) {
            gap = PhaseGap { start: here, length, end };
        }
    }
    gap
}

/// Whether a gap refutes that `n` phases are spread over the whole circle: it is
/// the whole circle, or `(n - 1) ln (1 - gap) <= -2 ln n`. The two logarithms are
/// given.
pub fn closure_refuted<S: Scalar>(n: usize, length: S, ln_rest: S, ln_n: S) -> (r: bool)
    ensures
        r == (length.s_below(S::s_one()) && S::s_count(n as nat).s_minus(S::s_one()).s_times(
            ln_rest,
        ).s_at_most(S::s_count(2).s_negate().s_times(ln_n)) || S::s_one().s_at_most(length)),
{
    if length.below(S::one()) {
        let level: S = S::count(2).negate().times(ln_n);
        if S::count(n).minus(S::one()).times(ln_rest).at_most(level) {
            return true;
        }
    }
    S::one().at_most(length)
}

/// Where a phase comes to lie once the circle is cut in its gap. The arc that is
/// left begins at the phase that ends the gap, and its length is measured from
/// there.
pub open spec fn s_unrolled<S: Scalar>(phase: S, gap: PhaseGap<S>) -> S {
    let arc_length = S::s_one().s_minus(gap.length);
    let along = phase.s_minus(gap.end).s_modulo(S::s_one()).s_smaller(arc_length);
    if S::s_zero().s_below(arc_length) {
        S::s_one().s_negate().s_plus(
            S::s_count(2).s_times(
                along.s_over(arc_length).s_larger(S::s_zero()).s_smaller(S::s_one()),
            ),
        )
    } else {
        S::s_zero()
    }
}

/// Where a phase comes to lie once the circle is cut in its gap.
pub fn unrolled_coordinate<S: Scalar>(phase: S, gap: PhaseGap<S>) -> (r: S)
    ensures
        r == s_unrolled(phase, gap),
{
    let arc_length: S = S::one().minus(gap.length);
    if !S::zero().below(arc_length) {
        return S::zero();
    }
    let along: S = phase.minus(gap.end).modulo(S::one()).smaller(arc_length);
    let fraction: S = along.over(arc_length).larger(S::zero()).smaller(S::one());
    S::one().negate().plus(S::count(2).times(fraction))
}

/// How many points of a period are probed, for a basis of width `m`.
pub open spec fn s_probe_count(m: nat) -> nat {
    if m < 8 {
        32
    } else {
        m * 4
    }
}

/// How many points of a period are probed.
pub fn probe_count(m: usize) -> (r: usize)
    requires
        m * 4 <= usize::MAX,
    ensures
        r == s_probe_count(m as nat),
{
    if m < 8 {
        32
    } else {
        m * 4
    }
}

/// The coordinates at which a period is probed.
pub fn probe_coordinates<S: Scalar>(period: S, probes: usize) -> (r: Vec<S>)
    ensures
        r@ == Seq::new(
            probes as nat,
            |i: int| period.s_times(S::s_count(i as nat)).s_over(S::s_count(probes as nat)),
        ),
{
    let ghost all = Seq::new(
        probes as nat,
        |i: int| period.s_times(S::s_count(i as nat)).s_over(S::s_count(probes as nat)),
    );
    let mut out: Vec<S> = Vec::new();
    for i in 0..probes
        invariant
            all == Seq::new(
                probes as nat,
                |i: int| period.s_times(S::s_count(i as nat)).s_over(S::s_count(probes as nat)),
            ),
            out@ == all.take(i as int),
    {
        out.push(period.times(S::count(i)).over(S::count(probes)));
        assert(out@ =~= all.take(i + 1));
    }
    assert(all.take(probes as int) =~= all);
    out
}

/// The mean of column `c`.
pub open spec fn s_centre<S: Scalar>(image: &Matrix<S>, c: int) -> S {
    s_sum(
        S::s_zero(),
        image.nrows() as int,
        |p: int| image.at(p, c).s_over(S::s_count(image.nrows())),
    )
}

/// Entry `(p, c)`, less its column's mean.
pub open spec fn s_deviation<S: Scalar>(image: &Matrix<S>, p: int, c: int) -> S {
    image.at(p, c).s_minus(s_centre(image, c))
}

/// Row `p`'s deviation along a direction.
pub open spec fn s_along<S: Scalar>(image: &Matrix<S>, direction: Seq<S>, p: int) -> S {
    s_sum(
        S::s_zero(),
        image.ncols() as int,
        |c: int| s_deviation(image, p, c).s_times(direction[c]),
    )
}

/// A direction divided by its norm.
pub open spec fn s_unit<S: Scalar>(direction: Seq<S>) -> Seq<S> {
    Seq::new(direction.len(), |c: int| direction[c].s_over(s_energy(direction).s_root()))
}

/// The direction has a length.
pub open spec fn has_length<S: Scalar>(direction: Seq<S>) -> bool {
    S::s_zero().s_below(s_energy(direction).s_root())
}

/// The second-moment matrix of the deviations, applied to a direction.
pub open spec fn s_moment<S: Scalar>(image: &Matrix<S>, direction: Seq<S>) -> Seq<S> {
    Seq::new(
        image.ncols(),
        |c: int|
            s_sum(
                S::s_zero(),
                image.nrows() as int,
                |p: int| s_along(image, direction, p).s_times(s_deviation(image, p, c)),
            ),
    )
}

/// The first row's deviation after `k` steps of power iteration; a direction
/// without a length stays.
pub open spec fn s_power<S: Scalar>(image: &Matrix<S>, k: nat) -> Seq<S>
    decreases k,
{
    if k == 0 {
        Seq::new(image.ncols(), |c: int| s_deviation(image, 0, c))
    } else {
        let before = s_power(image, (k - 1) as nat);
        if has_length(before) {
            s_moment(image, s_unit(before))
        } else {
            before
        }
    }
}

/// The number of power-iteration steps.
pub const POWER_STEPS: usize = 8;

/// The energy of the deviations.
pub open spec fn s_total_power<S: Scalar>(image: &Matrix<S>) -> S {
    s_sum(
        S::s_zero(),
        image.nrows() as int,
        |p: int|
            s_sum(
                S::s_zero(),
                image.ncols() as int,
                |c: int| s_deviation(image, p, c).s_times(s_deviation(image, p, c)),
            ),
    )
}

/// The energy of the deviations along a direction.
pub open spec fn s_power_along<S: Scalar>(image: &Matrix<S>, direction: Seq<S>) -> S {
    s_sum(
        S::s_zero(),
        image.nrows() as int,
        |p: int| s_along(image, direction, p).s_times(s_along(image, direction, p)),
    )
}

/// An image that cannot be told from a segment: what its energy has across the
/// dominant direction is below the spacing of the probes.
pub open spec fn is_degenerate<S: Scalar>(image: &Matrix<S>) -> bool {
    let direction = s_power(image, POWER_STEPS as nat);
    let total = s_total_power(image);
    let across = total.s_minus(s_power_along(image, s_unit(direction))).s_larger(S::s_zero());
    let probes = S::s_count(image.nrows());
    &&& has_length(direction)
    &&& S::s_zero().s_below(total)
    &&& across.s_at_most(total.s_over(probes).s_over(probes.s_times(probes)).s_times(probes))
}

/// The deviations of an image's rows from the mean row.
fn deviations<S: Scalar>(image: &Matrix<S>) -> (r: Matrix<S>)
    requires
        image.wf(),
    ensures
        r.has_shape(image.nrows(), image.ncols()),
        forall|p: int, c: int|
            0 <= p < image.nrows() && 0 <= c < image.ncols() ==> #[trigger] r.at(p, c)
                == s_deviation(image, p, c),
{
    let rows: usize = image.row_count();
    let cols: usize = image.col_count();
    let scale: S = S::count(rows);
    let mut out: Matrix<S> = image.copy();
    for c in 0..cols
        invariant
            image.wf(),
            rows == image.nrows(),
            cols == image.ncols(),
            scale == S::s_count(image.nrows()),
            out.has_shape(rows as nat, cols as nat),
            forall|p: int, d: int|
                0 <= p < rows && 0 <= d < c ==> #[trigger] out.at(p, d) == s_deviation(
                    image,
                    p,
                    d,
                ),
    {
        let mut centre: S = S::zero();
        let ghost f = |p: int| image.at(p, c as int).s_over(S::s_count(image.nrows()));
        for p in 0..rows
            invariant
                image.wf(),
                rows == image.nrows(),
                c < image.ncols(),
                scale == S::s_count(image.nrows()),
                f == (|p: int| image.at(p, c as int).s_over(S::s_count(image.nrows()))),
                centre == s_sum(S::s_zero(), p as int, f),
        {
            centre = centre.plus(image.get(p, c).over(scale));
        }
        for p in 0..rows
            invariant
                image.wf(),
                rows == image.nrows(),
                cols == image.ncols(),
                c < cols,
                centre == s_centre(image, c as int),
                out.has_shape(rows as nat, cols as nat),
                forall|q: int, d: int|
                    0 <= q < rows && 0 <= d < cols && (d < c || (d == c && q < p))
                        ==> #[trigger] out.at(q, d) == s_deviation(image, q, d),
        {
            out.set(p, c, image.get(p, c).minus(centre));
        }
    }
    out
}

/// `dev` holds the deviations of `image`.
spec fn are_deviations<S: Scalar>(image: &Matrix<S>, dev: &Matrix<S>) -> bool {
    &&& dev.has_shape(image.nrows(), image.ncols())
    &&& forall|p: int, c: int|
        0 <= p < image.nrows() && 0 <= c < image.ncols() ==> #[trigger] dev.at(p, c)
            == s_deviation(image, p, c)
}

fn along<S: Scalar>(Ghost(image): Ghost<&Matrix<S>>, dev: &Matrix<S>, direction: &Vec<S>, p: usize) -> (r:
    S)
    requires
        are_deviations(image, dev),
        p < image.nrows(),
        direction@.len() == image.ncols(),
    ensures
        r == s_along(image, direction@, p as int),
{
    let cols: usize = dev.col_count();
    let mut acc: S = S::zero();
    let ghost f = |c: int| s_deviation(image, p as int, c).s_times(direction@[c]);
    for c in 0..cols
        invariant
            are_deviations(image, dev),
            cols == image.ncols(),
            p < image.nrows(),
            direction@.len() == cols,
            f == (|c: int| s_deviation(image, p as int, c).s_times(direction@[c])),
            acc == s_sum(S::s_zero(), c as int, f),
    {
        acc = acc.plus(dev.get(p, c).times(direction[c]));
    }
    acc
}

fn unit<S: Scalar>(direction: &Vec<S>, norm: S) -> (r: Vec<S>)
    requires
        norm == s_energy(direction@).s_root(),
    ensures
        r@ == s_unit(direction@),
{
    let mut out: Vec<S> = Vec::new();
    for c in 0..direction.len()
        invariant
            norm == s_energy(direction@).s_root(),
            out@ == s_unit(direction@).take(c as int),
    {
        out.push(direction[c].over(norm));
        assert(out@ =~= s_unit(direction@).take(c + 1));
    }
    assert(s_unit(direction@).take(direction@.len() as int) =~= s_unit(direction@));
    out
}

fn moment<S: Scalar>(Ghost(image): Ghost<&Matrix<S>>, dev: &Matrix<S>, direction: &Vec<S>) -> (r: Vec<
    S,
>)
    requires
        are_deviations(image, dev),
        direction@.len() == image.ncols(),
    ensures
        r@ == s_moment(image, direction@),
{
    let rows: usize = dev.row_count();
    let cols: usize = dev.col_count();
    let mut out: Vec<S> = filled(cols, S::zero());
    let ghost term = |c: int|
        |p: int| s_along(image, direction@, p).s_times(s_deviation(image, p, c));
    for p in 0..rows
        invariant
            are_deviations(image, dev),
            rows == image.nrows(),
            cols == image.ncols(),
            direction@.len() == cols,
            term == (|c: int|
                |p: int| s_along(image, direction@, p).s_times(s_deviation(image, p, c))),
            out@.len() == cols,
            forall|c: int|
                0 <= c < cols ==> #[trigger] out@[c] == s_sum(S::s_zero(), p as int, term(c)),
    {
        let amount: S = along(Ghost(image), dev, direction, p);
        let ghost before = out@;
        for c in 0..cols
            invariant
                are_deviations(image, dev),
                p < image.nrows(),
                cols == image.ncols(),
                amount == s_along(image, direction@, p as int),
                term == (|c: int|
                    |p: int| s_along(image, direction@, p).s_times(s_deviation(image, p, c))),
                before.len() == cols,
                forall|d: int|
                    0 <= d < cols ==> #[trigger] before[d] == s_sum(
                        S::s_zero(),
                        p as int,
                        term(d),
                    ),
                out@.len() == cols,
                forall|d: int|
                    0 <= d < cols ==> #[trigger] out@[d] == (if d < c {
                        s_sum(S::s_zero(), p + 1, term(d))
                    } else {
                        before[d]
                    }),
        {
            let old_value: S = out[c];
            out.set(c, old_value.plus(amount.times(dev.get(p, c))));
        }
    }
    assert(out@ =~= s_moment(image, direction@)) by {
        assert forall|c: int| 0 <= c < cols implies #[trigger] out@[c] == s_moment(
            image,
            direction@,
        )[c] by {
            assert(term(c) == (|p: int|
                s_along(image, direction@, p).s_times(s_deviation(image, p, c))));
        }
    }
    out
}

/// Whether a probed image cannot be told from a segment.
pub fn image_is_segment<S: Scalar>(image: &Matrix<S>) -> (r: bool)
    requires
        image.wf(),
        image.nrows() > 0,
    ensures
        r == is_degenerate(image),
{
    let rows: usize = image.row_count();
    let cols: usize = image.col_count();
    let dev: Matrix<S> = deviations(image);
    let mut direction: Vec<S> = Vec::new();
    for c in 0..cols
        invariant
            are_deviations(image, &dev),
            image.nrows() > 0,
            cols == image.ncols(),
            direction@.len() == c,
            forall|d: int| 0 <= d < c ==> #[trigger] direction@[d] == s_deviation(image, 0, d),
    {
        direction.push(dev.get(0, c));
    }
    assert(direction@ =~= s_power(image, 0));
    for k in 0..POWER_STEPS
        invariant
            are_deviations(image, &dev),
            cols == image.ncols(),
            direction@.len() == cols,
            direction@ == s_power(image, k as nat),
    {
        let norm: S = energy(&direction).root();
        if S::zero().below(norm) {
            let u: Vec<S> = unit(&direction, norm);
            direction = moment(Ghost(image), &dev, &u);
        }
    }
    let norm: S = energy(&direction).root();
    if !S::zero().below(norm) {
        return false;
    }
    let u: Vec<S> = unit(&direction, norm);
    let mut total: S = S::zero();
    let mut dominant: S = S::zero();
    let ghost f = |p: int|
        s_sum(
            S::s_zero(),
            image.ncols() as int,
            |c: int| s_deviation(image, p, c).s_times(s_deviation(image, p, c)),
        );
    let ghost g = |p: int| s_along(image, u@, p).s_times(s_along(image, u@, p));
    for p in 0..rows
        invariant
            are_deviations(image, &dev),
            rows == image.nrows(),
            cols == image.ncols(),
            u@.len() == cols,
            f == (|p: int|
                s_sum(
                    S::s_zero(),
                    image.ncols() as int,
                    |c: int| s_deviation(image, p, c).s_times(s_deviation(image, p, c)),
                )),
            g == (|p: int| s_along(image, u@, p).s_times(s_along(image, u@, p))),
            total == s_sum(S::s_zero(), p as int, f),
            dominant == s_sum(S::s_zero(), p as int, g),
    {
        let amount: S = along(Ghost(image), &dev, &u, p);
        let mut square: S = S::zero();
        let ghost h = |c: int|
            s_deviation(image, p as int, c).s_times(s_deviation(image, p as int, c));
        for c in 0..cols
            invariant
                are_deviations(image, &dev),
                p < image.nrows(),
                cols == image.ncols(),
                h == (|c: int|
                    s_deviation(image, p as int, c).s_times(s_deviation(image, p as int, c))),
                square == s_sum(S::s_zero(), c as int, h),
        {
            square = square.plus(dev.get(p, c).times(dev.get(p, c)));
        }
        assert(f(p as int) == s_sum(S::s_zero(), cols as int, h)) by {
            assert(h =~= (|c: int|
                s_deviation(image, p as int, c).s_times(s_deviation(image, p as int, c))));
        }
        total = total.plus(square);
        dominant = dominant.plus(amount.times(amount));
    }
    let across: S = total.minus(dominant).larger(S::zero());
    let probes: S = S::count(rows);
    let resolution: S = total.over(probes).over(probes.times(probes));
    S::zero().below(total) && across.at_most(resolution.times(probes))
}

/// What is known of a periodic atom's use: whether its image is a segment, the
/// phases of its uses and the widest gap between them.
#[derive(Debug)]
pub struct LoopCensus<S> {
    pub segment: bool,
    pub phases: Vec<S>,
    pub gap: PhaseGap<S>,
}

/// Phases spread evenly.
pub open spec fn s_even_phases<S: Scalar>(n: nat) -> Seq<S> {
    Seq::new(n, |e: int| S::s_count(e as nat).s_over(S::s_count(n)))
}

impl<S: Scalar> SaeSupportSparseTerm<S> {
    /// The period of a one-dimensional periodic atom that some row uses.
    pub open spec fn s_loop_period(&self, a: int) -> Option<S> {
        let periods = self.state().periods(a);
        if periods.len() == 1 && periods[0] is Some && periods[0]->0.s_finite()
            && S::s_zero().s_below(periods[0]->0) && self.uses()[a].len() > 0 {
            periods[0]
        } else {
            None
        }
    }

    /// The period of a one-dimensional periodic atom that some row uses; the other
    /// atoms are not examined.
    pub fn loop_period(&self, atom: usize) -> (r: Option<S>)
        requires
            self.wf(),
            atom < self.k(),
        ensures
            r == self.s_loop_period(atom as int),
    {
        let periods: &Vec<Option<S>> = self.assignment().atom_axis_periods(atom);
        if periods.len() != 1 {
            return None;
        }
        match periods[0] {
            Some(period) => {
                if period.finite() && S::zero().below(period) && self.rows_of_atom(atom).len() > 0 {
                    Some(period)
                } else {
                    None
                }
            },
            None => None,
        }
    }

    /// The phases of an atom's uses, as fractions of the period.
    pub open spec fn s_phases(&self, a: int, period: S) -> Seq<S> {
        Seq::new(
            self.uses()[a].len(),
            |e: int|
                self.state().coord(
                    self.uses()[a][e].0 as int,
                    self.uses()[a][e].1 as int,
                    0,
                ).s_over(period).s_modulo(S::s_one()),
        )
    }

    /// The phases that decide: an image that is a segment is taken to be used
    /// evenly along it.
    pub open spec fn s_census_phases(&self, a: int, period: S, segment: bool) -> Seq<S> {
        if segment {
            s_even_phases(self.uses()[a].len())
        } else {
            self.s_phases(a, period)
        }
    }

    /// `census` is what atom `a`'s own uses show: its phases, or even ones on a
    /// segment, and the widest gap between them.
    pub open spec fn is_census_of(&self, a: int, census: LoopCensus<S>) -> bool {
        &&& self.s_loop_period(a) matches Some(period)
        &&& census.phases@ == self.s_census_phases(a, period, census.segment)
        &&& census.gap == s_widest_gap(
            s_sorted(census.phases@),
            s_sorted(census.phases@).len() as int,
        )
    }

    /// Examines a periodic atom. `image` holds its decoded image at the probed
    /// coordinates, one to a row.
    pub fn census_loop(&self, atom: usize, image: &Matrix<S>) -> (r: Option<LoopCensus<S>>)
        requires
            self.wf(),
            atom < self.k(),
            image.wf(),
            image.nrows() > 0,
        ensures
            match self.s_loop_period(atom as int) {
                None => r is None,
                Some(_) => {
                    &&& r is Some
                    &&& r->0.segment == is_degenerate(image)
                    &&& self.is_census_of(atom as int, r->0)
                },
            },
    {
        let period: S = match self.loop_period(atom) {
            Some(period) => period,
            None => {
                return None;
            },
        };
        assert(self.atom_wf(atom as int));
        let uses: &Vec<(usize, usize)> = self.rows_of_atom(atom);
        let n: usize = uses.len();
        let segment: bool = image_is_segment(image);
        let ghost all = self.s_census_phases(atom as int, period, segment);
        let mut phases: Vec<S> = Vec::new();
        for e in 0..n
            invariant
                self.wf(),
                atom < self.k(),
                self.state().periods(atom as int).len() == 1,
                n == uses@.len(),
                uses@ == self.uses()[atom as int],
                all == self.s_census_phases(atom as int, period, segment),
                phases@ == all.take(e as int),
        {
            if segment {
                phases.push(S::count(e).over(S::count(n)));
            } else {
                let (row, slot): (usize, usize) = uses[e];
                proof {
                    self.lemma_use(atom as int, e as int);
                    assert(self.state().periods(atom as int).len() == self.state().dims()[atom as int]);
                }
                let coords: Vec<S> = self.assignment().coords_for_slot(row, slot);
                phases.push(coords[0].over(period).modulo(S::one()));
            }
            assert(phases@ =~= all.take(e + 1));
        }
        assert(all.take(n as int) =~= all);
        let gap: PhaseGap<S> = widest_gap(&phases);
        Some(LoopCensus { segment, phases, gap })
    }

    /// Two uses of an atom are different slots.
    proof fn lemma_uses_differ(&self, a: int, e: int, f: int)
        requires
            self.wf(),
            0 <= a < self.k(),
            0 <= e < self.uses()[a].len(),
            0 <= f < self.uses()[a].len(),
            self.uses()[a][e] == self.uses()[a][f],
        ensures
            e == f,
    {
        let supports = self.state().supports();
        assert forall|r: int| 0 <= r < supports.len() implies (#[trigger] supports[r]).len()
            <= usize::MAX by {
            assert(1 <= self.support(r).len() <= self.state().mode_spec()->k);
        }
        law_uses_invert_the_support(supports, self.rows() as int, a);
    }

    /// The replacement of an unrolled atom: a straight chart with a decoder of
    /// zeros.
    pub open spec fn is_fresh_chart(
        &self,
        basis_width: usize,
        penalty: &Matrix<S>,
        fresh: SaeManifoldAtom<S>,
    ) -> bool {
        &&& fresh.kind() == SaeAtomBasisKind::EuclideanPatch
        &&& fresh.dim() == 1
        &&& fresh.m() == basis_width
        &&& fresh.evaluated()
        &&& fresh.penalty().same_as(penalty)
        &&& fresh.decoder().has_shape(basis_width as nat, self.width())
        &&& forall|b: int, c: int|
            0 <= b < basis_width && 0 <= c < self.width() ==> #[trigger] fresh.decoder().at(b, c)
                == S::s_zero()
    }

    /// Atom `a`'s uses lie where their phases unroll to; every other coordinate is
    /// as it was.
    pub open spec fn has_unrolled_coords(
        &self,
        before: &SaeSupportSparseTerm<S>,
        a: int,
        phases: Seq<S>,
        gap: PhaseGap<S>,
    ) -> bool {
        &&& forall|e: int|
            0 <= e < before.uses()[a].len() ==> #[trigger] self.state().coord(
                before.uses()[a][e].0 as int,
                before.uses()[a][e].1 as int,
                0,
            ) == s_unrolled(phases[e], gap)
        &&& forall|row: int, slot: int, axis: int|
            0 <= row < before.rows() && 0 <= slot < before.support(row).len() && 0 <= axis
                < before.state().slot_dim(row, slot) && before.support(row)[slot] != a
                ==> #[trigger] self.state().coord(row, slot, axis) == before.state().coord(
                row,
                slot,
                axis,
            )
    }

    /// Gives a periodic atom a straight chart with the given penalty, and moves
    /// its uses onto it. The support, the routing and the other atoms stay. A
    /// penalty that does not span the basis is refused, and nothing changes.
    pub fn convert_underoccupied_loop(
        &mut self,
        atom: usize,
        census: &LoopCensus<S>,
        basis_width: usize,
        penalty: Matrix<S>,
    ) -> (r: Result<(), AtomError>)
        requires
            old(self).wf(),
            atom < old(self).k(),
            old(self).s_loop_period(atom as int) is Some,
            census.phases@.len() == old(self).uses()[atom as int].len(),
            penalty.wf(),
            basis_width * old(self).width() <= usize::MAX,
        ensures
            final(self).wf(),
            r is Ok <==> penalty.nrows() == basis_width && penalty.ncols() == basis_width,
            r is Ok ==> {
                &&& old(self).is_fresh_chart(
                    basis_width,
                    &penalty,
                    final(self).atom_seq()[atom as int],
                )
                &&& final(self).is_straightened(
                    old(self),
                    atom as int,
                    final(self).atom_seq()[atom as int],
                )
                &&& final(self).has_unrolled_coords(
                    old(self),
                    atom as int,
                    census.phases@,
                    census.gap,
                )
            },
            r matches Err(e) ==> {
                &&& *final(self) == *old(self)
                &&& e == (AtomError::PenaltyShape {
                    rows: penalty.nrows() as usize,
                    cols: penalty.ncols() as usize,
                    basis_width,
                })
            },
    {
        let ghost before = *self;
        let ghost a = atom as int;
        proof {
            assert(self.atom_wf(a));
            assert(self.state().periods(a).len() == self.state().dims()[a]);
        }
        let decoder: Matrix<S> = Matrix::constant(basis_width, self.output_dim(), S::zero());
        let fresh: SaeManifoldAtom<S> = SaeManifoldAtom::new(
            SaeAtomBasisKind::EuclideanPatch,
            1,
            basis_width,
            true,
            decoder,
            penalty,
        );
        if let Err(e) = fresh.validate_shape_contract() {
            return Err(e);
        }
        self.straighten_atom(atom, fresh);
        assert(self.rows() == before.rows());
        let ghost straightened = *self;
        let n: usize = self.rows_of_atom(atom).len();
        for e in 0..n
            invariant
                self.wf(),
                atom < self.k(),
                a == atom,
                before.wf(),
                n == before.uses()[a].len(),
                census.phases@.len() == n,
                self.uses() == before.uses(),
                self.rows() == before.rows(),
                self.state().supports() == before.state().supports(),
                self.state().dims() == before.state().dims(),
                before.state().dims()[a] == 1,
                straightened.is_straightened(&before, a, straightened.atom_seq()[a]),
                self.same_but_coords(&straightened),
                self.atom_seq() == straightened.atom_seq(),
                forall|f: int|
                    0 <= f < e ==> #[trigger] self.state().coord(
                        before.uses()[a][f].0 as int,
                        before.uses()[a][f].1 as int,
                        0,
                    ) == s_unrolled(census.phases@[f], census.gap),
                forall|row: int, slot: int, axis: int|
                    0 <= row < before.rows() && 0 <= slot < before.support(row).len() && 0 <= axis
                        < before.state().slot_dim(row, slot) && before.support(row)[slot] != a
                        ==> #[trigger] self.state().coord(row, slot, axis)
                        == before.state().coord(row, slot, axis),
        {
            let (row, slot): (usize, usize) = self.rows_of_atom(atom)[e];
            proof {
                before.lemma_use(a, e as int);
                self.lemma_use(a, e as int);
            }
            let value: S = unrolled_coordinate(census.phases[e], census.gap);
            let mut values: Vec<S> = Vec::new();
            values.push(value);
            let ghost earlier = *self;
            let outcome = self.set_slot_coords(row, slot, &values);
            assert(outcome is Ok);
            proof {
                assert(values@[0] == value);
                assert forall|f: int| 0 <= f < e + 1 implies #[trigger] self.state().coord(
                    before.uses()[a][f].0 as int,
                    before.uses()[a][f].1 as int,
                    0,
                ) == s_unrolled(census.phases@[f], census.gap) by {
                    before.lemma_use(a, f);
                    if f < e && before.uses()[a][f] == before.uses()[a][e as int] {
                        before.lemma_uses_differ(a, f, e as int);
                    }
                    assert(earlier.state().slot_dim(
                        before.uses()[a][f].0 as int,
                        before.uses()[a][f].1 as int,
                    ) == 1);
                }
            }
        }
        Ok(())
    }
}

/// The logarithms that judge a gap: of what it leaves of the circle, and of the
/// number of phases.
#[derive(Clone, Copy, Debug)]
pub struct GapLogs<S> {
    pub ln_rest: S,
    pub ln_n: S,
}

impl<S: Scalar> LoopCensus<S> {
    /// The closed chart is refuted: the image is a segment, however well it is
    /// occupied, or the use leaves too wide a gap.
    pub open spec fn is_open(&self, logs: GapLogs<S>) -> bool {
        let length = self.gap.length;
        ||| self.segment
        ||| length.s_below(S::s_one()) && S::s_count(self.phases@.len()).s_minus(
            S::s_one(),
        ).s_times(logs.ln_rest).s_at_most(S::s_count(2).s_negate().s_times(logs.ln_n))
        ||| S::s_one().s_at_most(length)
    }

    /// Whether the closed chart is refuted.
    pub fn refutes_closure(&self, logs: GapLogs<S>) -> (r: bool)
        ensures
            r == self.is_open(logs),
    {
        self.segment || closure_refuted(
            self.phases.len(),
            self.gap.length,
            logs.ln_rest,
            logs.ln_n,
        )
    }
}

/// A straight chart to be put in a loop's place.
#[derive(Debug)]
pub struct ChartPlan<S> {
    pub basis_width: usize,
    pub penalty: Matrix<S>,
}

/// What is known of one atom, and what would take its place.
#[derive(Debug)]
pub struct LoopVerdict<S> {
    pub census: Option<LoopCensus<S>>,
    pub logs: GapLogs<S>,
    pub plan: ChartPlan<S>,
}

impl<S: Scalar> LoopVerdict<S> {
    /// The atom is examined, and its closed chart refuted.
    pub open spec fn is_refuted(&self) -> bool {
        self.census is Some && self.census->0.is_open(self.logs)
    }

    /// The plan's penalty spans its basis.
    pub open spec fn plan_fits(&self) -> bool {
        self.plan.penalty.nrows() == self.plan.basis_width && self.plan.penalty.ncols()
            == self.plan.basis_width
    }

    fn refuted(&self) -> (r: bool)
        ensures
            r == self.is_refuted(),
    {
        match &self.census {
            Some(census) => census.refutes_closure(self.logs),
            None => false,
        }
    }
}

/// The refuted atoms among the first `n`.
pub open spec fn refuted_below<S: Scalar>(verdicts: Seq<LoopVerdict<S>>, n: int) -> Seq<usize>
    decreases n,
{
    if n <= 0 {
        Seq::empty()
    } else if verdicts[n - 1].is_refuted() {
        refuted_below(verdicts, n - 1).push((n - 1) as usize)
    } else {
        refuted_below(verdicts, n - 1)
    }
}

/// The first refuted atom from `a` on whose plan does not fit, or the number of
/// atoms.
pub open spec fn first_misfit<S: Scalar>(verdicts: Seq<LoopVerdict<S>>, a: int) -> int
    decreases verdicts.len() - a,
{
    if a >= verdicts.len() {
        verdicts.len() as int
    } else if verdicts[a].is_refuted() && !verdicts[a].plan_fits() {
        a
    } else {
        first_misfit(verdicts, a + 1)
    }
}

impl<S: Scalar> SaeSupportSparseTerm<S> {
    /// A verdict on atom `a` can be carried out.
    pub open spec fn verdict_fits(&self, verdict: &LoopVerdict<S>, a: int) -> bool {
        &&& verdict.plan.penalty.wf()
        &&& verdict.plan.basis_width * self.width() <= usize::MAX
        &&& verdict.census is Some ==> self.is_census_of(a, verdict.census->0)
    }

    /// Atom `a` is refuted and among the first `n`.
    pub open spec fn is_converted(verdicts: Seq<LoopVerdict<S>>, n: int, a: int) -> bool {
        0 <= a < n && verdicts[a].is_refuted()
    }

    /// The routing, the knobs and the widths are those of `before`; the refuted
    /// atoms among the first `n` have straight charts and unrolled coordinates, and
    /// the other atoms are as they were, with their coordinates.
    pub open spec fn has_converted(
        &self,
        before: &SaeSupportSparseTerm<S>,
        verdicts: Seq<LoopVerdict<S>>,
        n: int,
    ) -> bool {
        &&& self.k() == before.k()
        &&& self.width() == before.width()
        &&& self.uses() == before.uses()
        &&& self.knob_spec() == before.knob_spec()
        &&& self.state().mode_spec() == before.state().mode_spec()
        &&& self.state().dims() == before.state().dims()
        &&& self.state().supports() == before.state().supports()
        &&& self.state().gate_rows() == before.state().gate_rows()
        &&& forall|a: int|
            0 <= a < before.k() && !Self::is_converted(verdicts, n, a)
                ==> #[trigger] self.atom_seq()[a] == before.atom_seq()[a]
        &&& forall|a: int|
            0 <= a < before.k() && !Self::is_converted(verdicts, n, a)
                ==> #[trigger] self.state().periods(a) == before.state().periods(a)
        &&& forall|a: int|
            0 <= a < before.k() && Self::is_converted(verdicts, n, a) ==> before.is_fresh_chart(
                verdicts[a].plan.basis_width,
                &verdicts[a].plan.penalty,
                #[trigger] self.atom_seq()[a],
            )
        &&& forall|a: int|
            0 <= a < before.k() && Self::is_converted(verdicts, n, a)
                ==> #[trigger] self.state().periods(a) == seq![None::<S>]
        &&& forall|a: int, e: int|
            0 <= a < before.k() && Self::is_converted(verdicts, n, a) && 0 <= e
                < before.uses()[a].len() ==> self.state().coord(
                (#[trigger] before.uses()[a][e]).0 as int,
                before.uses()[a][e].1 as int,
                0,
            ) == s_unrolled(verdicts[a].census->0.phases@[e], verdicts[a].census->0.gap)
        &&& forall|row: int, slot: int, axis: int|
            0 <= row < before.rows() && 0 <= slot < before.support(row).len() && 0 <= axis
                < before.state().slot_dim(row, slot) && !Self::is_converted(
                verdicts,
                n,
                before.support(row)[slot] as int,
            ) ==> #[trigger] self.state().coord(row, slot, axis) == before.state().coord(
                row,
                slot,
                axis,
            )
    }

    /// Gives every refuted atom its straight chart, in order, and returns the
    /// atoms. The first plan that does not fit ends the conversion; the atoms
    /// before it are converted.
    pub fn convert_underoccupied_loops(&mut self, verdicts: &Vec<LoopVerdict<S>>) -> (r: Result<
        Vec<usize>,
        AtomError,
    >)
        requires
            old(self).wf(),
            verdicts@.len() == old(self).k(),
            forall|a: int|
                0 <= a < verdicts@.len() ==> old(self).verdict_fits(#[trigger] &verdicts@[a], a),
        ensures
            final(self).wf(),
            final(self).has_converted(old(self), verdicts@, first_misfit(verdicts@, 0)),
            if first_misfit(verdicts@, 0) == old(self).k() {
                r is Ok && r->Ok_0@ == refuted_below(verdicts@, old(self).k() as int)
            } else {
                let plan = verdicts@[first_misfit(verdicts@, 0)].plan;
                r == Err::<Vec<usize>, AtomError>(
                    AtomError::PenaltyShape {
                        rows: plan.penalty.nrows() as usize,
                        cols: plan.penalty.ncols() as usize,
                        basis_width: plan.basis_width,
                    },
                )
            },
    {
        let ghost before = *self;
        let k_atoms: usize = self.k_atoms();
        let mut converted: Vec<usize> = Vec::new();
        for atom in 0..k_atoms
            invariant
                before == *old(self),
                before.wf(),
                self.wf(),
                k_atoms == before.k(),
                verdicts@.len() == k_atoms,
                forall|a: int|
                    0 <= a < verdicts@.len() ==> before.verdict_fits(#[trigger] &verdicts@[a], a),
                self.has_converted(&before, verdicts@, atom as int),
                first_misfit(verdicts@, 0) == first_misfit(verdicts@, atom as int),
                converted@ == refuted_below(verdicts@, atom as int),
        {
            let ghost a = atom as int;
            assert(before.verdict_fits(&verdicts@[a], a));
            if verdicts[atom].refuted() {
                if let Some(census) = &verdicts[atom].census {
                    let plan: &ChartPlan<S> = &verdicts[atom].plan;
                    let ghost earlier = *self;
                    assert(!Self::is_converted(verdicts@, a, a));
                    assert(earlier.state().periods(a) == before.state().periods(a));
                    let outcome = self.convert_underoccupied_loop(
                        atom,
                        census,
                        plan.basis_width,
                        plan.penalty.copy(),
                    );
                    if let Err(e) = outcome {
                        return Err(e);
                    }
                    proof {
                        before.lemma_converted_step(&earlier, self, verdicts@, a);
                    }
                    converted.push(atom);
                }
            } else {
                proof {
                    before.lemma_skipped_step(self, verdicts@, a);
                }
            }
        }
        Ok(converted)
    }

    proof fn lemma_skipped_step(
        &self,
        after: &SaeSupportSparseTerm<S>,
        verdicts: Seq<LoopVerdict<S>>,
        a: int,
    )
        requires
            after.has_converted(self, verdicts, a),
            0 <= a < verdicts.len(),
            !verdicts[a].is_refuted(),
        ensures
            after.has_converted(self, verdicts, a + 1),
    {
        assert forall|b: int| Self::is_converted(verdicts, a + 1, b) == Self::is_converted(
            verdicts,
            a,
            b,
        ) by {}
    }

    proof fn lemma_converted_step(
        &self,
        earlier: &SaeSupportSparseTerm<S>,
        after: &SaeSupportSparseTerm<S>,
        verdicts: Seq<LoopVerdict<S>>,
        a: int,
    )
        requires
            self.wf(),
            earlier.wf(),
            0 <= a < self.k(),
            verdicts.len() == self.k(),
            forall|b: int|
                0 <= b < verdicts.len() ==> self.verdict_fits(#[trigger] &verdicts[b], b),
            verdicts[a].is_refuted(),
            earlier.has_converted(self, verdicts, a),
            earlier.is_fresh_chart(
                verdicts[a].plan.basis_width,
                &verdicts[a].plan.penalty,
                after.atom_seq()[a],
            ),
            after.is_straightened(earlier, a, after.atom_seq()[a]),
            after.has_unrolled_coords(
                earlier,
                a,
                verdicts[a].census->0.phases@,
                verdicts[a].census->0.gap,
            ),
        ensures
            after.has_converted(self, verdicts, a + 1),
    {
        assert(self.verdict_fits(&verdicts[a], a));
        assert(self.state().periods(a).len() == self.state().dims()[a]);
        assert(after.state().periods(a) =~= seq![None::<S>]);
        assert forall|b: int| 0 <= b < self.k() && b != a implies Self::is_converted(
            verdicts,
            a + 1,
            b,
        ) == Self::is_converted(verdicts, a, b) by {}
        assert forall|b: int|
            0 <= b < self.k() && Self::is_converted(verdicts, a + 1, b) implies self.is_fresh_chart(
            verdicts[b].plan.basis_width,
            &verdicts[b].plan.penalty,
            #[trigger] after.atom_seq()[b],
        ) by {
            if b != a {
                assert(after.atom_seq()[b] == earlier.atom_seq()[b]);
            }
        }
        assert forall|b: int, e: int|
            0 <= b < self.k() && Self::is_converted(verdicts, a + 1, b) && 0 <= e
                < self.uses()[b].len() implies after.state().coord(
            (#[trigger] self.uses()[b][e]).0 as int,
            self.uses()[b][e].1 as int,
            0,
        ) == s_unrolled(verdicts[b].census->0.phases@[e], verdicts[b].census->0.gap) by {
            self.lemma_use(b, e);
            let row = self.uses()[b][e].0 as int;
            let slot = self.uses()[b][e].1 as int;
            if b == a {
                assert(earlier.uses()[a][e] == self.uses()[b][e]);
                assert(after.state().coord(
                    earlier.uses()[a][e].0 as int,
                    earlier.uses()[a][e].1 as int,
                    0,
                ) == s_unrolled(verdicts[a].census->0.phases@[e], verdicts[a].census->0.gap));
            } else {
                assert(self.verdict_fits(&verdicts[b], b));
                assert(self.state().periods(b).len() == self.state().dims()[b]);
                assert(after.state().coord(row, slot, 0) == earlier.state().coord(row, slot, 0));
            }
        }
    }
}

/// A loop whose image is a segment is unrolled, whatever its phases and their
/// gap.
pub proof fn law_a_segment_is_unrolled<S: Scalar>(
    verdicts: Seq<LoopVerdict<S>>,
    n: int,
    a: int,
)
    requires
        0 <= a < n <= verdicts.len() <= usize::MAX,
        verdicts[a].census is Some,
        verdicts[a].census->0.segment,
    ensures
        SaeSupportSparseTerm::<S>::is_converted(verdicts, n, a),
        refuted_below(verdicts, n).contains(a as usize),
    decreases n,
{
    let below = refuted_below(verdicts, n);
    if a == n - 1 {
        assert(below[below.len() - 1] == a as usize);
    } else {
        law_a_segment_is_unrolled(verdicts, n - 1, a);
        let rest = refuted_below(verdicts, n - 1);
        let i = choose|i: int| 0 <= i < rest.len() && rest[i] == a as usize;
        assert(below[i] == a as usize);
    }
}

/// A converted atom is no loop any more, so that a second conversion leaves it
/// alone.
pub proof fn law_converted_atom_is_no_loop<S: Scalar>(
    before: &SaeSupportSparseTerm<S>,
    after: &SaeSupportSparseTerm<S>,
    verdicts: Seq<LoopVerdict<S>>,
    n: int,
    a: int,
)
    requires
        0 <= a < before.k(),
        after.has_converted(before, verdicts, n),
        SaeSupportSparseTerm::<S>::is_converted(verdicts, n, a),
    ensures
        after.s_loop_period(a) is None,
{
    assert(after.state().periods(a) == seq![None::<S>]);
}

/// The two lists were made by examining every loop, and what is answered from
/// outside about an atom that stays as it was, whether its image is a segment and
/// the logarithms of its gap, is answered alike.
pub open spec fn are_judged_alike<S: Scalar>(
    before: &SaeSupportSparseTerm<S>,
    first: Seq<LoopVerdict<S>>,
    second: Seq<LoopVerdict<S>>,
) -> bool {
    &&& forall|a: int|
        0 <= a < before.k() && before.s_loop_period(a) is Some ==> (
        #[trigger] first[a]).census is Some
    &&& forall|a: int|
        0 <= a < before.k() && first[a].census is Some && (#[trigger] second[a]).census is Some
            && !first[a].is_refuted() ==> {
            &&& second[a].census->0.segment == first[a].census->0.segment
            &&& second[a].logs == first[a].logs
        }
}

/// A conversion leaves nothing for a second one: judged alike, no atom is refuted,
/// so that none is returned, and neither a chart nor a coordinate changes.
pub proof fn law_a_second_conversion_changes_nothing<S: Scalar>(
    before: &SaeSupportSparseTerm<S>,
    after: &SaeSupportSparseTerm<S>,
    last: &SaeSupportSparseTerm<S>,
    first: Seq<LoopVerdict<S>>,
    second: Seq<LoopVerdict<S>>,
)
    requires
        before.wf(),
        first.len() == before.k(),
        second.len() == before.k(),
        forall|a: int| 0 <= a < before.k() ==> before.verdict_fits(&#[trigger] first[a], a),
        after.has_converted(before, first, before.k() as int),
        forall|a: int| 0 <= a < before.k() ==> after.verdict_fits(&#[trigger] second[a], a),
        last.has_converted(after, second, before.k() as int),
        are_judged_alike(before, first, second),
    ensures
        refuted_below(second, before.k() as int) == Seq::<usize>::empty(),
        first_misfit(second, 0) == before.k(),
        forall|a: int| 0 <= a < before.k() ==> #[trigger] last.atom_seq()[a] == after.atom_seq()[a],
        forall|a: int|
            0 <= a < before.k() ==> #[trigger] last.state().periods(a) == after.state().periods(a),
        last.state().supports() == after.state().supports(),
        last.state().gate_rows() == after.state().gate_rows(),
        last.knob_spec() == after.knob_spec(),
        forall|row: int, slot: int, axis: int|
            0 <= row < after.rows() && 0 <= slot < after.support(row).len() && 0 <= axis
                < after.state().slot_dim(row, slot) ==> #[trigger] last.state().coord(
                row,
                slot,
                axis,
            ) == after.state().coord(row, slot, axis),
{
    let k = before.k() as int;
    assert forall|a: int| 0 <= a < k implies !(#[trigger] second[a]).is_refuted() by {
        assert(after.verdict_fits(&second[a], a));
        assert(before.verdict_fits(&first[a], a));
        if second[a].census is Some {
            if first[a].is_refuted() {
                law_converted_atom_is_no_loop(before, after, first, k, a);
                assert(false);
            }
            assert(!SaeSupportSparseTerm::<S>::is_converted(first, k, a));
            assert(after.state().periods(a) == before.state().periods(a));
            assert(before.s_loop_period(a) == after.s_loop_period(a));
            assert(first[a].census is Some);
            let period = before.s_loop_period(a)->0;
            assert(before.atom_wf(a));
            assert(before.s_phases(a, period) =~= after.s_phases(a, period)) by {
                assert forall|e: int| 0 <= e < before.uses()[a].len() implies before.s_phases(
                    a,
                    period,
                )[e] == after.s_phases(a, period)[e] by {
                    before.lemma_use(a, e);
                    let row = before.uses()[a][e].0 as int;
                    let slot = before.uses()[a][e].1 as int;
                    assert(before.state().periods(a).len() == before.state().dims()[a]);
                    assert(after.state().coord(row, slot, 0) == before.state().coord(row, slot, 0));
                }
            }
            assert(second[a].census->0.phases@ == first[a].census->0.phases@);
        }
    }
    lemma_none_refuted(second, k);
    lemma_none_misfit(second, 0);
    assert forall|a: int| !SaeSupportSparseTerm::<S>::is_converted(second, k, a) by {
        if 0 <= a < k {
            assert(!second[a].is_refuted());
        }
    }
}

proof fn lemma_none_refuted<S: Scalar>(verdicts: Seq<LoopVerdict<S>>, n: int)
    requires
        0 <= n <= verdicts.len(),
        forall|a: int| 0 <= a < n ==> !(#[trigger] verdicts[a]).is_refuted(),
    ensures
        refuted_below(verdicts, n) == Seq::<usize>::empty(),
    decreases n,
{
    if n > 0 {
        lemma_none_refuted(verdicts, n - 1);
        assert(!verdicts[n - 1].is_refuted());
    }
}

proof fn lemma_none_misfit<S: Scalar>(verdicts: Seq<LoopVerdict<S>>, a: int)
    requires
        0 <= a <= verdicts.len(),
        forall|b: int| 0 <= b < verdicts.len() ==> !(#[trigger] verdicts[b]).is_refuted(),
    ensures
        first_misfit(verdicts, a) == verdicts.len(),
    decreases verdicts.len() - a,
{
    if a < verdicts.len() {
        assert(!verdicts[a].is_refuted());
        lemma_none_misfit(verdicts, a + 1);
    }
}

} // verus!
