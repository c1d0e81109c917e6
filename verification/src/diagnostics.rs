//! What the diagnostics of a response and of a gradient report, in exact arithmetic.
use crate::evidence::{
    count_above, s_complement_at, s_entry_gap, s_largest, s_residual_dof,
};
use crate::exact::{
    is_exact, larger, lemma_exact_grid_of, lemma_exact_sum_of, lemma_over,
    lemma_product_positive, lemma_total_ext, lemma_total_minus,
    lemma_total_plus, lemma_total_scaled, magnitude, total, total2,
};
use crate::matrix::Matrix;
use crate::peaks::{lemma_exact_max_of, peak};
use crate::quadratic::lemma_single_term;
use crate::scalar::{s_max, Scalar};
use crate::spectral::s_trace;
use vstd::prelude::*;

verus! {

/// The residual degrees of freedom of a square response are its size, less twice its
/// trace, and the sum of its squared entries.
pub proof fn law_residual_degrees_follow_from_the_trace<S: Scalar>(
    v: spec_fn(S) -> real,
    m: &Matrix<S>,
)
    requires
        is_exact(v),
        m.nrows() == m.ncols(),
    ensures
        v(s_trace(m)) == total(m.nrows() as int, |i: int| v(m.at(i, i))),
        v(s_residual_dof(m)) == m.nrows() as real - 2 as real * v(s_trace(m)) + total2(
            m.nrows() as int,
            m.nrows() as int,
            |i: int, j: int| v(m.at(i, j)) * v(m.at(i, j)),
        ),
{
    let n = m.nrows() as int;
    let f = |i: int| m.at(i, i);
    let g = |i: int| v(m.at(i, i));
    lemma_exact_sum_of(v, S::s_zero(), n, f, g);
    let cell = |i: int, j: int| s_complement_at(m, i, j).s_times(s_complement_at(m, i, j));
    let here = |i: int, j: int| v(cell(i, j));
    lemma_exact_grid_of(v, S::s_zero(), n, n, cell, here);
    let square = |i: int, j: int| v(m.at(i, j)) * v(m.at(i, j));
    let lines = |i: int| total(n, |j: int| here(i, j));
    let plain = |i: int| total(n, |j: int| square(i, j));
    let twice = |i: int| 2 as real * g(i);
    let one = |i: int| 1 as real;
    let part = |i: int| one(i) - twice(i);
    let all = |i: int| part(i) + plain(i);
    assert forall|i: int| 0 <= i < n implies #[trigger] lines(i) == all(i) by {
        let rest = |j: int| here(i, j) - square(i, j);
        let left = |j: int| here(i, j);
        let right = |j: int| square(i, j);
        lemma_total_minus(n, left, right);
        lemma_total_ext(n, rest, |j: int| left(j) - right(j));
        assert forall|j: int| 0 <= j < n && j != i implies #[trigger] rest(j) == 0 as real by {
            let x = v(m.at(i, j));
            assert((-x) * (-x) == x * x) by (nonlinear_arith);
        }
        lemma_single_term(n, i, rest);
        let x = v(m.at(i, i));
        assert((1 as real - x) * (1 as real - x) == 1 as real - 2 as real * x + x * x)
            by (nonlinear_arith);
    }
    lemma_total_ext(n, lines, all);
    lemma_total_scaled(n, 2 as real, g);
    lemma_total_minus(n, one, twice);
    lemma_total_plus(n, part, plain);
    lemma_ones(n, one);
}

proof fn lemma_ones(n: int, f: spec_fn(int) -> real)
    requires
        0 <= n,
        forall|i: int| 0 <= i < n ==> #[trigger] f(i) == 1 as real,
    ensures
        total(n, f) == n as real,
    decreases n,
{
    if n > 0 {
        lemma_ones(n - 1, f);
        assert(f(n - 1) == 1 as real);
    }
}

/// A rank counts every singular value above the cutoff once, and no other.
pub proof fn law_a_rank_counts_the_values_above_the_cutoff<S: Scalar>(
    v: spec_fn(S) -> real,
    values: Seq<S>,
    cutoff: S,
    n: int,
)
    requires
        is_exact(v),
        0 <= n <= values.len(),
    ensures
        count_above(values, cutoff, n) as real == total(
            n,
            |i: int|
                if v(values[i]) > v(cutoff) {
                    1 as real
                } else {
                    0 as real
                },
        ),
        v(s_largest(values)) == peak(values.len() as int, |i: int| v(values[i])),
    decreases n,
{
    let f = |i: int| values[i];
    let g = |i: int| v(values[i]);
    lemma_exact_max_of(v, values.len() as int, f, g);
    if n > 0 {
        law_a_rank_counts_the_values_above_the_cutoff(v, values, cutoff, n - 1);
    }
}

/// How far an entry is from its reference, relative to one and the reference.
pub open spec fn relative_gap<S: Scalar>(v: spec_fn(S) -> real, expected: S, found: S) -> real {
    magnitude(v(expected) - v(found)) / (1 as real + magnitude(v(expected)))
}

/// The gap of two lists is at least every entry's and no more than it has to be; it is
/// nothing exactly where all entries agree.
pub proof fn law_the_gap_is_the_largest_relative_difference<S: Scalar>(
    v: spec_fn(S) -> real,
    start: S,
    reference: Seq<S>,
    actual: Seq<S>,
)
    requires
        is_exact(v),
        v(start) >= 0 as real,
    ensures
        v(s_entry_gap(start, reference, actual)) >= v(start),
        forall|i: int|
            0 <= i < reference.len() ==> #[trigger] relative_gap(v, reference[i], actual[i]) <= v(
                s_entry_gap(start, reference, actual),
            ),
        v(s_entry_gap(start, reference, actual)) == v(start) || exists|i: int|
            0 <= i < reference.len() && #[trigger] relative_gap(v, reference[i], actual[i]) == v(
                s_entry_gap(start, reference, actual),
            ),
        v(s_entry_gap(start, reference, actual)) == 0 as real <==> v(start) == 0 as real && forall|
            i: int,
        |
            0 <= i < reference.len() ==> v(#[trigger] reference[i]) == v(actual[i]),
{
    let n = reference.len() as int;
    lemma_gap(v, start, reference, actual, n);
    let gap = v(s_entry_gap(start, reference, actual));
    assert forall|i: int| 0 <= i < n implies (#[trigger] relative_gap(v, reference[i], actual[i])
        >= 0 as real && (relative_gap(v, reference[i], actual[i]) == 0 as real <==> v(reference[i])
        == v(actual[i]))) by {
        lemma_relative_gap(v(reference[i]), v(actual[i]));
    }
    if gap == 0 as real {
        assert forall|i: int| 0 <= i < n implies v(#[trigger] reference[i]) == v(actual[i]) by {
            assert(relative_gap(v, reference[i], actual[i]) <= gap);
        }
    }
    if v(start) == 0 as real && (forall|i: int|
        0 <= i < reference.len() ==> v(#[trigger] reference[i]) == v(actual[i])) {
        if gap != v(start) {
            let i = choose|i: int|
                0 <= i < n && #[trigger] relative_gap(v, reference[i], actual[i]) == gap;
            assert(v(reference[i]) == v(actual[i]));
        }
    }
}

proof fn lemma_relative_gap(x: real, y: real)
    ensures
        magnitude(x - y) / (1 as real + magnitude(x)) >= 0 as real,
        magnitude(x - y) / (1 as real + magnitude(x)) == 0 as real <==> x == y,
{
    let top = magnitude(x - y);
    let bottom = 1 as real + magnitude(x);
    lemma_over(top, bottom);
    let q = top / bottom;
    if q < 0 as real {
        lemma_product_positive(-q, bottom);
        assert((-q) * bottom == -(q * bottom)) by (nonlinear_arith);
    }
    if q > 0 as real {
        lemma_product_positive(q, bottom);
    }
    if q == 0 as real {
        assert((0 as real) * bottom == 0 as real) by (nonlinear_arith);
    }
}

proof fn lemma_gap<S: Scalar>(
    v: spec_fn(S) -> real,
    start: S,
    reference: Seq<S>,
    actual: Seq<S>,
    n: int,
)
    requires
        is_exact(v),
        0 <= n <= reference.len(),
    ensures
        ({
            let f = |i: int|
                reference[i].s_minus(actual[i]).s_magnitude().s_over(
                    S::s_one().s_plus(reference[i].s_magnitude()),
                );
            let gap = v(s_max(start, n, f));
            &&& gap >= v(start)
            &&& forall|i: int|
                0 <= i < n ==> #[trigger] relative_gap(v, reference[i], actual[i]) <= gap
            &&& gap == v(start) || exists|i: int|
                0 <= i < n && #[trigger] relative_gap(v, reference[i], actual[i]) == gap
        }),
    decreases n,
{
    if n > 0 {
        lemma_gap(v, start, reference, actual, n - 1);
        let f = |i: int|
            reference[i].s_minus(actual[i]).s_magnitude().s_over(
                S::s_one().s_plus(reference[i].s_magnitude()),
            );
        let before = v(s_max(start, n - 1, f));
        let last = relative_gap(v, reference[n - 1], actual[n - 1]);
        assert(v(f(n - 1)) == last);
        let gap = v(s_max(start, n, f));
        assert(gap == larger(before, last));
        if before < last {
            assert(relative_gap(v, reference[n - 1], actual[n - 1]) == gap);
        } else if before != v(start) {
            let i = choose|i: int|
                0 <= i < n - 1 && #[trigger] relative_gap(v, reference[i], actual[i]) == before;
            assert(relative_gap(v, reference[i], actual[i]) == gap);
        }
    }
}

} // verus!
