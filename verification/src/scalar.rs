//! The arithmetic the term is written over.
//!
//! Every kernel of this crate is generic in its number type. A `Scalar` is a
//! set of values with the operations the kernels use; each operation is tied to
//! a spec function of its own, so that a contract can say which operations were
//! applied to which values, and in which order. Nothing else is promised of the
//! operations: no law of algebra holds of rounded arithmetic, and no contract in
//! this crate rests on one. Where a law needs an order to survive rounding, it says
//! so (see `rounding` and `exact`).
//!
//! The contracts of this crate hold only of number types that define the spec
//! functions, and whose operations have been verified against them; `Fixed` is one.
//! A type that ordinary code brings cannot define them. It keeps the defaults, each
//! of which is one fixed value, and which its operations do not meet: of such a type
//! the contracts say which operations the code applies, and nothing is proved.
use vstd::prelude::*;

verus! {

/// A number type: constants, arithmetic and comparisons, each a function of its
/// arguments alone.
pub trait Scalar: Sized + Copy {
    closed spec fn s_zero() -> Self {
        arbitrary()
    }

    closed spec fn s_one() -> Self {
        arbitrary()
    }

    /// The distance from one to the next representable number.
    closed spec fn s_epsilon() -> Self {
        arbitrary()
    }

    /// The smallest positive number of full precision.
    closed spec fn s_tiny() -> Self {
        arbitrary()
    }

    /// The value above every finite number.
    closed spec fn s_infinity() -> Self {
        arbitrary()
    }

    /// The number that stands for the count `n`.
    closed spec fn s_count(n: nat) -> Self {
        arbitrary()
    }

    closed spec fn s_plus(self, rhs: Self) -> Self {
        arbitrary()
    }

    closed spec fn s_minus(self, rhs: Self) -> Self {
        arbitrary()
    }

    closed spec fn s_times(self, rhs: Self) -> Self {
        arbitrary()
    }

    closed spec fn s_over(self, rhs: Self) -> Self {
        arbitrary()
    }

    closed spec fn s_negate(self) -> Self {
        arbitrary()
    }

    closed spec fn s_magnitude(self) -> Self {
        arbitrary()
    }

    closed spec fn s_root(self) -> Self {
        arbitrary()
    }

    closed spec fn s_nearest(self) -> Self {
        arbitrary()
    }

    /// The remainder of a Euclidean division.
    closed spec fn s_modulo(self, rhs: Self) -> Self {
        arbitrary()
    }

    /// `self * factor + addend`, rounded once.
    closed spec fn s_fused(self, factor: Self, addend: Self) -> Self {
        arbitrary()
    }

    closed spec fn s_larger(self, rhs: Self) -> Self {
        arbitrary()
    }

    closed spec fn s_smaller(self, rhs: Self) -> Self {
        arbitrary()
    }

    closed spec fn s_below(self, rhs: Self) -> bool {
        arbitrary()
    }

    closed spec fn s_at_most(self, rhs: Self) -> bool {
        arbitrary()
    }

    closed spec fn s_same(self, rhs: Self) -> bool {
        arbitrary()
    }

    closed spec fn s_finite(self) -> bool {
        arbitrary()
    }

    fn zero() -> (r: Self)
        ensures
            r == Self::s_zero(),
    ;

    fn one() -> (r: Self)
        ensures
            r == Self::s_one(),
    ;

    fn epsilon() -> (r: Self)
        ensures
            r == Self::s_epsilon(),
    ;

    fn tiny() -> (r: Self)
        ensures
            r == Self::s_tiny(),
    ;

    fn infinity() -> (r: Self)
        ensures
            r == Self::s_infinity(),
    ;

    fn count(n: usize) -> (r: Self)
        ensures
            r == Self::s_count(n as nat),
    ;

    fn plus(self, rhs: Self) -> (r: Self)
        ensures
            r == self.s_plus(rhs),
    ;

    fn minus(self, rhs: Self) -> (r: Self)
        ensures
            r == self.s_minus(rhs),
    ;

    fn times(self, rhs: Self) -> (r: Self)
        ensures
            r == self.s_times(rhs),
    ;

    fn over(self, rhs: Self) -> (r: Self)
        ensures
            r == self.s_over(rhs),
    ;

    fn negate(self) -> (r: Self)
        ensures
            r == self.s_negate(),
    ;

    fn magnitude(self) -> (r: Self)
        ensures
            r == self.s_magnitude(),
    ;

    fn root(self) -> (r: Self)
        ensures
            r == self.s_root(),
    ;

    fn nearest(self) -> (r: Self)
        ensures
            r == self.s_nearest(),
    ;

    fn modulo(self, rhs: Self) -> (r: Self)
        ensures
            r == self.s_modulo(rhs),
    ;

    fn fused(self, factor: Self, addend: Self) -> (r: Self)
        ensures
            r == self.s_fused(factor, addend),
    ;

    fn larger(self, rhs: Self) -> (r: Self)
        ensures
            r == self.s_larger(rhs),
    ;

    fn smaller(self, rhs: Self) -> (r: Self)
        ensures
            r == self.s_smaller(rhs),
    ;

    fn below(self, rhs: Self) -> (r: bool)
        ensures
            r == self.s_below(rhs),
    ;

    fn at_most(self, rhs: Self) -> (r: bool)
        ensures
            r == self.s_at_most(rhs),
    ;

    fn same(self, rhs: Self) -> (r: bool)
        ensures
            r == self.s_same(rhs),
    ;

    fn finite(self) -> (r: bool)
        ensures
            r == self.s_finite(),
    ;
}

/// `numerator / denominator` as a number.
pub open spec fn s_ratio<S: Scalar>(numerator: nat, denominator: nat) -> S {
    S::s_count(numerator).s_over(S::s_count(denominator))
}

pub fn ratio<S: Scalar>(numerator: usize, denominator: usize) -> (r: S)
    ensures
        r == s_ratio::<S>(numerator as nat, denominator as nat),
{
    S::count(numerator).over(S::count(denominator))
}

/// One half.
pub open spec fn s_half<S: Scalar>() -> S {
    s_ratio::<S>(1, 2)
}

pub fn half<S: Scalar>() -> (r: S)
    ensures
        r == s_half::<S>(),
{
    ratio::<S>(1, 2)
}

/// A count, or one if it is zero.
pub open spec fn at_least_one(m: nat) -> nat {
    if m == 0 {
        1
    } else {
        m
    }
}

/// `m`, or one if it is zero.
pub fn count_at_least_one<S: Scalar>(m: usize) -> (r: S)
    ensures
        r == S::s_count(at_least_one(m as nat)),
{
    S::count(
        if m == 0 {
            1
        } else {
            m
        },
    )
}

/// `start + term(0) + term(1) + .. + term(n - 1)`, added in that order.
pub open spec fn s_sum<S: Scalar>(start: S, n: int, term: spec_fn(int) -> S) -> S
    decreases n,
{
    if n <= 0 {
        start
    } else {
        s_sum(start, n - 1, term).s_plus(term(n - 1))
    }
}

/// The largest of `start`, `term(0)`, .., `term(n - 1)`, taken in that order.
pub open spec fn s_max<S: Scalar>(start: S, n: int, term: spec_fn(int) -> S) -> S
    decreases n,
{
    if n <= 0 {
        start
    } else {
        s_max(start, n - 1, term).s_larger(term(n - 1))
    }
}

/// `start + term(r, 0) + .. + term(r, n - 1)`, added in that order.
pub open spec fn s_line_sum<S: Scalar>(
    start: S,
    r: int,
    n: int,
    term: spec_fn(int, int) -> S,
) -> S
    decreases n,
{
    if n <= 0 {
        start
    } else {
        s_line_sum(start, r, n - 1, term).s_plus(term(r, n - 1))
    }
}

/// The terms of `rows` lines of `cols` each, added line by line to `start`.
pub open spec fn s_grid_sum<S: Scalar>(
    start: S,
    rows: int,
    cols: int,
    term: spec_fn(int, int) -> S,
) -> S
    decreases rows,
{
    if rows <= 0 {
        start
    } else {
        s_line_sum(s_grid_sum(start, rows - 1, cols, term), rows - 1, cols, term)
    }
}

/// The largest of `start` and the terms of one line.
pub open spec fn s_line_max<S: Scalar>(
    start: S,
    r: int,
    n: int,
    term: spec_fn(int, int) -> S,
) -> S
    decreases n,
{
    if n <= 0 {
        start
    } else {
        s_line_max(start, r, n - 1, term).s_larger(term(r, n - 1))
    }
}

/// The largest of `start` and the terms of `rows` lines of `cols` each.
pub open spec fn s_grid_max<S: Scalar>(
    start: S,
    rows: int,
    cols: int,
    term: spec_fn(int, int) -> S,
) -> S
    decreases rows,
{
    if rows <= 0 {
        start
    } else {
        s_line_max(s_grid_max(start, rows - 1, cols, term), rows - 1, cols, term)
    }
}

/// `start - term(0) - .. - term(n - 1)`, subtracted in that order.
pub open spec fn s_less<S: Scalar>(start: S, n: int, term: spec_fn(int) -> S) -> S
    decreases n,
{
    if n <= 0 {
        start
    } else {
        s_less(start, n - 1, term).s_minus(term(n - 1))
    }
}

/// The terms of `rows` lines, line `r` having `width(r)` of them, added line by
/// line to `start`.
pub open spec fn s_ragged_sum<S: Scalar>(
    start: S,
    rows: int,
    width: spec_fn(int) -> int,
    term: spec_fn(int, int) -> S,
) -> S
    decreases rows,
{
    if rows <= 0 {
        start
    } else {
        s_line_sum(s_ragged_sum(start, rows - 1, width, term), rows - 1, width(rows - 1), term)
    }
}

/// The largest of `start` and the terms of one line that are kept.
pub open spec fn s_line_max_if<S: Scalar>(
    start: S,
    r: int,
    n: int,
    keep: spec_fn(int, int) -> bool,
    term: spec_fn(int, int) -> S,
) -> S
    decreases n,
{
    if n <= 0 {
        start
    } else {
        let rest = s_line_max_if(start, r, n - 1, keep, term);
        if keep(r, n - 1) {
            rest.s_larger(term(r, n - 1))
        } else {
            rest
        }
    }
}

/// The largest of `start` and the kept terms of `rows` lines.
pub open spec fn s_ragged_max_if<S: Scalar>(
    start: S,
    rows: int,
    width: spec_fn(int) -> int,
    keep: spec_fn(int, int) -> bool,
    term: spec_fn(int, int) -> S,
) -> S
    decreases rows,
{
    if rows <= 0 {
        start
    } else {
        s_line_max_if(
            s_ragged_max_if(start, rows - 1, width, keep, term),
            rows - 1,
            width(rows - 1),
            keep,
            term,
        )
    }
}

/// Sums of terms that agree are equal.
pub proof fn lemma_sum_ext<S: Scalar>(
    start: S,
    n: int,
    f: spec_fn(int) -> S,
    g: spec_fn(int) -> S,
)
    requires
        forall|i: int| 0 <= i < n ==> #[trigger] f(i) == g(i),
    ensures
        s_sum(start, n, f) == s_sum(start, n, g),
    decreases n,
{
    if n > 0 {
        lemma_sum_ext(start, n - 1, f, g);
        assert(f(n - 1) == g(n - 1));
    }
}

/// Largest values over terms that agree are equal.
pub proof fn lemma_max_ext<S: Scalar>(
    start: S,
    n: int,
    f: spec_fn(int) -> S,
    g: spec_fn(int) -> S,
)
    requires
        forall|i: int| 0 <= i < n ==> #[trigger] f(i) == g(i),
    ensures
        s_max(start, n, f) == s_max(start, n, g),
    decreases n,
{
    if n > 0 {
        lemma_max_ext(start, n - 1, f, g);
        assert(f(n - 1) == g(n - 1));
    }
}

/// The vectors' contents.
pub open spec fn contents<T>(lines: Seq<Vec<T>>) -> Seq<Seq<T>> {
    Seq::new(lines.len(), |i: int| lines[i]@)
}

/// A vector of `n` copies of `value`.
pub fn filled<S: Scalar>(n: usize, value: S) -> (r: Vec<S>)
    ensures
        r@ == Seq::new(n as nat, |i: int| value),
{
    let mut out: Vec<S> = Vec::new();
    for i in 0..n
        invariant
            out@ == Seq::new(i as nat, |j: int| value),
    {
        out.push(value);
        assert(out@ =~= Seq::new((i + 1) as nat, |j: int| value));
    }
    out
}

/// A copy of `values`.
pub fn copied<S: Copy>(values: &Vec<S>) -> (r: Vec<S>)
    ensures
        r@ == values@,
{
    let mut out: Vec<S> = Vec::new();
    for i in 0..values.len()
        invariant
            out@ == values@.take(i as int),
    {
        out.push(values[i]);
        assert(out@ =~= values@.take(i + 1));
    }
    assert(values@.take(values@.len() as int) =~= values@);
    out
}

/// `left[0] * right[0] + .. `, accumulated from zero in index order.
pub open spec fn s_dot<S: Scalar>(left: Seq<S>, right: Seq<S>) -> S {
    s_sum(S::s_zero(), left.len() as int, |i: int| left[i].s_times(right[i]))
}

pub fn dot<S: Scalar>(left: &Vec<S>, right: &Vec<S>) -> (r: S)
    requires
        left@.len() == right@.len(),
    ensures
        r == s_dot(left@, right@),
{
    let mut acc: S = S::zero();
    let ghost f = |i: int| left@[i].s_times(right@[i]);
    for i in 0..left.len()
        invariant
            left@.len() == right@.len(),
            f == (|i: int| left@[i].s_times(right@[i])),
            acc == s_sum(S::s_zero(), i as int, f),
    {
        acc = acc.plus(left[i].times(right[i]));
    }
    acc
}

/// The sum of squares, accumulated from zero in index order.
pub open spec fn s_energy<S: Scalar>(values: Seq<S>) -> S {
    s_dot(values, values)
}

pub fn energy<S: Scalar>(values: &Vec<S>) -> (r: S)
    ensures
        r == s_energy(values@),
{
    dot(values, values)
}

/// The largest magnitude, starting from zero.
pub open spec fn s_max_abs<S: Scalar>(values: Seq<S>) -> S {
    s_max(S::s_zero(), values.len() as int, |i: int| values[i].s_magnitude())
}

pub fn max_abs<S: Scalar>(values: &Vec<S>) -> (r: S)
    ensures
        r == s_max_abs(values@),
{
    let mut acc: S = S::zero();
    let ghost f = |i: int| values@[i].s_magnitude();
    for i in 0..values.len()
        invariant
            f == (|i: int| values@[i].s_magnitude()),
            acc == s_max(S::s_zero(), i as int, f),
    {
        acc = acc.larger(values[i].magnitude());
    }
    acc
}

} // verus!
