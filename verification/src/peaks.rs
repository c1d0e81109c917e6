//! The largest of several real numbers, and what an exact largest value is.
use crate::assignment::block_start;
use crate::coordinates::flat;
use crate::exact::{
    is_exact, larger, lemma_total_ext, lemma_total_split, total,
};
use crate::layout::{beta_index, beta_start};
use crate::scalar::{
    s_grid_max, s_line_max, s_line_max_if, s_line_sum, s_max, s_ragged_max_if, s_ragged_sum, Scalar,
};
use vstd::prelude::*;

verus! {

/// The largest of zero and `f(0), .., f(n - 1)`.
pub open spec fn peak(n: int, f: spec_fn(int) -> real) -> real
    decreases n,
{
    if n <= 0 {
        0 as real
    } else {
        larger(peak(n - 1, f), f(n - 1))
    }
}

/// The largest of zero and the `f(i, j)`, line `i` having `width(i)` of them.
pub open spec fn ragged_peak(
    n: int,
    width: spec_fn(int) -> int,
    f: spec_fn(int, int) -> real,
) -> real {
    peak(n, |i: int| peak(width(i), |j: int| f(i, j)))
}

/// The sum of the `f(i, j)`, line `i` having `width(i)` of them.
pub open spec fn ragged_total(
    n: int,
    width: spec_fn(int) -> int,
    f: spec_fn(int, int) -> real,
) -> real {
    total(n, |i: int| total(width(i), |j: int| f(i, j)))
}

pub proof fn lemma_peak_not_negative(n: int, f: spec_fn(int) -> real)
    ensures
        peak(n, f) >= 0 as real,
    decreases n,
{
    if n > 0 {
        lemma_peak_not_negative(n - 1, f);
    }
}

pub proof fn lemma_peak_bounds(n: int, f: spec_fn(int) -> real, i: int)
    requires
        0 <= i < n,
    ensures
        f(i) <= peak(n, f),
    decreases n,
{
    if i < n - 1 {
        lemma_peak_bounds(n - 1, f, i);
    }
}

pub proof fn lemma_peak_ext(n: int, f: spec_fn(int) -> real, g: spec_fn(int) -> real)
    requires
        forall|i: int| 0 <= i < n ==> #[trigger] f(i) == g(i),
    ensures
        peak(n, f) == peak(n, g),
    decreases n,
{
    if n > 0 {
        lemma_peak_ext(n - 1, f, g);
        assert(f(n - 1) == g(n - 1));
    }
}

/// The largest scales with the numbers.
pub proof fn lemma_peak_scaled(
    n: int,
    k: real,
    f: spec_fn(int) -> real,
    g: spec_fn(int) -> real,
)
    requires
        k >= 0 as real,
        forall|i: int| 0 <= i < n ==> #[trigger] g(i) == k * f(i),
    ensures
        peak(n, g) == k * peak(n, f),
    decreases n,
{
    if n > 0 {
        lemma_peak_scaled(n - 1, k, f, g);
        let x = peak(n - 1, f);
        let y = f(n - 1);
        assert(g(n - 1) == k * y);
        assert(larger(k * x, k * y) == k * larger(x, y)) by (nonlinear_arith)
            requires
                k >= 0 as real,
        ;
    } else {
        assert(k * (0 as real) == 0 as real) by (nonlinear_arith);
    }
}

pub proof fn lemma_peak_split(n: int, m: int, f: spec_fn(int) -> real)
    requires
        0 <= n,
        0 <= m,
    ensures
        peak(n + m, f) == larger(peak(n, f), peak(m, |j: int| f(n + j))),
    decreases m,
{
    let g = |j: int| f(n + j);
    if m > 0 {
        lemma_peak_split(n, m - 1, f);
        assert(peak(m, g) == larger(peak(m - 1, g), g(m - 1)));
        assert(peak(n + m, f) == larger(peak(n + m - 1, f), f(n + m - 1)));
    } else {
        lemma_peak_not_negative(n, f);
    }
}

proof fn lemma_peak_grid(rows: int, cols: int, f: spec_fn(int) -> real)
    requires
        0 <= rows,
        0 <= cols,
    ensures
        peak(rows * cols, f) == peak(rows, |r: int| peak(cols, |c: int| f(r * cols + c))),
    decreases rows,
{
    if rows > 0 {
        lemma_peak_grid(rows - 1, cols, f);
        assert(rows * cols == (rows - 1) * cols + cols) by (nonlinear_arith);
        assert((rows - 1) * cols >= 0) by (nonlinear_arith)
            requires
                rows >= 1,
                cols >= 0,
        ;
        lemma_peak_split((rows - 1) * cols, cols, f);
        let lines = |r: int| peak(cols, |c: int| f(r * cols + c));
        assert(lines(rows - 1) == peak(cols, |c: int| f((rows - 1) * cols + c)));
        assert(peak(rows, lines) == larger(peak(rows - 1, lines), lines(rows - 1)));
    } else {
        assert(rows * cols == 0) by (nonlinear_arith)
            requires
                rows == 0,
        ;
    }
}

/// A largest value over all flat positions, atom by atom.
pub proof fn lemma_layout_peak(sizes: Seq<usize>, width: nat, n: int, f: spec_fn(int) -> real)
    requires
        0 <= n <= sizes.len(),
    ensures
        peak(beta_start(sizes, width, n) as int, f) == peak(
            n,
            |a: int|
                peak(
                    sizes[a] as int,
                    |b: int| peak(width as int, |c: int| f(beta_index(sizes, width, a, b, c))),
                ),
        ),
    decreases n,
{
    if n > 0 {
        lemma_layout_peak(sizes, width, n - 1, f);
        let start = beta_start(sizes, width, n - 1) as int;
        let m = sizes[n - 1] as int;
        let w = width as int;
        assert(m * w >= 0) by (nonlinear_arith)
            requires
                m >= 0,
                w >= 0,
        ;
        lemma_peak_split(start, m * w, f);
        let g = |j: int| f(start + j);
        lemma_peak_grid(m, w, g);
        let lines = |b: int| peak(w, |c: int| g(b * w + c));
        let atoms = |a: int|
            peak(
                sizes[a] as int,
                |b: int| peak(width as int, |c: int| f(beta_index(sizes, width, a, b, c))),
            );
        let here = |b: int| peak(w, |c: int| f(beta_index(sizes, width, n - 1, b, c)));
        assert forall|b: int| 0 <= b < m implies #[trigger] lines(b) == here(b) by {
            lemma_peak_ext(
                w,
                |c: int| g(b * w + c),
                |c: int| f(beta_index(sizes, width, n - 1, b, c)),
            );
        }
        lemma_peak_ext(m, lines, here);
        assert(atoms(n - 1) == peak(m, here));
        assert(peak(n, atoms) == larger(peak(n - 1, atoms), atoms(n - 1)));
    }
}

/// Over a row's coordinates, slot by slot.
pub proof fn lemma_slots(
    dims: Seq<usize>,
    support: Seq<u32>,
    n: int,
    f: spec_fn(int) -> real,
    g: spec_fn(int, int) -> real,
)
    requires
        0 <= n <= support.len(),
        forall|s: int, x: int|
            0 <= s < n && 0 <= x < dims[support[s] as int] ==> #[trigger] g(s, x) == f(
                block_start(dims, support, s) + x,
            ),
    ensures
        total(block_start(dims, support, n) as int, f) == ragged_total(
            n,
            |s: int| dims[support[s] as int] as int,
            g,
        ),
        peak(block_start(dims, support, n) as int, f) == ragged_peak(
            n,
            |s: int| dims[support[s] as int] as int,
            g,
        ),
    decreases n,
{
    let width = |s: int| dims[support[s] as int] as int;
    if n > 0 {
        lemma_slots(dims, support, n - 1, f, g);
        let start = block_start(dims, support, n - 1) as int;
        let w = dims[support[n - 1] as int] as int;
        lemma_total_split(start, w, f);
        lemma_peak_split(start, w, f);
        let one = |j: int| f(start + j);
        let two = |j: int| g(n - 1, j);
        lemma_total_ext(w, two, one);
        lemma_peak_ext(w, two, one);
        let sums = |i: int| total(width(i), |j: int| g(i, j));
        let peaks = |i: int| peak(width(i), |j: int| g(i, j));
        assert(total(n, sums) == total(n - 1, sums) + sums(n - 1));
        assert(sums(n - 1) == total(w, two));
        assert(peak(n, peaks) == larger(peak(n - 1, peaks), peaks(n - 1)));
        assert(peaks(n - 1) == peak(w, two));
    }
}

/// Over rows one after another, row by row.
pub proof fn lemma_rows<S>(
    rows: Seq<Seq<S>>,
    n: int,
    h: spec_fn(S) -> real,
    sums: spec_fn(int) -> real,
    peaks: spec_fn(int) -> real,
)
    requires
        0 <= n <= rows.len(),
        forall|r: int|
            0 <= r < n ==> #[trigger] sums(r) == total(
                rows[r].len() as int,
                |i: int| h(rows[r][i]),
            ),
        forall|r: int|
            0 <= r < n ==> #[trigger] peaks(r) == peak(
                rows[r].len() as int,
                |i: int| h(rows[r][i]),
            ),
    ensures
        total(flat(rows, n).len() as int, |i: int| h(flat(rows, n)[i])) == total(n, sums),
        peak(flat(rows, n).len() as int, |i: int| h(flat(rows, n)[i])) == peak(n, peaks),
    decreases n,
{
    if n > 0 {
        lemma_rows(rows, n - 1, h, sums, peaks);
        let whole = flat(rows, n);
        let rest = flat(rows, n - 1);
        let last = rows[n - 1];
        let f = |i: int| h(whole[i]);
        let start = rest.len() as int;
        let w = last.len() as int;
        lemma_total_split(start, w, f);
        lemma_peak_split(start, w, f);
        let before = |i: int| h(rest[i]);
        assert forall|i: int| 0 <= i < start implies #[trigger] before(i) == f(i) by {
            assert(whole[i] == rest[i]);
        }
        lemma_total_ext(start, before, f);
        lemma_peak_ext(start, before, f);
        let one = |j: int| f(start + j);
        let two = |i: int| h(last[i]);
        assert forall|i: int| 0 <= i < w implies #[trigger] two(i) == one(i) by {
            assert(whole[start + i] == last[i]);
        }
        lemma_total_ext(w, two, one);
        lemma_peak_ext(w, two, one);
        assert(sums(n - 1) == total(w, two));
        assert(peaks(n - 1) == peak(w, two));
    }
}

/// An exact largest value of terms that stand for `g`.
pub proof fn lemma_exact_max_of<S: Scalar>(
    v: spec_fn(S) -> real,
    n: int,
    f: spec_fn(int) -> S,
    g: spec_fn(int) -> real,
)
    requires
        is_exact(v),
        forall|i: int| 0 <= i < n ==> v(f(i)) == #[trigger] g(i),
    ensures
        v(s_max(S::s_zero(), n, f)) == peak(n, g),
    decreases n,
{
    if n > 0 {
        lemma_exact_max_of(v, n - 1, f, g);
        assert(v(f(n - 1)) == g(n - 1));
    }
}

proof fn lemma_exact_line_max_if<S: Scalar>(
    v: spec_fn(S) -> real,
    start: S,
    r: int,
    n: int,
    keep: spec_fn(int, int) -> bool,
    f: spec_fn(int, int) -> S,
    g: spec_fn(int) -> real,
)
    requires
        is_exact(v),
        v(start) >= 0 as real,
        forall|c: int|
            0 <= c < n ==> #[trigger] g(c) == (if keep(r, c) {
                v(f(r, c))
            } else {
                0 as real
            }),
    ensures
        v(s_line_max_if(start, r, n, keep, f)) == larger(v(start), peak(n, g)),
    decreases n,
{
    if n > 0 {
        lemma_exact_line_max_if(v, start, r, n - 1, keep, f, g);
        assert(g(n - 1) == (if keep(r, n - 1) {
            v(f(r, n - 1))
        } else {
            0 as real
        }));
        lemma_peak_not_negative(n - 1, g);
    }
}

/// An exact largest value of kept terms; the others count as zero.
pub proof fn lemma_exact_ragged_max_of<S: Scalar>(
    v: spec_fn(S) -> real,
    rows: int,
    width: spec_fn(int) -> int,
    keep: spec_fn(int, int) -> bool,
    f: spec_fn(int, int) -> S,
    g: spec_fn(int, int) -> real,
)
    requires
        is_exact(v),
        forall|r: int, c: int|
            0 <= r < rows && 0 <= c < width(r) ==> #[trigger] g(r, c) == (if keep(r, c) {
                v(f(r, c))
            } else {
                0 as real
            }),
    ensures
        v(s_ragged_max_if(S::s_zero(), rows, width, keep, f)) == ragged_peak(rows, width, g),
    decreases rows,
{
    let lines = |i: int| peak(width(i), |j: int| g(i, j));
    if rows > 0 {
        lemma_exact_ragged_max_of(v, rows - 1, width, keep, f, g);
        lemma_peak_not_negative(rows - 1, lines);
        let last = |j: int| g(rows - 1, j);
        lemma_exact_line_max_if(
            v,
            s_ragged_max_if(S::s_zero(), rows - 1, width, keep, f),
            rows - 1,
            width(rows - 1),
            keep,
            f,
            last,
        );
        assert(peak(rows, lines) == larger(peak(rows - 1, lines), lines(rows - 1)));
        assert(lines(rows - 1) == peak(width(rows - 1), last));
    }
}

proof fn lemma_exact_line_max<S: Scalar>(
    v: spec_fn(S) -> real,
    start: S,
    r: int,
    n: int,
    f: spec_fn(int, int) -> S,
    g: spec_fn(int) -> real,
)
    requires
        is_exact(v),
        v(start) >= 0 as real,
        forall|c: int| 0 <= c < n ==> #[trigger] g(c) == v(f(r, c)),
    ensures
        v(s_line_max(start, r, n, f)) == larger(v(start), peak(n, g)),
    decreases n,
{
    if n > 0 {
        lemma_exact_line_max(v, start, r, n - 1, f, g);
        assert(g(n - 1) == v(f(r, n - 1)));
        lemma_peak_not_negative(n - 1, g);
    }
}

/// An exact largest value over a grid.
pub proof fn lemma_exact_grid_max_of<S: Scalar>(
    v: spec_fn(S) -> real,
    rows: int,
    cols: int,
    f: spec_fn(int, int) -> S,
    g: spec_fn(int, int) -> real,
)
    requires
        is_exact(v),
        forall|r: int, c: int|
            0 <= r < rows && 0 <= c < cols ==> #[trigger] g(r, c) == v(f(r, c)),
    ensures
        v(s_grid_max(S::s_zero(), rows, cols, f)) == peak(
            rows,
            |r: int| peak(cols, |c: int| g(r, c)),
        ),
    decreases rows,
{
    let lines = |r: int| peak(cols, |c: int| g(r, c));
    if rows > 0 {
        lemma_exact_grid_max_of(v, rows - 1, cols, f, g);
        lemma_peak_not_negative(rows - 1, lines);
        let last = |c: int| g(rows - 1, c);
        lemma_exact_line_max(
            v,
            s_grid_max(S::s_zero(), rows - 1, cols, f),
            rows - 1,
            cols,
            f,
            last,
        );
        assert(peak(rows, lines) == larger(peak(rows - 1, lines), lines(rows - 1)));
        assert(lines(rows - 1) == peak(cols, last));
    }
}

proof fn lemma_exact_line_sum<S: Scalar>(
    v: spec_fn(S) -> real,
    start: S,
    r: int,
    n: int,
    f: spec_fn(int, int) -> S,
    g: spec_fn(int) -> real,
)
    requires
        is_exact(v),
        forall|c: int| 0 <= c < n ==> #[trigger] g(c) == v(f(r, c)),
    ensures
        v(s_line_sum(start, r, n, f)) == v(start) + total(n, g),
    decreases n,
{
    if n > 0 {
        lemma_exact_line_sum(v, start, r, n - 1, f, g);
        assert(g(n - 1) == v(f(r, n - 1)));
    }
}

/// An exact sum over lines of different widths.
pub proof fn lemma_exact_ragged_sum_of<S: Scalar>(
    v: spec_fn(S) -> real,
    rows: int,
    width: spec_fn(int) -> int,
    f: spec_fn(int, int) -> S,
    g: spec_fn(int, int) -> real,
)
    requires
        is_exact(v),
        forall|r: int, c: int|
            0 <= r < rows && 0 <= c < width(r) ==> #[trigger] g(r, c) == v(f(r, c)),
    ensures
        v(s_ragged_sum(S::s_zero(), rows, width, f)) == ragged_total(rows, width, g),
    decreases rows,
{
    let lines = |i: int| total(width(i), |j: int| g(i, j));
    if rows > 0 {
        lemma_exact_ragged_sum_of(v, rows - 1, width, f, g);
        let last = |c: int| g(rows - 1, c);
        lemma_exact_line_sum(
            v,
            s_ragged_sum(S::s_zero(), rows - 1, width, f),
            rows - 1,
            width(rows - 1),
            f,
            last,
        );
        assert(total(rows, lines) == total(rows - 1, lines) + lines(rows - 1));
        assert(lines(rows - 1) == total(width(rows - 1), last));
    }
}

} // verus!
