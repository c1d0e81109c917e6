//! Quadratic forms and sums over the uses of the atoms, over the reals.
use crate::exact::{
    lemma_product_positive, lemma_square, lemma_total2_exchange, lemma_total2_ext, lemma_total2_lines, lemma_total_ext,
    lemma_total_not_negative, lemma_total_plus, lemma_total_scaled, lemma_total_split,
    lemma_total_window, lemma_total_zero, total, total2,
};
use crate::forms::{bilinear, lemma_bilinear_symmetric};
use crate::peaks::ragged_total;
use crate::term::{uses_in_row, uses_of};
use vstd::prelude::*;

verus! {

/// The square of a sum is at most the number of terms times the sum of squares.
pub proof fn lemma_square_of_a_sum(n: int, f: spec_fn(int) -> real)
    requires
        0 <= n,
    ensures
        total(n, f) * total(n, f) <= n as real * total(n, |i: int| f(i) * f(i)),
    decreases n,
{
    let g = |i: int| f(i) * f(i);
    if n > 0 {
        lemma_square_of_a_sum(n - 1, f);
        let m = (n - 1) as real;
        let a = total(n - 1, f);
        let q = total(n - 1, g);
        let x = f(n - 1);
        assert(total(n, g) == q + x * x);
        assert(a * a <= m * q);
        assert(n as real == m + 1 as real);
        let xx = x * x;
        let aa = a * a;
        let ax = a * x;
        let mx = m * x;
        let mq = m * q;
        let mxx = m * xx;
        assert((a + x) * (a + x) == aa + 2 as real * ax + xx) by (nonlinear_arith)
            requires
                aa == a * a,
                ax == a * x,
                xx == x * x,
        ;
        assert((m + 1 as real) * (q + xx) == m * q + m * xx + q + xx) by (nonlinear_arith);
        let w = q + mxx - 2 as real * ax;
        if n == 1 {
            assert(a == 0 as real && q == 0 as real);
            assert((0 as real) * x == 0 as real) by (nonlinear_arith);
            assert((0 as real) * xx == 0 as real) by (nonlinear_arith);
        } else {
            let e = a - mx;
            lemma_square(e);
            assert((a - mx) * (a - mx) == a * a - 2 as real * (a * mx) + mx * mx)
                by (nonlinear_arith);
            assert(a * (m * x) == m * (a * x)) by (nonlinear_arith);
            assert((m * x) * (m * x) == m * (m * (x * x))) by (nonlinear_arith);
            assert(m * (q + mxx - 2 as real * ax) == m * q + m * mxx - 2 as real * (m * ax))
                by (nonlinear_arith);
            assert(m * w >= 0 as real);
            if w < 0 as real {
                lemma_product_positive(m, -w);
                assert(m * (-w) == -(m * w)) by (nonlinear_arith);
            }
        }
        assert((a + x) * (a + x) <= (m + 1 as real) * (q + xx));
    } else {
        let k = n as real;
        assert(k * (0 as real) == 0 as real) by (nonlinear_arith);
        assert((0 as real) * (0 as real) == 0 as real) by (nonlinear_arith);
    }
}

/// A sum with one term that does not vanish.
pub proof fn lemma_single_term(n: int, at: int, f: spec_fn(int) -> real)
    requires
        0 <= at < n,
        forall|i: int| 0 <= i < n && i != at ==> #[trigger] f(i) == 0 as real,
    ensures
        total(n, f) == f(at),
{
    lemma_total_window(n, at, 1, f);
    let window = |j: int| f(at + j);
    assert(total(1, window) == total(0, window) + window(0));
}

/// Line `b` of the product of a matrix with a vector.
pub open spec fn applied(
    m: int,
    p: spec_fn(int, int) -> real,
    z: spec_fn(int) -> real,
    b: int,
) -> real {
    total(m, |r: int| p(b, r) * z(r))
}

/// A form is the product of one vector with the other's image.
pub proof fn lemma_form_of_applied(
    m: int,
    p: spec_fn(int, int) -> real,
    y: spec_fn(int) -> real,
    z: spec_fn(int) -> real,
)
    ensures
        bilinear(m, p, y, z) == total(m, |b: int| y(b) * applied(m, p, z, b)),
{
    let cells = |b: int, r: int| y(b) * (p(b, r) * z(r));
    let lines = |b: int| y(b) * applied(m, p, z, b);
    assert forall|b: int| 0 <= b < m implies #[trigger] lines(b) == total(
        m,
        |r: int| cells(b, r),
    ) by {
        let f = |r: int| p(b, r) * z(r);
        lemma_total_scaled(m, y(b), f);
        lemma_total_ext(m, |r: int| y(b) * f(r), |r: int| cells(b, r));
    }
    lemma_total2_lines(m, m, cells, lines);
}

/// A form is additive in its second vector.
pub proof fn lemma_form_plus(
    m: int,
    p: spec_fn(int, int) -> real,
    y: spec_fn(int) -> real,
    s: spec_fn(int) -> real,
    t: spec_fn(int) -> real,
    z: spec_fn(int) -> real,
)
    requires
        forall|r: int| 0 <= r < m ==> #[trigger] z(r) == s(r) + t(r),
    ensures
        bilinear(m, p, y, z) == bilinear(m, p, y, s) + bilinear(m, p, y, t),
{
    lemma_form_of_applied(m, p, y, s);
    lemma_form_of_applied(m, p, y, t);
    lemma_form_of_applied(m, p, y, z);
    let fs = |b: int| y(b) * applied(m, p, s, b);
    let ft = |b: int| y(b) * applied(m, p, t, b);
    let fz = |b: int| y(b) * applied(m, p, z, b);
    assert forall|b: int| 0 <= b < m implies #[trigger] fz(b) == fs(b) + ft(b) by {
        let gs = |r: int| p(b, r) * s(r);
        let gt = |r: int| p(b, r) * t(r);
        let gz = |r: int| p(b, r) * z(r);
        assert forall|r: int| 0 <= r < m implies #[trigger] gz(r) == gs(r) + gt(r) by {
            let k = p(b, r);
            let one = s(r);
            let two = t(r);
            assert(z(r) == one + two);
            assert(k * (one + two) == k * one + k * two) by (nonlinear_arith);
        }
        lemma_total_plus(m, gs, gt);
        lemma_total_ext(m, gz, |r: int| gs(r) + gt(r));
        let k = y(b);
        let one = total(m, gs);
        let two = total(m, gt);
        assert(k * (one + two) == k * one + k * two) by (nonlinear_arith);
    }
    lemma_total_plus(m, fs, ft);
    lemma_total_ext(m, fz, |b: int| fs(b) + ft(b));
}

/// The square of a sum of two vectors under a symmetric form.
pub proof fn lemma_form_of_a_sum(
    m: int,
    p: spec_fn(int, int) -> real,
    y: spec_fn(int) -> real,
    d: spec_fn(int) -> real,
    z: spec_fn(int) -> real,
)
    requires
        forall|b: int, r: int| 0 <= b < m && 0 <= r < m ==> #[trigger] p(b, r) == p(r, b),
        forall|r: int| 0 <= r < m ==> #[trigger] z(r) == y(r) + d(r),
    ensures
        bilinear(m, p, z, z) == bilinear(m, p, y, y) + 2 as real * bilinear(m, p, d, y) + bilinear(
            m,
            p,
            d,
            d,
        ),
{
    lemma_form_plus(m, p, z, y, d, z);
    lemma_bilinear_symmetric(m, p, z, y);
    lemma_bilinear_symmetric(m, p, z, d);
    lemma_form_plus(m, p, y, y, d, z);
    lemma_form_plus(m, p, d, y, d, z);
    lemma_bilinear_symmetric(m, p, y, d);
}

/// `g(row, slot)` where the slot names atom `a`, and zero elsewhere.
pub open spec fn only(
    supports: Seq<Seq<u32>>,
    a: int,
    g: spec_fn(int, int) -> real,
) -> spec_fn(int, int) -> real {
    |row: int, slot: int|
        if supports[row][slot] == a {
            g(row, slot)
        } else {
            0 as real
        }
}

proof fn lemma_uses_in_row_total(
    support: Seq<u32>,
    row: int,
    n: int,
    a: int,
    g: spec_fn(int, int) -> real,
)
    requires
        0 <= row <= usize::MAX,
        0 <= n <= support.len() <= usize::MAX,
    ensures
        total(
            uses_in_row(support, row, n, a).len() as int,
            |e: int|
                g(
                    uses_in_row(support, row, n, a)[e].0 as int,
                    uses_in_row(support, row, n, a)[e].1 as int,
                ),
        ) == total(
            n,
            |slot: int|
                if support[slot] == a {
                    g(row, slot)
                } else {
                    0 as real
                },
        ),
    decreases n,
{
    if n > 0 {
        lemma_uses_in_row_total(support, row, n - 1, a, g);
        let whole = uses_in_row(support, row, n, a);
        let rest = uses_in_row(support, row, n - 1, a);
        let f = |e: int| g(whole[e].0 as int, whole[e].1 as int);
        let h = |e: int| g(rest[e].0 as int, rest[e].1 as int);
        assert forall|e: int| 0 <= e < rest.len() implies #[trigger] h(e) == f(e) by {
            assert(whole[e] == rest[e]);
        }
        lemma_total_ext(rest.len() as int, h, f);
        if support[n - 1] == a {
            assert(whole.len() == rest.len() + 1);
            assert(whole[rest.len() as int] == (row as usize, (n - 1) as usize));
            assert(total(whole.len() as int, f) == total(rest.len() as int, f) + f(
                rest.len() as int,
            ));
        }
    }
}

/// A sum over the uses of an atom is a sum over the slots that name it.
pub proof fn lemma_uses_total(
    supports: Seq<Seq<u32>>,
    n: int,
    a: int,
    g: spec_fn(int, int) -> real,
    lines: spec_fn(int) -> real,
)
    requires
        0 <= n <= supports.len() <= usize::MAX,
        forall|r: int| 0 <= r < supports.len() ==> (#[trigger] supports[r]).len() <= usize::MAX,
        forall|r: int|
            0 <= r < n ==> #[trigger] lines(r) == total(
                supports[r].len() as int,
                |slot: int| only(supports, a, g)(r, slot),
            ),
    ensures
        total(
            uses_of(supports, n, a).len() as int,
            |e: int| g(uses_of(supports, n, a)[e].0 as int, uses_of(supports, n, a)[e].1 as int),
        ) == total(n, lines),
    decreases n,
{
    if n > 0 {
        lemma_uses_total(supports, n - 1, a, g, lines);
        let row = n - 1;
        let support = supports[row];
        lemma_uses_in_row_total(support, row, support.len() as int, a, g);
        let whole = uses_of(supports, n, a);
        let rest = uses_of(supports, n - 1, a);
        let tail = uses_in_row(support, row, support.len() as int, a);
        assert(whole == rest + tail);
        let f = |e: int| g(whole[e].0 as int, whole[e].1 as int);
        let h = |e: int| g(rest[e].0 as int, rest[e].1 as int);
        let t = |e: int| g(tail[e].0 as int, tail[e].1 as int);
        let start = rest.len() as int;
        lemma_total_split(start, tail.len() as int, f);
        assert forall|e: int| 0 <= e < start implies #[trigger] h(e) == f(e) by {
            assert(whole[e] == rest[e]);
        }
        lemma_total_ext(start, h, f);
        let later = |j: int| f(start + j);
        assert forall|e: int| 0 <= e < tail.len() implies #[trigger] t(e) == later(e) by {
            assert(whole[start + e] == tail[e]);
        }
        lemma_total_ext(tail.len() as int, t, later);
        let one = |slot: int|
            if support[slot] == a {
                g(row, slot)
            } else {
                0 as real
            };
        let two = |slot: int| only(supports, a, g)(row, slot);
        lemma_total_ext(support.len() as int, one, two);
        assert(lines(row) == total(support.len() as int, two));
    }
}

/// Summed over all atoms, the uses are all slots of all rows.
pub proof fn lemma_all_uses_total(
    supports: Seq<Seq<u32>>,
    k: int,
    g: spec_fn(int, int) -> real,
    atoms: spec_fn(int) -> real,
    rows: spec_fn(int) -> real,
)
    requires
        supports.len() <= usize::MAX,
        forall|r: int| 0 <= r < supports.len() ==> (#[trigger] supports[r]).len() <= usize::MAX,
        forall|r: int, s: int|
            0 <= r < supports.len() && 0 <= s < supports[r].len() ==> (#[trigger] supports[r][s])
                < k,
        forall|a: int|
            0 <= a < k ==> #[trigger] atoms(a) == total(
                uses_of(supports, supports.len() as int, a).len() as int,
                |e: int|
                    g(
                        uses_of(supports, supports.len() as int, a)[e].0 as int,
                        uses_of(supports, supports.len() as int, a)[e].1 as int,
                    ),
            ),
        forall|r: int|
            0 <= r < supports.len() ==> #[trigger] rows(r) == total(
                supports[r].len() as int,
                |slot: int| g(r, slot),
            ),
    ensures
        total(k, atoms) == total(supports.len() as int, rows),
{
    let n = supports.len() as int;
    let cell = |a: int, r: int|
        total(supports[r].len() as int, |slot: int| only(supports, a, g)(r, slot));
    assert forall|a: int| 0 <= a < k implies #[trigger] atoms(a) == total(
        n,
        |r: int| cell(a, r),
    ) by {
        lemma_uses_total(supports, n, a, g, |r: int| cell(a, r));
    }
    lemma_total2_lines(k, n, cell, atoms);
    let swapped = |r: int, a: int| cell(a, r);
    lemma_total2_exchange(k, n, cell, swapped);
    assert forall|r: int| 0 <= r < n implies #[trigger] rows(r) == total(
        k,
        |a: int| swapped(r, a),
    ) by {
        let len = supports[r].len() as int;
        let one = |a: int, s: int| only(supports, a, g)(r, s);
        let two = |s: int, a: int| one(a, s);
        lemma_total2_exchange(k, len, one, two);
        let lines = |a: int| swapped(r, a);
        assert forall|a: int| 0 <= a < k implies #[trigger] lines(a) == total(
            len,
            |s: int| one(a, s),
        ) by {
            lemma_total_ext(
                len,
                |s: int| one(a, s),
                |slot: int| only(supports, a, g)(r, slot),
            );
        }
        lemma_total2_lines(k, len, one, lines);
        let slots = |s: int| g(r, s);
        assert forall|s: int| 0 <= s < len implies #[trigger] slots(s) == total(
            k,
            |a: int| two(s, a),
        ) by {
            let at = supports[r][s] as int;
            let f = |a: int| two(s, a);
            assert(supports[r][s] < k);
            lemma_single_term(k, at, f);
        }
        lemma_total2_lines(len, k, two, slots);
    }
    lemma_total2_lines(n, k, swapped, rows);
}

} // verus!
