//! Circular axes and cut circles, in exact arithmetic.
use crate::coordinates::s_wrapped;
use crate::exact::{
    is_exact, lemma_over, lemma_product_not_negative, lemma_product_positive, magnitude,
};
use crate::scalar::Scalar;
use crate::unroll::{s_unrolled, s_widest_gap, PhaseGap};
use vstd::prelude::*;

verus! {

/// `x` is `y` and `k` turns of length `p`.
pub open spec fn is_turned(x: real, y: real, p: real, k: int) -> bool {
    x == y + k as real * p
}

/// `x` is the whole number `k`.
pub open spec fn is_whole(x: real, k: int) -> bool {
    x == k as real
}

/// Remainders and nearest whole numbers are exact: a remainder lies between zero and the
/// divisor and differs by a multiple of it; a nearest whole number is whole, and no
/// further than a half away.
pub open spec fn turns_exactly<S: Scalar>(v: spec_fn(S) -> real) -> bool {
    &&& forall|x: S, y: S|
        v(y) > 0 as real ==> {
            &&& v(#[trigger] x.s_modulo(y)) >= 0 as real
            &&& v(x.s_modulo(y)) < v(y)
            &&& exists|k: int| #[trigger] is_turned(v(x), v(x.s_modulo(y)), v(y), k)
        }
    &&& forall|x: S|
        {
            &&& magnitude(v(x) - v(#[trigger] x.s_nearest())) <= 1 as real / 2 as real
            &&& exists|k: int| #[trigger] is_whole(v(x.s_nearest()), k)
        }
}

/// On a circular axis a difference is wrapped to its representative nearest zero, which
/// is no longer than half a period; on any other axis it is kept.
pub proof fn law_a_wrapped_difference_is_nearest_zero<S: Scalar>(
    v: spec_fn(S) -> real,
    period: Option<S>,
    delta: S,
)
    requires
        is_exact(v),
        turns_exactly(v),
    ensures
        match period {
            Some(p) if v(p) > 0 as real => {
                &&& magnitude(v(s_wrapped(period, delta))) * 2 as real <= v(p)
                &&& exists|k: int| #[trigger]
                    is_turned(v(delta), v(s_wrapped(period, delta)), v(p), k)
            },
            _ => s_wrapped(period, delta) == delta,
        },
{
    if let Some(p) = period {
        if v(p) > 0 as real {
            let q = delta.s_over(p);
            let near = q.s_nearest();
            let k = choose|k: int| #[trigger] is_whole(v(near), k);
            lemma_wrap(v(delta), v(p), v(near), k);
        }
    }
}

/// A number less its nearest multiple.
proof fn lemma_wrap(x: real, d: real, n: real, k: int)
    requires
        d > 0 as real,
        is_whole(n, k),
        magnitude(x / d - n) <= 1 as real / 2 as real,
    ensures
        magnitude(x - d * n) * 2 as real <= d,
        is_turned(x, x - d * n, d, k),
{
    lemma_over(x, d);
    let r = x / d;
    let rest = r - n;
    assert((r - n) * d == r * d - n * d) by (nonlinear_arith);
    assert(d * n == n * d) by (nonlinear_arith);
    let y = rest * d;
    assert(x - d * n == y);
    let less = 1 as real - 2 as real * rest;
    let more = 1 as real + 2 as real * rest;
    lemma_product_not_negative(less, d);
    lemma_product_not_negative(more, d);
    assert((1 as real - 2 as real * rest) * d == d - 2 as real * (rest * d)) by (nonlinear_arith);
    assert((1 as real + 2 as real * rest) * d == d + 2 as real * (rest * d)) by (nonlinear_arith);
}

/// How far it is from a phase of an ascending ring to the next one, the last being
/// followed by the first.
pub open spec fn gap_after<S: Scalar>(v: spec_fn(S) -> real, ring: Seq<S>, i: int) -> real {
    if i == ring.len() - 1 {
        v(ring[0]) + 1 as real - v(ring[i])
    } else {
        v(ring[i + 1]) - v(ring[i])
    }
}

/// `gap` lies between phase `i` of the ring and the next one.
pub open spec fn is_gap<S: Scalar>(
    v: spec_fn(S) -> real,
    ring: Seq<S>,
    gap: PhaseGap<S>,
    i: int,
) -> bool {
    &&& 0 <= i < ring.len()
    &&& gap.start == ring[i]
    &&& gap.end == ring[if i == ring.len() - 1 { 0 } else { i + 1 }]
    &&& v(gap.length) == gap_after(v, ring, i)
}

/// The widest gap of a ring is at least as long as every way from a phase to the next,
/// and it is one of them, unless all phases are one and none has any length.
pub proof fn law_the_widest_gap_is_the_widest<S: Scalar>(
    v: spec_fn(S) -> real,
    ring: Seq<S>,
    n: int,
)
    requires
        is_exact(v),
        0 <= n <= ring.len(),
    ensures
        forall|i: int|
            0 <= i < n ==> #[trigger] gap_after(v, ring, i) <= v(s_widest_gap(ring, n).length),
        v(s_widest_gap(ring, n).length) > 0 as real ==> exists|i: int|
            i < n && #[trigger] is_gap(v, ring, s_widest_gap(ring, n), i),
        v(s_widest_gap(ring, n).length) >= 0 as real,
    decreases n,
{
    if n > 0 {
        law_the_widest_gap_is_the_widest(v, ring, n - 1);
        let before = s_widest_gap(ring, n - 1);
        let gap = s_widest_gap(ring, n);
        if v(before.length) < gap_after(v, ring, n - 1) {
            assert(is_gap(v, ring, gap, n - 1));
        } else {
            assert(gap == before);
            if v(gap.length) > 0 as real {
                let i = choose|i: int| i < n - 1 && #[trigger] is_gap(v, ring, before, i);
                assert(is_gap(v, ring, gap, i));
            }
        }
    }
}

/// A circle cut in a gap is stretched over the interval from minus one to one: a phase
/// that lies `along` behind the gap, and not in it, comes to lie as far along the
/// interval as it lies along the arc that is left.
pub proof fn law_an_unrolled_phase_keeps_its_place_on_the_arc<S: Scalar>(
    v: spec_fn(S) -> real,
    phase: S,
    gap: PhaseGap<S>,
    along: real,
    k: int,
)
    requires
        is_exact(v),
        turns_exactly(v),
        v(gap.length) > 0 as real,
        v(gap.length) < 1 as real,
        along >= 0 as real,
        along <= 1 as real - v(gap.length),
        is_turned(v(phase), v(gap.end) + along, 1 as real, k),
    ensures
        (v(s_unrolled(phase, gap)) + 1 as real) * (1 as real - v(gap.length)) == 2 as real * along,
{
    let arc = 1 as real - v(gap.length);
    let off = phase.s_minus(gap.end);
    let rem = off.s_modulo(S::s_one());
    let j = choose|j: int| #[trigger] is_turned(v(off), v(rem), v(S::s_one()), j);
    assert(is_turned(v(off), along, 1 as real, k));
    lemma_same_turn(v(off), along, v(rem), k, j);
    lemma_fraction(along, arc);
    let f = along / arc;
    assert(v(s_unrolled(phase, gap)) == -1 as real + 2 as real * f);
}

/// Two places within one turn that differ by whole turns are the same.
proof fn lemma_same_turn(x: real, y: real, z: real, k: int, j: int)
    requires
        is_turned(x, y, 1 as real, k),
        is_turned(x, z, 1 as real, j),
        y >= 0 as real,
        y < 1 as real,
        z >= 0 as real,
        z < 1 as real,
    ensures
        y == z,
{
    if k > j {
        assert(k as real >= j as real + 1 as real);
    } else if k < j {
        assert(k as real + 1 as real <= j as real);
    }
}

/// A part of a length, as a fraction of it.
proof fn lemma_fraction(part: real, whole: real)
    requires
        part >= 0 as real,
        part <= whole,
        whole > 0 as real,
    ensures
        part / whole >= 0 as real,
        part / whole <= 1 as real,
        (-1 as real + 2 as real * (part / whole) + 1 as real) * whole == 2 as real * part,
{
    lemma_over(part, whole);
    let f = part / whole;
    if f < 0 as real {
        lemma_product_positive(-f, whole);
        assert((-f) * whole == -(f * whole)) by (nonlinear_arith);
    }
    if f > 1 as real {
        lemma_product_positive(f - 1 as real, whole);
        assert((f - 1 as real) * whole == f * whole - whole) by (nonlinear_arith);
    }
    assert((2 as real * f) * whole == 2 as real * (f * whole)) by (nonlinear_arith);
}

} // verus!
