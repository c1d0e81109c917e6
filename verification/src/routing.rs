//! What an offer takes off a row's penalised objective, and which offers are taken,
//! in exact arithmetic.
use crate::active::s_decoded;
use crate::atom::SaeManifoldAtom;
use crate::exact::{
    is_exact, lemma_cancel, lemma_exact_sum_of, lemma_over, lemma_product_not_negative,
    lemma_square, lemma_total_ext, lemma_total_minus, lemma_total_not_negative, lemma_total_plus,
    lemma_total_scaled, lemma_zero_product, total,
};
use crate::objective::CodeLengths;
use crate::matrix::Matrix;
use crate::reroute::{image_of, is_affine_form, s_apart, s_each_over, AtomChart, RouteSamples};
use crate::router::{
    greedy, in_atom_order, is_picked, is_route_of, s_two, scan_atoms, scan_offers, AffineAtom,
    AtomOffers, Best, Pick, RowRoute,
};
use crate::scalar::{s_dot, s_energy, Scalar};
use crate::term::{pairs_below, SaeSupportSparseTerm};
use vstd::prelude::*;

verus! {

/// Channel `c` of an atom's image at a basis row: the basis values against the
/// decoder's coefficients.
pub open spec fn image_value<S: Scalar>(
    v: spec_fn(S) -> real,
    atom: SaeManifoldAtom<S>,
    phi: Seq<S>,
    c: int,
) -> real {
    total(atom.m() as int, |b: int| v(phi[b]) * v(atom.decoder().at(b, c)))
}

/// The squared distance between a residual and an image.
pub open spec fn squared_distance<S: Scalar>(
    v: spec_fn(S) -> real,
    residual: Seq<S>,
    image: spec_fn(int) -> real,
) -> real {
    total(
        residual.len() as int,
        |c: int| (v(residual[c]) - image(c)) * (v(residual[c]) - image(c)),
    )
}

/// The squared length of a residual.
pub open spec fn squared_length<S: Scalar>(v: spec_fn(S) -> real, residual: Seq<S>) -> real {
    total(residual.len() as int, |c: int| v(residual[c]) * v(residual[c]))
}

/// An exact image.
pub proof fn lemma_exact_image<S: Scalar>(
    v: spec_fn(S) -> real,
    atom: SaeManifoldAtom<S>,
    phi: Seq<S>,
    c: int,
)
    requires
        is_exact(v),
    ensures
        v(s_decoded(atom, phi, c, atom.m() as int)) == image_value(v, atom, phi, c),
{
    let f = |b: int| phi[b].s_times(atom.coefficient(b, c));
    let g = |b: int| v(phi[b]) * v(atom.decoder().at(b, c));
    lemma_exact_sum_of(v, S::s_zero(), atom.m() as int, f, g);
}

/// An exact inner product.
pub proof fn lemma_exact_dot<S: Scalar>(
    v: spec_fn(S) -> real,
    left: Seq<S>,
    right: Seq<S>,
    g: spec_fn(int) -> real,
)
    requires
        is_exact(v),
        forall|c: int| 0 <= c < left.len() ==> #[trigger] g(c) == v(left[c]) * v(right[c]),
    ensures
        v(s_dot(left, right)) == total(left.len() as int, g),
{
    let f = |i: int| left[i].s_times(right[i]);
    assert forall|i: int| 0 <= i < left.len() implies v(f(i)) == #[trigger] g(i) by {
        assert(g(i) == v(left[i]) * v(right[i]));
    }
    lemma_exact_sum_of(v, S::s_zero(), left.len() as int, f, g);
}

/// The distance to an image, multiplied out.
pub proof fn lemma_distance<S: Scalar>(
    v: spec_fn(S) -> real,
    residual: Seq<S>,
    image: spec_fn(int) -> real,
)
    ensures
        squared_distance(v, residual, image) == squared_length(v, residual) - 2 as real * total(
            residual.len() as int,
            |c: int| v(residual[c]) * image(c),
        ) + total(residual.len() as int, |c: int| image(c) * image(c)),
{
    let n = residual.len() as int;
    let rr = |c: int| v(residual[c]) * v(residual[c]);
    let ri = |c: int| v(residual[c]) * image(c);
    let ii = |c: int| image(c) * image(c);
    let twice = |c: int| 2 as real * ri(c);
    let part = |c: int| rr(c) - twice(c);
    let all = |c: int| part(c) + ii(c);
    let whole = |c: int| (v(residual[c]) - image(c)) * (v(residual[c]) - image(c));
    assert forall|c: int| 0 <= c < n implies #[trigger] whole(c) == all(c) by {
        let x = v(residual[c]);
        let y = image(c);
        assert((x - y) * (x - y) == x * x - 2 as real * (x * y) + y * y) by (nonlinear_arith);
    }
    lemma_total_scaled(n, 2 as real, ri);
    lemma_total_minus(n, rr, twice);
    lemma_total_plus(n, part, ii);
    lemma_total_ext(n, whole, all);
}

/// What the prior charges at a grid point: twice its energy there, if it is scored.
pub open spec fn prior_charge<S: Scalar>(
    v: spec_fn(S) -> real,
    chart: AtomChart<S>,
    with_prior: bool,
    g: int,
) -> real {
    if with_prior {
        2 as real * v(chart.grid@[g].prior)
    } else {
        0 as real
    }
}

/// A grid offer's gain, with the atom's admission charge given back, is twice what the
/// offer takes off the row's penalised objective: the squared error before it, less the
/// squared error after it, less twice the prior's energy.
pub proof fn law_a_grid_offer_gains_what_it_takes_off_the_objective<S: Scalar>(
    v: spec_fn(S) -> real,
    term: &SaeSupportSparseTerm<S>,
    chart: AtomChart<S>,
    codes: CodeLengths<S>,
    with_prior: bool,
    a: int,
    offers: AtomOffers<S>,
    residual: Seq<S>,
    g: int,
)
    requires
        is_exact(v),
        term.wf(),
        0 <= a < term.k(),
        term.are_offers_of(chart, codes, with_prior, a, offers),
        offers.affine is None,
        residual.len() == term.width(),
        0 <= g < chart.grid@.len(),
    ensures
        v(offers.gain(residual, g)) + v(term.s_dof_charge(codes, a)) == squared_length(v, residual)
            - squared_distance(
            v,
            residual,
            |c: int| image_value(v, term.atom_seq()[a], chart.grid@[g].phi@, c),
        ) - prior_charge(v, chart, with_prior, g),
        offers.theta(residual, g) == chart.grid@[g].theta,
        forall|c: int|
            0 <= c < residual.len() ==> v(#[trigger] offers.image(residual, g)[c]) == image_value(
                v,
                term.atom_seq()[a],
                chart.grid@[g].phi@,
                c,
            ),
{
    let atom = term.atom_seq()[a];
    let phi = chart.grid@[g].phi@;
    assert(term.atom_wf(a));
    let n = residual.len() as int;
    let image = |c: int| image_value(v, atom, phi, c);
    let shown = offers.images@[g]@;
    assert(shown == image_of(atom, phi));
    assert forall|c: int| 0 <= c < n implies v(#[trigger] shown[c]) == image(c) by {
        lemma_exact_image(v, atom, phi, c);
    }
    lemma_distance(v, residual, image);
    let cross = |c: int| v(residual[c]) * image(c);
    let own = |c: int| image(c) * image(c);
    assert forall|c: int| 0 <= c < n implies #[trigger] cross(c) == v(residual[c]) * v(shown[c]) by {
        assert(v(shown[c]) == image(c));
    }
    assert forall|c: int| 0 <= c < n implies #[trigger] own(c) == v(shown[c]) * v(shown[c]) by {
        assert(v(shown[c]) == image(c));
    }
    lemma_exact_dot(v, residual, shown, cross);
    lemma_exact_dot(v, shown, shown, own);
}

/// The point at `t` of the straight line through two images.
pub open spec fn on_the_line<S: Scalar>(
    v: spec_fn(S) -> real,
    atom: SaeManifoldAtom<S>,
    chart: AtomChart<S>,
    t: real,
) -> spec_fn(int) -> real {
    |c: int|
        image_value(v, atom, chart.at_zero@, c) + t * (image_value(v, atom, chart.at_one@, c)
            - image_value(v, atom, chart.at_zero@, c))
}

/// The distance to a point of a straight line, from its foot.
proof fn lemma_line_distance<S: Scalar>(
    v: spec_fn(S) -> real,
    residual: Seq<S>,
    base: spec_fn(int) -> real,
    unit: spec_fn(int) -> real,
    along: real,
    r: real,
    image: spec_fn(int) -> real,
)
    requires
        total(residual.len() as int, |c: int| unit(c) * unit(c)) == 1 as real,
        total(residual.len() as int, |c: int| v(residual[c]) * unit(c)) - total(
            residual.len() as int,
            |c: int| base(c) * unit(c),
        ) == along,
        forall|c: int| 0 <= c < residual.len() ==> #[trigger] image(c) == base(c) + r * unit(c),
    ensures
        squared_distance(v, residual, image) == squared_distance(v, residual, base) - 2 as real * (r
            * along) + r * r,
{
    let n = residual.len() as int;
    let bb = |c: int| (v(residual[c]) - base(c)) * (v(residual[c]) - base(c));
    let ru = |c: int| v(residual[c]) * unit(c);
    let bu = |c: int| base(c) * unit(c);
    let uu = |c: int| unit(c) * unit(c);
    let gap = |c: int| ru(c) - bu(c);
    let k = 2 as real * r;
    let scaled = |c: int| k * gap(c);
    let s = r * r;
    let square = |c: int| s * uu(c);
    let part = |c: int| bb(c) - scaled(c);
    let all = |c: int| part(c) + square(c);
    let whole = |c: int| (v(residual[c]) - image(c)) * (v(residual[c]) - image(c));
    assert forall|c: int| 0 <= c < n implies #[trigger] whole(c) == all(c) by {
        let x = v(residual[c]);
        let b = base(c);
        let u = unit(c);
        assert(image(c) == b + r * u);
        let d = x - b;
        let e = r * u;
        assert((d - e) * (d - e) == d * d - 2 as real * (d * e) + e * e) by (nonlinear_arith);
        assert((r * u) * (r * u) == (r * r) * (u * u)) by (nonlinear_arith);
        assert((x - b) * (r * u) == r * (x * u - b * u)) by (nonlinear_arith);
        let q = x * u - b * u;
        assert((2 as real * r) * q == 2 as real * (r * q)) by (nonlinear_arith);
    }
    lemma_total_minus(n, ru, bu);
    lemma_total_scaled(n, k, gap);
    lemma_total_scaled(n, s, uu);
    lemma_total_minus(n, bb, scaled);
    lemma_total_plus(n, part, square);
    lemma_total_ext(n, whole, all);
    assert((2 as real * r) * along == 2 as real * (r * along)) by (nonlinear_arith);
}

/// An affine form's unit slope and its length.
proof fn lemma_affine_unit<S: Scalar>(
    v: spec_fn(S) -> real,
    base: Seq<S>,
    top: Seq<S>,
    f: AffineAtom<S>,
)
    requires
        is_exact(v),
        base.len() == top.len(),
        is_affine_form(base, top, Some(f)),
    ensures
        v(f.slope_norm) > 0 as real,
        forall|c: int|
            0 <= c < base.len() ==> v(f.slope_norm) * v(#[trigger] f.unit@[c]) == v(top[c]) - v(
                base[c],
            ),
        total(base.len() as int, |c: int| v(f.unit@[c]) * v(f.unit@[c])) == 1 as real,
{
    let n = base.len() as int;
    let slope = s_apart(top, base);
    let norm = v(f.slope_norm);
    let square = |c: int| v(slope[c]) * v(slope[c]);
    lemma_exact_dot(v, slope, slope, square);
    assert forall|c: int| 0 <= c < n implies #[trigger] square(c) >= 0 as real by {
        lemma_square(v(slope[c]));
    }
    lemma_total_not_negative(n, square);
    assert(norm >= 0 as real && norm * norm == total(n, square));
    // The floor is not negative.
    let own = |c: int| v(base[c]) * v(base[c]);
    lemma_exact_dot(v, base, base, own);
    assert forall|c: int| 0 <= c < n implies #[trigger] own(c) >= 0 as real by {
        lemma_square(v(base[c]));
    }
    lemma_total_not_negative(n, own);
    let root = v(s_energy(base).s_root());
    let eps = v(S::s_epsilon());
    lemma_product_not_negative(eps, root);
    lemma_product_not_negative(eps * root, v(S::s_count(base.len())));
    assert(norm > 0 as real);
    let unit = |c: int| v(f.unit@[c]) * v(f.unit@[c]);
    let k = norm * norm;
    let scaled = |c: int| k * unit(c);
    assert forall|c: int| 0 <= c < n implies norm * v(#[trigger] f.unit@[c]) == v(top[c]) - v(
        base[c],
    ) by {
        assert(f.unit@[c] == slope[c].s_over(f.slope_norm));
        lemma_over(v(slope[c]), norm);
    }
    assert forall|c: int| 0 <= c < n implies #[trigger] square(c) == scaled(c) by {
        let u = v(f.unit@[c]);
        assert(norm * u == v(slope[c]));
        assert((norm * u) * (norm * u) == (norm * norm) * (u * u)) by (nonlinear_arith);
    }
    lemma_total_scaled(n, k, unit);
    lemma_total_ext(n, square, scaled);
    let one = total(n, unit);
    if k == 0 as real {
        lemma_zero_product(norm, norm);
    }
    assert(k * (1 as real) == k);
    lemma_cancel(k, one, 1 as real);
}

/// An atom that is ranked exactly is offered at the point of its line that is nearest to
/// the residual. Its gain, with the admission charge given back, is the squared error
/// before it, less the squared error after it, less the prior's charge.
pub proof fn law_an_exact_offer_is_the_nearest_point_of_its_line<S: Scalar>(
    v: spec_fn(S) -> real,
    term: &SaeSupportSparseTerm<S>,
    chart: AtomChart<S>,
    codes: CodeLengths<S>,
    with_prior: bool,
    a: int,
    offers: AtomOffers<S>,
    residual: Seq<S>,
    other: real,
)
    requires
        is_exact(v),
        term.wf(),
        0 <= a < term.k(),
        term.are_offers_of(chart, codes, with_prior, a, offers),
        offers.affine is Some,
        chart.grid@.len() > 0,
        residual.len() == term.width(),
    ensures
        ({
            let atom = term.atom_seq()[a];
            let t = v(offers.theta(residual, 0));
            &&& v(offers.gain(residual, 0)) + v(term.s_dof_charge(codes, a)) == squared_length(
                v,
                residual,
            ) - squared_distance(v, residual, on_the_line(v, atom, chart, t)) - prior_charge(
                v,
                chart,
                with_prior,
                0,
            )
            &&& squared_distance(v, residual, on_the_line(v, atom, chart, t)) <= squared_distance(
                v,
                residual,
                on_the_line(v, atom, chart, other),
            )
            &&& forall|c: int|
                0 <= c < residual.len() ==> v(#[trigger] offers.image(residual, 0)[c])
                    == on_the_line(v, atom, chart, t)(c)
        }),
{
    let atom = term.atom_seq()[a];
    assert(term.atom_wf(a));
    let f = offers.affine->0;
    let low = image_of(atom, chart.at_zero@);
    let high = image_of(atom, chart.at_one@);
    let n = residual.len() as int;
    lemma_affine_unit(v, low, high, f);
    let norm = v(f.slope_norm);
    let base = |c: int| image_value(v, atom, chart.at_zero@, c);
    let unit = |c: int| v(f.unit@[c]);
    assert forall|c: int| 0 <= c < n implies v(#[trigger] low[c]) == base(c) by {
        lemma_exact_image(v, atom, chart.at_zero@, c);
    }
    assert forall|c: int| 0 <= c < n implies norm * #[trigger] unit(c) == image_value(
        v,
        atom,
        chart.at_one@,
        c,
    ) - base(c) by {
        lemma_exact_image(v, atom, chart.at_one@, c);
        lemma_exact_image(v, atom, chart.at_zero@, c);
        assert(norm * v(f.unit@[c]) == v(high[c]) - v(low[c]));
    }
    // The foot.
    let ru = |c: int| v(residual[c]) * unit(c);
    let bu = |c: int| base(c) * unit(c);
    let uu = |c: int| unit(c) * unit(c);
    lemma_exact_dot(v, residual, f.unit@, ru);
    assert forall|c: int| 0 <= c < n implies #[trigger] bu(c) == v(low[c]) * v(f.unit@[c]) by {
        assert(v(low[c]) == base(c));
    }
    lemma_exact_dot(v, low, f.unit@, bu);
    lemma_total_ext(n, uu, |c: int| v(f.unit@[c]) * v(f.unit@[c]));
    let along = v(f.along(residual));
    assert(f.unit@ == s_each_over(s_apart(high, low), f.slope_norm));
    assert(along == total(n, ru) - total(n, bu));
    let t = v(offers.theta(residual, 0));
    lemma_over(along, norm);
    assert(norm * t == along);
    let nearest = on_the_line(v, atom, chart, t);
    assert forall|c: int| 0 <= c < n implies #[trigger] nearest(c) == base(c) + along * unit(c) by {
        let u = unit(c);
        assert(norm * u == image_value(v, atom, chart.at_one@, c) - base(c));
        assert(t * (norm * u) == (norm * t) * u) by (nonlinear_arith);
    }
    lemma_line_distance(v, residual, base, unit, along, along, nearest);
    let elsewhere = on_the_line(v, atom, chart, other);
    let r = norm * other;
    assert forall|c: int| 0 <= c < n implies #[trigger] elsewhere(c) == base(c) + r * unit(c) by {
        let u = unit(c);
        assert(norm * u == image_value(v, atom, chart.at_one@, c) - base(c));
        assert(other * (norm * u) == (norm * other) * u) by (nonlinear_arith);
    }
    lemma_line_distance(v, residual, base, unit, along, r, elsewhere);
    let gap = r - along;
    lemma_square(gap);
    assert((r - along) * (r - along) == r * r - 2 as real * (r * along) + along * along)
        by (nonlinear_arith);
    // The gain.
    lemma_distance(v, residual, base);
    let cross = |c: int| v(residual[c]) * base(c);
    let own = |c: int| base(c) * base(c);
    assert forall|c: int| 0 <= c < n implies #[trigger] cross(c) == v(residual[c]) * v(f.base@[c]) by {
        assert(v(low[c]) == base(c));
    }
    assert forall|c: int| 0 <= c < n implies #[trigger] own(c) == v(low[c]) * v(low[c]) by {
        assert(v(low[c]) == base(c));
    }
    lemma_exact_dot(v, residual, f.base@, cross);
    lemma_exact_dot(v, low, low, own);
    assert forall|c: int| 0 <= c < n implies v(#[trigger] offers.image(residual, 0)[c]) == nearest(
        c,
    ) by {
        assert(v(low[c]) == base(c));
        let u = unit(c);
        assert(u * along == along * u) by (nonlinear_arith);
        assert(nearest(c) == base(c) + along * unit(c));
    }
    assert(offers.prior_terms@[0] == s_two::<S>().s_times(
        if with_prior {
            chart.grid@[0].prior
        } else {
            S::s_zero()
        },
    )) by {
        assert(offers.images@[0]@ == image_of(atom, chart.grid@[0].phi@));
    }
    assert(v(s_two::<S>()) == 2 as real);
    assert(2 as real * (along * along) - along * along == along * along);
}

/// The best of an atom's offers.
proof fn lemma_best_of_offers<S: Scalar>(
    v: spec_fn(S) -> real,
    offers: AtomOffers<S>,
    residual: Seq<S>,
    a: int,
    start: Best<S>,
    n: int,
)
    requires
        is_exact(v),
        0 <= n <= usize::MAX,
        0 <= a <= usize::MAX,
    ensures
        ({
            let best = scan_offers(offers, residual, a, start, n);
            &&& v(best.gain) >= v(start.gain)
            &&& forall|g: int|
                0 <= g < n ==> v(#[trigger] offers.gain(residual, g)) <= v(best.gain)
            &&& best == start || {
                &&& best.found
                &&& best.atom == a
                &&& best.offer < n
                &&& best.gain == offers.gain(residual, best.offer as int)
            }
        }),
    decreases n,
{
    if n > 0 {
        lemma_best_of_offers(v, offers, residual, a, start, n - 1);
    }
}

/// The best of the atoms' offers.
proof fn lemma_best_of_atoms<S: Scalar>(
    v: spec_fn(S) -> real,
    offers: Seq<AtomOffers<S>>,
    residual: Seq<S>,
    picked: Seq<Pick<S>>,
    n: int,
)
    requires
        is_exact(v),
        0 <= n <= offers.len() <= usize::MAX,
        forall|a: int| 0 <= a < offers.len() ==> (#[trigger] offers[a]).count() <= usize::MAX,
    ensures
        ({
            let best = scan_atoms(offers, residual, picked, n);
            &&& forall|a: int, g: int|
                0 <= a < n && !is_picked(picked, a) && 0 <= g < offers[a].count() ==> v(
                    #[trigger] offers[a].gain(residual, g),
                ) <= v(best.gain)
            &&& if best.found {
                &&& best.atom < n
                &&& !is_picked(picked, best.atom as int)
                &&& best.offer < offers[best.atom as int].count()
                &&& best.gain == offers[best.atom as int].gain(residual, best.offer as int)
            } else {
                v(best.gain) == -v(S::s_infinity())
            }
        }),
    decreases n,
{
    if n > 0 {
        lemma_best_of_atoms(v, offers, residual, picked, n - 1);
        let start = scan_atoms(offers, residual, picked, n - 1);
        assert(offers[n - 1].count() <= usize::MAX);
        if !is_picked(picked, n - 1) {
            lemma_best_of_offers(v, offers[n - 1], residual, n - 1, start, offers[n - 1].count());
            assert(offers[n - 1].count() >= 0);
        }
    }
}

/// The pick is offer `g` of an atom not picked before, and `left` is the residual less
/// its image.
pub open spec fn is_taken_offer<S: Scalar>(
    v: spec_fn(S) -> real,
    offers: Seq<AtomOffers<S>>,
    residual: Seq<S>,
    picked: Seq<Pick<S>>,
    pick: Pick<S>,
    left: Seq<S>,
    g: int,
) -> bool {
    let chosen = offers[pick.atom as int];
    &&& pick.atom < offers.len()
    &&& !is_picked(picked, pick.atom as int)
    &&& 0 <= g < chosen.count()
    &&& pick.gain == chosen.gain(residual, g)
    &&& pick.theta == chosen.theta(residual, g)
    &&& left.len() == residual.len()
    &&& forall|c: int|
        0 <= c < residual.len() ==> v(#[trigger] left[c]) == v(residual[c]) - v(
            chosen.image(residual, g)[c],
        )
}

/// Every pick of a greedy route is, of all offers of the atoms not picked before it, the
/// one with the largest gain against what the earlier picks have left over, and the
/// residual is what it was less the picked image. A route goes on while it may, while
/// an offer is left, and, if it stops at zero, while the next gain is positive.
pub proof fn law_a_greedy_route_picks_the_largest_gain<S: Scalar>(
    v: spec_fn(S) -> real,
    offers: Seq<AtomOffers<S>>,
    target: Seq<S>,
    stop_at_zero: bool,
    n: int,
)
    requires
        is_exact(v),
        0 < n,
        offers.len() <= usize::MAX,
        forall|a: int| 0 <= a < offers.len() ==> (#[trigger] offers[a]).count() <= usize::MAX,
        !greedy(offers, target, stop_at_zero, n - 1).stopped,
    ensures
        ({
            let before = greedy(offers, target, stop_at_zero, n - 1);
            let after = greedy(offers, target, stop_at_zero, n);
            if after.stopped {
                &&& after.picked == before.picked
                &&& forall|a: int, g: int|
                    0 <= a < offers.len() && !is_picked(before.picked, a) && 0 <= g
                        < offers[a].count() ==> v(
                        #[trigger] offers[a].gain(before.residual, g),
                    ) <= 0 as real && stop_at_zero && before.picked.len() > 0 || v(
                        offers[a].gain(before.residual, g),
                    ) <= -v(S::s_infinity())
            } else {
                &&& after.picked.len() == before.picked.len() + 1
                &&& after.picked.drop_last() == before.picked
                &&& exists|g: int| #[trigger]
                    is_taken_offer(
                        v,
                        offers,
                        before.residual,
                        before.picked,
                        after.picked.last(),
                        after.residual,
                        g,
                    )
                &&& forall|a: int, g: int|
                    0 <= a < offers.len() && !is_picked(before.picked, a) && 0 <= g
                        < offers[a].count() ==> v(
                        #[trigger] offers[a].gain(before.residual, g),
                    ) <= v(after.picked.last().gain)
                &&& stop_at_zero && before.picked.len() > 0 ==> v(after.picked.last().gain)
                    > 0 as real
            }
        }),
{
    crate::router::law_greedy_picks_are_distinct(offers, target, stop_at_zero, n - 1);
    let before = greedy(offers, target, stop_at_zero, n - 1);
    let after = greedy(offers, target, stop_at_zero, n);
    lemma_best_of_atoms(v, offers, before.residual, before.picked, offers.len() as int);
    let best = scan_atoms(offers, before.residual, before.picked, offers.len() as int);
    if !after.stopped {
        assert(after.picked.drop_last() =~= before.picked);
        let g = best.offer as int;
        let chosen = offers[best.atom as int];
        assert(chosen.gain(before.residual, g) == best.gain);
        assert(after.picked.last().atom == best.atom);
        assert forall|c: int| 0 <= c < target.len() implies v(#[trigger] after.residual[c]) == v(
            before.residual[c],
        ) - v(chosen.image(before.residual, g)[c]) by {
            assert(after.residual[c] == before.residual[c].s_minus(
                chosen.image(before.residual, g)[c],
            ));
        }
        assert(is_taken_offer(
            v,
            offers,
            before.residual,
            before.picked,
            after.picked.last(),
            after.residual,
            g,
        ));
    }
}

/// Twice a row's penalised objective with one atom at a grid point, and the charge for
/// admitting the atom.
pub open spec fn grid_cost<S: Scalar>(
    v: spec_fn(S) -> real,
    term: &SaeSupportSparseTerm<S>,
    samples: &RouteSamples<S>,
    with_prior: bool,
    y: Seq<S>,
    a: int,
    g: int,
) -> real {
    let chart = samples.charts@[a];
    squared_distance(
        v,
        y,
        |c: int| image_value(v, term.atom_seq()[a], chart.grid@[g].phi@, c),
    ) + prior_charge(v, chart, with_prior, g) + v(term.s_dof_charge(samples.codes, a))
}

/// A row routed to one atom sits at a grid point of it, and no grid point of any atom
/// costs less.
pub open spec fn is_cheapest<S: Scalar>(
    v: spec_fn(S) -> real,
    term: &SaeSupportSparseTerm<S>,
    samples: &RouteSamples<S>,
    with_prior: bool,
    y: Seq<S>,
    a: int,
    g: int,
    t: S,
) -> bool {
    &&& 0 <= a < term.k()
    &&& 0 <= g < samples.charts@[a].grid@.len()
    &&& t == samples.charts@[a].grid@[g].theta
    &&& forall|b: int, h: int|
        0 <= b < term.k() && 0 <= h < samples.charts@[b].grid@.len() ==> grid_cost(
            v,
            term,
            samples,
            with_prior,
            y,
            a,
            g,
        ) <= #[trigger] grid_cost(v, term, samples, with_prior, y, b, h)
}

/// The picks of one atom, in atom order.
proof fn lemma_one_in_atom_order<S>(picked: Seq<Pick<S>>, n: int)
    requires
        picked.len() == 1,
    ensures
        in_atom_order(picked, n) == (if picked[0].atom < n {
            picked
        } else {
            Seq::<Pick<S>>::empty()
        }),
    decreases n,
{
    if n > 0 {
        lemma_one_in_atom_order(picked, n - 1);
        if picked[0].atom == n - 1 {
            assert(picked[0].atom == n - 1);
            assert(is_picked(picked, n - 1));
            let i = choose|i: int| 0 <= i < picked.len() && (#[trigger] picked[i]).atom == n - 1;
            assert(i == 0);
            assert(in_atom_order(picked, n) =~= picked);
        } else {
            assert(!is_picked(picked, n - 1));
        }
    }
}

/// Rows that are routed to one atom each go to the cheapest grid point: of all atoms and
/// all points of their grids, the one with the smallest squared error, twice the prior's
/// energy and admission charge taken together. The prior counts exactly where it is to
/// be scored.
pub proof fn law_a_one_atom_route_is_the_cheapest_grid_point<S: Scalar>(
    v: spec_fn(S) -> real,
    term: &SaeSupportSparseTerm<S>,
    samples: &RouteSamples<S>,
    target: &Matrix<S>,
    ard_len: nat,
    with_prior: bool,
    routed: SaeSupportSparseTerm<S>,
    row: int,
)
    requires
        is_exact(v),
        term.wf(),
        target.ncols() == term.width(),
        term.samples_fit(samples, target.nrows()),
        term.all_one_axis(),
        !term.knob_spec().exact_affine_ranking,
        term.route_fault(target, 1, ard_len) is None,
        term.is_reroute(samples, target, 1, ard_len, with_prior, Ok(routed)),
        0 <= row < target.nrows(),
    ensures
        routed.state().supports()[row].len() == 1,
        routed.state().coord_rows()[row].len() == 1,
        exists|g: int| #[trigger]
            is_cheapest(
                v,
                term,
                samples,
                with_prior,
                target.row(row),
                routed.state().supports()[row][0] as int,
                g,
                routed.state().coord_rows()[row][0],
            ),
{
    let routes = choose|routes: Seq<RowRoute<S>>|
        {
            &&& #[trigger] term.are_routes(samples, target, 1, with_prior, routes)
            &&& SaeSupportSparseTerm::<S>::first_empty(routes, 0) is None
            &&& term.is_routed_term(routes, samples.specs@, 1, &routed)
            &&& routed.knob_spec() == term.routed_knobs()
        };
    let offers = choose|offers: Seq<AtomOffers<S>>|
        {
            &&& #[trigger] term.are_offers(samples.charts@, samples.codes, with_prior, offers)
            &&& term.are_greedy_routes(offers, target, 1, routes)
        };
    let y = target.row(row);
    let stops = term.stops_short();
    let k = term.k() as int;
    assert forall|a: int| 0 <= a < offers.len() implies (#[trigger] offers[a]).count()
        <= usize::MAX by {
        assert(term.are_offers_of(
            samples.charts@[a],
            samples.codes,
            with_prior,
            a,
            offers[a],
        ));
        assert(offers[a].images.len() == offers[a].images@.len());
    }
    reveal_with_fuel(greedy, 2);
    let start = greedy(offers, y, stops, 0);
    assert(start.picked =~= Seq::<Pick<S>>::empty());
    let after = greedy(offers, y, stops, 1);
    law_a_greedy_route_picks_the_largest_gain(v, offers, y, stops, 1);
    lemma_first_empty(routes, 0, row);
    assert(routed.state().supports()[row] == routes[row].indices@);
    assert(is_route_of(in_atom_order(after.picked, k), routes[row]));
    lemma_empty_in_atom_order::<S>(k);
    assert(!after.stopped);
    assert(after.picked.len() == 1);
    lemma_one_in_atom_order(after.picked, k);
    let pick = after.picked.last();
    let g = choose|g: int| #[trigger]
        is_taken_offer(v, offers, start.residual, start.picked, pick, after.residual, g);
    let a = pick.atom as int;
    assert(after.picked[0] == pick);
    let mine = term.are_offers_of(samples.charts@[a], samples.codes, with_prior, a, offers[a]);
    assert(mine);
    assert(offers[a].affine is None);
    law_a_grid_offer_gains_what_it_takes_off_the_objective(
        v,
        term,
        samples.charts@[a],
        samples.codes,
        with_prior,
        a,
        offers[a],
        y,
        g,
    );
    assert(routes[row].indices@[0] == pick.atom);
    assert(routes[row].coords@[0] == pick.theta);
    assert forall|b: int, h: int|
        0 <= b < k && 0 <= h < samples.charts@[b].grid@.len() implies grid_cost(
        v,
        term,
        samples,
        with_prior,
        y,
        a,
        g,
    ) <= #[trigger] grid_cost(v, term, samples, with_prior, y, b, h) by {
        assert(term.are_offers_of(
            samples.charts@[b],
            samples.codes,
            with_prior,
            b,
            offers[b],
        ));
        law_a_grid_offer_gains_what_it_takes_off_the_objective(
            v,
            term,
            samples.charts@[b],
            samples.codes,
            with_prior,
            b,
            offers[b],
            y,
            h,
        );
        assert(!is_picked(start.picked, b));
        assert(v(offers[b].gain(start.residual, h)) <= v(pick.gain));
    }
    assert(is_cheapest(
        v,
        term,
        samples,
        with_prior,
        y,
        routed.state().supports()[row][0] as int,
        g,
        routed.state().coord_rows()[row][0],
    ));
}

proof fn lemma_empty_in_atom_order<S>(n: int)
    ensures
        in_atom_order(Seq::<Pick<S>>::empty(), n) == Seq::<Pick<S>>::empty(),
    decreases n,
{
    if n > 0 {
        lemma_empty_in_atom_order::<S>(n - 1);
        assert(!is_picked(Seq::<Pick<S>>::empty(), n - 1));
    }
}

proof fn lemma_first_empty<S: Scalar>(routes: Seq<RowRoute<S>>, r: int, row: int)
    requires
        SaeSupportSparseTerm::<S>::first_empty(routes, r) is None,
        0 <= r <= row < routes.len(),
    ensures
        routes[row].indices@.len() > 0,
    decreases routes.len() - r,
{
    if r < row {
        lemma_first_empty(routes, r + 1, row);
    }
}

/// The charge for admitting an atom prices its parameters: shared over the rows that use
/// an atom, it is the noise level times the nats of its code, at half a logarithm of the
/// number of rows for each coefficient, on the scale of a gain. Without a price there is
/// no charge.
pub proof fn law_an_admission_charge_prices_the_coefficients<S: Scalar>(
    v: spec_fn(S) -> real,
    term: &SaeSupportSparseTerm<S>,
    codes: CodeLengths<S>,
    a: int,
)
    requires
        is_exact(v),
        term.wf(),
        0 <= a < term.k(),
    ensures
        match term.knob_spec().admission_dof_sigma2 {
            None => v(term.s_dof_charge(codes, a)) == 0 as real,
            Some(sigma2) => {
                let pairs = pairs_below(term.state().supports(), term.rows() as int) as real;
                let users = term.uses()[a].len() as real;
                let mean = if pairs < 1 as real {
                    1 as real / term.k() as real
                } else {
                    pairs / term.k() as real
                };
                let shared = if term.knob_spec().admission_usage_amortized {
                    if users < 1 as real {
                        1 as real
                    } else {
                        users
                    }
                } else if mean < 1 as real {
                    1 as real
                } else {
                    mean
                };
                v(term.s_dof_charge(codes, a)) * shared == v(sigma2) * v(codes.ln_two) * (
                term.atom_seq()[a].m() as real * term.width() as real * v(codes.log2_rows))
            },
        },
{
    if term.knob_spec().admission_dof_sigma2 is Some {
        let sigma2 = term.knob_spec().admission_dof_sigma2->0;
        let shared = if term.knob_spec().admission_usage_amortized {
            S::s_count(crate::scalar::at_least_one(term.uses()[a].len()))
        } else {
            term.s_mean_firings().s_larger(S::s_one())
        };
        assert(v(s_two::<S>()) == 2 as real);
        let half = v(crate::scalar::s_half::<S>());
        assert(half == 1 as real / 2 as real);
        let m = term.atom_seq()[a].m() as real;
        let w = term.width() as real;
        let bits = v(codes.log2_rows);
        let s = v(sigma2);
        let l = v(codes.ln_two);
        assert(v(term.s_atom_bits(codes, a)) == m * w * (half * bits));
        let price = 2 as real * s * l * (m * w * (half * bits));
        let mw = m * w;
        let sl = s * l;
        assert(mw * (half * bits) == half * (mw * bits)) by (nonlinear_arith);
        assert(2 as real * s * l == 2 as real * (s * l)) by (nonlinear_arith);
        let q = mw * bits;
        assert(price == (2 as real * sl) * (half * q));
        let slq = sl * q;
        assert((2 as real * sl) * (half * q) == 2 as real * half * slq) by (nonlinear_arith)
            requires
                slq == sl * q,
        ;
        assert(2 as real * half == 1 as real);
        assert(price == slq);
        assert(v(shared) > 0 as real);
        lemma_over(price, v(shared));
    }
}

} // verus!
