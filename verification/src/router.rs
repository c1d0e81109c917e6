//! Routing one row: which atoms it uses, and where on their charts.
//!
//! The atoms of an overcomplete dictionary are coherent, so the atoms that each
//! explain a row best are near-duplicates of one another. The greedy route
//! therefore picks one atom at a time against what the earlier picks have left
//! over. Each atom offers points of its chart; an offer's gain is the decrease
//! of the squared error, less the prior's charge for the coordinate and the
//! atom's admission charge.
use crate::scalar::{dot, s_dot, Scalar};
use vstd::prelude::*;

verus! {

/// An atom whose image is `base + t * slope`, by its base and unit slope.
#[derive(Debug)]
pub struct AffineAtom<S> {
    pub base: Vec<S>,
    pub unit: Vec<S>,
    pub base_sq: S,
    pub base_dot_unit: S,
    pub slope_norm: S,
}

/// What one atom offers a row.
#[derive(Debug)]
pub struct AtomOffers<S> {
    /// The image at each grid point.
    pub images: Vec<Vec<S>>,
    /// Each image's squared length.
    pub self_terms: Vec<S>,
    /// Each grid point's chart coordinate.
    pub thetas: Vec<S>,
    /// Twice the prior's energy at each grid point.
    pub prior_terms: Vec<S>,
    /// The charge for admitting the atom.
    pub dof_charge: S,
    /// The atom's affine form, when it is ranked at its optimal coordinate.
    pub affine: Option<AffineAtom<S>>,
}

/// An atom that a row uses, the gain it was picked for, and its coordinate.
#[derive(Clone, Copy, Debug)]
pub struct Pick<S> {
    pub atom: usize,
    pub gain: S,
    pub theta: S,
}

/// The best offer seen so far.
#[derive(Clone, Copy, Debug)]
pub struct Best<S> {
    pub found: bool,
    pub gain: S,
    pub atom: usize,
    pub offer: usize,
}

/// How a greedy route stands after some picks.
pub struct GreedyTrace<S> {
    pub residual: Seq<S>,
    pub picked: Seq<Pick<S>>,
    pub stopped: bool,
}

pub open spec fn s_two<S: Scalar>() -> S {
    S::s_count(2)
}

impl<S: Scalar> AffineAtom<S> {
    pub open spec fn has_width(&self, width: nat) -> bool {
        self.base@.len() == width && self.unit@.len() == width
    }

    /// How far along the unit slope the residual reaches.
    pub open spec fn along(&self, residual: Seq<S>) -> S {
        s_dot(residual, self.unit@).s_minus(self.base_dot_unit)
    }
}

impl<S: Scalar> AtomOffers<S> {
    pub open spec fn wf(&self, width: nat) -> bool {
        &&& self.images@.len() > 0
        &&& self.self_terms@.len() == self.images@.len()
        &&& self.thetas@.len() == self.images@.len()
        &&& self.prior_terms@.len() == self.images@.len()
        &&& forall|g: int| 0 <= g < self.images@.len() ==> (#[trigger] self.images@[g])@.len() == width
        &&& self.affine matches Some(f) ==> f.has_width(width)
    }

    /// How many points the atom offers.
    pub open spec fn count(&self) -> int {
        match self.affine {
            Some(_) => 1,
            None => self.images@.len() as int,
        }
    }

    /// What offer `g` decreases the squared error by, less the prior's charge.
    pub open spec fn raw_gain(&self, residual: Seq<S>, g: int) -> S {
        match self.affine {
            Some(f) => s_two::<S>().s_times(s_dot(residual, f.base@)).s_minus(f.base_sq).s_plus(
                f.along(residual).s_times(f.along(residual)),
            ).s_minus(self.prior_terms@[0]),
            None => s_two::<S>().s_times(s_dot(residual, self.images@[g]@)).s_minus(
                self.self_terms@[g],
            ).s_minus(self.prior_terms@[g]),
        }
    }

    /// The gain of offer `g`: what is left of it after the admission charge.
    pub open spec fn gain(&self, residual: Seq<S>, g: int) -> S {
        self.raw_gain(residual, g).s_minus(self.dof_charge)
    }

    /// The same atom, but for its admission charge.
    pub open spec fn same_but_charge(&self, other: &AtomOffers<S>) -> bool {
        &&& self.images@.len() == other.images@.len()
        &&& forall|g: int|
            0 <= g < self.images@.len() ==> (#[trigger] self.images@[g])@ == other.images@[g]@
        &&& self.self_terms@ == other.self_terms@
        &&& self.thetas@ == other.thetas@
        &&& self.prior_terms@ == other.prior_terms@
        &&& match (self.affine, other.affine) {
            (Some(f), Some(h)) => {
                &&& f.base@ == h.base@
                &&& f.unit@ == h.unit@
                &&& f.base_sq == h.base_sq
                &&& f.base_dot_unit == h.base_dot_unit
                &&& f.slope_norm == h.slope_norm
            },
            (None, None) => true,
            _ => false,
        }
    }

    /// The coordinate of offer `g`.
    pub open spec fn theta(&self, residual: Seq<S>, g: int) -> S {
        match self.affine {
            Some(f) => f.along(residual).s_over(f.slope_norm),
            None => self.thetas@[g],
        }
    }

    /// The image of offer `g`.
    pub open spec fn image(&self, residual: Seq<S>, g: int) -> Seq<S> {
        match self.affine {
            Some(f) => Seq::new(
                residual.len(),
                |c: int| f.base@[c].s_plus(f.unit@[c].s_times(f.along(residual))),
            ),
            None => self.images@[g]@,
        }
    }

    fn offer_count(&self) -> (r: usize)
        ensures
            r == self.count(),
    {
        match self.affine {
            Some(_) => 1,
            None => self.images.len(),
        }
    }

    fn offer_gain(&self, residual: &Vec<S>, g: usize) -> (r: S)
        requires
            self.wf(residual@.len()),
            g < self.count(),
        ensures
            r == self.gain(residual@, g as int),
    {
        match &self.affine {
            Some(f) => {
                let along: S = dot(residual, &f.unit).minus(f.base_dot_unit);
                S::count(2).times(dot(residual, &f.base)).minus(f.base_sq).plus(
                    along.times(along),
                ).minus(self.prior_terms[0]).minus(self.dof_charge)
            },
            None => S::count(2).times(dot(residual, &self.images[g])).minus(
                self.self_terms[g],
            ).minus(self.prior_terms[g]).minus(self.dof_charge),
        }
    }

    fn offer_theta(&self, residual: &Vec<S>, g: usize) -> (r: S)
        requires
            self.wf(residual@.len()),
            g < self.count(),
        ensures
            r == self.theta(residual@, g as int),
    {
        match &self.affine {
            Some(f) => dot(residual, &f.unit).minus(f.base_dot_unit).over(f.slope_norm),
            None => self.thetas[g],
        }
    }

    /// `residual` less the image of offer `g`.
    fn without_offer(&self, residual: &Vec<S>, g: usize) -> (r: Vec<S>)
        requires
            self.wf(residual@.len()),
            g < self.count(),
        ensures
            r@ == rest_of(residual@, self.image(residual@, g as int)),
    {
        let mut out: Vec<S> = Vec::new();
        match &self.affine {
            Some(f) => {
                let along: S = dot(residual, &f.unit).minus(f.base_dot_unit);
                for c in 0..residual.len()
                    invariant
                        self.affine == Some(*f),
                        f.has_width(residual@.len()),
                        along == f.along(residual@),
                        out@ == rest_of(residual@, self.image(residual@, g as int)).take(c as int),
                {
                    out.push(residual[c].minus(f.base[c].plus(f.unit[c].times(along))));
                    assert(out@ =~= rest_of(residual@, self.image(residual@, g as int)).take(c + 1));
                }
            },
            None => {
                let image: &Vec<S> = &self.images[g];
                for c in 0..residual.len()
                    invariant
                        self.affine is None,
                        image@ == self.images@[g as int]@,
                        image@.len() == residual@.len(),
                        out@ == rest_of(residual@, self.image(residual@, g as int)).take(c as int),
                {
                    out.push(residual[c].minus(image[c]));
                    assert(out@ =~= rest_of(residual@, self.image(residual@, g as int)).take(c + 1));
                }
            },
        }
        assert(rest_of(residual@, self.image(residual@, g as int)).take(residual@.len() as int)
            =~= rest_of(residual@, self.image(residual@, g as int)));
        out
    }
}

/// What is left of a residual.
pub open spec fn rest_of<S: Scalar>(residual: Seq<S>, image: Seq<S>) -> Seq<S> {
    Seq::new(residual.len(), |c: int| residual[c].s_minus(image[c]))
}

/// The best of the first `n` offers of atom `a`, on top of `start`: an offer
/// replaces it only when its gain is larger.
pub open spec fn scan_offers<S: Scalar>(
    offers: AtomOffers<S>,
    residual: Seq<S>,
    a: int,
    start: Best<S>,
    n: int,
) -> Best<S>
    decreases n,
{
    if n <= 0 {
        start
    } else {
        let best = scan_offers(offers, residual, a, start, n - 1);
        let gain = offers.gain(residual, n - 1);
        if best.gain.s_below(gain) {
            Best { found: true, gain, atom: a as usize, offer: (n - 1) as usize }
        } else {
            best
        }
    }
}

/// Atom `a` has been picked.
pub open spec fn is_picked<S>(picked: Seq<Pick<S>>, a: int) -> bool {
    exists|i: int| 0 <= i < picked.len() && (#[trigger] picked[i]).atom == a
}

/// The best offer of those of the first `n` atoms that have not been picked.
pub open spec fn scan_atoms<S: Scalar>(
    offers: Seq<AtomOffers<S>>,
    residual: Seq<S>,
    picked: Seq<Pick<S>>,
    n: int,
) -> Best<S>
    decreases n,
{
    if n <= 0 {
        Best { found: false, gain: S::s_infinity().s_negate(), atom: 0, offer: 0 }
    } else {
        let best = scan_atoms(offers, residual, picked, n - 1);
        if is_picked(picked, n - 1) {
            best
        } else {
            scan_offers(offers[n - 1], residual, n - 1, best, offers[n - 1].count())
        }
    }
}

/// A greedy route after at most `n` picks. It stops when no offer is left, and,
/// when `stop_at_zero` is set, before a later pick whose gain is not positive.
pub open spec fn greedy<S: Scalar>(
    offers: Seq<AtomOffers<S>>,
    target: Seq<S>,
    stop_at_zero: bool,
    n: int,
) -> GreedyTrace<S>
    decreases n,
{
    if n <= 0 {
        GreedyTrace { residual: target, picked: Seq::empty(), stopped: false }
    } else {
        let before = greedy(offers, target, stop_at_zero, n - 1);
        let best = scan_atoms(offers, before.residual, before.picked, offers.len() as int);
        if before.stopped {
            before
        } else if !best.found || (stop_at_zero && before.picked.len() > 0
            && best.gain.s_at_most(S::s_zero())) {
            GreedyTrace { residual: before.residual, picked: before.picked, stopped: true }
        } else {
            let chosen = offers[best.atom as int];
            GreedyTrace {
                residual: rest_of(
                    before.residual,
                    chosen.image(before.residual, best.offer as int),
                ),
                picked: before.picked.push(
                    Pick {
                        atom: best.atom,
                        gain: best.gain,
                        theta: chosen.theta(before.residual, best.offer as int),
                    },
                ),
                stopped: false,
            }
        }
    }
}

/// A best offer names an atom that has not been picked, and one of its offers.
proof fn lemma_scan_atoms<S: Scalar>(
    offers: Seq<AtomOffers<S>>,
    residual: Seq<S>,
    picked: Seq<Pick<S>>,
    n: int,
)
    requires
        0 <= n <= offers.len() <= usize::MAX,
        forall|a: int| 0 <= a < offers.len() ==> (#[trigger] offers[a]).count() <= usize::MAX,
    ensures
        scan_atoms(offers, residual, picked, n).found ==> {
            let best = scan_atoms(offers, residual, picked, n);
            &&& best.atom < n
            &&& !is_picked(picked, best.atom as int)
            &&& best.offer < offers[best.atom as int].count()
        },
    decreases n,
{
    if n > 0 {
        lemma_scan_atoms(offers, residual, picked, n - 1);
        let start = scan_atoms(offers, residual, picked, n - 1);
        assert(offers[n - 1].count() <= usize::MAX);
        lemma_scan_offers(offers[n - 1], residual, n - 1, start, offers[n - 1].count());
    }
}

proof fn lemma_scan_offers<S: Scalar>(
    offers: AtomOffers<S>,
    residual: Seq<S>,
    a: int,
    start: Best<S>,
    n: int,
)
    requires
        0 <= n <= usize::MAX,
        0 <= a <= usize::MAX,
    ensures
        scan_offers(offers, residual, a, start, n) == start || {
            let best = scan_offers(offers, residual, a, start, n);
            best.found && best.atom == a && best.offer < n
        },
    decreases n,
{
    if n > 0 {
        lemma_scan_offers(offers, residual, a, start, n - 1);
    }
}

/// A greedy route picks existing atoms, each at most once, and at most `n` of
/// them.
pub proof fn law_greedy_picks_are_distinct<S: Scalar>(
    offers: Seq<AtomOffers<S>>,
    target: Seq<S>,
    stop_at_zero: bool,
    n: int,
)
    requires
        0 <= n,
        offers.len() <= usize::MAX,
        forall|a: int| 0 <= a < offers.len() ==> (#[trigger] offers[a]).count() <= usize::MAX,
    ensures
        ({
            let trace = greedy(offers, target, stop_at_zero, n);
            &&& trace.picked.len() <= n
            &&& trace.residual.len() == target.len()
            &&& forall|i: int|
                0 <= i < trace.picked.len() ==> (#[trigger] trace.picked[i]).atom < offers.len()
            &&& forall|i: int, j: int|
                0 <= i < j < trace.picked.len() ==> (#[trigger] trace.picked[i]).atom != (
                #[trigger] trace.picked[j]).atom
            &&& !trace.stopped ==> trace.picked.len() == n
        }),
    decreases n,
{
    if n > 0 {
        law_greedy_picks_are_distinct(offers, target, stop_at_zero, n - 1);
        let before = greedy(offers, target, stop_at_zero, n - 1);
        lemma_scan_atoms(offers, before.residual, before.picked, offers.len() as int);
        let best = scan_atoms(offers, before.residual, before.picked, offers.len() as int);
        let after = greedy(offers, target, stop_at_zero, n);
        if after.picked.len() > before.picked.len() {
            assert forall|i: int, j: int| 0 <= i < j < after.picked.len() implies (
            #[trigger] after.picked[i]).atom != (#[trigger] after.picked[j]).atom by {
                if j == before.picked.len() {
                    assert(before.picked[i].atom != best.atom);
                } else {
                    assert(before.picked[i].atom != before.picked[j].atom);
                }
            }
        }
    }
}

/// Subtracting a charge tells two gains apart just as far as they are apart: it
/// rounds no two of them together.
pub open spec fn keeps_apart<S: Scalar>(charge: S, x: S, y: S) -> bool {
    x.s_minus(charge).s_below(y.s_minus(charge)) == x.s_below(y)
}

/// A charge makes an offer of nothing else, and nothing of no offer.
pub open spec fn keeps_offer<S: Scalar>(charge: S, x: S) -> bool {
    S::s_infinity().s_negate().s_below(x.s_minus(charge)) == S::s_infinity().s_negate().s_below(x)
}

/// Against this residual a charge rounds no two gains together.
pub open spec fn charge_keeps_order<S: Scalar>(
    offers: Seq<AtomOffers<S>>,
    charge: S,
    residual: Seq<S>,
) -> bool {
    &&& forall|a: int, g: int|
        0 <= a < offers.len() && 0 <= g < offers[a].count() ==> keeps_offer(
            charge,
            #[trigger] offers[a].raw_gain(residual, g),
        )
    &&& forall|a: int, g: int, b: int, h: int|
        0 <= a < offers.len() && 0 <= g < offers[a].count() && 0 <= b < offers.len() && 0 <= h
            < offers[b].count() ==> keeps_apart(
            charge,
            #[trigger] offers[a].raw_gain(residual, g),
            #[trigger] offers[b].raw_gain(residual, h),
        )
}

/// The same atoms, all with the admission charge `charge` in the first list and
/// `other` in the second.
pub open spec fn are_charged_alike<S: Scalar>(
    left: Seq<AtomOffers<S>>,
    right: Seq<AtomOffers<S>>,
    charge: S,
    other: S,
) -> bool {
    &&& left.len() == right.len()
    &&& forall|a: int|
        0 <= a < left.len() ==> {
            &&& (#[trigger] left[a]).same_but_charge(&right[a])
            &&& left[a].dof_charge == charge
            &&& right[a].dof_charge == other
        }
}

/// Two best offers are the same one.
pub open spec fn same_best<S: Scalar>(
    left: Seq<AtomOffers<S>>,
    right: Seq<AtomOffers<S>>,
    residual: Seq<S>,
    x: Best<S>,
    y: Best<S>,
) -> bool {
    &&& x.found == y.found
    &&& x.atom == y.atom
    &&& x.offer == y.offer
    &&& if x.found {
        &&& x.atom < left.len()
        &&& x.offer < left[x.atom as int].count()
        &&& x.gain == left[x.atom as int].gain(residual, x.offer as int)
        &&& y.gain == right[x.atom as int].gain(residual, x.offer as int)
    } else {
        x.gain == S::s_infinity().s_negate() && y.gain == S::s_infinity().s_negate()
    }
}

proof fn lemma_same_raw_gain<S: Scalar>(
    left: AtomOffers<S>,
    right: AtomOffers<S>,
    residual: Seq<S>,
    g: int,
)
    requires
        left.same_but_charge(&right),
        0 <= g < left.count(),
    ensures
        left.count() == right.count(),
        left.raw_gain(residual, g) == right.raw_gain(residual, g),
        left.theta(residual, g) == right.theta(residual, g),
        left.image(residual, g) == right.image(residual, g),
{
    if left.affine is None {
        assert(left.images@[g]@ == right.images@[g]@);
    } else {
        assert(left.image(residual, g) =~= right.image(residual, g));
    }
}

proof fn lemma_same_scan_offers<S: Scalar>(
    left: Seq<AtomOffers<S>>,
    right: Seq<AtomOffers<S>>,
    charge: S,
    other: S,
    residual: Seq<S>,
    a: int,
    x: Best<S>,
    y: Best<S>,
    n: int,
)
    requires
        are_charged_alike(left, right, charge, other),
        charge_keeps_order(left, charge, residual),
        charge_keeps_order(right, other, residual),
        0 <= a < left.len() <= usize::MAX,
        0 <= n <= left[a].count() <= usize::MAX,
        same_best(left, right, residual, x, y),
    ensures
        same_best(
            left,
            right,
            residual,
            scan_offers(left[a], residual, a, x, n),
            scan_offers(right[a], residual, a, y, n),
        ),
    decreases n,
{
    if n > 0 {
        lemma_same_scan_offers(left, right, charge, other, residual, a, x, y, n - 1);
        let p = scan_offers(left[a], residual, a, x, n - 1);
        let q = scan_offers(right[a], residual, a, y, n - 1);
        lemma_same_raw_gain(left[a], right[a], residual, n - 1);
        let raw = left[a].raw_gain(residual, n - 1);
        assert(right[a].raw_gain(residual, n - 1) == raw);
        if p.found {
            let b = p.atom as int;
            let h = p.offer as int;
            lemma_same_raw_gain(left[b], right[b], residual, h);
            assert(keeps_apart(charge, left[b].raw_gain(residual, h), raw));
            assert(keeps_apart(other, right[b].raw_gain(residual, h), right[a].raw_gain(residual, n - 1)));
        } else {
            assert(keeps_offer(charge, raw));
            assert(keeps_offer(other, right[a].raw_gain(residual, n - 1)));
        }
    }
}

/// Two lists of picks name the same atoms at the same coordinates, in the same
/// order.
pub open spec fn same_picks<S>(left: Seq<Pick<S>>, right: Seq<Pick<S>>) -> bool {
    &&& left.len() == right.len()
    &&& forall|i: int|
        0 <= i < left.len() ==> (#[trigger] left[i]).atom == right[i].atom && left[i].theta
            == right[i].theta
}

proof fn lemma_same_picked<S>(left: Seq<Pick<S>>, right: Seq<Pick<S>>, a: int)
    requires
        same_picks(left, right),
    ensures
        is_picked(left, a) == is_picked(right, a),
{
    if is_picked(left, a) {
        let i = choose|i: int| 0 <= i < left.len() && (#[trigger] left[i]).atom == a;
        assert(right[i].atom == a);
    }
    if is_picked(right, a) {
        let i = choose|i: int| 0 <= i < right.len() && (#[trigger] right[i]).atom == a;
        assert(left[i].atom == a);
    }
}

proof fn lemma_same_scan_atoms<S: Scalar>(
    left: Seq<AtomOffers<S>>,
    right: Seq<AtomOffers<S>>,
    charge: S,
    other: S,
    residual: Seq<S>,
    p: Seq<Pick<S>>,
    q: Seq<Pick<S>>,
    n: int,
)
    requires
        are_charged_alike(left, right, charge, other),
        charge_keeps_order(left, charge, residual),
        charge_keeps_order(right, other, residual),
        same_picks(p, q),
        0 <= n <= left.len() <= usize::MAX,
        forall|a: int| 0 <= a < left.len() ==> 0 <= (#[trigger] left[a]).count() <= usize::MAX,
    ensures
        same_best(
            left,
            right,
            residual,
            scan_atoms(left, residual, p, n),
            scan_atoms(right, residual, q, n),
        ),
    decreases n,
{
    if n > 0 {
        lemma_same_scan_atoms(left, right, charge, other, residual, p, q, n - 1);
        lemma_same_picked(p, q, n - 1);
        assert(0 <= left[n - 1].count() <= usize::MAX);
        assert(left[n - 1].same_but_charge(&right[n - 1]));
        assert(left[n - 1].count() == right[n - 1].count());
        if !is_picked(p, n - 1) {
            lemma_same_scan_offers(
                left,
                right,
                charge,
                other,
                residual,
                n - 1,
                scan_atoms(left, residual, p, n - 1),
                scan_atoms(right, residual, q, n - 1),
                left[n - 1].count(),
            );
        }
    }
}

/// A charge that is the same for every atom reorders nothing: with one common
/// charge or another, none among them, a greedy route picks the same atoms at the
/// same coordinates and leaves the same residual. It holds as far as subtracting
/// the charge rounds no two gains together, and where a route does not end at the
/// first gain that does not pay.
pub proof fn law_a_common_charge_reorders_nothing<S: Scalar>(
    left: Seq<AtomOffers<S>>,
    right: Seq<AtomOffers<S>>,
    charge: S,
    other: S,
    target: Seq<S>,
    n: int,
)
    requires
        0 <= n,
        are_charged_alike(left, right, charge, other),
        left.len() <= usize::MAX,
        forall|a: int| 0 <= a < left.len() ==> 0 <= (#[trigger] left[a]).count() <= usize::MAX,
        forall|i: int|
            0 <= i < n ==> charge_keeps_order(
                left,
                charge,
                (#[trigger] greedy(left, target, false, i)).residual,
            ) && charge_keeps_order(right, other, greedy(left, target, false, i).residual),
    ensures
        ({
            let x = greedy(left, target, false, n);
            let y = greedy(right, target, false, n);
            &&& x.residual == y.residual
            &&& x.stopped == y.stopped
            &&& same_picks(x.picked, y.picked)
        }),
    decreases n,
{
    if n > 0 {
        law_a_common_charge_reorders_nothing(left, right, charge, other, target, n - 1);
        let x = greedy(left, target, false, n - 1);
        let y = greedy(right, target, false, n - 1);
        lemma_same_scan_atoms(
            left,
            right,
            charge,
            other,
            x.residual,
            x.picked,
            y.picked,
            left.len() as int,
        );
        let best = scan_atoms(left, x.residual, x.picked, left.len() as int);
        if best.found {
            lemma_same_raw_gain(
                left[best.atom as int],
                right[best.atom as int],
                x.residual,
                best.offer as int,
            );
        }
    }
}

/// A row with an offer better than nothing keeps at least one atom: stopping at
/// a gain that is not positive never empties the support.
pub proof fn law_greedy_keeps_one<S: Scalar>(
    offers: Seq<AtomOffers<S>>,
    target: Seq<S>,
    stop_at_zero: bool,
    n: int,
)
    requires
        1 <= n,
    ensures
        greedy(offers, target, stop_at_zero, n).picked.len() == 0 <==> !scan_atoms(
            offers,
            target,
            Seq::empty(),
            offers.len() as int,
        ).found,
    decreases n,
{
    reveal_with_fuel(greedy, 2);
    if n > 1 {
        law_greedy_keeps_one(offers, target, stop_at_zero, n - 1);
    }
    if n == 1 {
        assert(greedy(offers, target, stop_at_zero, 0).picked =~= Seq::<Pick<S>>::empty());
    }
}

/// The picks that fall on the first `n` atoms, in atom order.
pub open spec fn in_atom_order<S>(picked: Seq<Pick<S>>, n: int) -> Seq<Pick<S>>
    decreases n,
{
    if n <= 0 {
        Seq::empty()
    } else if is_picked(picked, n - 1) {
        in_atom_order(picked, n - 1).push(pick_of(picked, n - 1))
    } else {
        in_atom_order(picked, n - 1)
    }
}

/// The pick of atom `a`.
pub open spec fn pick_of<S>(picked: Seq<Pick<S>>, a: int) -> Pick<S> {
    picked[choose|i: int| 0 <= i < picked.len() && (#[trigger] picked[i]).atom == a]
}

/// The same picks, made for distinct atoms, are the same in atom order.
pub proof fn lemma_same_in_atom_order<S>(left: Seq<Pick<S>>, right: Seq<Pick<S>>, n: int)
    requires
        same_picks(left, right),
        forall|i: int, j: int|
            0 <= i < j < left.len() ==> (#[trigger] left[i]).atom != (#[trigger] left[j]).atom,
    ensures
        same_picks(in_atom_order(left, n), in_atom_order(right, n)),
    decreases n,
{
    if n > 0 {
        lemma_same_in_atom_order(left, right, n - 1);
        lemma_same_picked(left, right, n - 1);
        if is_picked(left, n - 1) {
            let i = choose|i: int| 0 <= i < left.len() && (#[trigger] left[i]).atom == n - 1;
            let j = choose|j: int| 0 <= j < right.len() && (#[trigger] right[j]).atom == n - 1;
            assert(left[j].atom == right[j].atom);
            assert(i == j);
        }
    }
}

/// A row's route: its atoms in increasing order, their gains, and their
/// coordinates.
#[derive(Debug)]
pub struct RowRoute<S> {
    pub indices: Vec<u32>,
    pub gates: Vec<S>,
    pub coords: Vec<S>,
}

/// In atom order the atoms increase, lie below `n`, and are picked ones.
pub proof fn lemma_in_atom_order<S>(picked: Seq<Pick<S>>, n: int)
    requires
        0 <= n <= usize::MAX,
    ensures
        forall|i: int|
            0 <= i < in_atom_order(picked, n).len() ==> (#[trigger] in_atom_order(
                picked,
                n,
            )[i]).atom < n && is_picked(picked, in_atom_order(picked, n)[i].atom as int),
        forall|i: int, j: int|
            0 <= i < j < in_atom_order(picked, n).len() ==> (#[trigger] in_atom_order(
                picked,
                n,
            )[i]).atom < (#[trigger] in_atom_order(picked, n)[j]).atom,
        in_atom_order(picked, n).len() <= n,
    decreases n,
{
    if n > 0 {
        lemma_in_atom_order(picked, n - 1);
        if is_picked(picked, n - 1) {
            let i = choose|i: int| 0 <= i < picked.len() && (#[trigger] picked[i]).atom == n - 1;
            assert(picked[i].atom == n - 1);
        }
    }
}

/// The picks of distinct atoms, put in atom order.
fn sort_picks<S: Scalar>(picked: &Vec<Pick<S>>, k: usize) -> (r: Vec<Pick<S>>)
    requires
        forall|i: int| 0 <= i < picked@.len() ==> (#[trigger] picked@[i]).atom < k,
        forall|i: int, j: int|
            0 <= i < j < picked@.len() ==> (#[trigger] picked@[i]).atom != (
            #[trigger] picked@[j]).atom,
    ensures
        r@ == in_atom_order(picked@, k as int),
{
    let mut slots: Vec<Option<Pick<S>>> = Vec::new();
    for a in 0..k
        invariant
            slots@.len() == a,
            forall|b: int| 0 <= b < a ==> #[trigger] slots@[b] is None,
    {
        slots.push(None);
    }
    for i in 0..picked.len()
        invariant
            slots@.len() == k,
            forall|i: int| 0 <= i < picked@.len() ==> (#[trigger] picked@[i]).atom < k,
            forall|i: int, j: int|
                0 <= i < j < picked@.len() ==> (#[trigger] picked@[i]).atom != (
                #[trigger] picked@[j]).atom,
            forall|j: int|
                0 <= j < i ==> slots@[(#[trigger] picked@[j]).atom as int] == Some(picked@[j]),
            forall|a: int|
                0 <= a < k && (#[trigger] slots@[a]) is Some ==> exists|j: int|
                    0 <= j < i && (#[trigger] picked@[j]).atom == a,
    {
        let pick: Pick<S> = picked[i];
        let ghost before = slots@;
        slots.set(pick.atom, Some(pick));
        assert forall|a: int| 0 <= a < k && (#[trigger] slots@[a]) is Some implies exists|j: int|
            0 <= j < i + 1 && (#[trigger] picked@[j]).atom == a by {
            if a == pick.atom {
                assert(picked@[i as int].atom == a);
            } else {
                assert(before[a] is Some);
            }
        }
    }
    let mut out: Vec<Pick<S>> = Vec::new();
    for a in 0..k
        invariant
            slots@.len() == k,
            forall|i: int, j: int|
                0 <= i < j < picked@.len() ==> (#[trigger] picked@[i]).atom != (
                #[trigger] picked@[j]).atom,
            forall|j: int|
                0 <= j < picked@.len() ==> slots@[(#[trigger] picked@[j]).atom as int] == Some(
                    picked@[j],
                ),
            forall|b: int|
                0 <= b < k && (#[trigger] slots@[b]) is Some ==> exists|j: int|
                    0 <= j < picked@.len() && (#[trigger] picked@[j]).atom == b,
            out@ == in_atom_order(picked@, a as int),
    {
        match slots[a] {
            Some(pick) => {
                proof {
                    assert(slots@[a as int] is Some);
                    assert(is_picked(picked@, a as int));
                    let i = choose|i: int|
                        0 <= i < picked@.len() && (#[trigger] picked@[i]).atom == a;
                    assert(slots@[picked@[i].atom as int] == Some(picked@[i]));
                }
                out.push(pick);
            },
            None => {
                proof {
                    if is_picked(picked@, a as int) {
                        let i = choose|i: int|
                            0 <= i < picked@.len() && (#[trigger] picked@[i]).atom == a;
                        assert(slots@[picked@[i].atom as int] == Some(picked@[i]));
                    }
                }
            },
        }
    }
    out
}

/// `route` holds these picks, in order.
pub open spec fn is_route_of<S>(picks: Seq<Pick<S>>, route: RowRoute<S>) -> bool {
    &&& route.indices@.len() == picks.len()
    &&& route.gates@.len() == picks.len()
    &&& route.coords@.len() == picks.len()
    &&& forall|i: int|
        0 <= i < picks.len() ==> {
            &&& #[trigger] route.indices@[i] == picks[i].atom
            &&& route.gates@[i] == picks[i].gain
            &&& route.coords@[i] == picks[i].theta
        }
}

/// The greedy route of one row: up to `support_k` atoms, in atom order.
pub fn route_row<S: Scalar>(
    offers: &Vec<AtomOffers<S>>,
    target: &Vec<S>,
    support_k: usize,
    stop_at_zero: bool,
) -> (route: RowRoute<S>)
    requires
        offers@.len() <= u32::MAX,
        forall|a: int| 0 <= a < offers@.len() ==> (#[trigger] offers@[a]).wf(target@.len()),
    ensures
        is_route_of(
            in_atom_order(
                greedy(offers@, target@, stop_at_zero, support_k as int).picked,
                offers@.len() as int,
            ),
            route,
        ),
{
    let k: usize = offers.len();
    proof {
        assert forall|a: int| 0 <= a < offers@.len() implies (#[trigger] offers@[a]).count()
            <= usize::MAX by {
            assert(offers@[a].wf(target@.len()));
            assert(offers@[a].images.len() == offers@[a].images@.len());
        }
    }
    let mut residual: Vec<S> = crate::scalar::copied(target);
    let mut taken: Vec<bool> = Vec::new();
    for a in 0..k
        invariant
            taken@.len() == a,
            forall|b: int| 0 <= b < a ==> !#[trigger] taken@[b],
    {
        taken.push(false);
    }
    let mut picked: Vec<Pick<S>> = Vec::new();
    let mut stopped: bool = false;
    let mut step: usize = 0;
    assert(greedy(offers@, target@, stop_at_zero, 0).picked =~= picked@);
    while step < support_k
        invariant
            k == offers@.len(),
            k <= u32::MAX,
            step <= support_k,
            forall|a: int| 0 <= a < k ==> (#[trigger] offers@[a]).wf(target@.len()),
            forall|a: int| 0 <= a < k ==> (#[trigger] offers@[a]).count() <= usize::MAX,
            residual@.len() == target@.len(),
            taken@.len() == k,
            ({
                let trace = greedy(offers@, target@, stop_at_zero, step as int);
                &&& trace.residual == residual@
                &&& trace.picked == picked@
                &&& trace.stopped == stopped
            }),
            forall|a: int| 0 <= a < k ==> #[trigger] taken@[a] == is_picked(picked@, a),
        decreases support_k - step,
    {
        if !stopped {
            let best: Best<S> = best_offer(offers, &residual, &taken, Ghost(picked@));
            proof {
                lemma_scan_atoms(offers@, residual@, picked@, k as int);
            }
            if !best.found || (stop_at_zero && picked.len() > 0 && best.gain.at_most(S::zero())) {
                stopped = true;
            } else {
                let chosen: &AtomOffers<S> = &offers[best.atom];
                let theta: S = chosen.offer_theta(&residual, best.offer);
                let rest: Vec<S> = chosen.without_offer(&residual, best.offer);
                let ghost before = picked@;
                residual = rest;
                taken.set(best.atom, true);
                picked.push(Pick { atom: best.atom, gain: best.gain, theta });
                proof {
                    assert forall|a: int| 0 <= a < k implies #[trigger] taken@[a] == is_picked(
                        picked@,
                        a,
                    ) by {
                        if a == best.atom {
                            assert(picked@[before.len() as int].atom == a);
                        } else if is_picked(before, a) {
                            let i = choose|i: int|
                                0 <= i < before.len() && (#[trigger] before[i]).atom == a;
                            assert(picked@[i].atom == a);
                        } else if is_picked(picked@, a) {
                            let i = choose|i: int|
                                0 <= i < picked@.len() && (#[trigger] picked@[i]).atom == a;
                            assert(before[i].atom == a);
                        }
                    }
                }
            }
        }
        step = step + 1;
    }
    proof {
        law_greedy_picks_are_distinct(offers@, target@, stop_at_zero, support_k as int);
    }
    let ordered: Vec<Pick<S>> = sort_picks(&picked, k);
    proof {
        lemma_in_atom_order(picked@, k as int);
    }
    let mut indices: Vec<u32> = Vec::new();
    let mut gates: Vec<S> = Vec::new();
    let mut coords: Vec<S> = Vec::new();
    for i in 0..ordered.len()
        invariant
            k <= u32::MAX,
            forall|j: int| 0 <= j < ordered@.len() ==> (#[trigger] ordered@[j]).atom < k,
            indices@.len() == i,
            gates@.len() == i,
            coords@.len() == i,
            forall|j: int| 0 <= j < i ==> #[trigger] indices@[j] == ordered@[j].atom,
            forall|j: int| 0 <= j < i ==> #[trigger] gates@[j] == ordered@[j].gain,
            forall|j: int| 0 <= j < i ==> #[trigger] coords@[j] == ordered@[j].theta,
    {
        let pick: Pick<S> = ordered[i];
        assert(ordered@[i as int].atom < k);
        indices.push(pick.atom as u32);
        gates.push(pick.gain);
        coords.push(pick.theta);
    }
    RowRoute { indices, gates, coords }
}

/// The best offer of the atoms that have not been taken.
fn best_offer<S: Scalar>(
    offers: &Vec<AtomOffers<S>>,
    residual: &Vec<S>,
    taken: &Vec<bool>,
    Ghost(picked): Ghost<Seq<Pick<S>>>,
) -> (best: Best<S>)
    requires
        taken@.len() == offers@.len(),
        forall|a: int| 0 <= a < offers@.len() ==> (#[trigger] offers@[a]).wf(residual@.len()),
        forall|a: int|
            0 <= a < offers@.len() ==> #[trigger] taken@[a] == is_picked(picked, a),
    ensures
        best == scan_atoms(offers@, residual@, picked, offers@.len() as int),
{
    let mut best = Best {
        found: false,
        gain: S::infinity().negate(),
        atom: 0,
        offer: 0,
    };
    for a in 0..offers.len()
        invariant
            taken@.len() == offers@.len(),
            forall|a: int| 0 <= a < offers@.len() ==> (#[trigger] offers@[a]).wf(residual@.len()),
            forall|a: int|
                0 <= a < offers@.len() ==> #[trigger] taken@[a] == is_picked(picked, a),
            best == scan_atoms(offers@, residual@, picked, a as int),
    {
        if !taken[a] {
            let atom: &AtomOffers<S> = &offers[a];
            let n: usize = atom.offer_count();
            let ghost start = best;
            for g in 0..n
                invariant
                    n == atom.count(),
                    atom.wf(residual@.len()),
                    *atom == offers@[a as int],
                    best == scan_offers(*atom, residual@, a as int, start, g as int),
            {
                let gain: S = atom.offer_gain(residual, g);
                if best.gain.below(gain) {
                    best = Best { found: true, gain, atom: a, offer: g };
                }
            }
        }
    }
    best
}

} // verus!
