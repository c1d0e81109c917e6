//! Routing new rows against a fitted decoder.
//!
//! The chart points at which atoms are scored are sampled outside, by the atoms'
//! evaluators; this module decodes them, scores them, routes every row, and
//! builds the routed term.
use crate::active::{decode, s_decoded};
use crate::arrow::matrix_row;
use crate::assignment::{
    block_start, is_routed, latent_dims, row_is_routed, AssignmentMode, SaeAssignmentAtomSpec,
    SaeAssignmentState,
};
use crate::atom::{copy_atoms, SaeAtomBasisKind, SaeManifoldAtom};
use crate::coordinates::{flat, law_flat_state_holds_the_rows, row_start};
use crate::matrix::Matrix;
use crate::objective::CodeLengths;
use crate::router::{
    charge_keeps_order, greedy, in_atom_order, is_route_of, law_a_common_charge_reorders_nothing,
    law_greedy_picks_are_distinct, lemma_in_atom_order, lemma_same_in_atom_order, route_row,
    s_two, same_picks, AffineAtom, AtomOffers, Pick, RowRoute,
};
use crate::scalar::{
    at_least_one, copied, count_at_least_one, dot, energy, s_dot, s_energy, s_sum, Scalar,
};
use crate::selection::{
    by_atom, chosen, law_support_is_distinct, lemma_by_atom, select_row, support_of, Candidate,
    Trial,
};
use crate::term::{
    first_atom_fault, first_width_fault, pairs_below, SaeSupportSparseTerm, TermError, TermKnobs,
};
use vstd::prelude::*;

verus! {

/// A point of an atom's routing grid: its coordinate, the basis row there, and
/// the prior's energy.
#[derive(Debug)]
pub struct GridPoint<S> {
    pub theta: S,
    pub phi: Vec<S>,
    pub prior: S,
}

/// A one-axis atom's routing grid, and its basis rows at the coordinates zero
/// and one.
#[derive(Debug)]
pub struct AtomChart<S> {
    pub grid: Vec<GridPoint<S>>,
    pub at_zero: Vec<S>,
    pub at_one: Vec<S>,
}

/// A trial point of an atom: its coordinates, the basis row there, and the
/// prior's energy on each axis.
#[derive(Debug)]
pub struct BasisTrial<S> {
    pub coords: Vec<S>,
    pub phi: Vec<S>,
    pub priors: Vec<S>,
}

/// What the prior charges for a trial point, on the scale of a score: twice its
/// energy over all axes, and nothing where no prior is scored.
pub open spec fn s_trial_prior<S: Scalar>(point: BasisTrial<S>, with_prior: bool) -> S {
    s_two::<S>().s_times(
        if with_prior {
            s_total(point.priors@)
        } else {
            S::s_zero()
        },
    )
}

/// The sum of all values.
pub open spec fn s_total<S: Scalar>(values: Seq<S>) -> S {
    s_sum(S::s_zero(), values.len() as int, |i: int| values[i])
}

fn total<S: Scalar>(values: &Vec<S>) -> (r: S)
    ensures
        r == s_total(values@),
{
    let mut acc: S = S::zero();
    let ghost f = |i: int| values@[i];
    for i in 0..values.len()
        invariant
            f == (|i: int| values@[i]),
            acc == s_sum(S::s_zero(), i as int, f),
    {
        acc = acc.plus(values[i]);
    }
    acc
}

/// Why rows are not routed.
#[derive(Clone, Copy, Debug, PartialEq, Eq)]
pub enum RouteError {
    /// Not one block of precisions per atom.
    ArdLength { found: usize, expected: usize },
    /// No rows, or the wrong number of channels.
    TargetShape { rows: usize, cols: usize, expected: usize },
    /// The support's size is not between one and the number of atoms.
    SupportRange { support_k: usize, k_atoms: usize },
    /// The target holds a value that is not finite.
    NonFinite,
    /// No atom's offer is better than nothing on this row.
    EmptyRow { row: usize },
}

/// The image of an atom at a basis row.
pub open spec fn image_of<S: Scalar>(atom: SaeManifoldAtom<S>, phi: Seq<S>) -> Seq<S> {
    Seq::new(atom.width(), |c: int| s_decoded(atom, phi, c, atom.m() as int))
}

fn image<S: Scalar>(atom: &SaeManifoldAtom<S>, phi: &Vec<S>) -> (r: Vec<S>)
    requires
        atom.wf(),
        atom.spans_basis(),
        phi@.len() == atom.m(),
    ensures
        r@ == image_of(*atom, phi@),
{
    let r: Vec<S> = decode(atom, phi);
    assert(r@ =~= image_of(*atom, phi@));
    r
}

/// Entry by entry difference.
pub open spec fn s_apart<S: Scalar>(left: Seq<S>, right: Seq<S>) -> Seq<S> {
    Seq::new(left.len(), |c: int| left[c].s_minus(right[c]))
}

fn apart<S: Scalar>(left: &Vec<S>, right: &Vec<S>) -> (r: Vec<S>)
    requires
        left@.len() == right@.len(),
    ensures
        r@ == s_apart(left@, right@),
{
    let mut out: Vec<S> = Vec::new();
    for c in 0..left.len()
        invariant
            left@.len() == right@.len(),
            out@ == s_apart(left@, right@).take(c as int),
    {
        out.push(left[c].minus(right[c]));
        assert(out@ =~= s_apart(left@, right@).take(c + 1));
    }
    assert(s_apart(left@, right@).take(left@.len() as int) =~= s_apart(left@, right@));
    out
}

/// Every entry over one number.
pub open spec fn s_each_over<S: Scalar>(values: Seq<S>, by: S) -> Seq<S> {
    Seq::new(values.len(), |c: int| values[c].s_over(by))
}

fn each_over<S: Scalar>(values: &Vec<S>, by: S) -> (r: Vec<S>)
    ensures
        r@ == s_each_over(values@, by),
{
    let mut out: Vec<S> = Vec::new();
    for c in 0..values.len()
        invariant
            out@ == s_each_over(values@, by).take(c as int),
    {
        out.push(values[c].over(by));
        assert(out@ =~= s_each_over(values@, by).take(c + 1));
    }
    assert(s_each_over(values@, by).take(values@.len() as int) =~= s_each_over(values@, by));
    out
}

/// `affine` is the affine form of an atom with image `base` at zero and `top` at
/// one, if its slope can be told from the rounding of its base.
pub open spec fn is_affine_form<S: Scalar>(
    base: Seq<S>,
    top: Seq<S>,
    affine: Option<AffineAtom<S>>,
) -> bool {
    let slope = s_apart(top, base);
    let slope_norm = s_energy(slope).s_root();
    let floor = S::s_epsilon().s_times(s_energy(base).s_root()).s_times(S::s_count(base.len()));
    match affine {
        None => !floor.s_below(slope_norm),
        Some(f) => {
            &&& floor.s_below(slope_norm)
            &&& f.base@ == base
            &&& f.unit@ == s_each_over(slope, slope_norm)
            &&& f.base_sq == s_energy(base)
            &&& f.base_dot_unit == s_dot(base, s_each_over(slope, slope_norm))
            &&& f.slope_norm == slope_norm
        },
    }
}

fn affine_form<S: Scalar>(base: Vec<S>, top: Vec<S>) -> (r: Option<AffineAtom<S>>)
    requires
        base@.len() == top@.len(),
    ensures
        is_affine_form(base@, top@, r),
        r matches Some(f) ==> f.has_width(base@.len()),
{
    let slope: Vec<S> = apart(&top, &base);
    let slope_norm: S = energy(&slope).root();
    let base_sq: S = energy(&base);
    let floor: S = S::epsilon().times(base_sq.root()).times(S::count(base.len()));
    if !floor.below(slope_norm) {
        return None;
    }
    let unit: Vec<S> = each_over(&slope, slope_norm);
    let base_dot_unit: S = dot(&base, &unit);
    Some(AffineAtom { base, unit, base_sq, base_dot_unit, slope_norm })
}

impl<S: Scalar> SaeSupportSparseTerm<S> {
    /// How many points an atom's routing grid has: as many as its basis can
    /// tell apart, and at least two.
    pub open spec fn grid_width(&self, a: int) -> nat {
        if self.atom_seq()[a].m() < 2 {
            2
        } else {
            self.atom_seq()[a].m() as nat
        }
    }

    /// How many points an atom's routing grid has.
    pub fn route_grid_width(&self, atom: usize) -> (r: usize)
        requires
            atom < self.k(),
        ensures
            r == self.grid_width(atom as int),
    {
        let m: usize = self.atom_basis_size(atom);
        if m < 2 {
            2
        } else {
            m
        }
    }

    /// The sample at grid point `g`: for a periodic chart the centre of its
    /// cell as a fraction of the period, for any other chart a raw coordinate
    /// from the half-open interval that starts at minus one.
    pub open spec fn s_grid_sample(&self, a: int, g: nat) -> S {
        let width = S::s_count(self.grid_width(a));
        if self.atom_seq()[a].kind().has_periodic_chart() {
            S::s_count(g).s_plus(crate::scalar::s_half::<S>()).s_over(width)
        } else {
            S::s_one().s_negate().s_plus(s_two::<S>().s_times(S::s_count(g).s_over(width)))
        }
    }

    /// The sample at one grid point.
    pub fn grid_sample(&self, atom: usize, g: usize) -> (r: S)
        requires
            atom < self.k(),
        ensures
            r == self.s_grid_sample(atom as int, g as nat),
    {
        let width: S = S::count(self.route_grid_width(atom));
        if self.atom(atom).basis_kind().is_periodic_chart() {
            S::count(g).plus(crate::scalar::half::<S>()).over(width)
        } else {
            S::one().negate().plus(S::count(2).times(S::count(g).over(width)))
        }
    }

    /// The `g`-th trial coordinate of a one-axis atom that is scored on its own: an
    /// even fraction of a circle's period, or of the interval from minus one to
    /// one.
    pub open spec fn s_trial_sample(&self, a: int, g: nat) -> S {
        let fraction = S::s_count(g).s_over(S::s_count(self.grid_width(a)));
        if self.atom_seq()[a].kind() == SaeAtomBasisKind::Periodic {
            fraction
        } else {
            S::s_one().s_negate().s_plus(s_two::<S>().s_times(fraction))
        }
    }

    /// One trial coordinate of a one-axis atom that is scored on its own.
    pub fn trial_sample(&self, atom: usize, g: usize) -> (r: S)
        requires
            atom < self.k(),
        ensures
            r == self.s_trial_sample(atom as int, g as nat),
    {
        let fraction: S = S::count(g).over(S::count(self.route_grid_width(atom)));
        if self.atom(atom).basis_kind() == SaeAtomBasisKind::Periodic {
            fraction
        } else {
            S::one().negate().plus(S::count(2).times(fraction))
        }
    }

    /// The mean number of rows that use an atom.
    pub open spec fn s_mean_firings(&self) -> S {
        S::s_count(
            at_least_one(pairs_below(self.state().supports(), self.rows() as int)),
        ).s_over(S::s_count(at_least_one(self.k())))
    }

    /// The charge for admitting atom `a` to a row, on the scale of a gain: twice
    /// the noise level times the nats of its parameters, spread over the rows
    /// that use an atom. Nothing when admission is not priced.
    pub open spec fn s_dof_charge(&self, codes: CodeLengths<S>, a: int) -> S {
        match self.knob_spec().admission_dof_sigma2 {
            None => S::s_zero(),
            Some(sigma2) => {
                let shared = if self.knob_spec().admission_usage_amortized {
                    S::s_count(at_least_one(self.uses()[a].len()))
                } else {
                    self.s_mean_firings().s_larger(S::s_one())
                };
                s_two::<S>().s_times(sigma2).s_times(codes.ln_two).s_times(
                    self.s_atom_bits(codes, a),
                ).s_over(shared)
            },
        }
    }

    /// Every atom's admission charge.
    pub fn dof_charges(&self, codes: CodeLengths<S>) -> (r: Vec<S>)
        requires
            self.wf(),
            pairs_below(self.state().supports(), self.rows() as int) <= usize::MAX,
        ensures
            r@ == Seq::new(self.k(), |a: int| self.s_dof_charge(codes, a)),
    {
        let k_atoms: usize = self.k_atoms();
        let pairs: usize = self.active_pair_count();
        let mean: S = count_at_least_one::<S>(pairs).over(S::count(k_atoms));
        let amortized: bool = self.knobs().admission_usage_amortized;
        let ghost all = Seq::new(self.k(), |a: int| self.s_dof_charge(codes, a));
        let mut out: Vec<S> = Vec::new();
        for a in 0..k_atoms
            invariant
                self.wf(),
                k_atoms == self.k(),
                mean == self.s_mean_firings(),
                amortized == self.knob_spec().admission_usage_amortized,
                all == Seq::new(self.k(), |a: int| self.s_dof_charge(codes, a)),
                out@ == all.take(a as int),
        {
            let charge: S = match self.knobs().admission_dof_sigma2 {
                None => S::zero(),
                Some(sigma2) => {
                    let fired: usize = self.rows_of_atom(a).len();
                    let shared: S = if amortized {
                        count_at_least_one::<S>(fired)
                    } else {
                        mean.larger(S::one())
                    };
                    S::count(2).times(sigma2).times(codes.ln_two).times(
                        self.atom_bits(codes, a),
                    ).over(shared)
                },
            };
            out.push(charge);
            assert(out@ =~= all.take(a + 1));
        }
        assert(all.take(k_atoms as int) =~= all);
        out
    }

    /// Atom `a`'s chart has been sampled as its grid asks.
    pub open spec fn chart_fits(&self, chart: AtomChart<S>, a: int) -> bool {
        let m = self.atom_seq()[a].m();
        &&& chart.grid@.len() == self.grid_width(a)
        &&& forall|g: int| 0 <= g < chart.grid@.len() ==> (#[trigger] chart.grid@[g]).phi@.len() == m
        &&& self.ranked_exactly(a) ==> chart.at_zero@.len() == m && chart.at_one@.len() == m
    }

    pub open spec fn charts_fit(&self, charts: Seq<AtomChart<S>>) -> bool {
        &&& charts.len() == self.k()
        &&& forall|a: int| 0 <= a < charts.len() ==> self.chart_fits(#[trigger] charts[a], a)
    }

    /// Atom `a` is ranked at its optimal coordinate, if its slope allows.
    pub open spec fn ranked_exactly(&self, a: int) -> bool {
        self.knob_spec().exact_affine_ranking && self.atom_seq()[a].m() == 2
    }

    /// `offers` is what atom `a` offers, given its sampled chart.
    pub open spec fn are_offers_of(
        &self,
        chart: AtomChart<S>,
        codes: CodeLengths<S>,
        with_prior: bool,
        a: int,
        offers: AtomOffers<S>,
    ) -> bool {
        let atom = self.atom_seq()[a];
        &&& offers.wf(self.width())
        &&& offers.images@.len() == chart.grid@.len()
        &&& forall|g: int|
            0 <= g < chart.grid@.len() ==> {
                &&& (#[trigger] offers.images@[g])@ == image_of(atom, chart.grid@[g].phi@)
                &&& offers.self_terms@[g] == s_energy(image_of(atom, chart.grid@[g].phi@))
                &&& offers.thetas@[g] == chart.grid@[g].theta
                &&& offers.prior_terms@[g] == s_two::<S>().s_times(
                    if with_prior {
                        chart.grid@[g].prior
                    } else {
                        S::s_zero()
                    },
                )
            }
        &&& offers.dof_charge == self.s_dof_charge(codes, a)
        &&& if self.ranked_exactly(a) {
            is_affine_form(
                image_of(atom, chart.at_zero@),
                image_of(atom, chart.at_one@),
                offers.affine,
            )
        } else {
            offers.affine is None
        }
    }

    fn atom_offers(
        &self,
        chart: &AtomChart<S>,
        codes: CodeLengths<S>,
        with_prior: bool,
        atom: usize,
        charge: S,
    ) -> (offers: AtomOffers<S>)
        requires
            self.wf(),
            atom < self.k(),
            self.chart_fits(*chart, atom as int),
            charge == self.s_dof_charge(codes, atom as int),
        ensures
            self.are_offers_of(*chart, codes, with_prior, atom as int, offers),
    {
        proof {
            assert(self.atom_wf(atom as int));
        }
        let template: &SaeManifoldAtom<S> = self.atom(atom);
        let mut images: Vec<Vec<S>> = Vec::new();
        let mut self_terms: Vec<S> = Vec::new();
        let mut thetas: Vec<S> = Vec::new();
        let mut prior_terms: Vec<S> = Vec::new();
        for g in 0..chart.grid.len()
            invariant
                self.chart_fits(*chart, atom as int),
                *template == self.atom_seq()[atom as int],
                template.wf(),
                template.spans_basis(),
                template.width() == self.width(),
                images@.len() == g,
                self_terms@.len() == g,
                thetas@.len() == g,
                prior_terms@.len() == g,
                forall|i: int|
                    0 <= i < g ==> (#[trigger] images@[i])@ == image_of(
                        *template,
                        chart.grid@[i].phi@,
                    ),
                forall|i: int|
                    0 <= i < g ==> #[trigger] self_terms@[i] == s_energy(
                        image_of(*template, chart.grid@[i].phi@),
                    ),
                forall|i: int| 0 <= i < g ==> #[trigger] thetas@[i] == chart.grid@[i].theta,
                forall|i: int|
                    0 <= i < g ==> #[trigger] prior_terms@[i] == s_two::<S>().s_times(
                        if with_prior {
                            chart.grid@[i].prior
                        } else {
                            S::s_zero()
                        },
                    ),
        {
            let point: &GridPoint<S> = &chart.grid[g];
            assert(chart.grid@[g as int].phi@.len() == template.m());
            let decoded: Vec<S> = image(template, &point.phi);
            self_terms.push(energy(&decoded));
            images.push(decoded);
            thetas.push(point.theta);
            prior_terms.push(
                S::count(2).times(
                    if with_prior {
                        point.prior
                    } else {
                        S::zero()
                    },
                ),
            );
        }
        let affine: Option<AffineAtom<S>> = if self.knobs().exact_affine_ranking
            && template.basis_size() == 2 {
            affine_form(image(template, &chart.at_zero), image(template, &chart.at_one))
        } else {
            None
        };
        AtomOffers { images, self_terms, thetas, prior_terms, dof_charge: charge, affine }
    }

    /// What all the atoms offer.
    pub open spec fn are_offers(
        &self,
        charts: Seq<AtomChart<S>>,
        codes: CodeLengths<S>,
        with_prior: bool,
        offers: Seq<AtomOffers<S>>,
    ) -> bool {
        &&& offers.len() == self.k()
        &&& forall|a: int|
            0 <= a < self.k() ==> self.are_offers_of(
                charts[a],
                codes,
                with_prior,
                a,
                #[trigger] offers[a],
            )
    }

    /// Every atom's offers.
    pub fn all_offers(
        &self,
        charts: &Vec<AtomChart<S>>,
        codes: CodeLengths<S>,
        with_prior: bool,
    ) -> (offers: Vec<AtomOffers<S>>)
        requires
            self.wf(),
            self.charts_fit(charts@),
            pairs_below(self.state().supports(), self.rows() as int) <= usize::MAX,
        ensures
            self.are_offers(charts@, codes, with_prior, offers@),
    {
        let charges: Vec<S> = self.dof_charges(codes);
        let k_atoms: usize = self.k_atoms();
        let mut offers: Vec<AtomOffers<S>> = Vec::new();
        for a in 0..k_atoms
            invariant
                self.wf(),
                k_atoms == self.k(),
                self.charts_fit(charts@),
                charges@ == Seq::new(self.k(), |a: int| self.s_dof_charge(codes, a)),
                offers@.len() == a,
                forall|b: int|
                    0 <= b < a ==> self.are_offers_of(
                        charts@[b],
                        codes,
                        with_prior,
                        b,
                        #[trigger] offers@[b],
                    ),
        {
            assert(self.chart_fits(charts@[a as int], a as int));
            offers.push(self.atom_offers(&charts[a], codes, with_prior, a, charges[a]));
        }
        offers
    }

    /// The specs describe the atoms' coordinate blocks.
    pub open spec fn specs_fit(&self, specs: Seq<SaeAssignmentAtomSpec<S>>) -> bool {
        &&& specs.len() == self.k()
        &&& forall|a: int|
            0 <= a < specs.len() ==> {
                &&& (#[trigger] specs[a]).latent_dim == self.atom_seq()[a].dim()
                &&& specs[a].axis_periods@.len() == specs[a].latent_dim
            }
    }

    /// The rows' routes fill a state over these atoms.
    pub open spec fn routes_fit(&self, routes: Seq<RowRoute<S>>, top_k: usize) -> bool {
        forall|r: int|
            0 <= r < routes.len() ==> self.route_fits(#[trigger] routes[r])
                && routes[r].indices@.len() <= top_k
    }

    pub open spec fn route_fits(&self, route: RowRoute<S>) -> bool {
        row_is_routed(
            self.state().dims(),
            route.indices@,
            route.gates@.len(),
            route.coords@.len(),
        )
    }

    /// `term` has this term's atoms and the given routes.
    pub open spec fn is_routed_term(
        &self,
        routes: Seq<RowRoute<S>>,
        specs: Seq<SaeAssignmentAtomSpec<S>>,
        top_k: usize,
        term: &SaeSupportSparseTerm<S>,
    ) -> bool {
        &&& term.wf()
        &&& term.width() == self.width()
        &&& term.k() == self.k()
        &&& forall|a: int|
            0 <= a < self.k() ==> (#[trigger] term.atom_seq()[a]).same_as(&self.atom_seq()[a])
        &&& term.state().mode_spec() == (AssignmentMode::TopK { k: top_k })
        &&& term.state().dims() == self.state().dims()
        &&& forall|a: int|
            0 <= a < self.k() ==> #[trigger] term.state().periods(a) == specs[a].axis_periods@
        &&& term.rows() == routes.len()
        &&& forall|r: int|
            0 <= r < routes.len() ==> {
                &&& #[trigger] term.state().supports()[r] == routes[r].indices@
                &&& term.state().gate_rows()[r] == routes[r].gates@
                &&& term.state().coord_rows()[r] == routes[r].coords@
            }
    }

    /// The first row from `r` on whose route is empty.
    pub open spec fn first_empty(routes: Seq<RowRoute<S>>, r: int) -> Option<int>
        decreases routes.len() - r,
    {
        if r >= routes.len() {
            None
        } else if routes[r].indices@.len() == 0 {
            Some(r)
        } else {
            Self::first_empty(routes, r + 1)
        }
    }

    proof fn lemma_width_fault_is_empty(
        routes: Seq<RowRoute<S>>,
        supports: Seq<Seq<u32>>,
        top_k: usize,
        r: int,
    )
        requires
            0 <= r <= routes.len(),
            supports.len() == routes.len() <= usize::MAX,
            forall|q: int|
                0 <= q < routes.len() ==> #[trigger] supports[q] == routes[q].indices@
                    && routes[q].indices@.len() <= top_k,
        ensures
            match Self::first_empty(routes, r) {
                None => first_width_fault(supports, top_k, r) is None,
                Some(row) => first_width_fault(supports, top_k, r) == Some(
                    TermError::SupportWidth { row: row as usize, width: 0, top_k },
                ) && 0 <= row < routes.len(),
            },
        decreases routes.len() - r,
    {
        if r < routes.len() {
            assert(supports[r] == routes[r].indices@);
            Self::lemma_width_fault_is_empty(routes, supports, top_k, r + 1);
        }
    }

    proof fn lemma_copies_have_no_fault(
        &self,
        atoms: Seq<SaeManifoldAtom<S>>,
        state: &SaeAssignmentState<S>,
        k: int,
    )
        requires
            self.wf(),
            atoms.len() == self.k(),
            state.dims() == self.state().dims(),
            0 <= k <= atoms.len(),
            forall|a: int| 0 <= a < self.k() ==> (#[trigger] atoms[a]).same_as(&self.atom_seq()[a]),
        ensures
            first_atom_fault(atoms, state, self.width(), k) is None,
        decreases atoms.len() - k,
    {
        if k < atoms.len() {
            assert(self.atom_wf(k));
            assert(atoms[k].same_as(&self.atom_seq()[k]));
            self.lemma_copies_have_no_fault(atoms, state, k + 1);
        }
    }

    /// Builds the routed term, with the given knobs.
    fn build_routed(
        &self,
        routes: Vec<RowRoute<S>>,
        specs: &Vec<SaeAssignmentAtomSpec<S>>,
        top_k: usize,
        knobs: TermKnobs<S>,
    ) -> (r: Result<SaeSupportSparseTerm<S>, RouteError>)
        requires
            self.wf(),
            self.specs_fit(specs@),
            self.routes_fit(routes@, top_k),
        ensures
            match r {
                Ok(term) => {
                    &&& Self::first_empty(routes@, 0) is None
                    &&& self.is_routed_term(routes@, specs@, top_k, &term)
                    &&& term.knob_spec() == knobs
                },
                Err(RouteError::EmptyRow { row }) => Self::first_empty(routes@, 0) == Some(
                    row as int,
                ),
                Err(_) => false,
            },
    {
        let n: usize = routes.len();
        let k_atoms: usize = self.k_atoms();
        let mut copies: Vec<SaeAssignmentAtomSpec<S>> = Vec::new();
        for a in 0..k_atoms
            invariant
                k_atoms == self.k(),
                self.specs_fit(specs@),
                copies@.len() == a,
                forall|b: int|
                    0 <= b < a ==> {
                        &&& (#[trigger] copies@[b]).latent_dim == specs@[b].latent_dim
                        &&& copies@[b].axis_periods@ == specs@[b].axis_periods@
                    },
        {
            copies.push(
                SaeAssignmentAtomSpec {
                    latent_dim: specs[a].latent_dim,
                    axis_periods: copied(&specs[a].axis_periods),
                },
            );
        }
        let mut indices: Vec<Vec<u32>> = Vec::new();
        let mut gates: Vec<Vec<S>> = Vec::new();
        let mut coords: Vec<Vec<S>> = Vec::new();
        for r in 0..n
            invariant
                n == routes@.len(),
                indices@.len() == r,
                gates@.len() == r,
                coords@.len() == r,
                forall|q: int| 0 <= q < r ==> (#[trigger] indices@[q])@ == routes@[q].indices@,
                forall|q: int| 0 <= q < r ==> (#[trigger] gates@[q])@ == routes@[q].gates@,
                forall|q: int| 0 <= q < r ==> (#[trigger] coords@[q])@ == routes@[q].coords@,
        {
            indices.push(copied(&routes[r].indices));
            gates.push(copied(&routes[r].gates));
            coords.push(copied(&routes[r].coords));
        }
        let ghost dims = self.state().dims();
        proof {
            assert forall|a: int| 0 <= a < self.k() implies dims[a]
                == #[trigger] self.atom_seq()[a].dim() by {
                assert(self.atom_wf(a));
            }
            assert(latent_dims(copies@) =~= dims);
            assert forall|k: int| 0 <= k < copies@.len() implies (
            #[trigger] copies@[k]).axis_periods@.len() == copies@[k].latent_dim by {
                assert(specs@[k].axis_periods@.len() == specs@[k].latent_dim);
            }
            assert forall|row: int| 0 <= row < n implies #[trigger] row_is_routed(
                latent_dims(copies@),
                indices@[row]@,
                gates@[row]@.len(),
                coords@[row]@.len(),
            ) by {
                assert(self.route_fits(routes@[row]));
                assert(indices@[row]@ == routes@[row].indices@);
                assert(gates@[row]@ == routes@[row].gates@);
                assert(coords@[row]@ == routes@[row].coords@);
            }
            assert(is_routed(n, k_atoms, copies@, indices@, gates@, coords@));
        }
        let ghost indices_seq = indices@;
        let ghost gates_seq = gates@;
        let ghost coords_seq = coords@;
        let ghost copies_seq = copies@;
        let built = SaeAssignmentState::from_topk_support_heterogeneous(
            n,
            k_atoms,
            top_k,
            copies,
            indices,
            gates,
            coords,
        );
        assert(built is Ok);
        let state = match built {
            Ok(state) => state,
            // The lists fill a routed state: there is no fault.
            Err(_) => {
                return Err(RouteError::NonFinite);
            },
        };
        proof {
            assert forall|k: int| 0 <= k < self.k() implies (#[trigger] self.atom_seq()[k]).wf() by {
                assert(self.atom_wf(k));
            }
        }
        let atoms: Vec<SaeManifoldAtom<S>> = copy_atoms(self.atoms());
        proof {
            assert(atoms@[0].same_as(&self.atom_seq()[0]));
            assert(self.atom_wf(0));
            self.lemma_copies_have_no_fault(atoms@, &state, 0);
            assert forall|q: int| 0 <= q < n implies #[trigger] state.supports()[q]
                == routes@[q].indices@ && routes@[q].indices@.len() <= top_k by {
                assert(indices_seq[q]@ == routes@[q].indices@);
                assert(self.route_fits(routes@[q]));
            }
            Self::lemma_width_fault_is_empty(routes@, state.supports(), top_k, 0);
        }
        let ghost state_spec = state;
        let ghost atoms_seq = atoms@;
        match SaeSupportSparseTerm::new(atoms, state) {
            Ok(mut term) => {
                term.set_decoder_fista_passes(knobs.decoder_fista_passes);
                term.set_admission_dof_pricing(knobs.admission_dof_sigma2);
                term.set_variable_priced_support(knobs.variable_priced_support);
                term.set_admission_usage_amortization(knobs.admission_usage_amortized);
                term.set_exact_affine_ranking(knobs.exact_affine_ranking);
                proof {
                    assert(term.state() == state_spec);
                    assert(term.atom_seq() == atoms_seq);
                    assert forall|a: int| 0 <= a < term.k() implies #[trigger] term.atom_wf(a) by {
                        assert(self.atom_wf(a));
                        assert(atoms_seq[a].same_as(&self.atom_seq()[a]));
                    }
                    assert forall|row: int| 0 <= row < term.rows() implies 1 <= (
                    #[trigger] term.support(row)).len() <= term.state().mode_spec()->k by {
                        assert(state_spec.supports()[row] == routes@[row].indices@);
                        Self::lemma_not_empty(routes@, 0, row);
                    }
                    assert forall|a: int|
                        0 <= a < self.k() implies #[trigger] term.state().periods(a)
                        == specs@[a].axis_periods@ by {
                        assert(copies_seq[a].axis_periods@ == specs@[a].axis_periods@);
                    }
                    assert forall|r: int| 0 <= r < routes@.len() implies {
                        &&& #[trigger] term.state().supports()[r] == routes@[r].indices@
                        &&& term.state().gate_rows()[r] == routes@[r].gates@
                        &&& term.state().coord_rows()[r] == routes@[r].coords@
                    } by {
                        assert(indices_seq[r]@ == routes@[r].indices@);
                        assert(gates_seq[r]@ == routes@[r].gates@);
                        assert(coords_seq[r]@ == routes@[r].coords@);
                    }
                }
                Ok(term)
            },
            Err(TermError::SupportWidth { row, width: _, top_k: _ }) => Err(
                RouteError::EmptyRow { row },
            ),
            // The atoms are copies of admitted ones: no other fault is left.
            Err(_) => Err(RouteError::NonFinite),
        }
    }

    proof fn lemma_not_empty(routes: Seq<RowRoute<S>>, r: int, row: int)
        requires
            0 <= r <= row < routes.len(),
            Self::first_empty(routes, r) is None,
        ensures
            routes[row].indices@.len() > 0,
        decreases row - r,
    {
        if r < row {
            Self::lemma_not_empty(routes, r + 1, row);
        }
    }

    /// What is wrong with a routing request, if anything is.
    pub open spec fn route_fault(
        &self,
        target: &Matrix<S>,
        support_k: usize,
        ard_len: nat,
    ) -> Option<RouteError> {
        if ard_len != self.k() {
            Some(RouteError::ArdLength { found: ard_len as usize, expected: self.k() as usize })
        } else if target.ncols() != self.width() || target.nrows() == 0 {
            Some(
                RouteError::TargetShape {
                    rows: target.nrows() as usize,
                    cols: target.ncols() as usize,
                    expected: self.width() as usize,
                },
            )
        } else if support_k == 0 || support_k > self.k() {
            Some(RouteError::SupportRange { support_k, k_atoms: self.k() as usize })
        } else if !all_entries_finite(target) {
            Some(RouteError::NonFinite)
        } else {
            None
        }
    }

    fn check_route(&self, target: &Matrix<S>, support_k: usize, ard_len: usize) -> (r: Result<
        (),
        RouteError,
    >)
        requires
            target.wf(),
        ensures
            match r {
                Ok(_) => self.route_fault(target, support_k, ard_len as nat) is None,
                Err(e) => self.route_fault(target, support_k, ard_len as nat) == Some(e),
            },
    {
        let k_atoms: usize = self.k_atoms();
        if ard_len != k_atoms {
            return Err(RouteError::ArdLength { found: ard_len, expected: k_atoms });
        }
        let rows: usize = target.row_count();
        let cols: usize = target.col_count();
        if cols != self.output_dim() || rows == 0 {
            return Err(RouteError::TargetShape { rows, cols, expected: self.output_dim() });
        }
        if support_k == 0 || support_k > k_atoms {
            return Err(RouteError::SupportRange { support_k, k_atoms });
        }
        if !entries_finite(target) {
            return Err(RouteError::NonFinite);
        }
        Ok(())
    }

    /// Admission is priced and the support may stop short.
    pub open spec fn stops_short(&self) -> bool {
        self.knob_spec().variable_priced_support && self.knob_spec().admission_dof_sigma2 is Some
    }

    /// Every atom has a chart of one axis.
    pub open spec fn all_one_axis(&self) -> bool {
        forall|a: int| 0 <= a < self.k() ==> (#[trigger] self.atom_seq()[a]).dim() == 1
    }

    /// Whether every atom has a chart of one axis: then rows are routed
    /// greedily, otherwise by marginal score.
    pub fn is_all_one_axis(&self) -> (r: bool)
        ensures
            r == self.all_one_axis(),
    {
        let k_atoms: usize = self.k_atoms();
        for a in 0..k_atoms
            invariant
                k_atoms == self.k(),
                forall|b: int| 0 <= b < a ==> (#[trigger] self.atom_seq()[b]).dim() == 1,
        {
            if self.atom(a).latent_dim() != 1 {
                assert(self.atom_seq()[a as int].dim() != 1);
                return false;
            }
        }
        true
    }

    /// The routes are the rows' greedy routes.
    pub open spec fn are_greedy_routes(
        &self,
        offers: Seq<AtomOffers<S>>,
        target: &Matrix<S>,
        support_k: usize,
        routes: Seq<RowRoute<S>>,
    ) -> bool {
        &&& routes.len() == target.nrows()
        &&& forall|r: int|
            0 <= r < routes.len() ==> is_route_of(
                in_atom_order(
                    greedy(offers, target.row(r), self.stops_short(), support_k as int).picked,
                    self.k() as int,
                ),
                #[trigger] routes[r],
            )
    }
}

/// Every entry is finite.
pub open spec fn all_entries_finite<S: Scalar>(m: &Matrix<S>) -> bool {
    forall|i: int, j: int|
        0 <= i < m.nrows() && 0 <= j < m.ncols() ==> #[trigger] m.at(i, j).s_finite()
}

fn entries_finite<S: Scalar>(m: &Matrix<S>) -> (r: bool)
    requires
        m.wf(),
    ensures
        r == all_entries_finite(m),
{
    let rows: usize = m.row_count();
    let cols: usize = m.col_count();
    for i in 0..rows
        invariant
            m.has_shape(rows as nat, cols as nat),
            forall|a: int, b: int|
                0 <= a < i && 0 <= b < cols ==> #[trigger] m.at(a, b).s_finite(),
    {
        for j in 0..cols
            invariant
                m.has_shape(rows as nat, cols as nat),
                i < rows,
                forall|a: int, b: int|
                    0 <= a < rows && 0 <= b < cols && (a < i || (a == i && b < j))
                        ==> #[trigger] m.at(a, b).s_finite(),
        {
            if !m.get(i, j).finite() {
                assert(!m.at(i as int, j as int).s_finite());
                return false;
            }
        }
    }
    true
}

/// When every block has one axis, a support's blocks have its length.
proof fn lemma_unit_blocks(dims: Seq<usize>, support: Seq<u32>, n: int)
    requires
        0 <= n <= support.len(),
        forall|i: int| 0 <= i < support.len() ==> #[trigger] support[i] < dims.len(),
        forall|a: int| 0 <= a < dims.len() ==> #[trigger] dims[a] == 1,
    ensures
        block_start(dims, support, n) == n,
    decreases n,
{
    if n > 0 {
        lemma_unit_blocks(dims, support, n - 1);
        assert(support[n - 1] < dims.len());
        assert(dims[support[n - 1] as int] == 1);
    }
}

impl<S: Scalar> SaeSupportSparseTerm<S> {
    /// The number of greedy picks, put in atom order, is at most `support_k`.
    proof fn lemma_greedy_route_fits(
        &self,
        offers: Seq<AtomOffers<S>>,
        row: Seq<S>,
        support_k: usize,
        route: RowRoute<S>,
    )
        requires
            self.wf(),
            self.all_one_axis(),
            offers.len() == self.k(),
            forall|a: int| 0 <= a < offers.len() ==> (#[trigger] offers[a]).count() <= usize::MAX,
            is_route_of(
                in_atom_order(
                    greedy(offers, row, self.stops_short(), support_k as int).picked,
                    self.k() as int,
                ),
                route,
            ),
        ensures
            self.route_fits(route),
            route.indices@.len() <= support_k,
    {
        let picked = greedy(offers, row, self.stops_short(), support_k as int).picked;
        law_greedy_picks_are_distinct(offers, row, self.stops_short(), support_k as int);
        lemma_in_atom_order(picked, self.k() as int);
        let ordered = in_atom_order(picked, self.k() as int);
        let dims = self.state().dims();
        assert forall|i: int| 0 <= i < route.indices@.len() implies #[trigger] route.indices@[i]
            < dims.len() by {
            assert(ordered[i].atom < self.k());
        }
        assert forall|a: int| 0 <= a < dims.len() implies #[trigger] dims[a] == 1 by {
            assert(self.atom_wf(a));
            assert(self.atom_seq()[a].dim() == 1);
        }
        lemma_unit_blocks(dims, route.indices@, route.indices@.len() as int);
        lemma_ordered_len(picked, self.k() as int);
    }

    /// The greedy route of every row.
    pub fn route_greedily(
        &self,
        offers: &Vec<AtomOffers<S>>,
        target: &Matrix<S>,
        support_k: usize,
    ) -> (routes: Vec<RowRoute<S>>)
        requires
            self.wf(),
            self.k() <= u32::MAX,
            self.all_one_axis(),
            target.wf(),
            target.ncols() == self.width(),
            offers@.len() == self.k(),
            forall|a: int| 0 <= a < offers@.len() ==> (#[trigger] offers@[a]).wf(self.width()),
        ensures
            self.are_greedy_routes(offers@, target, support_k, routes@),
            self.routes_fit(routes@, support_k),
    {
        let stop: bool = self.knobs().variable_priced_support
            && self.knobs().admission_dof_sigma2.is_some();
        let rows: usize = target.row_count();
        proof {
            assert forall|a: int| 0 <= a < offers@.len() implies (#[trigger] offers@[a]).count()
                <= usize::MAX by {
                assert(offers@[a].wf(self.width()));
                assert(offers@[a].images.len() == offers@[a].images@.len());
            }
        }
        let mut routes: Vec<RowRoute<S>> = Vec::new();
        for r in 0..rows
            invariant
                self.wf(),
                self.k() <= u32::MAX,
                self.all_one_axis(),
                target.wf(),
                target.ncols() == self.width(),
                rows == target.nrows(),
                stop == self.stops_short(),
                offers@.len() == self.k(),
                forall|a: int| 0 <= a < offers@.len() ==> (#[trigger] offers@[a]).wf(self.width()),
                forall|a: int|
                    0 <= a < offers@.len() ==> (#[trigger] offers@[a]).count() <= usize::MAX,
                routes@.len() == r,
                forall|q: int|
                    0 <= q < r ==> is_route_of(
                        in_atom_order(
                            greedy(
                                offers@,
                                target.row(q),
                                self.stops_short(),
                                support_k as int,
                            ).picked,
                            self.k() as int,
                        ),
                        #[trigger] routes@[q],
                    ),
                forall|q: int|
                    0 <= q < r ==> self.route_fits(#[trigger] routes@[q])
                        && routes@[q].indices@.len() <= support_k,
        {
            let line: Vec<S> = matrix_row(target, r);
            let route: RowRoute<S> = route_row(offers, &line, support_k, stop);
            proof {
                self.lemma_greedy_route_fits(offers@, target.row(r as int), support_k, route);
            }
            routes.push(route);
        }
        routes
    }
}

proof fn lemma_ordered_len<S>(picked: Seq<Pick<S>>, n: int)
    requires
        0 <= n <= usize::MAX,
        forall|i: int, j: int|
            0 <= i < j < picked.len() ==> (#[trigger] picked[i]).atom != (#[trigger] picked[j]).atom,
    ensures
        in_atom_order(picked, n).len() <= picked.len(),
{
    lemma_in_atom_order(picked, n);
    let ordered = in_atom_order(picked, n);
    let places = Seq::new(
        ordered.len(),
        |i: int|
            choose|p: int| 0 <= p < picked.len() && (#[trigger] picked[p]).atom == ordered[i].atom,
    );
    assert forall|i: int| 0 <= i < places.len() implies 0 <= #[trigger] places[i] < picked.len()
        && picked[places[i]].atom == ordered[i].atom by {
        assert(crate::router::is_picked(picked, ordered[i].atom as int));
    }
    assert forall|i: int, j: int| 0 <= i < j < places.len() implies places[i] != places[j] by {
        assert(ordered[i].atom < ordered[j].atom);
    }
    assert(places.no_duplicates());
    places.unique_seq_to_set();
    let all = vstd::set_lib::set_int_range(0, picked.len() as int);
    vstd::set_lib::lemma_int_range(0, picked.len() as int);
    assert(places.to_set().subset_of(all)) by {
        assert forall|x: int| places.to_set().contains(x) implies all.contains(x) by {
            let i = choose|i: int| 0 <= i < places.len() && places[i] == x;
            assert(0 <= places[i] < picked.len());
        }
    }
    vstd::set_lib::lemma_len_subset(places.to_set(), all);
}

/// The coordinates that the first `n` candidates were scored at.
pub open spec fn candidate_coords<S>(
    picks: Seq<Candidate<S>>,
    trials: Seq<Vec<Trial<S>>>,
    fallbacks: Seq<Trial<S>>,
) -> Seq<Seq<S>> {
    Seq::new(
        picks.len(),
        |i: int|
            chosen(
                trials[picks[i].atom as int]@,
                fallbacks[picks[i].atom as int],
                picks[i].trial,
            ).coords@,
    )
}

/// `route` holds these candidates and the coordinates they were scored at.
pub open spec fn is_candidate_route<S>(
    picks: Seq<Candidate<S>>,
    trials: Seq<Vec<Trial<S>>>,
    fallbacks: Seq<Trial<S>>,
    route: RowRoute<S>,
) -> bool {
    &&& route.indices@.len() == picks.len()
    &&& route.gates@.len() == picks.len()
    &&& forall|i: int| 0 <= i < picks.len() ==> #[trigger] route.indices@[i] == picks[i].atom
    &&& forall|i: int| 0 <= i < picks.len() ==> #[trigger] route.gates@[i] == picks[i].score
    &&& route.coords@ == flat(candidate_coords(picks, trials, fallbacks), picks.len() as int)
}

impl<S: Scalar> SaeSupportSparseTerm<S> {
    pub open spec fn trial_fits(&self, trial: BasisTrial<S>, a: int) -> bool {
        &&& trial.coords@.len() == self.atom_seq()[a].dim()
        &&& trial.phi@.len() == self.atom_seq()[a].m()
        &&& trial.priors@.len() == trial.coords@.len()
    }

    /// One row's trial points: for every atom, points of its chart.
    pub open spec fn row_trials_fit(&self, trials: Seq<Vec<BasisTrial<S>>>) -> bool {
        &&& trials.len() == self.k()
        &&& forall|a: int, i: int|
            0 <= a < trials.len() && 0 <= i < trials[a]@.len() ==> self.trial_fits(
                #[trigger] trials[a]@[i],
                a,
            )
    }

    pub open spec fn fallbacks_fit(&self, fallbacks: Seq<BasisTrial<S>>) -> bool {
        &&& fallbacks.len() == self.k()
        &&& forall|a: int| 0 <= a < fallbacks.len() ==> self.trial_fits(#[trigger] fallbacks[a], a)
    }

    /// The decoded trial.
    pub open spec fn is_decoded_trial(
        &self,
        point: BasisTrial<S>,
        with_prior: bool,
        a: int,
        trial: Trial<S>,
    ) -> bool {
        &&& trial.coords@ == point.coords@
        &&& trial.image@ == image_of(self.atom_seq()[a], point.phi@)
        &&& trial.prior_term == s_trial_prior(point, with_prior)
    }

    pub open spec fn are_decoded_trials(
        &self,
        points: Seq<Vec<BasisTrial<S>>>,
        with_prior: bool,
        trials: Seq<Vec<Trial<S>>>,
    ) -> bool {
        &&& trials.len() == points.len()
        &&& forall|a: int|
            0 <= a < points.len() ==> (#[trigger] trials[a])@.len() == points[a]@.len()
        &&& forall|a: int, i: int|
            0 <= a < points.len() && 0 <= i < points[a]@.len() ==> self.is_decoded_trial(
                points[a]@[i],
                with_prior,
                a,
                #[trigger] trials[a]@[i],
            )
    }

    pub open spec fn are_decoded_fallbacks(
        &self,
        points: Seq<BasisTrial<S>>,
        with_prior: bool,
        trials: Seq<Trial<S>>,
    ) -> bool {
        &&& trials.len() == points.len()
        &&& forall|a: int|
            0 <= a < points.len() ==> self.is_decoded_trial(
                points[a],
                with_prior,
                a,
                #[trigger] trials[a],
            )
    }

    fn decode_trial(&self, point: &BasisTrial<S>, with_prior: bool, atom: usize) -> (trial:
        Trial<S>)
        requires
            self.wf(),
            atom < self.k(),
            self.trial_fits(*point, atom as int),
        ensures
            self.is_decoded_trial(*point, with_prior, atom as int, trial),
            trial.image@.len() == self.width(),
    {
        assert(self.atom_wf(atom as int));
        let energy: S = if with_prior {
            total(&point.priors)
        } else {
            S::zero()
        };
        Trial {
            coords: copied(&point.coords),
            image: image(self.atom(atom), &point.phi),
            prior_term: S::count(2).times(energy),
        }
    }

    fn decode_trials(&self, points: &Vec<Vec<BasisTrial<S>>>, with_prior: bool) -> (trials: Vec<
        Vec<Trial<S>>,
    >)
        requires
            self.wf(),
            self.row_trials_fit(points@),
        ensures
            self.are_decoded_trials(points@, with_prior, trials@),
            forall|a: int, i: int|
                0 <= a < trials@.len() && 0 <= i < trials@[a]@.len() ==> (
                #[trigger] trials@[a]@[i]).image@.len() == self.width(),
    {
        let mut out: Vec<Vec<Trial<S>>> = Vec::new();
        for a in 0..points.len()
            invariant
                self.wf(),
                self.row_trials_fit(points@),
                out@.len() == a,
                forall|b: int| 0 <= b < a ==> (#[trigger] out@[b])@.len() == points@[b]@.len(),
                forall|b: int, i: int|
                    0 <= b < a && 0 <= i < points@[b]@.len() ==> self.is_decoded_trial(
                        points@[b]@[i],
                        with_prior,
                        b,
                        #[trigger] out@[b]@[i],
                    ) && out@[b]@[i].image@.len() == self.width(),
        {
            let line: &Vec<BasisTrial<S>> = &points[a];
            let mut trials: Vec<Trial<S>> = Vec::new();
            for i in 0..line.len()
                invariant
                    self.wf(),
                    self.row_trials_fit(points@),
                    a < points@.len(),
                    line@ == points@[a as int]@,
                    trials@.len() == i,
                    forall|j: int|
                        0 <= j < i ==> self.is_decoded_trial(
                            points@[a as int]@[j],
                            with_prior,
                            a as int,
                            #[trigger] trials@[j],
                        ) && trials@[j].image@.len() == self.width(),
            {
                assert(self.trial_fits(points@[a as int]@[i as int], a as int));
                trials.push(self.decode_trial(&line[i], with_prior, a));
            }
            out.push(trials);
        }
        out
    }

    fn decode_fallbacks(&self, points: &Vec<BasisTrial<S>>, with_prior: bool) -> (trials: Vec<
        Trial<S>,
    >)
        requires
            self.wf(),
            self.fallbacks_fit(points@),
        ensures
            self.are_decoded_fallbacks(points@, with_prior, trials@),
            forall|a: int|
                0 <= a < trials@.len() ==> (#[trigger] trials@[a]).image@.len() == self.width(),
    {
        let mut out: Vec<Trial<S>> = Vec::new();
        for a in 0..points.len()
            invariant
                self.wf(),
                self.fallbacks_fit(points@),
                out@.len() == a,
                forall|b: int|
                    0 <= b < a ==> self.is_decoded_trial(
                        points@[b],
                        with_prior,
                        b,
                        #[trigger] out@[b],
                    ) && out@[b].image@.len() == self.width(),
        {
            assert(self.trial_fits(points@[a as int], a as int));
            out.push(self.decode_trial(&points[a], with_prior, a));
        }
        out
    }

    /// `route` is the row's route by marginal score.
    pub open spec fn is_marginal_route(
        &self,
        points: Seq<Vec<BasisTrial<S>>>,
        falls: Seq<BasisTrial<S>>,
        codes: CodeLengths<S>,
        with_prior: bool,
        row: Seq<S>,
        support_k: usize,
        route: RowRoute<S>,
    ) -> bool {
        exists|trials: Seq<Vec<Trial<S>>>, fallbacks: Seq<Trial<S>>|
            {
                &&& #[trigger] self.are_decoded_trials(points, with_prior, trials)
                &&& #[trigger] self.are_decoded_fallbacks(falls, with_prior, fallbacks)
                &&& is_candidate_route(
                    by_atom(
                        support_of(
                            row,
                            trials,
                            fallbacks,
                            Seq::new(self.k(), |a: int| self.s_dof_charge(codes, a)),
                            support_k as nat,
                            self.stops_short(),
                        ),
                        self.k() as int,
                    ),
                    trials,
                    fallbacks,
                    route,
                )
            }
    }

    /// Candidate routes fill their blocks.
    proof fn lemma_candidate_starts(
        &self,
        picks: Seq<Candidate<S>>,
        trials: Seq<Vec<Trial<S>>>,
        fallbacks: Seq<Trial<S>>,
        support: Seq<u32>,
        n: int,
    )
        requires
            0 <= n <= picks.len(),
            support.len() == picks.len(),
            forall|i: int| 0 <= i < picks.len() ==> #[trigger] support[i] == picks[i].atom,
            forall|i: int|
                0 <= i < picks.len() ==> (#[trigger] candidate_coords(
                    picks,
                    trials,
                    fallbacks,
                )[i]).len() == self.state().dims()[picks[i].atom as int],
        ensures
            row_start(candidate_coords(picks, trials, fallbacks), n) == block_start(
                self.state().dims(),
                support,
                n,
            ),
        decreases n,
    {
        if n > 0 {
            self.lemma_candidate_starts(picks, trials, fallbacks, support, n - 1);
            assert(support[n - 1] == picks[n - 1].atom);
            assert(candidate_coords(picks, trials, fallbacks)[n - 1].len()
                == self.state().dims()[picks[n - 1].atom as int]);
        }
    }

    /// The route of one row by marginal score.
    pub fn route_row_marginally(
        &self,
        points: &Vec<Vec<BasisTrial<S>>>,
        falls: &Vec<BasisTrial<S>>,
        codes: CodeLengths<S>,
        with_prior: bool,
        row: &Vec<S>,
        support_k: usize,
    ) -> (route: RowRoute<S>)
        requires
            self.wf(),
            self.k() <= u32::MAX,
            self.row_trials_fit(points@),
            self.fallbacks_fit(falls@),
            row@.len() == self.width(),
            pairs_below(self.state().supports(), self.rows() as int) <= usize::MAX,
        ensures
            self.is_marginal_route(points@, falls@, codes, with_prior, row@, support_k, route),
            self.route_fits(route),
            route.indices@.len() <= support_k,
    {
        let stop: bool = self.knobs().variable_priced_support
            && self.knobs().admission_dof_sigma2.is_some();
        let trials: Vec<Vec<Trial<S>>> = self.decode_trials(points, with_prior);
        let fallbacks: Vec<Trial<S>> = self.decode_fallbacks(falls, with_prior);
        let charges: Vec<S> = self.dof_charges(codes);
        let picks: Vec<Candidate<S>> = select_row(
            row,
            &trials,
            &fallbacks,
            &charges,
            support_k,
            stop,
        );
        let ghost n = self.k() as int;
        let ghost support = support_of(
            row@,
            trials@,
            fallbacks@,
            charges@,
            support_k as nat,
            stop,
        );
        proof {
            assert forall|a: int| 0 <= a < trials@.len() implies (#[trigger] trials@[a])@.len()
                <= usize::MAX by {
                assert(trials@[a].len() == trials@[a]@.len());
            }
            law_support_is_distinct(
                row@,
                trials@,
                fallbacks@,
                charges@,
                support_k as nat,
                stop,
            );
            lemma_by_atom(support, trials@, n, n);
            lemma_by_atom_len(support, trials@, n);
        }
        let mut indices: Vec<u32> = Vec::new();
        let mut gates: Vec<S> = Vec::new();
        let mut coords: Vec<S> = Vec::new();
        let ghost lines = candidate_coords(picks@, trials@, fallbacks@);
        for i in 0..picks.len()
            invariant
                self.wf(),
                self.k() <= u32::MAX,
                n == self.k(),
                trials@.len() == n,
                fallbacks@.len() == n,
                forall|j: int|
                    0 <= j < picks@.len() ==> {
                        &&& (#[trigger] picks@[j]).atom < n
                        &&& picks@[j].trial matches Some(t) ==> t
                            < trials@[picks@[j].atom as int]@.len()
                    },
                lines == candidate_coords(picks@, trials@, fallbacks@),
                indices@.len() == i,
                gates@.len() == i,
                forall|j: int| 0 <= j < i ==> #[trigger] indices@[j] == picks@[j].atom,
                forall|j: int| 0 <= j < i ==> #[trigger] gates@[j] == picks@[j].score,
                coords@ == flat(lines, i as int),
        {
            let pick: Candidate<S> = picks[i];
            assert(picks@[i as int].atom < n);
            indices.push(pick.atom as u32);
            gates.push(pick.score);
            let line: &Vec<S> = match pick.trial {
                Some(t) => &trials[pick.atom][t].coords,
                None => &fallbacks[pick.atom].coords,
            };
            let ghost start = coords@;
            for j in 0..line.len()
                invariant
                    coords@ == start + line@.take(j as int),
            {
                coords.push(line[j]);
                assert(coords@ =~= start + line@.take(j + 1));
            }
            assert(start + line@.take(line@.len() as int) =~= start + lines[i as int]);
        }
        let route = RowRoute { indices, gates, coords };
        proof {
            assert(is_candidate_route(picks@, trials@, fallbacks@, route));
            assert(self.are_decoded_trials(points@, with_prior, trials@));
            assert(self.are_decoded_fallbacks(falls@, with_prior, fallbacks@));
            let dims = self.state().dims();
            assert forall|i: int| 0 <= i < picks@.len() implies (#[trigger] lines[i]).len()
                == dims[picks@[i].atom as int] by {
                let a = picks@[i].atom as int;
                assert(self.atom_wf(a));
                match picks@[i].trial {
                    Some(t) => {
                        assert(self.is_decoded_trial(
                            points@[a]@[t as int],
                            with_prior,
                            a,
                            trials@[a]@[t as int],
                        ));
                        assert(self.trial_fits(points@[a]@[t as int], a));
                    },
                    None => {
                        assert(self.is_decoded_trial(falls@[a], with_prior, a, fallbacks@[a]));
                        assert(self.trial_fits(falls@[a], a));
                    },
                }
            }
            self.lemma_candidate_starts(
                picks@,
                trials@,
                fallbacks@,
                route.indices@,
                picks@.len() as int,
            );
            law_flat_state_holds_the_rows(lines, picks@.len() as int);
            assert forall|i: int| 0 <= i < route.indices@.len() implies #[trigger] route.indices@[i]
                < dims.len() by {
                assert(picks@[i].atom < n);
            }
        }
        route
    }

    /// The trial points fit every row.
    pub open spec fn trials_fit(&self, points: Seq<Vec<Vec<BasisTrial<S>>>>, rows: nat) -> bool {
        &&& points.len() == rows
        &&& forall|r: int| 0 <= r < rows ==> self.row_trials_fit(#[trigger] points[r]@)
    }

    /// The routes are the rows' routes by marginal score.
    pub open spec fn are_marginal_routes(
        &self,
        points: Seq<Vec<Vec<BasisTrial<S>>>>,
        falls: Seq<BasisTrial<S>>,
        codes: CodeLengths<S>,
        with_prior: bool,
        target: &Matrix<S>,
        support_k: usize,
        routes: Seq<RowRoute<S>>,
    ) -> bool {
        &&& routes.len() == target.nrows()
        &&& forall|r: int|
            0 <= r < routes.len() ==> self.is_marginal_route(
                points[r]@,
                falls,
                codes,
                with_prior,
                target.row(r),
                support_k,
                #[trigger] routes[r],
            )
    }

    fn route_marginally(
        &self,
        points: &Vec<Vec<Vec<BasisTrial<S>>>>,
        falls: &Vec<BasisTrial<S>>,
        codes: CodeLengths<S>,
        with_prior: bool,
        target: &Matrix<S>,
        support_k: usize,
    ) -> (routes: Vec<RowRoute<S>>)
        requires
            self.wf(),
            self.k() <= u32::MAX,
            target.wf(),
            target.ncols() == self.width(),
            self.trials_fit(points@, target.nrows()),
            self.fallbacks_fit(falls@),
            pairs_below(self.state().supports(), self.rows() as int) <= usize::MAX,
        ensures
            self.are_marginal_routes(
                points@,
                falls@,
                codes,
                with_prior,
                target,
                support_k,
                routes@,
            ),
            self.routes_fit(routes@, support_k),
    {
        let rows: usize = target.row_count();
        let mut routes: Vec<RowRoute<S>> = Vec::new();
        for r in 0..rows
            invariant
                self.wf(),
                self.k() <= u32::MAX,
                target.wf(),
                target.ncols() == self.width(),
                rows == target.nrows(),
                self.trials_fit(points@, target.nrows()),
                self.fallbacks_fit(falls@),
                pairs_below(self.state().supports(), self.rows() as int) <= usize::MAX,
                routes@.len() == r,
                forall|q: int|
                    0 <= q < r ==> self.is_marginal_route(
                        points@[q]@,
                        falls@,
                        codes,
                        with_prior,
                        target.row(q),
                        support_k,
                        #[trigger] routes@[q],
                    ),
                forall|q: int|
                    0 <= q < r ==> self.route_fits(#[trigger] routes@[q])
                        && routes@[q].indices@.len() <= support_k,
        {
            let line: Vec<S> = matrix_row(target, r);
            assert(self.row_trials_fit(points@[r as int]@));
            routes.push(
                self.route_row_marginally(
                    &points[r],
                    falls,
                    codes,
                    with_prior,
                    &line,
                    support_k,
                ),
            );
        }
        routes
    }
}

proof fn lemma_by_atom_len<S>(
    selected: Seq<Candidate<S>>,
    trials: Seq<Vec<Trial<S>>>,
    n: int,
)
    requires
        0 <= n <= usize::MAX,
        crate::selection::are_candidates(selected, trials, n),
    ensures
        by_atom(selected, n).len() <= selected.len(),
{
    lemma_by_atom(selected, trials, n, n);
    let ordered = by_atom(selected, n);
    let places = Seq::new(
        ordered.len(),
        |i: int|
            choose|p: int|
                0 <= p < selected.len() && (#[trigger] selected[p]).atom == ordered[i].atom,
    );
    assert forall|i: int| 0 <= i < places.len() implies 0 <= #[trigger] places[i] < selected.len()
        && selected[places[i]].atom == ordered[i].atom by {
        assert(crate::selection::has_atom(selected, ordered[i].atom as int));
    }
    assert forall|i: int, j: int| 0 <= i < j < places.len() implies places[i] != places[j] by {
        assert(ordered[i].atom < ordered[j].atom);
    }
    assert(places.no_duplicates());
    places.unique_seq_to_set();
    let all = vstd::set_lib::set_int_range(0, selected.len() as int);
    vstd::set_lib::lemma_int_range(0, selected.len() as int);
    assert(places.to_set().subset_of(all)) by {
        assert forall|x: int| places.to_set().contains(x) implies all.contains(x) by {
            let i = choose|i: int| 0 <= i < places.len() && places[i] == x;
            assert(0 <= places[i] < selected.len());
        }
    }
    vstd::set_lib::lemma_len_subset(places.to_set(), all);
}

/// What the atoms' evaluators sampled for a routing pass.
#[derive(Debug)]
pub struct RouteSamples<S> {
    /// The sampled charts, for atoms that all have one axis.
    pub charts: Vec<AtomChart<S>>,
    /// The trial points of every row and atom, for atoms that do not.
    pub trials: Vec<Vec<Vec<BasisTrial<S>>>>,
    /// The point an atom is scored at when no trial is better than nothing.
    pub fallbacks: Vec<BasisTrial<S>>,
    /// The atoms' coordinate blocks in the routed state.
    pub specs: Vec<SaeAssignmentAtomSpec<S>>,
    /// The logarithms that price a parameter, for the rows to be routed.
    pub codes: CodeLengths<S>,
}

impl<S: Scalar> SaeSupportSparseTerm<S> {
    /// The samples are those that the route of `rows` rows asks for.
    pub open spec fn samples_fit(&self, samples: &RouteSamples<S>, rows: nat) -> bool {
        &&& self.specs_fit(samples.specs@)
        &&& if self.all_one_axis() {
            self.charts_fit(samples.charts@)
        } else {
            self.trials_fit(samples.trials@, rows) && self.fallbacks_fit(samples.fallbacks@)
        }
    }

    /// The routes of a target's rows.
    pub open spec fn are_routes(
        &self,
        samples: &RouteSamples<S>,
        target: &Matrix<S>,
        support_k: usize,
        with_prior: bool,
        routes: Seq<RowRoute<S>>,
    ) -> bool {
        if self.all_one_axis() {
            exists|offers: Seq<AtomOffers<S>>|
                {
                    &&& #[trigger] self.are_offers(
                        samples.charts@,
                        samples.codes,
                        with_prior,
                        offers,
                    )
                    &&& self.are_greedy_routes(offers, target, support_k, routes)
                }
        } else {
            self.are_marginal_routes(
                samples.trials@,
                samples.fallbacks@,
                samples.codes,
                with_prior,
                target,
                support_k,
                routes,
            )
        }
    }

    /// The knobs of a routed term. A greedy route keeps them all; a marginal one
    /// ranks no atom exactly.
    pub open spec fn routed_knobs(&self) -> TermKnobs<S> {
        if self.all_one_axis() {
            self.knob_spec()
        } else {
            TermKnobs { exact_affine_ranking: false, ..self.knob_spec() }
        }
    }

    /// What a routing request gives.
    pub open spec fn is_reroute(
        &self,
        samples: &RouteSamples<S>,
        target: &Matrix<S>,
        support_k: usize,
        ard_len: nat,
        with_prior: bool,
        r: Result<SaeSupportSparseTerm<S>, RouteError>,
    ) -> bool {
        match self.route_fault(target, support_k, ard_len) {
            Some(fault) => r == Err::<SaeSupportSparseTerm<S>, RouteError>(fault),
            None => exists|routes: Seq<RowRoute<S>>|
                {
                    &&& #[trigger] self.are_routes(samples, target, support_k, with_prior, routes)
                    &&& match r {
                        Ok(term) => {
                            &&& Self::first_empty(routes, 0) is None
                            &&& self.is_routed_term(routes, samples.specs@, support_k, &term)
                            &&& term.knob_spec() == self.routed_knobs()
                        },
                        Err(e) => {
                            &&& Self::first_empty(routes, 0) matches Some(row)
                            &&& e == (RouteError::EmptyRow { row: row as usize })
                        },
                    }
                },
        }
    }

    fn reroute(
        &self,
        target: &Matrix<S>,
        support_k: usize,
        ard_len: usize,
        samples: &RouteSamples<S>,
        with_prior: bool,
    ) -> (r: Result<SaeSupportSparseTerm<S>, RouteError>)
        requires
            self.wf(),
            self.k() <= u32::MAX,
            target.wf(),
            self.samples_fit(samples, target.nrows()),
            pairs_below(self.state().supports(), self.rows() as int) <= usize::MAX,
        ensures
            self.is_reroute(samples, target, support_k, ard_len as nat, with_prior, r),
    {
        if let Err(e) = self.check_route(target, support_k, ard_len) {
            return Err(e);
        }
        let knobs: TermKnobs<S> = *self.knobs();
        if self.is_all_one_axis() {
            let offers: Vec<AtomOffers<S>> = self.all_offers(
                &samples.charts,
                samples.codes,
                with_prior,
            );
            proof {
                assert forall|a: int| 0 <= a < offers@.len() implies (#[trigger] offers@[a]).wf(
                    self.width(),
                ) by {
                    assert(self.are_offers_of(
                        samples.charts@[a],
                        samples.codes,
                        with_prior,
                        a,
                        offers@[a],
                    ));
                }
            }
            let routes: Vec<RowRoute<S>> = self.route_greedily(&offers, target, support_k);
            assert(self.are_routes(samples, target, support_k, with_prior, routes@));
            self.build_routed(routes, &samples.specs, support_k, knobs)
        } else {
            let routes: Vec<RowRoute<S>> = self.route_marginally(
                &samples.trials,
                &samples.fallbacks,
                samples.codes,
                with_prior,
                target,
                support_k,
            );
            assert(self.are_routes(samples, target, support_k, with_prior, routes@));
            let plain = TermKnobs { exact_affine_ranking: false, ..knobs };
            self.build_routed(routes, &samples.specs, support_k, plain)
        }
    }

    /// Routes rows against the fitted decoder, scoring the coordinate prior too.
    pub fn reroute_fixed_decoder_ard(
        &self,
        target: &Matrix<S>,
        support_k: usize,
        ard: &Vec<Vec<S>>,
        samples: &RouteSamples<S>,
    ) -> (r: Result<SaeSupportSparseTerm<S>, RouteError>)
        requires
            self.wf(),
            self.k() <= u32::MAX,
            target.wf(),
            self.samples_fit(samples, target.nrows()),
            pairs_below(self.state().supports(), self.rows() as int) <= usize::MAX,
        ensures
            self.is_reroute(samples, target, support_k, ard@.len(), true, r),
    {
        self.reroute(target, support_k, ard.len(), samples, true)
    }

    /// Routes rows against the fitted decoder by reconstruction alone.
    pub fn reroute_fixed_decoder(
        &self,
        target: &Matrix<S>,
        support_k: usize,
        samples: &RouteSamples<S>,
    ) -> (r: Result<SaeSupportSparseTerm<S>, RouteError>)
        requires
            self.wf(),
            self.k() <= u32::MAX,
            target.wf(),
            self.samples_fit(samples, target.nrows()),
            pairs_below(self.state().supports(), self.rows() as int) <= usize::MAX,
        ensures
            self.is_reroute(samples, target, support_k, self.k(), false, r),
    {
        self.reroute(target, support_k, self.k_atoms(), samples, false)
    }
}

/// Atoms of one basis size pay one admission charge, unless it is spread over each
/// atom's own rows: it prices parameters, not rarity.
pub proof fn law_one_basis_size_pays_one_charge<S: Scalar>(
    term: &SaeSupportSparseTerm<S>,
    codes: CodeLengths<S>,
    a: int,
    b: int,
)
    requires
        !term.knob_spec().admission_usage_amortized,
        term.atom_seq()[a].m() == term.atom_seq()[b].m(),
    ensures
        term.s_dof_charge(codes, a) == term.s_dof_charge(codes, b),
{
}

/// Two terms have the same atoms and rank the same ones exactly.
pub open spec fn rank_alike<S: Scalar>(
    left: &SaeSupportSparseTerm<S>,
    right: &SaeSupportSparseTerm<S>,
) -> bool {
    &&& left.width() == right.width()
    &&& left.atom_seq() == right.atom_seq()
    &&& left.knob_spec().exact_affine_ranking == right.knob_spec().exact_affine_ranking
}

/// Pricing admission does not reroute a portfolio of one basis size: a row gets
/// the same atoms at the same coordinates, priced or not. It holds as far as
/// subtracting the common charge, or none, rounds no two gains together.
pub proof fn law_pricing_keeps_the_routes_of_a_homogeneous_portfolio<S: Scalar>(
    priced: &SaeSupportSparseTerm<S>,
    plain: &SaeSupportSparseTerm<S>,
    charts: Seq<AtomChart<S>>,
    codes: CodeLengths<S>,
    with_prior: bool,
    left: Seq<AtomOffers<S>>,
    right: Seq<AtomOffers<S>>,
    row: Seq<S>,
    support_k: int,
)
    requires
        priced.wf(),
        rank_alike(priced, plain),
        !priced.knob_spec().admission_usage_amortized,
        plain.knob_spec().admission_dof_sigma2 is None,
        forall|a: int|
            0 <= a < priced.k() ==> (#[trigger] priced.atom_seq()[a]).m()
                == priced.atom_seq()[0].m(),
        priced.are_offers(charts, codes, with_prior, left),
        plain.are_offers(charts, codes, with_prior, right),
        0 <= support_k,
        priced.k() <= usize::MAX,
        forall|i: int|
            0 <= i < support_k ==> charge_keeps_order(
                left,
                priced.s_dof_charge(codes, 0),
                (#[trigger] greedy(left, row, false, i)).residual,
            ) && charge_keeps_order(right, S::s_zero(), greedy(left, row, false, i).residual),
    ensures
        same_picks(
            in_atom_order(greedy(left, row, false, support_k).picked, priced.k() as int),
            in_atom_order(greedy(right, row, false, support_k).picked, priced.k() as int),
        ),
{
    let charge = priced.s_dof_charge(codes, 0);
    assert forall|a: int| 0 <= a < left.len() implies {
        &&& (#[trigger] left[a]).same_but_charge(&right[a])
        &&& left[a].dof_charge == charge
        &&& right[a].dof_charge == S::s_zero()
    } by {
        let p = left[a];
        let q = right[a];
        assert(priced.are_offers_of(charts[a], codes, with_prior, a, p));
        assert(plain.are_offers_of(charts[a], codes, with_prior, a, q));
        assert(priced.atom_seq()[a].m() == priced.atom_seq()[0].m());
        law_one_basis_size_pays_one_charge(priced, codes, a, 0);
        assert forall|g: int| 0 <= g < p.images@.len() implies (#[trigger] p.images@[g])@
            == q.images@[g]@ && p.self_terms@[g] == q.self_terms@[g] && p.thetas@[g]
            == q.thetas@[g] && p.prior_terms@[g] == q.prior_terms@[g] by {
            assert(p.images@[g]@ == image_of(priced.atom_seq()[a], charts[a].grid@[g].phi@));
            assert(q.images@[g]@ == image_of(plain.atom_seq()[a], charts[a].grid@[g].phi@));
        }
        assert forall|g: int| 0 <= g < p.images@.len() implies p.self_terms@[g] == q.self_terms@[g]
            && p.thetas@[g] == q.thetas@[g] && p.prior_terms@[g] == q.prior_terms@[g] by {
            assert(p.images@[g]@ == q.images@[g]@);
        }
        assert(p.self_terms@ =~= q.self_terms@);
        assert(p.thetas@ =~= q.thetas@);
        assert(p.prior_terms@ =~= q.prior_terms@);
    }
    assert forall|a: int| 0 <= a < left.len() implies 0 <= (#[trigger] left[a]).count()
        <= usize::MAX by {
        assert(left[a].images@.len() == left[a].images.len());
    }
    law_a_common_charge_reorders_nothing(left, right, charge, S::s_zero(), row, support_k);
    law_greedy_picks_are_distinct(left, row, false, support_k);
    lemma_same_in_atom_order(
        greedy(left, row, false, support_k).picked,
        greedy(right, row, false, support_k).picked,
        priced.k() as int,
    );
}

} // verus!
