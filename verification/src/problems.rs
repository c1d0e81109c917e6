//! A row's subproblem, in exact arithmetic.
use crate::active::BasisEval;
use crate::assignment::block_start;
use crate::exact::{is_exact, lemma_exact_sum_of, lemma_total_ext, magnitude, total};
use crate::objective::PriorTerm;
use crate::peaks::{lemma_exact_max_of, lemma_slots, peak, ragged_total};
use crate::routing::lemma_exact_dot;
use crate::row_solve::{is_settled, Direction, RowProblem};
use crate::scalar::{s_dot, s_energy, s_half, Scalar};
use crate::term::SaeSupportSparseTerm;
use crate::trials::{fit_value, law_a_residual_is_what_the_fit_leaves};
use crate::updates::tangent_value;
use vstd::prelude::*;

verus! {

/// Entry `c` of the line of a row's Jacobian that belongs to a slot's axis.
pub open spec fn jacobian_value<S: Scalar>(
    v: spec_fn(S) -> real,
    term: &SaeSupportSparseTerm<S>,
    evals: Seq<BasisEval<S>>,
    row: int,
    slot: int,
    axis: int,
    c: int,
) -> real {
    tangent_value(v, term.active(row, slot), evals[slot].jet@, axis, c)
}

/// Where a slot's axis stands in a row's subproblem.
pub open spec fn place_of<S: Scalar>(
    term: &SaeSupportSparseTerm<S>,
    row: int,
    slot: int,
    axis: int,
) -> int {
    block_start(term.state().dims(), term.support(row), slot) + axis
}

/// The slot and the axis exist.
pub open spec fn is_axis<S: Scalar>(
    term: &SaeSupportSparseTerm<S>,
    row: int,
    slot: int,
    axis: int,
) -> bool {
    0 <= slot < term.support(row).len() && 0 <= axis < term.state().dims()[term.support(
        row,
    )[slot] as int]
}

proof fn lemma_line_value<S: Scalar>(
    v: spec_fn(S) -> real,
    term: &SaeSupportSparseTerm<S>,
    evals: Seq<BasisEval<S>>,
    row: int,
    lines: Seq<Vec<S>>,
    slot: int,
    axis: int,
    c: int,
)
    requires
        is_exact(v),
        term.is_row_jacobian(evals, row, lines),
        is_axis(term, row, slot, axis),
        0 <= c < term.width(),
    ensures
        v(lines[place_of(term, row, slot, axis)]@[c]) == jacobian_value(
            v,
            term,
            evals,
            row,
            slot,
            axis,
            c,
        ),
{
    let atom = term.active(row, slot);
    let jet = evals[slot].jet@;
    assert(lines[term.state().slot_start(row, slot) + axis]@[c] == crate::active::s_tangent(
        atom,
        jet,
        axis,
        c,
        atom.m() as int,
    ));
    let p = |b: int| jet[b]@[axis].s_times(atom.coefficient(b, c));
    let q = |b: int| v(jet[b]@[axis]) * v(atom.decoder().at(b, c));
    lemma_exact_sum_of(v, S::s_zero(), atom.m() as int, p, q);
}

proof fn lemma_place_in_row<S: Scalar>(
    term: &SaeSupportSparseTerm<S>,
    row: int,
    slot: int,
    axis: int,
)
    requires
        is_axis(term, row, slot, axis),
    ensures
        0 <= place_of(term, row, slot, axis) < block_start(
            term.state().dims(),
            term.support(row),
            term.support(row).len() as int,
        ),
{
    crate::assignment::lemma_block_start_monotone(
        term.state().dims(),
        term.support(row),
        slot + 1,
        term.support(row).len() as int,
    );
}

/// A row's subproblem holds, for every slot and axis: the tangent against the residual
/// less the prior's slope, which is the negative slope of the row's objective; for every
/// two of them the product of the tangents, with the prior's curvature on the diagonal;
/// and the scale of the objective and the largest slope. The residual is the target less
/// the fit.
pub proof fn law_a_row_problem_holds_the_slopes<S: Scalar>(
    v: spec_fn(S) -> real,
    term: &SaeSupportSparseTerm<S>,
    target: Seq<S>,
    evals: Seq<BasisEval<S>>,
    priors: Seq<Vec<PriorTerm<S>>>,
    row: int,
    problem: &RowProblem<S>,
)
    requires
        is_exact(v),
        term.wf(),
        0 <= row < term.rows(),
        term.row_fits(evals, row),
        term.row_priors_fit(priors, row),
        term.is_row_problem(target, evals, priors, row, problem),
    ensures
        problem.residual@.len() == term.width(),
        forall|c: int|
            0 <= c < term.width() ==> v(#[trigger] problem.residual@[c]) == v(target[c])
                - fit_value(v, term, evals, row, c),
        forall|s: int, x: int|
            #![trigger is_axis(term, row, s, x)]
            is_axis(term, row, s, x) ==> v(problem.rhs@[place_of(term, row, s, x)]) == total(
                term.width() as int,
                |c: int|
                    jacobian_value(v, term, evals, row, s, x, c) * v(problem.residual@[c]),
            ) - v(priors[s]@[x].grad),
        forall|s: int, x: int, t: int, y: int|
            #![trigger is_axis(term, row, s, x), is_axis(term, row, t, y)]
            is_axis(term, row, s, x) && is_axis(term, row, t, y) ==> v(
                problem.gram@[place_of(term, row, s, x)]@[place_of(term, row, t, y)],
            ) == total(
                term.width() as int,
                |c: int|
                    jacobian_value(v, term, evals, row, s, x, c) * jacobian_value(
                        v,
                        term,
                        evals,
                        row,
                        t,
                        y,
                        c,
                    ),
            ) + (if s == t && x == y {
                v(priors[s]@[x].curvature)
            } else {
                0 as real
            }),
        v(problem.objective_scale) == 1 as real + total(
            term.width() as int,
            |c: int| v(problem.residual@[c]) * v(problem.residual@[c]),
        ) / 2 as real + ragged_total(
            term.support(row).len() as int,
            |s: int| term.state().dims()[term.support(row)[s] as int] as int,
            |s: int, x: int| magnitude(v(priors[s]@[x].value)),
        ),
        v(problem.gradient_max) == peak(
            problem.rhs@.len() as int,
            |i: int| magnitude(v(problem.rhs@[i])),
        ),
{
    let w = term.width() as int;
    let residual = problem.residual@;
    let list = term.prior_list(priors, row);
    let lines = choose|lines: Seq<Vec<S>>|
        {
            &&& #[trigger] term.is_row_jacobian(evals, row, lines)
            &&& problem.residual@ == term.row_residual(target, evals, row)
            &&& problem.rhs@.len() == term.coords()[row].len()
            &&& forall|i: int|
                0 <= i < term.coords()[row].len() ==> #[trigger] problem.rhs@[i] == s_dot(
                    lines[i]@,
                    problem.residual@,
                ).s_minus(list[i].grad)
            &&& problem.gram@.len() == term.coords()[row].len()
            &&& forall|i: int|
                0 <= i < term.coords()[row].len() ==> (#[trigger] problem.gram@[i])@.len()
                    == term.coords()[row].len()
            &&& forall|i: int, j: int|
                0 <= i < term.coords()[row].len() && 0 <= j < term.coords()[row].len()
                    ==> #[trigger] problem.gram@[i]@[j] == (if i == j {
                    s_dot(lines[i]@, lines[j]@).s_plus(list[i].curvature)
                } else {
                    s_dot(lines[i]@, lines[j]@)
                })
            &&& problem.objective_scale == crate::row_solve::s_objective_scale(
                problem.residual@,
                list,
            )
            &&& problem.gradient_max == crate::scalar::s_max_abs(problem.rhs@)
        };
    assert(term.state().row_wf(row));
    let slots = term.support(row).len() as int;
    let q = block_start(term.state().dims(), term.support(row), slots) as int;
    term.lemma_prior_list(priors, row);
    assert(q == list.len());
    law_a_residual_is_what_the_fit_leaves(v, term, target, evals, row);
    assert forall|s: int, x: int|
        #![trigger is_axis(term, row, s, x)]
        is_axis(term, row, s, x) implies v(problem.rhs@[place_of(term, row, s, x)]) == total(
        term.width() as int,
        |c: int| jacobian_value(v, term, evals, row, s, x, c) * v(problem.residual@[c]),
    ) - v(priors[s]@[x].grad) by {
        lemma_place_in_row(term, row, s, x);
        let i = place_of(term, row, s, x);
        let g = |c: int|
            jacobian_value(v, term, evals, row, s, x, c) * v(problem.residual@[c]);
        assert(lines[i]@.len() == w);
        assert forall|c: int| 0 <= c < w implies #[trigger] g(c) == v(lines[i]@[c]) * v(
            residual[c],
        ) by {
            lemma_line_value(v, term, evals, row, lines, s, x, c);
        }
        lemma_exact_dot(v, lines[i]@, residual, g);
        assert(priors[s]@.len() == term.state().slot_dim(row, s));
        assert(list[term.state().slot_start(row, s) + x] == priors[s]@[x]);
        assert(problem.rhs@[i] == s_dot(lines[i]@, residual).s_minus(list[i].grad));
    }
    assert forall|s: int, x: int, t: int, y: int|
        #![trigger is_axis(term, row, s, x), is_axis(term, row, t, y)]
        is_axis(term, row, s, x) && is_axis(term, row, t, y) implies v(
        problem.gram@[place_of(term, row, s, x)]@[place_of(term, row, t, y)],
    ) == total(
        term.width() as int,
        |c: int|
            jacobian_value(v, term, evals, row, s, x, c) * jacobian_value(
                v,
                term,
                evals,
                row,
                t,
                y,
                c,
            ),
    ) + (if s == t && x == y {
        v(priors[s]@[x].curvature)
    } else {
        0 as real
    }) by {
        lemma_place_in_row(term, row, s, x);
        lemma_place_in_row(term, row, t, y);
        lemma_places_are_distinct(term, row, s, x, t, y);
        let i = place_of(term, row, s, x);
        let j = place_of(term, row, t, y);
        let g = |c: int|
            jacobian_value(v, term, evals, row, s, x, c) * jacobian_value(
                v,
                term,
                evals,
                row,
                t,
                y,
                c,
            );
        assert(lines[i]@.len() == w);
        assert(lines[j]@.len() == w);
        assert forall|c: int| 0 <= c < w implies #[trigger] g(c) == v(lines[i]@[c]) * v(
            lines[j]@[c],
        ) by {
            lemma_line_value(v, term, evals, row, lines, s, x, c);
            lemma_line_value(v, term, evals, row, lines, t, y, c);
        }
        lemma_exact_dot(v, lines[i]@, lines[j]@, g);
        assert(priors[s]@.len() == term.state().slot_dim(row, s));
        assert(list[term.state().slot_start(row, s) + x] == priors[s]@[x]);
        assert(problem.gram@[i]@[j] == (if i == j {
            s_dot(lines[i]@, lines[j]@).s_plus(list[i].curvature)
        } else {
            s_dot(lines[i]@, lines[j]@)
        }));
    }
    let rr = |c: int| v(problem.residual@[c]) * v(problem.residual@[c]);
    lemma_exact_dot(v, residual, residual, rr);
    let half = v(s_half::<S>());
    assert(half == 1 as real / 2 as real);
    assert(residual.len() == w);
    let energy = total(w, rr);
    assert(v(s_energy(residual)) == energy);
    lemma_half(half, energy);
    let f = |i: int| list[i].value.s_magnitude();
    let g = |i: int| magnitude(v(list[i].value));
    lemma_exact_sum_of(
        v,
        S::s_one().s_plus(s_half::<S>().s_times(s_energy(residual))),
        q,
        f,
        g,
    );
    let cells = |s: int, x: int| magnitude(v(priors[s]@[x].value));
    assert forall|s: int, x: int|
        0 <= s < slots && 0 <= x < term.state().dims()[term.support(row)[s] as int] implies
        #[trigger] cells(s, x) == g(
        block_start(term.state().dims(), term.support(row), s) + x,
    ) by {
        assert(priors[s]@.len() == term.state().slot_dim(row, s));
        assert(list[term.state().slot_start(row, s) + x] == priors[s]@[x]);
    }
    lemma_slots(term.state().dims(), term.support(row), slots, g, cells);
    let width = |s: int| term.state().dims()[term.support(row)[s] as int] as int;
    let p = |s: int| total(width(s), |x: int| cells(s, x));
    let r = |s: int| total(width(s), |x: int| magnitude(v(priors[s]@[x].value)));
    assert forall|s: int| 0 <= s < slots implies #[trigger] p(s) == r(s) by {
        lemma_total_ext(
            width(s),
            |x: int| cells(s, x),
            |x: int| magnitude(v(priors[s]@[x].value)),
        );
    }
    lemma_total_ext(slots, p, r);
    let fm = |i: int| problem.rhs@[i].s_magnitude();
    let gm = |i: int| magnitude(v(problem.rhs@[i]));
    lemma_exact_max_of(v, problem.rhs@.len() as int, fm, gm);
}

proof fn lemma_places_are_distinct<S: Scalar>(
    term: &SaeSupportSparseTerm<S>,
    row: int,
    s: int,
    x: int,
    t: int,
    y: int,
)
    requires
        is_axis(term, row, s, x),
        is_axis(term, row, t, y),
    ensures
        place_of(term, row, s, x) == place_of(term, row, t, y) <==> s == t && x == y,
{
    let dims = term.state().dims();
    let support = term.support(row);
    if s < t {
        crate::assignment::lemma_block_start_monotone(dims, support, s + 1, t);
    }
    if t < s {
        crate::assignment::lemma_block_start_monotone(dims, support, t + 1, s);
    }
}

proof fn lemma_half(half: real, x: real)
    requires
        half == 1 as real / 2 as real,
    ensures
        half * x == x / 2 as real,
{
}

/// A search is made along a direction exactly where its slope is positive.
pub proof fn law_a_search_needs_a_positive_slope<S: Scalar>(
    v: spec_fn(S) -> real,
    rhs: Seq<S>,
    delta: Seq<S>,
    chosen: Direction<S>,
)
    requires
        is_exact(v),
        is_settled(delta, s_dot(rhs, delta), chosen),
    ensures
        ({
            let slope = total(rhs.len() as int, |i: int| v(rhs[i]) * v(delta[i]));
            match chosen {
                Direction::Search { delta: along, directional } => {
                    &&& along@ == delta
                    &&& v(directional) == slope
                    &&& slope > 0 as real
                },
                Direction::AtRest => slope == 0 as real,
                Direction::NotDescent(directional) => v(directional) == slope && slope < 0 as real,
                Direction::NeedsFallback => false,
            }
        }),
{
    let g = |i: int| v(rhs[i]) * v(delta[i]);
    lemma_exact_dot(v, rhs, delta, g);
}

} // verus!
