//! What an update of the hyperparameters sets, in exact arithmetic.
use crate::active::{s_tangent, BasisEval};
use crate::atom::SaeManifoldAtom;
use crate::descent::{coefficients, lemma_exact_roughness, penalty_of};
use crate::exact::{
    is_exact, lemma_exact_sum_of, lemma_over, lemma_product_not_negative, lemma_product_positive,
    lemma_total_exchange, lemma_total_ext,
    lemma_total_not_negative, lemma_total_zero, magnitude, total, total2,
};
use crate::forms::bilinear;
use crate::hyper::{s_determined, AtomCensus, GroupSums};
use crate::matrix::{s_matrix_energy, s_matrix_max_abs, Matrix};
use crate::objective::PriorTerm;
use crate::peaks::{lemma_exact_grid_max_of, lemma_peak_not_negative, peak, ragged_total};
use crate::quadratic::lemma_single_term;
use crate::scalar::{at_least_one, Scalar};
use crate::scaling::{lemma_exact_energy, squares};
use crate::term::SaeSupportSparseTerm;
use vstd::prelude::*;

verus! {

/// The trace of an atom's penalty form on its decoder.
pub open spec fn roughness_value<S: Scalar>(
    v: spec_fn(S) -> real,
    term: &SaeSupportSparseTerm<S>,
    a: int,
) -> real {
    total(
        term.width() as int,
        |c: int|
            bilinear(
                term.atom_seq()[a].m() as int,
                penalty_of(v, term, a),
                coefficients(v, term, a, c),
                coefficients(v, term, a, c),
            ),
    )
}

/// A roughness at or below this one is rounding: the number type's own, times the
/// penalty's largest entry, the decoder's squared length and the basis size.
pub open spec fn rounding_value<S: Scalar>(
    v: spec_fn(S) -> real,
    term: &SaeSupportSparseTerm<S>,
    a: int,
) -> real {
    let penalty = term.atom_seq()[a].penalty();
    let decoder = term.atom_seq()[a].decoder();
    let m = term.atom_seq()[a].m();
    v(S::s_epsilon()) * peak(
        penalty.nrows() as int,
        |i: int| peak(penalty.ncols() as int, |j: int| magnitude(v(penalty.at(i, j)))),
    ) * total2(decoder.nrows() as int, decoder.ncols() as int, squares(v, &decoder)) * (if m == 0 {
        1 as real
    } else {
        m as real
    })
}

/// The degrees of freedom that the decoders leave: one per entry of the target, less
/// every used atom's trace in every channel.
pub open spec fn degrees_left<S: Scalar>(
    v: spec_fn(S) -> real,
    term: &SaeSupportSparseTerm<S>,
    census: Seq<AtomCensus<S>>,
) -> real {
    (term.rows() * term.width()) as real - total(
        term.k() as int,
        |a: int|
            if term.uses()[a].len() > 0 {
                v(census[a].trace)
            } else {
                0 as real
            },
    ) * term.width() as real
}

proof fn lemma_degrees_left<S: Scalar>(
    v: spec_fn(S) -> real,
    term: &SaeSupportSparseTerm<S>,
    census: Seq<AtomCensus<S>>,
)
    requires
        is_exact(v),
        census.len() == term.k(),
    ensures
        v(term.total_df().s_minus(term.spent_df(census))) == degrees_left(v, term, census),
{
    let f = term.spent_by(census);
    let g = |a: int|
        if term.uses()[a].len() > 0 {
            v(census[a].trace)
        } else {
            0 as real
        };
    lemma_exact_sum_of(v, S::s_zero(), census.len() as int, f, g);
}

proof fn lemma_rounding_value<S: Scalar>(
    v: spec_fn(S) -> real,
    term: &SaeSupportSparseTerm<S>,
    a: int,
)
    requires
        is_exact(v),
    ensures
        v(term.roughness_floor(a)) == rounding_value(v, term, a),
        rounding_value(v, term, a) >= 0 as real,
{
    let penalty = term.atom_seq()[a].penalty();
    let decoder = term.atom_seq()[a].decoder();
    let f = |i: int, j: int| penalty.at(i, j).s_magnitude();
    let g = |i: int, j: int| magnitude(v(penalty.at(i, j)));
    let rows = penalty.nrows() as int;
    let cols = penalty.ncols() as int;
    lemma_exact_grid_max_of(v, rows, cols, f, g);
    let p1 = |i: int| peak(cols, |j: int| g(i, j));
    let p2 = |i: int| peak(cols, |j: int| magnitude(v(penalty.at(i, j))));
    assert forall|i: int| 0 <= i < rows implies #[trigger] p1(i) == p2(i) by {
        crate::peaks::lemma_peak_ext(
            cols,
            |j: int| g(i, j),
            |j: int| magnitude(v(penalty.at(i, j))),
        );
    }
    crate::peaks::lemma_peak_ext(rows, p1, p2);
    lemma_peak_not_negative(rows, p2);
    lemma_exact_energy(v, &decoder);
    let x = v(S::s_epsilon());
    let y = v(s_matrix_max_abs(&penalty));
    let z = v(s_matrix_energy(&decoder));
    let w = v(S::s_count(at_least_one(term.atom_seq()[a].m() as nat)));
    lemma_product_not_negative(x, y);
    lemma_product_not_negative(x * y, z);
    lemma_product_not_negative(x * y * z, w);
}

/// A smoothing update is refused for want of degrees of freedom exactly where the
/// decoders leave none.
pub proof fn law_a_smoothing_update_needs_degrees_of_freedom<S: Scalar>(
    v: spec_fn(S) -> real,
    term: &SaeSupportSparseTerm<S>,
    lambda: Seq<S>,
    census: Seq<AtomCensus<S>>,
)
    requires
        is_exact(v),
        census.len() == term.k(),
        term.smoothing_fault(lambda) is None,
    ensures
        term.fellner_schall_fault(lambda, census) is None <==> degrees_left(v, term, census)
            > 0 as real,
{
    lemma_degrees_left(v, term, census);
}

/// A strength that the evidence sets balances the roughness: times the atom's roughness
/// it is the noise's variance times the atom's degrees of freedom beyond its penalty's
/// null space, in all channels; the variance is the squared residual over the degrees of
/// freedom left. The evidence sets a strength where rows use the atom, its roughness is
/// more than rounding, it has degrees of freedom beyond the null space, and the residual
/// does not vanish. Every other strength is kept.
pub proof fn law_an_updated_strength_balances_the_roughness<S: Scalar>(
    v: spec_fn(S) -> real,
    term: &SaeSupportSparseTerm<S>,
    lambda: Seq<S>,
    residual: &Matrix<S>,
    census: Seq<AtomCensus<S>>,
    a: int,
)
    requires
        is_exact(v),
        residual.has_shape(term.rows(), term.width()),
        census.len() == term.k(),
        0 <= a < term.k(),
        term.fellner_schall_fault(lambda, census) is None,
    ensures
        ({
            let energy = total2(
                term.rows() as int,
                term.width() as int,
                |i: int, j: int| v(residual.at(i, j)) * v(residual.at(i, j)),
            );
            let scale = energy / degrees_left(v, term, census);
            let new = term.smoothing_update(lambda, residual, census, a);
            &&& degrees_left(v, term, census) > 0 as real
            &&& scale * degrees_left(v, term, census) == energy
            &&& if term.uses()[a].len() > 0 && roughness_value(v, term, a) > rounding_value(
                v,
                term,
                a,
            ) && v(census[a].trace) > v(census[a].null_dim) && energy > 0 as real {
                v(new) * roughness_value(v, term, a) == scale * term.width() as real * (v(
                    census[a].trace,
                ) - v(census[a].null_dim))
            } else {
                new == lambda[a]
            }
        }),
{
    let rows = term.rows() as int;
    let cols = term.width() as int;
    lemma_degrees_left(v, term, census);
    lemma_exact_roughness(v, term, a);
    lemma_rounding_value(v, term, a);
    lemma_exact_energy(v, residual);
    let square = squares(v, residual);
    let raw = |i: int, j: int| v(residual.at(i, j)) * v(residual.at(i, j));
    crate::exact::lemma_total2_ext(rows, cols, square, raw);
    let energy = total2(rows, cols, raw);
    let left = degrees_left(v, term, census);
    lemma_over(energy, left);
    let scale = energy / left;
    let width = term.width() as real;
    let signal = v(census[a].trace) - v(census[a].null_dim);
    let rough = roughness_value(v, term, a);
    if rough > rounding_value(v, term, a) && signal > 0 as real {
        let top = scale * width * signal;
        lemma_over(top, rough);
        let new = top / rough;
        if energy > 0 as real {
            if cols == 0 {
                let lines = |i: int| total(cols, |j: int| raw(i, j));
                lemma_total_zero(rows, lines);
                assert(false);
            }
            lemma_over_positive(energy, left);
            lemma_product_positive(scale, width);
            lemma_product_positive(scale * width, signal);
            lemma_over_positive(top, rough);
        } else {
            assert(energy == 0 as real);
            crate::exact::lemma_zero_product(scale, left);
            assert((0 as real) * width == 0 as real) by (nonlinear_arith);
            assert((0 as real) * signal == 0 as real) by (nonlinear_arith);
            assert(top == 0 as real);
            assert(new * rough == 0 as real);
            crate::exact::lemma_zero_product(new, rough);
        }
    }
}

/// A quotient of positive numbers is positive.
pub proof fn lemma_over_positive(x: real, d: real)
    requires
        x > 0 as real,
        d > 0 as real,
    ensures
        x / d > 0 as real,
{
    lemma_over(x, d);
    let q = x / d;
    if q <= 0 as real {
        lemma_product_not_negative(-q, d);
        assert((-q) * d == -(q * d)) by (nonlinear_arith);
    }
}

/// Channel `c` of an atom's tangent along an axis.
pub open spec fn tangent_value<S: Scalar>(
    v: spec_fn(S) -> real,
    atom: SaeManifoldAtom<S>,
    jet: Seq<Vec<S>>,
    axis: int,
    c: int,
) -> real {
    total(atom.m() as int, |b: int| v(jet[b]@[axis]) * v(atom.decoder().at(b, c)))
}

/// The curvature of the coordinate on an axis in one use of an atom: the tangent's
/// squared length, and the prior's curvature.
pub open spec fn curvature_value<S: Scalar>(
    v: spec_fn(S) -> real,
    term: &SaeSupportSparseTerm<S>,
    table: Seq<Vec<BasisEval<S>>>,
    priors: Seq<Vec<Vec<PriorTerm<S>>>>,
    a: int,
    axis: int,
    e: int,
) -> real {
    let (row, slot) = term.uses()[a][e];
    let atom = term.atom_seq()[a];
    let jet = table[row as int]@[slot as int].jet@;
    total(
        term.width() as int,
        |c: int| tangent_value(v, atom, jet, axis, c) * tangent_value(v, atom, jet, axis, c),
    ) + v(priors[row as int]@[slot as int]@[axis].curvature)
}

/// A use is evidence of an axis: the axis has a precision, and the use a curvature.
pub open spec fn is_evidence<S: Scalar>(
    v: spec_fn(S) -> real,
    term: &SaeSupportSparseTerm<S>,
    ard: Seq<Vec<S>>,
    table: Seq<Vec<BasisEval<S>>>,
    priors: Seq<Vec<Vec<PriorTerm<S>>>>,
    a: int,
    axis: int,
    e: int,
) -> bool {
    v(ard[a]@[axis]) != 0 as real && curvature_value(v, term, table, priors, a, axis, e)
        > 0 as real
}

/// Some use is evidence of the axis.
pub open spec fn has_evidence<S: Scalar>(
    v: spec_fn(S) -> real,
    term: &SaeSupportSparseTerm<S>,
    ard: Seq<Vec<S>>,
    table: Seq<Vec<BasisEval<S>>>,
    priors: Seq<Vec<Vec<PriorTerm<S>>>>,
    a: int,
    axis: int,
) -> bool {
    exists|e: int|
        0 <= e < term.uses()[a].len() && #[trigger] is_evidence(
            v,
            term,
            ard,
            table,
            priors,
            a,
            axis,
            e,
        )
}

/// How far the likelihood, and not the prior, determines a coordinate: nothing where
/// the precision is all of the curvature.
pub open spec fn determined_value(alpha: real, curvature: real) -> real {
    if alpha < curvature {
        1 as real - alpha / curvature
    } else {
        0 as real
    }
}

/// The determined coordinates in the first `n` uses of an axis.
pub open spec fn determined_in<S: Scalar>(
    v: spec_fn(S) -> real,
    term: &SaeSupportSparseTerm<S>,
    ard: Seq<Vec<S>>,
    table: Seq<Vec<BasisEval<S>>>,
    priors: Seq<Vec<Vec<PriorTerm<S>>>>,
    a: int,
    axis: int,
    n: int,
) -> real {
    total(
        n,
        |e: int|
            if is_evidence(v, term, ard, table, priors, a, axis, e) {
                determined_value(
                    v(ard[a]@[axis]),
                    curvature_value(v, term, table, priors, a, axis, e),
                )
            } else {
                0 as real
            },
    )
}

/// The second moment of the coordinate in the first `n` uses of an axis: its square and
/// its posterior variance.
pub open spec fn moment_in<S: Scalar>(
    v: spec_fn(S) -> real,
    term: &SaeSupportSparseTerm<S>,
    ard: Seq<Vec<S>>,
    table: Seq<Vec<BasisEval<S>>>,
    priors: Seq<Vec<Vec<PriorTerm<S>>>>,
    a: int,
    axis: int,
    n: int,
) -> real {
    total(
        n,
        |e: int|
            if is_evidence(v, term, ard, table, priors, a, axis, e) {
                v(
                    priors[term.uses()[a][e].0 as int]@[term.uses()[a][e].1 as int]@[axis].square,
                ) + 1 as real / curvature_value(v, term, table, priors, a, axis, e)
            } else {
                0 as real
            },
    )
}

/// The determined coordinates of an axis.
pub open spec fn determined_of<S: Scalar>(
    v: spec_fn(S) -> real,
    term: &SaeSupportSparseTerm<S>,
    ard: Seq<Vec<S>>,
    table: Seq<Vec<BasisEval<S>>>,
    priors: Seq<Vec<Vec<PriorTerm<S>>>>,
    a: int,
    axis: int,
) -> real {
    determined_in(v, term, ard, table, priors, a, axis, term.uses()[a].len() as int)
}

/// The second moment of an axis.
pub open spec fn moment_of<S: Scalar>(
    v: spec_fn(S) -> real,
    term: &SaeSupportSparseTerm<S>,
    ard: Seq<Vec<S>>,
    table: Seq<Vec<BasisEval<S>>>,
    priors: Seq<Vec<Vec<PriorTerm<S>>>>,
    a: int,
    axis: int,
) -> real {
    moment_in(v, term, ard, table, priors, a, axis, term.uses()[a].len() as int)
}

/// An axis belongs to the family, and there is evidence of it.
pub open spec fn counts_in_family<S: Scalar>(
    v: spec_fn(S) -> real,
    term: &SaeSupportSparseTerm<S>,
    ard: Seq<Vec<S>>,
    table: Seq<Vec<BasisEval<S>>>,
    priors: Seq<Vec<Vec<PriorTerm<S>>>>,
    periodic: bool,
    a: int,
    axis: int,
) -> bool {
    (term.state().periods(a)[axis] is Some) == periodic && has_evidence(
        v,
        term,
        ard,
        table,
        priors,
        a,
        axis,
    )
}

/// `value` summed over the axes of a family that there is evidence of, each once.
pub open spec fn over_family<S: Scalar>(
    v: spec_fn(S) -> real,
    term: &SaeSupportSparseTerm<S>,
    ard: Seq<Vec<S>>,
    table: Seq<Vec<BasisEval<S>>>,
    priors: Seq<Vec<Vec<PriorTerm<S>>>>,
    periodic: bool,
    n: int,
    value: spec_fn(int, int) -> real,
) -> real {
    ragged_total(
        n,
        |a: int| term.state().dims()[a] as int,
        |a: int, axis: int|
            if counts_in_family(v, term, ard, table, priors, periodic, a, axis) {
                value(a, axis)
            } else {
                0 as real
            },
    )
}

proof fn lemma_curvature_value<S: Scalar>(
    v: spec_fn(S) -> real,
    term: &SaeSupportSparseTerm<S>,
    table: Seq<Vec<BasisEval<S>>>,
    priors: Seq<Vec<Vec<PriorTerm<S>>>>,
    a: int,
    axis: int,
    e: int,
)
    requires
        is_exact(v),
    ensures
        v(term.axis_curvature(table, priors, a, axis, e)) == curvature_value(
            v,
            term,
            table,
            priors,
            a,
            axis,
            e,
        ),
{
    let (row, slot) = term.uses()[a][e];
    let atom = term.atom_seq()[a];
    let jet = table[row as int]@[slot as int].jet@;
    let f = |c: int|
        s_tangent(atom, table[row as int]@[slot as int].jet@, axis, c, atom.m() as int).s_times(
            s_tangent(atom, table[row as int]@[slot as int].jet@, axis, c, atom.m() as int),
        );
    let g = |c: int| tangent_value(v, atom, jet, axis, c) * tangent_value(v, atom, jet, axis, c);
    assert forall|c: int| 0 <= c < term.width() implies v(f(c)) == #[trigger] g(c) by {
        let p = |b: int| jet[b]@[axis].s_times(atom.coefficient(b, c));
        let q = |b: int| v(jet[b]@[axis]) * v(atom.decoder().at(b, c));
        lemma_exact_sum_of(v, S::s_zero(), atom.m() as int, p, q);
    }
    lemma_exact_sum_of(v, S::s_zero(), term.width() as int, f, g);
}

/// The evidence of an axis is the sum over its uses.
proof fn lemma_axis_evidence<S: Scalar>(
    v: spec_fn(S) -> real,
    term: &SaeSupportSparseTerm<S>,
    ard: Seq<Vec<S>>,
    table: Seq<Vec<BasisEval<S>>>,
    priors: Seq<Vec<Vec<PriorTerm<S>>>>,
    a: int,
    axis: int,
    n: int,
)
    requires
        is_exact(v),
        0 <= n <= usize::MAX,
    ensures
        ({
            let found = term.axis_evidence(ard, table, priors, a, axis, n);
            &&& found.uses <= n
            &&& found.uses > 0 <==> exists|e: int|
                0 <= e < n && #[trigger] is_evidence(v, term, ard, table, priors, a, axis, e)
            &&& v(found.gamma) == determined_in(v, term, ard, table, priors, a, axis, n)
            &&& v(found.energy) == moment_in(v, term, ard, table, priors, a, axis, n)
        }),
    decreases n,
{
    if n > 0 {
        lemma_axis_evidence(v, term, ard, table, priors, a, axis, n - 1);
        lemma_curvature_value(v, term, table, priors, a, axis, n - 1);
        let alpha = ard[a]@[axis];
        let curvature = term.axis_curvature(table, priors, a, axis, n - 1);
        let x = v(alpha);
        let h = v(curvature);
        let last = is_evidence(v, term, ard, table, priors, a, axis, n - 1);
        assert(last == !(alpha.s_same(S::s_zero()) || !S::s_zero().s_below(curvature)));
        if last {
            lemma_determined_value(v, alpha, curvature);
        }
        let found = term.axis_evidence(ard, table, priors, a, axis, n);
        let before = term.axis_evidence(ard, table, priors, a, axis, n - 1);
        if exists|e: int|
            0 <= e < n && #[trigger] is_evidence(v, term, ard, table, priors, a, axis, e) {
            let e = choose|e: int|
                0 <= e < n && #[trigger] is_evidence(v, term, ard, table, priors, a, axis, e);
            if e < n - 1 {
                assert(before.uses > 0);
            }
            assert(found.uses > 0);
        }
        if found.uses > 0 && !last {
            let e = choose|e: int|
                0 <= e < n - 1 && #[trigger] is_evidence(v, term, ard, table, priors, a, axis, e);
            assert(0 <= e < n);
        }
    }
}

proof fn lemma_determined_value<S: Scalar>(v: spec_fn(S) -> real, alpha: S, curvature: S)
    requires
        is_exact(v),
        v(curvature) > 0 as real,
    ensures
        v(s_determined(alpha, curvature)) == determined_value(v(alpha), v(curvature)),
{
    let x = v(alpha);
    let h = v(curvature);
    lemma_over(x, h);
    let q = x / h;
    if x < h {
        if q >= 1 as real {
            lemma_product_not_negative(q - 1 as real, h);
            assert((q - 1 as real) * h == q * h - h) by (nonlinear_arith);
        }
    } else if q < 1 as real {
        lemma_product_positive(1 as real - q, h);
        assert((1 as real - q) * h == h - q * h) by (nonlinear_arith);
    }
}

proof fn lemma_with_axes<S: Scalar>(
    v: spec_fn(S) -> real,
    term: &SaeSupportSparseTerm<S>,
    sums: GroupSums<S>,
    ard: Seq<Vec<S>>,
    table: Seq<Vec<BasisEval<S>>>,
    priors: Seq<Vec<Vec<PriorTerm<S>>>>,
    periodic: bool,
    a: int,
    n: int,
)
    requires
        is_exact(v),
        term.wf(),
        0 <= a < term.k(),
        0 <= n,
    ensures
        ({
            let all = term.with_axes(sums, ard, table, priors, periodic, a, n);
            let counts = |axis: int|
                counts_in_family(v, term, ard, table, priors, periodic, a, axis);
            &&& all.axes as real == sums.axes as real + total(
                n,
                |axis: int| if counts(axis) { 1 as real } else { 0 as real },
            )
            &&& v(all.gamma) == v(sums.gamma) + total(
                n,
                |axis: int|
                    if counts(axis) {
                        determined_of(v, term, ard, table, priors, a, axis)
                    } else {
                        0 as real
                    },
            )
            &&& v(all.energy) == v(sums.energy) + total(
                n,
                |axis: int|
                    if counts(axis) {
                        moment_of(v, term, ard, table, priors, a, axis)
                    } else {
                        0 as real
                    },
            )
        }),
    decreases n,
{
    if n > 0 {
        lemma_with_axes(v, term, sums, ard, table, priors, periodic, a, n - 1);
        term.lemma_uses_fit(a);
        lemma_axis_evidence(
            v,
            term,
            ard,
            table,
            priors,
            a,
            n - 1,
            term.uses()[a].len() as int,
        );
        let found = term.evidence_of(ard, table, priors, a, n - 1);
        assert(found.uses > 0 <==> has_evidence(v, term, ard, table, priors, a, n - 1));
    }
}

proof fn lemma_group_sums<S: Scalar>(
    v: spec_fn(S) -> real,
    term: &SaeSupportSparseTerm<S>,
    ard: Seq<Vec<S>>,
    table: Seq<Vec<BasisEval<S>>>,
    priors: Seq<Vec<Vec<PriorTerm<S>>>>,
    periodic: bool,
    n: int,
)
    requires
        is_exact(v),
        term.wf(),
        0 <= n <= term.k(),
    ensures
        ({
            let sums = term.group_sums(ard, table, priors, periodic, n);
            &&& sums.axes as real == over_family(
                v,
                term,
                ard,
                table,
                priors,
                periodic,
                n,
                |a: int, axis: int| 1 as real,
            )
            &&& v(sums.gamma) == over_family(
                v,
                term,
                ard,
                table,
                priors,
                periodic,
                n,
                |a: int, axis: int| determined_of(v, term, ard, table, priors, a, axis),
            )
            &&& v(sums.energy) == over_family(
                v,
                term,
                ard,
                table,
                priors,
                periodic,
                n,
                |a: int, axis: int| moment_of(v, term, ard, table, priors, a, axis),
            )
        }),
    decreases n,
{
    if n > 0 {
        lemma_group_sums(v, term, ard, table, priors, periodic, n - 1);
        let a = n - 1;
        let dim = term.state().dims()[a] as int;
        lemma_with_axes(
            v,
            term,
            term.group_sums(ard, table, priors, periodic, n - 1),
            ard,
            table,
            priors,
            periodic,
            a,
            dim,
        );
        let ones = |a: int, axis: int| 1 as real;
        let gammas = |a: int, axis: int| determined_of(v, term, ard, table, priors, a, axis);
        let moments = |a: int, axis: int| moment_of(v, term, ard, table, priors, a, axis);
        lemma_family_line(v, term, ard, table, priors, periodic, n, ones);
        lemma_family_line(v, term, ard, table, priors, periodic, n, gammas);
        lemma_family_line(v, term, ard, table, priors, periodic, n, moments);
        let counts = |axis: int| counts_in_family(v, term, ard, table, priors, periodic, a, axis);
        lemma_total_ext(
            dim,
            |axis: int| if counts(axis) { 1 as real } else { 0 as real },
            |axis: int|
                if counts_in_family(v, term, ard, table, priors, periodic, a, axis) {
                    ones(a, axis)
                } else {
                    0 as real
                },
        );
        lemma_total_ext(
            dim,
            |axis: int|
                if counts(axis) {
                    determined_of(v, term, ard, table, priors, a, axis)
                } else {
                    0 as real
                },
            |axis: int|
                if counts_in_family(v, term, ard, table, priors, periodic, a, axis) {
                    gammas(a, axis)
                } else {
                    0 as real
                },
        );
        lemma_total_ext(
            dim,
            |axis: int|
                if counts(axis) {
                    moment_of(v, term, ard, table, priors, a, axis)
                } else {
                    0 as real
                },
            |axis: int|
                if counts_in_family(v, term, ard, table, priors, periodic, a, axis) {
                    moments(a, axis)
                } else {
                    0 as real
                },
        );
    }
}

/// The family sum, with the last atom's axes apart.
proof fn lemma_family_line<S: Scalar>(
    v: spec_fn(S) -> real,
    term: &SaeSupportSparseTerm<S>,
    ard: Seq<Vec<S>>,
    table: Seq<Vec<BasisEval<S>>>,
    priors: Seq<Vec<Vec<PriorTerm<S>>>>,
    periodic: bool,
    n: int,
    value: spec_fn(int, int) -> real,
)
    requires
        n > 0,
    ensures
        over_family(v, term, ard, table, priors, periodic, n, value) == over_family(
            v,
            term,
            ard,
            table,
            priors,
            periodic,
            n - 1,
            value,
        ) + total(
            term.state().dims()[n - 1] as int,
            |axis: int|
                if counts_in_family(v, term, ard, table, priors, periodic, n - 1, axis) {
                    value(n - 1, axis)
                } else {
                    0 as real
                },
        ),
{
    let width = |a: int| term.state().dims()[a] as int;
    let f = |a: int, axis: int|
        if counts_in_family(v, term, ard, table, priors, periodic, a, axis) {
            value(a, axis)
        } else {
            0 as real
        };
    let lines = |i: int| total(width(i), |j: int| f(i, j));
    assert(total(n, lines) == total(n - 1, lines) + lines(n - 1));
    lemma_total_ext(
        width(n - 1),
        |j: int| f(n - 1, j),
        |axis: int|
            if counts_in_family(v, term, ard, table, priors, periodic, n - 1, axis) {
                value(n - 1, axis)
            } else {
                0 as real
            },
    );
}

/// An axis of the family that there is evidence of counts.
proof fn lemma_family_counts<S: Scalar>(
    v: spec_fn(S) -> real,
    term: &SaeSupportSparseTerm<S>,
    ard: Seq<Vec<S>>,
    table: Seq<Vec<BasisEval<S>>>,
    priors: Seq<Vec<Vec<PriorTerm<S>>>>,
    periodic: bool,
    n: int,
    a: int,
    axis: int,
)
    requires
        0 <= a < n,
        0 <= axis < term.state().dims()[a],
        counts_in_family(v, term, ard, table, priors, periodic, a, axis),
    ensures
        over_family(
            v,
            term,
            ard,
            table,
            priors,
            periodic,
            n,
            |a: int, axis: int| 1 as real,
        ) >= 1 as real,
{
    let width = |a: int| term.state().dims()[a] as int;
    let ones = |a: int, axis: int| 1 as real;
    let f = |a: int, axis: int|
        if counts_in_family(v, term, ard, table, priors, periodic, a, axis) {
            ones(a, axis)
        } else {
            0 as real
        };
    let lines = |i: int| total(width(i), |j: int| f(i, j));
    assert forall|i: int| 0 <= i < n implies #[trigger] lines(i) >= 0 as real by {
        lemma_total_not_negative(width(i), |j: int| f(i, j));
    }
    let line = |j: int| f(a, j);
    lemma_term_at_most_total(width(a), line, axis);
    lemma_term_at_most_total(n, lines, a);
}

/// No term of a sum of numbers that are not negative is larger than the sum.
pub proof fn lemma_term_at_most_total(n: int, f: spec_fn(int) -> real, i: int)
    requires
        0 <= i < n,
        forall|j: int| 0 <= j < n ==> #[trigger] f(j) >= 0 as real,
    ensures
        f(i) <= total(n, f),
    decreases n,
{
    assert(f(n - 1) >= 0 as real);
    if i < n - 1 {
        lemma_term_at_most_total(n - 1, f, i);
    } else {
        lemma_total_not_negative(n - 1, f);
    }
}

/// An updated precision makes the second moment of its axis and of the average axis of
/// its family, times the precision, the determined coordinates of both. The averages are
/// over all axes of the family that there is evidence of, each counted once. An axis
/// without evidence keeps its precision.
pub proof fn law_an_updated_precision_balances_the_moment<S: Scalar>(
    v: spec_fn(S) -> real,
    term: &SaeSupportSparseTerm<S>,
    ard: Seq<Vec<S>>,
    table: Seq<Vec<BasisEval<S>>>,
    priors: Seq<Vec<Vec<PriorTerm<S>>>>,
    a: int,
    axis: int,
)
    requires
        is_exact(v),
        term.wf(),
        0 <= a < term.k(),
        0 <= axis < term.state().dims()[a],
    ensures
        ({
            let periodic = term.state().periods(a)[axis] is Some;
            let k = term.k() as int;
            let axes = over_family(
                v,
                term,
                ard,
                table,
                priors,
                periodic,
                k,
                |a: int, axis: int| 1 as real,
            );
            let mean_determined = over_family(
                v,
                term,
                ard,
                table,
                priors,
                periodic,
                k,
                |a: int, axis: int| determined_of(v, term, ard, table, priors, a, axis),
            ) / axes;
            let mean_moment = over_family(
                v,
                term,
                ard,
                table,
                priors,
                periodic,
                k,
                |a: int, axis: int| moment_of(v, term, ard, table, priors, a, axis),
            ) / axes;
            let determined = determined_of(v, term, ard, table, priors, a, axis) + mean_determined;
            let moment = moment_of(v, term, ard, table, priors, a, axis) + mean_moment;
            let new = term.precision_update(ard, table, priors, a, axis);
            if has_evidence(v, term, ard, table, priors, a, axis) {
                &&& axes >= 1 as real
                &&& if moment > 0 as real && determined > 0 as real {
                    v(new) * moment == determined
                } else {
                    new == ard[a]@[axis]
                }
            } else {
                new == ard[a]@[axis]
            }
        }),
{
    let periodic = term.state().periods(a)[axis] is Some;
    let k = term.k() as int;
    term.lemma_uses_fit(a);
    lemma_axis_evidence(v, term, ard, table, priors, a, axis, term.uses()[a].len() as int);
    lemma_group_sums(v, term, ard, table, priors, periodic, k);
    let found = term.evidence_of(ard, table, priors, a, axis);
    let sums = term.group_sums(ard, table, priors, periodic, k);
    let has = has_evidence(v, term, ard, table, priors, a, axis);
    assert(found.uses > 0 <==> has);
    if has {
        assert(counts_in_family(v, term, ard, table, priors, periodic, a, axis));
        lemma_family_counts(v, term, ard, table, priors, periodic, k, a, axis);
        let axes = S::s_count(sums.axes);
        assert(v(axes) >= 1 as real);
        let denominator = found.energy.s_plus(sums.energy.s_over(axes));
        let numerator = found.gamma.s_plus(sums.gamma.s_over(axes));
        let top = v(numerator);
        let bottom = v(denominator);
        if bottom > 0 as real {
            lemma_over(top, bottom);
            if top > 0 as real {
                lemma_over_positive(top, bottom);
            } else {
                let q = top / bottom;
                if q > 0 as real {
                    lemma_product_positive(q, bottom);
                }
            }
        }
    }
}

/// A sum over a family does not depend on the order in which its atoms are listed.
pub proof fn law_a_family_sum_does_not_depend_on_the_order<S: Scalar>(
    v: spec_fn(S) -> real,
    term: &SaeSupportSparseTerm<S>,
    ard: Seq<Vec<S>>,
    table: Seq<Vec<BasisEval<S>>>,
    priors: Seq<Vec<Vec<PriorTerm<S>>>>,
    periodic: bool,
    value: spec_fn(int, int) -> real,
    listed: spec_fn(int) -> int,
    place: spec_fn(int) -> int,
)
    requires
        forall|i: int|
            0 <= i < term.k() ==> 0 <= #[trigger] listed(i) < term.k() && place(listed(i)) == i,
        forall|a: int|
            0 <= a < term.k() ==> 0 <= #[trigger] place(a) < term.k() && listed(place(a)) == a,
    ensures
        over_family(v, term, ard, table, priors, periodic, term.k() as int, value) == total(
            term.k() as int,
            |i: int|
                total(
                    term.state().dims()[listed(i)] as int,
                    |axis: int|
                        if counts_in_family(
                            v,
                            term,
                            ard,
                            table,
                            priors,
                            periodic,
                            listed(i),
                            axis,
                        ) {
                            value(listed(i), axis)
                        } else {
                            0 as real
                        },
                ),
        ),
{
    let n = term.k() as int;
    let width = |a: int| term.state().dims()[a] as int;
    let f = |a: int, axis: int|
        if counts_in_family(v, term, ard, table, priors, periodic, a, axis) {
            value(a, axis)
        } else {
            0 as real
        };
    let lines = |a: int| total(width(a), |j: int| f(a, j));
    let turned = |i: int|
        total(
            term.state().dims()[listed(i)] as int,
            |axis: int|
                if counts_in_family(v, term, ard, table, priors, periodic, listed(i), axis) {
                    value(listed(i), axis)
                } else {
                    0 as real
                },
        );
    let moved = |i: int| lines(listed(i));
    assert forall|i: int| 0 <= i < n implies #[trigger] turned(i) == moved(i) by {
        let a = listed(i);
        lemma_total_ext(
            width(a),
            |axis: int|
                if counts_in_family(v, term, ard, table, priors, periodic, listed(i), axis) {
                    value(listed(i), axis)
                } else {
                    0 as real
                },
            |j: int| f(a, j),
        );
    }
    lemma_total_ext(n, turned, moved);
    lemma_total_in_any_order(n, lines, listed, place);
}

/// A sum may be taken in any order.
pub proof fn lemma_total_in_any_order(
    n: int,
    f: spec_fn(int) -> real,
    listed: spec_fn(int) -> int,
    place: spec_fn(int) -> int,
)
    requires
        forall|i: int| 0 <= i < n ==> 0 <= #[trigger] listed(i) < n && place(listed(i)) == i,
        forall|a: int| 0 <= a < n ==> 0 <= #[trigger] place(a) < n && listed(place(a)) == a,
    ensures
        total(n, |i: int| f(listed(i))) == total(n, f),
{
    let cell = |i: int, a: int| if listed(i) == a { f(a) } else { 0 as real };
    lemma_total_exchange(n, n, cell);
    let moved = |i: int| f(listed(i));
    let rows = |i: int| total(n, |a: int| cell(i, a));
    assert forall|i: int| 0 <= i < n implies #[trigger] rows(i) == moved(i) by {
        let at = listed(i);
        lemma_single_term(n, at, |a: int| cell(i, a));
    }
    lemma_total_ext(n, rows, moved);
    let columns = |a: int| total(n, |i: int| cell(i, a));
    assert forall|a: int| 0 <= a < n implies #[trigger] columns(a) == f(a) by {
        let at = place(a);
        let column = |i: int| cell(i, a);
        assert forall|i: int| 0 <= i < n && i != at implies #[trigger] column(i) == 0 as real by {
            assert(place(listed(i)) == i);
        }
        lemma_single_term(n, at, column);
    }
    lemma_total_ext(n, columns, f);
}

} // verus!
