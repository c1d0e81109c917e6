use sae_support::arrow::{gradient, ArrowRow, ArrowSchurSystem, SaeArrowVector};
use sae_support::evidence::adjoint_gap;
use sae_support::fixed::Fixed;
use sae_support::fixed_point::{
    CoordinateFixedPoint, CoordinateMeasure, CoordinatePhase, CycleMeasure, FixedPoint, Phase,
    StepTaken,
};
use sae_support::layout::{layout_of, LayoutError};
use sae_support::matrix::{
    matrix_energy, matrix_max_abs, product, symmetric_part, transposed_product, Matrix,
};
use sae_support::operator::SupportBetaOperator;
use sae_support::pooling::{aitken_limit, freedom_move, precision_move};
use sae_support::router::{route_row, AffineAtom, AtomOffers};
use sae_support::row_solve::{
    choose_direction, choose_fallback, Direction, KahanSum, LineSearch, TrialMeasure, Verdict,
    LAST_HALVING,
};
use sae_support::scalar::Scalar;
use sae_support::selection::{fit_score, select_row, Trial};
use sae_support::spectral::{
    census_request, penalized_trace_and_null_dim, penalty_request, psd_solve_request, scale_system,
    solve_penalized_normal_equations, solve_psd_minimum_norm, Eigen, SolveError,
};
use sae_support::stationarity::SaeSupportStationarity;
use sae_support::unroll::{
    closure_refuted, image_is_segment, probe_coordinates, probe_count, sorted,
    unrolled_coordinate, widest_gap, PhaseGap,
};

#[derive(Clone, Copy, Debug, PartialEq)]
struct F64(f64);

impl Scalar for F64 {
    fn zero() -> Self {
        F64(0.0)
    }
    fn one() -> Self {
        F64(1.0)
    }
    fn epsilon() -> Self {
        F64(f64::EPSILON)
    }
    fn tiny() -> Self {
        F64(f64::MIN_POSITIVE)
    }
    fn infinity() -> Self {
        F64(f64::INFINITY)
    }
    fn count(n: usize) -> Self {
        F64(n as f64)
    }
    fn plus(self, rhs: Self) -> Self {
        F64(self.0 + rhs.0)
    }
    fn minus(self, rhs: Self) -> Self {
        F64(self.0 - rhs.0)
    }
    fn times(self, rhs: Self) -> Self {
        F64(self.0 * rhs.0)
    }
    fn over(self, rhs: Self) -> Self {
        F64(self.0 / rhs.0)
    }
    fn negate(self) -> Self {
        F64(-self.0)
    }
    fn magnitude(self) -> Self {
        F64(self.0.abs())
    }
    fn root(self) -> Self {
        F64(self.0.sqrt())
    }
    fn nearest(self) -> Self {
        F64(self.0.round())
    }
    fn modulo(self, rhs: Self) -> Self {
        F64(self.0.rem_euclid(rhs.0))
    }
    fn fused(self, factor: Self, addend: Self) -> Self {
        F64(self.0.mul_add(factor.0, addend.0))
    }
    fn larger(self, rhs: Self) -> Self {
        F64(self.0.max(rhs.0))
    }
    fn smaller(self, rhs: Self) -> Self {
        F64(self.0.min(rhs.0))
    }
    fn below(self, rhs: Self) -> bool {
        self.0 < rhs.0
    }
    fn at_most(self, rhs: Self) -> bool {
        self.0 <= rhs.0
    }
    fn same(self, rhs: Self) -> bool {
        self.0 == rhs.0
    }
    fn finite(self) -> bool {
        self.0.is_finite()
    }
}

fn floats(values: &[f64]) -> Vec<F64> {
    values.iter().map(|&v| F64(v)).collect()
}

fn matrix(rows: &[&[f64]]) -> Matrix<F64> {
    let lines: Vec<Vec<F64>> = rows.iter().map(|row| floats(row)).collect();
    Matrix::from_rows(rows[0].len(), &lines).unwrap()
}

fn entries(m: &Matrix<F64>) -> Vec<f64> {
    let mut out = Vec::new();
    for i in 0..m.row_count() {
        for j in 0..m.col_count() {
            out.push(m.get(i, j).0);
        }
    }
    out
}

#[test]
fn blocks_follow_one_another() {
    assert_eq!(layout_of(&vec![2, 3, 1], 4), Ok((vec![0, 8, 20], 24)));
    assert_eq!(layout_of(&vec![], 4), Ok((vec![], 0)));
}

#[test]
fn every_coefficient_has_a_position_of_its_own() {
    let sizes = vec![2usize, 0, 3];
    let width = 2;
    let (offsets, total) = layout_of(&sizes, width).unwrap();
    let mut seen = vec![0; total];
    for (atom, &size) in sizes.iter().enumerate() {
        for basis in 0..size {
            for channel in 0..width {
                seen[offsets[atom] + basis * width + channel] += 1;
            }
        }
    }
    assert_eq!(seen, vec![1; 10]);
}

#[test]
fn a_layout_names_the_atom_that_overflows() {
    assert_eq!(
        layout_of(&vec![1, usize::MAX], 2),
        Err(LayoutError::BlockOverflow { atom: 1 })
    );
    assert_eq!(
        layout_of(&vec![usize::MAX, 1], 1),
        Err(LayoutError::TotalOverflow { atom: 1 })
    );
}

#[test]
fn matrices_multiply_and_transpose() {
    let a = matrix(&[&[1.0, 2.0], &[3.0, 4.0]]);
    let b = matrix(&[&[5.0], &[6.0]]);
    assert_eq!(entries(&product(&a, &b)), vec![17.0, 39.0]);
    assert_eq!(entries(&transposed_product(&a, &b)), vec![23.0, 34.0]);
    assert_eq!(entries(&symmetric_part(&a)), vec![1.0, 2.5, 2.5, 4.0]);
    assert_eq!(matrix_energy(&a), F64(30.0));
    assert_eq!(matrix_max_abs(&matrix(&[&[-7.0, 2.0]])), F64(7.0));
    assert!(Matrix::from_rows(2, &vec![floats(&[1.0])]).is_none());
    assert!(Matrix::filled(usize::MAX, 2, F64(0.0)).is_none());
}

#[test]
fn fixed_point_numbers_round_and_saturate() {
    let two = Fixed::whole(2);
    let three = Fixed::whole(3);
    assert!(two.plus(three).same(Fixed::whole(5)));
    assert!(two.minus(three).same(Fixed::whole(-1)));
    assert!(two.times(three).same(Fixed::whole(6)));
    assert!(Fixed::whole(7).over(two).same(Fixed::whole(7).times(Fixed::one().over(two))));
    assert!(Fixed::whole(9).root().same(three));
    assert!(Fixed::whole(-4).magnitude().same(Fixed::whole(4)));
    assert!(two.below(three) && !three.below(two));
    assert!(two.at_most(two) && two.larger(three).same(three) && two.smaller(three).same(two));
    assert!(Fixed::whole(-1).modulo(three).same(two));
    assert!(two.fused(three, Fixed::one()).same(Fixed::whole(7)));
    assert!(Fixed::whole(7).over(two).nearest().same(Fixed::whole(4)));
    assert!(!Fixed::infinity().finite() && two.finite());
    assert!(two.below(Fixed::infinity()));
    assert!(Fixed::count(3).same(three));
    assert!(two.negate().same(Fixed::whole(-2)));
}

#[test]
fn a_compensated_sum_keeps_what_a_plain_one_loses() {
    let mut sum: KahanSum<F64> = KahanSum::new();
    let mut plain = 0.0_f64;
    sum.add_term(F64(1.0));
    plain += 1.0;
    for _ in 0..1000 {
        sum.add_term(F64(1.0e-16));
        plain += 1.0e-16;
    }
    assert_eq!(plain, 1.0);
    assert!((sum.sum().0 - (1.0 + 1.0e-13)).abs() < 1.0e-15);
}

#[test]
fn a_direction_is_a_finite_ascent_of_the_right_hand_side() {
    let rhs = floats(&[1.0, -2.0]);
    match choose_direction(&rhs, floats(&[0.5, -0.25])) {
        Direction::Search { delta, directional } => {
            assert_eq!(delta, floats(&[0.5, -0.25]));
            assert_eq!(directional, F64(1.0));
        }
        other => panic!("{other:?}"),
    }
    assert!(matches!(choose_direction(&rhs, floats(&[0.0, 0.0])), Direction::NeedsFallback));
    assert!(matches!(choose_direction(&rhs, floats(&[-1.0, 0.0])), Direction::NeedsFallback));
    assert!(matches!(
        choose_direction(&rhs, floats(&[f64::INFINITY, 0.0])),
        Direction::NotDescent(_)
    ));
    match choose_fallback(&rhs, &floats(&[3.0, -4.0]), F64(10.0)) {
        Direction::Search { delta, directional } => {
            assert_eq!(delta, floats(&[6.0, -8.0]));
            assert_eq!(directional, F64(22.0));
        }
        other => panic!("{other:?}"),
    }
    assert!(matches!(choose_fallback(&rhs, &floats(&[0.0, 0.0]), F64(1.0)), Direction::AtRest));
    assert!(matches!(choose_fallback(&rhs, &floats(&[2.0, 1.0]), F64(1.0)), Direction::AtRest));
}

fn trial(objective_delta: f64, gradient_max: f64) -> TrialMeasure<F64> {
    TrialMeasure { objective_delta: F64(objective_delta), gradient_max: F64(gradient_max) }
}

#[test]
fn a_step_is_accepted_for_a_sufficient_decrease() {
    let mut search = LineSearch::begin(floats(&[2.0, -4.0]), F64(1.0), F64(1.0e-12), F64(5.0));
    assert_eq!(search.trial_delta(), floats(&[2.0, -4.0]));
    // The bound at the full step is -1e-4.
    assert!(matches!(search.judge(trial(-0.5e-4, 5.0)), Verdict::TryAgain));
    assert_eq!(search.halving, 1);
    assert_eq!(search.trial_delta(), floats(&[1.0, -2.0]));
    match search.judge(trial(-0.5e-4, 5.0)) {
        Verdict::Accepted { step, change } => {
            assert_eq!(step, F64(0.5));
            assert_eq!(change, F64(2.0));
        }
        other => panic!("{other:?}"),
    }
}

#[test]
fn a_tie_is_accepted_only_for_a_smaller_gradient() {
    let mut search = LineSearch::begin(floats(&[1.0]), F64(1.0), F64(1.0e-3), F64(5.0));
    assert!(matches!(search.judge(trial(1.0e-4, 5.0)), Verdict::TryAgain));
    assert!(matches!(search.judge(trial(1.0e-4, 4.0)), Verdict::Accepted { .. }));
}

#[test]
fn a_search_ends_after_its_last_halving() {
    let exhausted = |resolution: f64| {
        let mut search =
            LineSearch::begin(floats(&[1.0]), F64(1.0), F64(resolution), F64(5.0));
        for _ in 0..LAST_HALVING {
            assert!(matches!(search.judge(trial(1.0, 5.0)), Verdict::TryAgain));
        }
        assert_eq!(search.step.0, 2.0_f64.powi(-24));
        search.judge(trial(1.0, 5.0))
    };
    // The decrease asked for at the last step is 1e-4 * 2^-24.
    assert!(matches!(exhausted(1.0e-11), Verdict::NoStep));
    match exhausted(1.0e-12) {
        Verdict::NoDecrease { best_gap, best_step } => {
            assert!((best_gap.0 - 1.0).abs() < 1.0e-3);
            assert_eq!(best_step.0, 2.0_f64.powi(-24));
        }
        other => panic!("{other:?}"),
    }
}

fn measure(objective: f64, scaled: f64) -> CycleMeasure<F64> {
    CycleMeasure {
        objective: F64(objective),
        stationarity: SaeSupportStationarity {
            decoder_l2: F64(scaled),
            decoder_max_abs: F64(scaled),
            coordinate_l2: F64(0.0),
            coordinate_max_abs: F64(0.0),
            decoder_scaled_max_abs: F64(scaled),
            coordinate_scaled_max_abs: F64(0.0),
        },
        max_change: F64(0.5),
    }
}

fn solve_with(support_k: usize, max_iter: usize) -> FixedPoint<F64> {
    FixedPoint {
        max_iter,
        tolerance: F64(1.0e-3),
        support_k,
        iteration: 1,
        last_objective: None,
        previous_candidate: false,
        last_reroute_cycle: 0,
        objective_at_last_reroute: F64(f64::INFINITY),
        accepted_extrapolations: 0,
        phase: Phase::Cycle,
    }
}

/// Two cycles that agree, and a third that is a candidate again.
fn driven_to_verification(solve: &mut FixedPoint<F64>) {
    solve.cycle(measure(10.0, 1.0e-6));
    assert!(matches!(solve.phase, Phase::Extrapolate(_)));
    assert!(!solve.previous_candidate);
    assert_eq!(solve.extrapolated(None), StepTaken::Plain);
    solve.cycle(measure(10.0, 1.0e-6));
    assert!(matches!(solve.phase, Phase::Extrapolate(_)));
    assert!(solve.previous_candidate);
    assert_eq!(solve.extrapolated(Some(F64(11.0))), StepTaken::Restored);
    solve.cycle(measure(10.0, 1.0e-6));
    assert!(matches!(solve.phase, Phase::Verify(_)));
}

#[test]
fn a_point_is_certified_only_on_a_second_candidate_cycle() {
    let mut solve = solve_with(0, 10);
    driven_to_verification(&mut solve);
    solve.verified(measure(10.0, 1.0e-6));
    match solve.phase {
        Phase::Certified(report) => {
            assert_eq!(report.iterations, 3);
            assert!(report.recurred);
            assert_eq!(report.objective, F64(10.0));
            assert_eq!(report.max_recurrence_change, F64(0.5));
        }
        other => panic!("{other:?}"),
    }
}

#[test]
fn a_drifted_cycle_is_no_candidate_after_all() {
    let mut solve = solve_with(0, 10);
    driven_to_verification(&mut solve);
    solve.verified(measure(10.0, 1.0));
    assert!(matches!(solve.phase, Phase::Extrapolate(_)));
    assert!(!solve.previous_candidate);
}

#[test]
fn a_support_move_at_rest_is_accepted_only_when_it_pays() {
    let mut solve = solve_with(2, 10);
    driven_to_verification(&mut solve);
    solve.verified(measure(10.0, 1.0e-6));
    let resting = solve;
    assert!(matches!(solve.phase, Phase::AtRest(_)));
    assert!(solve.moved_at_rest(F64(9.0)));
    assert!(matches!(solve.phase, Phase::Cycle));
    assert_eq!(solve.iteration, 4);
    assert_eq!(solve.last_objective, None);
    assert!(!solve.previous_candidate);
    assert_eq!(solve.last_reroute_cycle, 3);
    assert_eq!(solve.objective_at_last_reroute, F64(9.0));
    let mut refused = resting;
    assert!(!refused.moved_at_rest(F64(10.0)));
    assert!(matches!(refused.phase, Phase::Certified(_)));
}

#[test]
fn a_plateau_proposes_a_move_after_twenty_five_cycles() {
    let mut solve = solve_with(1, 60);
    for cycle in 1..25 {
        solve.cycle(measure(10.0 - 1.0e-3 * cycle as f64, 1.0));
        assert!(matches!(solve.phase, Phase::Extrapolate(_)), "cycle {cycle}");
        solve.extrapolated(None);
    }
    solve.cycle(measure(9.96, 1.0));
    assert!(matches!(solve.phase, Phase::Plateau(_)));
    assert_eq!(solve.last_reroute_cycle, 25);
    let proposed = solve;
    assert!(!solve.moved_on_plateau(None));
    assert!(matches!(solve.phase, Phase::Extrapolate(_)));
    assert_eq!(solve.extrapolated(Some(F64(9.0))), StepTaken::Extrapolated);
    assert_eq!(solve.accepted_extrapolations, 1);
    let mut moved = proposed;
    assert!(moved.moved_on_plateau(Some(F64(9.0))));
    assert!(matches!(moved.phase, Phase::Cycle));
    assert_eq!(moved.last_objective, None);
    let mut refused = proposed;
    assert!(!refused.moved_on_plateau(Some(F64(9.96))));
    // A falling objective is no plateau.
    let mut falling = solve_with(1, 60);
    for cycle in 1..30 {
        falling.cycle(measure(10.0 / cycle as f64, 1.0));
        assert!(matches!(falling.phase, Phase::Extrapolate(_)), "cycle {cycle}");
        falling.extrapolated(None);
    }
}

#[test]
fn a_solve_gives_up_at_the_end_of_its_budget() {
    let mut solve = solve_with(0, 2);
    solve.cycle(measure(10.0, 1.0));
    solve.extrapolated(None);
    solve.cycle(measure(9.0, 1.0));
    solve.extrapolated(None);
    assert!(matches!(solve.phase, Phase::Exhausted));
    assert_eq!(solve.iteration, 2);
}

#[test]
fn a_frozen_decoder_solve_needs_two_candidates_too() {
    let start = CoordinateFixedPoint {
        max_iter: 4,
        tolerance: F64(1.0e-3),
        iteration: 1,
        last_objective: None,
        previous_candidate: false,
        phase: CoordinatePhase::Cycle,
    };
    let found = |objective: f64, slope: f64| CoordinateMeasure {
        objective: F64(objective),
        coordinate_l2: F64(slope),
        coordinate_max_abs: F64(slope),
        max_change: F64(0.25),
    };
    let mut solve = start;
    solve.cycle(found(2000.0, 1.0));
    solve.cycle(found(2001.0, 1.9));
    assert!(matches!(solve.phase, CoordinatePhase::Cycle));
    solve.cycle(found(2002.0, 2.0));
    match solve.phase {
        CoordinatePhase::Certified(report) => {
            assert_eq!(report.iterations, 3);
            assert_eq!(report.coordinate_max_abs, F64(2.0));
            assert_eq!(report.max_recurrence_change, F64(0.25));
        }
        other => panic!("{other:?}"),
    }
    let mut spent = start;
    for _ in 0..4 {
        spent.cycle(found(1.0, 1.0));
    }
    assert!(matches!(spent.phase, CoordinatePhase::Exhausted));
}

#[test]
fn aitken_jumps_to_the_limit_of_a_contraction() {
    let logs = (F64(0.0), F64(1.0), F64(1.5));
    let ones = (F64(1.0), F64(1.0), F64(1.0));
    assert_eq!(aitken_limit(ones, logs), Some(F64(2.0)));
    assert_eq!(aitken_limit((F64(1.0), F64(0.0), F64(1.0)), logs), None);
    assert_eq!(aitken_limit(ones, (F64(0.0), F64(0.0), F64(1.0))), None);
    assert_eq!(aitken_limit(ones, (F64(0.0), F64(1.0), F64(3.0))), None);
    assert_eq!(aitken_limit(ones, (F64(0.0), F64(1.0), F64(0.5))), None);
}

#[test]
fn moves_are_measured_on_what_is_alive() {
    assert_eq!(freedom_move(&floats(&[1.0, 2.0]), &floats(&[1.5, 1.0])), F64(1.0));
    let before = vec![floats(&[1.0, 0.0]), floats(&[2.0])];
    let after = vec![floats(&[1.0, 3.0]), floats(&[4.0])];
    let logs_before = vec![floats(&[0.0, 7.0]), floats(&[1.0])];
    let logs_after = vec![floats(&[0.5, 99.0]), floats(&[2.0])];
    assert_eq!(precision_move(&before, &after, &logs_before, &logs_after), F64(1.0));
}

#[test]
fn values_are_sorted_and_kept() {
    let values = floats(&[0.5, 0.1, 0.9, 0.1, 0.0, 0.7, 0.3]);
    assert_eq!(sorted(&values), floats(&[0.0, 0.1, 0.1, 0.3, 0.5, 0.7, 0.9]));
    assert_eq!(sorted(&floats(&[])), floats(&[]));
    let down: Vec<F64> = (0..100).rev().map(|i| F64(i as f64)).collect();
    let up: Vec<F64> = (0..100).map(|i| F64(i as f64)).collect();
    assert_eq!(sorted(&down), up);
}

#[test]
fn fixed_point_numbers_are_sorted_too() {
    let values = vec![Fixed::whole(3), Fixed::whole(-1), Fixed::whole(2)];
    let ascending = sorted(&values);
    assert!(ascending[0].same(Fixed::whole(-1)));
    assert!(ascending[1].same(Fixed::whole(2)));
    assert!(ascending[2].same(Fixed::whole(3)));
}

#[test]
fn the_widest_gap_may_lie_over_the_seam() {
    let gap = widest_gap(&floats(&[0.375, 0.25, 0.5]));
    assert_eq!((gap.start, gap.length, gap.end), (F64(0.5), F64(0.75), F64(0.25)));
    let inner = widest_gap(&floats(&[0.875, 0.125, 0.0]));
    assert_eq!((inner.start, inner.length, inner.end), (F64(0.125), F64(0.75), F64(0.875)));
    let alone = widest_gap(&floats(&[0.25]));
    assert_eq!((alone.start, alone.length, alone.end), (F64(0.25), F64(1.0), F64(0.25)));
}

#[test]
fn a_gap_refutes_a_closed_chart_at_the_sample_size_level() {
    let refuted = |n: usize, gap: f64| {
        closure_refuted(n, F64(gap), F64((1.0 - gap).ln()), F64((n as f64).ln()))
    };
    assert!(refuted(20, 0.5));
    assert!(!refuted(20, 0.2));
    assert!(refuted(1, 1.0));
    assert!(!refuted(2, 0.5));
}

#[test]
fn phases_unroll_onto_the_interval() {
    let gap = PhaseGap { start: F64(0.5), length: F64(0.5), end: F64(0.0) };
    assert_eq!(unrolled_coordinate(F64(0.0), gap), F64(-1.0));
    assert_eq!(unrolled_coordinate(F64(0.25), gap), F64(0.0));
    assert_eq!(unrolled_coordinate(F64(0.5), gap), F64(1.0));
    assert_eq!(
        unrolled_coordinate(
            F64(0.5),
            PhaseGap { start: F64(0.5), length: F64(1.0), end: F64(0.5) }
        ),
        F64(0.0)
    );
}

#[test]
fn a_circle_is_no_segment_and_a_diameter_is() {
    assert_eq!(probe_count(3), 32);
    assert_eq!(probe_count(9), 36);
    let probes = probe_coordinates(F64(2.0), 32);
    assert_eq!(probes.len(), 32);
    assert_eq!(probes[8], F64(0.5));
    let image = |width: f64| {
        let lines: Vec<Vec<F64>> = probes
            .iter()
            .map(|t| {
                let angle = std::f64::consts::PI * t.0;
                floats(&[angle.cos() + 3.0, width * angle.sin() - 1.0])
            })
            .collect();
        Matrix::from_rows(2, &lines).unwrap()
    };
    assert!(!image_is_segment(&image(1.0)));
    assert!(!image_is_segment(&image(0.5)));
    assert!(image_is_segment(&image(0.0)));
    assert!(image_is_segment(&image(0.01)));
    // A point has no energy at all.
    assert!(!image_is_segment(&Matrix::constant(32, 2, F64(1.0))));
}

fn offers(images: &[&[f64]], thetas: &[f64], charge: f64) -> AtomOffers<F64> {
    AtomOffers {
        images: images.iter().map(|image| floats(image)).collect(),
        self_terms: images
            .iter()
            .map(|image| F64(image.iter().map(|v| v * v).sum()))
            .collect(),
        thetas: floats(thetas),
        prior_terms: vec![F64(0.0); images.len()],
        dof_charge: F64(charge),
        affine: None,
    }
}

#[test]
fn a_row_is_routed_against_its_running_residual() {
    // Atom 1 is a near-duplicate of atom 0; atom 2 explains what is left.
    let atoms = vec![
        offers(&[&[2.0, 0.0], &[1.0, 0.0]], &[0.5, -0.5], 0.0),
        offers(&[&[1.9, 0.0]], &[0.1], 0.0),
        offers(&[&[0.0, 1.0]], &[0.2], 0.0),
    ];
    let route = route_row(&atoms, &floats(&[2.0, 1.0]), 2, false);
    assert_eq!(route.indices, vec![0, 2]);
    assert_eq!(route.coords, floats(&[0.5, 0.2]));
}

#[test]
fn priced_admission_stops_at_a_gain_that_does_not_pay() {
    let atoms = vec![
        offers(&[&[2.0, 0.0]], &[0.5], 0.5),
        offers(&[&[0.0, 0.5]], &[0.2], 0.5),
    ];
    // The second atom gains 2 * 0.25 - 0.25 = 0.25, less than its charge.
    let target = floats(&[2.0, 0.5]);
    assert_eq!(route_row(&atoms, &target, 2, true).indices, vec![0]);
    assert_eq!(route_row(&atoms, &target, 2, false).indices, vec![0, 1]);
    // The first pick is made whatever it gains.
    let dear = vec![offers(&[&[1.0, 0.0]], &[0.5], 9.0)];
    assert_eq!(route_row(&dear, &target, 1, true).indices, vec![0]);
}

#[test]
fn an_affine_atom_is_ranked_at_its_optimal_coordinate() {
    // The image is (1, 0) + t (0, 2).
    let mut line = offers(&[&[1.0, 0.0]], &[0.0], 0.0);
    line.affine = Some(AffineAtom {
        base: floats(&[1.0, 0.0]),
        unit: floats(&[0.0, 1.0]),
        base_sq: F64(1.0),
        base_dot_unit: F64(0.0),
        slope_norm: F64(2.0),
    });
    let route = route_row(&vec![line], &floats(&[1.0, 3.0]), 1, false);
    assert_eq!(route.indices, vec![0]);
    assert_eq!(route.coords, floats(&[1.5]));
}

#[test]
fn marginal_selection_keeps_the_best_atoms() {
    let trial = |image: &[f64]| Trial {
        coords: floats(&[0.0, 0.0]),
        image: floats(image),
        prior_term: F64(0.0),
    };
    let row = floats(&[2.0, 1.0]);
    assert_eq!(fit_score(&row, &floats(&[1.0, 1.0])), F64(4.0));
    let trials = vec![
        vec![trial(&[1.0, 0.0]), trial(&[2.0, 0.0])],
        vec![trial(&[0.0, 1.0])],
        vec![trial(&[0.5, 0.0])],
    ];
    let fallbacks = vec![trial(&[0.0, 0.0]), trial(&[0.0, 0.0]), trial(&[0.0, 0.0])];
    let kept = select_row(&row, &trials, &fallbacks, &floats(&[0.0, 0.0, 0.0]), 2, false);
    let atoms: Vec<usize> = kept.iter().map(|c| c.atom).collect();
    assert_eq!(atoms, vec![0, 2]);
    assert_eq!(kept[0].score, F64(4.0));
    assert_eq!(kept[0].trial, Some(1));
    assert_eq!(kept[1].score, F64(1.75));
}

#[test]
fn marginal_selection_charges_the_prior() {
    let trial = |image: &[f64], prior: f64| Trial {
        coords: floats(&[0.0, 0.0]),
        image: floats(image),
        prior_term: F64(prior),
    };
    let row = floats(&[2.0, 1.0]);
    let charges = floats(&[0.0, 0.25]);
    // The better fit of the first atom is the dearer point.
    let trials =
        vec![vec![trial(&[2.0, 0.0], 3.0), trial(&[1.0, 0.0], 0.5)], vec![trial(&[0.0, 1.0], 0.0)]];
    let fallbacks = vec![trial(&[0.0, 0.0], 0.0), trial(&[0.0, 0.0], 0.0)];
    let kept = select_row(&row, &trials, &fallbacks, &charges, 2, false);
    assert_eq!((kept[0].trial, kept[0].score), (Some(1), F64(2.5)));
    assert_eq!((kept[1].trial, kept[1].score), (Some(0), F64(0.75)));
}

fn identity_eigen(values: &[f64]) -> Eigen<F64> {
    let n = values.len();
    let mut vectors = Matrix::constant(n, n, F64(0.0));
    for i in 0..n {
        vectors.set(i, i, F64(1.0));
    }
    Eigen { values: floats(values), vectors }
}

#[test]
fn a_trace_keeps_the_null_space_and_shrinks_the_rest() {
    let gram = matrix(&[&[1.0, 0.0], &[0.0, 1.0]]);
    let penalty = identity_eigen(&[0.0, 1.0]);
    let census = |lambda: f64| {
        let (census, shifted) = census_request(&gram, F64(lambda), &penalty);
        let values = [shifted.get(0, 0).0, shifted.get(1, 1).0];
        penalized_trace_and_null_dim(&census, &identity_eigen(&values))
    };
    assert_eq!(census(0.0), (F64(2.0), F64(1.0)));
    assert_eq!(census(3.0), (F64(1.25), F64(1.0)));
    for lambda in [1e-12, 0.3, 7.0, 1e9, 1e300] {
        let (trace, null_dim) = census(lambda);
        assert!(null_dim.0 <= trace.0 && trace.0 <= 2.0);
    }
}

#[test]
fn a_mode_of_the_null_space_counts_one() {
    let census = |gram: &Matrix<F64>, penalty: &Eigen<F64>, lambda: f64, values: &[f64]| {
        let (census, shifted) = census_request(gram, F64(lambda), penalty);
        for (i, value) in values.iter().enumerate() {
            assert_eq!(shifted.get(i, i), F64(*value));
        }
        penalized_trace_and_null_dim(&census, &identity_eigen(values))
    };
    let nothing = matrix(&[&[0.0]]);
    assert_eq!(census(&nothing, &identity_eigen(&[0.0]), 0.0, &[0.0]), (F64(1.0), F64(1.0)));
    // One mode without data in the null space, one that the penalty shares.
    let gram = matrix(&[&[0.0, 0.0], &[0.0, 2.0]]);
    let shared = census(&gram, &identity_eigen(&[0.0, 1.0]), 3.0, &[0.0, 1.25]);
    assert_eq!(shared, (F64(1.4), F64(1.0)));
    // A mode without data outside of the null space counts nothing.
    let bare = census(&gram, &identity_eigen(&[1.0, 1.0]), 0.0, &[0.0, 2.0]);
    assert_eq!(bare, (F64(1.0), F64(0.0)));
}

#[test]
fn a_penalty_beyond_every_number_holds_all_of_its_mode() {
    let gram = matrix(&[&[2.0]]);
    let penalty = identity_eigen(&[1.0e10]);
    let lambda = F64(1.0e300);
    let system = scale_system(&gram, &matrix(&[&[3.0]]), lambda, &penalty).unwrap();
    assert_eq!(system.matrix.get(0, 0), F64(1.0));
    let solved =
        solve_penalized_normal_equations(&system, lambda, &penalty, &identity_eigen(&[1.0]));
    assert_eq!(entries(&solved.unwrap()), vec![0.0]);
}

#[test]
fn the_ends_of_an_arc_go_to_the_ends_of_the_interval() {
    let phases = floats(&[0.1, 0.2]);
    let gap = widest_gap(&phases);
    assert_eq!(unrolled_coordinate(phases[0], gap), F64(-1.0));
    assert!((unrolled_coordinate(phases[1], gap).0 - 1.0).abs() < 1.0e-9);
}

#[test]
fn every_phase_unrolls_between_minus_one_and_one() {
    let gap = PhaseGap { start: F64(0.3), length: F64(0.37), end: F64(0.67) };
    for step in 0..1000 {
        let place = unrolled_coordinate(F64(f64::from(step) / 999.0), gap).0;
        assert!((-1.0..=1.0).contains(&place));
    }
}

#[test]
fn a_minimum_norm_solve_names_its_faults() {
    let rhs = matrix(&[&[4.0], &[0.0]]);
    let solved = solve_psd_minimum_norm(&rhs, &identity_eigen(&[2.0, 0.0])).unwrap();
    assert_eq!(entries(&solved), vec![2.0, 0.0]);
    assert_eq!(
        solve_psd_minimum_norm(&rhs, &identity_eigen(&[2.0, -1.0])).err(),
        Some(SolveError::NotPsd)
    );
    assert_eq!(
        solve_psd_minimum_norm(&rhs, &identity_eigen(&[0.0, 2.0])).err(),
        Some(SolveError::NullComponent)
    );
    let gram = matrix(&[&[1.0, 0.0], &[0.0, 1.0]]);
    assert_eq!(
        psd_solve_request(&gram, &matrix(&[&[1.0]])).err(),
        Some(SolveError::SystemShape)
    );
    assert_eq!(
        penalty_request(&gram, &matrix(&[&[1.0]]), F64(1.0)).err(),
        Some(SolveError::PenaltyShape)
    );
    assert_eq!(penalty_request(&gram, &gram, F64(-1.0)).err(), Some(SolveError::Smoothing));
    assert_eq!(
        scale_system(&gram, &rhs, F64(1.0), &identity_eigen(&[1.0, -1.0])).err(),
        Some(SolveError::PenaltyNotPsd)
    );
}

#[test]
fn the_gradient_stacks_the_rows_and_the_border() {
    let system = ArrowSchurSystem {
        rows: vec![
            ArrowRow {
                gt: floats(&[1.0, 2.0]),
                htt: vec![floats(&[1.0, 0.0]), floats(&[0.0, 1.0])],
                htbeta: Matrix::constant(2, 0, F64(0.0)),
            },
            ArrowRow {
                gt: floats(&[3.0]),
                htt: vec![floats(&[1.0])],
                htbeta: Matrix::constant(1, 0, F64(0.0)),
            },
        ],
        gb: floats(&[4.0, 5.0]),
        hbb_diag: floats(&[1.0, 1.0]),
        block_offsets: vec![(0, 2)],
        operator: SupportBetaOperator {
            rows: vec![],
            atom_blocks: vec![],
            beta_offsets: vec![],
            basis_sizes: vec![],
            penalties: vec![],
            lambda_smooth: vec![],
            output_dim: 1,
            beta_dim: 2,
        },
    };
    let found = gradient(&system);
    assert_eq!(found.t, floats(&[1.0, 2.0, 3.0]));
    assert_eq!(found.beta, floats(&[4.0, 5.0]));
    let moved = SaeArrowVector { t: floats(&[1.0, 2.0, 3.5]), beta: floats(&[4.0, 8.0]) };
    assert_eq!(adjoint_gap(&found, &moved), (F64(0.5), F64(5.0)));
    assert_eq!(adjoint_gap(&found, &found), (F64(0.0), F64(5.0)));
}
