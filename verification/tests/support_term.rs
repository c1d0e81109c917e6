use sae_support::active::{difference, BasisEval, DecodeError, ShapeError};
use sae_support::arrow::{gradient, matrix_row, ArrowError};
use sae_support::assignment::{
    AssignmentError, SaeAssignmentAtomSpec, SaeAssignmentState,
};
use sae_support::atom::{AtomError, SaeAtomBasisKind, SaeManifoldAtom};
use sae_support::fixed_point::{
    CoordinateMeasure, CoordinatePhase, CycleMeasure, Phase,
    SaeSupportCoordinateFixedPointReport, SaeSupportFixedPointReport, SolveFault, StepTaken,
};
use sae_support::hyper::{AtomCensus, SmoothingFault};
use sae_support::matrix::Matrix;
use sae_support::objective::{CodeLengths, HyperFault, ObjectiveError, PriorTerm};
use sae_support::operator::{SupportBasisBlock, SupportBetaOperator, SupportLinearizedRow};
use sae_support::pooling::{PoolFault, PooledScale};
use sae_support::reroute::{AtomChart, BasisTrial, GridPoint, RouteError, RouteSamples};
use sae_support::row_solve::{
    choose_direction, choose_fallback, CoordinateSweepError, Direction, LineSearch, RowFault,
    RowStart, Verdict,
};
use sae_support::scalar::Scalar;
use sae_support::spectral::{
    census_request, penalized_trace_and_null_dim, penalty_request, psd_solve_request,
    scale_system, solve_penalized_normal_equations, solve_psd_minimum_norm, Eigen, SolveError,
};
use sae_support::stationarity::StationarityError;
use sae_support::sweep::{DecoderSweep, FistaState, SweepError};
use sae_support::term::{SaeSupportSparseTerm, TermError};
use sae_support::unroll::{probe_coordinates, probe_count, ChartPlan, GapLogs, LoopVerdict};

#[derive(Clone, Copy, Debug, PartialEq)]
struct F64(f64);

impl Scalar for F64 {
    fn zero() -> Self {
        F64(0.0)
    }
    fn one() -> Self {
        F64(1.0)
    }
    fn epsilon() -> Self {
        F64(f64::EPSILON)
    }
    fn tiny() -> Self {
        F64(f64::MIN_POSITIVE)
    }
    fn infinity() -> Self {
        F64(f64::INFINITY)
    }
    fn count(n: usize) -> Self {
        F64(n as f64)
    }
    fn plus(self, rhs: Self) -> Self {
        F64(self.0 + rhs.0)
    }
    fn minus(self, rhs: Self) -> Self {
        F64(self.0 - rhs.0)
    }
    fn times(self, rhs: Self) -> Self {
        F64(self.0 * rhs.0)
    }
    fn over(self, rhs: Self) -> Self {
        F64(self.0 / rhs.0)
    }
    fn negate(self) -> Self {
        F64(-self.0)
    }
    fn magnitude(self) -> Self {
        F64(self.0.abs())
    }
    fn root(self) -> Self {
        F64(self.0.sqrt())
    }
    fn nearest(self) -> Self {
        F64(self.0.round())
    }
    fn modulo(self, rhs: Self) -> Self {
        F64(self.0.rem_euclid(rhs.0))
    }
    fn fused(self, factor: Self, addend: Self) -> Self {
        F64(self.0.mul_add(factor.0, addend.0))
    }
    fn larger(self, rhs: Self) -> Self {
        F64(self.0.max(rhs.0))
    }
    fn smaller(self, rhs: Self) -> Self {
        F64(self.0.min(rhs.0))
    }
    fn below(self, rhs: Self) -> bool {
        self.0 < rhs.0
    }
    fn at_most(self, rhs: Self) -> bool {
        self.0 <= rhs.0
    }
    fn same(self, rhs: Self) -> bool {
        self.0 == rhs.0
    }
    fn finite(self) -> bool {
        self.0.is_finite()
    }
}

type Term = SaeSupportSparseTerm<F64>;

fn floats(values: &[f64]) -> Vec<F64> {
    values.iter().map(|&v| F64(v)).collect()
}

fn matrix(rows: &[&[f64]]) -> Matrix<F64> {
    let lines: Vec<Vec<F64>> = rows.iter().map(|row| floats(row)).collect();
    Matrix::from_rows(rows[0].len(), &lines).unwrap()
}

fn identity(m: usize) -> Matrix<F64> {
    let mut out = Matrix::constant(m, m, F64(0.0));
    for i in 0..m {
        out.set(i, i, F64(1.0));
    }
    out
}

fn entries(m: &Matrix<F64>) -> Vec<f64> {
    let mut out = Vec::new();
    for i in 0..m.row_count() {
        for j in 0..m.col_count() {
            out.push(m.get(i, j).0);
        }
    }
    out
}

/// The charts the fixtures use.
#[derive(Clone, Copy)]
enum Chart {
    Line,
    Plane,
    Circle,
}

impl Chart {
    fn eval(self, t: &[F64]) -> BasisEval<F64> {
        match self {
            Chart::Line => BasisEval {
                phi: floats(&[1.0, t[0].0]),
                jet: vec![floats(&[0.0]), floats(&[1.0])],
            },
            Chart::Plane => BasisEval {
                phi: floats(&[1.0, t[0].0, t[1].0]),
                jet: vec![floats(&[0.0, 0.0]), floats(&[1.0, 0.0]), floats(&[0.0, 1.0])],
            },
            Chart::Circle => {
                let tau = 2.0 * std::f64::consts::PI;
                let (s, c) = (tau * t[0].0).sin_cos();
                BasisEval {
                    phi: floats(&[1.0, s, c]),
                    jet: vec![floats(&[0.0]), floats(&[tau * c]), floats(&[-tau * s])],
                }
            }
        }
    }

    fn atom(self, decoder: &[&[f64]]) -> SaeManifoldAtom<F64> {
        let (kind, dim, m) = match self {
            Chart::Line => (SaeAtomBasisKind::Linear, 1, 2),
            Chart::Plane => (SaeAtomBasisKind::Linear, 2, 3),
            Chart::Circle => (SaeAtomBasisKind::Periodic, 1, 3),
        };
        SaeManifoldAtom::new(kind, dim, m, true, matrix(decoder), identity(m))
    }

    fn spec(self) -> SaeAssignmentAtomSpec<F64> {
        match self {
            Chart::Line => SaeAssignmentAtomSpec { latent_dim: 1, axis_periods: vec![None] },
            Chart::Plane => {
                SaeAssignmentAtomSpec { latent_dim: 2, axis_periods: vec![None, None] }
            }
            Chart::Circle => {
                SaeAssignmentAtomSpec { latent_dim: 1, axis_periods: vec![Some(F64(1.0))] }
            }
        }
    }
}

fn term_of(
    charts: &[Chart],
    atoms: Vec<SaeManifoldAtom<F64>>,
    top_k: usize,
    supports: Vec<Vec<u32>>,
    coords: Vec<Vec<F64>>,
) -> Term {
    let n = supports.len();
    let gates = supports.iter().map(|s| vec![F64(1.0); s.len()]).collect();
    let specs = charts.iter().map(|chart| chart.spec()).collect();
    let state = SaeAssignmentState::from_topk_support_heterogeneous(
        n,
        charts.len(),
        top_k,
        specs,
        supports,
        gates,
        coords,
    )
    .expect("state");
    Term::new(atoms, state).expect("term")
}

fn row_evals(term: &Term, charts: &[Chart], row: usize) -> Vec<BasisEval<F64>> {
    let support = term.assignment().support_indices(row);
    (0..support.len())
        .map(|slot| {
            charts[support[slot] as usize].eval(&term.assignment().coords_for_slot(row, slot))
        })
        .collect()
}

fn table(term: &Term, charts: &[Chart]) -> Vec<Vec<BasisEval<F64>>> {
    (0..term.n_obs()).map(|row| row_evals(term, charts, row)).collect()
}

fn prior(alpha: f64, t: f64, period: Option<F64>) -> PriorTerm<F64> {
    match period {
        None => PriorTerm {
            value: F64(0.5 * alpha * t * t),
            grad: F64(alpha * t),
            curvature: F64(alpha),
            square: F64(t * t),
        },
        Some(period) => {
            let kappa = 2.0 * std::f64::consts::PI / period.0;
            let (s, c) = (kappa * t).sin_cos();
            PriorTerm {
                value: F64(alpha / (kappa * kappa) * (1.0 - c)),
                grad: F64(alpha / kappa * s),
                curvature: F64(alpha * c.max(0.0)),
                square: F64(2.0 / (kappa * kappa) * (1.0 - c)),
            }
        }
    }
}

fn row_priors(term: &Term, ard: &[Vec<F64>], row: usize) -> Vec<Vec<PriorTerm<F64>>> {
    let support = term.assignment().support_indices(row);
    (0..support.len())
        .map(|slot| {
            let atom = support[slot] as usize;
            let coords = term.assignment().coords_for_slot(row, slot);
            let periods = term.assignment().atom_axis_periods(atom);
            (0..coords.len())
                .map(|axis| prior(ard[atom][axis].0, coords[axis].0, periods[axis]))
                .collect()
        })
        .collect()
}

fn priors(term: &Term, ard: &[Vec<F64>]) -> Vec<Vec<Vec<PriorTerm<F64>>>> {
    (0..term.n_obs()).map(|row| row_priors(term, ard, row)).collect()
}

fn codes(rows: usize) -> CodeLengths<F64> {
    CodeLengths {
        ln_two: F64(std::f64::consts::LN_2),
        log2_rows: F64((rows.max(2) as f64).log2()),
    }
}

fn eigh(m: &Matrix<F64>) -> Eigen<F64> {
    let n = m.row_count();
    let dense = faer::Mat::<f64>::from_fn(n, n, |i, j| m.get(i, j).0);
    let found = dense.self_adjoint_eigen(faer::Side::Lower).expect("eigendecomposition");
    let values = (0..n).map(|i| F64(found.S().column_vector()[i])).collect();
    let mut vectors = Matrix::constant(n, n, F64(0.0));
    for i in 0..n {
        for j in 0..n {
            vectors.set(i, j, F64(found.U()[(i, j)]));
        }
    }
    Eigen { values, vectors }
}

fn minimum_norm(gram: &Matrix<F64>, rhs: &Matrix<F64>) -> Result<Matrix<F64>, SolveError> {
    let symmetric = psd_solve_request(gram, rhs)?;
    solve_psd_minimum_norm(rhs, &eigh(&symmetric))
}

fn penalized(
    gram: &Matrix<F64>,
    penalty: &Matrix<F64>,
    lambda: F64,
    rhs: &Matrix<F64>,
) -> Result<Matrix<F64>, SolveError> {
    let symmetric = penalty_request(gram, penalty, lambda)?;
    let directions = eigh(&symmetric);
    let system = scale_system(gram, rhs, lambda, &directions)?;
    let scaled = psd_solve_request(&system.matrix, &system.rhs)?;
    solve_penalized_normal_equations(&system, lambda, &directions, &eigh(&scaled))
}

fn census(gram: &Matrix<F64>, penalty: &Matrix<F64>, lambda: F64) -> (F64, F64) {
    let symmetric = penalty_request(gram, penalty, lambda).expect("census shapes");
    let directions = eigh(&symmetric);
    let (census, shifted) = census_request(gram, lambda, &directions);
    penalized_trace_and_null_dim(&census, &eigh(&shifted))
}

fn objective(
    term: &Term,
    charts: &[Chart],
    target: &Matrix<F64>,
    lambda: &Vec<F64>,
    ard: &Vec<Vec<F64>>,
) -> f64 {
    term.penalized_objective(
        target,
        &table(term, charts),
        lambda,
        ard,
        &priors(term, ard),
        codes(term.n_obs()),
    )
    .expect("objective")
    .0
}

fn decoder_sweep(
    term: &mut Term,
    charts: &[Chart],
    target: &Matrix<F64>,
    lambda: &Vec<F64>,
    fitted: &mut Matrix<F64>,
) -> f64 {
    term.check_sweep(lambda, fitted).expect("sweep");
    let evals = table(term, charts);
    let mut sweep = DecoderSweep::begin(term);
    while !sweep.is_done() {
        let class = sweep.classes[sweep.next].clone();
        let equations = sweep.class_equations(term, target, fitted, &evals);
        let decoders = class
            .iter()
            .zip(equations.iter())
            .map(|(&atom, eq)| {
                penalized(&eq.gram, term.atom(atom).smooth_penalty(), lambda[atom], &eq.rhs)
                    .expect("decoder block")
            })
            .collect();
        sweep.install_class(term, decoders, &evals, fitted);
    }
    sweep.max_change.0
}

fn fista_sweep(
    term: &mut Term,
    charts: &[Chart],
    target: &Matrix<F64>,
    lambda: &Vec<F64>,
    fitted: &mut Matrix<F64>,
    passes: usize,
) -> f64 {
    term.check_sweep(lambda, fitted).expect("sweep");
    let evals = table(term, charts);
    let mut state = FistaState::begin(term);
    loop {
        let residual = difference(target, fitted);
        let deltas = (0..term.k_atoms())
            .map(|atom| {
                let eq = term.majorized_equations(&residual, lambda, &evals, atom);
                penalized(&eq.gram, term.atom(atom).smooth_penalty(), lambda[atom], &eq.rhs)
                    .expect("majorized block")
            })
            .collect();
        if term.fista_pass(&mut state, &deltas, &evals, fitted, passes) {
            return state.max_change.0;
        }
    }
}

/// One row's step on flat charts: a tangent step is its own projection, and the
/// retraction adds it.
fn row_solve(
    term: &Term,
    charts: &[Chart],
    row: usize,
    target: &Matrix<F64>,
    ard: &Vec<Vec<F64>>,
    radius: F64,
    tolerance: F64,
) -> (Result<F64, RowFault<F64>>, Vec<F64>) {
    let line = matrix_row(target, row);
    let start = term.assignment().coords_row(row).clone();
    let evals = row_evals(term, charts, row);
    let problem =
        match term.open_row(row, &line, &evals, &row_priors(term, ard, row), tolerance) {
            RowStart::AtRest => return (Ok(F64(0.0)), start),
            RowStart::Solve(problem) => problem,
        };
    let q = problem.rhs.len();
    let gram = ndarray::Array2::from_shape_fn((q, q), |(i, j)| problem.gram[i][j].0);
    let rhs = ndarray::Array1::from_shape_fn(q, |i| problem.rhs[i].0);
    let step = opt::solve_psd_trust_region(gram.view(), rhs.view(), radius.0).expect("step");
    let delta: Vec<F64> = step.iter().map(|&v| F64(v)).collect();
    let mut direction = choose_direction(&problem.rhs, delta);
    if let Direction::NeedsFallback = direction {
        direction = choose_fallback(&problem.rhs, &problem.rhs, radius);
    }
    let (delta, directional) = match direction {
        Direction::Search { delta, directional } => (delta, directional),
        Direction::NotDescent(slope) => return (Err(RowFault::NotDescent(slope)), start),
        _ => return (Ok(F64(0.0)), start),
    };
    let resolution = term.objective_resolution(row, problem.objective_scale);
    let mut search = LineSearch::begin(delta, directional, resolution, problem.gradient_max);
    let offsets = {
        let mut out = Vec::new();
        term.slot_offsets_into(row, &mut out);
        out
    };
    let support = term.assignment().support_indices(row);
    loop {
        let moved: Vec<F64> =
            start.iter().zip(search.trial_delta()).map(|(t, d)| F64(t.0 + d.0)).collect();
        let mut trial = Vec::new();
        let mut changes = Vec::new();
        let mut grads = Vec::new();
        for slot in 0..support.len() {
            let atom = support[slot] as usize;
            let (from, to) = offsets[slot];
            trial.push(charts[atom].eval(&moved[from..to]));
            let periods = term.assignment().atom_axis_periods(atom);
            for axis in 0..to - from {
                let alpha = ard[atom][axis].0;
                let before = prior(alpha, start[from + axis].0, periods[axis]);
                let after = prior(alpha, moved[from + axis].0, periods[axis]);
                changes.push(F64(after.value.0 - before.value.0));
                grads.push(after.grad);
            }
        }
        let measure = term.measure_trial(
            row,
            &line,
            &problem.residual,
            &evals,
            &trial,
            &changes,
            &grads,
        );
        match search.judge(measure) {
            Verdict::Accepted { change, .. } => return (Ok(change), moved),
            Verdict::TryAgain => {}
            Verdict::NoStep => return (Ok(F64(0.0)), start),
            Verdict::NoDecrease { best_gap, best_step } => {
                return (Err(RowFault::NoDecrease { best_gap, best_step }), start)
            }
        }
    }
}

fn coordinate_sweep(
    term: &mut Term,
    charts: &[Chart],
    target: &Matrix<F64>,
    ard: &Vec<Vec<F64>>,
    radius: f64,
    tolerance: f64,
    fitted: &mut Matrix<F64>,
) -> f64 {
    term.check_coordinate_sweep(ard, F64(radius), F64(tolerance)).expect("sweep");
    let mut outcomes = Vec::new();
    let mut places = Vec::new();
    for row in 0..term.n_obs() {
        let (outcome, place) =
            row_solve(term, charts, row, target, ard, F64(radius), F64(tolerance));
        outcomes.push(outcome);
        places.push(place);
    }
    for (row, place) in places.iter().enumerate() {
        term.set_row_coords(row, place).expect("row width");
    }
    let evals = table(term, charts);
    term.coordinate_sweep(&outcomes, &evals, fitted).expect("rows").0
}

/// Multisecant extrapolation over the last few differences.
struct Anderson {
    depth: usize,
    last: Option<Vec<f64>>,
    residual_steps: Vec<Vec<f64>>,
    iterate_steps: Vec<Vec<f64>>,
}

impl Anderson {
    fn new(depth: usize) -> Self {
        Anderson { depth, last: None, residual_steps: vec![], iterate_steps: vec![] }
    }

    fn reset(&mut self) {
        *self = Anderson::new(self.depth);
    }

    fn propose(&mut self, residual: &[f64], taken: &[f64]) -> Option<Vec<f64>> {
        if let Some(last) = &self.last {
            self.residual_steps.push(residual.iter().zip(last).map(|(a, b)| a - b).collect());
            self.iterate_steps.push(taken.to_vec());
            if self.residual_steps.len() > self.depth {
                self.residual_steps.remove(0);
                self.iterate_steps.remove(0);
            }
        }
        self.last = Some(residual.to_vec());
        let order = self.residual_steps.len();
        if order == 0 {
            return None;
        }
        let dot = |a: &[f64], b: &[f64]| a.iter().zip(b).map(|(x, y)| x * y).sum::<f64>();
        let mut gram = Matrix::constant(order, order, F64(0.0));
        let mut rhs = vec![0.0; order];
        for i in 0..order {
            for j in 0..order {
                gram.set(i, j, F64(dot(&self.residual_steps[i], &self.residual_steps[j])));
            }
            rhs[i] = dot(&self.residual_steps[i], residual);
        }
        let eigen = eigh(&gram);
        let top = eigen.values.iter().fold(0.0_f64, |acc, v| acc.max(v.0));
        let mut gamma = vec![0.0; order];
        for mode in 0..order {
            if eigen.values[mode].0 <= 1.0e-14 * top {
                continue;
            }
            let along: f64 = (0..order).map(|i| eigen.vectors.get(i, mode).0 * rhs[i]).sum();
            for (i, value) in gamma.iter_mut().enumerate() {
                *value += eigen.vectors.get(i, mode).0 * along / eigen.values[mode].0;
            }
        }
        let mut step = residual.to_vec();
        for (i, value) in step.iter_mut().enumerate() {
            for k in 0..order {
                *value -= gamma[k] * (self.iterate_steps[k][i] + self.residual_steps[k][i]);
            }
        }
        Some(step)
    }
}

fn route_samples(term: &Term, charts: &[Chart], ard: &[Vec<F64>], rows: usize) -> RouteSamples<F64> {
    let sampled = (0..term.k_atoms())
        .map(|atom| AtomChart {
            grid: (0..term.route_grid_width(atom))
                .map(|g| {
                    let theta = term.grid_sample(atom, g);
                    let period = term.assignment().atom_axis_periods(atom)[0];
                    GridPoint {
                        theta,
                        phi: charts[atom].eval(&[theta]).phi,
                        prior: prior(ard[atom][0].0, theta.0, period).value,
                    }
                })
                .collect(),
            at_zero: charts[atom].eval(&[F64(0.0)]).phi,
            at_one: charts[atom].eval(&[F64(1.0)]).phi,
        })
        .collect();
    RouteSamples {
        charts: sampled,
        trials: vec![],
        fallbacks: vec![],
        specs: charts.iter().map(|chart| chart.spec()).collect(),
        codes: codes(rows),
    }
}

fn coordinate_solve(
    term: &mut Term,
    charts: &[Chart],
    target: &Matrix<F64>,
    ard: &Vec<Vec<F64>>,
    max_iter: usize,
    tolerance: f64,
    radius: f64,
) -> Option<SaeSupportCoordinateFixedPointReport<F64>> {
    let mut solve =
        term.solve_coordinates_fixed_decoder(target, max_iter, F64(tolerance)).expect("begins");
    let mut fitted = term.reconstruct(&table(term, charts));
    loop {
        let change = coordinate_sweep(term, charts, target, ard, radius, tolerance, &mut fitted);
        let residual = difference(target, &fitted);
        let evals = table(term, charts);
        let energies = priors(term, ard);
        let (l2, max) = term
            .raw_coordinate_stationarity_with_residual(&residual, ard, &evals, &energies)
            .expect("slopes");
        let objective = term
            .frozen_decoder_coordinate_objective_with_residual(&residual, &energies)
            .expect("objective");
        solve.cycle(CoordinateMeasure {
            objective,
            coordinate_l2: l2,
            coordinate_max_abs: max,
            max_change: F64(change),
        });
        match solve.phase {
            CoordinatePhase::Cycle => {}
            CoordinatePhase::Certified(report) => return Some(report),
            CoordinatePhase::Exhausted => return None,
        }
    }
}

fn measured(
    term: &Term,
    charts: &[Chart],
    residual: &Matrix<F64>,
    lambda: &Vec<F64>,
    ard: &Vec<Vec<F64>>,
    change: f64,
) -> CycleMeasure<F64> {
    let evals = table(term, charts);
    let energies = priors(term, ard);
    let stationarity = term
        .raw_stationarity_with_residual(residual, lambda, ard, &evals, &energies)
        .expect("stationarity");
    let objective = term
        .penalized_objective_with_residual(residual, lambda, ard, &energies, codes(term.n_obs()))
        .expect("objective");
    CycleMeasure { objective, stationarity, max_change: F64(change) }
}

fn fixed_point(
    term: &mut Term,
    charts: &[Chart],
    target: &Matrix<F64>,
    lambda: &Vec<F64>,
    ard: &Vec<Vec<F64>>,
    max_iter: usize,
    tolerance: f64,
    radius: f64,
) -> Option<SaeSupportFixedPointReport<F64>> {
    let mut solve =
        term.solve_fixed_point(target, max_iter, F64(tolerance)).expect("begins");
    let mut accelerator = Anderson::new(8);
    let mut start = Vec::new();
    let mut taken = vec![0.0; term.coordinate_state_len()];
    let mut fitted = term.reconstruct(&table(term, charts));
    loop {
        match solve.phase {
            Phase::Cycle => {
                term.snapshot_coordinates(&mut start);
                let decoders = decoder_sweep(term, charts, target, lambda, &mut fitted);
                let coords =
                    coordinate_sweep(term, charts, target, ard, radius, tolerance, &mut fitted);
                let residual = difference(target, &fitted);
                let change = decoders.max(coords);
                solve.cycle(measured(term, charts, &residual, lambda, ard, change));
            }
            Phase::Verify(change) => {
                fitted = term.reconstruct(&table(term, charts));
                let residual = difference(target, &fitted);
                solve.verified(measured(term, charts, &residual, lambda, ard, change.0));
            }
            Phase::AtRest(_) | Phase::Plateau(_) => {
                let at_rest = matches!(solve.phase, Phase::AtRest(_));
                let samples = route_samples(term, charts, ard, target.row_count());
                let mut moved = term
                    .reroute_fixed_decoder_ard(target, solve.support_k, ard, &samples)
                    .expect("route");
                let polished =
                    coordinate_solve(&mut moved, charts, target, ard, max_iter, tolerance, radius);
                let after = polished.map(|_| F64(objective(&moved, charts, target, lambda, ard)));
                let accepted = if at_rest {
                    solve.moved_at_rest(after.expect("a proposal at rest is polished"))
                } else {
                    solve.moved_on_plateau(after)
                };
                if accepted {
                    *term = moved;
                    fitted = term.reconstruct(&table(term, charts));
                    accelerator.reset();
                    taken = vec![0.0; term.coordinate_state_len()];
                }
            }
            Phase::Extrapolate(_) => {
                let mut end = Vec::new();
                term.snapshot_coordinates(&mut end);
                let mut residual = Vec::new();
                term.wrapped_coordinate_residual(&start, &end, &mut residual);
                let residual: Vec<f64> = residual.iter().map(|v| v.0).collect();
                match accelerator.propose(&residual, &taken) {
                    None => {
                        solve.extrapolated(None);
                        taken = residual;
                    }
                    Some(step) => {
                        let trial: Vec<F64> =
                            start.iter().zip(&step).map(|(t, d)| F64(t.0 + d)).collect();
                        term.install_coordinates(&trial).expect("state width");
                        let trial_fitted = term.reconstruct(&table(term, charts));
                        let value = objective(term, charts, target, lambda, ard);
                        match solve.extrapolated(Some(F64(value))) {
                            StepTaken::Extrapolated => {
                                taken = step;
                                fitted = trial_fitted;
                            }
                            _ => {
                                term.install_coordinates(&end).expect("state width");
                                accelerator.reset();
                                taken = residual;
                            }
                        }
                    }
                }
            }
            Phase::Certified(report) => return Some(report),
            Phase::Exhausted => return None,
        }
    }
}

/// Three atoms of two bases over two channels, with every atom shared by two
/// rows so that the scatter has an accumulation order to preserve.
fn beta_operator_fixture() -> SupportBetaOperator<F64> {
    let beta_offsets = vec![0usize, 4, 8];
    // Partial sums of these are not exactly representable, so a reassociated
    // sum would differ in the low bits.
    let mk = |offset: usize, a: f64, b: f64| SupportBasisBlock {
        beta_offset: offset,
        phi: floats(&[a, b]),
    };
    let third = 1.0_f64 / 3.0;
    let root = 2.0_f64.sqrt() / 7.0;
    let row = |blocks| SupportLinearizedRow { blocks, jacobian: vec![floats(&[0.0])] };
    let rows = vec![
        row(vec![mk(0, third, root), mk(4, -root, third * 0.5)]),
        row(vec![mk(4, third * 1.7, -root), mk(8, root * 3.1, third)]),
        row(vec![mk(0, -third * 0.9, root * 2.3), mk(8, third, -root)]),
    ];
    let mut atom_blocks: Vec<Vec<(usize, usize)>> = vec![Vec::new(); 3];
    for (row_index, row) in rows.iter().enumerate() {
        for (block_index, block) in row.blocks.iter().enumerate() {
            let atom = beta_offsets
                .iter()
                .position(|&o| o == block.beta_offset)
                .expect("offset belongs to an atom");
            atom_blocks[atom].push((row_index, block_index));
        }
    }
    let penalties = vec![
        matrix(&[&[2.0, -0.5], &[-0.5, 1.25]]),
        matrix(&[&[1.0, third], &[third, 3.0]]),
        matrix(&[&[0.75, 0.0], &[0.0, 0.5]]),
    ];
    SupportBetaOperator {
        rows,
        atom_blocks,
        beta_offsets,
        basis_sizes: vec![2, 2, 2],
        penalties,
        lambda_smooth: floats(&[0.7, 1.9, third]),
        output_dim: 2,
        beta_dim: 12,
    }
}

/// The plain sweep over rows that the fan-out has to reproduce exactly.
fn beta_operator_apply_serially(op: &SupportBetaOperator<F64>, vector: &[f64]) -> Vec<f64> {
    let mut out = vec![0.0; op.beta_dim];
    let mut output = vec![0.0; op.output_dim];
    for row in &op.rows {
        output.fill(0.0);
        for block in &row.blocks {
            for basis in 0..block.phi.len() {
                let base = block.beta_offset + basis * op.output_dim;
                for channel in 0..op.output_dim {
                    output[channel] += block.phi[basis].0 * vector[base + channel];
                }
            }
        }
        for block in &row.blocks {
            for basis in 0..block.phi.len() {
                let base = block.beta_offset + basis * op.output_dim;
                for channel in 0..op.output_dim {
                    out[base + channel] += block.phi[basis].0 * output[channel];
                }
            }
        }
    }
    for atom in 0..op.penalties.len() {
        let lambda = op.lambda_smooth[atom].0;
        let m = op.basis_sizes[atom];
        let offset = op.beta_offsets[atom];
        for left in 0..m {
            for right in 0..m {
                let weight = lambda * op.penalties[atom].get(left, right).0;
                for channel in 0..op.output_dim {
                    out[offset + left * op.output_dim + channel] +=
                        weight * vector[offset + right * op.output_dim + channel];
                }
            }
        }
    }
    out
}

#[test]
fn beta_operator_fan_out_is_bit_identical_to_the_serial_sweep() {
    let op = beta_operator_fixture();
    let vector: Vec<f64> =
        (0..12).map(|i| ((i as f64) * 0.37).sin() + (i as f64) / 7.0).collect();

    let expected = beta_operator_apply_serially(&op, &vector);
    let mut actual = floats(&[0.0; 12]);
    op.apply(&floats(&vector), &mut actual);

    for index in 0..12 {
        assert_eq!(
            actual[index].0.to_bits(),
            expected[index].to_bits(),
            "entry {index}: fan-out {} is not bit-identical to serial {}",
            actual[index].0,
            expected[index]
        );
    }
    assert!(
        expected.iter().any(|v| v.abs() > 1e-6),
        "fixture produced an all-zero reference, so the comparison proves nothing"
    );
}

#[test]
fn beta_operator_fan_out_is_stable_across_repeated_application() {
    let op = beta_operator_fixture();
    let vector: Vec<f64> = (0..12).map(|i| 1.0 / (i as f64 + 1.3)).collect();
    let mut first = floats(&[0.0; 12]);
    op.apply(&floats(&vector), &mut first);
    for _ in 0..8 {
        let mut again = floats(&[0.0; 12]);
        op.apply(&floats(&vector), &mut again);
        for index in 0..12 {
            assert_eq!(again[index].0.to_bits(), first[index].0.to_bits());
        }
    }
}

/// The penalty has rank two and the null direction `e3`; the Gram is full rank.
fn penalized_solve_fixture() -> (Matrix<F64>, Matrix<F64>, Matrix<F64>) {
    let penalty = matrix(&[&[2.0, -1.0, 0.0], &[-1.0, 2.0, 0.0], &[0.0, 0.0, 0.0]]);
    let gram = matrix(&[&[3.0, 1.0, 0.5], &[1.0, 4.0, 0.25], &[0.5, 0.25, 2.0]]);
    let rhs = matrix(&[&[1.0], &[2.0], &[3.0]]);
    (gram, penalty, rhs)
}

fn assembled(gram: &Matrix<F64>, penalty: &Matrix<F64>, lambda: f64) -> Matrix<F64> {
    let mut out = gram.copy();
    for i in 0..gram.row_count() {
        for j in 0..gram.col_count() {
            out.set(i, j, F64(penalty.get(i, j).0 * lambda + gram.get(i, j).0));
        }
    }
    out
}

#[test]
fn penalized_solve_survives_the_smoothing_fellner_schall_actually_produces() {
    let (gram, penalty, rhs) = penalized_solve_fixture();
    let lambda = 2.2e16;

    let assembled_result = minimum_norm(&assembled(&gram, &penalty, lambda), &rhs);
    assert!(
        assembled_result.is_err(),
        "assembling G + lambda*S was expected to lose null(S) to its own rank floor, \
         but it returned {assembled_result:?}"
    );

    let solved = penalized(&gram, &penalty, F64(lambda), &rhs)
        .expect("the lambda-free scaling must solve what the assembled matrix could not");

    // The penalty annihilates everything outside null(S) = span(e3), so
    // beta = e3 * (rhs_3 / G_33) = e3 * 3/2.
    let at = |i: usize| solved.get(i, 0).0;
    assert!(at(0).abs() < 1e-9, "range(S) must be driven to zero, got {}", at(0));
    assert!(at(1).abs() < 1e-9, "range(S) must be driven to zero, got {}", at(1));
    assert!(
        (at(2) - 1.5).abs() < 1e-9,
        "null(S) must keep its unpenalised least squares value 1.5, got {}",
        at(2)
    );
}

#[test]
fn penalized_solve_agrees_with_the_assembled_matrix_where_that_is_conditioned() {
    let (gram, penalty, rhs) = penalized_solve_fixture();
    for lambda in [0.0, 1e-3, 1.0, 25.0, 1e4] {
        let reference = minimum_norm(&assembled(&gram, &penalty, lambda), &rhs)
            .expect("well-conditioned assembled solve");
        let solved = penalized(&gram, &penalty, F64(lambda), &rhs)
            .expect("well-conditioned scaled solve");
        for index in 0..3 {
            let (s, r) = (solved.get(index, 0).0, reference.get(index, 0).0);
            let gap = (s - r).abs();
            assert!(
                gap < 1e-9 * r.abs().max(1.0),
                "lambda={lambda} entry {index}: scaled {s} vs assembled {r}"
            );
        }
    }
}

#[test]
fn direct_reconstruction_uses_only_heterogeneous_support() {
    let charts = [Chart::Circle, Chart::Plane];
    let atoms = vec![
        Chart::Circle.atom(&[&[0.0], &[1.0], &[0.0]]),
        Chart::Plane.atom(&[&[0.0], &[2.0], &[-1.0]]),
    ];
    let specs = charts.iter().map(|chart| chart.spec()).collect();
    let state = SaeAssignmentState::from_topk_support_heterogeneous(
        2,
        2,
        1,
        specs,
        vec![vec![0], vec![1]],
        vec![floats(&[9.0]), floats(&[-4.0])],
        vec![floats(&[0.25]), floats(&[3.0, 1.0])],
    )
    .expect("state");
    let term = Term::new(atoms, state).expect("term");
    let fitted = term.reconstruct(&table(&term, &charts));
    assert!((fitted.get(0, 0).0 - 1.0).abs() < 1.0e-12);
    assert!((fitted.get(1, 0).0 - 5.0).abs() < 1.0e-12);
    assert_eq!(term.active_pair_count(), 2);
}

/// A one-atom term on three rows.
fn single_linear_atom_term() -> (Term, Matrix<F64>) {
    let term = term_of(
        &[Chart::Line],
        vec![Chart::Line.atom(&[&[0.0, 0.0], &[0.0, 0.0]])],
        1,
        vec![vec![0]; 3],
        vec![floats(&[-1.0]), floats(&[0.0]), floats(&[1.0])],
    );
    let target = matrix(&[&[-1.0, 0.5], &[0.0, 0.0], &[1.0, -0.5]]);
    (term, target)
}

#[test]
fn a_decoder_that_cannot_be_indexed_is_refused_not_aborted() {
    let (term, _) = single_linear_atom_term();
    let full = term.atom(0).decoder_coefficients();
    assert_eq!((full.row_count(), full.col_count()), (2, 2));

    for (label, rows, cols) in
        [("one row short", 1, 2), ("one column short", 2, 1), ("one row too many", 3, 2)]
    {
        let broken = Matrix::constant(rows, cols, F64(0.0));
        let mut atom = term.atom(0).copy();
        let error = atom.set_decoder_coefficients(broken).expect_err(label);
        assert_eq!(
            error,
            AtomError::DecoderShape { rows, cols, basis_width: 2, output_dim: 2 },
            "{label}"
        );
        // The refusal is total: the atom keeps the decoder it had.
        assert_eq!(entries(atom.decoder_coefficients()), entries(full), "{label}");
        assert_eq!(atom.decoder_coefficients().row_count(), 2, "{label}");
    }
}

#[test]
fn the_support_term_door_refuses_an_atom_whose_decoder_misses_its_basis() {
    let (term, target) = single_linear_atom_term();
    let narrowed = SaeManifoldAtom::new(
        SaeAtomBasisKind::Linear,
        1,
        1,
        true,
        term.atom(0).decoder_coefficients().copy(),
        term.atom(0).smooth_penalty().copy(),
    );
    let state = SaeAssignmentState::from_topk_support_heterogeneous(
        3,
        1,
        1,
        vec![Chart::Line.spec()],
        vec![vec![0]; 3],
        vec![floats(&[1.0]); 3],
        vec![floats(&[-1.0]), floats(&[0.0]), floats(&[1.0])],
    )
    .expect("state");
    let error = Term::new(vec![narrowed], state)
        .expect_err("an atom whose decoder overruns its basis is not indexable");
    assert_eq!(
        error,
        TermError::AtomShape {
            atom: 0,
            error: AtomError::DecoderShape { rows: 2, cols: 2, basis_width: 1, output_dim: 2 },
        }
    );

    // The untampered term still evaluates.
    let charts = [Chart::Line];
    let ard = vec![floats(&[1.0])];
    term.raw_stationarity(
        &target,
        &floats(&[0.1]),
        &ard,
        &table(&term, &charts),
        &priors(&term, &ard),
    )
    .expect("a well-formed term still evaluates");
}

/// Two atoms active on every row, so that the alternating map is coupled: each
/// atom's decoder block is solved against a residual the other is about to move.
fn coupled_two_atom_fixture() -> (Term, Matrix<F64>) {
    let rows = 24usize;
    let atoms = vec![
        Chart::Line.atom(&[&[0.10, -0.05], &[0.90, 0.20]]),
        Chart::Line.atom(&[&[-0.05, 0.10], &[0.20, 0.85]]),
    ];
    let coords = (0..rows)
        .map(|row| {
            let t = row as f64 / rows as f64;
            floats(&[t - 0.5, 0.5 - t])
        })
        .collect();
    let term = term_of(&[Chart::Line, Chart::Line], atoms, 2, vec![vec![0, 1]; rows], coords);
    let mut target = Matrix::constant(rows, 2, F64(0.0));
    for row in 0..rows {
        let t = row as f64 / rows as f64;
        // Not in the dictionary's span: a curved response that two straight
        // decoders must trade against each other to fit.
        target.set(row, 0, F64((3.0 * t).sin() + 0.20 * t));
        target.set(row, 1, F64((2.0 * t).cos() - 0.15 * t * t));
    }
    (term, target)
}

const LINES: [Chart; 2] = [Chart::Line, Chart::Line];

#[test]
fn fista_decoder_descends_the_coupled_objective() {
    let (mut exact, target) = coupled_two_atom_fixture();
    let (mut fista, _) = coupled_two_atom_fixture();
    let lambda = floats(&[0.1, 0.1]);
    let ard = vec![floats(&[1.0e-8]), floats(&[1.0e-8])];
    let before = objective(&exact, &LINES, &target, &lambda, &ard);
    let mut fitted_exact = exact.reconstruct(&table(&exact, &LINES));
    decoder_sweep(&mut exact, &LINES, &target, &lambda, &mut fitted_exact);
    let exact_after = objective(&exact, &LINES, &target, &lambda, &ard);
    let mut fitted_fista = fista.reconstruct(&table(&fista, &LINES));
    fista_sweep(&mut fista, &LINES, &target, &lambda, &mut fitted_fista, 6);
    let fista_after = objective(&fista, &LINES, &target, &lambda, &ard);
    assert!(fista_after < before, "FISTA must descend: {before} -> {fista_after}");
    let gap = (fista_after - exact_after) / exact_after.abs().max(1.0);
    assert!(
        gap < 0.05,
        "six FISTA passes should reach the exact sweep neighbourhood: \
         exact {exact_after}, fista {fista_after}, relative gap {gap}"
    );
    // The maintained fitted matrix must remain exact for the state.
    let fresh = fista.reconstruct(&table(&fista, &LINES));
    let drift = entries(&fitted_fista)
        .iter()
        .zip(entries(&fresh).iter())
        .map(|(a, b)| (a - b).abs())
        .fold(0.0_f64, f64::max);
    assert!(drift < 1.0e-10, "fitted-state drift {drift}");
}

#[test]
fn fista_descends_where_the_first_row_couples_least() {
    let charts = [Chart::Line, Chart::Line, Chart::Line];
    let rows = 40usize;
    let atoms = vec![
        Chart::Line.atom(&[&[0.0], &[0.1]]),
        Chart::Line.atom(&[&[0.0], &[0.1]]),
        Chart::Line.atom(&[&[0.0], &[0.1]]),
    ];
    let place = |row: usize| 0.5 + row as f64 / 10.0;
    let supports: Vec<Vec<u32>> =
        (0..rows).map(|row| if row == 0 { vec![0] } else { vec![0, 1, 2] }).collect();
    let coords = supports
        .iter()
        .enumerate()
        .map(|(row, support)| vec![F64(place(row)); support.len()])
        .collect();
    let mut target = Matrix::constant(rows, 1, F64(0.0));
    for row in 0..rows {
        target.set(row, 0, F64(2.0 * place(row) + 1.0));
    }
    let lambda = floats(&[0.1, 0.1, 0.1]);
    let ard = vec![floats(&[1.0e-8]), floats(&[1.0e-8]), floats(&[1.0e-8])];
    for passes in [1, 2, 6] {
        let mut term =
            term_of(&charts, atoms.iter().map(|atom| atom.copy()).collect(), 3, supports.clone(), {
                let kept: &Vec<Vec<F64>> = &coords;
                kept.clone()
            });
        let before = objective(&term, &charts, &target, &lambda, &ard);
        let mut fitted = term.reconstruct(&table(&term, &charts));
        fista_sweep(&mut term, &charts, &target, &lambda, &mut fitted, passes);
        let after = objective(&term, &charts, &target, &lambda, &ard);
        assert!(after < before, "{passes} passes: {before} -> {after}");
    }
}

/// Drives the plain alternation under the certificate of the accelerated solve, and
/// tells the cycle it recurs on.
fn plain_cycles_to_recur(
    term: &mut Term,
    charts: &[Chart],
    target: &Matrix<F64>,
    lambda: &Vec<F64>,
    ard: &Vec<Vec<F64>>,
    max_iter: usize,
    tolerance: f64,
    radius: f64,
) -> Option<usize> {
    let mut previous_candidate = false;
    let mut last_objective: Option<f64> = None;
    for iteration in 1..=max_iter {
        let mut fitted = term.reconstruct(&table(term, charts));
        decoder_sweep(term, charts, target, lambda, &mut fitted);
        coordinate_sweep(term, charts, target, ard, radius, tolerance, &mut fitted);
        let residual = difference(target, &term.reconstruct(&table(term, charts)));
        let found = measured(term, charts, &residual, lambda, ard, 0.0);
        let objective = found.objective.0;
        let scale = objective.abs().max(1.0);
        let recurred = last_objective
            .map(|previous: f64| (objective - previous).abs() <= tolerance * scale)
            .unwrap_or(false);
        last_objective = Some(objective);
        let candidate = recurred && found.stationarity.scaled_max_abs().0 <= tolerance;
        if candidate && previous_candidate {
            return Some(iteration);
        }
        previous_candidate = candidate;
    }
    None
}

#[test]
fn a_solve_is_certified_at_a_stationary_point() {
    let tolerance = 1.0e-4;
    let charts = [Chart::Line];
    let lambda = floats(&[1.0e-2]);
    let ard = vec![floats(&[1.0e-1])];
    let build = || {
        term_of(
            &charts,
            vec![Chart::Line.atom(&[&[0.0, 0.0], &[3.0, 1.0]])],
            1,
            vec![vec![0]; 5],
            (0..5).map(|row| floats(&[row as f64 - 2.0])).collect(),
        )
    };
    let mut term = build();
    let mut target = Matrix::constant(5, 2, F64(0.0));
    for row in 0..5 {
        let t = row as f64 - 2.0;
        target.set(row, 0, F64(3.0 * t + 0.5 * t * t));
        target.set(row, 1, F64(t - 1.5 * t * t));
    }
    let before = objective(&term, &charts, &target, &lambda, &ard);
    let report = fixed_point(&mut term, &charts, &target, &lambda, &ard, 1000, tolerance, 1.0)
        .expect("the fixed point recurs");
    assert!(report.recurred);
    assert!(report.iterations >= 3);
    let found = term
        .raw_stationarity(
            &target,
            &lambda,
            &ard,
            &table(&term, &charts),
            &priors(&term, &ard),
        )
        .expect("kkt");
    assert!(found.scaled_max_abs().0 <= tolerance);
    assert_eq!(found.scaled_max_abs(), report.stationarity.scaled_max_abs());
    let after = objective(&term, &charts, &target, &lambda, &ard);
    assert_eq!(after, report.objective.0);
    assert!(after < before);
    // The raw gradient meets the same bar on the objective's scale, and the plain
    // alternation comes to the same point in no fewer cycles.
    let scale = after.abs().max(1.0);
    assert!(found.max_abs().0 <= tolerance * scale, "{:?} > {}", found, tolerance * scale);
    let mut plain = build();
    let cycles =
        plain_cycles_to_recur(&mut plain, &charts, &target, &lambda, &ard, 1000, tolerance, 1.0)
            .expect("the plain alternation recurs");
    let plain_after = objective(&plain, &charts, &target, &lambda, &ard);
    assert!((after - plain_after).abs() <= tolerance * scale, "{after} vs {plain_after}");
    assert!(report.iterations <= cycles, "{} vs plain {cycles}", report.iterations);
    // With the decoders held fixed, the certified coordinates stay where they are.
    let frozen = coordinate_solve(&mut term, &charts, &target, &ard, 10, tolerance, 1.0)
        .expect("coordinates recur");
    assert_eq!(frozen.iterations, 3);
    assert_eq!(frozen.max_recurrence_change, F64(0.0));
}

#[test]
fn decoder_sweep_decreases_final_function_objective() {
    let charts = [Chart::Line];
    let mut term = term_of(
        &charts,
        vec![Chart::Line.atom(&[&[0.0], &[0.0]])],
        1,
        vec![vec![0]; 3],
        vec![floats(&[-1.0]), floats(&[0.0]), floats(&[1.0])],
    );
    let target = matrix(&[&[-1.0], &[0.0], &[1.0]]);
    let ard = vec![floats(&[1.0])];
    let lambda = floats(&[0.1]);
    let before = objective(&term, &charts, &target, &lambda, &ard);
    let mut fitted = term.reconstruct(&table(&term, &charts));
    decoder_sweep(&mut term, &charts, &target, &lambda, &mut fitted);
    let after = objective(&term, &charts, &target, &lambda, &ard);
    assert!(after < before);
    let kkt = term
        .raw_stationarity(
            &target,
            &lambda,
            &ard,
            &table(&term, &charts),
            &priors(&term, &ard),
        )
        .expect("kkt");
    assert!(kkt.decoder_max_abs.0 < 1.0e-10);
}

/// A penalty with a one-dimensional null space, spanned by `(1, 1)`, and a Gram
/// with mass in that direction.
fn fixture() -> (Matrix<F64>, Matrix<F64>) {
    (matrix(&[&[2.0, 0.5], &[0.5, 1.0]]), matrix(&[&[1.0, -1.0], &[-1.0, 1.0]]))
}

const LAMBDAS: [f64; 9] =
    [0.0, 1.0e-8, 1.0, 1.0e6, 1.0e12, 6.339e15, 1.0e30, 1.0e100, 1.0e230];

#[test]
fn penalized_trace_stays_a_degrees_of_freedom_at_every_lambda_2502() {
    let (gram, penalty) = fixture();
    let m = gram.row_count() as f64;
    let mut previous = f64::INFINITY;
    for lambda in LAMBDAS {
        let (trace, null_dim) = census(&gram, &penalty, F64(lambda));
        let (trace, null_dim) = (trace.0, null_dim.0);
        assert_eq!(null_dim, 1.0, "the penalty has a one-dimensional null space");
        assert!(
            trace <= m + 1.0e-9,
            "lambda*S is PSD so every mode contributes at most one: \
             trace {trace} exceeds m {m} at lambda {lambda:e}"
        );
        assert!(
            trace >= null_dim - 1.0e-9,
            "the modes spanning null(S) contribute one each: trace {trace} fell \
             below null_dim {null_dim} at lambda {lambda:e}"
        );
        assert!(
            trace <= previous + 1.0e-9,
            "shrinkage is monotone: trace rose from {previous} to {trace} at lambda {lambda:e}"
        );
        previous = trace;
    }
}

#[test]
fn penalized_trace_reaches_both_limits_exactly_2502() {
    let (gram, penalty) = fixture();

    // No penalty: the fit spends every basis direction it has.
    let (unpenalized, null_dim) = census(&gram, &penalty, F64(0.0));
    assert!(
        (unpenalized.0 - gram.row_count() as f64).abs() < 1.0e-9,
        "at lambda = 0 the trace is m, got {}",
        unpenalized.0
    );

    // Overwhelming penalty: only the null space survives.
    let (railed, _) = census(&gram, &penalty, F64(1.0e230));
    assert!(
        (railed.0 - null_dim.0).abs() < 1.0e-9,
        "at overwhelming lambda the trace is null_dim ({}), got {}",
        null_dim.0,
        railed.0
    );
}

#[test]
fn the_solve_refuses_what_it_cannot_begin_with() {
    let (term, target) = coupled_two_atom_fixture();
    let short = Matrix::constant(3, 2, F64(0.0));
    assert!(matches!(
        term.solve_fixed_point(&short, 10, F64(1.0e-6)),
        Err(SolveFault::Target(_))
    ));
    assert!(matches!(
        term.solve_fixed_point(&target, 0, F64(1.0e-6)),
        Err(SolveFault::Budget)
    ));
    assert!(matches!(
        term.solve_fixed_point(&target, 10, F64(0.0)),
        Err(SolveFault::Budget)
    ));
    assert!(matches!(
        term.solve_coordinates_fixed_decoder(&target, 10, F64(f64::NAN)),
        Err(SolveFault::Budget)
    ));
    let solve = term.solve_fixed_point(&target, 10, F64(1.0e-6)).expect("begins");
    assert_eq!(solve.support_k, 2);
}

#[test]
fn a_state_names_what_it_is_refused_for() {
    let build = |n: usize, indices: Vec<Vec<u32>>, gates: Vec<Vec<F64>>, coords: Vec<Vec<F64>>| {
        SaeAssignmentState::from_topk_support_heterogeneous(
            n,
            1,
            1,
            vec![Chart::Line.spec()],
            indices,
            gates,
            coords,
        )
        .err()
    };
    let one = || vec![floats(&[1.0])];
    assert_eq!(build(1, vec![vec![0]], one(), one()), None);
    assert_eq!(build(2, vec![vec![0]], one(), one()), Some(AssignmentError::CountMismatch));
    assert_eq!(
        build(1, vec![vec![1]], one(), one()),
        Some(AssignmentError::UnknownAtom { row: 0, slot: 0 })
    );
    assert_eq!(
        build(1, vec![vec![0]], vec![vec![]], one()),
        Some(AssignmentError::GateWidth { row: 0 })
    );
    assert_eq!(
        build(1, vec![vec![0]], one(), vec![floats(&[1.0, 2.0])]),
        Some(AssignmentError::CoordinateWidth { row: 0 })
    );
    let spec = SaeAssignmentAtomSpec { latent_dim: 1, axis_periods: vec![None, None] };
    assert_eq!(
        SaeAssignmentState::<F64>::from_topk_support_heterogeneous(
            1,
            1,
            1,
            vec![spec],
            vec![vec![0]],
            one(),
            one(),
        )
        .err(),
        Some(AssignmentError::AxisCount { atom: 0 })
    );
}

/// A line used on every row, a circle used on three, and a line nobody uses.
fn mixed_term() -> (Term, [Chart; 3]) {
    let charts = [Chart::Line, Chart::Circle, Chart::Line];
    let atoms = vec![
        Chart::Line.atom(&[&[0.5, 0.0], &[2.0, -1.0]]),
        Chart::Circle.atom(&[&[0.0, 0.0], &[1.0, 0.0], &[0.0, 1.0]]),
        Chart::Line.atom(&[&[0.0, 0.0], &[1.0, 1.0]]),
    ];
    let term = term_of(
        &charts,
        atoms,
        2,
        vec![vec![0, 1], vec![0, 1], vec![0], vec![0, 1]],
        vec![
            floats(&[0.5, 0.1]),
            floats(&[-0.5, 0.95]),
            floats(&[1.0]),
            floats(&[0.25, 0.05]),
        ],
    );
    (term, charts)
}

fn mixed_target() -> Matrix<F64> {
    matrix(&[&[1.0, 2.0], &[0.5, -1.0], &[3.0, 0.25], &[-2.0, 1.0]])
}

fn mixed_ard() -> Vec<Vec<F64>> {
    vec![floats(&[0.5]), floats(&[0.25]), floats(&[1.0])]
}

fn close(found: f64, expected: f64) {
    assert!(
        (found - expected).abs() <= 1.0e-12 * expected.abs().max(1.0),
        "{found} is not {expected}"
    );
}

#[test]
fn an_atoms_uses_are_the_slots_that_name_it() {
    let (term, _) = mixed_term();
    assert_eq!(term.rows_of_atom(0), &vec![(0, 0), (1, 0), (2, 0), (3, 0)]);
    assert_eq!(term.rows_of_atom(1), &vec![(0, 1), (1, 1), (3, 1)]);
    assert!(term.rows_of_atom(2).is_empty());
    assert_eq!(term.active_pair_count(), 7);
    assert_eq!(term.beta_layout(), Ok((vec![0, 4, 10], 14)));
    assert_eq!((term.n_obs(), term.k_atoms(), term.output_dim()), (4, 3, 2));
    assert_eq!(term.atom_basis_size(1), 3);
}

#[test]
fn coordinates_are_put_back_as_they_were() {
    let (mut term, _) = mixed_term();
    assert_eq!(term.coordinate_state_len(), 7);
    let mut before = Vec::new();
    term.snapshot_coordinates(&mut before);
    assert_eq!(before, floats(&[0.5, 0.1, -0.5, 0.95, 1.0, 0.25, 0.05]));
    let moved = floats(&[0.0, 0.9, 1.0, 0.05, 2.0, 3.0, 0.25]);
    term.install_coordinates(&moved).expect("state width");
    let mut after = Vec::new();
    term.snapshot_coordinates(&mut after);
    assert_eq!(after, moved);
    let mut change = Vec::new();
    term.wrapped_coordinate_residual(&before, &after, &mut change);
    let expected = [-0.5, -0.2, 1.5, 0.1, 1.0, 2.75, 0.2];
    for (found, expected) in change.iter().zip(expected) {
        close(found.0, expected);
    }
    term.install_coordinates(&before).expect("state width");
    term.snapshot_coordinates(&mut after);
    assert_eq!(after, before);
    assert!(term.install_coordinates(&floats(&[1.0])).is_err());
    assert!(term.install_coordinates(&floats(&[1.0; 8])).is_err());
}

#[test]
fn atoms_of_a_class_share_no_row() {
    let charts = [Chart::Line; 4];
    let atoms = (0..4).map(|_| Chart::Line.atom(&[&[0.0], &[1.0]])).collect();
    let term = term_of(
        &charts,
        atoms,
        2,
        vec![vec![0, 1], vec![1, 2], vec![3]],
        vec![floats(&[0.0, 0.0]), floats(&[0.0, 0.0]), floats(&[0.0])],
    );
    let classes = term.decoder_conflict_colors();
    let mut seen: Vec<usize> = classes.iter().flatten().copied().collect();
    seen.sort();
    assert_eq!(seen, vec![0, 1, 2, 3]);
    assert_eq!(classes.len(), 2);
    for class in &classes {
        assert!(!(class.contains(&0) && class.contains(&1)));
        assert!(!(class.contains(&1) && class.contains(&2)));
    }
}

#[test]
fn the_objective_is_loss_roughness_and_prior() {
    let (term, charts) = mixed_term();
    let target = mixed_target();
    let lambda = floats(&[0.1, 0.2, 0.3]);
    let ard = mixed_ard();
    let fitted = term.reconstruct(&table(&term, &charts));
    let loss: f64 = entries(&target)
        .iter()
        .zip(entries(&fitted))
        .map(|(y, f)| (y - f) * (y - f))
        .sum::<f64>()
        * 0.5;
    let rough = |decoder: &[f64]| decoder.iter().map(|v| v * v).sum::<f64>();
    let smooth = 0.5
        * (0.1 * rough(&[0.5, 2.0, -1.0]) + 0.2 * rough(&[1.0, 1.0]) + 0.3 * rough(&[1.0, 1.0]));
    let prior_sum: f64 =
        priors(&term, &ard).iter().flatten().flatten().map(|term| term.value.0).sum();
    close(objective(&term, &charts, &target, &lambda, &ard), loss + smooth + prior_sum);
}

#[test]
fn the_stationarity_is_the_objectives_slope() {
    let (mut term, charts) = mixed_term();
    let target = mixed_target();
    let lambda = floats(&[0.1, 0.2, 0.3]);
    let ard = mixed_ard();
    let found = term
        .raw_stationarity(
            &target,
            &lambda,
            &ard,
            &table(&term, &charts),
            &priors(&term, &ard),
        )
        .expect("kkt");
    let h = 1.0e-6;
    let mut worst_decoder = 0.0_f64;
    for atom in 0..3 {
        let start = term.atom(atom).decoder_coefficients().copy();
        for b in 0..start.row_count() {
            for c in 0..2 {
                let mut at = |shift: f64| {
                    let mut moved = start.copy();
                    moved.set(b, c, F64(start.get(b, c).0 + shift));
                    term.set_decoder_coefficients(atom, moved).expect("shape");
                    objective(&term, &charts, &target, &lambda, &ard)
                };
                let slope = (at(h) - at(-h)) / (2.0 * h);
                worst_decoder = worst_decoder.max(slope.abs());
            }
        }
        term.set_decoder_coefficients(atom, start).expect("shape");
    }
    assert!((worst_decoder - found.decoder_max_abs.0).abs() < 1.0e-6);
    let mut start = Vec::new();
    term.snapshot_coordinates(&mut start);
    let mut worst_coordinate = 0.0_f64;
    for i in 0..start.len() {
        let mut at = |shift: f64| {
            let mut moved = start.clone();
            moved[i] = F64(start[i].0 + shift);
            term.install_coordinates(&moved).expect("width");
            objective(&term, &charts, &target, &lambda, &ard)
        };
        let slope = (at(h) - at(-h)) / (2.0 * h);
        worst_coordinate = worst_coordinate.max(slope.abs());
    }
    term.install_coordinates(&start).expect("width");
    assert!((worst_coordinate - found.coordinate_max_abs.0).abs() < 1.0e-5);
    let (l2, max) = term
        .raw_coordinate_stationarity(&target, &ard, &table(&term, &charts), &priors(&term, &ard))
        .expect("slopes");
    close(l2.0, found.coordinate_l2.0);
    close(max.0, found.coordinate_max_abs.0);
}

#[test]
fn the_assembled_system_carries_the_gradient_and_the_products() {
    let (term, charts) = mixed_term();
    let target = mixed_target();
    let lambda = floats(&[0.1, 0.2, 0.3]);
    let ard = mixed_ard();
    let evals = table(&term, &charts);
    let energies = priors(&term, &ard);
    let system = term
        .assemble_arrow_schur(&target, &lambda, &ard, &evals, &energies)
        .expect("arrow system");
    assert_eq!(system.block_offsets, vec![(0, 4), (4, 10), (10, 14)]);
    assert_eq!(system.rows.len(), 4);
    assert_eq!(system.rows[2].gt.len(), 1);
    let found = gradient(&system);
    assert_eq!(found.t.len(), 7);
    let kkt = term
        .raw_stationarity(&target, &lambda, &ard, &evals, &energies)
        .expect("kkt");
    let largest = |values: &[F64]| values.iter().fold(0.0_f64, |acc, v| acc.max(v.0.abs()));
    assert!((largest(&found.t) - kkt.coordinate_max_abs.0).abs() < 1.0e-12);
    assert!((largest(&found.beta) - kkt.decoder_max_abs.0).abs() < 1.0e-12);
    // The diagonal of the decoder block is what unit vectors are mapped to.
    for i in 0..14 {
        let mut unit = floats(&[0.0; 14]);
        unit[i] = F64(1.0);
        let mut image = floats(&[0.0; 14]);
        system.operator.apply(&unit, &mut image);
        close(image[i].0, system.hbb_diag[i].0);
    }
    // The coupling and its transpose are adjoint.
    let beta: Vec<F64> = (0..14).map(|i| F64(0.3 * i as f64 - 1.0)).collect();
    let tangent = floats(&[0.7, -1.3]);
    let mut forward = floats(&[0.0; 2]);
    system.operator.htbeta_forward(0, &beta, &mut forward);
    let mut back = floats(&[0.0; 14]);
    system.operator.htbeta_transpose(0, &tangent, &mut back);
    let dot = |a: &[F64], b: &[F64]| a.iter().zip(b).map(|(x, y)| x.0 * y.0).sum::<f64>();
    close(dot(&forward, &tangent), dot(&beta, &back));

    assert!(matches!(
        term.assemble_arrow_schur(
            &Matrix::constant(1, 2, F64(0.0)),
            &lambda,
            &ard,
            &evals,
            &energies
        ),
        Err(ArrowError::Shape(_))
    ));
    let exempt = vec![floats(&[0.0]), floats(&[0.25]), floats(&[1.0])];
    assert!(matches!(
        term.assemble_arrow_schur(&target, &lambda, &exempt, &evals, &energies),
        Err(ArrowError::Hyper(HyperFault::ArdBlock { atom: 0 }))
    ));
}

#[test]
fn hyperparameters_are_checked_by_name() {
    let (term, charts) = mixed_term();
    assert_eq!(
        term.validate_smoothing(&floats(&[0.1])),
        Err(HyperFault::SmoothingLength { found: 1, expected: 3 })
    );
    assert_eq!(
        term.validate_smoothing(&floats(&[0.1, -0.1, 0.1])),
        Err(HyperFault::SmoothingValue)
    );
    assert_eq!(
        term.validate_ard(&vec![floats(&[1.0])]),
        Err(HyperFault::ArdLength { found: 1, expected: 3 })
    );
    assert_eq!(
        term.validate_ard(&vec![floats(&[1.0]), floats(&[1.0, 1.0]), floats(&[1.0])]),
        Err(HyperFault::ArdBlock { atom: 1 })
    );
    assert_eq!(
        term.validate_ard(&vec![floats(&[1.0]), floats(&[0.0]), floats(&[f64::NAN])]),
        Err(HyperFault::ArdBlock { atom: 2 })
    );
    assert_eq!(term.validate_ard(&vec![floats(&[1.0]), floats(&[0.0]), floats(&[1.0])]), Ok(()));
    // Only an exact zero exempts an axis.
    assert_eq!(
        term.validate_ard(&vec![floats(&[5.0e-324]), floats(&[0.0]), floats(&[1.0])]),
        Err(HyperFault::ArdBlock { atom: 0 })
    );
    assert_eq!(
        term.validate_ard(&vec![floats(&[f64::MIN_POSITIVE]), floats(&[0.0]), floats(&[1.0])]),
        Ok(())
    );
    let ard = mixed_ard();
    let lambda = floats(&[0.1, 0.2, 0.3]);
    let evals = table(&term, &charts);
    let energies = priors(&term, &ard);
    let wide = Matrix::constant(4, 3, F64(0.0));
    assert!(matches!(
        term.penalized_objective(&wide, &evals, &lambda, &ard, &energies, codes(4)),
        Err(ObjectiveError::Shape(_))
    ));
    assert!(matches!(
        term.penalized_objective(
            &mixed_target(),
            &evals,
            &floats(&[0.1]),
            &ard,
            &energies,
            codes(4)
        ),
        Err(ObjectiveError::Hyper(_))
    ));
    let infinite = Matrix::constant(4, 2, F64(f64::INFINITY));
    assert!(matches!(
        term.penalized_objective(&infinite, &evals, &lambda, &ard, &energies, codes(4)),
        Err(ObjectiveError::NonFinite)
    ));
    assert!(matches!(
        term.raw_stationarity(&wide, &lambda, &ard, &evals, &energies),
        Err(StationarityError::Shape(_))
    ));
    assert!(matches!(
        term.raw_stationarity(&mixed_target(), &floats(&[0.1]), &ard, &evals, &energies),
        Err(StationarityError::Hyper(_))
    ));
    assert!(matches!(term.check_sweep(&lambda, &wide), Err(SweepError::Shape(_))));
    assert!(matches!(
        term.check_sweep(&floats(&[0.1]), &mixed_target()),
        Err(SweepError::Hyper(_))
    ));
    assert!(matches!(
        term.check_coordinate_sweep(&ard, F64(0.0), F64(1.0)),
        Err(CoordinateSweepError::TrustRadius)
    ));
    assert!(matches!(
        term.check_coordinate_sweep(&ard, F64(1.0), F64(f64::INFINITY)),
        Err(CoordinateSweepError::Tolerance)
    ));
    assert!(matches!(
        term.check_coordinate_sweep(&vec![], F64(1.0), F64(1.0)),
        Err(CoordinateSweepError::Hyper(_))
    ));
    assert!(matches!(
        term.raw_residual(&wide, &evals),
        Err(ShapeError { found: (4, 3), expected: (4, 2) })
    ));
}

#[test]
fn a_term_names_what_it_is_refused_for() {
    let state = |top_k: usize, supports: Vec<Vec<u32>>| {
        let coords = supports.iter().map(|s| vec![F64(0.0); s.len()]).collect();
        let gates = supports.iter().map(|s| vec![F64(1.0); s.len()]).collect();
        SaeAssignmentState::from_topk_support_heterogeneous(
            supports.len(),
            2,
            top_k,
            vec![Chart::Line.spec(), Chart::Line.spec()],
            supports,
            gates,
            coords,
        )
        .expect("state")
    };
    let line = || Chart::Line.atom(&[&[0.0], &[1.0]]);
    let good = || state(1, vec![vec![0], vec![1]]);
    assert!(Term::new(vec![line(), line()], good()).is_ok());
    assert_eq!(
        Term::new(vec![line()], good()).err(),
        Some(TermError::AtomCount { atoms: 1, assigned: 2 })
    );
    let wide = Chart::Line.atom(&[&[0.0, 0.0], &[1.0, 1.0]]);
    assert_eq!(
        Term::new(vec![line(), wide], good()).err(),
        Some(TermError::AtomOutput { atom: 1, found: 2, expected: 1 })
    );
    let plane = Chart::Plane.atom(&[&[0.0], &[1.0], &[1.0]]);
    assert_eq!(
        Term::new(vec![line(), plane], good()).err(),
        Some(TermError::AtomDim { atom: 1, found: 2, expected: 1 })
    );
    let mute = SaeManifoldAtom::new(
        SaeAtomBasisKind::Linear,
        1,
        2,
        false,
        matrix(&[&[0.0], &[1.0]]),
        identity(2),
    );
    assert_eq!(
        Term::new(vec![mute, line()], good()).err(),
        Some(TermError::NoEvaluator { atom: 0 })
    );
    let rough = SaeManifoldAtom::new(
        SaeAtomBasisKind::Linear,
        1,
        2,
        true,
        matrix(&[&[0.0], &[1.0]]),
        identity(3),
    );
    assert_eq!(
        Term::new(vec![line(), rough], good()).err(),
        Some(TermError::AtomShape {
            atom: 1,
            error: AtomError::PenaltyShape { rows: 3, cols: 3, basis_width: 2 },
        })
    );
    assert_eq!(
        Term::new(vec![line(), line()], state(1, vec![vec![0], vec![0, 1]])).err(),
        Some(TermError::SupportWidth { row: 1, width: 2, top_k: 1 })
    );
    assert_eq!(
        Term::new(vec![line(), line()], state(1, vec![vec![]])).err(),
        Some(TermError::SupportWidth { row: 0, width: 0, top_k: 1 })
    );
    let silent =
        || SaeManifoldAtom::new(
            SaeAtomBasisKind::Linear,
            1,
            2,
            true,
            Matrix::constant(2, 0, F64(0.0)),
            identity(2),
        );
    assert_eq!(Term::new(vec![silent(), silent()], good()).err(), Some(TermError::NoOutput));
}

#[test]
fn an_atom_is_decoded_at_given_basis_rows() {
    let (term, _) = mixed_term();
    let images =
        term.decode_atom_at(0, 1, &vec![floats(&[1.0, 0.0]), floats(&[1.0, 2.0])]).unwrap();
    assert_eq!(images, vec![floats(&[0.5, 0.0]), floats(&[4.5, -2.0])]);
    assert_eq!(
        term.decode_atom_at(9, 1, &vec![]),
        Err(DecodeError::AtomRange { atom: 9, k_atoms: 3 })
    );
    assert_eq!(
        term.decode_atom_at(0, 2, &vec![]),
        Err(DecodeError::CoordWidth { found: 2, expected: 1 })
    );
    assert_eq!(
        term.decode_atom_at(0, 1, &vec![floats(&[1.0, 0.0]), floats(&[1.0])]),
        Err(DecodeError::BasisWidth { row: 1 })
    );
}

fn mixed_census(term: &Term, charts: &[Chart], lambda: &[F64]) -> Vec<AtomCensus<F64>> {
    let evals = table(term, charts);
    (0..term.k_atoms())
        .map(|atom| {
            let gram = term.atom_gram(&evals, atom);
            let (trace, null_dim) =
                census(&gram, term.atom(atom).smooth_penalty(), lambda[atom]);
            AtomCensus { trace, null_dim }
        })
        .collect()
}

#[test]
fn smoothing_follows_the_evidence() {
    let (term, charts) = mixed_term();
    let lambda = floats(&[0.1, 0.2, 0.3]);
    let found = mixed_census(&term, &charts, &lambda);
    let target = mixed_target();
    let evals = table(&term, &charts);
    let updated = term
        .fellner_schall_smoothing(&target, &evals, &lambda, &found)
        .expect("degrees of freedom are left");
    let residual = term.raw_residual(&target, &evals).expect("residual");
    let sse: f64 = entries(&residual).iter().map(|v| v * v).sum();
    let spent = 2.0 * found.iter().map(|c| c.trace.0).sum::<f64>();
    let sigma_sq = sse / (8.0 - spent);
    for (atom, roughness) in [(0, 5.25), (1, 2.0)] {
        let signal = found[atom].trace.0 - found[atom].null_dim.0;
        close(updated[atom].0, sigma_sq * 2.0 * signal / roughness);
    }
    // Nobody uses the third atom.
    assert_eq!(updated[2], lambda[2]);
    let df = term.effective_curvature_df(&lambda, &found).expect("census");
    close(df[0].0, found[0].trace.0 - found[0].null_dim.0);
    assert_eq!(df[2], F64(0.0));
    let greedy = vec![AtomCensus { trace: F64(3.0), null_dim: F64(0.0) }; 3];
    assert!(matches!(
        term.fellner_schall_smoothing_with_residual(&lambda, &residual, &greedy),
        Err(SmoothingFault::NoResidual { spent: F64(12.0), total: F64(8.0) })
    ));
    assert!(matches!(
        term.fellner_schall_smoothing(&identity(4), &evals, &lambda, &found),
        Err(SmoothingFault::Shape(_))
    ));
    assert!(matches!(
        term.fellner_schall_smoothing(&target, &evals, &floats(&[]), &found),
        Err(SmoothingFault::Hyper(_))
    ));
    assert!(term.effective_curvature_df(&floats(&[]), &found).is_err());
}

#[test]
fn precisions_follow_the_evidence_within_their_family() {
    let (term, charts) = mixed_term();
    let ard = mixed_ard();
    let updated = term
        .mackay_ard_precisions(&ard, &table(&term, &charts), &priors(&term, &ard))
        .expect("precisions");
    // The line's tangent is (2, -1) everywhere; it is alone in its family.
    let curvature = 5.0 + 0.5;
    let energy: f64 =
        [0.5, -0.5, 1.0, 0.25].iter().map(|t: &f64| t * t + 1.0 / curvature).sum();
    let gamma = 4.0 * (1.0 - 0.5 / curvature);
    close(updated[0][0].0, gamma / energy);
    // So is the circle.
    let tau = 2.0 * std::f64::consts::PI;
    let (mut gamma, mut energy) = (0.0, 0.0);
    for t in [0.1_f64, 0.95, 0.05] {
        let term = prior(0.25, t, Some(F64(1.0)));
        let curvature = tau * tau + term.curvature.0;
        gamma += 1.0 - 0.25 / curvature;
        energy += term.square.0 + 1.0 / curvature;
    }
    close(updated[1][0].0, gamma / energy);
    // Nobody uses the third atom.
    assert_eq!(updated[2][0], F64(1.0));
    let exempt = vec![floats(&[0.0]), floats(&[0.25]), floats(&[1.0])];
    let kept = term
        .mackay_ard_precisions(&exempt, &table(&term, &charts), &priors(&term, &exempt))
        .expect("precisions");
    assert_eq!(kept[0][0], F64(0.0));
    assert!(term
        .mackay_ard_precisions(&vec![], &table(&term, &charts), &priors(&term, &ard))
        .is_err());
}

#[test]
fn strengths_are_pooled_by_their_degrees_of_freedom() {
    let charts = [Chart::Line; 3];
    let atoms = (0..3).map(|_| Chart::Line.atom(&[&[0.0], &[1.0]])).collect();
    let term = term_of(
        &charts,
        atoms,
        2,
        vec![vec![0, 1], vec![0, 1]],
        vec![floats(&[0.0, 1.0]), floats(&[1.0, 0.0])],
    );
    let strengths = floats(&[1.0, std::f64::consts::E * std::f64::consts::E, 5.0]);
    let logs = floats(&[0.0, 2.0, 5.0_f64.ln()]);
    let pooled =
        term.pooled_smoothing(&strengths, &floats(&[1.0, 3.0, 7.0]), &logs).expect("lengths");
    // The shared logarithm is 6 / 4, the mean freedom 2.
    let expect = |df: f64, log: f64| {
        let own = df / (df + 2.0);
        own * log + (1.0 - own) * 1.5
    };
    for (atom, value) in [(0, expect(1.0, 0.0)), (1, expect(3.0, 2.0))] {
        match pooled[atom] {
            PooledScale::Exp(log) => close(log.0, value),
            other => panic!("{other:?}"),
        }
    }
    assert!(matches!(pooled[2], PooledScale::Kept(F64(5.0))));
    // A railed strength takes the shared scale outright.
    let railed = floats(&[f64::INFINITY, 2.0, 5.0]);
    match term.pooled_smoothing(&strengths, &floats(&[0.0, 3.0, 7.0]), &railed).unwrap()[0] {
        PooledScale::Exp(log) => assert_eq!(log, F64(2.0)),
        other => panic!("{other:?}"),
    }
    assert_eq!(
        term.pooled_smoothing(&strengths, &floats(&[1.0]), &logs).err(),
        Some(PoolFault { strengths: 3, freedoms: 1, atoms: 3 })
    );
}

#[test]
fn the_joint_solve_stops_when_nothing_moves() {
    let (term, _) = mixed_term();
    let ard = mixed_ard();
    let begin = |tolerance: f64, budget: usize| {
        term.joint_hyperparameter_fixed_point(
            &floats(&[1.0, 1.0, 1.0]),
            &ard,
            F64(tolerance),
            budget,
        )
    };
    assert!(begin(0.0, 5).is_err());
    let mut solve = begin(0.1, 5).expect("tolerance");
    assert_eq!(solve.max_sweeps, 5);
    let logs = floats(&[0.0; 3]);
    let next = floats(&[2.0, 2.0, 2.0]);
    assert_eq!(solve.limits(&next, &logs, &logs, &logs), vec![None; 3]);
    solve.sweep(next, mixed_ard(), F64(1.0), F64(0.0));
    solve.sweep(floats(&[3.0, 3.0, 3.0]), mixed_ard(), F64(0.0), F64(0.2));
    assert!(!solve.done);
    let next = floats(&[3.5, 3.5, 3.5]);
    let limits =
        solve.limits(&next, &floats(&[1.5; 3]), &floats(&[1.0; 3]), &floats(&[0.0; 3]));
    assert_eq!(limits, vec![Some(F64(2.0)); 3]);
    solve.sweep(next, mixed_ard(), F64(0.1), F64(0.05));
    assert!(solve.done);
    assert_eq!(solve.sweeps, 3);
    let mut short = begin(0.1, 0).expect("tolerance");
    assert_eq!(short.max_sweeps, 2);
    short.sweep(floats(&[1.0; 3]), mixed_ard(), F64(9.0), F64(9.0));
    assert!(!short.done);
    short.sweep(floats(&[1.0; 3]), mixed_ard(), F64(9.0), F64(9.0));
    assert!(short.done);
}

/// A circle whose twelve uses lie on a tenth of it.
fn crowded_circle() -> (Term, [Chart; 2]) {
    let charts = [Chart::Circle, Chart::Line];
    let atoms = vec![
        Chart::Circle.atom(&[&[0.0, 0.0], &[1.0, 0.0], &[0.0, 1.0]]),
        Chart::Line.atom(&[&[0.0, 0.0], &[1.0, 1.0]]),
    ];
    let coords = (0..12)
        .map(|row| floats(&[0.95 + row as f64 / 110.0, row as f64]))
        .collect();
    (term_of(&charts, atoms, 2, vec![vec![0, 1]; 12], coords), charts)
}

fn verdicts(term: &Term, charts: &[Chart], penalty_width: usize) -> Vec<LoopVerdict<F64>> {
    (0..term.k_atoms())
        .map(|atom| {
            let census = term.loop_period(atom).and_then(|period| {
                let probes =
                    probe_coordinates(period, probe_count(term.atom_basis_size(atom)));
                let rows =
                    probes.iter().map(|&t| charts[atom].eval(&[t]).phi).collect::<Vec<_>>();
                let images = term.decode_atom_at(atom, 1, &rows).expect("probes");
                let image = Matrix::from_rows(term.output_dim(), &images).expect("image");
                term.census_loop(atom, &image)
            });
            let logs = match &census {
                Some(found) => GapLogs {
                    ln_rest: F64((1.0 - found.gap.length.0).ln()),
                    ln_n: F64((found.phases.len() as f64).ln()),
                },
                None => GapLogs { ln_rest: F64(0.0), ln_n: F64(0.0) },
            };
            let plan = ChartPlan { basis_width: 4, penalty: identity(penalty_width) };
            LoopVerdict { census, logs, plan }
        })
        .collect()
}

#[test]
fn a_crowded_circle_is_unrolled() {
    let (mut term, charts) = crowded_circle();
    let found = verdicts(&term, &charts, 4);
    assert!(found[1].census.is_none());
    let gap = found[0].census.as_ref().unwrap().gap;
    close(gap.length.0, 0.9);
    let mut before = Vec::new();
    term.snapshot_coordinates(&mut before);
    assert_eq!(term.convert_underoccupied_loops(&found), Ok(vec![0]));
    let atom = term.atom(0);
    assert_eq!(atom.basis_kind(), SaeAtomBasisKind::EuclideanPatch);
    assert_eq!((atom.basis_size(), atom.latent_dim(), atom.output_dim()), (4, 1, 2));
    assert!(entries(atom.decoder_coefficients()).iter().all(|&v| v == 0.0));
    assert!(term.assignment().atom_axis_periods(0)[0].is_none());
    for row in 0..12 {
        let coords = term.assignment().coords_row(row);
        assert!((coords[0].0 - (-1.0 + 2.0 * row as f64 / 11.0)).abs() < 1.0e-9);
        assert_eq!(coords[1], F64(row as f64));
    }
    // It is no loop any more.
    assert!(term.loop_period(0).is_none());
}

#[test]
fn a_full_circle_stays_a_circle() {
    let charts = [Chart::Circle];
    let mut term = term_of(
        &charts,
        vec![Chart::Circle.atom(&[&[0.0, 0.0], &[1.0, 0.0], &[0.0, 1.0]])],
        1,
        vec![vec![0]; 12],
        (0..12).map(|row| floats(&[row as f64 / 12.0])).collect(),
    );
    let found = verdicts(&term, &charts, 4);
    assert!(found[0].census.is_some());
    assert_eq!(term.convert_underoccupied_loops(&found), Ok(vec![]));
    assert_eq!(term.atom(0).basis_kind(), SaeAtomBasisKind::Periodic);
}

#[test]
fn a_segment_is_unrolled_however_well_it_is_occupied() {
    let charts = [Chart::Circle];
    let mut term = term_of(
        &charts,
        vec![Chart::Circle.atom(&[&[0.0], &[1.0], &[1.0]])],
        1,
        vec![vec![0]; 8],
        (0..8).map(|row| floats(&[row as f64 / 8.0])).collect(),
    );
    let found = verdicts(&term, &charts, 4);
    let census = found[0].census.as_ref().unwrap();
    assert!(census.segment);
    assert_eq!(census.gap.length, F64(0.125));
    assert_eq!(term.convert_underoccupied_loops(&found), Ok(vec![0]));
    for row in 0..8 {
        let place = term.assignment().coords_row(row)[0].0;
        assert!((-1.0..=1.0).contains(&place));
    }
}

#[test]
fn two_uses_go_to_the_two_ends() {
    let charts = [Chart::Circle];
    let mut term = term_of(
        &charts,
        vec![Chart::Circle.atom(&[&[0.0, 0.0], &[1.0, 0.0], &[0.0, 1.0]])],
        1,
        vec![vec![0]; 2],
        vec![floats(&[0.1]), floats(&[0.2])],
    );
    let found = verdicts(&term, &charts, 4);
    assert_eq!(term.convert_underoccupied_loops(&found), Ok(vec![0]));
    close(term.assignment().coords_row(0)[0].0, -1.0);
    close(term.assignment().coords_row(1)[0].0, 1.0);
}

#[test]
fn a_plan_that_does_not_span_its_basis_is_refused() {
    let (mut term, charts) = crowded_circle();
    let found = verdicts(&term, &charts, 3);
    assert_eq!(
        term.convert_underoccupied_loops(&found),
        Err(AtomError::PenaltyShape { rows: 3, cols: 3, basis_width: 4 })
    );
    assert_eq!(term.atom(0).basis_kind(), SaeAtomBasisKind::Periodic);
    assert_eq!(term.assignment().atom_axis_periods(0), &vec![Some(F64(1.0))]);
}

#[test]
fn rows_are_routed_to_the_atoms_that_explain_them() {
    let charts = [Chart::Line, Chart::Line];
    let atoms = vec![
        Chart::Line.atom(&[&[1.0, 0.0], &[1.0, 0.0]]),
        Chart::Line.atom(&[&[0.0, 1.0], &[0.0, 1.0]]),
    ];
    let mut term = term_of(
        &charts,
        atoms,
        1,
        vec![vec![0], vec![0]],
        vec![floats(&[0.0]), floats(&[0.0])],
    );
    let target = matrix(&[&[1.0, 0.0], &[0.0, 1.0]]);
    let ard = vec![floats(&[0.5]), floats(&[0.5])];
    let samples = route_samples(&term, &charts, &ard, 2);
    let moved = term.reroute_fixed_decoder_ard(&target, 1, &ard, &samples).expect("routes");
    assert_eq!(moved.assignment().support_indices(0), &vec![0]);
    assert_eq!(moved.assignment().support_indices(1), &vec![1]);
    assert_eq!(moved.assignment().coords_row(1), &floats(&[0.0]));
    assert_eq!(moved.n_obs(), 2);
    let plain = term.reroute_fixed_decoder(&target, 1, &samples).expect("routes");
    assert_eq!(plain.assignment().support_indices(1), &vec![1]);

    // Exact ranking finds the coordinate between the grid points.
    term.set_exact_affine_ranking(true);
    let far = matrix(&[&[1.75, 0.0], &[0.0, 3.0]]);
    let exact = term
        .reroute_fixed_decoder(&far, 1, &route_samples(&term, &charts, &ard, 2))
        .expect("routes");
    assert_eq!(exact.assignment().coords_row(0), &floats(&[0.75]));
    assert_eq!(exact.assignment().coords_row(1), &floats(&[2.0]));
    assert!(exact.knobs().exact_affine_ranking);

    assert_eq!(
        term.reroute_fixed_decoder_ard(&target, 1, &vec![], &samples).err(),
        Some(RouteError::ArdLength { found: 0, expected: 2 })
    );
    assert_eq!(
        term.reroute_fixed_decoder(&Matrix::constant(0, 2, F64(0.0)), 1, &samples).err(),
        Some(RouteError::TargetShape { rows: 0, cols: 2, expected: 2 })
    );
    assert_eq!(
        term.reroute_fixed_decoder(&target, 3, &samples).err(),
        Some(RouteError::SupportRange { support_k: 3, k_atoms: 2 })
    );
    let broken = matrix(&[&[1.0, f64::NAN], &[0.0, 1.0]]);
    assert_eq!(
        term.reroute_fixed_decoder(&broken, 1, &samples).err(),
        Some(RouteError::NonFinite)
    );
}

#[test]
fn pricing_does_not_reroute_a_portfolio_of_one_basis_size() {
    let charts = [Chart::Line, Chart::Line, Chart::Line];
    let atoms = vec![
        Chart::Line.atom(&[&[1.0, 0.0], &[1.0, 0.5]]),
        Chart::Line.atom(&[&[0.0, 1.0], &[0.25, 1.0]]),
        Chart::Line.atom(&[&[0.5, 0.5], &[1.0, -1.0]]),
    ];
    let mut term = term_of(
        &charts,
        atoms,
        2,
        vec![vec![0, 1], vec![0, 2], vec![0, 1]],
        vec![floats(&[0.0, 0.0]), floats(&[0.0, 0.0]), floats(&[0.0, 0.0])],
    );
    let target = matrix(&[&[1.0, 0.25], &[-0.5, 1.5], &[0.75, -0.5]]);
    let ard = vec![floats(&[0.5]), floats(&[0.5]), floats(&[0.5])];
    let samples = route_samples(&term, &charts, &ard, 3);
    let plain = term.reroute_fixed_decoder_ard(&target, 2, &ard, &samples).expect("routes");
    term.set_admission_dof_pricing(Some(F64(0.125)));
    let charges = term.dof_charges(samples.codes);
    assert!(charges[0].0 > 0.0);
    assert!(charges.iter().all(|charge| *charge == charges[0]));
    let priced = term.reroute_fixed_decoder_ard(&target, 2, &ard, &samples).expect("routes");
    for row in 0..3 {
        assert_eq!(
            priced.assignment().support_indices(row),
            plain.assignment().support_indices(row)
        );
        assert_eq!(priced.assignment().coords_row(row), plain.assignment().coords_row(row));
    }
    // Spread over each atom's own rows, the charge prices rarity too.
    term.set_admission_usage_amortization(true);
    let rare = term.dof_charges(samples.codes);
    assert!(rare[2].0 > rare[0].0);
}

#[test]
fn knobs_are_set_one_at_a_time() {
    let (mut term, _) = mixed_term();
    term.set_decoder_fista_passes(Some(6));
    term.set_admission_dof_pricing(Some(F64(0.5)));
    term.set_variable_priced_support(true);
    term.set_admission_usage_amortization(true);
    let knobs = term.knobs();
    assert_eq!(knobs.decoder_fista_passes, Some(6));
    assert_eq!(knobs.admission_dof_sigma2, Some(F64(0.5)));
    assert!(knobs.variable_priced_support && knobs.admission_usage_amortized);
    assert!(!knobs.exact_affine_ranking);
    // Four rows: a parameter costs one bit, and charges are spread over the mean
    // use of an atom or over its own.
    let charge = 2.0 * 0.5 * std::f64::consts::LN_2;
    let own = term.dof_charges(codes(4));
    close(own[0].0, charge * 4.0 / 4.0);
    close(own[1].0, charge * 6.0 / 3.0);
    close(own[2].0, charge * 4.0);
    term.set_admission_usage_amortization(false);
    let shared = term.dof_charges(codes(4));
    close(shared[1].0, charge * 6.0 / (7.0 / 3.0));
    term.set_admission_dof_pricing(None);
    assert_eq!(term.dof_charges(codes(4)), floats(&[0.0; 3]));
}

#[test]
fn a_row_at_rest_is_left_alone() {
    let (mut term, charts) = mixed_term();
    let target = term.reconstruct(&table(&term, &charts));
    let ard = vec![floats(&[1.0e-9]), floats(&[1.0e-9]), floats(&[1.0e-9])];
    let mut fitted = target.copy();
    let change =
        coordinate_sweep(&mut term, &charts, &target, &ard, 1.0, 1.0e-6, &mut fitted);
    assert_eq!(change, 0.0);
    assert_eq!(entries(&fitted), entries(&target));
}

#[test]
fn a_coordinate_sweep_keeps_the_decode_exact() {
    let (mut term, charts) = mixed_term();
    let target = mixed_target();
    let ard = mixed_ard();
    let lambda = floats(&[0.1, 0.2, 0.3]);
    let before = objective(&term, &charts, &target, &lambda, &ard);
    let mut fitted = term.reconstruct(&table(&term, &charts));
    let change =
        coordinate_sweep(&mut term, &charts, &target, &ard, 0.5, 1.0e-8, &mut fitted);
    assert!(change > 0.0);
    assert!(objective(&term, &charts, &target, &lambda, &ard) < before);
    assert_eq!(entries(&fitted), entries(&term.reconstruct(&table(&term, &charts))));
    let failed = vec![
        Ok(F64(0.0)),
        Err(RowFault::NotDescent(F64(-1.0))),
        Err(RowFault::NotDescent(F64(-2.0))),
        Ok(F64(1.0)),
    ];
    assert!(matches!(
        term.coordinate_sweep(&failed, &table(&term, &charts), &mut fitted),
        Err(CoordinateSweepError::Row { row: 1, .. })
    ));
    let still = vec![Ok(F64(0.0)), Ok(F64(0.0)), Ok(F64(0.0)), Ok(F64(0.0))];
    assert!(matches!(
        term.coordinate_sweep(&still, &table(&term, &charts), &mut identity(2)),
        Err(CoordinateSweepError::Shape(_))
    ));
}

#[test]
fn a_row_that_no_atom_can_be_scored_on_is_named() {
    let charts = [Chart::Line];
    let term = term_of(
        &charts,
        vec![Chart::Line.atom(&[&[f64::NAN], &[1.0]])],
        1,
        vec![vec![0]],
        vec![floats(&[0.0])],
    );
    let ard = vec![floats(&[1.0])];
    assert_eq!(
        term.reroute_fixed_decoder(
            &matrix(&[&[1.0]]),
            1,
            &route_samples(&term, &charts, &ard, 1)
        )
        .err(),
        Some(RouteError::EmptyRow { row: 0 })
    );
}

#[test]
fn atoms_of_several_axes_are_scored_one_by_one() {
    let charts = [Chart::Plane, Chart::Line];
    let atoms = vec![
        Chart::Plane.atom(&[&[0.0, 0.0], &[1.0, 0.0], &[0.0, 1.0]]),
        Chart::Line.atom(&[&[0.0, 0.0], &[3.0, 0.0]]),
    ];
    let mut term =
        term_of(&charts, atoms, 1, vec![vec![1]], vec![floats(&[0.0])]);
    term.set_exact_affine_ranking(true);
    assert!(!term.is_all_one_axis());
    let target = matrix(&[&[0.0, 2.0], &[-3.0, 0.0]]);
    let trial = |atom: usize, coords: &[f64]| BasisTrial {
        coords: floats(coords),
        phi: charts[atom].eval(&floats(coords)).phi,
        priors: coords.iter().map(|t| F64(2.0 * t * t)).collect(),
    };
    let lines: Vec<f64> = (0..term.route_grid_width(1)).map(|g| term.trial_sample(1, g).0).collect();
    assert_eq!(lines, vec![-1.0, 0.0]);
    let samples = RouteSamples {
        charts: vec![],
        trials: (0..2)
            .map(|_| {
                vec![
                    vec![trial(0, &[1.0, 0.0]), trial(0, &[0.0, 1.5]), trial(0, &[-1.0, -1.0])],
                    lines.iter().map(|&t| trial(1, &[t])).collect(),
                ]
            })
            .collect(),
        fallbacks: vec![trial(0, &[0.0, 0.0]), trial(1, &[0.0])],
        specs: charts.iter().map(|chart| chart.spec()).collect(),
        codes: codes(2),
    };
    let moved = term.reroute_fixed_decoder(&target, 1, &samples).expect("routes");
    assert_eq!(moved.assignment().support_indices(0), &vec![0]);
    assert_eq!(moved.assignment().coords_row(0), &floats(&[0.0, 1.5]));
    assert_eq!(moved.assignment().support_indices(1), &vec![1]);
    assert_eq!(moved.assignment().coords_row(1), &floats(&[-1.0]));
    assert!(!moved.knobs().exact_affine_ranking);
    // With the prior scored, no point of the plane is worth its charge.
    let ard = vec![floats(&[4.0, 4.0]), floats(&[4.0])];
    let scored = term.reroute_fixed_decoder_ard(&target, 1, &ard, &samples).expect("routes");
    assert_eq!(scored.assignment().support_indices(0), &vec![1]);
    assert_eq!(scored.assignment().coords_row(0), &floats(&[0.0]));
    assert_eq!(scored.assignment().support_indices(1), &vec![1]);
    assert_eq!(scored.assignment().coords_row(1), &floats(&[-1.0]));
}

#[test]
fn members_of_a_class_may_be_installed_in_any_order() {
    let charts = [Chart::Line, Chart::Line];
    let build = || {
        term_of(
            &charts,
            vec![
                Chart::Line.atom(&[&[0.1, 0.2], &[1.0, -1.0]]),
                Chart::Line.atom(&[&[0.3, -0.2], &[0.7, 0.5]]),
            ],
            1,
            vec![vec![0], vec![1], vec![0]],
            vec![floats(&[0.3]), floats(&[-0.7]), floats(&[1.1])],
        )
    };
    let fresh = [
        matrix(&[&[1.0 / 3.0, 0.1], &[0.9, 0.7]]),
        matrix(&[&[-0.1, 1.0 / 7.0], &[0.2, -0.3]]),
    ];
    let run = |order: [usize; 2]| {
        let mut term = build();
        let evals = table(&term, &charts);
        let mut fitted = term.reconstruct(&evals);
        for atom in order {
            term.install_decoder(atom, fresh[atom].copy(), &evals, &mut fitted);
        }
        entries(&fitted)
    };
    assert_eq!(run([0, 1]), run([1, 0]));
    // The first atom's installation leaves the second one's row alone.
    let mut term = build();
    let evals = table(&term, &charts);
    let mut fitted = term.reconstruct(&evals);
    let before = matrix_row(&fitted, 1);
    term.install_decoder(0, fresh[0].copy(), &evals, &mut fitted);
    assert_eq!(matrix_row(&fitted, 1), before);
    assert!(matrix_row(&fitted, 0) != matrix_row(&build().reconstruct(&evals), 0));
}

#[test]
fn a_frozen_objective_leaves_the_roughness_out() {
    let (term, charts) = mixed_term();
    let target = mixed_target();
    let ard = mixed_ard();
    let evals = table(&term, &charts);
    let energies = priors(&term, &ard);
    assert!(term.check_table(&evals) && term.check_priors(&energies));
    assert!(!term.check_table(&vec![]) && !term.check_priors(&vec![]));
    let frozen = term
        .frozen_decoder_coordinate_objective(&target, &evals, &energies)
        .expect("objective");
    let whole = objective(&term, &charts, &target, &floats(&[0.0; 3]), &ard);
    close(frozen.0, whole);
    assert!(matches!(
        term.frozen_decoder_coordinate_objective(&identity(2), &evals, &energies),
        Err(ObjectiveError::Shape(_))
    ));
    assert_eq!(term.assignment().gates_row(0), &floats(&[1.0, 1.0]));
}

#[test]
fn a_much_used_atom_is_added_up_in_the_order_of_its_rows() {
    let rows = 1100;
    let places: Vec<f64> = (0..rows).map(|row| 0.1 + f64::from(row) / 7.0).collect();
    let term = term_of(
        &[Chart::Line],
        vec![Chart::Line.atom(&[&[0.0], &[0.0]])],
        1,
        vec![vec![0]; places.len()],
        places.iter().map(|place| floats(&[*place])).collect(),
    );
    let mut target = Matrix::constant(places.len(), 1, F64(0.0));
    for (row, place) in places.iter().enumerate() {
        target.set(row, 0, F64(3.0 * place + 0.3));
    }
    let fitted = Matrix::constant(places.len(), 1, F64(0.0));
    let evals = table(&term, &[Chart::Line]);
    let equations = term.atom_equations(&target, &fitted, &evals, 0);
    let (mut square, mut cross) = (0.0, 0.0);
    for place in &places {
        square += place * place;
        cross += place * (3.0 * place + 0.3);
    }
    assert_eq!(equations.gram.get(0, 0), F64(1100.0));
    assert_eq!(equations.gram.get(1, 1), F64(square));
    assert_eq!(equations.rhs.get(1, 0), F64(cross));
}

#[test]
fn an_unused_atom_spends_no_degrees_of_freedom() {
    let charts = [Chart::Line, Chart::Line];
    let term = term_of(
        &charts,
        vec![
            Chart::Line.atom(&[&[0.5, 0.0], &[1.0, 1.0]]),
            Chart::Line.atom(&[&[0.0, 0.0], &[1.0, 0.0]]),
        ],
        1,
        vec![vec![0]; 4],
        (0..4).map(|row| floats(&[f64::from(row)])).collect(),
    );
    let target = matrix(&[&[1.0, 0.0], &[1.0, 1.0], &[3.0, 2.0], &[3.0, 3.0]]);
    let evals = table(&term, &charts);
    let census = vec![
        AtomCensus { trace: F64(1.0), null_dim: F64(0.0) },
        AtomCensus { trace: F64(100.0), null_dim: F64(0.0) },
    ];
    let lambda = floats(&[0.1, 0.2]);
    let updated = term
        .fellner_schall_smoothing(&target, &evals, &lambda, &census)
        .expect("degrees of freedom are left");
    // An energy of one over six degrees of freedom, two channels, a roughness of 2.25.
    close(updated[0].0, 1.0 / 6.0 * 2.0 / 2.25);
    assert_eq!(updated[1], F64(0.2));
}

#[test]
fn the_assembled_system_can_build_the_escalated_preconditioner_tiers() {
    let atoms = vec![
        Chart::Line.atom(&[&[0.5, -0.25], &[1.0, 0.75]]),
        Chart::Line.atom(&[&[-0.5, 0.25], &[0.75, -1.0]]),
    ];
    let coords = vec![floats(&[-1.0]), floats(&[0.5]), floats(&[1.0]), floats(&[-0.5])];
    let term = term_of(&LINES, atoms, 1, vec![vec![0], vec![1], vec![0], vec![1]], coords);
    let target = matrix(&[&[-1.0, 0.5], &[0.25, 0.0], &[1.0, -0.5], &[-0.25, 0.75]]);
    let ard = vec![floats(&[1.0]), floats(&[1.0])];
    let lambda = floats(&[0.1, 0.1]);
    let evals = table(&term, &LINES);
    let energies = priors(&term, &ard);
    let system = term
        .assemble_arrow_schur(&target, &lambda, &ard, &evals, &energies)
        .expect("arrow system");
    assert_eq!(system.rows[0].htbeta.col_count(), 0);
    assert!(!system.block_offsets.is_empty());
    assert_eq!(system.block_offsets, vec![(0, 4), (4, 8)]);
    // Every row's block can be factored.
    for row in &system.rows {
        assert_eq!(row.htbeta.row_count(), row.gt.len());
        assert!(row.htt[0][0].0 > 0.0);
    }
}

#[test]
fn a_rows_curvature_is_symmetric_and_positive() {
    let (term, charts) = mixed_term();
    let ard = mixed_ard();
    let system = term
        .assemble_arrow_schur(
            &mixed_target(),
            &floats(&[0.1, 0.2, 0.3]),
            &ard,
            &table(&term, &charts),
            &priors(&term, &ard),
        )
        .expect("arrow system");
    for row in &system.rows {
        let q = row.gt.len();
        for i in 0..q {
            for j in 0..q {
                assert_eq!(row.htt[i][j], row.htt[j][i]);
            }
        }
        for probe in [[1.0, 0.0], [0.0, 1.0], [1.0, -1.0], [0.3, 2.0]] {
            let mut form = 0.0;
            for i in 0..q {
                for j in 0..q {
                    form += probe[i] * row.htt[i][j].0 * probe[j];
                }
            }
            assert!(form >= 0.0);
        }
    }
}

#[test]
fn the_decoder_block_is_linear_symmetric_and_positive() {
    let (term, charts) = mixed_term();
    let ard = mixed_ard();
    let system = term
        .assemble_arrow_schur(
            &mixed_target(),
            &floats(&[0.1, 0.2, 0.3]),
            &ard,
            &table(&term, &charts),
            &priors(&term, &ard),
        )
        .expect("arrow system");
    let x: Vec<f64> = (0..14).map(|i| 0.3 * i as f64 - 1.0).collect();
    let y: Vec<f64> = (0..14).map(|i| (i as f64).sin()).collect();
    let z: Vec<f64> = (0..14).map(|i| 2.0 * x[i] - 0.5 * y[i]).collect();
    let image = |vector: &[f64]| {
        let mut out = floats(&[0.0; 14]);
        system.operator.apply(&floats(vector), &mut out);
        out.iter().map(|v| v.0).collect::<Vec<_>>()
    };
    let (hx, hy, hz) = (image(&x), image(&y), image(&z));
    for i in 0..14 {
        close(hz[i], 2.0 * hx[i] - 0.5 * hy[i]);
    }
    let dot = |a: &[f64], b: &[f64]| a.iter().zip(b).map(|(s, t)| s * t).sum::<f64>();
    close(dot(&x, &hy), dot(&y, &hx));
    assert!(dot(&x, &hx) > 0.0 && dot(&y, &hy) > 0.0);
}

#[test]
fn a_second_conversion_changes_nothing() {
    let (mut term, charts) = crowded_circle();
    let first = verdicts(&term, &charts, 4);
    assert_eq!(term.convert_underoccupied_loops(&first), Ok(vec![0]));
    let mut before = Vec::new();
    term.snapshot_coordinates(&mut before);
    let second = verdicts(&term, &charts, 4);
    assert!(second.iter().all(|verdict| verdict.census.is_none()));
    assert_eq!(term.convert_underoccupied_loops(&second), Ok(vec![]));
    let mut after = Vec::new();
    term.snapshot_coordinates(&mut after);
    assert_eq!(before, after);
    assert_eq!(term.atom(0).basis_kind(), SaeAtomBasisKind::EuclideanPatch);
}

#[test]
fn updated_strengths_scale_with_the_squared_residual() {
    let (term, charts) = mixed_term();
    let lambda = floats(&[0.1, 0.2, 0.3]);
    let found = mixed_census(&term, &charts, &lambda);
    let residual = term.raw_residual(&mixed_target(), &table(&term, &charts)).expect("residual");
    let mut doubled = Matrix::constant(residual.row_count(), residual.col_count(), F64(0.0));
    for i in 0..residual.row_count() {
        for j in 0..residual.col_count() {
            doubled.set(i, j, F64(2.0 * residual.get(i, j).0));
        }
    }
    let once = term
        .fellner_schall_smoothing_with_residual(&lambda, &residual, &found)
        .expect("degrees of freedom are left");
    let twice = term
        .fellner_schall_smoothing_with_residual(&lambda, &doubled, &found)
        .expect("degrees of freedom are left");
    close(twice[0].0, 4.0 * once[0].0);
    close(twice[1].0, 4.0 * once[1].0);
    assert_eq!(twice[2], lambda[2]);
}

#[test]
fn a_corpus_listed_twice_is_certified_as_before() {
    let (term, target) = coupled_two_atom_fixture();
    let rows = term.n_obs();
    let coords = (0..2 * rows)
        .map(|row| term.assignment().coords_row(row % rows).to_vec())
        .collect();
    let atoms = vec![
        Chart::Line.atom(&[&[0.10, -0.05], &[0.90, 0.20]]),
        Chart::Line.atom(&[&[-0.05, 0.10], &[0.20, 0.85]]),
    ];
    let twice = term_of(&LINES, atoms, 2, vec![vec![0, 1]; 2 * rows], coords);
    let mut doubled = Matrix::constant(2 * rows, 2, F64(0.0));
    for row in 0..2 * rows {
        for c in 0..2 {
            doubled.set(row, c, target.get(row % rows, c));
        }
    }
    let ard = vec![floats(&[0.5]), floats(&[0.5])];
    let once = term
        .raw_stationarity(
            &target,
            &floats(&[0.1, 0.2]),
            &ard,
            &table(&term, &LINES),
            &priors(&term, &ard),
        )
        .expect("kkt");
    let again = twice
        .raw_stationarity(
            &doubled,
            &floats(&[0.2, 0.4]),
            &ard,
            &table(&twice, &LINES),
            &priors(&twice, &ard),
        )
        .expect("kkt");
    close(again.decoder_scaled_max_abs.0, once.decoder_scaled_max_abs.0);
    close(again.coordinate_scaled_max_abs.0, once.coordinate_scaled_max_abs.0);
    close(again.decoder_max_abs.0, 2.0 * once.decoder_max_abs.0);
    close(again.decoder_l2.0, 2.0 * once.decoder_l2.0);
    close(again.coordinate_max_abs.0, once.coordinate_max_abs.0);
}

#[test]
fn degrees_of_freedom_fall_as_the_strength_grows() {
    let gram = matrix(&[&[4.0, 1.0, 0.0], &[1.0, 3.0, 0.5], &[0.0, 0.5, 2.0]]);
    let penalty = matrix(&[&[0.0, 0.0, 0.0], &[0.0, 1.0, 0.0], &[0.0, 0.0, 5.0]]);
    let mut last = 3.0;
    for lambda in [0.0, 0.1, 1.0, 10.0, 1.0e3, 1.0e6] {
        let (trace, null_dim) = census(&gram, &penalty, F64(lambda));
        assert_eq!(null_dim, F64(1.0));
        assert!(trace.0 <= last + 1.0e-12);
        assert!(trace.0 - null_dim.0 >= 0.0 && trace.0 - null_dim.0 <= 2.0 + 1.0e-12);
        last = trace.0;
    }
    assert!((last - 1.0).abs() < 1.0e-5);
}

#[test]
fn curvature_degrees_are_each_atoms_own() {
    let (term, charts) = mixed_term();
    let weak = floats(&[0.1, 0.2, 0.3]);
    let strong = floats(&[10.0, 0.2, 0.3]);
    let before = term
        .effective_curvature_df(&weak, &mixed_census(&term, &charts, &weak))
        .expect("census");
    let after = term
        .effective_curvature_df(&strong, &mixed_census(&term, &charts, &strong))
        .expect("census");
    assert!(after[0].0 < before[0].0);
    assert_eq!(after[1], before[1]);
    assert_eq!(after[2], before[2]);
}
