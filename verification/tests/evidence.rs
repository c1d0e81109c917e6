use sae_support::evidence::{
    centered_free_projection_null_ev, clamp_basin_rows, concatenated_design, deferred_curvature,
    rank_of_singular_values, smoother_null, spectrally_deflated_cold_state,
    trace_and_residual_dof, ArrowFactorCache, BarrierFault, BarrierOutcome, CarrierRun,
    ColdStateFault, DesignFault, NullEvFault, RowDeflationSpectrum, SeparationBarrierCurvature,
};
use sae_support::matrix::Matrix;
use sae_support::scalar::Scalar;

#[derive(Clone, Copy, Debug, PartialEq)]
struct F64(f64);

impl Scalar for F64 {
    fn zero() -> Self {
        F64(0.0)
    }
    fn one() -> Self {
        F64(1.0)
    }
    fn epsilon() -> Self {
        F64(f64::EPSILON)
    }
    fn tiny() -> Self {
        F64(f64::MIN_POSITIVE)
    }
    fn infinity() -> Self {
        F64(f64::INFINITY)
    }
    fn count(n: usize) -> Self {
        F64(n as f64)
    }
    fn plus(self, rhs: Self) -> Self {
        F64(self.0 + rhs.0)
    }
    fn minus(self, rhs: Self) -> Self {
        F64(self.0 - rhs.0)
    }
    fn times(self, rhs: Self) -> Self {
        F64(self.0 * rhs.0)
    }
    fn over(self, rhs: Self) -> Self {
        F64(self.0 / rhs.0)
    }
    fn negate(self) -> Self {
        F64(-self.0)
    }
    fn magnitude(self) -> Self {
        F64(self.0.abs())
    }
    fn root(self) -> Self {
        F64(self.0.sqrt())
    }
    fn nearest(self) -> Self {
        F64(self.0.round())
    }
    fn modulo(self, rhs: Self) -> Self {
        F64(self.0.rem_euclid(rhs.0))
    }
    fn fused(self, factor: Self, addend: Self) -> Self {
        F64(self.0.mul_add(factor.0, addend.0))
    }
    fn larger(self, rhs: Self) -> Self {
        F64(self.0.max(rhs.0))
    }
    fn smaller(self, rhs: Self) -> Self {
        F64(self.0.min(rhs.0))
    }
    fn below(self, rhs: Self) -> bool {
        self.0 < rhs.0
    }
    fn at_most(self, rhs: Self) -> bool {
        self.0 <= rhs.0
    }
    fn same(self, rhs: Self) -> bool {
        self.0 == rhs.0
    }
    fn finite(self) -> bool {
        self.0.is_finite()
    }
}

fn floats(values: &[f64]) -> Vec<F64> {
    values.iter().map(|&v| F64(v)).collect()
}

fn matrix(rows: &[&[f64]]) -> Matrix<F64> {
    let lines: Vec<Vec<F64>> = rows.iter().map(|row| floats(row)).collect();
    Matrix::from_rows(rows[0].len(), &lines).unwrap()
}

fn spectrum(raw: &[f64], priced: &[f64]) -> Option<RowDeflationSpectrum<F64>> {
    Some(RowDeflationSpectrum { raw_evals: floats(raw), cond_evals: floats(priced) })
}

fn cache(
    spectra: Vec<Option<RowDeflationSpectrum<F64>>>,
    directions: Vec<usize>,
    k: usize,
) -> ArrowFactorCache<F64> {
    ArrowFactorCache {
        deflation_row_spectra: spectra,
        deflated_row_directions: directions,
        k,
        gauge_deflated_directions: 3,
    }
}

/// A concatenated design's rank, with the singular values of a matrix whose
/// Gram is small enough to be diagonalised by Jacobi rotations.
fn concatenated_design_rank(designs: &Vec<Matrix<F64>>, n: usize) -> Result<usize, DesignFault> {
    let rows = concatenated_design(designs, n)?;
    if n == 0 || rows[0].is_empty() {
        return Ok(0);
    }
    let m = rows[0].len();
    let mut a = vec![vec![0.0_f64; m]; m];
    for row in &rows {
        for i in 0..m {
            for j in 0..m {
                a[i][j] += row[i].0 * row[j].0;
            }
        }
    }
    for _ in 0..100 {
        for p in 0..m {
            for q in p + 1..m {
                if a[p][q].abs() < 1.0e-300 {
                    continue;
                }
                let theta = 0.5 * (2.0 * a[p][q]).atan2(a[q][q] - a[p][p]);
                let (s, c) = theta.sin_cos();
                for k in 0..m {
                    let (x, y) = (a[k][p], a[k][q]);
                    a[k][p] = c * x - s * y;
                    a[k][q] = s * x + c * y;
                }
                for k in 0..m {
                    let (x, y) = (a[p][k], a[q][k]);
                    a[p][k] = c * x - s * y;
                    a[q][k] = s * x + c * y;
                }
            }
        }
    }
    let values: Vec<F64> = (0..m).map(|i| F64(a[i][i].max(0.0).sqrt())).collect();
    Ok(rank_of_singular_values(&values, F64(1.0e-6)))
}

fn periodic_basis(coords: &[f64]) -> Matrix<F64> {
    let lines: Vec<Vec<F64>> = coords
        .iter()
        .map(|t| {
            let angle = 2.0 * std::f64::consts::PI * t;
            vec![F64(1.0), F64(angle.sin()), F64(angle.cos())]
        })
        .collect();
    Matrix::from_rows(3, &lines).unwrap()
}

#[test]
fn one_eigen_smoother_has_three_distinct_null_quantities() {
    let smoother_eigenvalue = 0.6_f64;
    let null = smoother_null(F64(smoother_eigenvalue));
    let expected_ev = null.expected_ev.0;
    let trace_influence = null.trace_influence.0;
    let expected_output_energy = null.expected_output_energy.0;
    assert_eq!(expected_ev, 2.0 * smoother_eigenvalue - smoother_eigenvalue.powi(2));
    assert_eq!(trace_influence, smoother_eigenvalue);
    assert_eq!(expected_output_energy, smoother_eigenvalue.powi(2));

    assert!(expected_ev > trace_influence);
    assert!(trace_influence > expected_output_energy);
    assert!(
        (expected_ev - trace_influence).abs() > f64::EPSILON
            && (trace_influence - expected_output_energy).abs() > f64::EPSILON,
        "one arbitrary q/n-style scalar cannot calibrate EV and output energy for a smoother"
    );
}

#[test]
fn centered_projection_null_is_four_ninths_not_five_tenths() {
    let null_ev = centered_free_projection_null_ev::<F64>(10, 5).unwrap().0;
    assert!((null_ev - 4.0 / 9.0).abs() < 1.0e-15);
    for observed in [0.4495_f64, 0.4887] {
        assert!(
            observed > null_ev,
            "reported EV {observed} exceeds the exact centered free-projection null {null_ev}"
        );
    }
}

#[test]
fn null_ev_refuses_short_samples_and_impossible_ranks() {
    assert_eq!(centered_free_projection_null_ev::<F64>(1, 1), Err(NullEvFault::TooFewRows));
    assert_eq!(
        centered_free_projection_null_ev::<F64>(4, 0),
        Err(NullEvFault::RankOutOfRange { n_rows: 4, rank: 0 })
    );
    assert_eq!(
        centered_free_projection_null_ev::<F64>(4, 5),
        Err(NullEvFault::RankOutOfRange { n_rows: 4, rank: 5 })
    );
    assert_eq!(centered_free_projection_null_ev::<F64>(4, 4), Ok(F64(1.0)));
}

#[test]
fn concatenated_chart_rank_uses_one_consistent_row_space_1610() {
    let n = 8usize;
    let coords_a = [0.0, 0.125, 0.25, 0.375, 0.5, 0.625, 0.75, 0.875];
    let coords_b = [0.3; 8];
    let phi_a = || periodic_basis(&coords_a);
    let phi_b = || periodic_basis(&coords_b);
    assert_eq!(concatenated_design_rank(&vec![phi_a()], n).unwrap(), 3);
    assert_eq!(concatenated_design_rank(&vec![phi_b()], n).unwrap(), 1);

    let union_rank =
        concatenated_design_rank(&vec![phi_a(), phi_b()], n).expect("valid union rank");
    assert_eq!(
        union_rank, 3,
        "the repeated chart contributes only the constant direction already in the full chart"
    );
    assert_eq!(
        concatenated_design_rank(&vec![phi_a(), phi_a()], n).unwrap(),
        3,
        "identical atom designs must not double-count a shared row subspace"
    );

    let short = periodic_basis(&coords_a[..n - 1]);
    assert!(
        concatenated_design_rank(&vec![short, phi_b()], n).is_err(),
        "a row-space mismatch must be rejected, never replaced by a summed-rank fallback"
    );
}

#[test]
fn concatenated_design_names_its_faults() {
    let good = || matrix(&[&[1.0, 2.0], &[3.0, 4.0]]);
    let tall = matrix(&[&[1.0], &[2.0], &[3.0]]);
    assert_eq!(
        concatenated_design(&vec![good(), tall], 2),
        Err(DesignFault::RowMismatch { atom: 1, found: 3 })
    );
    let broken = matrix(&[&[1.0], &[f64::NAN]]);
    assert_eq!(
        concatenated_design(&vec![broken, good()], 2),
        Err(DesignFault::NonFinite { atom: 0 })
    );
    let joined = concatenated_design(&vec![good(), matrix(&[&[5.0], &[6.0]])], 2).unwrap();
    assert_eq!(joined, vec![floats(&[1.0, 2.0, 5.0]), floats(&[3.0, 4.0, 6.0])]);
    assert_eq!(rank_of_singular_values(&floats(&[0.0, 0.0]), F64(1.0e-8)), 0);
    assert_eq!(rank_of_singular_values(&floats(&[4.0, 1.0, 1.0e-12]), F64(1.0e-8)), 2);
}

#[test]
fn clamp_basin_rows_need_a_repriced_spectrum_and_no_direction() {
    let cache = cache(
        vec![
            None,
            spectrum(&[1.0, -2.0], &[1.0, 0.5]),
            spectrum(&[1.0, 2.0], &[1.0, 2.0]),
            spectrum(&[1.0, -2.0], &[1.0, 0.5]),
            spectrum(&[-3.0], &[1.0]),
        ],
        vec![0, 0, 0, 1, 0],
        2,
    );
    assert_eq!(clamp_basin_rows(&cache), vec![1, 4]);
}

#[test]
fn cold_state_needs_a_spectral_row_and_a_border() {
    let spectral = |k: usize| cache(vec![None, spectrum(&[1.0], &[2.0])], vec![0, 0], k);
    assert_eq!(spectrally_deflated_cold_state(&spectral(2)), Ok(1));
    assert_eq!(spectrally_deflated_cold_state(&spectral(0)), Err(ColdStateFault::NoBorder));
    assert_eq!(
        spectrally_deflated_cold_state(&cache(vec![None], vec![0], 2)),
        Err(ColdStateFault::NoSpectralRow { gauge_directions: 3 })
    );
}

#[test]
fn deferred_curvature_is_two_blocks_per_edge() {
    let block = |first: usize| SeparationBarrierCurvature {
        coupling: matrix(&[&[2.0]]),
        carriers: vec![vec![
            CarrierRun { atom: first, values: floats(&[1.0, 2.0]) },
            CarrierRun { atom: 2, values: floats(&[3.0]) },
        ]],
    };
    let curvature =
        deferred_curvature(BarrierOutcome { active: true, curvature: vec![block(0)] }).unwrap();
    assert_eq!(curvature.len(), 1);
    assert!(curvature[0].carriers_are_two_blocks(&vec![2, 5, 1]));
    assert!(!curvature[0].carriers_are_two_blocks(&vec![2, 5, 2]));
    assert!(!block(2).carriers_are_two_blocks(&vec![2, 5, 1]));
    let inactive: BarrierOutcome<F64> = BarrierOutcome { active: false, curvature: vec![] };
    assert!(matches!(deferred_curvature(inactive), Err(BarrierFault::Inactive)));
}

#[test]
fn trace_and_residual_dof_of_a_small_response() {
    let (trace, dof) = trace_and_residual_dof(&matrix(&[&[0.5, 0.25], &[-1.0, 0.75]]));
    assert_eq!(trace, F64(1.25));
    assert_eq!(dof, F64(0.25 + 0.0625 + 1.0 + 0.0625));
}
