use qufit::container::{DataContainer, GridExtents};
use qufit::param_map::{FitOutcome, ParamMap};
use qufit::ShapeError;

fn lorentzian_dip(x: f64, a: f64, gamma: f64, x0: f64) -> f64 {
    1.0 - a / std::f64::consts::PI * gamma / ((x - x0).powi(2) + gamma.powi(2))
}

/// A 2 x 1 x 150 x 3 x 3 stack with the same Lorentzian sweep at every pixel.
fn lorentzian_stack() -> (DataContainer<f64>, Vec<f64>) {
    let n = 150;
    let sweep: Vec<f64> = (0..n)
        .map(|k| lorentzian_dip(k as f64 / (n - 1) as f64, 0.5, 0.2, 0.6))
        .collect();
    let mut values = vec![0.0; 2 * n * 9];
    for c in 0..2 {
        for k in 0..n {
            for p in 0..9 {
                values[(c * n + k) * 9 + p] = sweep[k];
            }
        }
    }
    (DataContainer::from_parts(vec![2, 1, n, 3, 3], values).unwrap(), sweep)
}

#[test]
fn lorentzian_stack_gives_identical_sweeps_and_a_three_by_three_map() {
    let (data, sweep) = lorentzian_stack();
    assert_eq!(data.grid_extents(), Ok(GridExtents { rows: 3, cols: 3 }));
    let sweeps = data.sweeps().unwrap();
    assert_eq!(sweeps.len(), 9);
    for s in &sweeps {
        assert_eq!(s, &sweep);
    }
    let outcomes: Vec<FitOutcome<f64>> =
        (0..9).map(|_| FitOutcome::Converged(vec![0.5, 0.2, 0.6])).collect();
    let map = data.assemble_fits(3, &outcomes, 0.0).unwrap();
    assert_eq!((map.rows(), map.cols(), map.params()), (3, 3, 3));
    let values = map.into_values();
    for p in 0..9 {
        assert_eq!(&values[p * 3..p * 3 + 3], &[0.5, 0.2, 0.6]);
    }
}

#[test]
fn sweep_reads_the_sample_axis_of_one_pixel() {
    // shape (1, 1, 2, 2, 3): value = 100 * k + 10 * i + j
    let mut values = Vec::new();
    for k in 0..2u64 {
        for i in 0..2u64 {
            for j in 0..3u64 {
                values.push(100 * k + 10 * i + j);
            }
        }
    }
    let data = DataContainer::from_parts(vec![1, 1, 2, 2, 3], values).unwrap();
    assert_eq!(data.sweep(1, 2), vec![12, 112]);
    assert_eq!(data.sweep(0, 0), vec![0, 100]);
    let all = data.sweeps().unwrap();
    assert_eq!(all[5], vec![12, 112]);
    assert_eq!(all[1], vec![1, 101]);
}

#[test]
fn one_spatial_axis_gives_a_single_column_map() {
    // shape (1, 2, 3, 4): a line of four pixels
    let values: Vec<u32> = (0..24).collect();
    let data = DataContainer::from_parts(vec![1, 2, 3, 4], values).unwrap();
    assert_eq!(data.grid_extents(), Ok(GridExtents { rows: 4, cols: 1 }));
    assert_eq!(data.sweep(2, 0), vec![2, 6, 10]);
    let outcomes: Vec<FitOutcome<u32>> =
        (0..4).map(|i| FitOutcome::Converged(vec![i, i, i, i])).collect();
    let map = data.assemble_fits(4, &outcomes, 0).unwrap();
    assert_eq!((map.rows(), map.cols(), map.params()), (4, 1, 4));
}

#[test]
fn unsupported_ranks_are_refused() {
    let data = DataContainer::from_parts(vec![1, 1, 5], vec![0.0; 5]).unwrap();
    assert_eq!(data.grid_extents(), Err(ShapeError::UnsupportedRank { ndim: 3 }));
    assert_eq!(data.sweeps().err(), Some(ShapeError::UnsupportedRank { ndim: 3 }));
    let data = DataContainer::from_parts(vec![1, 1, 1, 1, 1, 1], vec![0.0]).unwrap();
    assert_eq!(data.grid_extents(), Err(ShapeError::UnsupportedRank { ndim: 6 }));
}

#[test]
fn empty_reference_axis_is_refused() {
    let data = DataContainer::<f64>::from_parts(vec![0, 1, 5, 2], vec![]).unwrap();
    assert_eq!(data.grid_extents(), Err(ShapeError::EmptyAxis { axis: 0 }));
}

#[test]
fn wrong_number_of_values_is_refused() {
    let r = DataContainer::from_parts(vec![2, 3], vec![1.0; 5]);
    assert_eq!(r.err(), Some(ShapeError::LengthMismatch { values: 5 }));
}

#[test]
fn wrong_number_of_outcomes_is_refused() {
    let data = DataContainer::from_parts(vec![1, 1, 2, 2, 2], vec![0.0; 8]).unwrap();
    let outcomes: Vec<FitOutcome<f64>> = (0..3).map(|_| FitOutcome::Failed).collect();
    assert_eq!(
        data.assemble_fits(3, &outcomes, 0.0).err(),
        Some(ShapeError::OutcomeCount { found: 3 })
    );
}

#[test]
fn failed_pixel_gets_zeros_and_neighbours_keep_their_fits() {
    let outcomes = vec![
        FitOutcome::Converged(vec![1.0, 2.0, 3.0]),
        FitOutcome::Failed,
        FitOutcome::Converged(vec![4.0, 5.0, 6.0]),
        FitOutcome::Converged(vec![7.0, 8.0, 9.0]),
    ];
    let map = ParamMap::assemble(2, 2, 3, &outcomes, 0.0);
    assert_eq!(
        map.into_values(),
        vec![1.0, 2.0, 3.0, 0.0, 0.0, 0.0, 4.0, 5.0, 6.0, 7.0, 8.0, 9.0]
    );
}

#[test]
fn placing_pixels_in_reverse_order_gives_the_same_map() {
    let outcomes: Vec<FitOutcome<i64>> = (0..6)
        .map(|p| if p == 4 { FitOutcome::Failed } else { FitOutcome::Converged(vec![p, -p]) })
        .collect();
    let forward = ParamMap::assemble(3, 2, 2, &outcomes, 0);
    let mut backward = ParamMap::filled(3, 2, 2, 99);
    for p in (0..6).rev() {
        backward.place(p / 2, p % 2, &outcomes[p], 0);
    }
    assert_eq!(forward.into_values(), backward.into_values());
}

#[test]
fn place_touches_one_pixel_only() {
    let mut map = ParamMap::filled(2, 2, 2, 7u8);
    map.place(1, 0, &FitOutcome::Converged(vec![1, 2]), 0);
    assert_eq!(map.into_values(), vec![7, 7, 7, 7, 1, 2, 7, 7]);
    let mut map = ParamMap::filled(1, 2, 2, 7u8);
    map.place(0, 1, &FitOutcome::Failed, 0);
    assert_eq!(map.into_values(), vec![7, 7, 0, 0]);
}

#[test]
fn single_pixel_grid_gives_a_one_by_one_map() {
    let data = DataContainer::from_parts(vec![1, 1, 4, 1, 1], vec![1.0, 2.0, 3.0, 4.0]).unwrap();
    assert_eq!(data.sweeps().unwrap(), vec![vec![1.0, 2.0, 3.0, 4.0]]);
    let outcomes = vec![FitOutcome::Converged(vec![0.1, 0.2, 0.3, 0.4])];
    let map = data.assemble_fits(4, &outcomes, 0.0).unwrap();
    assert_eq!((map.rows(), map.cols(), map.params()), (1, 1, 4));
    assert_eq!(map.into_values(), vec![0.1, 0.2, 0.3, 0.4]);
}

#[test]
fn sweeps_of_a_pixel_major_cube() {
    // shape (2, 2, 3) with the sweep last
    let values: Vec<u32> = (0..12).collect();
    let sweeps = qufit::container::pixel_major_sweeps(&values, 2, 2, 3);
    assert_eq!(sweeps, vec![vec![0, 1, 2], vec![3, 4, 5], vec![6, 7, 8], vec![9, 10, 11]]);
}
