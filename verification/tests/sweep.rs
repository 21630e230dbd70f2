use laser_sweep::dispatch::failed_indices;
use laser_sweep::dispatch::WorkerFailure;
use laser_sweep::grid::saturation_grid;
use laser_sweep::sweep::sweep_cells;
use laser_sweep::sweep::NumericDomainError;

#[test]
fn grid_is_the_fixed_sixteen() {
    let g = saturation_grid();
    assert_eq!(g.len(), 16);
    for (j, s) in g.iter().enumerate() {
        assert_eq!(*s, 10000 + 1000 * j as u32);
    }
    for j in 1..g.len() {
        assert!(g[j - 1] < g[j]);
    }
}

#[test]
fn table_shape_two_powers() {
    // The concrete scenario's structure: powers [10, 20] give two
    // sixteen-row groups, saturation ascending along the fixed grid.
    let cells = sweep_cells(&vec![10, 20]).unwrap();
    assert_eq!(cells.len(), 32);
    for (k, cell) in cells.iter().enumerate() {
        let expected_power = if k < 16 { 10 } else { 20 };
        assert_eq!(cell.input_power, expected_power);
        assert_eq!(cell.saturation_intensity, 10000 + 1000 * (k % 16) as u32);
    }
}

#[test]
fn table_shape_length() {
    for n in 0..5usize {
        let powers: Vec<u32> = (1..=n as u32).collect();
        let cells = sweep_cells(&powers).unwrap();
        assert_eq!(cells.len(), 16 * n);
    }
}

#[test]
fn zero_power_rejected_before_any_cell() {
    let e = sweep_cells(&vec![10, 0, 20]).unwrap_err();
    assert_eq!(
        e,
        NumericDomainError { power_index: 1, input_power: 0 }
    );
    let e2 = sweep_cells(&vec![0]).unwrap_err();
    assert_eq!(e2.power_index, 0);
}

#[test]
fn empty_power_list_is_fine() {
    assert_eq!(sweep_cells(&Vec::new()).unwrap().len(), 0);
}

#[test]
fn plan_is_deterministic() {
    let powers = vec![10, 20, 30];
    let a = sweep_cells(&powers).unwrap();
    let b = sweep_cells(&powers).unwrap();
    assert_eq!(a, b);
}

#[test]
fn plan_per_laser_ignores_the_batch() {
    // Each worker's planned table depends only on the shared power
    // list: planning for a laser inside a batch of three gives the
    // same cells as planning for it alone.
    let powers = vec![7, 9];
    let alone = sweep_cells(&powers).unwrap();
    let batch: Vec<_> = (0..3).map(|_| sweep_cells(&powers).unwrap()).collect();
    for plan in batch {
        assert_eq!(plan, alone);
    }
}

#[test]
fn no_failures_means_success() {
    let outcomes: Vec<Option<WorkerFailure>> = vec![None, None, None];
    assert!(failed_indices(&outcomes).is_empty());
    assert!(failed_indices(&Vec::new()).is_empty());
}

#[test]
fn every_failure_is_reported() {
    let outcomes: Vec<Option<WorkerFailure>> = vec![
        Some(WorkerFailure::OutputFile),
        None,
        Some(WorkerFailure::Numeric(NumericDomainError {
            power_index: 0,
            input_power: 0,
        })),
    ];
    assert_eq!(failed_indices(&outcomes), vec![0, 2]);
}
