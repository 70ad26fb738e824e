use wave_function_collapse::constraints::{generate_constraints, ConstraintTable};
use wave_function_collapse::position::NDIM;
use wave_function_collapse::solver::{UpdateState, Wfc};
use wave_function_collapse::weights::WeightTable;

/// One axis and three tiles: ' #', '##', '# '.
fn simple_constraints() -> Vec<(usize, usize, i64, usize)> {
    vec![
        (0, 0, -1, 2),
        (0, 0, 1, 1),
        (0, 0, 1, 2),
        (1, 0, -1, 0),
        (1, 0, -1, 1),
        (1, 0, 1, 1),
        (1, 0, 1, 2),
        (2, 0, -1, 0),
        (2, 0, -1, 1),
        (2, 0, 1, 0),
    ]
}

/// Two axes and five tiles: four corners and a blank.
fn constraints_2d() -> Vec<(usize, usize, i64, usize)> {
    vec![
        (0, 0, 1, 2),
        (0, 0, 1, 3),
        (0, 0, -1, 2),
        (0, 0, -1, 3),
        (0, 0, -1, 4),
        (0, 1, 1, 1),
        (0, 1, 1, 2),
        (0, 1, 1, 4),
        (0, 1, -1, 1),
        (0, 1, -1, 2),
        (1, 0, 1, 2),
        (1, 0, 1, 3),
        (1, 0, -1, 2),
        (1, 0, -1, 3),
        (1, 0, -1, 4),
        (1, 1, 1, 0),
        (1, 1, 1, 3),
        (1, 1, -1, 0),
        (1, 1, -1, 3),
        (1, 1, -1, 4),
        (2, 0, 1, 0),
        (2, 0, 1, 1),
        (2, 0, 1, 4),
        (2, 0, -1, 0),
        (2, 0, -1, 1),
        (2, 1, 1, 0),
        (2, 1, 1, 3),
        (2, 1, -1, 0),
        (2, 1, -1, 3),
        (2, 1, -1, 4),
        (3, 0, 1, 0),
        (3, 0, 1, 1),
        (3, 0, 1, 4),
        (3, 0, -1, 0),
        (3, 0, -1, 1),
        (3, 1, 1, 1),
        (3, 1, 1, 2),
        (3, 1, 1, 4),
        (3, 1, -1, 1),
        (3, 1, -1, 2),
        (4, 0, 1, 0),
        (4, 0, 1, 1),
        (4, 0, 1, 4),
        (4, 0, -1, 2),
        (4, 0, -1, 3),
        (4, 0, -1, 4),
        (4, 1, 1, 1),
        (4, 1, 1, 2),
        (4, 1, 1, 4),
        (4, 1, -1, 0),
        (4, 1, -1, 3),
        (4, 1, -1, 4),
    ]
}

/// The scale of the fixed-point entropy terms.
const SCALE: f64 = 4294967296.0;

/// The entropy terms of the given weights: `-p * log2(p)` of each share.
fn entropy_terms(weights: &[u64]) -> Vec<u64> {
    let sum: f64 = weights.iter().map(|w| *w as f64).sum();
    weights
        .iter()
        .map(|w| {
            let p = *w as f64 / sum;
            (-(p * p.log2()) * SCALE).round() as u64
        })
        .collect()
}

fn table(weights: Vec<u64>) -> WeightTable {
    let terms = entropy_terms(&weights);
    WeightTable::new(weights, terms).unwrap()
}

fn simple_init() -> Wfc {
    let constraints = generate_constraints(simple_constraints());
    Wfc::new(constraints, table(vec![1, 1, 1]), 42)
}

fn init_2d() -> Wfc {
    let constraints = generate_constraints(constraints_2d());
    Wfc::new(constraints, table(vec![1, 1, 1, 1, 1]), 42)
}

fn one_hot(tiles: usize, tile: usize) -> Vec<bool> {
    (0..tiles).map(|t| t == tile).collect()
}

#[test]
fn gen_contraints() {
    let contraints_list = simple_constraints();
    let constraints: ConstraintTable = generate_constraints(contraints_list);
    assert_eq!(constraints.get(0, 0, -1), Some(&vec![2]));
    assert_eq!(constraints.get(0, 0, 1), Some(&vec![1, 2]));
    assert!(constraints.get(0, 1, 1).is_none());
}

#[test]
fn init_wfc() {
    let wfc = simple_init();

    assert_eq!(wfc.collapsed_len(), 0);
    assert_eq!(wfc.wavefront_len(), 0);
    assert_eq!(wfc.constraints_len(), 6);
}

#[test]
fn init_wfc_2d() {
    let wfc = init_2d();

    assert_eq!(wfc.collapsed_len(), 0);
    assert_eq!(wfc.wavefront_len(), 0);
    assert_eq!(wfc.constraints_len(), 20);
}

#[test]
fn state_for_index() {
    let wfc = simple_init();
    let state = wfc.state_from_idx(0);
    assert!(state.len() == 3);
    assert!(state[0]);
    assert!(!state[1]);
    assert!(!state[2]);
}

#[test]
fn entropy() {
    let wfc = simple_init();

    let state = vec![true, true, true];
    let target = f64::log2(1.0 / 3.0) * 1.0 / 3.0 * 3.0 * -1.0;
    let score = wfc.entropy(&state) as f64 / SCALE;
    assert!((score - target).abs() < 1e-6);
    let state2 = vec![true, true, false];
    assert!(wfc.entropy(&state) > wfc.entropy(&state2));
}

#[test]
fn test_update_neighbor() {
    let mut wfc = simple_init();
    assert!(wfc.set_state_at([0; NDIM], one_hot(3, 0)));
    let update_result = wfc.update_neighbor(&[0; NDIM], (0, 1));
    assert_eq!(update_result, UpdateState::Updated);
    assert_eq!(wfc.wavefront_at(&[1, 0, 0, 0]), Some(vec![false, true, true]));
    let update_result = wfc.update_neighbor(&[0; NDIM], (0, -1));
    assert_eq!(update_result, UpdateState::Updated);
    assert_eq!(wfc.collapsed_at(&[-1, 0, 0, 0]), Some(2));
}

#[test]
fn test_update_neighbor_2d() {
    let mut wfc = init_2d();
    assert!(wfc.set_state_at([0; NDIM], one_hot(5, 0)));
    let update_result = wfc.update_neighbor(&[0; NDIM], (0, 1));
    assert_eq!(update_result, UpdateState::Updated);
    assert_eq!(
        wfc.wavefront_at(&[1, 0, 0, 0]),
        Some(vec![false, false, true, true, false])
    );
    let update_result = wfc.update_neighbor(&[0; NDIM], (0, -1));
    assert_eq!(update_result, UpdateState::Updated);
    assert_eq!(
        wfc.wavefront_at(&[-1, 0, 0, 0]),
        Some(vec![false, false, true, true, true])
    );
    assert!(wfc.set_state_at([1, 1, 0, 0], one_hot(5, 0)));
    let update_result = wfc.update_neighbor(&[1, 1, 0, 0], (1, -1));
    assert_eq!(update_result, UpdateState::Updated);
    assert_eq!(wfc.collapsed_at(&[1, 0, 0, 0]), Some(2));
}

#[test]
fn test_propagate() {
    let mut wfc = simple_init();
    assert!(wfc.set_state_at([0; NDIM], one_hot(3, 0)));
    let propagate_success = wfc.propagate([0; NDIM]);
    assert!(propagate_success);
    assert_eq!(wfc.collapsed_at(&[-1, 0, 0, 0]), Some(2));
    assert_eq!(wfc.wavefront_at(&[1, 0, 0, 0]), Some(vec![false, true, true]));
    assert_eq!(wfc.wavefront_at(&[-2, 0, 0, 0]), Some(vec![true, true, false]));
}

#[test]
fn test_propagate_2d() {
    let mut wfc = init_2d();
    assert!(wfc.set_state_at([0; NDIM], one_hot(5, 0)));
    let propagate_success = wfc.propagate([0; NDIM]);
    assert!(propagate_success);
}

#[test]
fn collapse() {
    let mut wfc = simple_init();
    let collapse_success = wfc.collapse([0; NDIM]);
    assert!(collapse_success);
}

#[test]
fn collapse_2d() {
    let mut wfc = init_2d();
    let collapse_success = wfc.collapse([0; NDIM]);
    assert!(collapse_success);
}

#[test]
fn cell_to_collapse() {
    let mut wfc = init_2d();
    let cell = wfc.cell_to_collapse();
    assert_eq!(cell, [0, 0, 0, 0]);

    assert!(wfc.set_state_at([0; NDIM], one_hot(5, 0)));
    assert!(wfc.set_state_at([0, 1, 0, 0], vec![true, true, true, true, true]));
    let cell = wfc.cell_to_collapse();
    assert_eq!(cell, [0, 1, 0, 0]);

    assert!(wfc.set_state_at([0, -1, 0, 0], vec![true, true, true, true, true]));
    let cell = wfc.cell_to_collapse();
    assert_eq!(cell, [0, 1, 0, 0]);

    assert!(wfc.set_state_at([1, 0, 0, 0], vec![true, true, true, true, true]));
    let cell = wfc.cell_to_collapse();
    assert_eq!(cell, [1, 0, 0, 0]);
}

#[test]
fn step_n() {
    let mut wfc = simple_init();
    assert!(wfc.step());
    assert!(wfc.step());
    assert!(wfc.step());
    assert!(wfc.step());
    assert!(wfc.step());
    assert_eq!(wfc.wavefront_len(), 2);
}

#[test]
fn step_n_2d() {
    let mut wfc = init_2d();
    for i in 0..10 {
        let len_collapsed = wfc.collapsed_len();
        assert!(wfc.step());
        assert!(
            wfc.collapsed_len() > len_collapsed,
            "Collapsed count didnt increase at step # {}",
            i
        );
    }
}
