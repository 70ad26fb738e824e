use std::collections::VecDeque;

use wave_function_collapse::constraints::generate_constraints;
use wave_function_collapse::instance::{
    init_instance, read_state, step, InitStatus, Instance, DEFAULT_SEED,
};
use wave_function_collapse::solver::{UpdateState, Wfc};
use wave_function_collapse::weights::WeightTable;

type Rule = (usize, usize, i64, usize);

fn chain_rules() -> Vec<Rule> {
    vec![
        (0, 0, -1, 2),
        (0, 0, 1, 1),
        (0, 0, 1, 2),
        (1, 0, -1, 0),
        (1, 0, -1, 1),
        (1, 0, 1, 1),
        (1, 0, 1, 2),
        (2, 0, -1, 0),
        (2, 0, -1, 1),
        (2, 0, 1, 0),
    ]
}

/// Tile 0 allows 1 and 2 to its right; tile 3 allows only 0 to its left.
fn clash_rules() -> Vec<Rule> {
    vec![(0, 0, 1, 1), (0, 0, 1, 2), (3, 0, -1, 0)]
}

fn solver(rules: Vec<Rule>, tiles: usize, seed: u64) -> Wfc {
    let table = WeightTable::new(vec![1; tiles], vec![1000; tiles]).unwrap();
    Wfc::new(generate_constraints(rules), table, seed)
}

fn one_hot(tiles: usize, tile: usize) -> Vec<bool> {
    (0..tiles).map(|t| t == tile).collect()
}

fn sorted(mut rows: Vec<Vec<i64>>) -> Vec<Vec<i64>> {
    rows.sort();
    rows
}

#[test]
fn neighbours_are_taken_axis_by_axis_forward_first() {
    let wfc = solver(chain_rules(), 3, 42);
    assert_eq!(
        wfc.neighbors(),
        vec![(0, 1), (0, -1), (1, 1), (1, -1), (2, 1), (2, -1), (3, 1), (3, -1)]
    );
}

#[test]
fn fresh_solver_states() {
    let wfc = solver(chain_rules(), 3, 42);
    assert_eq!(wfc.init_state(), vec![true, true, true]);
    assert_eq!(wfc.state_from_idx(2), vec![false, false, true]);
    assert_eq!(wfc.state_at(&[4, 5, 6, 7]), vec![true, true, true]);
    assert_eq!(wfc.read_state(), Vec::<Vec<i64>>::new());
}

#[test]
fn solver_draws_follow_the_generator() {
    let mut wfc = solver(chain_rules(), 3, 42);
    assert_eq!(wfc.rng_next(), 1083814273);
    assert_eq!(wfc.rng_next(), 378494188);
}

#[test]
fn select_random_tile_draws_once() {
    let mut wfc = solver(chain_rules(), 3, 42);
    // the first draw is 1083814273, below the first third of the range
    assert_eq!(wfc.select_random_tile(vec![0, 1, 2]), 0);
    // the second draw is 378494188
    assert_eq!(wfc.select_random_tile(vec![1, 2]), 1);
    // the third draw is 2479403867, above half of the range
    assert_eq!(wfc.select_random_tile(vec![1, 2]), 2);
    assert_eq!(wfc.rng_next(), 955863294);
}

#[test]
fn exclude_without_effect_does_nothing() {
    let mut wfc = solver(chain_rules(), 3, 42);
    assert!(wfc.set_state_at([1, 0, 0, 0], vec![true, false, true]));
    let state = wfc.exclude(&vec![false, true, false], [1, 0, 0, 0]);
    assert_eq!(state, UpdateState::NothingToDo);
    assert_eq!(wfc.wavefront_at(&[1, 0, 0, 0]), Some(vec![true, false, true]));
    let state = wfc.exclude(&vec![false, false, false], [2, 0, 0, 0]);
    assert_eq!(state, UpdateState::NothingToDo);
    assert_eq!(wfc.wavefront_len(), 1);
}

#[test]
fn exclude_narrows_an_untouched_point() {
    let mut wfc = solver(chain_rules(), 3, 42);
    let state = wfc.exclude(&vec![true, false, false], [5, 0, 0, 0]);
    assert_eq!(state, UpdateState::Updated);
    assert_eq!(wfc.wavefront_at(&[5, 0, 0, 0]), Some(vec![false, true, true]));
}

#[test]
fn exclude_promotes_to_collapsed() {
    let mut wfc = solver(chain_rules(), 3, 42);
    let state = wfc.exclude(&vec![true, false, true], [5, 0, 0, 0]);
    assert_eq!(state, UpdateState::Updated);
    assert_eq!(wfc.collapsed_at(&[5, 0, 0, 0]), Some(1));
    assert_eq!(wfc.wavefront_at(&[5, 0, 0, 0]), None);
    assert_eq!(wfc.wavefront_len(), 0);
}

#[test]
fn exclude_that_empties_a_domain_changes_nothing() {
    let mut wfc = solver(chain_rules(), 3, 42);
    assert!(wfc.set_state_at([1, 0, 0, 0], vec![true, false, true]));
    let state = wfc.exclude(&vec![true, false, true], [1, 0, 0, 0]);
    assert_eq!(state, UpdateState::ImpossibleState);
    assert_eq!(wfc.wavefront_at(&[1, 0, 0, 0]), Some(vec![true, false, true]));
    assert!(wfc.set_state_at([2, 0, 0, 0], one_hot(3, 1)));
    let state = wfc.exclude(&vec![false, true, false], [2, 0, 0, 0]);
    assert_eq!(state, UpdateState::ImpossibleState);
    assert_eq!(wfc.collapsed_at(&[2, 0, 0, 0]), Some(1));
}

#[test]
fn a_tile_without_rule_leaves_the_step_unconstrained() {
    // only tile 0 has a rule to the right; a point that may still be tile 1
    // puts no constraint on its right neighbour
    let mut wfc = solver(vec![(0, 0, 1, 0)], 2, 42);
    assert!(wfc.set_state_at([0, 0, 0, 0], vec![true, true]));
    assert_eq!(wfc.update_neighbor(&[0, 0, 0, 0], (0, 1)), UpdateState::NothingToDo);
    assert_eq!(wfc.state_at(&[1, 0, 0, 0]), vec![true, true]);
    assert_eq!(wfc.update_neighbor(&[0, 0, 0, 0], (1, 1)), UpdateState::NothingToDo);
    assert_eq!(wfc.wavefront_len(), 1);
}

#[test]
fn every_allowed_tile_with_a_rule_gives_the_union() {
    let mut wfc = solver(vec![(0, 0, 1, 0), (1, 0, 1, 2), (2, 0, 1, 1)], 4, 42);
    assert!(wfc.set_state_at([0, 0, 0, 0], vec![true, true, false, false]));
    assert_eq!(wfc.update_neighbor(&[0, 0, 0, 0], (0, 1)), UpdateState::Updated);
    assert_eq!(wfc.wavefront_at(&[1, 0, 0, 0]), Some(vec![true, false, true, false]));
}

#[test]
fn allowed_tiles_outside_the_universe_are_ignored() {
    let mut wfc = solver(vec![(0, 0, 1, 1), (0, 0, 1, 17)], 3, 42);
    assert!(wfc.set_state_at([0, 0, 0, 0], one_hot(3, 0)));
    assert_eq!(wfc.update_neighbor(&[0, 0, 0, 0], (0, 1)), UpdateState::Updated);
    assert_eq!(wfc.collapsed_at(&[1, 0, 0, 0]), Some(1));
}

#[test]
fn propagation_reaches_a_fixed_point() {
    let mut wfc = solver(chain_rules(), 3, 42);
    assert!(wfc.set_state_at([0; 4], one_hot(3, 0)));
    assert!(wfc.propagate([0; 4]));
    let collapsed = wfc.collapsed_len();
    let wavefront = wfc.wavefront_len();
    // a second propagation from any touched point changes nothing
    for x in -3..3 {
        assert!(wfc.propagate([x, 0, 0, 0]));
        for axis in 0..4 {
            for dir in [1, -1] {
                assert_eq!(
                    wfc.update_neighbor(&[x, 0, 0, 0], (axis, dir)),
                    UpdateState::NothingToDo
                );
            }
        }
    }
    assert_eq!(wfc.collapsed_len(), collapsed);
    assert_eq!(wfc.wavefront_len(), wavefront);
}

#[test]
fn propagation_meets_a_contradiction() {
    let mut wfc = solver(clash_rules(), 4, 42);
    assert!(wfc.set_state_at([0, 0, 0, 0], one_hot(4, 0)));
    assert!(wfc.propagate([0, 0, 0, 0]));
    assert_eq!(wfc.wavefront_at(&[1, 0, 0, 0]), Some(vec![false, true, true, false]));
    assert_eq!(wfc.collapsed_len(), 1);
    assert_eq!(wfc.wavefront_len(), 1);

    // tile 3 two steps to the right wants tile 0 between the two
    assert!(wfc.set_state_at([2, 0, 0, 0], one_hot(4, 3)));
    assert!(!wfc.propagate([2, 0, 0, 0]));

    // the lattice is as it was when the contradiction was met
    assert_eq!(wfc.collapsed_at(&[0, 0, 0, 0]), Some(0));
    assert_eq!(wfc.collapsed_at(&[2, 0, 0, 0]), Some(3));
    assert_eq!(wfc.wavefront_at(&[1, 0, 0, 0]), Some(vec![false, true, true, false]));
    assert_eq!(wfc.collapsed_len(), 2);
    assert_eq!(wfc.wavefront_len(), 1);
}

#[test]
fn propagation_keeps_what_it_narrowed_before_a_contradiction() {
    // tile 3 also narrows its right neighbour, which is visited first
    let mut rules = clash_rules();
    rules.push((3, 0, 1, 1));
    rules.push((3, 0, 1, 2));
    let mut wfc = solver(rules, 4, 42);
    assert!(wfc.set_state_at([0, 0, 0, 0], one_hot(4, 0)));
    assert!(wfc.propagate([0, 0, 0, 0]));
    assert!(wfc.set_state_at([2, 0, 0, 0], one_hot(4, 3)));
    assert!(!wfc.propagate([2, 0, 0, 0]));
    assert_eq!(wfc.wavefront_at(&[3, 0, 0, 0]), Some(vec![false, true, true, false]));
    assert_eq!(wfc.wavefront_at(&[1, 0, 0, 0]), Some(vec![false, true, true, false]));
    assert_eq!(wfc.wavefront_len(), 2);
    assert_eq!(wfc.collapsed_len(), 2);
}

#[test]
fn step_reports_a_contradiction() {
    // tile 0 wants tile 1 to its right, and tile 1 wants tile 1 to its left
    let rules = vec![(0, 0, 1, 1), (1, 0, -1, 1)];
    let mut wfc = solver(rules, 2, 42);
    // the first draw from seed 42 picks tile 0 of two equal tiles
    assert!(!wfc.step());
    // the choice and the narrowing before the contradiction stay
    assert_eq!(wfc.collapsed_at(&[0, 0, 0, 0]), Some(0));
    assert_eq!(wfc.collapsed_at(&[1, 0, 0, 0]), Some(1));
    assert_eq!(wfc.collapsed_len(), 2);
    assert_eq!(wfc.wavefront_len(), 0);
}

#[test]
fn collapsing_a_collapsed_point_changes_nothing() {
    let mut wfc = solver(chain_rules(), 3, 42);
    assert!(wfc.collapse([0; 4]));
    let rows = sorted(wfc.read_state());
    let collapsed = wfc.collapsed_len();
    let wavefront = wfc.wavefront_len();
    let left = wfc.state_at(&[-2, 0, 0, 0]);
    let right = wfc.state_at(&[2, 0, 0, 0]);

    assert!(wfc.collapse([0; 4]));
    assert!(wfc.collapse([0; 4]));

    assert_eq!(sorted(wfc.read_state()), rows);
    assert_eq!(wfc.collapsed_len(), collapsed);
    assert_eq!(wfc.wavefront_len(), wavefront);
    assert_eq!(wfc.state_at(&[-2, 0, 0, 0]), left);
    assert_eq!(wfc.state_at(&[2, 0, 0, 0]), right);
    // no draw was spent: the generator is where the first collapse left it
    assert_eq!(wfc.rng_next(), 378494188);
}

#[test]
fn collapse_commits_the_weighted_choice() {
    let mut wfc = solver(chain_rules(), 3, 42);
    // the first draw from seed 42 picks tile 0 of three equal tiles
    assert!(wfc.collapse([0; 4]));
    assert_eq!(wfc.collapsed_at(&[0; 4]), Some(0));
    assert_eq!(wfc.collapsed_at(&[-1, 0, 0, 0]), Some(2));
    assert_eq!(wfc.wavefront_at(&[1, 0, 0, 0]), Some(vec![false, true, true]));
    assert_eq!(wfc.wavefront_at(&[-2, 0, 0, 0]), Some(vec![true, true, false]));
}

#[test]
fn collapse_in_an_empty_universe_fails() {
    let mut wfc = solver(vec![], 0, 42);
    assert!(!wfc.collapse([0; 4]));
    assert!(!wfc.step());
    assert_eq!(wfc.collapsed_len(), 0);
    assert_eq!(wfc.wavefront_len(), 0);
}

#[test]
fn scheduler_prefers_the_lower_entropy() {
    let table = WeightTable::new(vec![1, 1, 1], vec![10, 10, 10]).unwrap();
    let mut wfc = Wfc::new(generate_constraints(vec![]), table, 42);
    assert!(wfc.set_state_at([0, 1, 0, 0], vec![true, true, true]));
    assert!(wfc.set_state_at([7, -7, 7, 7], vec![true, false, true]));
    assert_eq!(wfc.cell_to_collapse(), [7, -7, 7, 7]);
}

#[test]
fn scheduler_weighs_the_tiles_that_remain() {
    let table = WeightTable::new(vec![1, 1, 1], vec![50, 10, 10]).unwrap();
    let mut wfc = Wfc::new(generate_constraints(vec![]), table, 42);
    assert!(wfc.set_state_at([1, 0, 0, 0], vec![true, true, false]));
    assert!(wfc.set_state_at([5, 5, 5, 5], vec![false, true, true]));
    assert_eq!(wfc.cell_to_collapse(), [5, 5, 5, 5]);
}

#[test]
fn scheduler_does_not_depend_on_the_order_of_the_wavefront() {
    let points = [[0, 1, 0, 0], [0, -1, 0, 0], [1, 0, 0, 0], [0, 0, -1, 0], [2, 0, 0, 0]];
    let orders: [[usize; 5]; 4] =
        [[0, 1, 2, 3, 4], [4, 3, 2, 1, 0], [2, 0, 4, 1, 3], [3, 4, 0, 2, 1]];
    for order in orders {
        let mut wfc = solver(chain_rules(), 3, 42);
        for i in order {
            assert!(wfc.set_state_at(points[i], vec![true, true, true]));
        }
        assert_eq!(wfc.cell_to_collapse(), [1, 0, 0, 0]);
    }
}

#[test]
fn steps_are_reproducible() {
    let mut a = solver(chain_rules(), 3, 42);
    let mut b = solver(chain_rules(), 3, 42);
    for _ in 0..5 {
        assert_eq!(a.step(), b.step());
        assert_eq!(a.read_state(), b.read_state());
        assert_eq!(a.wavefront_len(), b.wavefront_len());
    }
    assert_eq!(a.wavefront_len(), 2);
    assert_eq!(a.rng_next(), b.rng_next());
}

#[test]
fn five_steps_from_seed_42() {
    let mut wfc = solver(chain_rules(), 3, 42);
    for _ in 0..5 {
        assert!(wfc.step());
    }
    assert_eq!(wfc.wavefront_len(), 2);
    // the collapsed points form one segment of the first axis
    let rows = sorted(wfc.read_state());
    assert!(rows.len() >= 5);
    for pair in rows.windows(2) {
        assert_eq!(pair[0][0] + 1, pair[1][0]);
    }
    for row in &rows {
        assert_eq!(row.len(), 5);
        assert_eq!(&row[1..4], &[0, 0, 0]);
        assert!((0..3).contains(&row[4]));
    }
    // every pair of neighbours obeys the rules
    let rules = generate_constraints(chain_rules());
    for pair in rows.windows(2) {
        let left = pair[0][4] as usize;
        let right = pair[1][4] as usize;
        assert!(rules.get(left, 0, 1).unwrap().contains(&right));
        assert!(rules.get(right, 0, -1).unwrap().contains(&left));
    }
}

/// Propagation with a first-in-first-out worklist, made of single
/// narrowings.
fn propagate_fifo(wfc: &mut Wfc, start: [i64; 4]) -> bool {
    let mut queue = VecDeque::new();
    queue.push_back(start);
    while let Some(pos) = queue.pop_front() {
        for (axis, dir) in wfc.neighbors().into_iter().rev() {
            match wfc.update_neighbor(&pos, (axis, dir)) {
                UpdateState::Updated => {
                    let mut next = pos;
                    next[axis] += dir;
                    queue.push_back(next);
                }
                UpdateState::ImpossibleState => return false,
                UpdateState::NothingToDo => {}
            }
        }
    }
    true
}

fn rules_2d() -> Vec<Rule> {
    vec![
        (0, 0, 1, 2),
        (0, 0, 1, 3),
        (0, 0, -1, 2),
        (0, 0, -1, 3),
        (0, 0, -1, 4),
        (0, 1, 1, 1),
        (0, 1, 1, 2),
        (0, 1, 1, 4),
        (0, 1, -1, 1),
        (0, 1, -1, 2),
        (1, 0, 1, 2),
        (1, 0, 1, 3),
        (1, 0, -1, 2),
        (1, 0, -1, 3),
        (1, 0, -1, 4),
        (1, 1, 1, 0),
        (1, 1, 1, 3),
        (1, 1, -1, 0),
        (1, 1, -1, 3),
        (1, 1, -1, 4),
        (2, 0, 1, 0),
        (2, 0, 1, 1),
        (2, 0, 1, 4),
        (2, 0, -1, 0),
        (2, 0, -1, 1),
        (2, 1, 1, 0),
        (2, 1, 1, 3),
        (2, 1, -1, 0),
        (2, 1, -1, 3),
        (2, 1, -1, 4),
        (3, 0, 1, 0),
        (3, 0, 1, 1),
        (3, 0, 1, 4),
        (3, 0, -1, 0),
        (3, 0, -1, 1),
        (3, 1, 1, 1),
        (3, 1, 1, 2),
        (3, 1, 1, 4),
        (3, 1, -1, 1),
        (3, 1, -1, 2),
        (4, 0, 1, 0),
        (4, 0, 1, 1),
        (4, 0, 1, 4),
        (4, 0, -1, 2),
        (4, 0, -1, 3),
        (4, 0, -1, 4),
        (4, 1, 1, 1),
        (4, 1, 1, 2),
        (4, 1, 1, 4),
        (4, 1, -1, 0),
        (4, 1, -1, 3),
        (4, 1, -1, 4),
    ]
}

#[test]
fn propagation_does_not_depend_on_the_worklist_order() {
    let collapses: [([i64; 4], usize); 3] =
        [([0, 0, 0, 0], 0), ([2, 1, 0, 0], 4), ([-1, -2, 0, 0], 1)];
    let mut lifo = solver(rules_2d(), 5, 42);
    let mut fifo = solver(rules_2d(), 5, 42);
    for (pos, tile) in collapses {
        let stored_lifo = lifo.set_state_at(pos, one_hot(5, tile));
        let stored_fifo = fifo.set_state_at(pos, one_hot(5, tile));
        assert_eq!(stored_lifo, stored_fifo);
        if !stored_lifo {
            continue;
        }
        assert!(lifo.propagate(pos));
        assert!(propagate_fifo(&mut fifo, pos));
        assert_eq!(sorted(lifo.read_state()), sorted(fifo.read_state()));
        assert_eq!(lifo.wavefront_len(), fifo.wavefront_len());
        for x in -6..7 {
            for y in -6..7 {
                assert_eq!(lifo.wavefront_at(&[x, y, 0, 0]), fifo.wavefront_at(&[x, y, 0, 0]));
                assert_eq!(lifo.collapsed_at(&[x, y, 0, 0]), fifo.collapsed_at(&[x, y, 0, 0]));
            }
        }
    }
    assert!(lifo.collapsed_len() >= 3);
}

#[test]
fn read_state_has_one_row_per_collapsed_point() {
    let mut wfc = solver(chain_rules(), 3, 42);
    assert!(wfc.set_state_at([3, -4, 5, -6], one_hot(3, 2)));
    assert!(wfc.set_state_at([0, 0, 0, 1], one_hot(3, 1)));
    assert!(wfc.set_state_at([9, 9, 9, 9], vec![true, true, false]));
    assert_eq!(
        sorted(wfc.read_state()),
        vec![vec![0, 0, 0, 1, 1], vec![3, -4, 5, -6, 2]]
    );
}

#[test]
fn handle_starts_empty() {
    let mut handle = Instance::new();
    assert!(!handle.is_initialized());
    assert!(!step(&mut handle));
    assert!(!handle.is_initialized());
    assert_eq!(read_state(&handle), Vec::<Vec<i64>>::new());
}

#[test]
fn handle_is_initialised_once() {
    let mut handle = Instance::new();
    let status = init_instance(&mut handle, chain_rules(), vec![1, 1, 1], vec![7, 7, 7], Some(42));
    assert_eq!(status, InitStatus::Ready);
    assert!(handle.is_initialized());
    assert!(step(&mut handle));
    let rows = read_state(&handle);
    assert!(!rows.is_empty());

    // a second initialisation changes nothing, whatever it is given
    let status = init_instance(&mut handle, vec![], vec![1, 1], vec![7, 7], Some(1));
    assert_eq!(status, InitStatus::AlreadySet);
    assert_eq!(read_state(&handle), rows);
    let status = init_instance(&mut handle, vec![], vec![0], vec![], None);
    assert_eq!(status, InitStatus::AlreadySet);
    assert_eq!(read_state(&handle), rows);
}

#[test]
fn handle_rejects_bad_weights() {
    let mut handle = Instance::new();
    let status = init_instance(&mut handle, chain_rules(), vec![1, 0, 1], vec![7, 7, 7], None);
    assert_eq!(status, InitStatus::BadWeights);
    assert!(!handle.is_initialized());
    let status = init_instance(&mut handle, chain_rules(), vec![1, 1, 1], vec![7, 7], None);
    assert_eq!(status, InitStatus::BadWeights);
    assert!(!step(&mut handle));
    // the handle is still free for a valid initialisation
    let status = init_instance(&mut handle, chain_rules(), vec![1, 1, 1], vec![7, 7, 7], None);
    assert_eq!(status, InitStatus::Ready);
}

#[test]
fn handle_seed_defaults_to_42() {
    assert_eq!(DEFAULT_SEED, 42);
    let mut unseeded = Instance::new();
    let mut seeded = Instance::new();
    assert_eq!(
        init_instance(&mut unseeded, chain_rules(), vec![1, 1, 1], vec![7, 7, 7], None),
        InitStatus::Ready
    );
    assert_eq!(
        init_instance(&mut seeded, chain_rules(), vec![1, 1, 1], vec![7, 7, 7], Some(42)),
        InitStatus::Ready
    );
    for _ in 0..5 {
        assert_eq!(step(&mut unseeded), step(&mut seeded));
        assert_eq!(read_state(&unseeded), read_state(&seeded));
    }
}

#[test]
fn handle_steps_like_its_solver() {
    let mut handle = Instance::new();
    assert_eq!(
        init_instance(&mut handle, chain_rules(), vec![1, 1, 1], vec![1000; 3], Some(42)),
        InitStatus::Ready
    );
    let mut wfc = solver(chain_rules(), 3, 42);
    for _ in 0..5 {
        assert_eq!(step(&mut handle), wfc.step());
        assert_eq!(read_state(&handle), wfc.read_state());
    }
}

#[test]
fn five_steps_trace_from_seed_42() {
    // Draws 1083814273, 378494188, 2479403867, 955863294, 1613448261 pick
    // tile 0 of {0,1,2} at the origin, tile 1 of {1,2} at 1, tile 2 of {1,2}
    // at 2, tile 0 of {0,1} at -2 and tile 1 of {1,2} at 4; the other points
    // are forced by the rules.
    let mut wfc = solver(chain_rules(), 3, 42);
    for _ in 0..5 {
        assert!(wfc.step());
    }
    assert_eq!(
        sorted(wfc.read_state()),
        vec![
            vec![-3, 0, 0, 0, 2],
            vec![-2, 0, 0, 0, 0],
            vec![-1, 0, 0, 0, 2],
            vec![0, 0, 0, 0, 0],
            vec![1, 0, 0, 0, 1],
            vec![2, 0, 0, 0, 2],
            vec![3, 0, 0, 0, 0],
            vec![4, 0, 0, 0, 1],
        ]
    );
    assert_eq!(wfc.wavefront_len(), 2);
    assert_eq!(wfc.wavefront_at(&[-4, 0, 0, 0]), Some(vec![true, true, false]));
    assert_eq!(wfc.wavefront_at(&[5, 0, 0, 0]), Some(vec![false, true, true]));
    assert_eq!(wfc.rng_next(), 110225632);
}

#[test]
fn collapsed_neighbours_obey_the_rules() {
    let rules = generate_constraints(rules_2d());
    for seed in [1u64, 42, 2024] {
        let mut wfc = solver(rules_2d(), 5, seed);
        for _ in 0..12 {
            if !wfc.step() {
                break;
            }
            let rows = wfc.read_state();
            for row in &rows {
                let pos = [row[0], row[1], row[2], row[3]];
                let tile = row[4] as usize;
                for (axis, dir) in wfc.neighbors() {
                    let mut next = pos;
                    next[axis] += dir;
                    if let (Some(other), Some(allowed)) =
                        (wfc.collapsed_at(&next), rules.get(tile, axis, dir))
                    {
                        assert!(allowed.contains(&other));
                    }
                }
            }
        }
        assert!(wfc.collapsed_len() > 0);
    }
}

#[test]
fn no_point_is_in_both_maps() {
    let mut wfc = solver(rules_2d(), 5, 7);
    for _ in 0..10 {
        if !wfc.step() {
            break;
        }
    }
    let mut stored = 0;
    for x in -12..13 {
        for y in -12..13 {
            let pos = [x, y, 0, 0];
            let collapsed = wfc.collapsed_at(&pos);
            let wavefront = wfc.wavefront_at(&pos);
            assert!(collapsed.is_none() || wavefront.is_none());
            if let Some(mask) = &wavefront {
                assert!(mask.iter().filter(|allowed| **allowed).count() >= 2);
                stored += 1;
            }
            if let Some(tile) = collapsed {
                assert_eq!(wfc.state_at(&pos), one_hot(5, tile));
                stored += 1;
            }
        }
    }
    assert_eq!(stored, wfc.collapsed_len() + wfc.wavefront_len());
}
