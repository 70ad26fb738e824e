use wave_function_collapse::constraints::{generate_constraints, ConstraintTable};
use wave_function_collapse::domain::{
    allowed_count, allowed_tiles, first_allowed, init_mask, mask_from_idx,
};
use wave_function_collapse::order::{
    is_closer, is_key_before, key_of_axis, sorted_axis_keys, AxisKey,
};
use wave_function_collapse::position::{neighbor_of, origin, same_position};
use wave_function_collapse::rng::Lcg;
use wave_function_collapse::store::Grid;
use wave_function_collapse::weights::WeightTable;

#[test]
fn lcg_first_draws_from_seed_42() {
    let mut rng = Lcg::new(42);
    assert_eq!(rng.next(), 1083814273);
    assert_eq!(rng.next(), 378494188);
    assert_eq!(rng.next(), 2479403867);
    assert_eq!(rng.next(), 955863294);
    assert_eq!(rng.state, 955863294);
}

#[test]
fn lcg_wraps_at_32_bits() {
    let mut rng = Lcg::new(0xFFFF_FFFF);
    // 4294967295 * 1664525 + 1013904223 = 7149031576907098, reduced modulo 2^32
    assert_eq!(rng.next(), ((4294967295u64 * 1664525 + 1013904223) % 4294967296) as u32);
    assert_eq!(rng.state, 1012239698);
}

#[test]
fn lcg_seed_is_reduced_modulo_2_32() {
    let mut a = Lcg::new(42);
    let mut b = Lcg::new(4294967296 + 42);
    assert_eq!(b.state, 42);
    assert_eq!(a.next(), b.next());
}

#[test]
fn lcg_same_seed_same_draws() {
    let mut a = Lcg::new(7);
    let mut b = Lcg::new(7);
    for _ in 0..100 {
        assert_eq!(a.next(), b.next());
    }
}

#[test]
fn weight_table_accepts_positive_weights() {
    let table = WeightTable::new(vec![3, 1, 4], vec![10, 20, 30]).unwrap();
    assert_eq!(table.len(), 3);
    assert_eq!(table.sum(), 8);
    assert_eq!(table.weight(0), 3);
    assert_eq!(table.weight(2), 4);
}

#[test]
fn weight_table_of_no_tile() {
    let table = WeightTable::new(vec![], vec![]).unwrap();
    assert_eq!(table.len(), 0);
    assert_eq!(table.sum(), 0);
}

#[test]
fn weight_table_rejects_a_zero_weight() {
    assert!(WeightTable::new(vec![1, 0, 1], vec![1, 1, 1]).is_none());
}

#[test]
fn weight_table_rejects_unequal_lengths() {
    assert!(WeightTable::new(vec![1, 1, 1], vec![1, 1]).is_none());
    assert!(WeightTable::new(vec![1], vec![1, 1]).is_none());
}

#[test]
fn weight_table_rejects_a_sum_beyond_64_bits() {
    assert!(WeightTable::new(vec![u64::MAX, 1], vec![0, 0]).is_none());
    assert!(WeightTable::new(vec![u64::MAX - 1, 1], vec![0, 0]).is_some());
}

#[test]
fn shares_sum_to_one() {
    let weights = vec![3u64, 1, 4, 1, 5, 9, 2, 6];
    let table = WeightTable::new(weights.clone(), vec![0; 8]).unwrap();
    let total = table.sum();
    assert_eq!(total, weights.iter().sum::<u64>());
    let shares: f64 = (0..table.len())
        .map(|t| table.weight(t) as f64 / total as f64)
        .sum();
    assert!((shares - 1.0).abs() < 1e-12);
}

#[test]
fn entropy_is_the_sum_of_the_allowed_terms() {
    let table = WeightTable::new(vec![1, 1, 1], vec![5, 7, 11]).unwrap();
    assert_eq!(table.entropy(&vec![true, true, true]), 23);
    assert_eq!(table.entropy(&vec![true, false, true]), 16);
    assert_eq!(table.entropy(&vec![false, true, false]), 7);
    assert_eq!(table.entropy(&vec![false, false, false]), 0);
}

#[test]
fn entropy_of_a_mask_of_another_length() {
    let table = WeightTable::new(vec![1, 1, 1], vec![5, 7, 11]).unwrap();
    assert_eq!(table.entropy(&vec![true, true]), 12);
    assert_eq!(table.entropy(&vec![true, true, true, true]), 23);
    assert_eq!(table.entropy(&vec![]), 0);
}

#[test]
fn entropy_does_not_overflow_64_bits() {
    let table = WeightTable::new(vec![1, 1], vec![u64::MAX, u64::MAX]).unwrap();
    assert_eq!(table.entropy(&vec![true, true]), 2 * (u64::MAX as u128));
}

#[test]
fn entropy_falls_by_the_term_of_an_excluded_tile() {
    let table = WeightTable::new(vec![2, 3, 5], vec![100, 200, 300]).unwrap();
    let open = vec![true, true, true];
    for tile in 0..3 {
        let mut narrowed = open.clone();
        narrowed[tile] = false;
        assert_eq!(
            table.entropy(&narrowed) + [100u128, 200, 300][tile],
            table.entropy(&open)
        );
        assert!(table.entropy(&narrowed) < table.entropy(&open));
    }
}

#[test]
fn pick_of_equal_weights() {
    let table = WeightTable::new(vec![1, 1, 1], vec![0, 0, 0]).unwrap();
    let all = vec![0, 1, 2];
    assert_eq!(table.pick(&all, 0), 0);
    // the first third of the draws ends below (2^32 - 1) / 3 = 1431655765
    assert_eq!(table.pick(&all, 1431655764), 0);
    assert_eq!(table.pick(&all, 1431655765), 1);
    assert_eq!(table.pick(&all, 2863311529), 1);
    assert_eq!(table.pick(&all, 2863311530), 2);
    assert_eq!(table.pick(&all, 4294967294), 2);
}

#[test]
fn pick_falls_back_to_the_last_candidate() {
    let table = WeightTable::new(vec![1, 1, 1], vec![0, 0, 0]).unwrap();
    assert_eq!(table.pick(&vec![0, 1, 2], u32::MAX), 2);
    assert_eq!(table.pick(&vec![0, 1], u32::MAX), 1);
    assert_eq!(table.pick(&vec![1], u32::MAX), 1);
}

#[test]
fn pick_weighs_the_candidates_only() {
    let table = WeightTable::new(vec![1, 1000, 3], vec![0, 0, 0]).unwrap();
    // among tiles 0 and 2 the shares are 1/4 and 3/4
    let some = vec![0, 2];
    assert_eq!(table.pick(&some, 0), 0);
    assert_eq!(table.pick(&some, 1073741823), 0);
    assert_eq!(table.pick(&some, 1073741824), 2);
    assert_eq!(table.pick(&some, 4000000000), 2);
}

#[test]
fn pick_of_a_single_candidate() {
    let table = WeightTable::new(vec![5, 6], vec![0, 0]).unwrap();
    assert_eq!(table.pick(&vec![1], 0), 1);
    assert_eq!(table.pick(&vec![1], 123456789), 1);
}

#[test]
fn constraints_accumulate_in_order_of_first_mention() {
    let table = generate_constraints(vec![
        (0, 0, 1, 2),
        (1, 0, 1, 0),
        (0, 0, 1, 1),
        (0, 0, 1, 2),
        (0, 0, -1, 1),
    ]);
    assert_eq!(table.get(0, 0, 1), Some(&vec![2, 1]));
    assert_eq!(table.get(1, 0, 1), Some(&vec![0]));
    assert_eq!(table.get(0, 0, -1), Some(&vec![1]));
    assert_eq!(table.get(1, 0, -1), None);
    assert_eq!(table.len(), 3);
}

#[test]
fn constraints_of_no_rule() {
    let table = generate_constraints(vec![]);
    assert_eq!(table.len(), 0);
    assert!(table.get(0, 0, 1).is_none());
}

#[test]
fn constraint_table_allow_adds_once() {
    let mut table = ConstraintTable::new();
    table.allow(3, 1, -1, 7);
    table.allow(3, 1, -1, 7);
    table.allow(3, 1, -1, 5);
    assert_eq!(table.get(3, 1, -1), Some(&vec![7, 5]));
    assert_eq!(table.len(), 1);
}

#[test]
fn masks() {
    assert_eq!(init_mask(3), vec![true, true, true]);
    assert_eq!(init_mask(0), Vec::<bool>::new());
    assert_eq!(mask_from_idx(4, 2), vec![false, false, true, false]);
    assert_eq!(mask_from_idx(2, 5), vec![false, false]);
    assert_eq!(allowed_count(&vec![true, false, true, true]), 3);
    assert_eq!(allowed_count(&vec![]), 0);
    assert_eq!(allowed_tiles(&vec![true, false, true, true]), vec![0, 2, 3]);
    assert_eq!(allowed_tiles(&vec![false, false]), Vec::<usize>::new());
    assert_eq!(first_allowed(&vec![false, false, true, true]), Some(2));
    assert_eq!(first_allowed(&vec![false, false]), None);
}

#[test]
fn neighbours_of_a_point() {
    assert_eq!(origin(), [0, 0, 0, 0]);
    assert_eq!(neighbor_of(&[0, 0, 0, 0], 0, 1), [1, 0, 0, 0]);
    assert_eq!(neighbor_of(&[0, 0, 0, 0], 3, -1), [0, 0, 0, -1]);
    assert_eq!(neighbor_of(&[5, -7, 2, 9], 1, -1), [5, -8, 2, 9]);
}

#[test]
fn neighbours_wrap_at_the_ends_of_the_range() {
    assert_eq!(neighbor_of(&[i64::MAX, 0, 0, 0], 0, 1), [i64::MIN, 0, 0, 0]);
    assert_eq!(neighbor_of(&[0, i64::MIN, 0, 0], 1, -1), [0, i64::MAX, 0, 0]);
}

#[test]
fn positions_compare_by_value() {
    assert!(same_position(&[1, 2, 3, 4], &[1, 2, 3, 4]));
    assert!(!same_position(&[1, 2, 3, 4], &[1, 2, 3, 5]));
    assert!(!same_position(&[0, 2, 3, 4], &[1, 2, 3, 4]));
}

#[test]
fn axis_keys() {
    assert_eq!(
        key_of_axis(&[3, -4, 0, i64::MIN], 0),
        AxisKey { magnitude: 3, negative: false, axis: 0 }
    );
    assert_eq!(
        key_of_axis(&[3, -4, 0, i64::MIN], 1),
        AxisKey { magnitude: 4, negative: true, axis: 1 }
    );
    assert_eq!(
        key_of_axis(&[3, -4, 0, i64::MIN], 3),
        AxisKey { magnitude: 9223372036854775808, negative: true, axis: 3 }
    );
}

#[test]
fn axis_key_order() {
    let small = AxisKey { magnitude: 1, negative: true, axis: 0 };
    let large = AxisKey { magnitude: 2, negative: false, axis: 3 };
    assert!(is_key_before(&small, &large));
    assert!(!is_key_before(&large, &small));
    let positive = AxisKey { magnitude: 2, negative: false, axis: 0 };
    let negative = AxisKey { magnitude: 2, negative: true, axis: 3 };
    assert!(is_key_before(&positive, &negative));
    assert!(!is_key_before(&negative, &positive));
    let high = AxisKey { magnitude: 2, negative: false, axis: 3 };
    let low = AxisKey { magnitude: 2, negative: false, axis: 1 };
    assert!(is_key_before(&high, &low));
    assert!(!is_key_before(&low, &high));
    assert!(!is_key_before(&low, &low));
}

#[test]
fn sorted_keys_of_a_point() {
    let keys = sorted_axis_keys(&[0, 1, 0, 0]);
    assert_eq!(
        keys,
        vec![
            AxisKey { magnitude: 0, negative: false, axis: 3 },
            AxisKey { magnitude: 0, negative: false, axis: 2 },
            AxisKey { magnitude: 0, negative: false, axis: 0 },
            AxisKey { magnitude: 1, negative: false, axis: 1 },
        ]
    );
    let keys = sorted_axis_keys(&[-2, 2, -1, 5]);
    assert_eq!(
        keys,
        vec![
            AxisKey { magnitude: 1, negative: true, axis: 2 },
            AxisKey { magnitude: 2, negative: false, axis: 1 },
            AxisKey { magnitude: 2, negative: true, axis: 0 },
            AxisKey { magnitude: 5, negative: false, axis: 3 },
        ]
    );
}

#[test]
fn tie_break_order_of_points() {
    // non-negative before negative
    assert!(is_closer(&[0, 1, 0, 0], &[0, -1, 0, 0]));
    assert!(!is_closer(&[0, -1, 0, 0], &[0, 1, 0, 0]));
    // the lists differ at the third key, where axis 1 comes before axis 0
    assert!(is_closer(&[1, 0, 0, 0], &[0, 1, 0, 0]));
    assert!(!is_closer(&[0, 1, 0, 0], &[1, 0, 0, 0]));
    // nearer to the origin first
    assert!(is_closer(&[0, 0, 0, 0], &[0, 0, 0, 1]));
    // the smallest coordinates are compared first: three zeros before two
    assert!(is_closer(&[2, 0, 0, 0], &[1, 1, 0, 0]));
    assert!(!is_closer(&[1, 1, 0, 0], &[2, 0, 0, 0]));
    // no point before itself
    assert!(!is_closer(&[3, -1, 4, 1], &[3, -1, 4, 1]));
}

#[test]
fn tie_break_order_is_total_on_a_sample() {
    let points = [
        [0, 0, 0, 0],
        [1, 0, 0, 0],
        [0, 1, 0, 0],
        [-1, 0, 0, 0],
        [0, 0, 0, -1],
        [1, -1, 0, 0],
        [-1, 1, 0, 0],
        [i64::MIN, 0, 0, 0],
        [i64::MAX, 0, 0, 0],
    ];
    for a in &points {
        for b in &points {
            if a == b {
                assert!(!is_closer(a, b));
            } else {
                assert!(is_closer(a, b) != is_closer(b, a));
            }
        }
    }
}

#[test]
fn grid_is_lazily_open() {
    let grid = Grid::new(3);
    assert_eq!(grid.tiles(), 3);
    assert_eq!(grid.collapsed_len(), 0);
    assert_eq!(grid.wavefront_len(), 0);
    assert_eq!(grid.state_at(&[9, 9, 9, 9]), vec![true, true, true]);
    assert_eq!(grid.collapsed_at(&[9, 9, 9, 9]), None);
    assert_eq!(grid.wavefront_at(&[9, 9, 9, 9]), None);
}

#[test]
fn grid_keeps_a_domain_of_two_in_the_wavefront() {
    let mut grid = Grid::new(3);
    assert!(grid.set_state_at([1, 0, 0, 0], vec![true, false, true]));
    assert_eq!(grid.wavefront_len(), 1);
    assert_eq!(grid.collapsed_len(), 0);
    assert_eq!(grid.wavefront_at(&[1, 0, 0, 0]), Some(&vec![true, false, true]));
    assert_eq!(grid.state_at(&[1, 0, 0, 0]), vec![true, false, true]);
    let entry = grid.wavefront_entry(0);
    assert_eq!((*entry.0, entry.1.clone()), ([1, 0, 0, 0], vec![true, false, true]));
}

#[test]
fn grid_promotes_a_domain_of_one() {
    let mut grid = Grid::new(3);
    assert!(grid.set_state_at([1, 0, 0, 0], vec![true, false, true]));
    assert!(grid.set_state_at([1, 0, 0, 0], vec![false, false, true]));
    assert_eq!(grid.wavefront_len(), 0);
    assert_eq!(grid.collapsed_len(), 1);
    assert_eq!(grid.collapsed_at(&[1, 0, 0, 0]), Some(2));
    assert_eq!(grid.wavefront_at(&[1, 0, 0, 0]), None);
    assert_eq!(grid.state_at(&[1, 0, 0, 0]), vec![false, false, true]);
    assert_eq!(grid.collapsed_entry(0), ([1, 0, 0, 0], 2));
}

#[test]
fn grid_never_changes_a_collapsed_point() {
    let mut grid = Grid::new(3);
    assert!(grid.set_state_at([0, 0, 0, 0], vec![false, true, false]));
    assert!(!grid.set_state_at([0, 0, 0, 0], vec![true, true, false]));
    assert!(!grid.set_state_at([0, 0, 0, 0], vec![true, false, false]));
    assert_eq!(grid.collapsed_at(&[0, 0, 0, 0]), Some(1));
    assert_eq!(grid.wavefront_len(), 0);
    assert_eq!(grid.collapsed_len(), 1);
}

#[test]
fn grid_stores_no_empty_domain() {
    let mut grid = Grid::new(3);
    assert!(!grid.set_state_at([0, 0, 0, 0], vec![false, false, false]));
    assert_eq!(grid.wavefront_len(), 0);
    assert_eq!(grid.collapsed_len(), 0);
    assert_eq!(grid.state_at(&[0, 0, 0, 0]), vec![true, true, true]);
}

#[test]
fn grid_stores_no_domain_of_another_universe() {
    let mut grid = Grid::new(3);
    assert!(!grid.set_state_at([0, 0, 0, 0], vec![true, true]));
    assert!(!grid.set_state_at([0, 0, 0, 0], vec![true, true, true, true]));
    assert_eq!(grid.wavefront_len(), 0);
}

#[test]
fn grid_keeps_each_point_once() {
    let mut grid = Grid::new(4);
    assert!(grid.set_state_at([2, 0, 0, 0], vec![true, true, true, false]));
    assert!(grid.set_state_at([3, 0, 0, 0], vec![true, true, false, false]));
    assert!(grid.set_state_at([2, 0, 0, 0], vec![false, true, true, false]));
    assert_eq!(grid.wavefront_len(), 2);
    assert_eq!(grid.wavefront_at(&[2, 0, 0, 0]), Some(&vec![false, true, true, false]));
    assert_eq!(grid.wavefront_at(&[3, 0, 0, 0]), Some(&vec![true, true, false, false]));
}
