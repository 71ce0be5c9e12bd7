use wfc_core::error::WfcError;
use wfc_core::model::{lowest_key, pick_weighted, Model};
use wfc_core::ruleset::RuleSet;
use wfc_core::Direction;

/// Order-preserving key of an entropy: the two zeros have one key, and
/// not-a-number the highest.
fn key_of(entropy: f64) -> u64 {
    if entropy.is_nan() {
        return u64::MAX;
    }
    if entropy == 0.0 {
        return 1u64 << 63;
    }
    let bits = entropy.to_bits();
    if bits >> 63 == 1 {
        !bits
    } else {
        bits | (1u64 << 63)
    }
}

/// Shannon entropy of the weights, less a jitter below 0.001 made of the
/// random word.
fn shannon(weights: &Vec<u32>, word: u64) -> u64 {
    let total: f64 = weights.iter().map(|w| *w as f64).sum();
    if total == 0.0 {
        return key_of(0.0);
    }
    let entropy: f64 = weights
        .iter()
        .map(|w| {
            let p = *w as f64 / total;
            -p * p.log2()
        })
        .sum();
    let jitter = (word >> 11) as f64 * (1.0 / (1u64 << 53) as f64);
    key_of(entropy - jitter * 0.001)
}

fn create_simple_ruleset() -> RuleSet {
    let mut rs = RuleSet::new();
    rs.add_tile("grass".to_string(), 10);
    rs.add_tile("water".to_string(), 1);

    rs.add_adjacency("grass".to_string(), "grass".to_string(), Direction::Up);
    rs.add_adjacency("grass".to_string(), "grass".to_string(), Direction::Down);
    rs.add_adjacency("grass".to_string(), "grass".to_string(), Direction::Left);
    rs.add_adjacency("grass".to_string(), "grass".to_string(), Direction::Right);

    rs.add_adjacency("water".to_string(), "water".to_string(), Direction::Up);
    rs.add_adjacency("water".to_string(), "water".to_string(), Direction::Down);
    rs.add_adjacency("water".to_string(), "water".to_string(), Direction::Left);
    rs.add_adjacency("water".to_string(), "water".to_string(), Direction::Right);

    rs.add_adjacency("grass".to_string(), "water".to_string(), Direction::Right);
    rs.add_adjacency("water".to_string(), "grass".to_string(), Direction::Left);

    rs
}

fn backtracking_ruleset() -> RuleSet {
    let mut rules = RuleSet::new();
    rules.add_tile("T1".to_string(), 100);
    rules.add_tile("T2".to_string(), 1);
    rules.add_tile("T3".to_string(), 1);
    rules.add_tile("T4".to_string(), 1);
    rules.add_tile("T5".to_string(), 1);

    rules.add_adjacency("T1".to_string(), "T3".to_string(), Direction::Right);
    rules.add_adjacency("T3".to_string(), "T1".to_string(), Direction::Left);

    rules.add_adjacency("T2".to_string(), "T4".to_string(), Direction::Right);
    rules.add_adjacency("T4".to_string(), "T2".to_string(), Direction::Left);

    rules.add_adjacency("T4".to_string(), "T5".to_string(), Direction::Right);
    rules.add_adjacency("T5".to_string(), "T4".to_string(), Direction::Left);
    rules
}

/// Whether every cell of the grid has, on each side, a neighbor that the
/// rules allow there.
fn all_rules_hold(rules: &RuleSet, width: usize, height: usize, grid: &Vec<String>) -> bool {
    for y in 0..height {
        for x in 0..width {
            let tile = &grid[y * width + x];
            let mut sides: Vec<(usize, usize, Direction)> = Vec::new();
            if y > 0 {
                sides.push((x, y - 1, Direction::Up));
            }
            if x + 1 < width {
                sides.push((x + 1, y, Direction::Right));
            }
            if y + 1 < height {
                sides.push((x, y + 1, Direction::Down));
            }
            if x > 0 {
                sides.push((x - 1, y, Direction::Left));
            }
            for (nx, ny, dir) in sides {
                let neighbor = &grid[ny * width + nx];
                match rules.get_valid_neighbors(tile, dir) {
                    Some(allowed) => {
                        if !allowed.contains(neighbor) {
                            return false;
                        }
                    }
                    None => return false,
                }
            }
        }
    }
    true
}

#[test]
fn test_2x2_basic() {
    let rules = create_simple_ruleset();
    let mut model = Model::new(2, 2, rules, Some(42)).expect("Model creation failed");
    let result = model.run(shannon);
    assert!(result.is_ok(), "Generation should succeed");
    let grid = result.unwrap();
    assert_eq!(grid.len(), 4);
}

#[test]
fn test_contradiction() {
    let mut rules = RuleSet::new();
    rules.add_tile("a".to_string(), 1);
    rules.add_tile("b".to_string(), 1);

    let mut model = Model::new(2, 1, rules, Some(1)).expect("Model creation failed");
    let result = model.run(shannon);
    assert!(matches!(result, Err(WfcError::Contradiction)));
}

#[test]
fn test_backtracking_success() {
    let rules = backtracking_ruleset();
    let mut model = Model::new(3, 1, rules, Some(1)).expect("Model creation failed");

    let result = model.run(shannon);

    assert!(result.is_ok(), "Backtracking should find the solution");
    let grid = result.unwrap();
    assert_eq!(grid[0], "T2");
    assert_eq!(grid[1], "T4");
    assert_eq!(grid[2], "T5");
}

#[test]
fn backtracking_finds_the_only_solution_for_every_seed() {
    for seed in 0..50u64 {
        let mut model = Model::new(3, 1, backtracking_ruleset(), Some(seed)).unwrap();
        let grid = model.run(shannon).expect("a solution exists");
        assert_eq!(grid, vec!["T2".to_string(), "T4".to_string(), "T5".to_string()]);
    }
}

#[test]
fn solved_2x2_grid_satisfies_all_rules() {
    let rules = create_simple_ruleset();
    let mut model = Model::new(2, 2, create_simple_ruleset(), Some(42)).unwrap();
    let grid = model.run(shannon).expect("Generation should succeed");
    assert_eq!(grid.len(), 4);
    assert!(all_rules_hold(&rules, 2, 2, &grid));
}

#[test]
fn initialization_puts_every_cell_in_full_superposition() {
    for (width, height) in [(1usize, 1usize), (2, 3), (9, 9)] {
        let model = Model::new(width, height, create_simple_ruleset(), None).unwrap();
        assert_eq!(model.width(), width);
        assert_eq!(model.height(), height);
        for index in 0..width * height {
            assert!(!model.is_collapsed(index));
            assert_eq!(model.candidates(index), vec!["grass".to_string(), "water".to_string()]);
        }
    }
}

#[test]
fn successful_grids_are_complete_and_consistent() {
    let rules = create_simple_ruleset();
    for width in 1..6usize {
        for height in 1..6usize {
            for seed in 0..6u64 {
                let mut model =
                    Model::new(width, height, create_simple_ruleset(), Some(seed)).unwrap();
                match model.run(shannon) {
                    Ok(grid) => {
                        assert_eq!(grid.len(), width * height);
                        for id in &grid {
                            assert!(rules.get_tile_info(id).is_some());
                        }
                        assert!(all_rules_hold(&rules, width, height, &grid));
                        for index in 0..width * height {
                            assert!(model.is_collapsed(index));
                            assert_eq!(model.candidates(index), vec![grid[index].clone()]);
                        }
                    }
                    Err(WfcError::Contradiction) => {}
                    Err(e) => panic!("Unexpected error: {:?}", e),
                }
            }
        }
    }
}

#[test]
fn solvable_rules_always_succeed() {
    for seed in 0..40u64 {
        let mut model = Model::new(4, 4, create_simple_ruleset(), Some(seed)).unwrap();
        assert!(model.run(shannon).is_ok());
    }
}

#[test]
fn same_seed_gives_same_result() {
    for seed in [0u64, 1, 7, 42, 1234567] {
        let mut first = Model::new(5, 4, create_simple_ruleset(), Some(seed)).unwrap();
        let mut second = Model::new(5, 4, create_simple_ruleset(), Some(seed)).unwrap();
        match (first.run(shannon), second.run(shannon)) {
            (Ok(a), Ok(b)) => assert_eq!(a, b),
            (Err(a), Err(b)) => assert_eq!(format!("{:?}", a), format!("{:?}", b)),
            _ => panic!("different outcomes for one seed"),
        }
    }
}

#[test]
fn no_rules_on_more_than_one_cell_is_a_contradiction() {
    for (width, height) in [(2usize, 1usize), (1, 2), (3, 3)] {
        for seed in 0..10u64 {
            let mut rules = RuleSet::new();
            rules.add_tile("a".to_string(), 1);
            rules.add_tile("b".to_string(), 1);
            let mut model = Model::new(width, height, rules, Some(seed)).unwrap();
            assert!(matches!(model.run(shannon), Err(WfcError::Contradiction)));
        }
    }
}

#[test]
fn no_rules_on_one_cell_succeeds() {
    let mut rules = RuleSet::new();
    rules.add_tile("a".to_string(), 1);
    let mut model = Model::new(1, 1, rules, Some(3)).unwrap();
    assert_eq!(model.run(shannon).unwrap(), vec!["a".to_string()]);
}

#[test]
fn heavier_tile_is_chosen_more_often() {
    let mut heavy = 0u32;
    let runs = 1000u64;
    for seed in 0..runs {
        let mut rules = RuleSet::new();
        rules.add_tile("heavy".to_string(), 9);
        rules.add_tile("light".to_string(), 1);
        let mut model = Model::new(1, 1, rules, Some(seed)).unwrap();
        let grid = model.run(shannon).unwrap();
        if grid[0] == "heavy" {
            heavy += 1;
        }
    }
    let share = heavy as f64 / runs as f64;
    assert!(share > 0.85 && share < 0.95, "share was {}", share);
}

#[test]
fn weights_beyond_the_range_of_one_weight_are_summed() {
    let weights = vec![u32::MAX, u32::MAX, 5];
    let all = vec![true, true, true];
    let one = u32::MAX as u128;
    assert_eq!(pick_weighted(&weights, &all, one - 1), 0);
    assert_eq!(pick_weighted(&weights, &all, one), 1);
    assert_eq!(pick_weighted(&weights, &all, 2 * one + 4), 2);
    for seed in 0..20u64 {
        let mut rules = RuleSet::new();
        rules.add_tile("a".to_string(), u32::MAX);
        rules.add_tile("b".to_string(), u32::MAX);
        let mut model = Model::new(1, 1, rules, Some(seed)).unwrap();
        let grid = model.run(shannon).unwrap();
        assert!(grid[0] == "a" || grid[0] == "b");
    }
}

#[test]
fn zero_weight_alone_is_a_contradiction() {
    let mut rules = RuleSet::new();
    rules.add_tile("a".to_string(), 0);
    let mut model = Model::new(1, 1, rules, Some(5)).unwrap();
    assert!(matches!(model.run(shannon), Err(WfcError::Contradiction)));
}

#[test]
fn invalid_dimensions_are_refused() {
    for (width, height) in [(0usize, 5usize), (501, 5), (5, 0), (5, 501), (0, 0)] {
        match Model::new(width, height, create_simple_ruleset(), Some(1)) {
            Err(WfcError::InvalidDimensions { width: w, height: h }) => {
                assert_eq!(w, width);
                assert_eq!(h, height);
            }
            other => panic!("expected InvalidDimensions, got {:?}", other.map(|_| ())),
        }
    }
    assert!(Model::new(1, 1, create_simple_ruleset(), Some(1)).is_ok());
    assert!(Model::new(500, 1, create_simple_ruleset(), Some(1)).is_ok());
}

#[test]
fn empty_rule_set_is_refused() {
    let result = Model::new(3, 3, RuleSet::new(), Some(1));
    assert!(matches!(result, Err(WfcError::NoTilesDefined)));
}

#[test]
fn dimensions_are_checked_before_tiles() {
    let result = Model::new(0, 3, RuleSet::new(), Some(1));
    assert!(matches!(result, Err(WfcError::InvalidDimensions { width: 0, height: 3 })));
}

#[test]
fn pick_weighted_follows_the_shares() {
    let weights = vec![1u32, 2, 3];
    let all = vec![true, true, true];
    assert_eq!(pick_weighted(&weights, &all, 0), 0);
    assert_eq!(pick_weighted(&weights, &all, 1), 1);
    assert_eq!(pick_weighted(&weights, &all, 2), 1);
    assert_eq!(pick_weighted(&weights, &all, 3), 2);
    assert_eq!(pick_weighted(&weights, &all, 5), 2);
    let some = vec![true, false, true];
    assert_eq!(pick_weighted(&weights, &some, 0), 0);
    assert_eq!(pick_weighted(&weights, &some, 1), 2);
    assert_eq!(pick_weighted(&weights, &some, 3), 2);
    let skip_zero = vec![0u32, 4];
    assert_eq!(pick_weighted(&skip_zero, &vec![true, true], 0), 1);
}

#[test]
fn lowest_key_takes_the_first_minimum() {
    assert_eq!(lowest_key(&vec![Some(5), Some(3), None, Some(3)]), Some(1));
    assert_eq!(lowest_key(&vec![None, None]), None);
    assert_eq!(lowest_key(&vec![]), None);
    assert_eq!(lowest_key(&vec![Some(u64::MAX), None]), Some(0));
    assert_eq!(lowest_key(&vec![None, Some(u64::MAX), Some(u64::MAX)]), Some(1));
    assert_eq!(lowest_key(&vec![Some(u64::MAX), Some(u64::MAX - 1)]), Some(1));
    assert_eq!(lowest_key(&vec![Some(0)]), Some(0));
}

#[test]
fn neighbors_come_in_the_order_up_right_down_left() {
    let model = Model::new(3, 3, create_simple_ruleset(), Some(1)).unwrap();
    assert_eq!(
        model.get_neighbors(4),
        vec![
            (1, Direction::Up),
            (5, Direction::Right),
            (7, Direction::Down),
            (3, Direction::Left)
        ]
    );
    assert_eq!(model.get_neighbors(0), vec![(1, Direction::Right), (3, Direction::Down)]);
    assert_eq!(model.get_neighbors(8), vec![(5, Direction::Up), (7, Direction::Left)]);
    assert_eq!(model.get_index(2, 1), 5);
    assert_eq!(model.get_coords(5), (2, 1));
}

#[test]
fn one_way_rules_can_leave_the_mirror_rule_unmet() {
    // b may stand to the right of a, but nothing may stand to the left of b
    let mut solved = 0;
    for seed in 0..50u64 {
        let mut rules = RuleSet::new();
        rules.add_tile("a".to_string(), 1);
        rules.add_tile("b".to_string(), 1);
        rules.add_adjacency("a".to_string(), "b".to_string(), Direction::Right);
        let mut model = Model::new(2, 1, rules, Some(seed)).unwrap();
        match model.run(shannon) {
            Ok(grid) => {
                assert_eq!(grid, vec!["a".to_string(), "b".to_string()]);
                assert!(model
                    .rules()
                    .get_valid_neighbors(&"b".to_string(), Direction::Left)
                    .is_none());
                solved += 1;
            }
            Err(WfcError::Contradiction) => {}
            Err(e) => panic!("Unexpected error: {:?}", e),
        }
    }
    assert!(solved > 0);
}

#[test]
fn a_chain_has_one_solution_and_every_seed_finds_it() {
    // each tile allows only its successor to the right, and its predecessor to the left
    let names = ["a", "b", "c", "d", "e", "f"];
    for seed in 0..25u64 {
        let mut rules = RuleSet::new();
        for (i, name) in names.iter().enumerate() {
            rules.add_tile(name.to_string(), (i as u32 % 3) + 1);
        }
        for i in 0..names.len() - 1 {
            rules.add_adjacency(names[i].to_string(), names[i + 1].to_string(), Direction::Right);
            rules.add_adjacency(names[i + 1].to_string(), names[i].to_string(), Direction::Left);
        }
        let mut model = Model::new(6, 1, rules, Some(seed)).unwrap();
        let grid = model.run(shannon).expect("the chain fits");
        assert_eq!(grid, vec!["a", "b", "c", "d", "e", "f"]);
    }
}

#[test]
fn every_uncollapsed_cell_is_picked_whatever_its_key() {
    fn highest(_weights: &Vec<u32>, _word: u64) -> u64 {
        u64::MAX
    }
    fn zero(_weights: &Vec<u32>, _word: u64) -> u64 {
        0
    }
    let rules = create_simple_ruleset();
    for seed in 0..10u64 {
        let mut model = Model::new(3, 3, create_simple_ruleset(), Some(seed)).unwrap();
        let grid = model.run(highest).expect("a solution exists");
        assert!(all_rules_hold(&rules, 3, 3, &grid));
        let mut model = Model::new(3, 3, create_simple_ruleset(), Some(seed)).unwrap();
        let grid = model.run(zero).expect("a solution exists");
        assert!(all_rules_hold(&rules, 3, 3, &grid));
        let mut model = Model::new(3, 1, backtracking_ruleset(), Some(seed)).unwrap();
        assert_eq!(model.run(zero).unwrap(), vec!["T2", "T4", "T5"]);
    }
}

#[test]
fn a_tile_without_weight_is_never_chosen() {
    for seed in 0..30u64 {
        let mut rules = RuleSet::new();
        rules.add_tile("never".to_string(), 0);
        rules.add_tile("always".to_string(), 2);
        let mut model = Model::new(1, 1, rules, Some(seed)).unwrap();
        assert_eq!(model.run(shannon).unwrap(), vec!["always".to_string()]);
    }
}

#[test]
fn the_two_zeros_have_one_key() {
    assert_eq!(key_of(0.0), key_of(-0.0));
    assert!(key_of(-0.5) < key_of(0.0));
    assert!(key_of(0.0) < key_of(0.25));
    assert!(key_of(0.25) < key_of(2.0));
    assert!(key_of(-2.0) < key_of(-0.5));
    assert_eq!(key_of(f64::NAN), u64::MAX);
    assert_eq!(shannon(&vec![], 77), key_of(0.0));
    assert_eq!(shannon(&vec![0, 0], 77), key_of(0.0));
    assert_eq!(shannon(&vec![4, 4], 0), key_of(1.0));
    assert!(shannon(&vec![4, 4], u64::MAX) < key_of(1.0));
    assert!(shannon(&vec![4, 4], u64::MAX) > key_of(0.998));
}

#[test]
fn candidate_weights_follow_the_order_of_identifiers() {
    let model = Model::new(2, 2, backtracking_ruleset(), Some(1)).unwrap();
    assert_eq!(model.candidate_weights(3), vec![100, 1, 1, 1, 1]);
    assert!(model.supports(&vec![true, false, false, false, false], Direction::Right, 2));
    assert!(!model.supports(&vec![true, false, false, false, false], Direction::Right, 3));
    assert!(!model.supports(&vec![false, false, true, false, false], Direction::Right, 0));
}

#[test]
fn a_copy_of_a_model_solves_as_the_model_does() {
    let mut rules = RuleSet::new();
    for name in ["a", "b", "c"] {
        rules.add_tile(name.to_string(), 1);
    }
    for from in ["a", "b", "c"] {
        for to in ["a", "b", "c"] {
            for d in [Direction::Up, Direction::Right, Direction::Down, Direction::Left] {
                rules.add_adjacency(from.to_string(), to.to_string(), d);
            }
        }
    }
    // without a seed the source differs from model to model, but not from a model to its copy
    let model = Model::new(5, 5, rules.clone(), None).unwrap();
    let mut first = model.clone();
    let mut second = model.clone();
    assert_eq!(first.width(), 5);
    assert_eq!(first.candidates(7), model.candidates(7));
    let a = first.run(shannon).unwrap();
    let b = second.run(shannon).unwrap();
    assert_eq!(a, b);
    assert!(!model.is_collapsed(0));
    let mut other = Model::new(5, 5, rules, None).unwrap();
    let c = other.run(shannon).unwrap();
    assert_eq!(c.len(), 25);
}
