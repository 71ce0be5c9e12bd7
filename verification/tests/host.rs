use wfc_core::error::WfcError;
use wfc_core::host::{HostError, WfcModel};
use wfc_core::ruleset::{Rule, TileInfo};
use wfc_core::Direction;

fn first_weight(weights: &Vec<u32>, word: u64) -> u64 {
    (weights.len() as u64) * 1000 + word % 1000
}

fn tiles() -> Vec<TileInfo> {
    vec![
        TileInfo { id: "grass".to_string(), weight: 10 },
        TileInfo { id: "water".to_string(), weight: 1 },
    ]
}

fn all_pairs() -> Vec<Rule> {
    let mut rules = Vec::new();
    for from in ["grass", "water"] {
        for to in ["grass", "water"] {
            for direction in [Direction::Up, Direction::Right, Direction::Down, Direction::Left] {
                rules.push(Rule { from: from.to_string(), to: to.to_string(), direction });
            }
        }
    }
    rules
}

#[test]
fn session_checks_its_dimensions() {
    assert!(matches!(
        WfcModel::new(0, 4, None),
        Err(WfcError::InvalidDimensions { width: 0, height: 4 })
    ));
    assert!(matches!(
        WfcModel::new(4, 501, Some(2)),
        Err(WfcError::InvalidDimensions { width: 4, height: 501 })
    ));
    assert!(WfcModel::new(500, 500, None).is_ok());
}

#[test]
fn session_without_rules_refuses_to_run() {
    let mut session = WfcModel::new(2, 2, Some(1)).unwrap();
    assert!(matches!(session.run(first_weight), Err(HostError::NotInitialized)));
    assert!(matches!(session.get_grid(), Err(HostError::NoGrid)));
}

#[test]
fn session_solves_and_keeps_the_grid() {
    let mut session = WfcModel::new(3, 2, Some(7)).unwrap();
    session.load_rules(tiles(), all_pairs()).unwrap();
    assert!(matches!(session.get_grid(), Err(HostError::NoGrid)));
    assert_eq!(session.run(first_weight).unwrap(), true);
    let grid = session.get_grid().unwrap().clone();
    assert_eq!(grid.len(), 6);
    for id in &grid {
        assert!(id == "grass" || id == "water");
    }
    // new rules drop the grid
    session.load_rules(tiles(), all_pairs()).unwrap();
    assert!(matches!(session.get_grid(), Err(HostError::NoGrid)));
}

#[test]
fn session_reports_a_contradiction_as_false() {
    let mut session = WfcModel::new(2, 1, Some(1)).unwrap();
    session.load_rules(tiles(), vec![]).unwrap();
    assert_eq!(session.run(first_weight).unwrap(), false);
    assert!(matches!(session.get_grid(), Err(HostError::NoGrid)));
}

#[test]
fn session_keeps_its_rules_when_new_ones_are_refused() {
    let mut session = WfcModel::new(2, 2, Some(3)).unwrap();
    session.load_rules(tiles(), all_pairs()).unwrap();
    assert_eq!(session.run(first_weight).unwrap(), true);
    let bad = vec![Rule { from: "grass".to_string(), to: "lava".to_string(), direction: Direction::Up }];
    match session.load_rules(tiles(), bad) {
        Err(WfcError::InvalidTileId(id)) => assert_eq!(id, "lava"),
        other => panic!("expected InvalidTileId, got {:?}", other),
    }
    assert!(matches!(session.load_rules(vec![], vec![]), Err(WfcError::NoTilesDefined)));
    assert_eq!(session.get_grid().unwrap().len(), 4);
}

#[test]
fn session_error_messages() {
    assert_eq!(
        HostError::NotInitialized.message(),
        "Model not initialized. Call load_rules() first."
    );
    assert_eq!(HostError::NoGrid.message(), "No generated grid available. Run successfully first.");
    assert_eq!(
        HostError::Solver(WfcError::NoTilesDefined).message(),
        "No tiles defined in the rule set"
    );
}

#[test]
fn session_succeeds_for_every_seed_where_a_solution_exists() {
    fn highest(_weights: &Vec<u32>, _word: u64) -> u64 {
        u64::MAX
    }
    for seed in 0..20u64 {
        let mut session = WfcModel::new(4, 3, Some(seed)).unwrap();
        session.load_rules(tiles(), all_pairs()).unwrap();
        assert_eq!(session.run(first_weight).unwrap(), true);
        assert_eq!(session.get_grid().unwrap().len(), 12);
        let mut session = WfcModel::new(4, 3, Some(seed)).unwrap();
        session.load_rules(tiles(), all_pairs()).unwrap();
        assert_eq!(session.run(highest).unwrap(), true);
    }
}

#[test]
fn session_without_adjacency_fails_on_every_seed() {
    for seed in 0..20u64 {
        let mut session = WfcModel::new(1, 2, Some(seed)).unwrap();
        session.load_rules(tiles(), vec![]).unwrap();
        assert_eq!(session.run(first_weight).unwrap(), false);
    }
}
