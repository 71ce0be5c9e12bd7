use std::collections::HashSet;
use wfc_core::error::WfcError;
use wfc_core::ruleset::{names, Rule, RuleSet, TileInfo};
use wfc_core::{Direction, TileId};

fn tile(id: &str, weight: u32) -> TileInfo {
    TileInfo { id: id.to_string(), weight }
}

fn rule(from: &str, to: &str, direction: Direction) -> Rule {
    Rule { from: from.to_string(), to: to.to_string(), direction }
}

/// Reads a rule file: tiles with an optional weight, and rules.
fn parse(json: &str) -> Result<RuleSet, WfcError> {
    let value: serde_json::Value =
        serde_json::from_str(json).map_err(|e| WfcError::JsonParseError(e.to_string()))?;
    let mut tiles = Vec::new();
    for t in value["tiles"].as_array().unwrap() {
        let weight = match t.get("weight") {
            Some(w) => w.as_u64().unwrap() as u32,
            None => 1,
        };
        tiles.push(tile(t["id"].as_str().unwrap(), weight));
    }
    let mut rules = Vec::new();
    for r in value["rules"].as_array().unwrap() {
        let direction = Direction::from_name(r["direction"].as_str().unwrap()).unwrap();
        rules.push(rule(r["from"].as_str().unwrap(), r["to"].as_str().unwrap(), direction));
    }
    RuleSet::from_entries(tiles, rules)
}

/// Writes a rule set as a rule file.
fn print(rs: &RuleSet) -> String {
    let mut tiles = Vec::new();
    for t in rs.get_all_tiles() {
        let mut entry = serde_json::Map::new();
        entry.insert("id".to_string(), serde_json::Value::from(t.id.clone()));
        entry.insert("weight".to_string(), serde_json::Value::from(t.weight));
        tiles.push(serde_json::Value::Object(entry));
    }
    let mut rules = Vec::new();
    for r in rs.rule_entries() {
        let mut entry = serde_json::Map::new();
        entry.insert("from".to_string(), serde_json::Value::from(r.from));
        entry.insert("to".to_string(), serde_json::Value::from(r.to));
        entry.insert("direction".to_string(), serde_json::Value::from(format!("{:?}", r.direction)));
        rules.push(serde_json::Value::Object(entry));
    }
    let mut file = serde_json::Map::new();
    file.insert("tiles".to_string(), serde_json::Value::Array(tiles));
    file.insert("rules".to_string(), serde_json::Value::Array(rules));
    serde_json::to_string(&serde_json::Value::Object(file)).unwrap()
}

#[test]
fn test_add_tile_and_adjacency() {
    let mut rs = RuleSet::new();
    rs.add_tile("grass".to_string(), 10);
    rs.add_tile("water".to_string(), 1);
    rs.add_adjacency("grass".to_string(), "water".to_string(), Direction::Right);

    // Check tiles
    assert!(rs.get_tile_info(&"grass".to_string()).is_some());
    assert_eq!(rs.get_tile_info(&"grass".to_string()).unwrap().weight, 10);

    // Check adjacency
    let neighbors = rs.get_valid_neighbors(&"grass".to_string(), Direction::Right);
    assert!(neighbors.is_some());
    assert!(neighbors.unwrap().contains(&"water".to_string()));

    // Check non-existent
    let neighbors_up = rs.get_valid_neighbors(&"grass".to_string(), Direction::Up);
    assert!(neighbors_up.is_none());
}

#[test]
fn test_get_weight() {
    let mut rs = RuleSet::new();
    rs.add_tile("tile1".to_string(), 42);
    assert_eq!(rs.get_weight(&"tile1".to_string()), Some(42));
    assert_eq!(rs.get_weight(&"missing".to_string()), None);
}

#[test]
fn test_to_json_roundtrip() {
    let mut rs = RuleSet::new();
    rs.add_tile("a".to_string(), 5);
    rs.add_tile("b".to_string(), 3);
    rs.add_adjacency("a".to_string(), "b".to_string(), Direction::Down);
    let json_str = print(&rs);
    let rs2 = parse(&json_str).expect("from_json should succeed");
    assert_eq!(rs2.get_all_tiles().len(), 2);
    let neigh = rs2.get_valid_neighbors(&"a".to_string(), Direction::Down).unwrap();
    assert!(neigh.contains(&"b".to_string()));
}

#[test]
fn test_get_tile_info_and_all_tiles() {
    let mut rs = RuleSet::new();
    rs.add_tile("grass".to_string(), 10);
    rs.add_tile("water".to_string(), 1);
    rs.add_tile("sand".to_string(), 5);

    // Test get_tile_info
    let grass_info = rs.get_tile_info(&"grass".to_string()).expect("grass tile should exist");
    assert_eq!(grass_info.id, "grass");
    assert_eq!(grass_info.weight, 10);

    let water_info = rs.get_tile_info(&"water".to_string()).expect("water tile should exist");
    assert_eq!(water_info.id, "water");
    assert_eq!(water_info.weight, 1);

    assert!(rs.get_tile_info(&"nonexistent".to_string()).is_none());

    // Test get_all_tiles
    let all_tiles = rs.get_all_tiles();
    assert_eq!(all_tiles.len(), 3);
    let tile_ids_from_all_tiles: HashSet<TileId> = all_tiles.iter().map(|t| t.id.clone()).collect();
    assert!(tile_ids_from_all_tiles.contains("grass"));
    assert!(tile_ids_from_all_tiles.contains("water"));
    assert!(tile_ids_from_all_tiles.contains("sand"));

    // Test get_all_tile_ids
    let all_tile_ids = rs.get_all_tile_ids();
    assert_eq!(all_tile_ids.len(), 3);
    let tile_ids_set: HashSet<&TileId> = all_tile_ids.into_iter().collect();
    assert!(tile_ids_set.contains(&"grass".to_string()));
    assert!(tile_ids_set.contains(&"water".to_string()));
    assert!(tile_ids_set.contains(&"sand".to_string()));
}

#[test]
fn test_from_json_basic() {
    let json = r#"{
            "tiles": [
                { "id": "grass", "weight": 10 },
                { "id": "water", "weight": 1 }
            ],
            "rules": [
                { "from": "grass", "to": "water", "direction": "Right" }
            ]
        }"#;

    let rs = parse(json).expect("Should parse valid JSON");
    assert_eq!(rs.get_all_tiles().len(), 2);
    assert!(rs
        .get_valid_neighbors(&"grass".to_string(), Direction::Right)
        .unwrap()
        .contains(&"water".to_string()));
}

#[test]
fn broken_json_is_a_parse_error() {
    match parse("{ \"tiles\": [") {
        Err(WfcError::JsonParseError(text)) => {
            assert!(!text.is_empty());
            let message = WfcError::JsonParseError(text.clone()).message();
            assert_eq!(message, format!("JSON parse error: {}", text));
        }
        other => panic!("expected JsonParseError, got {:?}", other.map(|_| ())),
    }
}

#[test]
fn missing_weight_defaults_to_one() {
    let rs = parse(r#"{ "tiles": [ { "id": "abc" } ], "rules": [] }"#).expect("Should parse");
    assert_eq!(rs.get_weight("abc"), Some(1));
}

#[test]
fn tiles_are_listed_in_ascending_order() {
    let mut rs = RuleSet::new();
    rs.add_tile("water".to_string(), 1);
    rs.add_tile("grass".to_string(), 10);
    rs.add_tile("sand".to_string(), 5);
    rs.add_tile("Zebra".to_string(), 2);
    rs.add_tile("gras".to_string(), 3);
    let ids: Vec<String> = rs.get_all_tile_ids().into_iter().cloned().collect();
    assert_eq!(ids, vec!["Zebra", "gras", "grass", "sand", "water"]);
    let weights: Vec<u32> = rs.get_all_tiles().into_iter().map(|t| t.weight).collect();
    assert_eq!(weights, vec![2, 3, 10, 5, 1]);
    assert_eq!(rs.tile_count(), 5);
    assert_eq!(rs.tile_at(2).id, "grass");
    assert_eq!(rs.position("sand"), (3, true));
    assert_eq!(rs.position("rock"), (3, false));
    assert_eq!(rs.position("zzz"), (5, false));
}

#[test]
fn adding_a_tile_again_replaces_its_weight() {
    let mut rs = RuleSet::new();
    rs.add_tile("a".to_string(), 1);
    rs.add_tile("b".to_string(), 2);
    rs.add_tile("a".to_string(), 7);
    assert_eq!(rs.tile_count(), 2);
    assert_eq!(rs.get_weight("a"), Some(7));
    assert_eq!(rs.get_weight("b"), Some(2));
}

#[test]
fn adjacency_is_one_way_and_without_duplicates() {
    let mut rs = RuleSet::new();
    rs.add_adjacency("a".to_string(), "b".to_string(), Direction::Right);
    rs.add_adjacency("a".to_string(), "b".to_string(), Direction::Right);
    rs.add_adjacency("a".to_string(), "c".to_string(), Direction::Right);
    let right = rs.get_valid_neighbors(&"a".to_string(), Direction::Right).unwrap();
    assert_eq!(right, &vec!["b".to_string(), "c".to_string()]);
    assert!(rs.get_valid_neighbors(&"b".to_string(), Direction::Left).is_none());
    assert!(rs.get_valid_neighbors(&"a".to_string(), Direction::Left).is_none());
    assert_eq!(rs.tile_count(), 0);
    assert!(names(right, "c"));
    assert!(!names(right, "a"));
}

#[test]
fn neighbor_mask_marks_the_allowed_tiles() {
    let mut rs = RuleSet::new();
    rs.add_tile("a".to_string(), 1);
    rs.add_tile("b".to_string(), 1);
    rs.add_tile("c".to_string(), 1);
    rs.add_adjacency("b".to_string(), "c".to_string(), Direction::Up);
    rs.add_adjacency("b".to_string(), "a".to_string(), Direction::Up);
    rs.add_adjacency("b".to_string(), "ghost".to_string(), Direction::Up);
    assert_eq!(rs.neighbor_mask(1, Direction::Up), vec![true, false, true]);
    assert_eq!(rs.neighbor_mask(1, Direction::Down), vec![false, false, false]);
    assert_eq!(rs.neighbor_mask(0, Direction::Up), vec![false, false, false]);
}

#[test]
fn rules_of_undeclared_tiles_are_refused() {
    let tiles = vec![tile("a", 1), tile("b", 1)];
    let rules = vec![
        rule("a", "b", Direction::Up),
        rule("a", "x", Direction::Up),
        rule("y", "b", Direction::Up),
    ];
    match RuleSet::from_entries(tiles, rules) {
        Err(WfcError::InvalidTileId(id)) => assert_eq!(id, "x"),
        other => panic!("expected InvalidTileId, got {:?}", other.map(|_| ())),
    }
    let both = vec![rule("p", "q", Direction::Left)];
    match RuleSet::from_entries(vec![tile("a", 1)], both) {
        Err(WfcError::InvalidTileId(id)) => assert_eq!(id, "p"),
        other => panic!("expected InvalidTileId, got {:?}", other.map(|_| ())),
    }
}

#[test]
fn entries_without_tiles_are_refused() {
    assert!(matches!(RuleSet::from_entries(vec![], vec![]), Err(WfcError::NoTilesDefined)));
    match RuleSet::from_entries(vec![], vec![rule("a", "b", Direction::Up)]) {
        Err(WfcError::InvalidTileId(id)) => assert_eq!(id, "a"),
        other => panic!("expected InvalidTileId, got {:?}", other.map(|_| ())),
    }
}

#[test]
fn entries_build_the_rule_set() {
    let tiles = vec![tile("b", 2), tile("a", 1), tile("b", 5)];
    let rules = vec![rule("a", "b", Direction::Up), rule("a", "a", Direction::Up)];
    let rs = RuleSet::from_entries(tiles, rules).unwrap();
    assert_eq!(rs.tile_count(), 2);
    assert_eq!(rs.get_weight("b"), Some(5));
    assert_eq!(
        rs.get_valid_neighbors(&"a".to_string(), Direction::Up).unwrap(),
        &vec!["b".to_string(), "a".to_string()]
    );
    let listed = rs.rule_entries();
    assert_eq!(listed.len(), 2);
    assert!(listed.iter().any(|r| r.from == "a" && r.to == "a" && r.direction == Direction::Up));
    assert!(listed.iter().any(|r| r.from == "a" && r.to == "b" && r.direction == Direction::Up));
}

#[test]
fn directions_by_name() {
    let mut rs = RuleSet::new();
    rs.add_tile_wasm("a".to_string(), 4);
    rs.add_adjacency_wasm("a".to_string(), "a".to_string(), "Left".to_string());
    rs.add_adjacency_wasm("a".to_string(), "a".to_string(), "left".to_string());
    rs.add_adjacency_wasm("a".to_string(), "a".to_string(), "Sideways".to_string());
    assert_eq!(rs.get_weight("a"), Some(4));
    assert!(rs.get_valid_neighbors(&"a".to_string(), Direction::Left).is_some());
    assert_eq!(rs.rule_entries().len(), 1);
    assert_eq!(Direction::from_name("Up"), Some(Direction::Up));
    assert_eq!(Direction::from_name("Down"), Some(Direction::Down));
    assert_eq!(Direction::from_name("Right"), Some(Direction::Right));
    assert_eq!(Direction::from_name("Left"), Some(Direction::Left));
    assert_eq!(Direction::from_name(""), None);
    assert_eq!(Direction::from_name("Upp"), None);
}

#[test]
fn rules_are_listed_once_each() {
    let mut rs = RuleSet::new();
    for _ in 0..3 {
        rs.add_adjacency("a".to_string(), "b".to_string(), Direction::Up);
        rs.add_adjacency("a".to_string(), "c".to_string(), Direction::Up);
        rs.add_adjacency("a".to_string(), "b".to_string(), Direction::Down);
        rs.add_adjacency("b".to_string(), "b".to_string(), Direction::Up);
    }
    let listed = rs.rule_entries();
    assert_eq!(listed.len(), 4);
    for i in 0..listed.len() {
        for k in i + 1..listed.len() {
            assert!(
                !(listed[i].from == listed[k].from
                    && listed[i].to == listed[k].to
                    && listed[i].direction == listed[k].direction)
            );
        }
    }
}

#[test]
fn a_copy_of_a_rule_set_holds_the_same() {
    let mut rs = RuleSet::new();
    rs.add_tile("b".to_string(), 2);
    rs.add_tile("a".to_string(), 1);
    rs.add_adjacency("a".to_string(), "b".to_string(), Direction::Left);
    let mut copy = rs.clone();
    assert_eq!(copy.tile_count(), 2);
    assert_eq!(copy.get_weight("b"), Some(2));
    assert_eq!(
        copy.get_valid_neighbors(&"a".to_string(), Direction::Left).unwrap(),
        &vec!["b".to_string()]
    );
    copy.add_tile("c".to_string(), 3);
    assert_eq!(rs.tile_count(), 2);
    assert_eq!(RuleSet::default().tile_count(), 0);
}
