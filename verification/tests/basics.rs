use wfc_core::error::{decimal, WfcError};
use wfc_core::order::{place, same, Placement};
use wfc_core::{Direction, SymmetryType};

#[test]
fn opposite_directions() {
    assert_eq!(Direction::Up.opposite(), Direction::Down);
    assert_eq!(Direction::Right.opposite(), Direction::Left);
    assert_eq!(Direction::Down.opposite(), Direction::Up);
    assert_eq!(Direction::Left.opposite(), Direction::Right);
}

#[test]
fn rotations() {
    assert_eq!(Direction::Up.rotate_clockwise(), Direction::Right);
    assert_eq!(Direction::Right.rotate_clockwise(), Direction::Down);
    assert_eq!(Direction::Down.rotate_clockwise(), Direction::Left);
    assert_eq!(Direction::Left.rotate_clockwise(), Direction::Up);
    assert_eq!(Direction::Up.rotate_counter_clockwise(), Direction::Left);
    assert_eq!(Direction::Right.rotate_counter_clockwise(), Direction::Up);
    assert_eq!(Direction::Down.rotate_counter_clockwise(), Direction::Right);
    assert_eq!(Direction::Left.rotate_counter_clockwise(), Direction::Down);
}

#[test]
fn turns_undo_each_other() {
    for d in [Direction::Up, Direction::Right, Direction::Down, Direction::Left] {
        assert_eq!(d.rotate_clockwise().rotate_counter_clockwise(), d);
        assert_eq!(d.opposite().opposite(), d);
        assert_eq!(d.rotate_clockwise().rotate_clockwise(), d.opposite());
        assert_eq!((d.ordinal() + 1) % 4, d.rotate_clockwise().ordinal());
    }
}

#[test]
fn symmetry_variants() {
    assert_eq!(SymmetryType::X.variant_count(), 1);
    assert_eq!(SymmetryType::I.variant_count(), 2);
    assert_eq!(SymmetryType::T.variant_count(), 4);
    assert_eq!(SymmetryType::L.variant_count(), 4);
    assert_eq!(SymmetryType::Backslash.variant_count(), 2);
    assert_eq!(SymmetryType::F.variant_count(), 8);
    assert_eq!(SymmetryType::N.variant_count(), 8);
}

#[test]
fn symmetry_transformations() {
    assert_eq!(SymmetryType::X.transformations(), vec![(0, false, false)]);
    assert_eq!(SymmetryType::I.transformations(), vec![(0, false, false), (0, true, false)]);
    assert_eq!(
        SymmetryType::T.transformations(),
        vec![(0, false, false), (90, false, false), (180, false, false), (270, false, false)]
    );
    assert_eq!(SymmetryType::L.transformations(), SymmetryType::T.transformations());
    assert_eq!(SymmetryType::Backslash.transformations(), vec![(0, false, false), (0, true, true)]);
    assert_eq!(
        SymmetryType::F.transformations(),
        vec![
            (0, false, false),
            (90, false, false),
            (180, false, false),
            (270, false, false),
            (0, true, false),
            (90, true, false),
            (180, true, false),
            (270, true, false)
        ]
    );
    assert_eq!(SymmetryType::N.transformations(), SymmetryType::F.transformations());
    for s in [
        SymmetryType::X,
        SymmetryType::I,
        SymmetryType::T,
        SymmetryType::L,
        SymmetryType::Backslash,
        SymmetryType::F,
        SymmetryType::N,
    ] {
        assert_eq!(s.transformations().len(), s.variant_count());
    }
}

#[test]
fn identifiers_are_ordered_by_bytes() {
    assert_eq!(place("a", "b"), Placement::Before);
    assert_eq!(place("b", "a"), Placement::After);
    assert_eq!(place("abc", "abc"), Placement::Same);
    assert_eq!(place("ab", "abc"), Placement::Before);
    assert_eq!(place("abc", "ab"), Placement::After);
    assert_eq!(place("", "a"), Placement::Before);
    assert_eq!(place("", ""), Placement::Same);
    assert_eq!(place("Z", "a"), Placement::Before);
    assert_eq!(place("T10", "T2"), Placement::Before);
    assert_eq!(place("z", "é"), Placement::Before);
    for (a, b) in [("a", "b"), ("grass", "gras"), ("é", "z"), ("", "x"), ("same", "same")] {
        let expected = if a < b {
            Placement::Before
        } else if a == b {
            Placement::Same
        } else {
            Placement::After
        };
        assert_eq!(place(a, b), expected);
    }
    assert!(same("Up", "Up"));
    assert!(!same("Up", "up"));
}

#[test]
fn error_messages() {
    assert_eq!(
        WfcError::InvalidDimensions { width: 0, height: 501 }.message(),
        "Invalid dimensions: 0x501"
    );
    assert_eq!(WfcError::NoTilesDefined.message(), "No tiles defined in the rule set");
    assert_eq!(WfcError::Contradiction.message(), "Contradiction reached, generation failed");
    assert_eq!(WfcError::InvalidTileId("lava".to_string()).message(), "Invalid tile ID: lava");
    assert_eq!(
        WfcError::JsonParseError("EOF while parsing".to_string()).message(),
        "JSON parse error: EOF while parsing"
    );
}

#[test]
fn decimal_notation() {
    assert_eq!(decimal(0), "0");
    assert_eq!(decimal(7), "7");
    assert_eq!(decimal(10), "10");
    assert_eq!(decimal(1234567890), "1234567890");
    assert_eq!(decimal(usize::MAX), usize::MAX.to_string());
}
