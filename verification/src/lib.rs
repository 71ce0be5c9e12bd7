//! Wave function collapse on a rectangular grid of tiles.
//!
//! A [`ruleset::RuleSet`] declares weighted tiles and, per tile and direction,
//! the tiles that may stand next to it. A [`model::Model`] fills a grid with
//! one tile per cell by repeated weighted collapse, constraint propagation and
//! chronological backtracking; [`grid`] holds the mathematics that its
//! contracts speak of. A [`host::WfcModel`] is a session as a host drives it.
//!
//! Which cell is collapsed next is decided by a key that the caller's scoring
//! function gives each cell; the library compares the keys and does not look
//! into them.
use vstd::prelude::*;

pub mod error;
pub mod grid;
pub mod host;
pub mod model;
pub mod order;
pub mod ruleset;
pub mod rng;
pub mod sums;

verus! {

/// Identifier of a tile type.
pub type TileId = String;

/// One of the four grid directions.
#[derive(Debug, Clone, Copy, PartialEq, Eq, Hash, Structural)]
pub enum Direction {
    Up,
    Right,
    Down,
    Left,
}

impl Direction {
    /// The direction a quarter turn clockwise from `self`, as a spec function.
    pub open spec fn spec_rotate_clockwise(self) -> Direction {
        match self {
            Direction::Up => Direction::Right,
            Direction::Right => Direction::Down,
            Direction::Down => Direction::Left,
            Direction::Left => Direction::Up,
        }
    }

    /// The direction facing `self`: two quarter turns away.
    pub open spec fn spec_opposite(self) -> Direction {
        self.spec_rotate_clockwise().spec_rotate_clockwise()
    }

    /// The direction a quarter turn counter-clockwise from `self`: three
    /// quarter turns clockwise.
    pub open spec fn spec_rotate_counter_clockwise(self) -> Direction {
        self.spec_opposite().spec_rotate_clockwise()
    }

    /// Position of the direction in the order Up, Right, Down, Left.
    pub open spec fn spec_ordinal(self) -> int {
        match self {
            Direction::Up => 0,
            Direction::Right => 1,
            Direction::Down => 2,
            Direction::Left => 3,
        }
    }

    /// The direction facing this one.
    pub fn opposite(&self) -> (r: Self)
        ensures
            r == self.spec_opposite(),
            r != *self,
            r.spec_opposite() == *self,
    {
        match self {
            Direction::Up => Direction::Down,
            Direction::Right => Direction::Left,
            Direction::Down => Direction::Up,
            Direction::Left => Direction::Right,
        }
    }

    /// Rotate direction clockwise by 90 degrees.
    pub fn rotate_clockwise(&self) -> (r: Self)
        ensures
            r == self.spec_rotate_clockwise(),
            r.spec_ordinal() == (self.spec_ordinal() + 1) % 4,
    {
        match self {
            Direction::Up => Direction::Right,
            Direction::Right => Direction::Down,
            Direction::Down => Direction::Left,
            Direction::Left => Direction::Up,
        }
    }

    /// Rotate direction counter-clockwise by 90 degrees.
    pub fn rotate_counter_clockwise(&self) -> (r: Self)
        ensures
            r == self.spec_rotate_counter_clockwise(),
            r.spec_ordinal() == (self.spec_ordinal() + 3) % 4,
            r.spec_rotate_clockwise() == *self,
    {
        match self {
            Direction::Up => Direction::Left,
            Direction::Right => Direction::Up,
            Direction::Down => Direction::Right,
            Direction::Left => Direction::Down,
        }
    }

    /// The direction that `name` names: one of the four names with a capital
    /// first letter, and no other text.
    pub open spec fn spec_from_name(name: Seq<char>) -> Option<Direction> {
        if name == "Up"@ {
            Some(Direction::Up)
        } else if name == "Down"@ {
            Some(Direction::Down)
        } else if name == "Left"@ {
            Some(Direction::Left)
        } else if name == "Right"@ {
            Some(Direction::Right)
        } else {
            None
        }
    }

    /// The direction that `name` names, if it names one.
    pub fn from_name(name: &str) -> (r: Option<Direction>)
        ensures
            r == Direction::spec_from_name(name@),
    {
        if crate::order::same(name, "Up") {
            Some(Direction::Up)
        } else if crate::order::same(name, "Down") {
            Some(Direction::Down)
        } else if crate::order::same(name, "Left") {
            Some(Direction::Left)
        } else if crate::order::same(name, "Right") {
            Some(Direction::Right)
        } else {
            None
        }
    }

    /// Position of the direction in the order Up, Right, Down, Left.
    pub fn ordinal(&self) -> (r: usize)
        ensures
            r == self.spec_ordinal(),
            r < 4,
    {
        match self {
            Direction::Up => 0,
            Direction::Right => 1,
            Direction::Down => 2,
            Direction::Left => 3,
        }
    }
}

/// Turning clockwise and then counter-clockwise, or the other way round,
/// gives the direction back; four quarter turns do so too, and the opposite
/// of the opposite is the direction itself.
pub proof fn lemma_direction_turns(d: Direction)
    ensures
        d.spec_rotate_clockwise().spec_rotate_counter_clockwise() == d,
        d.spec_rotate_counter_clockwise().spec_rotate_clockwise() == d,
        d.spec_opposite().spec_opposite() == d,
        d.spec_rotate_clockwise().spec_rotate_clockwise().spec_rotate_clockwise()
            .spec_rotate_clockwise() == d,
        d.spec_opposite() != d,
{
}

/// Symmetry class of a tile under rotation and reflection.
#[derive(Debug, Clone, Copy, PartialEq, Eq, Hash, Structural)]
pub enum SymmetryType {
    /// Full symmetry: all rotations and reflections coincide.
    X,
    /// Symmetric under horizontal and vertical reflection.
    I,
    /// T-shaped symmetry.
    T,
    /// L-shaped symmetry.
    L,
    /// Symmetric under reflection along the diagonal.
    Backslash,
    /// F-shaped: every rotation and reflection differs.
    F,
    /// No symmetry: every rotation and reflection differs.
    N,
}

/// The four rotations, each with the given horizontal reflection.
pub open spec fn quarter_turns(reflect_horizontal: bool) -> Seq<(u16, bool, bool)> {
    seq![
        (0u16, reflect_horizontal, false),
        (90u16, reflect_horizontal, false),
        (180u16, reflect_horizontal, false),
        (270u16, reflect_horizontal, false),
    ]
}

impl SymmetryType {
    /// The distinct transformations of a tile of this class, each given as
    /// (rotation in degrees, reflect horizontally, reflect vertically).
    pub open spec fn spec_transformations(self) -> Seq<(u16, bool, bool)> {
        match self {
            SymmetryType::X => seq![(0u16, false, false)],
            SymmetryType::I => seq![(0u16, false, false), (0u16, true, false)],
            SymmetryType::T | SymmetryType::L => quarter_turns(false),
            SymmetryType::Backslash => seq![(0u16, false, false), (0u16, true, true)],
            SymmetryType::F | SymmetryType::N => quarter_turns(false) + quarter_turns(true),
        }
    }

    /// Number of distinct variants of a tile of this class.
    pub open spec fn spec_variant_count(self) -> nat {
        match self {
            SymmetryType::X => 1,
            SymmetryType::I | SymmetryType::Backslash => 2,
            SymmetryType::T | SymmetryType::L => 4,
            SymmetryType::F | SymmetryType::N => 8,
        }
    }

    /// Get the number of variants this symmetry type produces.
    pub fn variant_count(&self) -> (r: usize)
        ensures
            r == self.spec_variant_count(),
            r == self.spec_transformations().len(),
    {
        match self {
            SymmetryType::X => 1,
            SymmetryType::I => 2,
            SymmetryType::T => 4,
            SymmetryType::L => 4,
            SymmetryType::Backslash => 2,
            SymmetryType::F => 8,
            SymmetryType::N => 8,
        }
    }

    /// Get the transformations (rotation and reflection) for this symmetry
    /// type, as (rotation in degrees, reflect horizontally, reflect
    /// vertically).
    pub fn transformations(&self) -> (r: Vec<(u16, bool, bool)>)
        ensures
            r@ == self.spec_transformations(),
            r@.len() == self.spec_variant_count(),
    {
        let r = match self {
            SymmetryType::X => vec![(0u16, false, false)],
            SymmetryType::I => vec![(0u16, false, false), (0u16, true, false)],
            SymmetryType::T => vec![
                (0u16, false, false),
                (90u16, false, false),
                (180u16, false, false),
                (270u16, false, false),
            ],
            SymmetryType::L => vec![
                (0u16, false, false),
                (90u16, false, false),
                (180u16, false, false),
                (270u16, false, false),
            ],
            SymmetryType::Backslash => vec![(0u16, false, false), (0u16, true, true)],
            SymmetryType::F => vec![
                (0u16, false, false),
                (90u16, false, false),
                (180u16, false, false),
                (270u16, false, false),
                (0u16, true, false),
                (90u16, true, false),
                (180u16, true, false),
                (270u16, true, false),
            ],
            SymmetryType::N => vec![
                (0u16, false, false),
                (90u16, false, false),
                (180u16, false, false),
                (270u16, false, false),
                (0u16, true, false),
                (90u16, true, false),
                (180u16, true, false),
                (270u16, true, false),
            ],
        };
        assert(r@ =~= self.spec_transformations());
        r
    }
}

/// The transformations of a symmetry class are pairwise distinct, start with
/// the identity, and are as many as the class has variants.
pub proof fn lemma_transformations_distinct(s: SymmetryType)
    ensures
        s.spec_transformations().len() == s.spec_variant_count(),
        s.spec_transformations()[0] == (0u16, false, false),
        forall|i: int, j: int|
            0 <= i < j < s.spec_transformations().len() ==> s.spec_transformations()[i]
                != s.spec_transformations()[j],
{
}

} // verus!
