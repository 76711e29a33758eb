//! Core data model: tiles, coordinates, directions and movable entities.

use vstd::prelude::*;

verus! {

/// Static terrain at one board cell. Terrain never holds a movable entity and
/// never changes after a level is parsed.
#[derive(Clone, Copy, PartialEq, Eq, Structural, Debug)]
pub enum Tile {
    Empty,
    Wall,
    Goal,
}

/// A grid position: `x` is the column, `y` is the row.
#[derive(Clone, Copy, PartialEq, Eq, Structural, Debug)]
pub struct Coordinate {
    pub x: usize,
    pub y: usize,
}

/// A direction of one player move; each maps to a unit coordinate delta.
#[derive(Clone, Copy, PartialEq, Eq, Structural, Debug)]
pub enum Direction {
    Up,
    Down,
    Left,
    Right,
}

/// A movable object on the board: the player, or one pushable box.
#[derive(Clone, Copy, PartialEq, Eq, Structural, Debug)]
pub enum Entity {
    Player(Coordinate),
    SokoBox(Coordinate),
}

impl Entity {
    /// The position of the entity, whichever variant it is.
    pub open spec fn pos(self) -> Coordinate {
        match self {
            Entity::Player(c) => c,
            Entity::SokoBox(c) => c,
        }
    }

    pub open spec fn is_player(self) -> bool {
        self is Player
    }

    pub open spec fn is_box(self) -> bool {
        self is SokoBox
    }

    /// The position of the entity, as executable code reads it.
    pub fn position(&self) -> (c: Coordinate)
        ensures
            c == self.pos(),
    {
        match self {
            Entity::Player(c) => *c,
            Entity::SokoBox(c) => *c,
        }
    }
}

} // verus!
