//! Cell coordinates and board bounds.

use vstd::prelude::*;

verus! {

/// Width of the playfield, in blocks.
pub const BOARD_WIDTH: i32 = 7;

/// Height of the playfield, in blocks.
pub const BOARD_HEIGHT: i32 = 16;

/// Column where a fresh piece appears.
pub const SPAWN_X: i32 = 4;

/// Row where a fresh piece appears; also the danger row: a piece that can
/// no longer fall while sitting at or above this row ends the round.
pub const SPAWN_Y: i32 = BOARD_HEIGHT - 1;

/// Size of a board, in blocks.
pub struct BoardSize {
    pub width: u32,
    pub height: u32,
}

/// A cell position: integer column `x` (0 at the left) and row `y`
/// (0 at the floor). Coordinates outside the board act as solid boundary
/// for every occupancy query.
#[derive(Clone, Copy, PartialEq, Eq, Structural, Debug, Hash)]
pub struct Coords {
    pub x: i32,
    pub y: i32,
}

impl Coords {
    pub fn new(x: i32, y: i32) -> (c: Coords)
        ensures
            c == (Coords { x, y }),
    {
        Coords { x, y }
    }
}

/// The coordinates that may hold a stored occupant.
pub open spec fn in_bounds(c: Coords) -> bool {
    0 <= c.x < BOARD_WIDTH && 0 <= c.y < BOARD_HEIGHT
}

/// Runtime bounds check, equal to the spec-level one.
pub fn coord_in_bounds(c: &Coords) -> (r: bool)
    ensures
        r == in_bounds(*c),
{
    0 <= c.x && c.x < BOARD_WIDTH && 0 <= c.y && c.y < BOARD_HEIGHT
}

/// The cell directly beneath.
pub open spec fn below(c: Coords) -> Coords {
    Coords { x: c.x, y: (c.y - 1) as i32 }
}

/// The cell directly above.
pub open spec fn above(c: Coords) -> Coords {
    Coords { x: c.x, y: (c.y + 1) as i32 }
}

/// The cell one column to the left.
pub open spec fn left_of(c: Coords) -> Coords {
    Coords { x: (c.x - 1) as i32, y: c.y }
}

/// The cell one column to the right.
pub open spec fn right_of(c: Coords) -> Coords {
    Coords { x: (c.x + 1) as i32, y: c.y }
}

/// Orthogonal 4-neighborhood on the cell lattice.
pub open spec fn adjacent(a: Coords, b: Coords) -> bool {
    ||| (b.x == a.x && (b.y == a.y - 1 || b.y == a.y + 1))
    ||| (b.y == a.y && (b.x == a.x - 1 || b.x == a.x + 1))
}

} // verus!
