//! Blocks: colors, carried operations, and stored occupants.

use vstd::prelude::*;

verus! {

/// Lowest number a block may show after clamping.
pub const MIN_NUMBER: i32 = -99;

/// Highest number a block may show after clamping.
pub const MAX_NUMBER: i32 = 99;

/// The arithmetic operation a falling block carries and applies on lock.
#[allow(non_camel_case_types)]
#[derive(Clone, Copy, PartialEq, Eq, Structural, Debug)]
pub enum Operation {
    ADD,
    SUBTRACT,
    MULTIPLY,
    DIVIDE,
}

/// Color of a block. `NONE` marks boundary occupants that never match any
/// falling piece's color.
#[allow(non_camel_case_types)]
#[derive(Clone, Copy, PartialEq, Eq, Structural, Debug)]
pub enum BlockColor {
    NONE,
    BLUE,
    YELLOW,
    PINK,
    GREEN,
}

/// A locked block as stored in the grid: its identity, its color, and its
/// current number. The number is kept clamped to
/// [`MIN_NUMBER`]..=[`MAX_NUMBER`].
#[derive(Clone, Copy, PartialEq, Eq, Structural, Debug)]
pub struct Occupant {
    pub entity: u64,
    pub color: BlockColor,
    pub number: i32,
}

/// The number range every stored occupant keeps.
pub open spec fn number_in_range(n: int) -> bool {
    MIN_NUMBER <= n <= MAX_NUMBER
}

} // verus!
