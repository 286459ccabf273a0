//! The random piece generator: draws number, color and operation for a
//! fresh falling block. The only place the engine consumes randomness.

use vstd::prelude::*;

use crate::block::{BlockColor, Operation};
use crate::coords::{Coords, SPAWN_X, SPAWN_Y};
use crate::piece::DroppingBlock;

verus! {

/// Relies on rand::random_range: the result lies in the given range,
/// which `1 <= n` keeps non-empty.
#[verifier::external_body]
fn random_below(n: u32) -> (r: u32)
    requires
        1 <= n,
    ensures
        r < n,
{
    rand::random_range(0..n)
}

/// The color a roll stands for.
pub open spec fn color_from_roll(roll: int) -> BlockColor {
    if roll == 0 {
        BlockColor::BLUE
    } else if roll == 1 {
        BlockColor::YELLOW
    } else if roll == 2 {
        BlockColor::PINK
    } else {
        BlockColor::GREEN
    }
}

/// The operation a roll stands for, with the division-by-zero guard: a
/// divide drawn together with the number zero becomes a multiply.
pub open spec fn operation_from_roll(roll: int, number: int) -> Operation {
    let base = if roll == 0 {
        Operation::ADD
    } else if roll == 1 {
        Operation::SUBTRACT
    } else if roll == 2 {
        Operation::MULTIPLY
    } else {
        Operation::DIVIDE
    };
    if base is DIVIDE && number == 0 {
        Operation::MULTIPLY
    } else {
        base
    }
}

/// Builds the fresh piece the three rolls describe, at the spawn cell.
/// A division can never be paired with the number zero.
pub fn piece_from_rolls(num: u32, col: u32, op: u32) -> (p: DroppingBlock)
    requires
        num < 10,
        col < 4,
        op < 4,
    ensures
        p.wf(),
        p.position == (Coords { x: SPAWN_X, y: SPAWN_Y }),
        p.number == num,
        p.color == color_from_roll(col as int),
        p.operation == operation_from_roll(op as int, num as int),
        p.operation is DIVIDE ==> p.number != 0,
{
    let color = if col == 0 {
        BlockColor::BLUE
    } else if col == 1 {
        BlockColor::YELLOW
    } else if col == 2 {
        BlockColor::PINK
    } else {
        BlockColor::GREEN
    };
    let base = if op == 0 {
        Operation::ADD
    } else if op == 1 {
        Operation::SUBTRACT
    } else if op == 2 {
        Operation::MULTIPLY
    } else {
        Operation::DIVIDE
    };
    let operation = if matches!(base, Operation::DIVIDE) && num == 0 {
        Operation::MULTIPLY
    } else {
        base
    };
    DroppingBlock {
        position: Coords::new(SPAWN_X, SPAWN_Y),
        number: num as i32,
        color,
        operation,
    }
}

/// Draws the parameters of the next falling block: a number from zero to
/// nine, one of the four colors, one of the four operations — with a
/// divide drawn alongside a zero replaced by a multiply, so the piece
/// never carries a zero divisor.
pub fn randomize_new_block() -> (p: DroppingBlock)
    ensures
        p.wf(),
        p.position == (Coords { x: SPAWN_X, y: SPAWN_Y }),
        0 <= p.number <= 9,
        p.operation is DIVIDE ==> p.number != 0,
{
    let num = random_below(10);
    let col = random_below(4);
    let op = random_below(4);
    piece_from_rolls(num, col, op)
}

} // verus!
