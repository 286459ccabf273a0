//! The falling piece: the single block under player control, owned by
//! the controller until it locks into the grid.

use vstd::prelude::*;

use crate::block::{BlockColor, Operation};
use crate::board::BlockMap;
use crate::coords::{in_bounds, left_of, right_of, Coords};

verus! {

/// Highest number a fresh piece may carry.
pub const MAX_PIECE_NUMBER: i32 = 9;

/// The falling block: position, number, color, and the arithmetic
/// operation it will apply when it locks.
#[derive(Clone, Copy, PartialEq, Eq, Structural, Debug)]
pub struct DroppingBlock {
    pub position: Coords,
    pub number: i32,
    pub color: BlockColor,
    pub operation: Operation,
}

impl DroppingBlock {
    /// A falling piece sits on the board, shows a small non-negative
    /// number, has a real color, and never divides by zero.
    pub open spec fn wf(self) -> bool {
        &&& in_bounds(self.position)
        &&& 0 <= self.number <= MAX_PIECE_NUMBER
        &&& self.color != BlockColor::NONE
        &&& self.operation is DIVIDE ==> self.number != 0
    }

    /// Honors a `move_left` intent: steps into the cell to the left when
    /// it is free, and silently stays put when that cell is occupied or
    /// the solid boundary — a normal input outcome, not a fault.
    pub fn move_left(&mut self, map: &BlockMap)
        requires
            map.wf(),
            old(self).wf(),
        ensures
            final(self).wf(),
            map.free_spec(left_of(old(self).position)) ==> *final(self) == (DroppingBlock {
                position: left_of(old(self).position),
                ..*old(self)
            }),
            !map.free_spec(left_of(old(self).position)) ==> *final(self) == *old(self),
    {
        let target = Coords::new(self.position.x - 1, self.position.y);
        if map.is_none(&target) {
            self.position = target;
        }
    }

    /// Honors a `move_right` intent, the mirror of [`Self::move_left`].
    pub fn move_right(&mut self, map: &BlockMap)
        requires
            map.wf(),
            old(self).wf(),
        ensures
            final(self).wf(),
            map.free_spec(right_of(old(self).position)) ==> *final(self) == (DroppingBlock {
                position: right_of(old(self).position),
                ..*old(self)
            }),
            !map.free_spec(right_of(old(self).position)) ==> *final(self) == *old(self),
    {
        let target = Coords::new(self.position.x + 1, self.position.y);
        if map.is_none(&target) {
            self.position = target;
        }
    }

    /// Reassigns the piece's color by direct set. Has no effect on grid
    /// state.
    pub fn set_color(&mut self, color: BlockColor)
        requires
            old(self).wf(),
            color != BlockColor::NONE,
        ensures
            *final(self) == (DroppingBlock { color, ..*old(self) }),
    {
        self.color = color;
    }

    /// Cycles the piece's color: blue, pink, green, yellow, and around.
    pub fn switch_color(&mut self)
        requires
            old(self).wf(),
        ensures
            final(self).wf(),
            final(self).color == (match old(self).color {
                BlockColor::NONE => BlockColor::NONE,
                BlockColor::BLUE => BlockColor::PINK,
                BlockColor::PINK => BlockColor::GREEN,
                BlockColor::GREEN => BlockColor::YELLOW,
                BlockColor::YELLOW => BlockColor::BLUE,
            }),
            final(self).position == old(self).position,
            final(self).number == old(self).number,
            final(self).operation == old(self).operation,
    {
        self.color = match self.color {
            BlockColor::NONE => BlockColor::NONE,
            BlockColor::BLUE => BlockColor::PINK,
            BlockColor::PINK => BlockColor::GREEN,
            BlockColor::GREEN => BlockColor::YELLOW,
            BlockColor::YELLOW => BlockColor::BLUE,
        };
    }

    /// Reassigns the piece's operation by direct set. A division handed
    /// to a piece whose number is zero is replaced by multiplication, the
    /// same substitution the piece generator makes, so no instruction
    /// with a zero divisor can ever be produced.
    pub fn set_operation(&mut self, op: Operation)
        requires
            old(self).wf(),
        ensures
            final(self).wf(),
            final(self).operation == (if op is DIVIDE && old(self).number == 0 {
                Operation::MULTIPLY
            } else {
                op
            }),
            final(self).position == old(self).position,
            final(self).number == old(self).number,
            final(self).color == old(self).color,
    {
        let keep_div = !(matches!(op, Operation::DIVIDE) && self.number == 0);
        if keep_div {
            self.operation = op;
        } else {
            self.operation = Operation::MULTIPLY;
        }
    }
}

} // verus!
