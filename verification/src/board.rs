//! The block map: the board's occupancy state.
//!
//! In-bounds cells are stored in a flat vector, one slot per coordinate, so
//! a coordinate can never map to more than one occupant. Out-of-bounds
//! coordinates are a conceptual solid boundary: every occupancy query
//! treats them as occupied, and nothing is ever stored for them.

use vstd::prelude::*;

use vstd::arithmetic::div_mod::{lemma_fundamental_div_mod, lemma_mod_division_less_than_divisor};

use crate::block::{number_in_range, Occupant};
use crate::coords::{coord_in_bounds, in_bounds, Coords, BOARD_HEIGHT, BOARD_WIDTH};

verus! {

/// Occupancy map of all locked blocks. Every mutator keeps [`Self::wf`];
/// callers hand in only well-formed maps.
pub struct BlockMap {
    pub cells: Vec<Option<Occupant>>,
}

/// Slot of an in-bounds coordinate in the flat cell vector. Cells of one
/// column sit next to each other, with the floor cell first.
pub open spec fn cell_index(c: Coords) -> int {
    c.x * (BOARD_HEIGHT as int) + c.y
}

pub proof fn lemma_cell_index_bounds(c: Coords)
    requires
        in_bounds(c),
    ensures
        0 <= cell_index(c) < BOARD_WIDTH * BOARD_HEIGHT,
{
}

pub proof fn lemma_cell_index_injective(a: Coords, b: Coords)
    requires
        in_bounds(a),
        in_bounds(b),
        cell_index(a) == cell_index(b),
    ensures
        a == b,
{
}

/// Occupancy invariant, boundary half: whatever the map holds, every
/// out-of-bounds coordinate reports occupied. (The other half — an
/// in-bounds coordinate maps to at most one occupant — is structural:
/// each coordinate owns exactly one storage slot, see
/// [`lemma_coords_of_index`].)
pub proof fn lemma_boundary_occupied(m: BlockMap, c: Coords)
    requires
        !in_bounds(c),
    ensures
        m.occupied_spec(c),
{
}

/// Each storage slot is the cell of exactly one in-bounds coordinate.
pub proof fn lemma_coords_of_index(i: int)
    requires
        0 <= i < BOARD_WIDTH * BOARD_HEIGHT,
    ensures
        in_bounds(
            Coords {
                x: (i / (BOARD_HEIGHT as int)) as i32,
                y: (i % (BOARD_HEIGHT as int)) as i32,
            },
        ),
        cell_index(
            Coords {
                x: (i / (BOARD_HEIGHT as int)) as i32,
                y: (i % (BOARD_HEIGHT as int)) as i32,
            },
        ) == i,
{
    lemma_fundamental_div_mod(i, BOARD_HEIGHT as int);
    lemma_mod_division_less_than_divisor(i, BOARD_HEIGHT as int);
}

impl BlockMap {
    /// The storage has one slot per in-bounds coordinate.
    pub open spec fn dims_ok(self) -> bool {
        self.cells@.len() == BOARD_WIDTH * BOARD_HEIGHT
    }

    /// The stored occupant of a coordinate, `None` for an empty in-bounds
    /// cell and for every out-of-bounds coordinate.
    pub open spec fn at(self, c: Coords) -> Option<Occupant> {
        if in_bounds(c) {
            self.cells@[cell_index(c)]
        } else {
            None
        }
    }

    /// A coordinate counts as occupied when it is outside the board
    /// (solid boundary) or holds an occupant.
    pub open spec fn occupied_spec(self, c: Coords) -> bool {
        !in_bounds(c) || self.at(c) is Some
    }

    /// A coordinate is free when it is an empty in-bounds cell.
    pub open spec fn free_spec(self, c: Coords) -> bool {
        !self.occupied_spec(c)
    }

    /// Every stored number is clamped to the display range.
    pub open spec fn numbers_clamped(self) -> bool {
        forall|c: Coords|
            (#[trigger] self.at(c)) matches Some(o) ==> number_in_range(o.number as int)
    }

    /// No block identity appears at two coordinates.
    pub open spec fn entities_unique(self) -> bool {
        forall|c1: Coords, c2: Coords|
            c1 != c2 && (#[trigger] self.at(c1)) is Some && (#[trigger] self.at(c2)) is Some
                ==> self.at(c1)->0.entity != self.at(c2)->0.entity
    }

    /// Well-formedness: right shape, clamped numbers, unique identities.
    pub open spec fn wf(self) -> bool {
        self.dims_ok() && self.numbers_clamped() && self.entities_unique()
    }

    /// Some coordinate holds a block with this identity.
    pub open spec fn contains_entity(self, e: u64) -> bool {
        exists|c: Coords| (#[trigger] self.at(c)) matches Some(o) && o.entity == e
    }

    /// Returns a new, empty `BlockMap`.
    pub fn new_empty() -> (m: BlockMap)
        ensures
            m.wf(),
            forall|c: Coords| (#[trigger] m.at(c)) is None,
    {
        let mut cells: Vec<Option<Occupant>> = Vec::new();
        let n: usize = (BOARD_WIDTH * BOARD_HEIGHT) as usize;
        for i in 0..n
            invariant
                cells@.len() == i,
                forall|j: int| 0 <= j < i ==> (#[trigger] cells@[j]) is None,
        {
            cells.push(None);
        }
        BlockMap { cells }
    }

    /// Returns `true` when the position is an empty in-bounds cell: the
    /// cell a block may move into. Out-of-bounds positions report `false`
    /// (the boundary is solid).
    pub fn is_none(&self, pos: &Coords) -> (r: bool)
        requires
            self.wf(),
        ensures
            r == self.free_spec(*pos),
    {
        if coord_in_bounds(pos) {
            let i: usize = (pos.x * BOARD_HEIGHT + pos.y) as usize;
            self.cells[i].is_none()
        } else {
            false
        }
    }

    /// Returns `true` when the position is held by a block or lies outside
    /// the board. Negation of [`Self::is_none`].
    pub fn occupied(&self, pos: &Coords) -> (r: bool)
        requires
            self.wf(),
        ensures
            r == self.occupied_spec(*pos),
    {
        !self.is_none(pos)
    }

    /// Returns the occupant stored at the position, if any. Never
    /// fabricates an occupant for an out-of-bounds coordinate.
    pub fn get_block(&self, pos: &Coords) -> (r: Option<Occupant>)
        requires
            self.wf(),
        ensures
            r == self.at(*pos),
    {
        if coord_in_bounds(pos) {
            let i: usize = (pos.x * BOARD_HEIGHT + pos.y) as usize;
            self.cells[i]
        } else {
            None
        }
    }

    /// Stores `value` at the position: `Some` inserts or overwrites, `None`
    /// removes. A no-op on out-of-range coordinates, which are only ever
    /// boundary sentinels. An inserted occupant must carry a clamped number
    /// and an identity not stored elsewhere, keeping the map well-formed.
    /// Inserting at an occupied coordinate overwrites and never
    /// duplicates: a coordinate owns exactly one storage slot, so every
    /// in-bounds coordinate maps to at most one occupant in every
    /// reachable state.
    pub fn set_block(&mut self, pos: &Coords, value: Option<Occupant>)
        requires
            old(self).wf(),
            value matches Some(o) ==> number_in_range(o.number as int),
            value matches Some(o) ==> forall|c: Coords|
                c != *pos && (#[trigger] old(self).at(c)) is Some
                    ==> old(self).at(c)->0.entity != o.entity,
        ensures
            final(self).wf(),
            in_bounds(*pos) ==> final(self).at(*pos) == value,
            forall|c: Coords| c != *pos ==> (#[trigger] final(self).at(c)) == old(self).at(c),
            !in_bounds(*pos) ==> *final(self) == *old(self),
    {
        if coord_in_bounds(pos) {
            let i: usize = (pos.x * BOARD_HEIGHT + pos.y) as usize;
            self.cells.set(i, value);
            proof {
                assert forall|c: Coords| c != *pos implies (#[trigger] self.at(c))
                    == old(self).at(c) by {
                    if in_bounds(c) && cell_index(c) == cell_index(*pos) {
                        lemma_cell_index_injective(c, *pos);
                    }
                }
            }
        }
    }

    /// Finds the coordinate holding the block with this identity, if it
    /// is still on the board. Update instructions may target blocks that
    /// cleared earlier in the same batch; callers skip those silently.
    pub fn find_entity(&self, e: u64) -> (r: Option<Coords>)
        requires
            self.wf(),
        ensures
            r matches Some(c) ==> in_bounds(c) && (self.at(c) matches Some(o) && o.entity == e),
            r is None ==> !self.contains_entity(e),
    {
        let n: usize = (BOARD_WIDTH * BOARD_HEIGHT) as usize;
        let h: usize = BOARD_HEIGHT as usize;
        let mut i: usize = 0;
        while i < n
            invariant
                self.wf(),
                i <= n,
                n == BOARD_WIDTH * BOARD_HEIGHT,
                h == BOARD_HEIGHT,
                forall|j: int|
                    0 <= j < i ==> !((#[trigger] self.cells@[j]) matches Some(o) && o.entity
                        == e),
            decreases n - i,
        {
            match self.cells[i] {
                Some(o) => {
                    if o.entity == e {
                        proof {
                            lemma_coords_of_index(i as int);
                        }
                        let c = Coords::new((i / h) as i32, (i % h) as i32);
                        return Some(c);
                    }
                },
                None => {},
            }
            i += 1;
        }
        proof {
            assert forall|c: Coords|
                !((#[trigger] self.at(c)) matches Some(o) && o.entity == e) by {
                if in_bounds(c) {
                    lemma_cell_index_bounds(c);
                }
            }
        }
        None
    }

    /// Moves the occupant of `from` to `to`. Fails, reporting the conflict
    /// without mutating, when `from` holds nothing or `to` is occupied
    /// (boundary included); otherwise atomically clears `from` and fills
    /// `to`.
    pub fn move_block(&mut self, from: &Coords, to: &Coords) -> (ok: bool)
        requires
            old(self).wf(),
        ensures
            final(self).wf(),
            ok == (old(self).at(*from) is Some && old(self).free_spec(*to)),
            !ok ==> *final(self) == *old(self),
            ok ==> final(self).at(*to) == old(self).at(*from),
            ok ==> final(self).at(*from) is None,
            ok ==> forall|c: Coords|
                c != *from && c != *to ==> (#[trigger] final(self).at(c)) == old(self).at(c),
    {
        let taken = self.get_block(from);
        match taken {
            None => false,
            Some(o) => {
                if self.is_none(to) {
                    self.set_block(from, None);
                    self.set_block(to, Some(o));
                    true
                } else {
                    false
                }
            },
        }
    }
}

} // verus!
