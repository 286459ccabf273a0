//! Gravity compaction: blocks left floating above a cleared cell fall,
//! one cell per pass, until the grid is stable.
//!
//! A pass scans each column from the lowest row upward and moves a block
//! down exactly one cell when the cell directly beneath is free, so a
//! stack collapses gradually instead of teleporting. [`settle`] repeats
//! passes to the fixed point: afterwards no block has a free cell
//! directly beneath it.

use vstd::prelude::*;

use vstd::arithmetic::div_mod::{lemma_mod_multiples_vanish, lemma_small_mod};

use crate::block::Occupant;
use crate::board::{cell_index, lemma_cell_index_injective, lemma_coords_of_index, BlockMap};
use crate::coords::{above, below, in_bounds, Coords, BOARD_HEIGHT, BOARD_WIDTH};

verus! {

/// Some cell strictly beneath `c` in its column is free.
pub open spec fn gap_below(m: BlockMap, c: Coords) -> bool {
    exists|y2: int|
        0 <= y2 < c.y && (#[trigger] m.at(Coords { x: c.x, y: y2 as i32 })) is None
}

/// The block at `c` moves down in the next bottom-up pass: it sits above
/// at least one free cell of its column.
pub open spec fn falls(m: BlockMap, c: Coords) -> bool {
    in_bounds(c) && m.at(c) is Some && gap_below(m, c)
}

/// The occupant a cell holds after one bottom-up pass: a block with no
/// gap beneath it stays; a cell whose upstairs neighbor falls receives
/// that neighbor; every other cell is left empty.
pub open spec fn fall_cell(m: BlockMap, c: Coords) -> Option<Occupant> {
    if m.at(c) is Some && !gap_below(m, c) {
        m.at(c)
    } else if m.at(above(c)) is Some && gap_below(m, above(c)) {
        m.at(above(c))
    } else {
        None
    }
}

/// Some block moves in the next pass.
pub open spec fn pass_moves(m: BlockMap) -> bool {
    exists|c: Coords| #[trigger] falls(m, c)
}

/// The gravity fixed point: no block above the floor has a free cell
/// directly beneath it.
pub open spec fn settled(m: BlockMap) -> bool {
    forall|c: Coords|
        in_bounds(c) && (#[trigger] m.at(c)) is Some && c.y >= 1 ==> m.at(below(c)) is Some
}

/// Column `x` holds the occupant `o` somewhere.
pub open spec fn column_has(m: BlockMap, x: int, o: Occupant) -> bool {
    exists|c: Coords| c.x == x && (#[trigger] m.at(c)) == Some(o)
}

/// Occupant `o1` sits strictly below occupant `o2` in column `x`.
pub open spec fn column_below(m: BlockMap, x: int, o1: Occupant, o2: Occupant) -> bool {
    exists|c1: Coords, c2: Coords|
        c1.x == x && c2.x == x && c1.y < c2.y && (#[trigger] m.at(c1)) == Some(o1) && (
        #[trigger] m.at(c2)) == Some(o2)
}

/// Height contribution of one storage slot: the row of its occupant.
pub open spec fn slot_height(v: Option<Occupant>, i: int) -> nat {
    if v is Some {
        (i % (BOARD_HEIGHT as int)) as nat
    } else {
        0
    }
}

/// Total height of the stored occupants: the measure a pass lowers.
pub open spec fn pot_seq(s: Seq<Option<Occupant>>) -> nat
    decreases s.len(),
{
    if s.len() == 0 {
        0
    } else {
        pot_seq(s.drop_last()) + slot_height(s.last(), s.len() - 1)
    }
}

/// Total height of all blocks on the board.
pub open spec fn grid_pot(m: BlockMap) -> nat {
    pot_seq(m.cells@)
}

proof fn lemma_pot_seq_update(s: Seq<Option<Occupant>>, j: int, v: Option<Occupant>)
    requires
        0 <= j < s.len(),
    ensures
        pot_seq(s.update(j, v)) == pot_seq(s) + slot_height(v, j) - slot_height(s[j], j),
    decreases s.len(),
{
    let t = s.update(j, v);
    if j == s.len() - 1 {
        assert(t.drop_last() =~= s.drop_last());
    } else {
        assert(t.drop_last() =~= s.drop_last().update(j, v));
        lemma_pot_seq_update(s.drop_last(), j, v);
        assert(t.last() == s.last());
    }
}

/// The row of a cell is its slot's height contribution when occupied.
proof fn lemma_slot_height_of_cell(c: Coords)
    requires
        in_bounds(c),
    ensures
        cell_index(c) % (BOARD_HEIGHT as int) == c.y,
{
    lemma_mod_multiples_vanish(c.x as int, c.y as int, BOARD_HEIGHT as int);
    lemma_small_mod(c.y as nat, BOARD_HEIGHT as nat);
}

/// One pass moves blocks only straight down within their column, so every
/// column keeps exactly the occupants it had.
proof fn lemma_fall_pass_preserves(m1: BlockMap, m2: BlockMap)
    requires
        forall|c: Coords| in_bounds(c) ==> (#[trigger] m2.at(c)) == fall_cell(m1, c),
    ensures
        forall|x: int, o: Occupant|
            #[trigger] column_has(m2, x, o) <==> #[trigger] column_has(m1, x, o),
{
    assert forall|x: int, o: Occupant|
        #[trigger] column_has(m2, x, o) <==> #[trigger] column_has(m1, x, o) by {
        if column_has(m2, x, o) {
            let c = choose|c: Coords| c.x == x && (#[trigger] m2.at(c)) == Some(o);
            assert(in_bounds(c));
            if m1.at(c) is Some && !gap_below(m1, c) {
                assert((#[trigger] m1.at(c)) == Some(o));
            } else {
                assert((#[trigger] m1.at(above(c))) == Some(o));
                assert(above(c).x == x);
            }
            assert(column_has(m1, x, o));
        }
        if column_has(m1, x, o) {
            let c = choose|c: Coords| c.x == x && (#[trigger] m1.at(c)) == Some(o);
            assert(in_bounds(c));
            if !gap_below(m1, c) {
                assert((#[trigger] m2.at(c)) == Some(o));
            } else {
                let y2 = choose|y2: int|
                    0 <= y2 < c.y && (#[trigger] m1.at(Coords { x: c.x, y: y2 as i32 })) is None;
                assert(c.y >= 1);
                let b = below(c);
                assert(in_bounds(b));
                assert(above(b) == c);
                // the cell beneath cannot keep a resting block: the gap
                // under c would be a gap under it as well
                if m1.at(b) is Some && !gap_below(m1, b) {
                    assert(m1.at(Coords { x: b.x, y: y2 as i32 }) is Some);
                    assert(false);
                }
                assert((#[trigger] m2.at(b)) == Some(o));
            }
            assert(column_has(m2, x, o));
        }
    }
}

/// One pass never reorders a column: blocks fall straight down by at
/// most one cell and never cross each other.
proof fn lemma_fall_pass_keeps_order(m1: BlockMap, m2: BlockMap)
    requires
        forall|c: Coords| in_bounds(c) ==> (#[trigger] m2.at(c)) == fall_cell(m1, c),
    ensures
        forall|x: int, o1: Occupant, o2: Occupant|
            #[trigger] column_below(m2, x, o1, o2) <==> #[trigger] column_below(m1, x, o1, o2),
{
    assert forall|x: int, o1: Occupant, o2: Occupant|
        #[trigger] column_below(m2, x, o1, o2) <==> #[trigger] column_below(m1, x, o1, o2) by {
        if column_below(m1, x, o1, o2) {
            let (c1, c2) = choose|c1: Coords, c2: Coords|
                c1.x == x && c2.x == x && c1.y < c2.y && (#[trigger] m1.at(c1)) == Some(o1) && (
                #[trigger] m1.at(c2)) == Some(o2);
            assert(in_bounds(c1) && in_bounds(c2));
            // where each of the two lands after the pass
            let d1 = if gap_below(m1, c1) {
                below(c1)
            } else {
                c1
            };
            let d2 = if gap_below(m1, c2) {
                below(c2)
            } else {
                c2
            };
            if gap_below(m1, c1) {
                let y1 = choose|y1: int|
                    0 <= y1 < c1.y && (#[trigger] m1.at(Coords { x: c1.x, y: y1 as i32 }))
                        is None;
                assert(above(d1) == c1);
                if m1.at(d1) is Some && !gap_below(m1, d1) {
                    assert(m1.at(Coords { x: d1.x, y: y1 as i32 }) is Some);
                    assert(false);
                }
                assert(m2.at(d1) == Some(o1));
            } else {
                assert(m2.at(d1) == Some(o1));
            }
            if gap_below(m1, c2) {
                let y2 = choose|y2: int|
                    0 <= y2 < c2.y && (#[trigger] m1.at(Coords { x: c2.x, y: y2 as i32 }))
                        is None;
                assert(above(d2) == c2);
                if m1.at(d2) is Some && !gap_below(m1, d2) {
                    assert(m1.at(Coords { x: d2.x, y: y2 as i32 }) is Some);
                    assert(false);
                }
                assert(m2.at(d2) == Some(o2));
            } else {
                assert(m2.at(d2) == Some(o2));
            }
            // the one below cannot be overtaken: if the upper one falls
            // onto it, the gap beneath the upper one would also lie
            // beneath the lower one
            if !gap_below(m1, c1) && gap_below(m1, c2) && c2.y == c1.y + 1 {
                let yf = choose|yf: int|
                    0 <= yf < c2.y && (#[trigger] m1.at(Coords { x: c2.x, y: yf as i32 }))
                        is None;
                if yf == c1.y {
                    assert(false);
                } else {
                    assert(m1.at(Coords { x: c1.x, y: yf as i32 }) is None);
                    assert(false);
                }
            }
            assert(d1.y < d2.y);
            assert(column_below(m2, x, o1, o2));
        }
        if column_below(m2, x, o1, o2) {
            let (c1, c2) = choose|c1: Coords, c2: Coords|
                c1.x == x && c2.x == x && c1.y < c2.y && (#[trigger] m2.at(c1)) == Some(o1) && (
                #[trigger] m2.at(c2)) == Some(o2);
            assert(in_bounds(c1) && in_bounds(c2));
            // where each of the two came from: its own cell, or the one
            // above it
            let s1 = if m1.at(c1) is Some && !gap_below(m1, c1) {
                c1
            } else {
                above(c1)
            };
            let s2 = if m1.at(c2) is Some && !gap_below(m1, c2) {
                c2
            } else {
                above(c2)
            };
            assert(m1.at(s1) == Some(o1));
            assert(m1.at(s2) == Some(o2));
            // the sources stay ordered: meeting in one cell would make
            // that cell both falling and resting
            if s1.y == s2.y {
                assert(s1 == s2);
                assert(s1 == above(c1) && s2 == c2);
                assert(gap_below(m1, above(c1)));
                assert(!gap_below(m1, c2));
                assert(false);
            }
            assert(s1.y < s2.y);
            assert(column_below(m1, x, o1, o2));
        }
    }
}

/// One full bottom-up gravity pass. Scans every column from the lowest
/// row upward and drops each block sitting above a free cell by exactly
/// one cell. Returns whether anything moved.
pub fn drop_floating_blocks(map: &mut BlockMap) -> (moved: bool)
    requires
        old(map).wf(),
    ensures
        final(map).wf(),
        forall|c: Coords|
            in_bounds(c) ==> (#[trigger] final(map).at(c)) == fall_cell(*old(map), c),
        moved == pass_moves(*old(map)),
        grid_pot(*final(map)) + (if moved {
            1int
        } else {
            0int
        }) <= grid_pot(*old(map)),
{
    let mut moved = false;
    let w: usize = BOARD_WIDTH as usize;
    let h: usize = BOARD_HEIGHT as usize;
    for x in 0..w
        invariant
            map.wf(),
            w == BOARD_WIDTH,
            h == BOARD_HEIGHT,
            forall|c: Coords|
                in_bounds(c) && c.x < x ==> (#[trigger] map.at(c)) == fall_cell(*old(map), c),
            forall|c: Coords|
                in_bounds(c) && c.x >= x ==> (#[trigger] map.at(c)) == old(map).at(c),
            moved == exists|c: Coords| #[trigger] falls(*old(map), c) && c.x < x,
            grid_pot(*map) + (if moved {
                1int
            } else {
                0int
            }) <= grid_pot(*old(map)),
    {
        for y in 1..h
            invariant
                map.wf(),
                w == BOARD_WIDTH,
                h == BOARD_HEIGHT,
                x < w,
                1 <= y <= BOARD_HEIGHT,
                forall|c: Coords|
                    in_bounds(c) && c.x < x ==> (#[trigger] map.at(c)) == fall_cell(
                        *old(map),
                        c,
                    ),
                forall|c: Coords|
                    in_bounds(c) && c.x == x && c.y < y - 1 ==> (#[trigger] map.at(c))
                        == fall_cell(*old(map), c),
                map.at(Coords { x: x as i32, y: (y - 1) as i32 }) == (if falls(
                    *old(map),
                    Coords { x: x as i32, y: (y - 1) as i32 },
                ) {
                    None
                } else {
                    old(map).at(Coords { x: x as i32, y: (y - 1) as i32 })
                }),
                forall|c: Coords|
                    in_bounds(c) && (c.x > x || (c.x == x && c.y >= y)) ==> (#[trigger] map.at(
                        c,
                    )) == old(map).at(c),
                moved == exists|c: Coords|
                    #[trigger] falls(*old(map), c) && (c.x < x || (c.x == x && c.y < y)),
                grid_pot(*map) + (if moved {
                    1int
                } else {
                    0int
                }) <= grid_pot(*old(map)),
        {
            let here = Coords::new(x as i32, y as i32);
            let belowc = Coords::new(x as i32, y as i32 - 1);
            proof {
                assert(in_bounds(here));
                assert(in_bounds(belowc));
                assert(belowc == below(here));
            }
            let blk = map.get_block(&here);
            let below_free = map.is_none(&belowc);
            if blk.is_some() && below_free {
                proof {
                    // a block over a free cell is exactly a falling block
                    assert(old(map).at(here) is Some);
                    if falls(*old(map), belowc) {
                        let y2 = choose|y2: int|
                            0 <= y2 < belowc.y && (#[trigger] old(map).at(
                                Coords { x: belowc.x, y: y2 as i32 },
                            )) is None;
                        assert(old(map).at(Coords { x: here.x, y: y2 as i32 }) is None);
                    } else {
                        assert(old(map).at(belowc) is None);
                        assert(old(map).at(Coords { x: here.x, y: (y - 1) as i32 }) is None);
                    }
                    assert(gap_below(*old(map), here));
                    assert(falls(*old(map), here));
                }
                let ghost prev = *map;
                let ghost movedp = moved;
                let ok = map.move_block(&here, &belowc);
                moved = true;
                proof {
                    assert(ok);
                    // the move, written as two storage updates
                    let ih = cell_index(here);
                    let ib = cell_index(belowc);
                    let target = prev.cells@.update(ih, None).update(ib, prev.at(here));
                    assert(prev.cells@.len() == BOARD_WIDTH * BOARD_HEIGHT);
                    assert(map.cells@.len() == BOARD_WIDTH * BOARD_HEIGHT);
                    assert forall|i: int| 0 <= i < prev.cells@.len() implies map.cells@[i]
                        == target[i] by {
                        lemma_coords_of_index(i);
                        let ci = Coords {
                            x: (i / (BOARD_HEIGHT as int)) as i32,
                            y: (i % (BOARD_HEIGHT as int)) as i32,
                        };
                        if ci == here {
                            assert(i == ih);
                            assert(map.at(ci) == map.cells@[i]);
                        } else if ci == belowc {
                            assert(i == ib);
                            assert(map.at(ci) == map.cells@[i]);
                        } else {
                            if i == ih {
                                lemma_cell_index_injective(ci, here);
                            }
                            if i == ib {
                                lemma_cell_index_injective(ci, belowc);
                            }
                            assert(map.at(ci) == prev.at(ci));
                            assert(map.cells@[i] == prev.cells@[i]);
                        }
                    }
                    assert(map.cells@ =~= target);
                    lemma_pot_seq_update(prev.cells@, ih, None);
                    lemma_pot_seq_update(prev.cells@.update(ih, None), ib, prev.at(here));
                    lemma_slot_height_of_cell(here);
                    lemma_slot_height_of_cell(belowc);
                    assert(prev.cells@[ih] == prev.at(here));
                    assert(prev.cells@.update(ih, None)[ib] == prev.at(belowc));
                    assert(slot_height(prev.at(here), ih) == y);
                    assert(slot_height(prev.at(here), ib) == y - 1);
                    assert(grid_pot(*map) == grid_pot(prev) - 1);
                    // the falling block is recorded in the moved flag
                    assert(falls(*old(map), here) && (here.x < x || (here.x == x && here.y < y
                        + 1)));
                    // the cell beneath now holds what the closed form says
                    assert(fall_cell(*old(map), belowc) == old(map).at(here)) by {
                        if old(map).at(belowc) is Some && !gap_below(*old(map), belowc) {
                            assert(prev.at(belowc) == old(map).at(belowc));
                            assert(false);
                        }
                        assert(above(belowc) == here);
                    }
                }
            } else {
                proof {
                    // nothing to move here: this is exactly a non-falling cell
                    assert(map.at(here) == old(map).at(here));
                    if falls(*old(map), here) {
                        assert(old(map).at(here) is Some);
                        let y2 = choose|y2: int|
                            0 <= y2 < here.y && (#[trigger] old(map).at(
                                Coords { x: here.x, y: y2 as i32 },
                            )) is None;
                        if map.at(belowc) is Some {
                            // the cell beneath kept a block, so nothing
                            // under it is free, contradicting the gap
                            assert(!falls(*old(map), belowc));
                            assert(old(map).at(belowc) is Some);
                            if y2 == y - 1 {
                                assert(false);
                            } else {
                                assert(old(map).at(Coords { x: belowc.x, y: y2 as i32 })
                                    is None);
                                assert(gap_below(*old(map), belowc));
                                assert(false);
                            }
                        }
                        assert(false);
                    }
                    // the previously handled cell is final: its upstairs
                    // neighbor stayed put
                    assert(fall_cell(*old(map), belowc) == map.at(belowc)) by {
                        if falls(*old(map), belowc) {
                            if old(map).at(here) is Some {
                                let y2 = choose|y2: int|
                                    0 <= y2 < belowc.y && (#[trigger] old(map).at(
                                        Coords { x: belowc.x, y: y2 as i32 },
                                    )) is None;
                                assert(old(map).at(Coords { x: here.x, y: y2 as i32 }) is None);
                                assert(gap_below(*old(map), here));
                                assert(false);
                            }
                            assert(above(belowc) == here);
                        } else {
                            if old(map).at(belowc) is None {
                                if old(map).at(here) is Some {
                                    assert(old(map).at(
                                        Coords { x: here.x, y: (y - 1) as i32 },
                                    ) is None);
                                    assert(gap_below(*old(map), here));
                                    assert(false);
                                }
                                assert(above(belowc) == here);
                            }
                        }
                    }
                }
            }
            proof {
                // moved still mirrors the falling blocks handled so far
                let ghost herec = Coords { x: x as i32, y: y as i32 };
                if moved {
                    assert(exists|c: Coords|
                        #[trigger] falls(*old(map), c) && (c.x < x || (c.x == x && c.y < y
                            + 1)));
                } else {
                    assert forall|c: Coords|
                        #[trigger] falls(*old(map), c) implies !(c.x < x || (c.x == x && c.y < y
                        + 1)) by {
                        if c.x < x || (c.x == x && c.y < y) {
                            assert(false);
                        } else if c.x == x && c.y == y {
                            assert(c == herec);
                            assert(false);
                        }
                    }
                }
            }
        }
        proof {
            // the column's top cell is final too: nothing sits above it
            let top = Coords { x: x as i32, y: (BOARD_HEIGHT - 1) as i32 };
            assert(map.at(top) == fall_cell(*old(map), top)) by {
                assert(!in_bounds(above(top)));
                assert(old(map).at(above(top)) is None);
            }
            assert forall|c: Coords|
                in_bounds(c) && c.x < x + 1 implies (#[trigger] map.at(c)) == fall_cell(
                *old(map),
                c,
            ) by {
                if c.x == x && c.y == BOARD_HEIGHT - 1 {
                    assert(c == top);
                }
            }
            if moved {
                let c = choose|c: Coords|
                    #[trigger] falls(*old(map), c) && (c.x < x || (c.x == x && c.y
                        < BOARD_HEIGHT));
                assert(falls(*old(map), c) && c.x < x + 1);
            } else {
                assert forall|c: Coords| #[trigger] falls(*old(map), c) implies !(c.x < x
                    + 1) by {
                    assert(in_bounds(c));
                    assert(!(c.x < x || (c.x == x && c.y < BOARD_HEIGHT)));
                }
            }
        }
    }
    proof {
        if moved {
            let c = choose|c: Coords| #[trigger] falls(*old(map), c) && c.x < BOARD_WIDTH;
            assert(pass_moves(*old(map)));
        } else {
            assert forall|c: Coords| !#[trigger] falls(*old(map), c) by {
                if falls(*old(map), c) {
                    assert(in_bounds(c));
                    assert(falls(*old(map), c) && c.x < BOARD_WIDTH);
                    assert(false);
                }
            }
        }
    }
    moved
}

/// Runs gravity passes until the grid is stable: afterwards no block has
/// a free cell directly beneath it, and every column holds exactly the
/// blocks it held before, settled lower.
pub fn settle(map: &mut BlockMap)
    requires
        old(map).wf(),
    ensures
        final(map).wf(),
        settled(*final(map)),
        forall|x: int, o: Occupant|
            #[trigger] column_has(*final(map), x, o) <==> #[trigger] column_has(*old(map), x, o),
        forall|x: int, o1: Occupant, o2: Occupant|
            #[trigger] column_below(*final(map), x, o1, o2) <==> #[trigger] column_below(
                *old(map),
                x,
                o1,
                o2,
            ),
{
    let mut moving = true;
    while moving
        invariant
            map.wf(),
            forall|x: int, o: Occupant|
                #[trigger] column_has(*map, x, o) <==> #[trigger] column_has(*old(map), x, o),
            forall|x: int, o1: Occupant, o2: Occupant|
                #[trigger] column_below(*map, x, o1, o2) <==> #[trigger] column_below(
                    *old(map),
                    x,
                    o1,
                    o2,
                ),
            !moving ==> settled(*map),
        decreases grid_pot(*map) + (if moving {
            1int
        } else {
            0int
        }),
    {
        let ghost pre = *map;
        moving = drop_floating_blocks(map);
        proof {
            lemma_fall_pass_preserves(pre, *map);
            lemma_fall_pass_keeps_order(pre, *map);
            assert forall|x: int, o: Occupant| #[trigger] column_has(*map, x, o) <==> #[trigger]
                column_has(*old(map), x, o) by {
                assert(column_has(*map, x, o) <==> column_has(pre, x, o));
                assert(column_has(pre, x, o) <==> column_has(*old(map), x, o));
            }
            assert forall|x: int, o1: Occupant, o2: Occupant|
                #[trigger] column_below(*map, x, o1, o2) <==> #[trigger] column_below(
                *old(map),
                x,
                o1,
                o2,
            ) by {
                assert(column_below(*map, x, o1, o2) <==> column_below(pre, x, o1, o2));
                assert(column_below(pre, x, o1, o2) <==> column_below(*old(map), x, o1, o2));
            }
            if !moving {
                // no block fell: the pass was the identity and the grid
                // is at the fixed point
                assert forall|c: Coords|
                    in_bounds(c) && (#[trigger] map.at(c)) is Some && c.y >= 1 implies map.at(
                    below(c),
                ) is Some by {
                    assert(map.at(c) == fall_cell(pre, c));
                    if pre.at(above(c)) is Some && gap_below(pre, above(c)) {
                        assert(falls(pre, above(c)));
                        assert(false);
                    }
                    assert(pre.at(c) is Some && !gap_below(pre, c));
                    assert(pre.at(Coords { x: c.x, y: (c.y - 1) as i32 }) is Some);
                    assert(pre.at(below(c)) is Some);
                    assert(!gap_below(pre, below(c)));
                    assert(map.at(below(c)) == fall_cell(pre, below(c)));
                }
            }
        }
    }
}

} // verus!
