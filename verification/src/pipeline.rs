//! The arithmetic & clear pipeline: applying one update instruction to
//! the board and the score.
//!
//! Score policy: a cleared block credits the absolute value of its
//! post-clamp (displayed) number, so the score never decreases.

use vstd::prelude::*;

use crate::arith::{apply_operation, clears, is_clear_value, update_result};
use crate::block::{number_in_range, Occupant, Operation};
use crate::board::{cell_index, lemma_cell_index_injective, lemma_coords_of_index, BlockMap};
use crate::coords::{Coords, BOARD_HEIGHT};

verus! {

/// Round score: a monotonically non-decreasing accumulator, reset at
/// round start.
pub struct Score(pub i32);

/// The absolute value of a number.
pub open spec fn abs_spec(v: int) -> int {
    if v < 0 {
        -v
    } else {
        v
    }
}

/// The score after crediting a cleared block whose post-clamp number was
/// `v`: the absolute displayed value is added, saturating at the top of
/// the counter.
pub open spec fn score_after(s: int, v: int) -> int {
    if s + abs_spec(v) > i32::MAX {
        i32::MAX as int
    } else {
        s + abs_spec(v)
    }
}

impl Score {
    pub fn new() -> (s: Score)
        ensures
            s.0 == 0,
    {
        Score(0)
    }

    /// Credits a cleared block: adds the absolute value of its post-clamp
    /// number. The score never decreases.
    pub fn add_clear_credit(&mut self, v: i32)
        requires
            0 <= old(self).0,
            number_in_range(v as int),
        ensures
            final(self).0 == score_after(old(self).0 as int, v as int),
            old(self).0 <= final(self).0,
    {
        let credit: i32 = if v < 0 {
            -v
        } else {
            v
        };
        if self.0 > i32::MAX - credit {
            self.0 = i32::MAX;
        } else {
            self.0 = self.0 + credit;
        }
    }
}

/// One arithmetic-update instruction: apply `operation` with operand
/// `number` to the block with identity `entity`.
pub struct PerformCalculationEvent {
    pub entity: u64,
    pub number: i32,
    pub operation: Operation,
}

/// What every producer of instructions guarantees: a clamped operand,
/// never zero for a division.
pub open spec fn instr_wf(ev: PerformCalculationEvent) -> bool {
    number_in_range(ev.number as int) && (ev.operation is DIVIDE ==> ev.number != 0)
}

/// One storage slot after an update instruction: the slot holding the
/// target takes the clamped result — or empties when that result is a
/// multiple of ten — and every other slot keeps its occupant.
pub open spec fn instr_cell(v: Option<Occupant>, ev: PerformCalculationEvent) -> Option<Occupant>
    recommends
        instr_wf(ev),
{
    match v {
        Some(o) => if o.entity == ev.entity {
            if clears(update_result(ev.operation, o.number as int, ev.number as int)) {
                None
            } else {
                Some(
                    Occupant {
                        entity: o.entity,
                        color: o.color,
                        number: update_result(ev.operation, o.number as int, ev.number as int)
                            as i32,
                    },
                )
            }
        } else {
            v
        },
        None => None,
    }
}

/// The whole storage after one instruction, slot by slot.
pub open spec fn apply_instr(
    cells: Seq<Option<Occupant>>,
    ev: PerformCalculationEvent,
) -> Seq<Option<Occupant>> {
    Seq::new(cells.len(), |i: int| instr_cell(cells[i], ev))
}

/// The instruction finds its target and the result clears it.
pub open spec fn instr_clears(cells: Seq<Option<Occupant>>, ev: PerformCalculationEvent) -> bool {
    exists|i: int|
        0 <= i < cells.len() && ((#[trigger] cells[i]) matches Some(o) && o.entity == ev.entity
            && clears(update_result(ev.operation, o.number as int, ev.number as int)))
}

/// The post-clamp result at the instruction's target slot.
pub open spec fn instr_credit(cells: Seq<Option<Occupant>>, ev: PerformCalculationEvent) -> int {
    let i = choose|i: int|
        0 <= i < cells.len() && ((#[trigger] cells[i]) matches Some(o) && o.entity == ev.entity);
    update_result(ev.operation, cells[i]->0.number as int, ev.number as int)
}

/// The score after one instruction: a clear credits its target's
/// absolute post-clamp value; anything else leaves the score alone.
pub open spec fn instr_score(
    cells: Seq<Option<Occupant>>,
    score: int,
    ev: PerformCalculationEvent,
) -> int {
    if instr_clears(cells, ev) {
        score_after(score, instr_credit(cells, ev))
    } else {
        score
    }
}

/// The cascade of a whole instruction batch, applied in order: the
/// final storage, the final score, and how many blocks cleared.
pub open spec fn cascade(
    cells: Seq<Option<Occupant>>,
    score: int,
    evs: Seq<PerformCalculationEvent>,
) -> (Seq<Option<Occupant>>, int, int)
    decreases evs.len(),
{
    if evs.len() == 0 {
        (cells, score, 0int)
    } else {
        let rest = cascade(
            apply_instr(cells, evs[0]),
            instr_score(cells, score, evs[0]),
            evs.drop_first(),
        );
        (
            rest.0,
            rest.1,
            rest.2 + if instr_clears(cells, evs[0]) {
                1int
            } else {
                0int
            },
        )
    }
}

/// Appending one instruction to a batch applies it after the batch.
pub proof fn lemma_cascade_snoc(
    cells: Seq<Option<Occupant>>,
    score: int,
    evs: Seq<PerformCalculationEvent>,
    ev: PerformCalculationEvent,
)
    ensures
        ({
            let f = cascade(cells, score, evs);
            cascade(cells, score, evs.push(ev)) == (
                apply_instr(f.0, ev),
                instr_score(f.0, f.1, ev),
                f.2 + if instr_clears(f.0, ev) {
                    1int
                } else {
                    0int
                },
            )
        }),
    decreases evs.len(),
{
    if evs.len() == 0 {
        reveal_with_fuel(cascade, 2);
        assert(evs.push(ev)[0] == ev);
        assert(evs.push(ev).drop_first() =~= Seq::<PerformCalculationEvent>::empty());
    } else {
        assert(evs.push(ev)[0] == evs[0]);
        assert(evs.push(ev).drop_first() =~= evs.drop_first().push(ev));
        lemma_cascade_snoc(
            apply_instr(cells, evs[0]),
            instr_score(cells, score, evs[0]),
            evs.drop_first(),
            ev,
        );
    }
}

/// Applies one update instruction, in the order the resolver emitted
/// them. A target no longer on the board (cleared earlier in the same
/// batch) is skipped silently. Otherwise the target's number becomes the
/// clamped result; a result that is a multiple of ten clears the block —
/// it leaves the board at once and credits the score — and any other
/// result is stored in place.
pub fn perform_calculation(map: &mut BlockMap, score: &mut Score, ev: &PerformCalculationEvent)
    -> (cleared: bool)
    requires
        old(map).wf(),
        instr_wf(*ev),
        0 <= old(score).0,
    ensures
        final(map).wf(),
        old(score).0 <= final(score).0,
        !old(map).contains_entity(ev.entity) ==> *final(map) == *old(map) && *final(score)
            == *old(score) && !cleared,
        forall|c: Coords|
            (#[trigger] old(map).at(c)) is Some && old(map).at(c)->0.entity == ev.entity ==> ({
                let o = old(map).at(c)->0;
                let v = update_result(ev.operation, o.number as int, ev.number as int);
                &&& cleared == clears(v)
                &&& clears(v) ==> final(map).at(c) is None && final(score).0 == score_after(
                    old(score).0 as int,
                    v,
                )
                &&& !clears(v) ==> final(map).at(c) == Some(
                    (Occupant { entity: o.entity, color: o.color, number: v as i32 }),
                ) && *final(score) == *old(score)
            }),
        forall|c: Coords|
            !((#[trigger] old(map).at(c)) is Some && old(map).at(c)->0.entity == ev.entity)
                ==> final(map).at(c) == old(map).at(c),
        final(map).cells@ == apply_instr(old(map).cells@, *ev),
        cleared == instr_clears(old(map).cells@, *ev),
        final(score).0 == instr_score(old(map).cells@, old(score).0 as int, *ev),
{
    let ghost m0 = *map;
    let ghost s0 = score.0 as int;
    match map.find_entity(ev.entity) {
        None => {
            proof {
                // no slot holds the target: the instruction is a no-op
                assert forall|i: int| 0 <= i < m0.cells@.len() implies apply_instr(
                    m0.cells@,
                    *ev,
                )[i] == m0.cells@[i] by {
                    lemma_coords_of_index(i);
                    let ci = Coords {
                        x: (i / (BOARD_HEIGHT as int)) as i32,
                        y: (i % (BOARD_HEIGHT as int)) as i32,
                    };
                    assert(m0.at(ci) == m0.cells@[i]);
                    assert(!(m0.at(ci) matches Some(o) && o.entity == ev.entity));
                }
                assert(apply_instr(m0.cells@, *ev) =~= m0.cells@);
                if instr_clears(m0.cells@, *ev) {
                    let i = choose|i: int|
                        0 <= i < m0.cells@.len() && ((#[trigger] m0.cells@[i]) matches Some(o)
                            && o.entity == ev.entity && clears(
                            update_result(ev.operation, o.number as int, ev.number as int),
                        ));
                    lemma_coords_of_index(i);
                    let ci = Coords {
                        x: (i / (BOARD_HEIGHT as int)) as i32,
                        y: (i % (BOARD_HEIGHT as int)) as i32,
                    };
                    assert(m0.at(ci) == m0.cells@[i]);
                    assert(m0.contains_entity(ev.entity));
                    assert(false);
                }
            }
            false
        },
        Some(c) => {
            let o = map.get_block(&c).unwrap();
            let v = apply_operation(ev.operation, o.number, ev.number);
            let ghost idx = cell_index(c);
            proof {
                assert forall|c2: Coords|
                    c2 != c && (#[trigger] map.at(c2)) is Some implies map.at(c2)->0.entity
                    != o.entity by {}
                // the target's slot is the only one with its identity
                assert(m0.cells@[idx] == m0.at(c));
                assert forall|i: int|
                    0 <= i < m0.cells@.len() && ((#[trigger] m0.cells@[i]) matches Some(o2)
                        && o2.entity == ev.entity) implies i == idx by {
                    lemma_coords_of_index(i);
                    let ci = Coords {
                        x: (i / (BOARD_HEIGHT as int)) as i32,
                        y: (i % (BOARD_HEIGHT as int)) as i32,
                    };
                    assert(m0.at(ci) == m0.cells@[i]);
                    if ci != c {
                        assert(m0.at(ci)->0.entity != m0.at(c)->0.entity);
                        assert(false);
                    }
                }
                // so the credit choice lands on exactly that slot
                let j = choose|i: int|
                    0 <= i < m0.cells@.len() && ((#[trigger] m0.cells@[i]) matches Some(o)
                        && o.entity == ev.entity);
                assert(j == idx);
                assert(instr_credit(m0.cells@, *ev) == v);
            }
            let did = if is_clear_value(v) {
                map.set_block(&c, None);
                score.add_clear_credit(v);
                true
            } else {
                map.set_block(&c, Some(Occupant { entity: o.entity, color: o.color, number: v }));
                false
            };
            proof {
                assert forall|i: int| 0 <= i < m0.cells@.len() implies map.cells@[i]
                    == apply_instr(m0.cells@, *ev)[i] by {
                    lemma_coords_of_index(i);
                    let ci = Coords {
                        x: (i / (BOARD_HEIGHT as int)) as i32,
                        y: (i % (BOARD_HEIGHT as int)) as i32,
                    };
                    assert(map.at(ci) == map.cells@[i]);
                    assert(m0.at(ci) == m0.cells@[i]);
                    if ci != c {
                        assert(map.at(ci) == m0.at(ci));
                        if m0.at(ci) is Some && m0.at(ci)->0.entity == ev.entity {
                            assert(i == idx);
                            lemma_cell_index_injective(ci, c);
                            assert(false);
                        }
                    }
                }
                assert(map.cells@ =~= apply_instr(m0.cells@, *ev));
                if did {
                    assert(instr_clears(m0.cells@, *ev)) by {
                        assert(0 <= idx < m0.cells@.len());
                        assert((#[trigger] m0.cells@[idx]) matches Some(o2) && o2.entity
                            == ev.entity && clears(
                            update_result(ev.operation, o2.number as int, ev.number as int),
                        ));
                    }
                } else {
                    if instr_clears(m0.cells@, *ev) {
                        let i = choose|i: int|
                            0 <= i < m0.cells@.len() && ((#[trigger] m0.cells@[i]) matches Some(
                                o,
                            ) && o.entity == ev.entity && clears(
                                update_result(ev.operation, o.number as int, ev.number as int),
                            ));
                        assert(i == idx);
                        assert(false);
                    }
                }
            }
            did
        },
    }
}

} // verus!
