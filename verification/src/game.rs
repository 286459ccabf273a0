//! The simulation state and the per-tick step: the single owner of the
//! grid, the score, the falling piece and all timers.
//!
//! One discrete step runs, in this fixed order: intent reassignment →
//! lateral movement → gravity-driven drop or lock → propagation →
//! arithmetic/clear pipeline → gravity compaction → spawn gate. Nothing
//! outside the step mutates this state; collaborators hand in a
//! [`TickInput`] and read the fields back.

use vstd::prelude::*;

use crate::block::{BlockColor, Occupant, Operation};
use crate::board::{cell_index, lemma_cell_index_injective, lemma_coords_of_index, BlockMap};
use crate::coords::{below, in_bounds, left_of, right_of, Coords, BOARD_HEIGHT, BOARD_WIDTH, SPAWN_X, SPAWN_Y};
use crate::gravity::{column_below, column_has, settle, settled};
use crate::piece::DroppingBlock;
use crate::pipeline::{
    cascade, lemma_cascade_snoc, perform_calculation, PerformCalculationEvent, Score,
};
use crate::propagate::{find_same_color_neighbors, lemma_reaches_is_colored, reaches, region_entry};

verus! {

/// Milliseconds between gravity drops at round start.
pub const INITIAL_DROP_INTERVAL_MS: u32 = 1000;

/// The floor under the gravity speed-up: the interval never shrinks
/// past this.
pub const MIN_DROP_INTERVAL_MS: u32 = 50;

/// A held direction key repeats its move at most once per this interval;
/// a fresh key press always moves immediately.
pub const MOVE_THROTTLE_MS: u32 = 300;

/// Holding soft drop forces a drop once this much of the gravity timer
/// has elapsed.
pub const SOFT_DROP_MS: u32 = 20;

/// The last-locked record: the identity and operation of the most
/// recently locked block. Captured at lock, consumed by the resolver in
/// the same step — the propagation applies the locked block's own
/// operation to it exactly once, then clears the record — so at most one
/// record is ever outstanding.
#[derive(Clone, Copy, Debug)]
pub struct LastDroppedBlock {
    pub entity: Option<u64>,
    pub operation: Option<Operation>,
}

/// Edge-versus-held state of a direction key this tick.
#[derive(Clone, Copy, PartialEq, Eq, Structural, Debug)]
pub enum KeyIntent {
    Idle,
    JustPressed,
    Held,
}

/// Everything the outside hands the engine for one tick: the elapsed
/// time and the logical intents the input device yielded.
#[derive(Clone, Copy, Debug)]
pub struct TickInput {
    pub dt_ms: u32,
    pub left: KeyIntent,
    pub right: KeyIntent,
    pub soft_drop: bool,
    pub set_color: Option<BlockColor>,
    pub set_operation: Option<Operation>,
}

/// Discrete cues one step produced, for audio and scene collaborators.
#[derive(Clone, Copy, Debug)]
pub struct StepEvents {
    pub locked: bool,
    pub cleared: usize,
    pub game_over: bool,
}

/// The whole simulation state of one round.
pub struct Game {
    pub board: BlockMap,
    pub dropping: Option<DroppingBlock>,
    pub score: Score,
    pub last_dropped: LastDroppedBlock,
    pub next_entity: u64,
    pub drop_interval_ms: u32,
    pub drop_elapsed_ms: u32,
    pub move_elapsed_ms: u32,
    pub game_over: bool,
}

/// The cell where every fresh piece appears.
pub open spec fn spawn_cell() -> Coords {
    Coords { x: SPAWN_X, y: SPAWN_Y }
}

/// A timer advanced by `b` milliseconds, held at the top of its counter.
pub open spec fn ms_after(a: int, b: int) -> int {
    if a + b > u32::MAX {
        u32::MAX as int
    } else {
        a + b
    }
}

fn add_ms(a: u32, b: u32) -> (r: u32)
    ensures
        r == ms_after(a as int, b as int),
{
    if a > u32::MAX - b {
        u32::MAX
    } else {
        a + b
    }
}

/// The gravity interval after a lock: one hundredth faster, held at the
/// configured floor.
pub open spec fn speedup(interval: int) -> int {
    if interval * 99 / 100 < MIN_DROP_INTERVAL_MS {
        MIN_DROP_INTERVAL_MS as int
    } else {
        interval * 99 / 100
    }
}

/// What one lock resolution does, witnessed piece by piece: `mid` is the
/// grid right after the landing occupant — the piece's identity, color
/// and number, written at its coordinate — and `evs` are the emitted
/// update instructions: one per member of the landing's same-color
/// region (each exactly once, none the locked block itself), all
/// carrying the locked value and operation, and one final instruction
/// for the last-locked record, applying the locked block's own operation
/// exactly once. The final grid, score and clear count are the
/// pipeline's fold of `evs` over `mid` (`after` names the pre-compaction
/// result), settled by gravity when anything cleared.
pub open spec fn lock_cascade_ok(
    pre_cells: Seq<Option<Occupant>>,
    pre_score: int,
    post_board: BlockMap,
    post_score: int,
    cleared: int,
    p: DroppingBlock,
    entity: u64,
    mid: BlockMap,
    after: BlockMap,
    evs: Seq<PerformCalculationEvent>,
) -> bool {
    let ids = Seq::new((evs.len() - 1) as nat, |i: int| evs[i].entity);
    let folded = cascade(mid.cells@, pre_score, evs);
    &&& mid.wf()
    &&& mid.cells@ == pre_cells.update(
        cell_index(p.position),
        Some((Occupant { entity, color: p.color, number: p.number })),
    )
    &&& evs.len() >= 1
    &&& evs.last() == (PerformCalculationEvent {
        entity,
        number: p.number,
        operation: p.operation,
    })
    &&& forall|i: int|
        0 <= i < evs.len() ==> (#[trigger] evs[i]).number == p.number && evs[i].operation
            == p.operation
    &&& ids.no_duplicates()
    &&& forall|i: int| 0 <= i < ids.len() ==> region_entry(mid, p.position, p.color, #[trigger] ids[i])
    &&& forall|c: Coords|
        #[trigger] reaches(mid, p.position, p.color, c) ==> ids.contains(mid.at(c)->0.entity)
    &&& forall|i: int| 0 <= i < ids.len() ==> #[trigger] ids[i] != entity
    &&& after.wf()
    &&& after.cells@ == folded.0
    &&& post_score == folded.1
    &&& cleared == folded.2
    &&& cleared == 0 ==> post_board == after
    &&& cleared > 0 ==> settled(post_board) && (forall|x: int, o: Occupant|
        #[trigger] column_has(post_board, x, o) <==> #[trigger] column_has(after, x, o)) && (
    forall|x: int, o1: Occupant, o2: Occupant|
        #[trigger] column_below(post_board, x, o1, o2) <==> #[trigger] column_below(
            after,
            x,
            o1,
            o2,
        ))
}

/// The falling piece after this tick's reassignment intents: a direct
/// color set (a NONE intent is ignored) and a direct operation set with
/// the divide-by-zero substitution.
pub open spec fn reassigned_piece(p: DroppingBlock, input: TickInput) -> DroppingBlock {
    let p1 = match input.set_color {
        Some(color) => if color != BlockColor::NONE {
            DroppingBlock { color, ..p }
        } else {
            p
        },
        None => p,
    };
    match input.set_operation {
        Some(op) => DroppingBlock {
            operation: if op is DIVIDE && p1.number == 0 {
                Operation::MULTIPLY
            } else {
                op
            },
            ..p1
        },
        None => p1,
    }
}

/// A direction intent moves the piece this tick: a fresh press always,
/// a held key only once the throttle interval has passed.
pub open spec fn lateral_fires(intent: KeyIntent, elapsed: int) -> bool {
    intent is JustPressed || (intent is Held && elapsed > MOVE_THROTTLE_MS)
}

/// Some direction intent fired, which resets the throttle even when the
/// move itself was blocked.
pub open spec fn lateral_resets(input: TickInput, elapsed: int) -> bool {
    lateral_fires(input.left, elapsed) || lateral_fires(input.right, elapsed)
}

/// The piece after the lateral phase: left wins over right, and a move
/// into an occupied or boundary cell is silently ignored.
pub open spec fn lateral_result(
    board: BlockMap,
    p: DroppingBlock,
    input: TickInput,
    elapsed: int,
) -> DroppingBlock {
    if lateral_fires(input.left, elapsed) {
        if board.free_spec(left_of(p.position)) {
            DroppingBlock { position: left_of(p.position), ..p }
        } else {
            p
        }
    } else if lateral_fires(input.right, elapsed) {
        if board.free_spec(right_of(p.position)) {
            DroppingBlock { position: right_of(p.position), ..p }
        } else {
            p
        }
    } else {
        p
    }
}

/// The gravity timer forces a drop this tick: its interval expired, or
/// soft drop is held and its shorter threshold expired.
pub open spec fn drop_fires(input: TickInput, elapsed: int, interval: int) -> bool {
    elapsed >= interval || (input.soft_drop && elapsed >= SOFT_DROP_MS)
}

/// The spawn gate's verdict on a state whose piece slot is empty: a free
/// spawn cell hands over the fresh piece, an occupied one ends the round
/// with nothing written into the grid.
pub open spec fn spawn_outcome_ok(board: BlockMap, fresh: DroppingBlock, post: Game) -> bool {
    &&& board.free_spec(spawn_cell()) ==> post.dropping == Some(fresh) && !post.game_over
    &&& !board.free_spec(spawn_cell()) ==> post.dropping is None && post.game_over
}

/// The full per-tick transition: what one `step` call does, phase by
/// phase, as a relation between the old state, the tick input, the
/// offered fresh piece, the new state and the emitted cues. The lock
/// branch's cascade is witnessed by [`lock_cascade_ok`].
pub open spec fn step_ok(
    pre: Game,
    input: TickInput,
    fresh: DroppingBlock,
    post: Game,
    ev: StepEvents,
) -> bool {
    if pre.game_over {
        post == pre && !ev.locked && ev.cleared == 0 && !ev.game_over
    } else {
        let me = ms_after(pre.move_elapsed_ms as int, input.dt_ms as int);
        let me2: int = if lateral_resets(input, me) {
            0
        } else {
            me
        };
        let de = ms_after(pre.drop_elapsed_ms as int, input.dt_ms as int);
        &&& ev.game_over == post.game_over
        &&& post.move_elapsed_ms == me2
        &&& match pre.dropping {
            None => {
                &&& !ev.locked && ev.cleared == 0
                &&& post.board == pre.board && post.score == pre.score
                &&& post.next_entity == pre.next_entity
                &&& post.last_dropped == pre.last_dropped
                &&& post.drop_interval_ms == pre.drop_interval_ms
                &&& post.drop_elapsed_ms == de
                &&& spawn_outcome_ok(pre.board, fresh, post)
            },
            Some(p0) => {
                let p1 = lateral_result(pre.board, reassigned_piece(p0, input), input, me);
                if !drop_fires(input, de, pre.drop_interval_ms as int) {
                    // no drop this tick: only the piece and timers move
                    &&& !ev.locked && ev.cleared == 0 && !post.game_over
                    &&& post.dropping == Some(p1)
                    &&& post.board == pre.board && post.score == pre.score
                    &&& post.next_entity == pre.next_entity
                    &&& post.last_dropped == pre.last_dropped
                    &&& post.drop_interval_ms == pre.drop_interval_ms
                    &&& post.drop_elapsed_ms == de
                } else if pre.board.free_spec(below(p1.position)) {
                    // the piece falls exactly one cell and the gravity
                    // timer resets; the grid is untouched
                    &&& !ev.locked && ev.cleared == 0 && !post.game_over
                    &&& post.dropping == Some(
                        (DroppingBlock { position: below(p1.position), ..p1 }),
                    )
                    &&& post.board == pre.board && post.score == pre.score
                    &&& post.next_entity == pre.next_entity
                    &&& post.last_dropped == pre.last_dropped
                    &&& post.drop_interval_ms == pre.drop_interval_ms
                    &&& post.drop_elapsed_ms == 0
                } else if p1.position.y >= SPAWN_Y || pre.next_entity == u64::MAX {
                    // blocked at or above the danger row (or no identity
                    // left to mint, unreachable in practice): game over,
                    // and the piece is never written into the grid
                    &&& !ev.locked && ev.cleared == 0 && post.game_over
                    &&& post.dropping is None
                    &&& post.board == pre.board && post.score == pre.score
                    &&& post.next_entity == pre.next_entity
                    &&& post.last_dropped == pre.last_dropped
                    &&& post.drop_interval_ms == pre.drop_interval_ms
                    &&& post.drop_elapsed_ms == de
                } else {
                    // the piece locks: the cascade runs, gravity speeds
                    // up, and the spawn gate decides the next piece
                    &&& ev.locked
                    &&& exists|mid: BlockMap, after: BlockMap, evs: Seq<PerformCalculationEvent>|
                        lock_cascade_ok(
                            pre.board.cells@,
                            pre.score.0 as int,
                            post.board,
                            post.score.0 as int,
                            ev.cleared as int,
                            p1,
                            pre.next_entity,
                            mid,
                            after,
                            evs,
                        )
                    &&& post.next_entity == pre.next_entity + 1
                    &&& post.last_dropped.entity is None && post.last_dropped.operation is None
                    &&& post.drop_interval_ms == speedup(pre.drop_interval_ms as int)
                    &&& post.drop_elapsed_ms == 0
                    &&& spawn_outcome_ok(post.board, fresh, post)
                }
            },
        }
    }
}

impl Game {
    /// Well-formedness of a round's state: a well-formed board, a
    /// well-formed falling piece, a non-negative score, every stored
    /// identity below the mint counter, a gravity interval between its
    /// floor and its initial value, and no piece left after game over.
    pub open spec fn wf(self) -> bool {
        &&& self.board.wf()
        &&& self.dropping matches Some(p) ==> p.wf()
        &&& 0 <= self.score.0
        &&& forall|c: Coords|
            (#[trigger] self.board.at(c)) matches Some(o) ==> o.entity < self.next_entity
        &&& self.last_dropped.entity matches Some(e) ==> e < self.next_entity
        &&& MIN_DROP_INTERVAL_MS <= self.drop_interval_ms <= INITIAL_DROP_INTERVAL_MS
        &&& self.game_over ==> self.dropping is None
    }

    /// A fresh round: empty grid, zero score, no piece, no outstanding
    /// record, timers at their initial values.
    pub fn new() -> (g: Game)
        ensures
            g.wf(),
            forall|c: Coords| (#[trigger] g.board.at(c)) is None,
            g.dropping is None,
            g.score.0 == 0,
            g.last_dropped.entity is None,
            g.last_dropped.operation is None,
            g.next_entity == 1,
            g.drop_interval_ms == INITIAL_DROP_INTERVAL_MS,
            g.drop_elapsed_ms == 0,
            g.move_elapsed_ms == 0,
            !g.game_over,
    {
        Game {
            board: BlockMap::new_empty(),
            dropping: None,
            score: Score::new(),
            last_dropped: LastDroppedBlock { entity: None, operation: None },
            next_entity: 1,
            drop_interval_ms: INITIAL_DROP_INTERVAL_MS,
            drop_elapsed_ms: 0,
            move_elapsed_ms: 0,
            game_over: false,
        }
    }

    /// The round-reset intent: re-initializes the grid, the score, the
    /// piece and every timer in one call, so no partially reset state is
    /// ever observable.
    pub fn reset(&mut self)
        ensures
            final(self).wf(),
            forall|c: Coords| (#[trigger] final(self).board.at(c)) is None,
            final(self).dropping is None,
            final(self).score.0 == 0,
            final(self).last_dropped.entity is None,
            final(self).last_dropped.operation is None,
            final(self).next_entity == 1,
            final(self).drop_interval_ms == INITIAL_DROP_INTERVAL_MS,
            final(self).drop_elapsed_ms == 0,
            final(self).move_elapsed_ms == 0,
            !final(self).game_over,
    {
        *self = Game::new();
    }

    /// The spawn gate: hands control of the fresh piece to the
    /// controller when the spawn cell is free, and otherwise declares
    /// game over — without ever inserting anything into the grid.
    pub fn try_spawn(&mut self, fresh: &DroppingBlock)
        requires
            old(self).wf(),
            fresh.wf(),
            fresh.position == spawn_cell(),
            old(self).dropping is None,
            !old(self).game_over,
        ensures
            final(self).wf(),
            final(self).board == old(self).board,
            final(self).score == old(self).score,
            final(self).last_dropped == old(self).last_dropped,
            final(self).next_entity == old(self).next_entity,
            final(self).drop_interval_ms == old(self).drop_interval_ms,
            final(self).drop_elapsed_ms == old(self).drop_elapsed_ms,
            final(self).move_elapsed_ms == old(self).move_elapsed_ms,
            old(self).board.free_spec(spawn_cell()) ==> final(self).dropping == Some(*fresh)
                && !final(self).game_over,
            !old(self).board.free_spec(spawn_cell())
                ==> final(self).dropping is None && final(self).game_over,
    {
        let spawn = Coords::new(SPAWN_X, SPAWN_Y);
        if self.board.is_none(&spawn) {
            self.dropping = Some(*fresh);
        } else {
            self.game_over = true;
        }
    }

    /// Locks the piece into the grid and resolves the cascade: writes
    /// the occupant, captures the last-locked record, emits one update
    /// instruction per same-colored connected neighbor plus one for the
    /// record — applying the locked block's own operation exactly once —
    /// clears the record, applies the instructions in order, and settles
    /// the grid when anything cleared. Returns how many blocks cleared.
    fn resolve_lock(&mut self, p: DroppingBlock) -> (cleared: usize)
        requires
            old(self).wf(),
            p.wf(),
            old(self).next_entity < u64::MAX,
        ensures
            final(self).wf(),
            old(self).score.0 <= final(self).score.0,
            final(self).dropping == old(self).dropping,
            final(self).game_over == old(self).game_over,
            final(self).drop_interval_ms == old(self).drop_interval_ms,
            final(self).drop_elapsed_ms == old(self).drop_elapsed_ms,
            final(self).move_elapsed_ms == old(self).move_elapsed_ms,
            final(self).last_dropped.entity is None,
            final(self).last_dropped.operation is None,
            final(self).next_entity == old(self).next_entity + 1,
            cleared > 0 ==> settled(final(self).board),
            exists|mid: BlockMap, after: BlockMap, evs: Seq<PerformCalculationEvent>|
                lock_cascade_ok(
                    old(self).board.cells@,
                    old(self).score.0 as int,
                    final(self).board,
                    final(self).score.0 as int,
                    cleared as int,
                    p,
                    old(self).next_entity,
                    mid,
                    after,
                    evs,
                ),
    {
        let ghost pre_cells = self.board.cells@;
        let ghost s0 = self.score.0 as int;
        let entity = self.next_entity;
        self.next_entity = self.next_entity + 1;
        proof {
            assert forall|c: Coords|
                c != p.position && (#[trigger] self.board.at(c)) is Some implies self.board.at(
                c,
            )->0.entity != entity by {}
        }
        self.board.set_block(
            &p.position,
            Some(Occupant { entity, color: p.color, number: p.number }),
        );
        let ghost mid_map = self.board;
        proof {
            // the lock write, slot by slot
            let target = pre_cells.update(
                cell_index(p.position),
                Some(Occupant { entity, color: p.color, number: p.number }),
            );
            assert forall|i: int| 0 <= i < pre_cells.len() implies mid_map.cells@[i]
                == target[i] by {
                lemma_coords_of_index(i);
                let ci = Coords {
                    x: (i / (BOARD_HEIGHT as int)) as i32,
                    y: (i % (BOARD_HEIGHT as int)) as i32,
                };
                assert(mid_map.at(ci) == mid_map.cells@[i]);
                assert(old(self).board.at(ci) == pre_cells[i]);
                if ci != p.position && i == cell_index(p.position) {
                    lemma_cell_index_injective(ci, p.position);
                }
            }
            assert(mid_map.cells@ =~= target);
        }
        self.last_dropped = LastDroppedBlock {
            entity: Some(entity),
            operation: Some(p.operation),
        };
        let neighbors = find_same_color_neighbors(&self.board, &p.position, p.color);
        let ghost mut evs_done: Seq<PerformCalculationEvent> = Seq::empty();
        let mut cleared: usize = 0;
        let mut i: usize = 0;
        while i < neighbors.len()
            invariant
                self.board.wf(),
                0 <= self.score.0,
                old(self).score.0 <= self.score.0,
                i <= neighbors@.len(),
                neighbors@.len() <= BOARD_WIDTH * BOARD_HEIGHT,
                cleared <= i,
                p.wf(),
                forall|c: Coords|
                    (#[trigger] self.board.at(c)) matches Some(o) ==> o.entity
                        < self.next_entity,
                self.next_entity == old(self).next_entity + 1,
                self.dropping == old(self).dropping,
                self.game_over == old(self).game_over,
                self.drop_interval_ms == old(self).drop_interval_ms,
                self.drop_elapsed_ms == old(self).drop_elapsed_ms,
                self.move_elapsed_ms == old(self).move_elapsed_ms,
                evs_done.len() == i,
                forall|j: int|
                    0 <= j < i ==> #[trigger] evs_done[j] == (PerformCalculationEvent {
                        entity: neighbors@[j],
                        number: p.number,
                        operation: p.operation,
                    }),
                self.board.cells@ == cascade(mid_map.cells@, s0, evs_done).0,
                self.score.0 == cascade(mid_map.cells@, s0, evs_done).1,
                cleared == cascade(mid_map.cells@, s0, evs_done).2,
            decreases neighbors@.len() - i,
        {
            let ghost pre = self.board;
            let ev = PerformCalculationEvent {
                entity: neighbors[i],
                number: p.number,
                operation: p.operation,
            };
            let did = perform_calculation(&mut self.board, &mut self.score, &ev);
            proof {
                assert forall|c: Coords|
                    (#[trigger] self.board.at(c)) is Some implies self.board.at(c)->0.entity
                    < self.next_entity by {
                    assert(pre.at(c) is Some);
                }
                lemma_cascade_snoc(mid_map.cells@, s0, evs_done, ev);
                evs_done = evs_done.push(ev);
            }
            if did {
                cleared = cleared + 1;
            }
            i = i + 1;
        }
        let ghost pre = self.board;
        let evr = PerformCalculationEvent { entity, number: p.number, operation: p.operation };
        let did = perform_calculation(&mut self.board, &mut self.score, &evr);
        proof {
            assert forall|c: Coords|
                (#[trigger] self.board.at(c)) is Some implies self.board.at(c)->0.entity
                < self.next_entity by {
                assert(pre.at(c) is Some);
            }
            lemma_cascade_snoc(mid_map.cells@, s0, evs_done, evr);
            evs_done = evs_done.push(evr);
        }
        if did {
            cleared = cleared + 1;
        }
        self.last_dropped = LastDroppedBlock { entity: None, operation: None };
        let ghost after_map = self.board;
        if cleared > 0 {
            let ghost pre2 = self.board;
            settle(&mut self.board);
            proof {
                assert forall|c: Coords|
                    (#[trigger] self.board.at(c)) is Some implies self.board.at(c)->0.entity
                    < self.next_entity by {
                    let o = self.board.at(c)->0;
                    assert(column_has(self.board, c.x as int, o));
                    assert(column_has(pre2, c.x as int, o));
                    let c2 = choose|c2: Coords|
                        c2.x == c.x as int && (#[trigger] pre2.at(c2)) == Some(o);
                }
            }
        }
        proof {
            // assemble the witnessed cascade for the contract
            let ids = Seq::new((evs_done.len() - 1) as nat, |j: int| evs_done[j].entity);
            assert(ids =~= neighbors@);
            assert forall|j: int| 0 <= j < ids.len() implies #[trigger] ids[j] != entity by {
                assert(region_entry(mid_map, p.position, p.color, neighbors@[j]));
                let c = choose|c: Coords|
                    #[trigger] reaches(mid_map, p.position, p.color, c) && (mid_map.at(
                        c,
                    ) matches Some(o) && o.entity == neighbors@[j]);
                lemma_reaches_is_colored(mid_map, p.position, p.color, c);
                assert(mid_map.at(c) == old(self).board.at(c));
                assert(old(self).board.at(c)->0.entity < entity);
            }
            assert(lock_cascade_ok(
                pre_cells,
                s0,
                self.board,
                self.score.0 as int,
                cleared as int,
                p,
                entity,
                mid_map,
                after_map,
                evs_done,
            ));
        }
        cleared
    }

    /// One simulation step. Runs the fixed phase order: intent
    /// reassignment, lateral movement under the repeat throttle,
    /// gravity-timed drop or lock, propagation and the arithmetic/clear
    /// pipeline, gravity compaction, and finally the spawn gate, which
    /// requests `fresh` as the next piece or ends the round. After game
    /// over the state is terminal: nothing changes until a reset.
    #[verifier::rlimit(50)]
    pub fn step(&mut self, input: &TickInput, fresh: &DroppingBlock) -> (ev: StepEvents)
        requires
            old(self).wf(),
            fresh.wf(),
            fresh.position == spawn_cell(),
        ensures
            final(self).wf(),
            step_ok(*old(self), *input, *fresh, *final(self), ev),
            old(self).score.0 <= final(self).score.0,
            old(self).game_over ==> *final(self) == *old(self) && !ev.locked && ev.cleared == 0
                && !ev.game_over,
            ev.game_over == (!old(self).game_over && final(self).game_over),
            final(self).game_over ==> final(self).dropping is None,
            !ev.locked ==> final(self).board == old(self).board
                && final(self).score == old(self).score,
            ev.cleared > 0 ==> ev.locked,
            ev.cleared > 0 ==> settled(final(self).board),
            // every lock speeds gravity up by one hundredth, to the floor
            ev.locked ==> final(self).drop_interval_ms == speedup(
                old(self).drop_interval_ms as int,
            ),
            !ev.locked ==> final(self).drop_interval_ms == old(self).drop_interval_ms,
            // the last-locked record is consumed within the locking step
            ev.locked ==> final(self).last_dropped.entity is None
                && final(self).last_dropped.operation is None,
            // a round in progress always leaves a step with a piece in
            // the air: the spawn gate refilled it or ended the round
            !final(self).game_over ==> final(self).dropping is Some,
    {
        if self.game_over {
            return StepEvents { locked: false, cleared: 0, game_over: false };
        }
        let mut locked = false;
        let mut cleared: usize = 0;

        // color / operation reassignment, honored only while a piece is
        // falling; a NONE color intent is ignored
        match input.set_color {
            Some(color) => {
                if !matches!(color, BlockColor::NONE) {
                    match &mut self.dropping {
                        Some(piece) => piece.set_color(color),
                        None => {},
                    }
                }
            },
            None => {},
        }
        match input.set_operation {
            Some(op) => {
                match &mut self.dropping {
                    Some(piece) => piece.set_operation(op),
                    None => {},
                }
            },
            None => {},
        }
        proof {
            assert(self.dropping == (match old(self).dropping {
                None => None::<DroppingBlock>,
                Some(q) => Some(reassigned_piece(q, *input)),
            }));
        }

        // lateral movement: a fresh press moves at once, a held key at
        // most once per throttle interval; a blocked move is silently
        // ignored but still resets the throttle
        self.move_elapsed_ms = add_ms(self.move_elapsed_ms, input.dt_ms);
        let ghost me = ms_after(old(self).move_elapsed_ms as int, input.dt_ms as int);
        let left_now = matches!(input.left, KeyIntent::JustPressed) || (matches!(
            input.left,
            KeyIntent::Held,
        ) && self.move_elapsed_ms > MOVE_THROTTLE_MS);
        let right_now = matches!(input.right, KeyIntent::JustPressed) || (matches!(
            input.right,
            KeyIntent::Held,
        ) && self.move_elapsed_ms > MOVE_THROTTLE_MS);
        proof {
            assert(left_now == lateral_fires(input.left, me));
            assert(right_now == lateral_fires(input.right, me));
        }
        if left_now {
            match &mut self.dropping {
                Some(piece) => piece.move_left(&self.board),
                None => {},
            }
            self.move_elapsed_ms = 0;
        } else if right_now {
            match &mut self.dropping {
                Some(piece) => piece.move_right(&self.board),
                None => {},
            }
            self.move_elapsed_ms = 0;
        }
        proof {
            assert(self.move_elapsed_ms == (if lateral_resets(*input, me) {
                0int
            } else {
                me
            }));
            assert(self.dropping == (match old(self).dropping {
                None => None::<DroppingBlock>,
                Some(q) => Some(
                    lateral_result(old(self).board, reassigned_piece(q, *input), *input, me),
                ),
            }));
        }

        // gravity: on timer expiry (or accelerated by soft drop) the
        // piece falls one cell, ends the round at the danger row, or
        // locks and resolves
        let ghost mut lock_witness = (self.board, self.board, Seq::<
            PerformCalculationEvent,
        >::empty());
        let ghost mut lp = *fresh;
        self.drop_elapsed_ms = add_ms(self.drop_elapsed_ms, input.dt_ms);
        let ghost de = ms_after(old(self).drop_elapsed_ms as int, input.dt_ms as int);
        let should_drop = self.drop_elapsed_ms >= self.drop_interval_ms || (input.soft_drop
            && self.drop_elapsed_ms >= SOFT_DROP_MS);
        proof {
            assert(should_drop == drop_fires(*input, de, old(self).drop_interval_ms as int));
        }
        if should_drop {
            match self.dropping {
                None => {},
                Some(p) => {
                    let target = Coords::new(p.position.x, p.position.y - 1);
                    proof {
                        assert(target == below(p.position));
                    }
                    if self.board.is_none(&target) {
                        self.dropping = Some(DroppingBlock { position: target, ..p });
                        self.drop_elapsed_ms = 0;
                    } else if p.position.y >= SPAWN_Y {
                        // blocked at the danger row: the round is over
                        self.game_over = true;
                        self.dropping = None;
                    } else if self.next_entity == u64::MAX {
                        // no fresh identity can be minted (unreachable in
                        // practice); end the round rather than reuse one
                        self.game_over = true;
                        self.dropping = None;
                    } else {
                        let ghost b0 = self.board;
                        let ghost sc0 = self.score.0 as int;
                        let ghost ne0 = self.next_entity;
                        self.dropping = None;
                        cleared = self.resolve_lock(p);
                        locked = true;
                        proof {
                            lp = p;
                            let (mid, after, evs) = choose|
                                mid: BlockMap,
                                after: BlockMap,
                                evs: Seq<PerformCalculationEvent>,
                            |
                                lock_cascade_ok(
                                    b0.cells@,
                                    sc0,
                                    self.board,
                                    self.score.0 as int,
                                    cleared as int,
                                    p,
                                    ne0,
                                    mid,
                                    after,
                                    evs,
                                );
                            lock_witness = (mid, after, evs);
                            assert(b0 == old(self).board);
                            assert(lock_cascade_ok(
                                old(self).board.cells@,
                                old(self).score.0 as int,
                                self.board,
                                self.score.0 as int,
                                cleared as int,
                                p,
                                old(self).next_entity,
                                mid,
                                after,
                                evs,
                            ));
                        }
                        // every lock speeds gravity up a little, down to
                        // the configured floor
                        let sped = self.drop_interval_ms * 99 / 100;
                        self.drop_interval_ms = if sped < MIN_DROP_INTERVAL_MS {
                            MIN_DROP_INTERVAL_MS
                        } else {
                            sped
                        };
                        self.drop_elapsed_ms = 0;
                    }
                },
            }
        }

        // the spawn gate: request the next piece, or end the round
        if !self.game_over {
            if self.dropping.is_none() {
                self.try_spawn(fresh);
            }
        }
        let evout = StepEvents { locked, cleared, game_over: self.game_over };
        proof {
            let pre = *old(self);
            let me2: int = if lateral_resets(*input, me) {
                0
            } else {
                me
            };
            assert(evout.game_over == self.game_over);
            assert(self.move_elapsed_ms == me2);
            match pre.dropping {
                None => {
                    assert(!evout.locked && evout.cleared == 0);
                    assert(self.board == pre.board && self.score == pre.score);
                    assert(self.next_entity == pre.next_entity);
                    assert(self.last_dropped == pre.last_dropped);
                    assert(self.drop_interval_ms == pre.drop_interval_ms);
                    assert(self.drop_elapsed_ms == de);
                    assert(spawn_outcome_ok(pre.board, *fresh, *self));
                },
                Some(p0) => {
                    let p1 = lateral_result(pre.board, reassigned_piece(p0, *input), *input, me);
                    if !drop_fires(*input, de, pre.drop_interval_ms as int) {
                        assert(!evout.locked && evout.cleared == 0 && !self.game_over);
                        assert(self.dropping == Some(p1));
                        assert(self.board == pre.board && self.score == pre.score);
                        assert(self.drop_elapsed_ms == de);
                    } else if pre.board.free_spec(below(p1.position)) {
                        assert(!evout.locked && evout.cleared == 0 && !self.game_over);
                        assert(self.dropping == Some(
                            (DroppingBlock { position: below(p1.position), ..p1 }),
                        ));
                        assert(self.board == pre.board && self.score == pre.score);
                        assert(self.drop_elapsed_ms == 0);
                    } else if p1.position.y >= SPAWN_Y || pre.next_entity == u64::MAX {
                        assert(!evout.locked && evout.cleared == 0 && self.game_over);
                        assert(self.dropping is None);
                        assert(self.board == pre.board && self.score == pre.score);
                        assert(self.drop_elapsed_ms == de);
                    } else {
                        assert(evout.locked);
                        assert(lp == p1);
                        assert(lock_cascade_ok(
                            pre.board.cells@,
                            pre.score.0 as int,
                            self.board,
                            self.score.0 as int,
                            evout.cleared as int,
                            p1,
                            pre.next_entity,
                            lock_witness.0,
                            lock_witness.1,
                            lock_witness.2,
                        ));
                        assert(exists|mid: BlockMap, after: BlockMap, evs: Seq<
                            PerformCalculationEvent,
                        >|
                            lock_cascade_ok(
                                pre.board.cells@,
                                pre.score.0 as int,
                                self.board,
                                self.score.0 as int,
                                evout.cleared as int,
                                p1,
                                pre.next_entity,
                                mid,
                                after,
                                evs,
                            ));
                        assert(self.next_entity == pre.next_entity + 1);
                        assert(self.drop_interval_ms == speedup(pre.drop_interval_ms as int));
                        assert(self.drop_elapsed_ms == 0);
                        assert(spawn_outcome_ok(self.board, *fresh, *self));
                    }
                },
            }
            assert(step_ok(*old(self), *input, *fresh, *self, evout));
        }
        evout
    }
}

} // verus!
