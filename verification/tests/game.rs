use combine_core::block::{BlockColor, Occupant, Operation};
use combine_core::coords::Coords;
use combine_core::game::{
    Game, KeyIntent, TickInput, INITIAL_DROP_INTERVAL_MS, MOVE_THROTTLE_MS,
};
use combine_core::piece::DroppingBlock;
use combine_core::rng::randomize_new_block;

fn idle_input(dt_ms: u32) -> TickInput {
    TickInput {
        dt_ms,
        left: KeyIntent::Idle,
        right: KeyIntent::Idle,
        soft_drop: false,
        set_color: None,
        set_operation: None,
    }
}

fn spawn_piece(number: i32, color: BlockColor, operation: Operation) -> DroppingBlock {
    DroppingBlock { position: Coords::new(4, 15), number, color, operation }
}

#[test]
fn scenario_simple_clear() {
    let mut g = Game::new();
    // a locked blue block with value 3 on the floor
    g.board.set_block(
        &Coords::new(3, 0),
        Some(Occupant { entity: 1, color: BlockColor::BLUE, number: 3 }),
    );
    g.next_entity = 2;
    // the falling blue 7 with ADD sits directly above it
    g.dropping = Some(DroppingBlock {
        position: Coords::new(3, 1),
        number: 7,
        color: BlockColor::BLUE,
        operation: Operation::ADD,
    });
    let fresh = spawn_piece(5, BlockColor::GREEN, Operation::ADD);
    let ev = g.step(&idle_input(INITIAL_DROP_INTERVAL_MS), &fresh);

    assert!(ev.locked);
    assert_eq!(ev.cleared, 1);
    assert!(!ev.game_over);
    // the neighbor reached 3 + 7 = 10 and cleared, scoring 10
    assert_eq!(g.score.0, 10);
    // the locked block's own operation applied exactly once: 7 + 7 = 14,
    // and gravity settled it onto the floor
    let rest = g.board.get_block(&Coords::new(3, 0)).unwrap();
    assert_eq!(rest.number, 14);
    assert_eq!(rest.entity, 2);
    assert_eq!(g.board.get_block(&Coords::new(3, 1)), None);
    // the record was consumed
    assert!(g.last_dropped.entity.is_none());
    assert!(g.last_dropped.operation.is_none());
    // spawning handed over the next piece
    assert_eq!(g.dropping, Some(fresh));
}

#[test]
fn scenario_boundary_rejection() {
    let mut g = Game::new();
    g.dropping = Some(DroppingBlock {
        position: Coords::new(0, 5),
        number: 4,
        color: BlockColor::PINK,
        operation: Operation::ADD,
    });
    let fresh = spawn_piece(5, BlockColor::GREEN, Operation::ADD);
    let mut input = idle_input(1);
    input.left = KeyIntent::JustPressed;
    g.step(&input, &fresh);
    // the piece sits in the leftmost column: move_left hits the solid
    // boundary and the coordinate is unchanged
    assert_eq!(g.dropping.unwrap().position, Coords::new(0, 5));
}

#[test]
fn scenario_game_over_on_blocked_spawn() {
    let mut g = Game::new();
    g.board.set_block(
        &Coords::new(4, 15),
        Some(Occupant { entity: 1, color: BlockColor::YELLOW, number: 5 }),
    );
    g.next_entity = 2;
    let fresh = spawn_piece(5, BlockColor::GREEN, Operation::ADD);
    let ev = g.step(&idle_input(1), &fresh);

    assert!(ev.game_over);
    assert!(g.game_over);
    assert!(g.dropping.is_none());
    // spawning wrote nothing into the grid
    let mut occupied = 0;
    for x in 0..7 {
        for y in 0..16 {
            if g.board.occupied(&Coords::new(x, y)) {
                occupied += 1;
            }
        }
    }
    assert_eq!(occupied, 1);
    assert_eq!(
        g.board.get_block(&Coords::new(4, 15)),
        Some(Occupant { entity: 1, color: BlockColor::YELLOW, number: 5 })
    );
}

#[test]
fn game_over_is_terminal_until_reset() {
    let mut g = Game::new();
    g.board.set_block(
        &Coords::new(4, 15),
        Some(Occupant { entity: 1, color: BlockColor::YELLOW, number: 5 }),
    );
    g.next_entity = 2;
    let fresh = spawn_piece(5, BlockColor::GREEN, Operation::ADD);
    g.step(&idle_input(1), &fresh);
    assert!(g.game_over);
    let score_before = g.score.0;
    let ev = g.step(&idle_input(5000), &fresh);
    assert!(!ev.locked);
    assert!(!ev.game_over);
    assert_eq!(g.score.0, score_before);
    assert!(g.game_over);

    g.reset();
    assert!(!g.game_over);
    assert_eq!(g.score.0, 0);
    assert!(g.board.is_none(&Coords::new(4, 15)));
}

#[test]
fn first_step_spawns_a_piece() {
    let mut g = Game::new();
    let fresh = spawn_piece(3, BlockColor::BLUE, Operation::SUBTRACT);
    let ev = g.step(&idle_input(1), &fresh);
    assert!(!ev.game_over);
    assert_eq!(g.dropping, Some(fresh));
}

#[test]
fn gravity_timer_drops_the_piece_one_cell() {
    let mut g = Game::new();
    let fresh = spawn_piece(3, BlockColor::BLUE, Operation::SUBTRACT);
    g.step(&idle_input(1), &fresh);
    // well under the interval: no drop yet
    g.step(&idle_input(500), &fresh);
    assert_eq!(g.dropping.unwrap().position, Coords::new(4, 15));
    // timer expires: exactly one cell down
    g.step(&idle_input(500), &fresh);
    assert_eq!(g.dropping.unwrap().position, Coords::new(4, 14));
}

#[test]
fn soft_drop_accelerates_the_fall() {
    let mut g = Game::new();
    let fresh = spawn_piece(3, BlockColor::BLUE, Operation::SUBTRACT);
    g.step(&idle_input(1), &fresh);
    let mut input = idle_input(25);
    input.soft_drop = true;
    g.step(&input, &fresh);
    assert_eq!(g.dropping.unwrap().position, Coords::new(4, 14));
}

#[test]
fn held_key_is_throttled() {
    let mut g = Game::new();
    let fresh = spawn_piece(3, BlockColor::BLUE, Operation::SUBTRACT);
    g.step(&idle_input(1), &fresh);
    let mut held = idle_input(200);
    held.left = KeyIntent::Held;
    // 201 ms elapsed: under the throttle, the held key does not move
    g.step(&held, &fresh);
    assert_eq!(g.dropping.unwrap().position, Coords::new(4, 15));
    // 401 ms elapsed: over the throttle, the held key moves once
    assert!(200 + 201 > MOVE_THROTTLE_MS);
    g.step(&held, &fresh);
    assert_eq!(g.dropping.unwrap().position, Coords::new(3, 15));
}

#[test]
fn a_fresh_press_moves_immediately() {
    let mut g = Game::new();
    let fresh = spawn_piece(3, BlockColor::BLUE, Operation::SUBTRACT);
    g.step(&idle_input(1), &fresh);
    let mut input = idle_input(1);
    input.right = KeyIntent::JustPressed;
    g.step(&input, &fresh);
    assert_eq!(g.dropping.unwrap().position, Coords::new(5, 15));
}

#[test]
fn locking_speeds_the_gravity_up_to_a_floor() {
    let mut g = Game::new();
    g.dropping = Some(DroppingBlock {
        position: Coords::new(2, 0),
        number: 1,
        color: BlockColor::GREEN,
        operation: Operation::ADD,
    });
    let fresh = spawn_piece(5, BlockColor::GREEN, Operation::ADD);
    let ev = g.step(&idle_input(INITIAL_DROP_INTERVAL_MS), &fresh);
    assert!(ev.locked);
    assert_eq!(g.drop_interval_ms, INITIAL_DROP_INTERVAL_MS * 99 / 100);
}

#[test]
fn danger_row_block_ends_the_round() {
    let mut g = Game::new();
    // the spawn row's support is occupied: the piece cannot fall
    g.board.set_block(
        &Coords::new(4, 14),
        Some(Occupant { entity: 1, color: BlockColor::YELLOW, number: 5 }),
    );
    g.next_entity = 2;
    g.dropping = Some(spawn_piece(3, BlockColor::BLUE, Operation::ADD));
    let fresh = spawn_piece(5, BlockColor::GREEN, Operation::ADD);
    let ev = g.step(&idle_input(INITIAL_DROP_INTERVAL_MS), &fresh);
    assert!(ev.game_over);
    assert!(!ev.locked);
    // the piece was not written into the grid
    assert!(g.board.is_none(&Coords::new(4, 15)));
}

#[test]
fn color_and_operation_reassignment_touch_only_the_piece() {
    let mut g = Game::new();
    let fresh = spawn_piece(3, BlockColor::BLUE, Operation::SUBTRACT);
    g.step(&idle_input(1), &fresh);
    let mut input = idle_input(1);
    input.set_color = Some(BlockColor::PINK);
    input.set_operation = Some(Operation::MULTIPLY);
    g.step(&input, &fresh);
    let p = g.dropping.unwrap();
    assert_eq!(p.color, BlockColor::PINK);
    assert_eq!(p.operation, Operation::MULTIPLY);
    assert_eq!(p.position, Coords::new(4, 15));
}

#[test]
fn reassigning_divide_to_a_zero_piece_substitutes_multiply() {
    let mut p = DroppingBlock {
        position: Coords::new(4, 15),
        number: 0,
        color: BlockColor::BLUE,
        operation: Operation::ADD,
    };
    p.set_operation(Operation::DIVIDE);
    assert_eq!(p.operation, Operation::MULTIPLY);
    p.number = 5;
    p.set_operation(Operation::DIVIDE);
    assert_eq!(p.operation, Operation::DIVIDE);
}

#[test]
fn switch_color_cycles_through_the_palette() {
    let mut p = DroppingBlock {
        position: Coords::new(4, 15),
        number: 1,
        color: BlockColor::BLUE,
        operation: Operation::ADD,
    };
    p.switch_color();
    assert_eq!(p.color, BlockColor::PINK);
    p.switch_color();
    assert_eq!(p.color, BlockColor::GREEN);
    p.switch_color();
    assert_eq!(p.color, BlockColor::YELLOW);
    p.switch_color();
    assert_eq!(p.color, BlockColor::BLUE);
}

#[test]
fn the_generator_never_emits_a_zero_divisor() {
    for _ in 0..300 {
        let p = randomize_new_block();
        assert!(p.number >= 0 && p.number <= 9);
        assert_ne!(p.color, BlockColor::NONE);
        if p.operation == Operation::DIVIDE {
            assert_ne!(p.number, 0);
        }
        assert_eq!(p.position, Coords::new(4, 15));
    }
}
