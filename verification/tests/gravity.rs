use combine_core::block::{BlockColor, Occupant};
use combine_core::board::BlockMap;
use combine_core::coords::Coords;
use combine_core::gravity::{drop_floating_blocks, settle};

fn put(m: &mut BlockMap, x: i32, y: i32, entity: u64) {
    m.set_block(
        &Coords::new(x, y),
        Some(Occupant { entity, color: BlockColor::BLUE, number: 1 }),
    );
}

fn entity_at(m: &BlockMap, x: i32, y: i32) -> Option<u64> {
    m.get_block(&Coords::new(x, y)).map(|o| o.entity)
}

#[test]
fn one_pass_moves_a_block_one_single_step() {
    let mut m = BlockMap::new_empty();
    put(&mut m, 2, 0, 1);
    put(&mut m, 2, 3, 2);
    // one pass drops the floating block by exactly one cell, never more
    assert!(drop_floating_blocks(&mut m));
    assert_eq!(entity_at(&m, 2, 3), None);
    assert_eq!(entity_at(&m, 2, 2), Some(2));
    assert_eq!(entity_at(&m, 2, 0), Some(1));
}

#[test]
fn cascading_gravity_closes_the_gap() {
    let mut m = BlockMap::new_empty();
    // three stacked blocks, then the middle one is cleared
    put(&mut m, 3, 0, 1);
    put(&mut m, 3, 1, 2);
    put(&mut m, 3, 2, 3);
    m.set_block(&Coords::new(3, 1), None);
    settle(&mut m);
    // the topmost block ends directly above the bottom one, no gap
    assert_eq!(entity_at(&m, 3, 0), Some(1));
    assert_eq!(entity_at(&m, 3, 1), Some(3));
    assert_eq!(entity_at(&m, 3, 2), None);
}

#[test]
fn a_stack_collapses_gradually_not_by_teleport() {
    let mut m = BlockMap::new_empty();
    put(&mut m, 1, 4, 5);
    // two free cells below: the block needs two passes to land
    assert!(drop_floating_blocks(&mut m));
    assert_eq!(entity_at(&m, 1, 3), Some(5));
    assert!(drop_floating_blocks(&mut m));
    assert_eq!(entity_at(&m, 1, 2), Some(5));
    assert!(drop_floating_blocks(&mut m));
    assert!(drop_floating_blocks(&mut m));
    assert_eq!(entity_at(&m, 1, 0), Some(5));
    // on the floor: nothing moves any more
    assert!(!drop_floating_blocks(&mut m));
}

#[test]
fn settle_reaches_a_fixed_point_with_nothing_floating() {
    let mut m = BlockMap::new_empty();
    put(&mut m, 0, 7, 1);
    put(&mut m, 0, 9, 2);
    put(&mut m, 4, 15, 3);
    put(&mut m, 6, 1, 4);
    settle(&mut m);
    // no remaining block has a free cell directly beneath it
    for x in 0..7 {
        for y in 1..16 {
            if m.occupied(&Coords::new(x, y)) {
                assert!(
                    m.occupied(&Coords::new(x, y - 1)),
                    "block at ({x}, {y}) floats"
                );
            }
        }
    }
    assert_eq!(entity_at(&m, 0, 0), Some(1));
    assert_eq!(entity_at(&m, 0, 1), Some(2));
    assert_eq!(entity_at(&m, 4, 0), Some(3));
    assert_eq!(entity_at(&m, 6, 0), Some(4));
}

#[test]
fn pass_on_a_settled_grid_moves_nothing() {
    let mut m = BlockMap::new_empty();
    put(&mut m, 2, 0, 1);
    put(&mut m, 2, 1, 2);
    put(&mut m, 5, 0, 3);
    assert!(!drop_floating_blocks(&mut m));
    assert_eq!(entity_at(&m, 2, 0), Some(1));
    assert_eq!(entity_at(&m, 2, 1), Some(2));
    assert_eq!(entity_at(&m, 5, 0), Some(3));
}
