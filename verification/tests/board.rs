use combine_core::block::{BlockColor, Occupant};
use combine_core::board::BlockMap;
use combine_core::coords::Coords;

fn occ(entity: u64, number: i32) -> Occupant {
    Occupant { entity, color: BlockColor::BLUE, number }
}

#[test]
fn boundary_is_always_occupied() {
    let m = BlockMap::new_empty();
    assert!(m.occupied(&Coords::new(-1, 0)));
    assert!(m.occupied(&Coords::new(7, 0)));
    assert!(m.occupied(&Coords::new(0, -1)));
    assert!(m.occupied(&Coords::new(0, 16)));
    assert!(!m.is_none(&Coords::new(-1, 5)));
}

#[test]
fn empty_in_bounds_cell_is_free() {
    let m = BlockMap::new_empty();
    assert!(m.is_none(&Coords::new(0, 0)));
    assert!(m.is_none(&Coords::new(6, 15)));
    assert!(!m.occupied(&Coords::new(3, 8)));
}

#[test]
fn set_and_get_block() {
    let mut m = BlockMap::new_empty();
    let c = Coords::new(2, 5);
    m.set_block(&c, Some(occ(1, 7)));
    assert_eq!(m.get_block(&c), Some(occ(1, 7)));
    assert!(m.occupied(&c));
    m.set_block(&c, None);
    assert_eq!(m.get_block(&c), None);
    assert!(m.is_none(&c));
}

#[test]
fn get_block_never_fabricates_boundary_occupants() {
    let m = BlockMap::new_empty();
    assert_eq!(m.get_block(&Coords::new(-1, 0)), None);
    assert_eq!(m.get_block(&Coords::new(0, 16)), None);
}

#[test]
fn set_block_out_of_bounds_is_noop() {
    let mut m = BlockMap::new_empty();
    m.set_block(&Coords::new(-1, 0), Some(occ(1, 5)));
    assert_eq!(m.get_block(&Coords::new(-1, 0)), None);
    for x in 0..7 {
        for y in 0..16 {
            assert!(m.is_none(&Coords::new(x, y)));
        }
    }
}

#[test]
fn move_block_into_occupied_cell_is_rejected() {
    let mut m = BlockMap::new_empty();
    let a = Coords::new(1, 1);
    let b = Coords::new(1, 0);
    m.set_block(&a, Some(occ(1, 5)));
    m.set_block(&b, Some(occ(2, 6)));
    // the conflict is reported and nothing mutates
    assert!(!m.move_block(&a, &b));
    assert_eq!(m.get_block(&a), Some(occ(1, 5)));
    assert_eq!(m.get_block(&b), Some(occ(2, 6)));
}

#[test]
fn move_block_into_boundary_is_rejected() {
    let mut m = BlockMap::new_empty();
    let a = Coords::new(0, 0);
    m.set_block(&a, Some(occ(1, 5)));
    assert!(!m.move_block(&a, &Coords::new(-1, 0)));
    assert_eq!(m.get_block(&a), Some(occ(1, 5)));
}

#[test]
fn move_block_moves_atomically() {
    let mut m = BlockMap::new_empty();
    let a = Coords::new(4, 3);
    let b = Coords::new(4, 2);
    m.set_block(&a, Some(occ(9, -5)));
    assert!(m.move_block(&a, &b));
    assert_eq!(m.get_block(&a), None);
    assert_eq!(m.get_block(&b), Some(occ(9, -5)));
}

#[test]
fn find_entity_locates_blocks() {
    let mut m = BlockMap::new_empty();
    m.set_block(&Coords::new(5, 9), Some(occ(42, 1)));
    assert_eq!(m.find_entity(42), Some(Coords::new(5, 9)));
    assert_eq!(m.find_entity(43), None);
}
