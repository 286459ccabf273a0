use combine_core::block::{BlockColor, Occupant};
use combine_core::board::BlockMap;
use combine_core::coords::Coords;
use combine_core::propagate::find_same_color_neighbors;

fn put(m: &mut BlockMap, x: i32, y: i32, entity: u64, color: BlockColor) {
    m.set_block(&Coords::new(x, y), Some(Occupant { entity, color, number: 1 }));
}

#[test]
fn flood_fill_collects_exactly_the_connected_region() {
    let mut m = BlockMap::new_empty();
    // connected blue region: (2,0) - (1,0) - (1,1)
    put(&mut m, 2, 0, 1, BlockColor::BLUE);
    put(&mut m, 1, 0, 2, BlockColor::BLUE);
    put(&mut m, 1, 1, 3, BlockColor::BLUE);
    // adjacent but differently colored
    put(&mut m, 3, 0, 4, BlockColor::YELLOW);
    // same color but disconnected
    put(&mut m, 5, 5, 5, BlockColor::BLUE);
    // the landing block itself
    put(&mut m, 2, 1, 9, BlockColor::BLUE);

    let mut r = find_same_color_neighbors(&m, &Coords::new(2, 1), BlockColor::BLUE);
    r.sort();
    assert_eq!(r, vec![1, 2, 3]);
}

#[test]
fn flood_fill_never_includes_the_landing_block() {
    let mut m = BlockMap::new_empty();
    put(&mut m, 0, 0, 7, BlockColor::GREEN);
    put(&mut m, 1, 0, 8, BlockColor::GREEN);
    let r = find_same_color_neighbors(&m, &Coords::new(0, 0), BlockColor::GREEN);
    assert_eq!(r, vec![8]);
}

#[test]
fn flood_fill_visits_each_block_once_in_a_cycle() {
    let mut m = BlockMap::new_empty();
    // a 2x2 block of one color: the adjacency has a cycle
    put(&mut m, 1, 0, 11, BlockColor::PINK);
    put(&mut m, 2, 0, 12, BlockColor::PINK);
    put(&mut m, 1, 1, 13, BlockColor::PINK);
    put(&mut m, 2, 1, 14, BlockColor::PINK);
    // landing block beside the square
    put(&mut m, 3, 0, 20, BlockColor::PINK);

    let mut r = find_same_color_neighbors(&m, &Coords::new(3, 0), BlockColor::PINK);
    r.sort();
    assert_eq!(r, vec![11, 12, 13, 14]);
}

#[test]
fn flood_fill_on_empty_neighborhood_is_empty() {
    let mut m = BlockMap::new_empty();
    put(&mut m, 4, 4, 1, BlockColor::BLUE);
    let r = find_same_color_neighbors(&m, &Coords::new(4, 4), BlockColor::BLUE);
    assert!(r.is_empty());
}
