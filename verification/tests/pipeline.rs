use combine_core::block::{BlockColor, Occupant, Operation};
use combine_core::board::BlockMap;
use combine_core::coords::Coords;
use combine_core::pipeline::{perform_calculation, PerformCalculationEvent, Score};

fn put(m: &mut BlockMap, x: i32, y: i32, entity: u64, number: i32) {
    m.set_block(
        &Coords::new(x, y),
        Some(Occupant { entity, color: BlockColor::BLUE, number }),
    );
}

#[test]
fn reaching_a_multiple_of_ten_clears_and_scores() {
    let mut m = BlockMap::new_empty();
    let mut score = Score::new();
    put(&mut m, 3, 0, 1, 3);
    let ev = PerformCalculationEvent { entity: 1, number: 7, operation: Operation::ADD };
    // 3 + 7 = 10: the block clears and credits its displayed value
    assert!(perform_calculation(&mut m, &mut score, &ev));
    assert_eq!(m.get_block(&Coords::new(3, 0)), None);
    assert_eq!(score.0, 10);
}

#[test]
fn an_ordinary_result_is_stored_in_place() {
    let mut m = BlockMap::new_empty();
    let mut score = Score::new();
    put(&mut m, 2, 4, 8, 5);
    let ev = PerformCalculationEvent { entity: 8, number: 7, operation: Operation::ADD };
    assert!(!perform_calculation(&mut m, &mut score, &ev));
    let o = m.get_block(&Coords::new(2, 4)).unwrap();
    assert_eq!(o.number, 12);
    assert_eq!(o.entity, 8);
    assert_eq!(o.color, BlockColor::BLUE);
    assert_eq!(score.0, 0);
}

#[test]
fn the_stored_number_is_clamped() {
    let mut m = BlockMap::new_empty();
    let mut score = Score::new();
    put(&mut m, 0, 0, 2, 50);
    let ev = PerformCalculationEvent { entity: 2, number: 3, operation: Operation::MULTIPLY };
    // 150 clamps to 99, which is not a multiple of ten
    assert!(!perform_calculation(&mut m, &mut score, &ev));
    assert_eq!(m.get_block(&Coords::new(0, 0)).unwrap().number, 99);
}

#[test]
fn a_vanished_target_is_skipped_silently() {
    let mut m = BlockMap::new_empty();
    let mut score = Score::new();
    put(&mut m, 1, 1, 4, 6);
    let ev = PerformCalculationEvent { entity: 77, number: 7, operation: Operation::ADD };
    assert!(!perform_calculation(&mut m, &mut score, &ev));
    assert_eq!(m.get_block(&Coords::new(1, 1)).unwrap().number, 6);
    assert_eq!(score.0, 0);
}

#[test]
fn a_negative_multiple_of_ten_clears_and_credits_its_absolute_value() {
    let mut m = BlockMap::new_empty();
    let mut score = Score::new();
    put(&mut m, 5, 2, 6, -13);
    let ev = PerformCalculationEvent { entity: 6, number: 3, operation: Operation::ADD };
    // -13 + 3 = -10 clears; the score rises by 10, never falls
    assert!(perform_calculation(&mut m, &mut score, &ev));
    assert_eq!(m.get_block(&Coords::new(5, 2)), None);
    assert_eq!(score.0, 10);
}

#[test]
fn a_zero_result_clears_with_no_credit() {
    let mut m = BlockMap::new_empty();
    let mut score = Score::new();
    put(&mut m, 6, 0, 9, 7);
    let ev = PerformCalculationEvent { entity: 9, number: 7, operation: Operation::SUBTRACT };
    // 7 - 7 = 0: zero counts as a multiple of ten and clears
    assert!(perform_calculation(&mut m, &mut score, &ev));
    assert_eq!(m.get_block(&Coords::new(6, 0)), None);
    assert_eq!(score.0, 0);
}

#[test]
fn division_applies_the_away_from_zero_rule() {
    let mut m = BlockMap::new_empty();
    let mut score = Score::new();
    put(&mut m, 4, 4, 3, 7);
    let ev = PerformCalculationEvent { entity: 3, number: 2, operation: Operation::DIVIDE };
    assert!(!perform_calculation(&mut m, &mut score, &ev));
    assert_eq!(m.get_block(&Coords::new(4, 4)).unwrap().number, 4);
}

#[test]
fn score_accumulates_over_clears() {
    let mut m = BlockMap::new_empty();
    let mut score = Score::new();
    put(&mut m, 0, 0, 1, 3);
    put(&mut m, 1, 0, 2, 13);
    let e1 = PerformCalculationEvent { entity: 1, number: 7, operation: Operation::ADD };
    let e2 = PerformCalculationEvent { entity: 2, number: 7, operation: Operation::ADD };
    assert!(perform_calculation(&mut m, &mut score, &e1));
    assert!(perform_calculation(&mut m, &mut score, &e2));
    assert_eq!(score.0, 30);
}
