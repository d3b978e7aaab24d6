use cactpot::board::Board;
use cactpot::input::{ScrollDirection, next_number};

fn board_of(digits: [u8; 9]) -> Board {
    Board::new(digits.iter().map(|&d| if d == 0 { None } else { Some(d) }).collect())
}

#[test]
fn board_new_pads_and_truncates() {
    let b = Board::new(vec![Some(3)]);
    assert_eq!(b.cells, [Some(3), None, None, None, None, None, None, None, None]);
    let b = Board::new((1..=10).map(Some).collect());
    assert_eq!(b.cells[8], Some(9));
    assert_eq!(b.used(), vec![1, 2, 3, 4, 5, 6, 7, 8, 9]);
    assert!(b.unused().is_empty());
}

#[test]
fn counts_and_reveal_limit() {
    let b = board_of([0, 5, 0, 2, 0, 0, 9, 0, 0]);
    assert_eq!(b.used(), vec![5, 2, 9]);
    assert_eq!(b.filled_count(), 3);
    assert!(!b.max_inputs_reached());
    let b = board_of([0, 5, 0, 2, 0, 0, 9, 1, 0]);
    assert!(b.max_inputs_reached());
}

#[test]
fn stepping_an_empty_cell() {
    let b = board_of([1, 0, 0, 0, 0, 0, 0, 0, 9]);
    assert_eq!(next_number(&b, 4, ScrollDirection::Up), Some(2));
    assert_eq!(next_number(&b, 4, ScrollDirection::Down), Some(8));
    let full = board_of([1, 2, 3, 4, 5, 6, 7, 8, 0]);
    assert_eq!(next_number(&full, 8, ScrollDirection::Up), Some(9));
    let full = board_of([1, 2, 3, 4, 5, 6, 7, 8, 9]);
    assert_eq!(next_number(&full, 4, ScrollDirection::Down), Some(5));
}

#[test]
fn stepping_a_filled_cell_skips_used_digits() {
    let b = board_of([3, 4, 0, 0, 0, 0, 0, 0, 0]);
    assert_eq!(next_number(&b, 0, ScrollDirection::Up), Some(5));
    assert_eq!(next_number(&b, 0, ScrollDirection::Down), Some(2));
    let b = board_of([9, 0, 0, 0, 0, 0, 0, 0, 1]);
    assert_eq!(next_number(&b, 0, ScrollDirection::Up), Some(9));
    assert_eq!(next_number(&b, 8, ScrollDirection::Down), Some(1));
    assert_eq!(next_number(&b, 8, ScrollDirection::Up), Some(2));
}

#[test]
fn scrolling_respects_the_reveal_limit() {
    let mut b = board_of([1, 2, 3, 4, 0, 0, 0, 0, 0]);
    let before = b;
    b.scroll_cell(5, ScrollDirection::Up);
    assert_eq!(b, before);
    b.scroll_cell(3, ScrollDirection::Up);
    assert_eq!(b.cells[3], Some(5));
    let mut e = Board::default();
    e.scroll_cell(4, ScrollDirection::Down);
    assert_eq!(e.cells[4], Some(9));
}

#[test]
fn editing_cells() {
    let mut b = Board::default();
    b.set_cell(2, 7);
    b.set_cell(0, 1);
    assert_eq!(b.used(), vec![1, 7]);
    b.clear_cell(2);
    assert_eq!(b.used(), vec![1]);
    b.clear_cell(5);
    assert_eq!(b.filled_count(), 1);
    b.reset();
    assert_eq!(b, Board::default());
}
