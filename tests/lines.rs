use std::collections::HashMap;

use cactpot::board::Board;
use cactpot::lines::{line_cells, line_label, possible_line_sums};

fn board_of(digits: [u8; 9]) -> Board {
    Board::new(digits.iter().map(|&d| if d == 0 { None } else { Some(d) }).collect())
}

fn counts(outcomes: &[u32]) -> HashMap<u32, u8> {
    let mut m = HashMap::new();
    for &p in outcomes {
        *m.entry(p).or_insert(0u8) += 1;
    }
    m
}

#[test]
fn test_possible_line_sums_all_known() {
    let board = Board::new(vec![
        Some(1),
        Some(2),
        Some(3),
        Some(4),
        Some(5),
        Some(6),
        Some(7),
        Some(8),
        Some(9),
    ]);
    // Row 0: 1+2+3=6, Row 1: 4+5+6=15, Row 2: 7+8+9=24
    let sums = possible_line_sums(&board);
    assert_eq!(sums[0], vec![6]);
    assert_eq!(sums[1], vec![15]);
    assert_eq!(sums[2], vec![24]);
}

#[test]
fn test_possible_line_sums_with_unknowns() {
    let board = Board::new(vec![
        Some(1),
        None,
        None,
        None,
        None,
        None,
        None,
        None,
        None,
    ]);
    // Row 0: 1 + two unknowns (choose from 2..=9, no repeats)
    let sums = possible_line_sums(&board);
    assert_eq!(sums[0].len(), 13); // unique sums
    // All sums should be between 1+2+3=6 and 1+8+9=18
    assert!(sums[0].iter().all(|&s| s >= 6 && s <= 18));
}

#[test]
fn test_possible_all_known() {
    let board = board_of([1, 2, 3, 0, 0, 0, 0, 0, 0]);
    let expected = HashMap::from([(10000, 1)]);
    assert_eq!(counts(&board.line_payouts(0)), expected);
}

#[test]
fn test_possible_one_unknown() {
    let board = board_of([1, 2, 0, 0, 0, 0, 0, 0, 0]);
    let expected = HashMap::from([
        (10000, 1),
        (36, 1),
        (720, 1),
        (360, 1),
        (80, 1),
        (252, 1),
        (108, 1),
    ]);
    assert_eq!(counts(&board.line_payouts(0)), expected);
}

#[test]
fn test_possible_two_unknown() {
    let board = board_of([1, 0, 0, 0, 0, 0, 0, 0, 0]);
    let expected = HashMap::from([
        (10000, 2),
        (36, 2),
        (720, 4),
        (360, 4),
        (80, 6),
        (252, 6),
        (108, 8),
        (72, 10),
        (54, 6),
        (180, 6),
        (119, 2),
    ]);
    assert_eq!(counts(&board.line_payouts(0)), expected);
}

#[test]
fn test_possible_three_unknown() {
    let board = board_of([0; 9]);
    let expected = HashMap::from([
        (1080, 18),
        (1800, 6),
        (3600, 6),
        (10000, 6),
        (36, 36),
        (54, 48),
        (72, 90),
        (80, 24),
        (108, 42),
        (119, 42),
        (144, 12),
        (180, 90),
        (252, 30),
        (306, 24),
        (360, 18),
        (720, 12),
    ]);
    assert_eq!(counts(&board.line_payouts(0)), expected);
}

#[test]
fn identity_board_lines_are_singletons() {
    let board = board_of([1, 2, 3, 4, 5, 6, 7, 8, 9]);
    assert_eq!(board.line_payouts(0), vec![10000]);
    assert_eq!(board.line_payouts(1), vec![180]);
    assert_eq!(board.line_payouts(2), vec![3600]);
    assert_eq!(board.line_payouts(6), vec![180]);
    let all = board.possible_line_payouts();
    assert_eq!(all.len(), 8);
    assert!(all.iter().all(|v| v.len() == 1));
}

#[test]
fn single_reveal_counts_ordered_choices() {
    let board = board_of([1, 0, 0, 0, 0, 0, 0, 0, 0]);
    assert_eq!(board.unused(), vec![2, 3, 4, 5, 6, 7, 8, 9]);
    assert_eq!(board.line_payouts(0).len(), 56);
    assert_eq!(board.line_payouts(1).len(), 336);
    let sums = possible_line_sums(&board);
    assert_eq!(sums[0], (6u8..=18).collect::<Vec<u8>>());
}

#[test]
fn completion_sums_follow_choice_order() {
    // two free digits for the one empty cell of the top row: 8 then 9
    let board = board_of([1, 2, 0, 3, 4, 5, 6, 7, 0]);
    assert_eq!(board.sums_for_cells(line_cells(0)), vec![11, 12]);
    assert_eq!(board.line_payouts(0), vec![252, 108]);
    // the same cells in another order give the same outcomes
    assert_eq!(board.payouts_for_cells([2, 0, 1]), board.line_payouts(0));
}

#[test]
fn anti_diagonal_reveal() {
    let board = board_of([0, 0, 9, 0, 8, 0, 7, 0, 0]);
    assert_eq!(board.unused(), vec![1, 2, 3, 4, 5, 6]);
    assert_eq!(board.line_payouts(0).len(), 30);
    assert_eq!(board.line_payouts(7), vec![3600]);
}

#[test]
fn empty_board_lines() {
    let board = board_of([0; 9]);
    for i in 0..8 {
        assert_eq!(board.line_payouts(i).len(), 504);
    }
    let sums = possible_line_sums(&board);
    assert_eq!(sums[4], (6u8..=24).collect::<Vec<u8>>());
}

#[test]
fn line_table() {
    assert_eq!(line_cells(0), [0, 1, 2]);
    assert_eq!(line_cells(3), [0, 3, 6]);
    assert_eq!(line_cells(6), [0, 4, 8]);
    assert_eq!(line_cells(7), [2, 4, 6]);
    let labels: Vec<String> = (0..8).map(line_label).collect();
    assert_eq!(labels, vec!["Row 1", "Row 2", "Row 3", "Col 1", "Col 2", "Col 3", "Diag 1", "Diag 2"]);
    assert_eq!(line_label(8), "");
}
