use cactpot::board::Board;
use cactpot::table::{SortBy, TableRow, prepare_rows, sort_rows};

fn board_of(digits: [u8; 9]) -> Board {
    Board::new(digits.iter().map(|&d| if d == 0 { None } else { Some(d) }).collect())
}

fn order(rows: &[TableRow]) -> Vec<usize> {
    rows.iter().map(|r| r.index).collect()
}

#[test]
fn test_filled_grid_has_max_values() {
    let grid = board_of([1, 2, 3, 4, 5, 6, 7, 8, 9]);
    assert_eq!(grid.max_value(0), 10000);
    assert_eq!(grid.max_value(1), 10000);
    assert_eq!(grid.max_value(2), 10000);
    assert_eq!(grid.max_value(3), 180);
    assert_eq!(grid.max_value(4), 180);
    assert_eq!(grid.max_value(5), 180);
    assert_eq!(grid.max_value(6), 3600);
    assert_eq!(grid.max_value(6), 3600);
    assert_eq!(grid.max_value(6), 3600);
}

#[test]
fn identity_board_summaries() {
    let board = board_of([1, 2, 3, 4, 5, 6, 7, 8, 9]);
    let rows = board.line_summaries();
    assert_eq!(rows.len(), 8);
    assert_eq!(
        rows[0],
        TableRow { index: 0, line_label: "Row 1".to_string(), avg: 10000, max: 10000, max_count: 1, outcomes: 1 }
    );
    assert_eq!((rows[1].avg, rows[1].max), (180, 180));
    assert_eq!((rows[2].avg, rows[2].max), (3600, 3600));
    assert_eq!((rows[6].avg, rows[6].max), (180, 180));
    assert_eq!(board.best_line_cells(SortBy::Max), None);
    assert_eq!(board.best_line_cells(SortBy::Avg), None);
}

#[test]
fn summaries_in_line_order() {
    let board = board_of([1, 0, 0, 0, 0, 0, 0, 0, 0]);
    let rows = board.line_summaries();
    let labels: Vec<&str> = rows.iter().map(|r| r.line_label.as_str()).collect();
    assert_eq!(order(&rows), (0..8).collect::<Vec<usize>>());
    assert_eq!(labels, vec!["Row 1", "Row 2", "Row 3", "Col 1", "Col 2", "Col 3", "Diag 1", "Diag 2"]);
    assert_eq!((rows[0].avg, rows[0].max, rows[0].max_count, rows[0].outcomes), (528, 10000, 2, 56));
    assert_eq!((rows[1].avg, rows[1].max, rows[1].max_count, rows[1].outcomes), (276, 3600, 6, 336));
    for r in &rows {
        assert!(r.avg <= r.max);
        assert!(r.max_count <= r.outcomes);
    }
    assert_eq!(board.best_line_cells(SortBy::Max), None);
}

#[test]
fn four_reveals_pick_the_known_top_row() {
    let board = board_of([1, 2, 3, 4, 0, 0, 0, 0, 0]);
    assert_eq!(order(&board.rows(SortBy::Max)), vec![0, 2, 1, 5, 7, 3, 4, 6]);
    assert_eq!(order(&board.rows(SortBy::Avg)), vec![0, 2, 1, 5, 7, 4, 3, 6]);
    assert_eq!(board.best_line_cells(SortBy::Max), Some([0, 1, 2]));
    assert_eq!(board.best_line_cells(SortBy::Avg), Some([0, 1, 2]));
}

#[test]
fn three_reveals_on_anti_diagonal() {
    let board = board_of([0, 0, 9, 0, 8, 0, 7, 0, 0]);
    let rows = board.line_summaries();
    assert_eq!(rows[0].outcomes, 30);
    assert_eq!((rows[7].avg, rows[7].max, rows[7].max_count, rows[7].outcomes), (3600, 3600, 1, 1));
    assert_eq!(order(&board.rows(SortBy::Max)), vec![7, 0, 5, 1, 2, 3, 4, 6]);
    assert_eq!(order(&board.rows(SortBy::Avg)), vec![7, 0, 1, 4, 5, 6, 2, 3]);
    assert_eq!(board.best_line_cells(SortBy::Max), None);
}

#[test]
fn empty_board_ties_keep_line_order() {
    let board = Board::default();
    let rows = board.line_summaries();
    for r in &rows {
        assert_eq!((r.avg, r.max, r.max_count, r.outcomes), (360, 10000, 6, 504));
    }
    assert_eq!(order(&board.rows(SortBy::Max)), (0..8).collect::<Vec<usize>>());
    assert_eq!(order(&board.rows(SortBy::Avg)), (0..8).collect::<Vec<usize>>());
    assert_eq!(board.best_line_cells(SortBy::Avg), None);
}

#[test]
fn two_lines_share_the_top_maximum() {
    let board = board_of([1, 2, 7, 3, 0, 0, 0, 0, 0]);
    let ranked = board.rows(SortBy::Max);
    assert_eq!(ranked[0].max, 3600);
    assert_eq!(ranked[1].max, 3600);
    assert_eq!(order(&ranked), vec![5, 7, 2, 3, 1, 4, 6, 0]);
    assert_eq!(board.best_line_cells(SortBy::Max), Some([2, 5, 8]));
}

#[test]
fn prepare_rows_statistics() {
    let rows = prepare_rows(&[vec![10, 20, 25], vec![], vec![0, 0], vec![7, 7, 3, 7]]);
    assert_eq!(rows.len(), 4);
    assert_eq!((rows[0].avg, rows[0].max, rows[0].max_count, rows[0].outcomes), (18, 25, 1, 3));
    assert_eq!((rows[1].avg, rows[1].max, rows[1].max_count, rows[1].outcomes), (0, 0, 0, 0));
    assert_eq!((rows[2].avg, rows[2].max, rows[2].max_count, rows[2].outcomes), (0, 0, 0, 2));
    assert_eq!((rows[3].avg, rows[3].max, rows[3].max_count, rows[3].outcomes), (6, 7, 3, 4));
    assert_eq!(rows[3].line_label, "Col 1");
}

#[test]
fn sort_rows_is_stable_and_descending() {
    let rows = prepare_rows(&[vec![5], vec![9], vec![5], vec![1, 20], vec![9]]);
    let by_max = sort_rows(rows.clone(), SortBy::Max);
    assert_eq!(order(&by_max), vec![3, 1, 4, 0, 2]);
    let by_avg = sort_rows(rows, SortBy::Avg);
    assert_eq!(order(&by_avg), vec![3, 1, 4, 0, 2]);
    let rows = prepare_rows(&[vec![5], vec![1, 30], vec![9]]);
    assert_eq!(order(&sort_rows(rows.clone(), SortBy::Avg)), vec![1, 2, 0]);
    assert_eq!(order(&sort_rows(rows, SortBy::Max)), vec![1, 2, 0]);
    assert!(sort_rows(Vec::new(), SortBy::Max).is_empty());
}
