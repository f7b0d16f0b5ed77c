use sudoku::board::{parse_token, Board, Number};
use sudoku::solver::{solve, solve_helper};

fn board_from(rows: [&str; 9]) -> Board {
    let mut field = [None; 81];
    for (i, row) in rows.iter().enumerate() {
        for (j, tok) in row.split_whitespace().enumerate() {
            field[i * 9 + j] = parse_token(tok);
        }
    }
    Board::new(field)
}

fn grid_symbols(board: &Board) -> Vec<Vec<String>> {
    board
        .render()
        .iter()
        .map(|line| line.split_whitespace().map(|s| s.to_string()).collect())
        .collect()
}

/// Asserts that every row, column, and 3x3 box of a full board holds each
/// of the nine digit symbols exactly once.
fn assert_valid_full_grid(board: &Board) {
    let grid = grid_symbols(board);
    let digits = ["1", "2", "3", "4", "5", "6", "7", "8", "9"];
    for r in 0..9 {
        for d in digits.iter() {
            assert_eq!(grid[r].iter().filter(|s| s == d).count(), 1);
        }
    }
    for c in 0..9 {
        for d in digits.iter() {
            let count = (0..9).filter(|&r| grid[r][c] == *d).count();
            assert_eq!(count, 1);
        }
    }
    for br in 0..3 {
        for bc in 0..3 {
            for d in digits.iter() {
                let mut count = 0;
                for r in 3 * br..3 * br + 3 {
                    for c in 3 * bc..3 * bc + 3 {
                        if grid[r][c] == *d {
                            count += 1;
                        }
                    }
                }
                assert_eq!(count, 1);
            }
        }
    }
}

fn full_consistent_board() -> Board {
    let mut field = [None; 81];
    for r in 0..9 {
        for c in 0..9 {
            let v = ((3 * r + r / 3 + c) % 9 + 1) as u8;
            field[r * 9 + c] = Some(Number::from_val(v));
        }
    }
    Board::new(field)
}

#[test]
fn full_grid_solves_to_itself() {
    let mut board = full_consistent_board();
    let before = board;
    let solutions = solve(&mut board);
    assert_eq!(solutions.len(), 1);
    assert_eq!(solutions[0], before);
    assert_eq!(board, before);
}

#[test]
fn direct_conflict_unsolvable() {
    // Row 0 holds 1..8 in its first eight cells, and the box of (0, 8)
    // already holds 9: no digit remains for (0, 8).
    let mut board = board_from([
        "1 2 3 4 5 6 7 8 .",
        ". . . . . . . . 9",
        ". . . . . . . . .",
        ". . . . . . . . .",
        ". . . . . . . . .",
        ". . . . . . . . .",
        ". . . . . . . . .",
        ". . . . . . . . .",
        ". . . . . . . . .",
    ]);
    let solutions = solve(&mut board);
    assert_eq!(solutions.len(), 0);
}

#[test]
fn canonical_puzzle_unique_solution() {
    let mut board = board_from([
        "5 3 . . 7 . . . .",
        "6 . . 1 9 5 . . .",
        ". 9 8 . . . . 6 .",
        "8 . . . 6 . . . 3",
        "4 . . 8 . 3 . . 1",
        "7 . . . 2 . . . 6",
        ". 6 . . . . 2 8 .",
        ". . . 4 1 9 . . 5",
        ". . . . 8 . . 7 9",
    ]);
    let solutions = solve(&mut board);
    assert_eq!(solutions.len(), 1);
    let expected = [
        "5 3 4 6 7 8 9 1 2",
        "6 7 2 1 9 5 3 4 8",
        "1 9 8 3 4 2 5 6 7",
        "8 5 9 7 6 1 4 2 3",
        "4 2 6 8 5 3 7 9 1",
        "7 1 3 9 2 4 8 5 6",
        "9 6 1 5 3 7 2 8 4",
        "2 8 7 4 1 9 6 3 5",
        "3 4 5 2 8 6 1 7 9",
    ];
    let lines = solutions[0].render();
    for (line, want) in lines.iter().zip(expected.iter()) {
        assert_eq!(line, want);
    }
}

#[test]
fn solutions_satisfy_constraints() {
    let mut board = board_from([
        ". . . 2 6 . 7 . 1",
        "6 8 . . 7 . . 9 .",
        "1 9 . . . 4 5 . .",
        "8 2 . 1 . . . 4 .",
        ". . 4 6 . 2 9 . .",
        ". 5 . . . 3 . 2 8",
        ". . 9 3 . . . 7 4",
        ". 4 . . 5 . . 3 6",
        "7 . 3 . 1 8 . . .",
    ]);
    let solutions = solve(&mut board);
    assert!(solutions.len() >= 1);
    for solution in solutions.iter() {
        assert_valid_full_grid(solution);
    }
}

#[test]
fn solve_restores_board() {
    let rows = [
        "5 3 . . 7 . . . .",
        "6 . . 1 9 5 . . .",
        ". 9 8 . . . . 6 .",
        "8 . . . 6 . . . 3",
        "4 . . 8 . 3 . . 1",
        "7 . . . 2 . . . 6",
        ". 6 . . . . 2 8 .",
        ". . . 4 1 9 . . 5",
        ". . . . 8 . . 7 9",
    ];
    let mut board = board_from(rows);
    let before = board;
    let _ = solve(&mut board);
    assert_eq!(board, before);
}

#[test]
fn solve_helper_appends_to_accumulator() {
    let mut board = full_consistent_board();
    let before = board;
    let mut solutions = vec![before];
    solve_helper(&mut board, &mut solutions);
    assert_eq!(solutions.len(), 2);
    assert_eq!(solutions[0], before);
    assert_eq!(solutions[1], before);
    assert_eq!(board, before);
}

#[test]
fn one_empty_cell_unique_completion() {
    // Clearing a single cell of a valid full grid leaves exactly one
    // completion: the grid it was cleared from.
    let full = full_consistent_board();
    let mut board = full;
    board.reset(0, 0);
    let solutions = solve(&mut board);
    assert_eq!(solutions.len(), 1);
    assert_eq!(solutions[0], full);
}
