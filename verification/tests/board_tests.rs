use sudoku::board::{parse_token, Board, Number};

const DIGITS: [Number; 9] = [
    Number::N1,
    Number::N2,
    Number::N3,
    Number::N4,
    Number::N5,
    Number::N6,
    Number::N7,
    Number::N8,
    Number::N9,
];

fn board_from(rows: [&str; 9]) -> Board {
    let mut field = [None; 81];
    for (i, row) in rows.iter().enumerate() {
        for (j, tok) in row.split_whitespace().enumerate() {
            field[i * 9 + j] = parse_token(tok);
        }
    }
    Board::new(field)
}

fn board_cell_filled(board: &Board, r: usize, c: usize) -> bool {
    let lines = board.render();
    let symbols: Vec<&str> = lines[r].split_whitespace().collect();
    symbols[c] != "*"
}

#[test]
fn parse_token_cases() {
    assert_eq!(parse_token("1"), Some(Number::N1));
    assert_eq!(parse_token("5"), Some(Number::N5));
    assert_eq!(parse_token("9"), Some(Number::N9));
    assert_eq!(parse_token("0"), None);
    assert_eq!(parse_token("."), None);
    assert_eq!(parse_token("*"), None);
    assert_eq!(parse_token(""), None);
    assert_eq!(parse_token("10"), None);
    assert_eq!(parse_token("x"), None);
}

#[test]
fn empty_board_all_placeable() {
    let board = Board::new([None; 81]);
    for i in 0..9 {
        for j in 0..9 {
            for d in DIGITS.iter() {
                assert!(board.can_set(i, j, *d));
            }
        }
    }
}

#[test]
fn place_excludes_row_col_box() {
    let mut board = Board::new([None; 81]);
    board.set(4, 5, Number::N7);
    for c in 0..9 {
        if c != 5 {
            assert!(!board.can_set(4, c, Number::N7));
        }
    }
    for r in 0..9 {
        if r != 4 {
            assert!(!board.can_set(r, 5, Number::N7));
        }
    }
    for r in 3..6 {
        for c in 3..6 {
            if !(r == 4 && c == 5) {
                assert!(!board.can_set(r, c, Number::N7));
            }
        }
    }
    // Cells sharing no row, column, or box with (4, 5) are unaffected.
    assert!(board.can_set(0, 0, Number::N7));
    assert!(board.can_set(8, 8, Number::N7));
    // Other digits stay placeable everywhere.
    assert!(board.can_set(4, 0, Number::N1));
    assert!(board.can_set(3, 4, Number::N9));
}

#[test]
fn place_clear_restores() {
    let mut board = board_from([
        "5 3 . . 7 . . . .",
        "6 . . 1 9 5 . . .",
        ". 9 8 . . . . 6 .",
        "8 . . . 6 . . . 3",
        "4 . . 8 . 3 . . 1",
        "7 . . . 2 . . . 6",
        ". 6 . . . . 2 8 .",
        ". . . 4 1 9 . . 5",
        ". . . . 8 . . 7 9",
    ]);
    let mut before = Vec::new();
    for i in 0..9 {
        for j in 0..9 {
            for d in DIGITS.iter() {
                before.push(board.can_set(i, j, *d));
            }
        }
    }
    // (0, 2) is empty in this board.
    board.set(0, 2, Number::N4);
    board.reset(0, 2);
    let mut idx = 0;
    for i in 0..9 {
        for j in 0..9 {
            for d in DIGITS.iter() {
                assert_eq!(board.can_set(i, j, *d), before[idx]);
                idx += 1;
            }
        }
    }
}

#[test]
fn render_empty_and_digits() {
    let empty = Board::new([None; 81]);
    let lines = empty.render();
    assert_eq!(lines.len(), 9);
    for line in lines.iter() {
        assert_eq!(line, "* * * * * * * * *");
    }
    let mut board = Board::new([None; 81]);
    board.set(0, 0, Number::N1);
    board.set(0, 8, Number::N9);
    board.set(8, 4, Number::N5);
    let lines = board.render();
    assert_eq!(lines[0], "1 * * * * * * * 9");
    assert_eq!(lines[8], "* * * * 5 * * * *");
}

#[test]
fn find_empty_prefers_most_constrained() {
    let mut board = Board::new([None; 81]);
    for (c, d) in DIGITS.iter().take(7).enumerate() {
        board.set(0, c, *d);
    }
    // (0, 7) and (0, 8) each have exactly the candidates {8, 9}; every
    // other empty cell has more.
    let (i, j, cands) = board.find_empty().unwrap();
    assert_eq!((i, j), (0, 7));
    assert_eq!(cands, vec![Number::N8, Number::N9]);
    // The chosen cell's candidate count never exceeds any empty cell's.
    for r in 0..9 {
        for c in 0..9 {
            if !board_cell_filled(&board, r, c) {
                let count = DIGITS.iter().filter(|d| board.can_set(r, c, **d)).count();
                assert!(count >= cands.len());
            }
        }
    }
}

#[test]
fn find_empty_first_wins_ties() {
    let board = Board::new([None; 81]);
    let (i, j, cands) = board.find_empty().unwrap();
    assert_eq!((i, j), (0, 0));
    assert_eq!(cands, DIGITS.to_vec());
}

#[test]
fn find_empty_none_on_full() {
    let mut field = [None; 81];
    for r in 0..9 {
        for c in 0..9 {
            let v = ((3 * r + r / 3 + c) % 9 + 1) as u8;
            field[r * 9 + c] = Some(Number::from_val(v));
        }
    }
    let board = Board::new(field);
    assert!(board.find_empty().is_none());
}
