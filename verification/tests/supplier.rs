use sudoku_tui::board::{Command, SudokuBoard};
use sudoku_tui::model::BoardState;
use sudoku_tui::supplier::matrix_from_bytes;

fn cells(board: &SudokuBoard) -> [[u8; 9]; 9] {
    let mut m = [[0u8; 9]; 9];
    for r in 0..9 {
        for c in 0..9 {
            m[r][c] = board.value([r, c]);
        }
    }
    m
}

/// Every row, column and box of `m` holds each digit once.
fn is_solved(m: &[[u8; 9]; 9]) -> bool {
    for u in 0..9 {
        let mut row = [false; 10];
        let mut col = [false; 10];
        let mut boxed = [false; 10];
        for k in 0..9 {
            row[m[u][k] as usize] = true;
            col[m[k][u] as usize] = true;
            boxed[m[u / 3 * 3 + k / 3][u % 3 * 3 + k % 3] as usize] = true;
        }
        let full = |seen: [bool; 10]| (1..10).all(|d| seen[d]);
        if !(full(row) && full(col) && full(boxed)) {
            return false;
        }
    }
    true
}

/// Checks what a session from the generator looks like before any play.
fn check_generated(board: &SudokuBoard) {
    let grid = cells(board);
    let mut blanks = 0;
    let mut first = None;
    for r in 0..9 {
        for c in 0..9 {
            assert!(grid[r][c] <= 9);
            assert_eq!(board.is_editable([r, c]), grid[r][c] == 0);
            if grid[r][c] == 0 {
                blanks += 1;
                if first.is_none() {
                    first = Some([r, c]);
                }
            }
        }
    }
    assert!(blanks > 0);
    assert_eq!(Some(board.focus()), first);
    assert_eq!((board.moves(), board.undos(), board.hints()), (0, 0, 0));
    assert_eq!((board.history_len(), board.redo_len()), (0, 0));
    assert_eq!(board.conflict(), None);
}

#[test]
fn bytes_are_laid_out_row_by_row() {
    let mut bytes = [0u8; 81];
    for (i, b) in bytes.iter_mut().enumerate() {
        *b = i as u8;
    }
    let m = matrix_from_bytes(&bytes);
    for r in 0..9 {
        for c in 0..9 {
            assert_eq!(m[r][c] as usize, 9 * r + c);
        }
    }
}

#[test]
fn the_generator_gives_a_puzzle_with_empty_cells() {
    let board = SudokuBoard::new();
    assert_eq!(board.state(), BoardState::Config);
    check_generated(&board);
}

#[test]
fn hints_fill_a_generated_puzzle_with_its_answer() {
    let mut board = SudokuBoard::new();
    assert!(board.start());
    assert_eq!(board.state(), BoardState::Playing);
    check_generated(&board);
    let puzzle = cells(&board);
    let mut blanks = 0;
    for r in 0..9 {
        for c in 0..9 {
            if puzzle[r][c] == 0 {
                blanks += 1;
            }
        }
    }
    for given in 1..=blanks {
        assert_eq!(board.state(), BoardState::Playing);
        board.hint();
        assert_eq!(board.hints(), given);
    }
    assert_eq!(board.state(), BoardState::Finish);
    let answer = cells(&board);
    assert!(is_solved(&answer));
    for r in 0..9 {
        for c in 0..9 {
            assert!(puzzle[r][c] == 0 || puzzle[r][c] == answer[r][c]);
            assert!(!board.is_editable([r, c]));
        }
    }
}

#[test]
fn restart_draws_a_new_puzzle() {
    let mut board = SudokuBoard::new();
    assert!(board.start());
    board.fill(1);
    board.undo();
    board.restart();
    assert_eq!(board.state(), BoardState::Config);
    check_generated(&board);
}

#[test]
fn start_is_a_command() {
    let mut board = SudokuBoard::new();
    assert!(board.handle(Command::Start));
    assert_eq!(board.state(), BoardState::Playing);
    check_generated(&board);
    assert!(!board.handle(Command::Start));
    assert!(board.handle(Command::Restart));
    assert_eq!(board.state(), BoardState::Config);
    check_generated(&board);
}

#[test]
fn random_hints_pick_every_editable_cell_sooner_or_later() {
    let mut m = [[1u8; 9]; 9];
    m[0][0] = 0;
    m[8][8] = 0;
    let mut first = 0;
    let mut last = 0;
    for _ in 0..200 {
        let mut board = SudokuBoard::from_puzzle([[1u8; 9]; 9], m).unwrap();
        assert!(board.start_with([[1u8; 9]; 9], m));
        board.hint();
        if board.is_editable([0, 0]) {
            assert!(!board.is_editable([8, 8]));
            last += 1;
        } else {
            assert!(board.is_editable([8, 8]));
            first += 1;
        }
    }
    assert!(first > 0 && last > 0);
}
