use sudoku_tui::board::SudokuBoard;

fn solved() -> [[u8; 9]; 9] {
    let mut m = [[0u8; 9]; 9];
    for r in 0..9 {
        for c in 0..9 {
            m[r][c] = ((r * 3 + r / 3 + c) % 9) as u8 + 1;
        }
    }
    m
}

fn playing(blanks: &[[usize; 2]]) -> SudokuBoard {
    let mut m = solved();
    for b in blanks {
        m[b[0]][b[1]] = 0;
    }
    let mut board = SudokuBoard::from_puzzle(solved(), m).unwrap();
    assert!(board.start_with(solved(), m));
    board
}

const OFFSETS: [usize; 9] = [1, 2, 3, 5, 6, 7, 9, 10, 11];

#[test]
fn cells_are_shown_between_the_separators() {
    for r in 0..9 {
        for c in 0..9 {
            assert_eq!(SudokuBoard::coord_to_xy([r, c]), (OFFSETS[c], OFFSETS[r]));
        }
    }
}

#[test]
fn offsets_resolve_to_the_cells_shown_there() {
    for y in 0..16 {
        for x in 0..16 {
            let row = OFFSETS.iter().position(|&o| o == y);
            let col = OFFSETS.iter().position(|&o| o == x);
            let expected = match (row, col) {
                (Some(r), Some(c)) => Some([r, c]),
                _ => None,
            };
            assert_eq!(SudokuBoard::xy_to_coord((y, x)), expected);
        }
    }
}

#[test]
fn frame_and_separators_resolve_to_nothing() {
    for bad in [0usize, 4, 8, 12, 13, 100, usize::MAX] {
        assert_eq!(SudokuBoard::xy_to_coord((bad, 1)), None);
        assert_eq!(SudokuBoard::xy_to_coord((1, bad)), None);
    }
}

#[test]
fn resolving_undoes_showing() {
    for r in 0..9 {
        for c in 0..9 {
            let (x, y) = SudokuBoard::coord_to_xy([r, c]);
            assert_eq!(SudokuBoard::xy_to_coord((y, x)), Some([r, c]));
        }
    }
}

#[test]
fn the_focus_is_shown_at_its_cell() {
    let mut board = playing(&[[3, 7], [8, 0]]);
    assert_eq!(board.focus_xy(), (10, 5));
    board.move_focus_next();
    assert_eq!(board.focus_xy(), (1, 11));
}

#[test]
fn a_press_on_an_editable_cell_moves_the_focus() {
    let mut board = playing(&[[3, 7], [8, 0]]);
    assert!(board.press(11, 1));
    assert_eq!(board.focus(), [8, 0]);
    assert!(board.press(5, 10));
    assert_eq!(board.focus(), [3, 7]);
}

#[test]
fn a_press_on_a_clue_is_taken_but_moves_nothing() {
    let mut board = playing(&[[3, 7], [8, 0]]);
    assert!(board.press(1, 1));
    assert_eq!(board.focus(), [3, 7]);
}

#[test]
fn a_press_on_a_separator_is_taken_but_moves_nothing() {
    let mut board = playing(&[[3, 7], [8, 0]]);
    assert!(board.press(4, 1));
    assert!(board.press(11, 8));
    assert_eq!(board.focus(), [3, 7]);
}

#[test]
fn a_press_on_the_frame_is_not_taken() {
    let mut board = playing(&[[3, 7], [8, 0]]);
    assert!(!board.press(0, 1));
    assert!(!board.press(11, 0));
    assert!(!board.press(12, 1));
    assert!(!board.press(11, 12));
    assert!(!board.press(11, 500));
    assert_eq!(board.focus(), [3, 7]);
}
