use sudoku_tui::sudoku::Sudoku;

fn empty() -> [[u8; 9]; 9] {
    [[0u8; 9]; 9]
}

/// A valid solved grid.
fn solved() -> [[u8; 9]; 9] {
    let mut m = [[0u8; 9]; 9];
    for r in 0..9 {
        for c in 0..9 {
            m[r][c] = ((r * 3 + r / 3 + c) % 9) as u8 + 1;
        }
    }
    m
}

#[test]
fn empty_cells_are_the_editable_ones() {
    let mut m = empty();
    m[0][1] = 5;
    m[8][8] = 9;
    let grid = Sudoku::from_matrix(m);
    for r in 0..9 {
        for c in 0..9 {
            assert_eq!(grid.get([r, c]), m[r][c]);
            assert_eq!(grid.is_available([r, c]), m[r][c] == 0);
            assert_eq!(grid.available[r][c], m[r][c] == 0);
        }
    }
}

#[test]
fn from_and_into_build_the_same_grid() {
    let mut m = empty();
    m[3][4] = 7;
    let a = Sudoku::from(m);
    let b: Sudoku = m.into();
    let c = Sudoku::from_matrix(m);
    assert_eq!(a.to_string(), c.to_string());
    assert_eq!(b.to_string(), c.to_string());
    assert_eq!(a.available, c.available);
    assert_eq!(b.available, c.available);
    assert!(!a.is_available([3, 4]));
}

#[test]
fn set_writes_one_cell_and_keeps_the_mask() {
    let mut grid = Sudoku::from_matrix(solved());
    grid.set([4, 4], 0);
    assert_eq!(grid.get([4, 4]), 0);
    assert!(!grid.is_available([4, 4]));
    let m = solved();
    for r in 0..9 {
        for c in 0..9 {
            if (r, c) != (4, 4) {
                assert_eq!(grid.get([r, c]), m[r][c]);
            }
        }
    }
}

#[test]
fn set_available_changes_the_mask_only() {
    let mut grid = Sudoku::from_matrix(empty());
    assert!(grid.is_available([2, 3]));
    grid.set_available([2, 3], false);
    assert!(!grid.is_available([2, 3]));
    assert!(grid.is_available([3, 2]));
    assert_eq!(grid.get([2, 3]), 0);
    grid.set_available([2, 3], true);
    assert!(grid.is_available([2, 3]));
}

#[test]
fn finished_needs_all_81_cells() {
    let mut grid = Sudoku::from_matrix(solved());
    assert!(grid.finished());
    grid.set([8, 8], 0);
    assert!(!grid.finished());
    grid.set([8, 8], 3);
    assert!(grid.finished());
    assert!(!Sudoku::from_matrix(empty()).finished());
}

#[test]
fn finished_does_not_check_the_rules() {
    let grid = Sudoku::from_matrix([[1u8; 9]; 9]);
    assert!(grid.finished());
}

#[test]
fn conflict_in_row_is_reported() {
    let mut m = empty();
    m[0][1] = 5;
    let grid = Sudoku::from_matrix(m);
    assert_eq!(grid.conflict(5, [0, 0]), Some([0, 1]));
    assert_eq!(grid.conflict(5, [0, 8]), Some([0, 1]));
}

#[test]
fn conflict_in_column_is_reported() {
    let mut m = empty();
    m[7][2] = 4;
    let grid = Sudoku::from_matrix(m);
    assert_eq!(grid.conflict(4, [0, 2]), Some([7, 2]));
}

#[test]
fn conflict_in_box_is_reported() {
    let mut m = empty();
    m[4][5] = 8;
    let grid = Sudoku::from_matrix(m);
    assert_eq!(grid.conflict(8, [3, 3]), Some([4, 5]));
    assert_eq!(grid.conflict(8, [5, 4]), Some([4, 5]));
}

#[test]
fn no_conflict_without_the_digit_in_any_unit() {
    let mut m = empty();
    m[4][5] = 8;
    let grid = Sudoku::from_matrix(m);
    assert_eq!(grid.conflict(8, [0, 0]), None);
    assert_eq!(grid.conflict(8, [6, 6]), None);
    assert_eq!(grid.conflict(7, [4, 4]), None);
    assert_eq!(grid.conflict(8, [3, 6]), None);
}

#[test]
fn a_cell_never_conflicts_with_itself() {
    let mut m = empty();
    m[4][5] = 8;
    let grid = Sudoku::from_matrix(m);
    assert_eq!(grid.conflict(8, [4, 5]), None);
}

#[test]
fn row_comes_before_column_and_box() {
    let mut m = empty();
    m[0][0] = 6; // same box
    m[5][1] = 6; // same column
    m[1][7] = 6; // same row
    let grid = Sudoku::from_matrix(m);
    assert_eq!(grid.conflict(6, [1, 1]), Some([1, 7]));
}

#[test]
fn column_comes_before_box() {
    let mut m = empty();
    m[0][0] = 6; // same box
    m[5][1] = 6; // same column
    let grid = Sudoku::from_matrix(m);
    assert_eq!(grid.conflict(6, [1, 1]), Some([5, 1]));
}

#[test]
fn row_is_scanned_from_the_left() {
    let mut m = empty();
    m[2][6] = 3;
    m[2][1] = 3;
    let grid = Sudoku::from_matrix(m);
    assert_eq!(grid.conflict(3, [2, 4]), Some([2, 1]));
}

#[test]
fn column_is_scanned_from_the_top() {
    let mut m = empty();
    m[8][4] = 3;
    m[6][4] = 3;
    let grid = Sudoku::from_matrix(m);
    assert_eq!(grid.conflict(3, [0, 4]), Some([6, 4]));
}

#[test]
fn box_is_scanned_row_by_row() {
    let mut m = empty();
    m[8][6] = 2;
    m[7][8] = 2;
    let grid = Sudoku::from_matrix(m);
    assert_eq!(grid.conflict(2, [6, 7]), Some([7, 8]));
}

#[test]
fn no_conflict_means_no_clash_after_writing() {
    let m = solved();
    for r in 0..9 {
        for c in 0..9 {
            let mut grid = Sudoku::from_matrix(m);
            grid.set([r, c], 0);
            for v in 1..=9u8 {
                let hit = grid.conflict(v, [r, c]);
                assert_eq!(hit.is_none(), v == m[r][c]);
                if hit.is_none() {
                    grid.set([r, c], v);
                    for q in 0..9 {
                        assert!(q == c || grid.get([r, q]) != v);
                        assert!(q == r || grid.get([q, c]) != v);
                    }
                    for i in r / 3 * 3..r / 3 * 3 + 3 {
                        for j in c / 3 * 3..c / 3 * 3 + 3 {
                            assert!((i, j) == (r, c) || grid.get([i, j]) != v);
                        }
                    }
                    grid.set([r, c], 0);
                }
            }
        }
    }
}

#[test]
fn text_has_a_line_for_each_row() {
    let grid = Sudoku::from_matrix(solved());
    let expected = "1 2 3 4 5 6 7 8 9 \n\
                    4 5 6 7 8 9 1 2 3 \n\
                    7 8 9 1 2 3 4 5 6 \n\
                    2 3 4 5 6 7 8 9 1 \n\
                    5 6 7 8 9 1 2 3 4 \n\
                    8 9 1 2 3 4 5 6 7 \n\
                    3 4 5 6 7 8 9 1 2 \n\
                    6 7 8 9 1 2 3 4 5 \n\
                    9 1 2 3 4 5 6 7 8 \n";
    assert_eq!(grid.to_string(), expected);
}

#[test]
fn text_writes_numbers_in_decimal() {
    let mut m = empty();
    m[0][0] = 10;
    m[0][1] = 99;
    m[0][2] = 100;
    m[0][3] = 255;
    m[0][4] = 207;
    let grid = Sudoku::from_matrix(m);
    let text = grid.to_string();
    let first = text.lines().next().unwrap();
    assert_eq!(first, "10 99 100 255 207 0 0 0 0 ");
    assert_eq!(text.lines().count(), 9);
}
