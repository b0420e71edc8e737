use sudoku_tui::board::{Command, SudokuBoard};
use sudoku_tui::model::{BoardState, Direction};

/// A valid solved grid.
fn solved() -> [[u8; 9]; 9] {
    let mut m = [[0u8; 9]; 9];
    for r in 0..9 {
        for c in 0..9 {
            m[r][c] = ((r * 3 + r / 3 + c) % 9) as u8 + 1;
        }
    }
    m
}

/// The solved grid with the given cells emptied.
fn puzzle(blanks: &[[usize; 2]]) -> [[u8; 9]; 9] {
    let mut m = solved();
    for b in blanks {
        m[b[0]][b[1]] = 0;
    }
    m
}

/// A session in play on the solved grid with the given cells emptied.
fn playing(blanks: &[[usize; 2]]) -> SudokuBoard {
    let mut board = SudokuBoard::from_puzzle(solved(), puzzle(blanks)).unwrap();
    assert!(board.start_with(solved(), puzzle(blanks)));
    board
}

fn cells(board: &SudokuBoard) -> [[u8; 9]; 9] {
    let mut m = [[0u8; 9]; 9];
    for r in 0..9 {
        for c in 0..9 {
            m[r][c] = board.value([r, c]);
        }
    }
    m
}

fn mask(board: &SudokuBoard) -> [[bool; 9]; 9] {
    let mut m = [[false; 9]; 9];
    for r in 0..9 {
        for c in 0..9 {
            m[r][c] = board.is_editable([r, c]);
        }
    }
    m
}

#[test]
fn a_fresh_session_waits_for_a_start() {
    let blanks = [[2, 5], [1, 7], [6, 0]];
    let board = SudokuBoard::from_puzzle(solved(), puzzle(&blanks)).unwrap();
    assert_eq!(board.state(), BoardState::Config);
    assert_eq!(board.focus(), [1, 7]);
    assert_eq!(board.conflict(), None);
    assert_eq!((board.moves(), board.undos(), board.hints()), (0, 0, 0));
    assert_eq!((board.history_len(), board.redo_len()), (0, 0));
    assert_eq!(cells(&board), puzzle(&blanks));
    for r in 0..9 {
        for c in 0..9 {
            assert_eq!(board.is_editable([r, c]), blanks.contains(&[r, c]));
        }
    }
}

#[test]
fn a_puzzle_without_an_empty_cell_gives_no_session() {
    assert!(SudokuBoard::from_puzzle(solved(), solved()).is_none());
}

#[test]
fn start_is_taken_only_while_waiting() {
    let blanks = [[0, 0], [4, 4]];
    let mut board = playing(&blanks);
    assert_eq!(board.state(), BoardState::Playing);
    board.fill(1);
    assert_eq!(board.moves(), 1);
    assert!(!board.start_with(solved(), puzzle(&[[8, 8]])));
    assert_eq!(board.state(), BoardState::Playing);
    assert_eq!(board.moves(), 1);
    assert_eq!(board.focus(), [0, 0]);
}

#[test]
fn start_refuses_a_puzzle_without_an_empty_cell() {
    let mut board = SudokuBoard::from_puzzle(solved(), puzzle(&[[3, 3]])).unwrap();
    assert!(!board.start_with(solved(), solved()));
    assert_eq!(board.state(), BoardState::Config);
    assert_eq!(board.focus(), [3, 3]);
    assert_eq!(board.value([3, 3]), 0);
}

#[test]
fn start_installs_the_new_puzzle() {
    let mut board = SudokuBoard::from_puzzle(solved(), puzzle(&[[3, 3]])).unwrap();
    assert!(board.start_with(solved(), puzzle(&[[5, 5], [7, 1]])));
    assert_eq!(board.state(), BoardState::Playing);
    assert_eq!(board.focus(), [5, 5]);
    assert_eq!(cells(&board), puzzle(&[[5, 5], [7, 1]]));
    assert!(!board.is_editable([3, 3]));
    assert!(board.is_editable([7, 1]));
}

#[test]
fn fill_with_a_clashing_digit_is_rejected() {
    // One empty cell at (0, 0), and a 5 next to it at (0, 1).
    let mut answer = solved();
    answer[0][1] = 5;
    let mut start = answer;
    start[0][0] = 0;
    let mut board = SudokuBoard::from_puzzle(answer, start).unwrap();
    assert!(board.start_with(answer, start));
    assert_eq!(board.focus(), [0, 0]);
    board.fill(5);
    assert_eq!(board.conflict(), Some([0, 1]));
    assert_eq!(board.value([0, 0]), 0);
    assert_eq!(board.moves(), 1);
    assert_eq!(board.history_len(), 0);
    assert_eq!(board.state(), BoardState::Playing);
}

#[test]
fn the_last_correct_fill_ends_the_game() {
    let mut board = playing(&[[6, 2]]);
    let before = board.moves();
    board.fill(solved()[6][2]);
    assert_eq!(board.state(), BoardState::Finish);
    assert_eq!(board.moves(), before + 1);
    assert_eq!(cells(&board), solved());
    assert_eq!(board.conflict(), None);
    assert_eq!(board.history_len(), 1);
}

#[test]
fn undo_on_an_empty_history_only_counts() {
    let mut board = playing(&[[1, 1], [2, 2]]);
    let grid = cells(&board);
    let focus = board.focus();
    board.undo();
    assert_eq!(board.undos(), 1);
    assert_eq!(cells(&board), grid);
    assert_eq!(board.focus(), focus);
    assert_eq!((board.history_len(), board.redo_len()), (0, 0));
    board.undo();
    assert_eq!(board.undos(), 2);
}

#[test]
fn a_fill_that_fits_is_written_and_recorded() {
    let mut board = playing(&[[1, 1], [2, 2]]);
    let v = solved()[1][1];
    board.fill(v);
    assert_eq!(board.value([1, 1]), v);
    assert_eq!(board.moves(), 1);
    assert_eq!(board.history_len(), 1);
    assert_eq!(board.conflict(), None);
    assert_eq!(board.state(), BoardState::Playing);
    assert!(board.is_editable([1, 1]));
}

#[test]
fn a_fill_that_fits_clears_the_remembered_conflict() {
    let mut board = playing(&[[1, 1], [2, 2]]);
    let v = solved()[1][1];
    board.fill(solved()[1][2]);
    assert_eq!(board.conflict(), Some([1, 2]));
    assert_eq!(board.value([1, 1]), 0);
    board.fill(v);
    assert_eq!(board.conflict(), None);
    assert_eq!(board.value([1, 1]), v);
    assert_eq!(board.moves(), 2);
    assert_eq!(board.history_len(), 1);
}

#[test]
fn a_rejected_fill_keeps_the_digit_that_was_there() {
    let mut board = playing(&[[1, 1], [2, 2]]);
    let v = solved()[1][1];
    board.fill(v);
    board.fill(solved()[1][2]);
    assert_eq!(board.value([1, 1]), v);
    assert_eq!(board.history_len(), 1);
    assert_eq!(board.moves(), 2);
}

#[test]
fn undo_then_redo_restores_the_grid() {
    let mut board = playing(&[[1, 1], [2, 2]]);
    let v = solved()[1][1];
    board.fill(v);
    let filled = cells(&board);
    board.undo();
    assert_eq!(board.value([1, 1]), 0);
    assert_eq!((board.history_len(), board.redo_len()), (0, 1));
    board.redo();
    assert_eq!(cells(&board), filled);
    assert_eq!(board.value([1, 1]), v);
    assert_eq!(board.redo_len(), 0);
    assert_eq!(board.history_len(), 0);
    assert_eq!(board.undos(), 1);
    assert_eq!(board.moves(), 1);
}

#[test]
fn undo_takes_back_the_latest_fill_first() {
    let mut board = playing(&[[1, 1], [2, 2], [7, 7]]);
    board.fill(solved()[1][1]);
    board.move_focus_next();
    assert_eq!(board.focus(), [2, 2]);
    board.fill(9);
    assert_eq!(board.value([2, 2]), 9);
    board.undo();
    assert_eq!(board.value([2, 2]), 0);
    assert_eq!(board.value([1, 1]), solved()[1][1]);
    board.undo();
    assert_eq!(board.value([1, 1]), 0);
    assert_eq!(board.redo_len(), 2);
    board.redo();
    assert_eq!(board.value([1, 1]), solved()[1][1]);
    assert_eq!(board.value([2, 2]), 0);
    board.redo();
    assert_eq!(board.value([2, 2]), 9);
}

#[test]
fn redo_on_an_empty_stack_changes_nothing() {
    let mut board = playing(&[[1, 1], [2, 2]]);
    board.fill(solved()[1][1]);
    let grid = cells(&board);
    board.redo();
    assert_eq!(cells(&board), grid);
    assert_eq!((board.history_len(), board.redo_len()), (1, 0));
    assert_eq!((board.moves(), board.undos(), board.hints()), (1, 0, 0));
}

#[test]
fn redo_does_not_end_the_game() {
    let mut board = playing(&[[1, 1], [2, 2]]);
    board.fill(solved()[1][1]);
    board.undo();
    board.move_focus_next();
    board.fill(solved()[2][2]);
    assert_eq!(board.state(), BoardState::Playing);
    board.redo();
    assert_eq!(cells(&board), solved());
    assert_eq!(board.state(), BoardState::Playing);
}

#[test]
fn hint_reveals_the_drawn_cell() {
    let blanks = [[0, 3], [4, 4], [8, 1]];
    for draw in 0..7usize {
        let mut board = playing(&blanks);
        board.hint_with(draw);
        let picked = blanks[draw % 3];
        assert_eq!(board.hints(), 1);
        assert_eq!(board.value(picked), solved()[picked[0]][picked[1]]);
        assert!(!board.is_editable(picked));
        for b in blanks {
            if b != picked {
                assert_eq!(board.value(b), 0);
                assert!(board.is_editable(b));
            }
        }
        assert_eq!(board.history_len(), 0);
        assert_eq!(board.state(), BoardState::Playing);
    }
}

#[test]
fn hint_takes_a_large_draw_modulo_the_count() {
    let blanks = [[0, 3], [4, 4], [8, 1]];
    let mut board = playing(&blanks);
    board.hint_with(usize::MAX);
    let picked = blanks[usize::MAX % 3];
    assert!(!board.is_editable(picked));
    assert_eq!(board.hints(), 1);
}

#[test]
fn a_hinted_cell_is_not_picked_again() {
    let blanks = [[0, 3], [4, 4], [8, 1]];
    let mut board = playing(&blanks);
    board.hint_with(1);
    assert!(!board.is_editable([4, 4]));
    board.hint_with(1);
    assert!(!board.is_editable([8, 1]));
    assert_eq!(board.value([8, 1]), solved()[8][1]);
    board.hint_with(1);
    assert!(!board.is_editable([0, 3]));
    assert_eq!(board.hints(), 3);
    assert_eq!(board.state(), BoardState::Finish);
}

#[test]
fn hint_without_an_editable_cell_does_nothing() {
    let mut board = playing(&[[0, 3], [4, 4]]);
    board.hint_with(0);
    assert_eq!(board.hints(), 1);
    assert_eq!(board.state(), BoardState::Playing);
    board.hint_with(0);
    assert_eq!(board.hints(), 2);
    assert_eq!(board.state(), BoardState::Finish);
    assert!(board.acknowledge());
    assert!(board.start_with(solved(), puzzle(&[[0, 0]])));
    board.hint_with(5);
    assert_eq!(board.hints(), 1);
    assert_eq!(board.state(), BoardState::Finish);
}

#[test]
fn the_last_hint_ends_the_game() {
    let mut board = playing(&[[6, 2]]);
    board.hint();
    assert_eq!(board.state(), BoardState::Finish);
    assert_eq!(board.hints(), 1);
    assert_eq!(cells(&board), solved());
    assert_eq!(board.history_len(), 0);
}

#[test]
fn a_random_hint_reveals_one_editable_cell() {
    let blanks = [[0, 3], [4, 4], [8, 1], [8, 8]];
    let mut board = playing(&blanks);
    let before = mask(&board);
    board.hint();
    assert_eq!(board.hints(), 1);
    let after = mask(&board);
    let mut flipped = Vec::new();
    for r in 0..9 {
        for c in 0..9 {
            if before[r][c] != after[r][c] {
                flipped.push([r, c]);
            }
        }
    }
    assert_eq!(flipped.len(), 1);
    let p = flipped[0];
    assert!(before[p[0]][p[1]] && !after[p[0]][p[1]]);
    assert_eq!(board.value(p), solved()[p[0]][p[1]]);
    for b in blanks {
        if b != p {
            assert_eq!(board.value(b), 0);
        }
    }
}

#[test]
fn clues_keep_their_digits_through_play() {
    let blanks = [[0, 3], [4, 4], [8, 1], [8, 8]];
    let mut board = playing(&blanks);
    let start = cells(&board);
    let clue = |p: [usize; 2]| !blanks.contains(&p);
    board.fill(solved()[0][3]);
    board.move_focus_next();
    board.fill(1);
    board.fill(solved()[4][4]);
    board.undo();
    board.undo();
    board.redo();
    board.move_focus_prev();
    board.hint_with(2);
    board.fill(2);
    board.undo();
    for r in 0..9 {
        for c in 0..9 {
            if clue([r, c]) {
                assert_eq!(board.value([r, c]), start[r][c]);
                assert!(!board.is_editable([r, c]));
            }
        }
    }
    assert!(!board.is_editable([8, 1]));
}

#[test]
fn commands_of_play_wait_for_the_start() {
    let blanks = [[1, 1], [2, 2]];
    let mut board = SudokuBoard::from_puzzle(solved(), puzzle(&blanks)).unwrap();
    board.fill(solved()[1][1]);
    board.undo();
    board.redo();
    board.hint();
    board.hint_with(1);
    board.move_focus_next();
    board.move_focus(Direction::Down);
    assert!(!board.press(3, 3));
    assert!(!board.acknowledge());
    assert_eq!(board.state(), BoardState::Config);
    assert_eq!(cells(&board), puzzle(&blanks));
    assert_eq!(board.focus(), [1, 1]);
    assert_eq!((board.moves(), board.undos(), board.hints()), (0, 0, 0));
    assert_eq!((board.history_len(), board.redo_len()), (0, 0));
    assert!(board.is_editable([1, 1]) && board.is_editable([2, 2]));
}

#[test]
fn a_finished_game_takes_no_command_of_play() {
    let mut board = playing(&[[6, 2]]);
    board.fill(solved()[6][2]);
    assert_eq!(board.state(), BoardState::Finish);
    board.fill(1);
    board.undo();
    board.redo();
    board.hint();
    board.move_focus_up();
    assert_eq!(board.state(), BoardState::Finish);
    assert_eq!(cells(&board), solved());
    assert_eq!((board.moves(), board.undos(), board.hints()), (1, 0, 0));
    assert_eq!((board.history_len(), board.redo_len()), (1, 0));
}

#[test]
fn acknowledge_leaves_the_finished_game() {
    let mut board = playing(&[[6, 2]]);
    assert!(!board.acknowledge());
    assert_eq!(board.state(), BoardState::Playing);
    board.fill(solved()[6][2]);
    assert!(board.acknowledge());
    assert_eq!(board.state(), BoardState::Config);
    assert_eq!(cells(&board), solved());
    assert_eq!(board.moves(), 1);
    assert!(!board.acknowledge());
}

#[test]
fn restart_gives_a_fresh_session() {
    let mut board = playing(&[[1, 1], [2, 2]]);
    board.fill(solved()[1][1]);
    board.undo();
    board.hint_with(0);
    assert!(board.restart_with(solved(), puzzle(&[[5, 0]])));
    assert_eq!(board.state(), BoardState::Config);
    assert_eq!(board.focus(), [5, 0]);
    assert_eq!((board.moves(), board.undos(), board.hints()), (0, 0, 0));
    assert_eq!((board.history_len(), board.redo_len()), (0, 0));
    assert_eq!(cells(&board), puzzle(&[[5, 0]]));
    assert!(!board.restart_with(solved(), solved()));
    assert_eq!(board.focus(), [5, 0]);
}

#[test]
fn handle_says_whether_the_phase_took_the_command() {
    let mut board = SudokuBoard::from_puzzle(solved(), puzzle(&[[1, 1], [2, 2]])).unwrap();
    assert!(!board.handle(Command::Fill(3)));
    assert!(!board.handle(Command::Hint));
    assert!(!board.handle(Command::Undo));
    assert!(!board.handle(Command::Redo));
    assert!(!board.handle(Command::Move(Direction::Next)));
    assert!(!board.handle(Command::Press(2, 2)));
    assert!(!board.handle(Command::Acknowledge));
    assert_eq!(board.state(), BoardState::Config);
    assert!(board.start_with(solved(), puzzle(&[[1, 1], [2, 2]])));
    assert!(!board.handle(Command::Start));
    assert!(!board.handle(Command::Acknowledge));
    assert!(board.handle(Command::Fill(solved()[1][2])));
    assert_eq!(board.conflict(), Some([1, 2]));
    assert!(board.handle(Command::Fill(solved()[1][1])));
    assert!(board.handle(Command::Undo));
    assert!(board.handle(Command::Redo));
    assert_eq!(board.value([1, 1]), solved()[1][1]);
    assert!(board.handle(Command::Move(Direction::Next)));
    assert_eq!(board.focus(), [2, 2]);
    assert!(board.handle(Command::Press(2, 2)));
    assert_eq!(board.focus(), [1, 1]);
    assert!(board.handle(Command::Press(4, 4)));
    assert!(!board.handle(Command::Press(0, 4)));
    assert!(!board.handle(Command::Press(4, 12)));
    assert!(board.handle(Command::Hint));
    if board.state() == BoardState::Playing {
        // The hint went to the cell that the player had filled already.
        assert!(!board.is_editable([1, 1]));
        assert!(board.handle(Command::Hint));
    }
    assert_eq!(board.state(), BoardState::Finish);
    assert_eq!(board.value([2, 2]), solved()[2][2]);
    assert!(!board.handle(Command::Fill(1)));
    assert!(!board.handle(Command::Start));
    assert!(board.handle(Command::Acknowledge));
    assert_eq!(board.state(), BoardState::Config);
}

#[test]
fn a_fill_may_overwrite_a_cell_revealed_under_the_focus() {
    let mut board = SudokuBoard::from_puzzle(solved(), [[0u8; 9]; 9]).unwrap();
    assert!(board.start_with(solved(), [[0u8; 9]; 9]));
    assert_eq!(board.focus(), [0, 0]);
    board.hint_with(0);
    assert_eq!(board.value([0, 0]), solved()[0][0]);
    assert!(!board.is_editable([0, 0]));
    assert_eq!(board.focus(), [0, 0]);
    board.fill(2);
    assert_eq!(board.conflict(), None);
    assert_eq!(board.value([0, 0]), 2);
    assert!(!board.is_editable([0, 0]));
    board.undo();
    assert_eq!(board.value([0, 0]), 0);
}
