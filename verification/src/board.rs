//! The play session: a grid, its answer, the focus, the undo and redo
//! stacks, the counters and the phase, with the commands that drive them.

use crate::model::{
    candidates, cell_at, editable_before, has_blank, inside_frame, lemma_editable_before,
    lemma_editable_before_prefix, lemma_minimal_has_blank, lemma_step_back, lemma_step_forward,
    lemma_target_at, lemma_target_stays, lemma_wrap_back, offset_of, on, resolve, ring, slot,
    supplied, target, BoardState, BoardView, Direction,
};
use crate::sudoku::{
    at, blank_mask, grid_view, in_grid, lemma_conflict_is_clash, opt_point, point, Coord, Sudoku,
    SudokuMatrix,
};
use crate::supplier::{
    bytes_grid, generate_from, generate_solved, matrix_from_bytes, random_usize,
};
use vstd::prelude::*;

verus! {

/// Cell addresses as points.
pub open spec fn points(s: Seq<Coord>) -> Seq<(int, int)> {
    s.map_values(|c: Coord| point(c))
}

/// Entries of the redo stack with their cell addresses as points.
pub open spec fn entries(s: Seq<(Coord, u8)>) -> Seq<((int, int), u8)> {
    s.map_values(|e: (Coord, u8)| (point(e.0), e.1))
}

/// A play session.
#[derive(Debug)]
pub struct SudokuBoard {
    ans: SudokuMatrix,
    sudoku: Sudoku,
    focus: [usize; 2],
    history: Vec<[usize; 2]>,
    redo: Vec<([usize; 2], u8)>,
    undos: usize,
    moves: usize,
    hints: usize,
    conflict: Option<[usize; 2]>,
    state: BoardState,
}

impl View for SudokuBoard {
    type V = BoardView;

    closed spec fn view(&self) -> BoardView {
        BoardView {
            answer: grid_view(self.ans),
            cells: self.sudoku@,
            editable: self.sudoku.editable(),
            focus: point(self.focus),
            history: points(self.history@),
            redo: entries(self.redo@),
            moves: self.moves as nat,
            undos: self.undos as nat,
            hints: self.hints as nat,
            conflict: opt_point(self.conflict),
            state: self.state,
        }
    }
}

impl SudokuBoard {
    /// Every stored cell address is one of the 81 cells.
    pub open spec fn wf(&self) -> bool {
        self@.wf()
    }

    /// The first empty cell of `puzzle`, reading row by row.
    fn first_blank(puzzle: &SudokuMatrix) -> (cell: Option<[usize; 2]>)
        ensures
            cell is Some <==> has_blank(grid_view(*puzzle)),
            cell matches Some(c) ==> point(c) == candidates(blank_mask(grid_view(*puzzle))).first()
                && in_grid(point(c)),
    {
        let ghost e = blank_mask(grid_view(*puzzle));
        let mut i: usize = 0;
        while i < 9
            invariant
                i <= 9,
                e == blank_mask(grid_view(*puzzle)),
                editable_before(e, 9 * i).len() == 0,
            decreases 9 - i,
        {
            let mut j: usize = 0;
            while j < 9
                invariant
                    i < 9,
                    j <= 9,
                    e == blank_mask(grid_view(*puzzle)),
                    editable_before(e, 9 * i + j).len() == 0,
                decreases 9 - j,
            {
                assert(cell_at(9 * i + j) == (i as int, j as int));
                assert(on(e, (i as int, j as int)) == (puzzle[i as int][j as int] == 0));
                if puzzle[i][j] == 0 {
                    proof {
                        lemma_editable_before_prefix(e, 9 * i + j + 1, 81);
                    }
                    return Some([i, j]);
                }
                j += 1;
            }
            i += 1;
        }
        None
    }

    /// The session on a given answer and puzzle: the puzzle on the grid, the
    /// focus on its first empty cell, play not yet started. A puzzle without
    /// an empty cell gives no session.
    pub fn from_puzzle(ans: SudokuMatrix, puzzle: SudokuMatrix) -> (board: Option<Self>)
        ensures
            board is Some <==> has_blank(grid_view(puzzle)),
            board matches Some(b) ==> b.wf() && b@ == BoardView::fresh(
                grid_view(ans),
                grid_view(puzzle),
            ),
    {
        match Self::first_blank(&puzzle) {
            Some(focus) => {
                let board = SudokuBoard {
                    ans,
                    sudoku: Sudoku::from_matrix(puzzle),
                    focus,
                    moves: 0,
                    undos: 0,
                    hints: 0,
                    history: Vec::new(),
                    redo: Vec::new(),
                    conflict: None,
                    state: BoardState::Config,
                };
                let ghost f = BoardView::fresh(grid_view(ans), grid_view(puzzle));
                assert(board@.history =~= f.history);
                assert(board@.redo =~= f.redo);
                Some(board)
            },
            None => None,
        }
    }

    /// A session on a puzzle from the generator: the fresh session on a
    /// supplied pair. The generator's puzzles are minimal, so there is an
    /// empty cell for the focus to start on.
    pub fn new() -> (board: Self)
        ensures
            board.wf(),
            exists|answer: Seq<Seq<u8>>, puzzle: Seq<Seq<u8>>|
                supplied(answer, puzzle) && has_blank(puzzle) && board@
                    == #[trigger] BoardView::fresh(answer, puzzle),
    {
        let ans_ = generate_solved();
        proof {
            assert forall|i: int| 0 <= i < 81 implies #[trigger] ans_[i] <= 9 by {
                assert(at(bytes_grid(ans_@), (i / 9, i % 9)) == ans_[i]);
            }
        }
        let sudoku_ = generate_from(&ans_).unwrap();
        let ans = matrix_from_bytes(&ans_);
        let sudoku = matrix_from_bytes(&sudoku_);
        proof {
            lemma_minimal_has_blank(grid_view(ans), grid_view(sudoku));
        }
        let board = Self::from_puzzle(ans, sudoku).unwrap();
        proof {
            assert(supplied(grid_view(ans), grid_view(sudoku)));
            assert(board@ == BoardView::fresh(grid_view(ans), grid_view(sudoku)));
        }
        board
    }

    /// The phase.
    pub fn state(&self) -> (state: BoardState)
        ensures
            state == self@.state,
    {
        self.state
    }

    /// The cell that input goes to.
    pub fn focus(&self) -> (focus: [usize; 2])
        ensures
            point(focus) == self@.focus,
    {
        self.focus
    }

    /// The cell that the latest rejected fill clashed with.
    pub fn conflict(&self) -> (conflict: Option<[usize; 2]>)
        ensures
            opt_point(conflict) == self@.conflict,
    {
        self.conflict
    }

    /// How many fills were attempted.
    pub fn moves(&self) -> (n: usize)
        ensures
            n == self@.moves,
    {
        self.moves
    }

    /// How many undos were asked for.
    pub fn undos(&self) -> (n: usize)
        ensures
            n == self@.undos,
    {
        self.undos
    }

    /// How many hints were given.
    pub fn hints(&self) -> (n: usize)
        ensures
            n == self@.hints,
    {
        self.hints
    }

    /// The digit on the grid at `coord`.
    pub fn value(&self, coord: [usize; 2]) -> (v: u8)
        requires
            in_grid(point(coord)),
        ensures
            v == self@.cells[coord[0] as int][coord[1] as int],
    {
        self.sudoku.get(coord)
    }

    /// Whether the player may change the cell at `coord`.
    pub fn is_editable(&self, coord: [usize; 2]) -> (b: bool)
        requires
            in_grid(point(coord)),
        ensures
            b == on(self@.editable, point(coord)),
    {
        self.sudoku.is_available(coord)
    }

    /// How many fills the history holds.
    pub fn history_len(&self) -> (n: usize)
        ensures
            n == self@.history.len(),
    {
        self.history.len()
    }

    /// How many entries the redo stack holds.
    pub fn redo_len(&self) -> (n: usize)
        ensures
            n == self@.redo.len(),
    {
        self.redo.len()
    }

    fn set_value_and_check_finish(&mut self, coord: [usize; 2], v: u8)
        requires
            in_grid(point(coord)),
        ensures
            final(self)@ == old(self)@.place(point(coord), v),
    {
        self.sudoku.set(coord, v);
        if self.sudoku.finished() {
            self.state = BoardState::Finish;
        }
    }

    /// Enters the digit `v` at the focus.
    pub fn fill(&mut self, v: u8)
        requires
            old(self).wf(),
            1 <= v <= 9,
            old(self)@.playing() ==> old(self)@.moves < usize::MAX,
        ensures
            final(self).wf(),
            final(self)@ == old(self)@.fill(v),
    {
        match self.state {
            BoardState::Playing => {},
            _ => {
                return ;
            },
        }
        self.moves += 1;
        match self.sudoku.conflict(v, self.focus) {
            None => {
                self.conflict = None;
                self.set_value_and_check_finish(self.focus, v);
                self.history.push(self.focus);
                assert(self@.history =~= old(self)@.fill(v).history);
            },
            Some(coord) => {
                proof {
                    lemma_conflict_is_clash(old(self)@.cells, v, old(self)@.focus);
                }
                self.conflict = Some(coord);
            },
        }
    }

    /// Takes back the latest fill.
    pub fn undo(&mut self)
        requires
            old(self).wf(),
            old(self)@.playing() ==> old(self)@.undos < usize::MAX,
        ensures
            final(self).wf(),
            final(self)@ == old(self)@.undo(),
    {
        match self.state {
            BoardState::Playing => {},
            _ => {
                return ;
            },
        }
        self.undos += 1;
        if let Some(coord) = self.history.pop() {
            assert(point(coord) == old(self)@.history.last());
            let v = self.sudoku.get(coord);
            self.redo.push((coord, v));
            self.sudoku.set(coord, 0);
            assert(self@.history =~= old(self)@.undo().history);
            assert(self@.redo =~= old(self)@.undo().redo);
        }
    }

    /// Restores what the latest undo took back.
    pub fn redo(&mut self)
        requires
            old(self).wf(),
        ensures
            final(self).wf(),
            final(self)@ == old(self)@.redo(),
    {
        match self.state {
            BoardState::Playing => {},
            _ => {
                return ;
            },
        }
        if let Some((coord, v)) = self.redo.pop() {
            assert((point(coord), v) == old(self)@.redo.last());
            self.sudoku.set(coord, v);
            assert(self@.redo =~= old(self)@.redo().redo);
        }
    }

    /// The editable cells, row by row.
    fn editable_cells(&self) -> (avail: Vec<[usize; 2]>)
        ensures
            points(avail@) == candidates(self@.editable),
    {
        let ghost e = self@.editable;
        let mut avail: Vec<[usize; 2]> = Vec::new();
        let mut i: usize = 0;
        assert(points(avail@) =~= editable_before(e, 0));
        while i < 9
            invariant
                i <= 9,
                e == self@.editable,
                points(avail@) == editable_before(e, 9 * i),
            decreases 9 - i,
        {
            let mut j: usize = 0;
            while j < 9
                invariant
                    i < 9,
                    j <= 9,
                    e == self@.editable,
                    points(avail@) == editable_before(e, 9 * i + j),
                decreases 9 - j,
            {
                assert(cell_at(9 * i + j) == (i as int, j as int));
                if self.sudoku.is_available([i, j]) {
                    let ghost before = avail@;
                    avail.push([i, j]);
                    assert(points(avail@) =~= points(before).push((i as int, j as int)));
                }
                j += 1;
            }
            i += 1;
        }
        avail
    }

    /// Reveals the cell that the number `draw` selects among `avail`.
    fn hint_among(&mut self, avail: &Vec<[usize; 2]>, draw: usize)
        requires
            old(self).wf(),
            old(self)@.playing(),
            old(self)@.hints < usize::MAX,
            points(avail@) == candidates(old(self)@.editable),
            avail.len() > 0,
        ensures
            final(self).wf(),
            final(self)@ == old(self)@.hint(draw as int),
    {
        proof {
            lemma_editable_before(self@.editable, 81);
        }
        self.hints += 1;
        let coord = avail[draw % avail.len()];
        assert(point(coord) == points(avail@)[(draw % avail.len()) as int]);
        let v = self.ans[coord[0]][coord[1]];
        self.set_value_and_check_finish(coord, v);
        self.sudoku.set_available(coord, false);
    }

    /// Reveals the editable cell that the number `draw` selects: the cell
    /// at position `draw` modulo their count, reading row by row.
    pub fn hint_with(&mut self, draw: usize)
        requires
            old(self).wf(),
            old(self)@.playing() ==> old(self)@.hints < usize::MAX,
        ensures
            final(self).wf(),
            final(self)@ == old(self)@.hint(draw as int),
    {
        match self.state {
            BoardState::Playing => {},
            _ => {
                return ;
            },
        }
        let avail = self.editable_cells();
        if avail.len() > 0 {
            self.hint_among(&avail, draw);
        }
    }

    /// Reveals an editable cell chosen at random.
    pub fn hint(&mut self)
        requires
            old(self).wf(),
            old(self)@.playing() ==> old(self)@.hints < usize::MAX,
        ensures
            final(self).wf(),
            exists|draw: int| final(self)@ == #[trigger] old(self)@.hint(draw),
    {
        match self.state {
            BoardState::Playing => {},
            _ => {
                assert(self@ == old(self)@.hint(0));
                return ;
            },
        }
        let avail = self.editable_cells();
        if avail.len() > 0 {
            let draw = random_usize();
            self.hint_among(&avail, draw);
            assert(self@ == old(self)@.hint(draw as int));
        } else {
            assert(self@ == old(self)@.hint(0));
        }
    }

    /// Moves the focus to the next editable cell to the right, wrapping
    /// round within the row.
    pub fn move_focus_right(&mut self)
        requires
            old(self).wf(),
        ensures
            final(self).wf(),
            final(self)@ == old(self)@.move_focus(Direction::Right),
    {
        match self.state {
            BoardState::Playing => {},
            _ => {
                return ;
            },
        }
        let i = self.focus[0];
        let j = self.focus[1];
        let ghost e = self@.editable;
        let ghost p = self@.focus;
        let mut found: Option<[usize; 2]> = None;
        let mut k: usize = 1;
        while k < 9
            invariant_except_break
                found is None,
                forall|t: int| 1 <= t < k ==> !on(e, #[trigger] ring(Direction::Right, p, t)),
            invariant
                1 <= k <= 9,
                i < 9,
                j < 9,
                p == (i as int, j as int),
                e == self.sudoku.editable(),
            ensures
                found is None ==> forall|t: int|
                    1 <= t < 9 ==> !on(e, #[trigger] ring(Direction::Right, p, t)),
                found matches Some(c) ==> in_grid(point(c)) && point(c) == target(
                    e,
                    Direction::Right,
                    p,
                ),
            decreases 9 - k,
        {
            let j_ = (j + k) % 9;
            assert(ring(Direction::Right, p, k as int) == (i as int, j_ as int));
            if self.sudoku.is_available([i, j_]) {
                proof {
                    lemma_target_at(e, Direction::Right, p, k as int);
                }
                found = Some([i, j_]);
                break ;
            }
            k += 1;
        }
        match found {
            Some(c) => {
                self.focus = c;
            },
            None => {
                proof {
                    lemma_target_stays(e, Direction::Right, p);
                }
            },
        }
    }

    /// Moves the focus to the next editable cell to the left, wrapping
    /// round within the row.
    pub fn move_focus_left(&mut self)
        requires
            old(self).wf(),
        ensures
            final(self).wf(),
            final(self)@ == old(self)@.move_focus(Direction::Left),
    {
        match self.state {
            BoardState::Playing => {},
            _ => {
                return ;
            },
        }
        let i = self.focus[0];
        let j = self.focus[1];
        let ghost e = self@.editable;
        let ghost p = self@.focus;
        let mut found: Option<[usize; 2]> = None;
        let mut k: usize = 1;
        while k < 9
            invariant_except_break
                found is None,
                forall|t: int| 1 <= t < k ==> !on(e, #[trigger] ring(Direction::Left, p, t)),
            invariant
                1 <= k <= 9,
                i < 9,
                j < 9,
                p == (i as int, j as int),
                e == self.sudoku.editable(),
            ensures
                found is None ==> forall|t: int|
                    1 <= t < 9 ==> !on(e, #[trigger] ring(Direction::Left, p, t)),
                found matches Some(c) ==> in_grid(point(c)) && point(c) == target(
                    e,
                    Direction::Left,
                    p,
                ),
            decreases 9 - k,
        {
            proof {
                lemma_wrap_back(j as int, k as int);
            }
            let j_ = (9 + j - k) % 9;
            assert(ring(Direction::Left, p, k as int) == (i as int, j_ as int));
            if self.sudoku.is_available([i, j_]) {
                proof {
                    lemma_target_at(e, Direction::Left, p, k as int);
                }
                found = Some([i, j_]);
                break ;
            }
            k += 1;
        }
        match found {
            Some(c) => {
                self.focus = c;
            },
            None => {
                proof {
                    lemma_target_stays(e, Direction::Left, p);
                }
            },
        }
    }

    /// Moves the focus to the next editable cell below, wrapping round
    /// within the column.
    pub fn move_focus_down(&mut self)
        requires
            old(self).wf(),
        ensures
            final(self).wf(),
            final(self)@ == old(self)@.move_focus(Direction::Down),
    {
        match self.state {
            BoardState::Playing => {},
            _ => {
                return ;
            },
        }
        let i = self.focus[0];
        let j = self.focus[1];
        let ghost e = self@.editable;
        let ghost p = self@.focus;
        let mut found: Option<[usize; 2]> = None;
        let mut k: usize = 1;
        while k < 9
            invariant_except_break
                found is None,
                forall|t: int| 1 <= t < k ==> !on(e, #[trigger] ring(Direction::Down, p, t)),
            invariant
                1 <= k <= 9,
                i < 9,
                j < 9,
                p == (i as int, j as int),
                e == self.sudoku.editable(),
            ensures
                found is None ==> forall|t: int|
                    1 <= t < 9 ==> !on(e, #[trigger] ring(Direction::Down, p, t)),
                found matches Some(c) ==> in_grid(point(c)) && point(c) == target(
                    e,
                    Direction::Down,
                    p,
                ),
            decreases 9 - k,
        {
            let i_ = (i + k) % 9;
            assert(ring(Direction::Down, p, k as int) == (i_ as int, j as int));
            if self.sudoku.is_available([i_, j]) {
                proof {
                    lemma_target_at(e, Direction::Down, p, k as int);
                }
                found = Some([i_, j]);
                break ;
            }
            k += 1;
        }
        match found {
            Some(c) => {
                self.focus = c;
            },
            None => {
                proof {
                    lemma_target_stays(e, Direction::Down, p);
                }
            },
        }
    }

    /// Moves the focus to the next editable cell above, wrapping round
    /// within the column.
    pub fn move_focus_up(&mut self)
        requires
            old(self).wf(),
        ensures
            final(self).wf(),
            final(self)@ == old(self)@.move_focus(Direction::Up),
    {
        match self.state {
            BoardState::Playing => {},
            _ => {
                return ;
            },
        }
        let i = self.focus[0];
        let j = self.focus[1];
        let ghost e = self@.editable;
        let ghost p = self@.focus;
        let mut found: Option<[usize; 2]> = None;
        let mut k: usize = 1;
        while k < 9
            invariant_except_break
                found is None,
                forall|t: int| 1 <= t < k ==> !on(e, #[trigger] ring(Direction::Up, p, t)),
            invariant
                1 <= k <= 9,
                i < 9,
                j < 9,
                p == (i as int, j as int),
                e == self.sudoku.editable(),
            ensures
                found is None ==> forall|t: int|
                    1 <= t < 9 ==> !on(e, #[trigger] ring(Direction::Up, p, t)),
                found matches Some(c) ==> in_grid(point(c)) && point(c) == target(
                    e,
                    Direction::Up,
                    p,
                ),
            decreases 9 - k,
        {
            proof {
                lemma_wrap_back(i as int, k as int);
            }
            let i_ = (9 + i - k) % 9;
            assert(ring(Direction::Up, p, k as int) == (i_ as int, j as int));
            if self.sudoku.is_available([i_, j]) {
                proof {
                    lemma_target_at(e, Direction::Up, p, k as int);
                }
                found = Some([i_, j]);
                break ;
            }
            k += 1;
        }
        match found {
            Some(c) => {
                self.focus = c;
            },
            None => {
                proof {
                    lemma_target_stays(e, Direction::Up, p);
                }
            },
        }
    }

    /// Moves the focus to the following editable cell, reading row by row
    /// and wrapping round from the last cell to the first.
    pub fn move_focus_next(&mut self)
        requires
            old(self).wf(),
        ensures
            final(self).wf(),
            final(self)@ == old(self)@.move_focus(Direction::Next),
    {
        match self.state {
            BoardState::Playing => {},
            _ => {
                return ;
            },
        }
        let ghost e = self@.editable;
        let ghost p = self@.focus;
        let mut x: usize = 9 * self.focus[0] + self.focus[1];
        let mut found: Option<[usize; 2]> = None;
        let mut k: usize = 1;
        while k < 81
            invariant_except_break
                found is None,
                forall|t: int| 1 <= t < k ==> !on(e, #[trigger] ring(Direction::Next, p, t)),
                x == (9 * p.0 + p.1 + k - 1) % 81,
            invariant
                1 <= k <= 81,
                in_grid(p),
                e == self.sudoku.editable(),
            ensures
                found is None ==> forall|t: int|
                    1 <= t < 81 ==> !on(e, #[trigger] ring(Direction::Next, p, t)),
                found matches Some(c) ==> in_grid(point(c)) && point(c) == target(
                    e,
                    Direction::Next,
                    p,
                ),
            decreases 81 - k,
        {
            proof {
                lemma_step_forward(9 * p.0 + p.1 + k - 1);
            }
            x = (x + 1) % 81;
            let i = x / 9;
            let j = x % 9;
            assert(ring(Direction::Next, p, k as int) == (i as int, j as int));
            if self.sudoku.is_available([i, j]) {
                proof {
                    lemma_target_at(e, Direction::Next, p, k as int);
                }
                found = Some([i, j]);
                break ;
            }
            k += 1;
        }
        match found {
            Some(c) => {
                self.focus = c;
            },
            None => {
                proof {
                    lemma_target_stays(e, Direction::Next, p);
                }
            },
        }
    }

    /// Moves the focus to the preceding editable cell, reading row by row
    /// and wrapping round from the first cell to the last.
    pub fn move_focus_prev(&mut self)
        requires
            old(self).wf(),
        ensures
            final(self).wf(),
            final(self)@ == old(self)@.move_focus(Direction::Prev),
    {
        match self.state {
            BoardState::Playing => {},
            _ => {
                return ;
            },
        }
        let ghost e = self@.editable;
        let ghost p = self@.focus;
        let mut x: usize = 9 * self.focus[0] + self.focus[1];
        let mut found: Option<[usize; 2]> = None;
        let mut k: usize = 1;
        while k < 81
            invariant_except_break
                found is None,
                forall|t: int| 1 <= t < k ==> !on(e, #[trigger] ring(Direction::Prev, p, t)),
                x == (9 * p.0 + p.1 - (k - 1)) % 81,
            invariant
                1 <= k <= 81,
                in_grid(p),
                e == self.sudoku.editable(),
            ensures
                found is None ==> forall|t: int|
                    1 <= t < 81 ==> !on(e, #[trigger] ring(Direction::Prev, p, t)),
                found matches Some(c) ==> in_grid(point(c)) && point(c) == target(
                    e,
                    Direction::Prev,
                    p,
                ),
            decreases 81 - k,
        {
            proof {
                lemma_step_back(9 * p.0 + p.1 - (k - 1));
            }
            x = (81 + x - 1) % 81;
            let i = x / 9;
            let j = x % 9;
            assert(ring(Direction::Prev, p, k as int) == (i as int, j as int));
            if self.sudoku.is_available([i, j]) {
                proof {
                    lemma_target_at(e, Direction::Prev, p, k as int);
                }
                found = Some([i, j]);
                break ;
            }
            k += 1;
        }
        match found {
            Some(c) => {
                self.focus = c;
            },
            None => {
                proof {
                    lemma_target_stays(e, Direction::Prev, p);
                }
            },
        }
    }

    /// Moves the focus in direction `d`.
    pub fn move_focus(&mut self, d: Direction)
        requires
            old(self).wf(),
        ensures
            final(self).wf(),
            final(self)@ == old(self)@.move_focus(d),
    {
        match d {
            Direction::Up => self.move_focus_up(),
            Direction::Down => self.move_focus_down(),
            Direction::Left => self.move_focus_left(),
            Direction::Right => self.move_focus_right(),
            Direction::Next => self.move_focus_next(),
            Direction::Prev => self.move_focus_prev(),
        }
    }

    /// The grid index shown at offset `x` of the panel, along either axis.
    fn slot_of(x: usize) -> (index: Option<usize>)
        ensures
            match index {
                Some(i) => slot(x as int) == Some(i as int),
                None => slot(x as int) is None,
            },
    {
        if 1 <= x && x <= 11 && x % 4 != 0 {
            Some(x - 1 - x / 4)
        } else {
            None
        }
    }

    /// Where the panel shows the cell `coord`: the column offset, then the
    /// row offset.
    pub fn coord_to_xy(coord: [usize; 2]) -> (xy: (usize, usize))
        requires
            in_grid(point(coord)),
        ensures
            xy.0 == offset_of(coord[1] as int),
            xy.1 == offset_of(coord[0] as int),
            resolve(xy.1 as int, xy.0 as int) == Some(point(coord)),
    {
        (coord[1] + coord[1] / 3 + 1, coord[0] + coord[0] / 3 + 1)
    }

    /// Where the panel shows the focus: the column offset, then the row
    /// offset.
    pub fn focus_xy(&self) -> (xy: (usize, usize))
        requires
            self.wf(),
        ensures
            xy.0 == offset_of(self@.focus.1),
            xy.1 == offset_of(self@.focus.0),
    {
        Self::coord_to_xy(self.focus)
    }

    /// The cell that the panel shows at the row offset `xy.0` and the column
    /// offset `xy.1`, if it shows one there.
    pub fn xy_to_coord(xy: (usize, usize)) -> (coord: Option<[usize; 2]>)
        ensures
            opt_point(coord) == resolve(xy.0 as int, xy.1 as int),
            coord matches Some(c) ==> in_grid(point(c)),
    {
        match (Self::slot_of(xy.0), Self::slot_of(xy.1)) {
            (Some(row), Some(col)) => Some([row, col]),
            _ => None,
        }
    }

    /// A pointer press at row offset `y`, column offset `x` of the panel:
    /// the focus goes to the cell shown there if it is editable. The press
    /// is accepted during play, inside the frame.
    pub fn press(&mut self, y: usize, x: usize) -> (accepted: bool)
        requires
            old(self).wf(),
        ensures
            final(self).wf(),
            final(self)@ == old(self)@.press(y as int, x as int),
            accepted == (old(self)@.playing() && inside_frame(y as int, x as int)),
    {
        match self.state {
            BoardState::Playing => {},
            _ => {
                return false;
            },
        }
        if let Some(coord) = Self::xy_to_coord((y, x)) {
            if self.sudoku.is_available(coord) {
                self.focus = coord;
            }
        }
        1 <= y && y <= 11 && 1 <= x && x <= 11
    }

    /// Replaces the session by a fresh one on the given answer and puzzle.
    /// A puzzle without an empty cell is refused.
    pub fn restart_with(&mut self, ans: SudokuMatrix, puzzle: SudokuMatrix) -> (done: bool)
        ensures
            final(self)@ == old(self)@.restart_with(grid_view(ans), grid_view(puzzle)),
            done == has_blank(grid_view(puzzle)),
            old(self).wf() ==> final(self).wf(),
    {
        match Self::from_puzzle(ans, puzzle) {
            Some(board) => {
                *self = board;
                true
            },
            None => false,
        }
    }

    /// Replaces the session by a fresh one on a puzzle from the generator:
    /// the fresh session on a supplied pair.
    pub fn restart(&mut self)
        ensures
            final(self).wf(),
            exists|answer: Seq<Seq<u8>>, puzzle: Seq<Seq<u8>>|
                supplied(answer, puzzle) && has_blank(puzzle) && final(self)@
                    == #[trigger] old(self)@.restart_with(answer, puzzle),
    {
        let board = SudokuBoard::new();
        proof {
            let (answer, puzzle) = choose|answer: Seq<Seq<u8>>, puzzle: Seq<Seq<u8>>|
                supplied(answer, puzzle) && has_blank(puzzle) && board@
                    == #[trigger] BoardView::fresh(answer, puzzle);
            assert(board@ == old(self)@.restart_with(answer, puzzle));
        }
        *self = board;
    }

    /// Starts play on the given answer and puzzle, from the phase that
    /// waits for it.
    pub fn start_with(&mut self, ans: SudokuMatrix, puzzle: SudokuMatrix) -> (started: bool)
        ensures
            final(self)@ == old(self)@.start_with(grid_view(ans), grid_view(puzzle)),
            started == (old(self)@.state is Config && has_blank(grid_view(puzzle))),
            old(self).wf() ==> final(self).wf(),
    {
        match self.state {
            BoardState::Config => {},
            _ => {
                return false;
            },
        }
        if self.restart_with(ans, puzzle) {
            self.state = BoardState::Playing;
            true
        } else {
            false
        }
    }

    /// Starts play on a puzzle from the generator. Only a session that
    /// waits to be started does so: it becomes the fresh session on a
    /// supplied pair, in play. Any other session stays as it is.
    pub fn start(&mut self) -> (started: bool)
        ensures
            started == (old(self)@.state is Config),
            started ==> exists|answer: Seq<Seq<u8>>, puzzle: Seq<Seq<u8>>|
                supplied(answer, puzzle) && has_blank(puzzle) && final(self)@
                    == #[trigger] old(self)@.start_with(answer, puzzle),
            !started ==> final(self)@ == old(self)@,
            started || old(self).wf() ==> final(self).wf(),
    {
        match self.state {
            BoardState::Config => {},
            _ => {
                return false;
            },
        }
        self.restart();
        proof {
            let (answer, puzzle) = choose|answer: Seq<Seq<u8>>, puzzle: Seq<Seq<u8>>|
                supplied(answer, puzzle) && has_blank(puzzle) && self@
                    == #[trigger] old(self)@.restart_with(answer, puzzle);
            assert(BoardView { state: BoardState::Playing, ..self@ } == old(self)@.start_with(
                answer,
                puzzle,
            ));
        }
        self.state = BoardState::Playing;
        true
    }

    /// Leaves the finished game for the phase that waits for a start.
    pub fn acknowledge(&mut self) -> (accepted: bool)
        ensures
            final(self)@ == old(self)@.acknowledge(),
            accepted == (old(self)@.state is Finish),
            old(self).wf() ==> final(self).wf(),
    {
        match self.state {
            BoardState::Finish => {
                self.state = BoardState::Config;
                true
            },
            _ => false,
        }
    }

    /// What `handle` asks of a command: a digit from 1 to 9 for a fill, and
    /// room in the counter that the command advances.
    pub open spec fn admits(&self, command: Command) -> bool {
        match command {
            Command::Fill(v) => 1 <= v <= 9 && (self@.playing() ==> self@.moves < usize::MAX),
            Command::Hint => self@.playing() ==> self@.hints < usize::MAX,
            Command::Undo => self@.playing() ==> self@.undos < usize::MAX,
            _ => true,
        }
    }

    /// Carries out one command and says whether the phase accepted it. A
    /// command that is not accepted changes nothing.
    pub fn handle(&mut self, command: Command) -> (accepted: bool)
        requires
            old(self).wf(),
            old(self).admits(command),
        ensures
            final(self).wf(),
            match command {
                Command::Start => {
                    &&& accepted == (old(self)@.state is Config)
                    &&& accepted ==> exists|answer: Seq<Seq<u8>>, puzzle: Seq<Seq<u8>>|
                        supplied(answer, puzzle) && has_blank(puzzle) && final(self)@
                            == #[trigger] old(self)@.start_with(answer, puzzle)
                    &&& !accepted ==> final(self)@ == old(self)@
                },
                Command::Restart => {
                    &&& accepted
                    &&& exists|answer: Seq<Seq<u8>>, puzzle: Seq<Seq<u8>>|
                        supplied(answer, puzzle) && has_blank(puzzle) && final(self)@
                            == #[trigger] old(self)@.restart_with(answer, puzzle)
                },
                Command::Acknowledge => {
                    &&& final(self)@ == old(self)@.acknowledge()
                    &&& accepted == (old(self)@.state is Finish)
                },
                Command::Fill(v) => {
                    &&& final(self)@ == old(self)@.fill(v)
                    &&& accepted == old(self)@.playing()
                },
                Command::Hint => {
                    &&& exists|draw: int| final(self)@ == #[trigger] old(self)@.hint(draw)
                    &&& accepted == old(self)@.playing()
                },
                Command::Undo => {
                    &&& final(self)@ == old(self)@.undo()
                    &&& accepted == old(self)@.playing()
                },
                Command::Redo => {
                    &&& final(self)@ == old(self)@.redo()
                    &&& accepted == old(self)@.playing()
                },
                Command::Move(d) => {
                    &&& final(self)@ == old(self)@.move_focus(d)
                    &&& accepted == old(self)@.playing()
                },
                Command::Press(y, x) => {
                    &&& final(self)@ == old(self)@.press(y as int, x as int)
                    &&& accepted == (old(self)@.playing() && inside_frame(y as int, x as int))
                },
            },
    {
        let playing = match self.state {
            BoardState::Playing => true,
            _ => false,
        };
        match command {
            Command::Start => self.start(),
            Command::Restart => {
                self.restart();
                true
            },
            Command::Acknowledge => self.acknowledge(),
            Command::Fill(v) => {
                self.fill(v);
                playing
            },
            Command::Hint => {
                self.hint();
                playing
            },
            Command::Undo => {
                self.undo();
                playing
            },
            Command::Redo => {
                self.redo();
                playing
            },
            Command::Move(d) => {
                self.move_focus(d);
                playing
            },
            Command::Press(y, x) => self.press(y, x),
        }
    }
}

/// A command to a session.
#[derive(Debug, Clone, Copy, PartialEq, Eq, Structural)]
pub enum Command {
    /// Start play on a new puzzle.
    Start,
    /// Enter a digit at the focus.
    Fill(u8),
    /// Reveal a cell.
    Hint,
    /// Take back the latest fill.
    Undo,
    /// Restore what the latest undo took back.
    Redo,
    /// Move the focus.
    Move(Direction),
    /// Press the pointer at a row offset and a column offset of the panel.
    Press(usize, usize),
    /// Discard the session for a fresh one.
    Restart,
    /// Leave the finished game.
    Acknowledge,
}

} // verus!
