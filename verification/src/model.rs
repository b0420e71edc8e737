//! The mathematical model of a play session: its state as plain sequences
//! and integers, and every command as a function from state to state.

use crate::sudoku::{
    at, blank_mask, complete, conflict_of, grid_set, in_grid, is_grid, same_unit, solved_grid,
};
use vstd::prelude::*;
use vstd::set_lib::{lemma_int_range, lemma_len_subset, set_int_range};

verus! {

/// The phase of a session.
#[derive(Debug, Clone, Copy, PartialEq, Eq, Structural)]
pub enum BoardState {
    /// A puzzle is chosen but play has not started.
    Config,
    /// The grid is being played.
    Playing,
    /// The grid is complete.
    Finish,
}

/// A way to move the focus.
#[derive(Debug, Clone, Copy, PartialEq, Eq, Structural)]
pub enum Direction {
    /// To the editable cell above, within the column.
    Up,
    /// To the editable cell below, within the column.
    Down,
    /// To the editable cell to the left, within the row.
    Left,
    /// To the editable cell to the right, within the row.
    Right,
    /// To the following editable cell, reading row by row.
    Next,
    /// To the preceding editable cell, reading row by row.
    Prev,
}

/// The cell at position `k` when the grid is read row by row.
pub open spec fn cell_at(k: int) -> (int, int) {
    (k / 9, k % 9)
}

/// The position of `p` when the grid is read row by row.
pub open spec fn index_of(p: (int, int)) -> int {
    9 * p.0 + p.1
}

/// The mask `e` marks the cell `p`.
pub open spec fn on(e: Seq<Seq<bool>>, p: (int, int)) -> bool {
    e[p.0][p.1]
}

/// The marked cells among the first `n` cells, in reading order.
pub open spec fn editable_before(e: Seq<Seq<bool>>, n: int) -> Seq<(int, int)>
    decreases n,
{
    if n <= 0 {
        Seq::empty()
    } else if on(e, cell_at(n - 1)) {
        editable_before(e, n - 1).push(cell_at(n - 1))
    } else {
        editable_before(e, n - 1)
    }
}

/// All marked cells, in reading order: the cells a hint may pick.
pub open spec fn candidates(e: Seq<Seq<bool>>) -> Seq<(int, int)> {
    editable_before(e, 81)
}

/// The cells listed among the first `m` cells open the list of those among
/// the first `n`, for `m <= n`.
pub proof fn lemma_editable_before_prefix(e: Seq<Seq<bool>>, m: int, n: int)
    requires
        0 <= m <= n,
    ensures
        editable_before(e, m).len() <= editable_before(e, n).len(),
        forall|i: int|
            0 <= i < editable_before(e, m).len() ==> editable_before(e, m)[i] == editable_before(
                e,
                n,
            )[i],
    decreases n - m,
{
    if m < n {
        lemma_editable_before_prefix(e, m, n - 1);
    }
}

/// What the list of marked cells among the first `n` holds: marked cells
/// only, each of them before position `n`, in strictly ascending reading
/// order, and every marked cell before position `n`.
pub proof fn lemma_editable_before(e: Seq<Seq<bool>>, n: int)
    requires
        0 <= n <= 81,
    ensures
        editable_before(e, n).len() <= n,
        forall|i: int|
            0 <= i < editable_before(e, n).len() ==> {
                let p = #[trigger] editable_before(e, n)[i];
                in_grid(p) && on(e, p) && index_of(p) < n
            },
        forall|i: int, j: int|
            0 <= i < j < editable_before(e, n).len() ==> index_of(
                #[trigger] editable_before(e, n)[i],
            ) < index_of(#[trigger] editable_before(e, n)[j]),
        forall|k: int|
            0 <= k < n && on(e, cell_at(k)) ==> exists|i: int|
                0 <= i < editable_before(e, n).len() && #[trigger] editable_before(e, n)[i]
                    == cell_at(k),
    decreases n,
{
    if n > 0 {
        lemma_editable_before(e, n - 1);
        let s0 = editable_before(e, n - 1);
        let s = editable_before(e, n);
        assert forall|k: int| 0 <= k < n && on(e, cell_at(k)) implies exists|i: int|
            0 <= i < s.len() && #[trigger] s[i] == cell_at(k) by {
            if k < n - 1 {
                let i = choose|i: int| 0 <= i < s0.len() && #[trigger] s0[i] == cell_at(k);
                assert(s[i] == cell_at(k));
            } else {
                assert(s[s.len() - 1] == cell_at(k));
            }
        }
    }
}

/// The number of cells a focus move in direction `d` may visit before it
/// is back where it started.
pub open spec fn ring_len(d: Direction) -> int {
    match d {
        Direction::Next | Direction::Prev => 81,
        _ => 9,
    }
}

/// The cell reached from `p` after `k` single steps in direction `d`, with
/// wraparound.
pub open spec fn ring(d: Direction, p: (int, int), k: int) -> (int, int) {
    match d {
        Direction::Up => ((p.0 - k) % 9, p.1),
        Direction::Down => ((p.0 + k) % 9, p.1),
        Direction::Left => (p.0, (p.1 - k) % 9),
        Direction::Right => (p.0, (p.1 + k) % 9),
        Direction::Next => cell_at((index_of(p) + k) % 81),
        Direction::Prev => cell_at((index_of(p) - k) % 81),
    }
}

/// Step `k` is the first step from `p` in direction `d` that lands on a
/// marked cell, short of a full turn.
pub open spec fn first_stop(e: Seq<Seq<bool>>, d: Direction, p: (int, int), k: int) -> bool {
    &&& 1 <= k < ring_len(d)
    &&& on(e, ring(d, p, k))
    &&& forall|j: int| 1 <= j < k ==> !on(e, #[trigger] ring(d, p, j))
}

/// Where a focus at `p` moves in direction `d`: to the first marked cell on
/// the way, or nowhere when the way holds none.
pub open spec fn target(e: Seq<Seq<bool>>, d: Direction, p: (int, int)) -> (int, int) {
    if exists|k: int| first_stop(e, d, p, k) {
        ring(d, p, choose|k: int| first_stop(e, d, p, k))
    } else {
        p
    }
}

/// Stepping back `k` on a ring of 9 positions, written without a negative
/// number.
pub proof fn lemma_wrap_back(j: int, k: int)
    ensures
        (9 + j - k) % 9 == (j - k) % 9,
{
}

/// One step forward on the ring of 81 positions.
pub proof fn lemma_step_forward(a: int)
    ensures
        ((a % 81) + 1) % 81 == (a + 1) % 81,
{
}

/// One step back on the ring of 81 positions.
pub proof fn lemma_step_back(a: int)
    ensures
        (81 + (a % 81) - 1) % 81 == (a - 1) % 81,
{
}

/// The first stop is unique, so it determines where the focus moves.
pub proof fn lemma_target_at(e: Seq<Seq<bool>>, d: Direction, p: (int, int), k: int)
    requires
        first_stop(e, d, p, k),
    ensures
        target(e, d, p) == ring(d, p, k),
{
}

/// Without a marked cell on the way the focus stays.
pub proof fn lemma_target_stays(e: Seq<Seq<bool>>, d: Direction, p: (int, int))
    requires
        forall|k: int| 1 <= k < ring_len(d) ==> !on(e, #[trigger] ring(d, p, k)),
    ensures
        target(e, d, p) == p,
{
}

/// The focus moves to a cell of the grid, and to an editable one if it moves
/// at all.
pub proof fn lemma_target_in_grid(e: Seq<Seq<bool>>, d: Direction, p: (int, int))
    requires
        in_grid(p),
    ensures
        in_grid(target(e, d, p)),
        target(e, d, p) != p ==> on(e, target(e, d, p)),
{
}

/// The grid index shown at offset `x` of the panel, along either axis. The
/// offsets 0, 4, 8 and 12 hold the frame and the box separators.
pub open spec fn slot(x: int) -> Option<int> {
    if 1 <= x <= 11 && x % 4 != 0 {
        Some(x - 1 - x / 4)
    } else {
        None
    }
}

/// The panel offset at which grid index `i` is shown, along either axis.
pub open spec fn offset_of(i: int) -> int {
    i + i / 3 + 1
}

/// The cell shown at row offset `y` and column offset `x` of the panel.
pub open spec fn resolve(y: int, x: int) -> Option<(int, int)> {
    match (slot(y), slot(x)) {
        (Some(r), Some(c)) => Some((r, c)),
        _ => None,
    }
}

/// A pointer press at row offset `y`, column offset `x` lies inside the
/// frame of the panel.
pub open spec fn inside_frame(y: int, x: int) -> bool {
    1 <= y <= 11 && 1 <= x <= 11
}

/// Every digit on the grid `cells` is the one that `answer` has there.
pub open spec fn follows(cells: Seq<Seq<u8>>, answer: Seq<Seq<u8>>) -> bool {
    forall|p: (int, int)|
        in_grid(p) ==> #[trigger] at(cells, p) == 0 || at(cells, p) == at(answer, p)
}

/// The grid `g` is a solution of the puzzle: a solved grid that has the
/// puzzle's digit wherever the puzzle is not empty.
pub open spec fn solves(g: Seq<Seq<u8>>, puzzle: Seq<Seq<u8>>) -> bool {
    solved_grid(g) && follows(puzzle, g)
}

/// The grid `answer` is a solution of the puzzle, and its only one.
pub open spec fn only_solution(answer: Seq<Seq<u8>>, puzzle: Seq<Seq<u8>>) -> bool {
    &&& solves(answer, puzzle)
    &&& forall|g: Seq<Seq<u8>>| #[trigger] solves(g, puzzle) ==> g == answer
}

/// No digit can be taken from the puzzle without letting in a solution
/// other than `answer`.
pub open spec fn minimal(answer: Seq<Seq<u8>>, puzzle: Seq<Seq<u8>>) -> bool {
    forall|p: (int, int)|
        in_grid(p) && #[trigger] at(puzzle, p) != 0 ==> exists|g: Seq<Seq<u8>>|
            #[trigger] solves(g, grid_set(puzzle, p, 0)) && g != answer
}

/// What a puzzle supplier hands over: a solved grid as the answer, and a
/// puzzle that agrees with it wherever it is not empty and has no other
/// solution.
pub open spec fn supplied(answer: Seq<Seq<u8>>, puzzle: Seq<Seq<u8>>) -> bool {
    &&& is_grid(puzzle)
    &&& only_solution(answer, puzzle)
}

/// Ten numbers from 1 to 9 cannot all differ.
proof fn lemma_digits_repeat(s: Seq<int>)
    requires
        s.no_duplicates(),
        forall|i: int| 0 <= i < s.len() ==> 1 <= #[trigger] s[i] <= 9,
    ensures
        s.len() <= 9,
{
    s.unique_seq_to_set();
    lemma_int_range(1, 10);
    assert(s.to_set().subset_of(set_int_range(1, 10))) by {
        assert forall|a: int| s.to_set().contains(a) implies set_int_range(1, 10).contains(
            a,
        ) by {
            let i = choose|i: int| 0 <= i < s.len() && s[i] == a;
            assert(1 <= s[i] <= 9);
        }
    }
    lemma_len_subset(s.to_set(), set_int_range(1, 10));
}

/// A puzzle that is minimal for a solved grid has an empty cell: from a
/// full grid any one digit can be taken, for the other eight digits of its
/// row leave it no choice.
pub proof fn lemma_minimal_has_blank(answer: Seq<Seq<u8>>, puzzle: Seq<Seq<u8>>)
    requires
        is_grid(puzzle),
        solves(answer, puzzle),
        minimal(answer, puzzle),
    ensures
        has_blank(puzzle),
{
    if !has_blank(puzzle) {
        let e = blank_mask(puzzle);
        lemma_editable_before(e, 81);
        assert forall|q: (int, int)| in_grid(q) implies #[trigger] at(puzzle, q) != 0 by {
            if at(puzzle, q) == 0 {
                assert(cell_at(index_of(q)) == q);
                assert(on(e, cell_at(index_of(q))));
            }
        }
        let p = (0int, 0int);
        assert(at(puzzle, p) != 0);
        let g = choose|g: Seq<Seq<u8>>| #[trigger] solves(g, grid_set(puzzle, p, 0)) && g != answer;
        assert forall|q: (int, int)| in_grid(q) && q != p implies #[trigger] at(g, q) == at(
            answer,
            q,
        ) by {
            assert(at(grid_set(puzzle, p, 0), q) == at(puzzle, q));
            assert(at(puzzle, q) == 0 || at(puzzle, q) == at(answer, q));
        }
        if at(g, p) == at(answer, p) {
            assert forall|r: int, c: int| 0 <= r < 9 && 0 <= c < 9 implies g[r][c]
                == answer[r][c] by {
                assert(at(g, (r, c)) == at(answer, (r, c)));
            }
            assert(g =~~= answer);
        }
        let row = Seq::new(
            10,
            |i: int|
                if i == 9 {
                    at(g, p) as int
                } else {
                    at(answer, (0int, i)) as int
                },
        );
        assert forall|i: int| 0 <= i < row.len() implies 1 <= #[trigger] row[i] <= 9 by {
            if i == 9 {
                assert(1 <= at(g, p) <= 9);
            } else {
                assert(1 <= at(answer, (0int, i)) <= 9);
            }
        }
        assert forall|i: int, j: int| 0 <= i < j < row.len() implies row[i] != row[j] by {
            if j < 9 {
                assert(same_unit((0int, i), (0int, j)));
            } else if i == 0 {
            } else {
                assert(same_unit(p, (0int, i)));
                assert(at(g, (0int, i)) == at(answer, (0int, i)));
            }
        }
        lemma_digits_repeat(row);
    }
}

/// The puzzle has an empty cell.
pub open spec fn has_blank(puzzle: Seq<Seq<u8>>) -> bool {
    candidates(blank_mask(puzzle)).len() > 0
}

/// A command of play, together with what the outside world contributed to
/// it: the number drawn for a hint.
pub enum Op {
    /// Enter a digit at the focus.
    Fill(u8),
    /// Take back the latest fill.
    Undo,
    /// Restore what the latest undo took back.
    Redo,
    /// Reveal a cell, chosen by the number drawn.
    Hint(int),
    /// Move the focus.
    Move(Direction),
    /// Press the pointer at a row and a column offset of the panel.
    Press(int, int),
}

/// The state of a session.
pub struct BoardView {
    /// The solved grid.
    pub answer: Seq<Seq<u8>>,
    /// The digits now on the grid; `0` is an empty cell.
    pub cells: Seq<Seq<u8>>,
    /// The cells that the player may change.
    pub editable: Seq<Seq<bool>>,
    /// The cell that input goes to.
    pub focus: (int, int),
    /// The cells filled by the player, oldest first.
    pub history: Seq<(int, int)>,
    /// What undo took back, oldest first: the cell and the digit it held.
    pub redo: Seq<((int, int), u8)>,
    /// How many fills were attempted.
    pub moves: nat,
    /// How many undos were asked for.
    pub undos: nat,
    /// How many hints were given.
    pub hints: nat,
    /// The cell that the latest rejected fill clashed with.
    pub conflict: Option<(int, int)>,
    /// The phase.
    pub state: BoardState,
}

impl BoardView {
    /// All grids have the 9×9 shape and every stored cell address is one of
    /// the 81 cells.
    pub open spec fn wf(self) -> bool {
        &&& is_grid(self.answer)
        &&& is_grid(self.cells)
        &&& is_grid(self.editable)
        &&& in_grid(self.focus)
        &&& forall|i: int| 0 <= i < self.history.len() ==> in_grid(#[trigger] self.history[i])
        &&& forall|i: int| 0 <= i < self.redo.len() ==> in_grid((#[trigger] self.redo[i]).0)
        &&& (self.conflict matches Some(q) ==> in_grid(q))
    }

    /// The session is in the playing phase.
    pub open spec fn playing(self) -> bool {
        self.state is Playing
    }

    /// The session that starts from a supplied pair: the puzzle on the grid,
    /// its empty cells editable, the focus on the first of them, nothing
    /// played yet, play not yet started.
    pub open spec fn fresh(answer: Seq<Seq<u8>>, puzzle: Seq<Seq<u8>>) -> BoardView {
        BoardView {
            answer,
            cells: puzzle,
            editable: blank_mask(puzzle),
            focus: candidates(blank_mask(puzzle)).first(),
            history: Seq::empty(),
            redo: Seq::empty(),
            moves: 0,
            undos: 0,
            hints: 0,
            conflict: None,
            state: BoardState::Config,
        }
    }

    /// Writes `v` at `p`; a grid that is complete afterwards ends the game.
    pub open spec fn place(self, p: (int, int), v: u8) -> BoardView {
        let cells = grid_set(self.cells, p, v);
        BoardView {
            cells,
            state: if complete(cells) {
                BoardState::Finish
            } else {
                self.state
            },
            ..self
        }
    }

    /// Enters `v` at the focus. The attempt is counted. A digit that clashes
    /// is not written, and the cell it clashes with is remembered; one that
    /// does not is written and recorded in the history.
    pub open spec fn fill(self, v: u8) -> BoardView {
        if !self.playing() {
            self
        } else {
            match conflict_of(self.cells, v, self.focus) {
                None => BoardView {
                    moves: self.moves + 1,
                    conflict: None,
                    history: self.history.push(self.focus),
                    ..self.place(self.focus, v)
                },
                Some(q) => BoardView { moves: self.moves + 1, conflict: Some(q), ..self },
            }
        }
    }

    /// Takes back the latest fill: the request is counted, and the cell
    /// last recorded in the history, if there is one, is emptied and put on
    /// the redo stack with the digit it held.
    pub open spec fn undo(self) -> BoardView {
        if !self.playing() {
            self
        } else if self.history.len() == 0 {
            BoardView { undos: self.undos + 1, ..self }
        } else {
            let p = self.history.last();
            BoardView {
                undos: self.undos + 1,
                history: self.history.drop_last(),
                redo: self.redo.push((p, self.cells[p.0][p.1])),
                cells: grid_set(self.cells, p, 0),
                ..self
            }
        }
    }

    /// Restores the entry on top of the redo stack, if there is one. The
    /// history and the phase stay as they are.
    pub open spec fn redo(self) -> BoardView {
        if !self.playing() || self.redo.len() == 0 {
            self
        } else {
            let (p, v) = self.redo.last();
            BoardView { redo: self.redo.drop_last(), cells: grid_set(self.cells, p, v), ..self }
        }
    }

    /// The cell that a hint reveals when `draw` is the number drawn, if the
    /// session is being played and has an editable cell.
    pub open spec fn pick(self, draw: int) -> Option<(int, int)> {
        let cand = candidates(self.editable);
        if !self.playing() || cand.len() == 0 {
            None
        } else {
            Some(cand[draw % (cand.len() as int)])
        }
    }

    /// Reveals one editable cell: the hint is counted, the cell takes the
    /// answer's digit and stops being editable. Nothing happens without an
    /// editable cell.
    pub open spec fn hint(self, draw: int) -> BoardView {
        match self.pick(draw) {
            None => self,
            Some(p) => BoardView {
                hints: self.hints + 1,
                editable: grid_set(self.editable, p, false),
                ..self.place(p, self.answer[p.0][p.1])
            },
        }
    }

    /// Moves the focus in direction `d`.
    pub open spec fn move_focus(self, d: Direction) -> BoardView {
        if !self.playing() {
            self
        } else {
            BoardView { focus: target(self.editable, d, self.focus), ..self }
        }
    }

    /// Moves the focus to the cell shown at row offset `y`, column offset
    /// `x` of the panel, if a cell is shown there and it is editable.
    pub open spec fn press(self, y: int, x: int) -> BoardView {
        match resolve(y, x) {
            Some(p) => if self.playing() && on(self.editable, p) {
                BoardView { focus: p, ..self }
            } else {
                self
            },
            None => self,
        }
    }

    /// Replaces the session by a fresh one on the supplied pair. A puzzle
    /// without an empty cell is refused and leaves the session as it is.
    pub open spec fn restart_with(self, answer: Seq<Seq<u8>>, puzzle: Seq<Seq<u8>>) -> BoardView {
        if has_blank(puzzle) {
            BoardView::fresh(answer, puzzle)
        } else {
            self
        }
    }

    /// Starts play on the supplied pair. Only a session that waits to be
    /// started does so, and only on a puzzle with an empty cell.
    pub open spec fn start_with(self, answer: Seq<Seq<u8>>, puzzle: Seq<Seq<u8>>) -> BoardView {
        if self.state is Config && has_blank(puzzle) {
            BoardView { state: BoardState::Playing, ..BoardView::fresh(answer, puzzle) }
        } else {
            self
        }
    }

    /// Leaves the finished game; the completed grid stays.
    pub open spec fn acknowledge(self) -> BoardView {
        if self.state is Finish {
            BoardView { state: BoardState::Config, ..self }
        } else {
            self
        }
    }

    /// The state after one command of play.
    pub open spec fn step(self, op: Op) -> BoardView {
        match op {
            Op::Fill(v) => self.fill(v),
            Op::Undo => self.undo(),
            Op::Redo => self.redo(),
            Op::Hint(draw) => self.hint(draw),
            Op::Move(d) => self.move_focus(d),
            Op::Press(y, x) => self.press(y, x),
        }
    }

    /// The cell that the command `op` writes to, if it writes to one.
    pub open spec fn written(self, op: Op) -> Option<(int, int)> {
        if !self.playing() {
            None
        } else {
            match op {
                Op::Fill(v) => if conflict_of(self.cells, v, self.focus) is None {
                    Some(self.focus)
                } else {
                    None
                },
                Op::Undo => if self.history.len() > 0 {
                    Some(self.history.last())
                } else {
                    None
                },
                Op::Redo => if self.redo.len() > 0 {
                    Some(self.redo.last().0)
                } else {
                    None
                },
                Op::Hint(draw) => self.pick(draw),
                _ => None,
            }
        }
    }

    /// The state after the commands `ops`, played in order.
    pub open spec fn run(self, ops: Seq<Op>) -> BoardView
        decreases ops.len(),
    {
        if ops.len() == 0 {
            self
        } else {
            self.run(ops.drop_last()).step(ops.last())
        }
    }

    /// Every command of the run `ops` that writes to a cell writes to one
    /// that is editable when the command comes.
    pub open spec fn spares_clues(self, ops: Seq<Op>) -> bool
        decreases ops.len(),
    {
        ops.len() == 0 || {
            let before = self.run(ops.drop_last());
            &&& self.spares_clues(ops.drop_last())
            &&& (before.written(ops.last()) matches Some(p) ==> on(before.editable, p))
        }
    }

    /// The state after `t` moves of the focus in direction `d`.
    pub open spec fn repeat_move(self, d: Direction, t: nat) -> BoardView
        decreases t,
    {
        if t == 0 {
            self
        } else {
            self.repeat_move(d, (t - 1) as nat).move_focus(d)
        }
    }
}

} // verus!
