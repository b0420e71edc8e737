//! What holds of every session, whatever is played.

use crate::model::{
    candidates, cell_at, follows, has_blank, index_of, lemma_editable_before, lemma_target_at,
    lemma_target_in_grid, lemma_target_stays, on, ring, supplied, target, BoardView, Direction,
    Op,
};
use crate::sudoku::{
    at, blank_mask, clashes, complete, conflict_of, consistent, in_grid, is_grid,
    lemma_conflict_is_clash, lemma_no_conflict_means_no_clash, same_unit, solved_grid,
};
use vstd::arithmetic::div_mod::{
    lemma_add_mod_noop, lemma_fundamental_div_mod, lemma_mod_multiples_vanish, lemma_mod_self_0,
    lemma_small_mod,
};
use vstd::prelude::*;

verus! {

/// A command of play leaves a well-formed state well-formed.
pub proof fn lemma_step_wf(m: BoardView, op: Op)
    requires
        m.wf(),
    ensures
        m.step(op).wf(),
{
    lemma_editable_before(m.editable, 81);
    match op {
        Op::Fill(v) => {
            if conflict_of(m.cells, v, m.focus) is Some {
                lemma_conflict_is_clash(m.cells, v, m.focus);
            }
        },
        Op::Move(d) => {
            lemma_target_in_grid(m.editable, d, m.focus);
        },
        _ => {},
    }
}

/// A run of commands leaves a well-formed state well-formed.
pub proof fn lemma_run_wf(m: BoardView, ops: Seq<Op>)
    requires
        m.wf(),
    ensures
        m.run(ops).wf(),
    decreases ops.len(),
{
    if ops.len() > 0 {
        lemma_run_wf(m, ops.drop_last());
        lemma_step_wf(m.run(ops.drop_last()), ops.last());
    }
}

/// A command of play changes at most the cell it writes to, and makes no
/// cell editable. A hint writes to an editable cell only.
pub proof fn lemma_step_frame(m: BoardView, op: Op)
    requires
        m.wf(),
    ensures
        forall|q: (int, int)|
            in_grid(q) && m.written(op) != Some(q) ==> #[trigger] m.step(op).cells[q.0][q.1]
                == m.cells[q.0][q.1],
        forall|q: (int, int)|
            in_grid(q) && !on(m.editable, q) ==> !#[trigger] on(m.step(op).editable, q),
        op is Hint ==> (m.written(op) matches Some(p) ==> on(m.editable, p)),
        m.step(op).answer == m.answer,
{
    lemma_editable_before(m.editable, 81);
}

/// The focus of a fresh session rests on an empty, editable cell.
pub proof fn lemma_fresh_focus_is_editable(answer: Seq<Seq<u8>>, puzzle: Seq<Seq<u8>>)
    requires
        has_blank(puzzle),
    ensures
        in_grid(BoardView::fresh(answer, puzzle).focus),
        on(BoardView::fresh(answer, puzzle).editable, BoardView::fresh(answer, puzzle).focus),
        at(puzzle, BoardView::fresh(answer, puzzle).focus) == 0,
{
    lemma_editable_before(blank_mask(puzzle), 81);
    let p = candidates(blank_mask(puzzle))[0];
    assert(in_grid(p) && on(blank_mask(puzzle), p));
}

/// A command of play leaves the focus on an editable cell, unless it is a
/// hint that reveals the very cell under the focus.
pub proof fn lemma_focus_stays_editable(m: BoardView, op: Op)
    requires
        m.wf(),
        on(m.editable, m.focus),
        !(op is Hint && m.written(op) == Some(m.focus)),
    ensures
        on(m.step(op).editable, m.step(op).focus),
{
    lemma_editable_before(m.editable, 81);
    match op {
        Op::Move(d) => {
            lemma_target_in_grid(m.editable, d, m.focus);
        },
        _ => {},
    }
}

/// Undo followed by redo, on a history that is not empty: the grid and the
/// redo stack are as before, and the history has lost its latest entry.
pub proof fn lemma_undo_then_redo(m: BoardView)
    requires
        m.wf(),
        m.playing(),
        m.history.len() > 0,
    ensures
        m.undo().redo().cells == m.cells,
        m.undo().redo().redo == m.redo,
        m.undo().redo().history == m.history.drop_last(),
        m.undo().redo() == (BoardView {
            undos: m.undos + 1,
            history: m.history.drop_last(),
            ..m
        }),
{
    let back = m.undo().redo();
    assert(back.cells =~~= m.cells);
    assert(back.redo =~= m.redo);
}

/// A fill that is written, then undo, then redo: the grid is exactly as
/// the fill left it, with the digit at the focus, and so is the redo stack.
/// The history is as it was before the fill, for redo records nothing; where
/// the fill completed the grid, undo and redo come too late and change
/// nothing at all.
pub proof fn lemma_fill_undo_redo(m: BoardView, v: u8)
    requires
        m.wf(),
        m.playing(),
        conflict_of(m.cells, v, m.focus) is None,
    ensures
        m.fill(v).undo().redo().cells == m.fill(v).cells,
        m.fill(v).undo().redo().cells[m.focus.0][m.focus.1] == v,
        m.fill(v).undo().redo().redo == m.fill(v).redo,
        m.fill(v).playing() ==> m.fill(v).undo().redo().history == m.history,
        !m.fill(v).playing() ==> m.fill(v).undo().redo() == m.fill(v),
{
    let filled = m.fill(v);
    lemma_step_wf(m, Op::Fill(v));
    if filled.playing() {
        lemma_undo_then_redo(filled);
        assert(filled.history.drop_last() =~= m.history);
    }
}

/// Undo on an empty history counts the request and changes nothing else.
pub proof fn lemma_undo_on_empty_history(m: BoardView)
    requires
        m.playing(),
        m.history.len() == 0,
    ensures
        m.undo() == (BoardView { undos: m.undos + 1, ..m }),
{
}

/// A cell that is not editable is not editable after any run of commands.
pub proof fn lemma_clues_stay_clues(m: BoardView, ops: Seq<Op>, q: (int, int))
    requires
        m.wf(),
        in_grid(q),
        !on(m.editable, q),
    ensures
        !on(m.run(ops).editable, q),
    decreases ops.len(),
{
    if ops.len() > 0 {
        lemma_clues_stay_clues(m, ops.drop_last(), q);
        lemma_run_wf(m, ops.drop_last());
        lemma_step_frame(m.run(ops.drop_last()), ops.last());
    }
}

/// A cell that is not editable keeps its digit through every run of
/// commands in which each write goes to a cell that is editable at the time.
pub proof fn lemma_clues_keep_value(m: BoardView, ops: Seq<Op>, q: (int, int))
    requires
        m.wf(),
        in_grid(q),
        !on(m.editable, q),
        m.spares_clues(ops),
    ensures
        m.run(ops).cells[q.0][q.1] == m.cells[q.0][q.1],
    decreases ops.len(),
{
    if ops.len() > 0 {
        let before = m.run(ops.drop_last());
        lemma_clues_keep_value(m, ops.drop_last(), q);
        lemma_clues_stay_clues(m, ops.drop_last(), q);
        lemma_run_wf(m, ops.drop_last());
        lemma_step_frame(before, ops.last());
    }
}

/// The cell that a hint picks is editable before the hint and not after it,
/// and no hint picks it again, whatever is played in between.
pub proof fn lemma_hint_never_repeats(
    m: BoardView,
    draw: int,
    ops: Seq<Op>,
    later: int,
    c: (int, int),
)
    requires
        m.wf(),
        m.pick(draw) == Some(c),
    ensures
        in_grid(c),
        on(m.editable, c),
        !on(m.hint(draw).editable, c),
        m.hint(draw).run(ops).pick(later) != Some(c),
{
    lemma_editable_before(m.editable, 81);
    let hinted = m.hint(draw);
    lemma_step_wf(m, Op::Hint(draw));
    lemma_clues_stay_clues(hinted, ops, c);
    lemma_run_wf(hinted, ops);
    lemma_editable_before(hinted.run(ops).editable, 81);
}

/// Outside the playing phase a command of play changes nothing.
pub proof fn lemma_step_outside_play(m: BoardView, op: Op)
    requires
        !m.playing(),
    ensures
        m.step(op) == m,
{
}

/// Outside the playing phase a run of commands changes nothing: a session
/// that waits for a start stays so, and a finished one stays finished.
pub proof fn lemma_run_outside_play(m: BoardView, ops: Seq<Op>)
    requires
        !m.playing(),
    ensures
        m.run(ops) == m,
    decreases ops.len(),
{
    if ops.len() > 0 {
        lemma_run_outside_play(m, ops.drop_last());
    }
}

/// How a game ends: only a fill or a hint ends it, only during play, and
/// exactly when the digit it writes completes the grid. No command of play
/// leads back to the phase that waits for a start.
pub proof fn lemma_finish_by_completing(m: BoardView, op: Op)
    requires
        m.wf(),
        m.playing(),
    ensures
        m.step(op).state is Finish ==> (op is Fill || op is Hint) && m.written(op) is Some
            && complete(m.step(op).cells),
        (op is Fill || op is Hint) && m.written(op) is Some ==> (m.step(op).state is Finish
            <==> complete(m.step(op).cells)),
        !(m.step(op).state is Config),
{
}

/// The position after `i` on a ring of `n` positions.
pub open spec fn following(i: int, n: int) -> int {
    if i + 1 < n {
        i + 1
    } else {
        0
    }
}

/// Between two neighbours in the list of editable cells, before the first
/// of them and after the last of them, no cell is editable.
proof fn lemma_no_candidate_between(e: Seq<Seq<bool>>, lo: int, hi: int, x: int)
    requires
        -1 <= lo < candidates(e).len(),
        hi == lo + 1,
        0 <= x < 81,
        lo >= 0 ==> index_of(candidates(e)[lo]) < x,
        hi < candidates(e).len() ==> x < index_of(candidates(e)[hi]),
    ensures
        !on(e, cell_at(x)),
{
    let cand = candidates(e);
    lemma_editable_before(e, 81);
    if on(e, cell_at(x)) {
        let t = choose|t: int| 0 <= t < cand.len() && #[trigger] cand[t] == cell_at(x);
        assert(index_of(cand[t]) == x);
        if t < lo {
            assert(index_of(cand[t]) < index_of(cand[lo]));
        } else if t > hi {
            assert(index_of(cand[hi]) < index_of(cand[t]));
        }
    }
}

/// A sum of two positions, taken round the ring of 81.
proof fn lemma_wrap_once(a: int, k: int)
    requires
        0 <= a < 81,
        0 <= k < 81,
    ensures
        (a + k) % 81 == if a + k < 81 {
            a + k
        } else {
            a + k - 81
        },
{
}

/// The cell reached after `k` steps to the next cell, by its position in
/// reading order.
proof fn lemma_ring_next(p: (int, int), k: int)
    requires
        in_grid(p),
        0 <= k < 81,
    ensures
        ring(Direction::Next, p, k) == cell_at(
            if index_of(p) + k < 81 {
                index_of(p) + k
            } else {
                index_of(p) + k - 81
            },
        ),
{
    lemma_wrap_once(index_of(p), k);
}

/// From an editable cell, a move to the next cell arrives at the editable
/// cell that follows it in reading order, and from the last of them at the
/// first.
pub proof fn lemma_next_is_following(e: Seq<Seq<bool>>, i: int)
    requires
        0 <= i < candidates(e).len(),
    ensures
        target(e, Direction::Next, candidates(e)[i]) == candidates(e)[following(
            i,
            candidates(e).len() as int,
        )],
{
    let cand = candidates(e);
    let n = cand.len() as int;
    let p = cand[i];
    let d = Direction::Next;
    let a = index_of(p);
    assert(in_grid(p) && on(e, p) && 0 <= a < 81 && cell_at(a) == p) by {
        lemma_editable_before(e, 81);
    }
    if i + 1 < n {
        let q = cand[i + 1];
        let b = index_of(q);
        assert(in_grid(q) && on(e, q) && a < b < 81 && cell_at(b) == q) by {
            lemma_editable_before(e, 81);
        }
        let k = b - a;
        lemma_ring_next(p, k);
        assert forall|j: int| 1 <= j < k implies !on(e, #[trigger] ring(d, p, j)) by {
            lemma_ring_next(p, j);
            lemma_no_candidate_between(e, i, i + 1, a + j);
        }
        lemma_target_at(e, d, p, k);
    } else if n == 1 {
        assert forall|k: int| 1 <= k < 81 implies !on(e, #[trigger] ring(d, p, k)) by {
            lemma_ring_next(p, k);
            if a + k < 81 {
                lemma_no_candidate_between(e, 0, 1, a + k);
            } else {
                lemma_no_candidate_between(e, -1, 0, a + k - 81);
            }
        }
        lemma_target_stays(e, d, p);
    } else {
        let q = cand[0];
        let b = index_of(q);
        assert(in_grid(q) && on(e, q) && 0 <= b < a && cell_at(b) == q) by {
            lemma_editable_before(e, 81);
        }
        let k = 81 - a + b;
        lemma_ring_next(p, k);
        assert forall|j: int| 1 <= j < k implies !on(e, #[trigger] ring(d, p, j)) by {
            lemma_ring_next(p, j);
            if a + j < 81 {
                lemma_no_candidate_between(e, i, i + 1, a + j);
            } else {
                lemma_no_candidate_between(e, -1, 0, a + j - 81);
            }
        }
        lemma_target_at(e, d, p, k);
    }
}

/// With the focus on the editable cell at position `i` of their reading
/// order, `t` moves to the next cell bring it to the one at position
/// `i + t`, counted round the ring of editable cells. Nothing else changes.
pub proof fn lemma_next_rotates(m: BoardView, i: int, t: nat)
    requires
        m.playing(),
        0 <= i < candidates(m.editable).len(),
        m.focus == candidates(m.editable)[i],
    ensures
        0 <= (i + t) % (candidates(m.editable).len() as int) < candidates(m.editable).len(),
        m.repeat_move(Direction::Next, t) == (BoardView {
            focus: candidates(m.editable)[(i + t) % (candidates(m.editable).len() as int)],
            ..m
        }),
    decreases t,
{
    let n = candidates(m.editable).len() as int;
    if t == 0 {
        lemma_small_mod(i as nat, n as nat);
    } else {
        lemma_next_rotates(m, i, (t - 1) as nat);
        let at = (i + t - 1) % n;
        lemma_next_is_following(m.editable, at);
        lemma_add_mod_noop(i + t - 1, 1, n);
        if n == 1 {
            lemma_mod_self_0(n);
            lemma_small_mod(0, n as nat);
        } else {
            lemma_small_mod(1, n as nat);
            if at + 1 < n {
                lemma_small_mod((at + 1) as nat, n as nat);
            } else {
                lemma_mod_self_0(n);
            }
        }
        assert((i + t) % n == following(at, n));
    }
}

/// Moving to the next cell goes round the editable cells: from an editable
/// focus, as many moves as there are editable cells lead back to it, and so
/// does every multiple of that number, and no other number of moves. So 81
/// moves lead back exactly when the number of editable cells divides 81.
pub proof fn lemma_next_cycle(m: BoardView, t: nat)
    requires
        m.wf(),
        m.playing(),
        on(m.editable, m.focus),
    ensures
        candidates(m.editable).len() > 0,
        m.repeat_move(Direction::Next, candidates(m.editable).len()) == m,
        m.repeat_move(Direction::Next, t).focus == m.focus <==> t % candidates(
            m.editable,
        ).len() == 0,
        m.repeat_move(Direction::Next, 81).focus == m.focus <==> 81nat % candidates(
            m.editable,
        ).len() == 0,
{
    let cand = candidates(m.editable);
    lemma_editable_before(m.editable, 81);
    assert(cell_at(index_of(m.focus)) == m.focus);
    let i = choose|i: int| 0 <= i < cand.len() && #[trigger] cand[i] == m.focus;
    let n = cand.len() as int;
    lemma_next_rotates(m, i, n as nat);
    lemma_mod_self_0(n);
    lemma_add_mod_noop(i, n, n);
    lemma_small_mod(i as nat, n as nat);
    assert((i + n) % n == i);
    lemma_returns_on_multiples(m, i, t);
    lemma_returns_on_multiples(m, i, 81);
}

/// With the focus on the editable cell at position `i`, `t` moves to the
/// next cell lead back to it exactly when `t` is a multiple of the number of
/// editable cells.
proof fn lemma_returns_on_multiples(m: BoardView, i: int, t: nat)
    requires
        m.playing(),
        0 <= i < candidates(m.editable).len(),
        m.focus == candidates(m.editable)[i],
    ensures
        m.repeat_move(Direction::Next, t).focus == m.focus <==> t % candidates(
            m.editable,
        ).len() == 0,
{
    let cand = candidates(m.editable);
    let n = cand.len() as int;
    lemma_editable_before(m.editable, 81);
    lemma_next_rotates(m, i, t);
    let at = (i + t) % n;
    lemma_add_mod_noop(i, t as int, n);
    lemma_small_mod(i as nat, n as nat);
    let r = (t as int) % n;
    assert(at == (i + r) % n);
    if r == 0 {
        assert(at == i);
    } else {
        if i + r < n {
            lemma_small_mod((i + r) as nat, n as nat);
        } else {
            lemma_fundamental_div_mod(i + r, n);
            lemma_mod_multiples_vanish(1, i + r - n, n);
            lemma_small_mod((i + r - n) as nat, n as nat);
        }
        assert(at != i);
        if at < i {
            assert(index_of(cand[at]) < index_of(cand[i]));
        } else {
            assert(index_of(cand[i]) < index_of(cand[at]));
        }
    }
}

/// A fill that is written keeps the rules: on a grid where no row, column or
/// box holds a digit twice, none does after the fill.
pub proof fn lemma_fill_keeps_rules(m: BoardView, v: u8)
    requires
        m.wf(),
        1 <= v <= 9,
        consistent(m.cells),
    ensures
        consistent(m.fill(v).cells),
{
    if m.playing() && conflict_of(m.cells, v, m.focus) is None {
        let after = m.fill(v).cells;
        lemma_no_conflict_means_no_clash(m.cells, v, m.focus);
        assert forall|p: (int, int), q: (int, int)|
            in_grid(p) && in_grid(q) && p != q && #[trigger] same_unit(p, q) && at(after, p)
                != 0 implies at(after, p) != at(after, q) by {
            if p == m.focus {
                assert(!clashes(m.cells, v, m.focus, q));
            } else if q == m.focus {
                assert(same_unit(q, p));
                assert(!clashes(m.cells, v, m.focus, p));
            } else {
                assert(at(m.cells, p) != at(m.cells, q));
            }
        }
    }
}

/// Undo keeps the rules, for it only empties a cell.
pub proof fn lemma_undo_keeps_rules(m: BoardView)
    requires
        m.wf(),
        consistent(m.cells),
    ensures
        consistent(m.undo().cells),
{
    let after = m.undo().cells;
    assert forall|p: (int, int), q: (int, int)|
        in_grid(p) && in_grid(q) && p != q && #[trigger] same_unit(p, q) && at(after, p)
            != 0 implies at(after, p) != at(after, q) by {
        assert(at(m.cells, p) != 0 ==> at(m.cells, p) != at(m.cells, q));
        assert(same_unit(q, p));
        assert(at(m.cells, q) != 0 ==> at(m.cells, q) != at(m.cells, p));
    }
}

/// The puzzle of a supplied pair agrees with its answer, so a fresh session
/// starts with a grid that follows the answer.
pub proof fn lemma_fresh_follows_answer(answer: Seq<Seq<u8>>, puzzle: Seq<Seq<u8>>)
    requires
        supplied(answer, puzzle),
    ensures
        follows(BoardView::fresh(answer, puzzle).cells, BoardView::fresh(answer, puzzle).answer),
        solved_grid(BoardView::fresh(answer, puzzle).answer),
{
}

/// On a grid that follows a solved answer, the answer's digit for a cell is
/// never rejected there.
pub proof fn lemma_answer_is_accepted(cells: Seq<Seq<u8>>, answer: Seq<Seq<u8>>, p: (int, int))
    requires
        is_grid(cells),
        solved_grid(answer),
        follows(cells, answer),
        in_grid(p),
    ensures
        conflict_of(cells, at(answer, p), p) is None,
{
    let v = at(answer, p);
    assert forall|q: (int, int)| in_grid(q) && same_unit(p, q) implies !#[trigger] clashes(
        cells,
        v,
        p,
        q,
    ) by {
        if q != p && at(cells, q) == v {
            assert(at(cells, q) == at(answer, q));
            assert(same_unit(p, q));
        }
    }
    lemma_no_conflict_means_no_clash(cells, v, p);
}

/// A hint leaves a grid that follows the answer following it.
pub proof fn lemma_hint_follows_answer(m: BoardView, draw: int)
    requires
        m.wf(),
        follows(m.cells, m.answer),
    ensures
        follows(m.hint(draw).cells, m.hint(draw).answer),
{
    lemma_editable_before(m.editable, 81);
    let after = m.hint(draw);
    assert forall|q: (int, int)| in_grid(q) implies #[trigger] at(after.cells, q) == 0 || at(
        after.cells,
        q,
    ) == at(after.answer, q) by {
        assert(at(m.cells, q) == 0 || at(m.cells, q) == at(m.answer, q));
    }
}

/// A complete grid that follows the answer is the answer.
pub proof fn lemma_complete_is_answer(cells: Seq<Seq<u8>>, answer: Seq<Seq<u8>>)
    requires
        is_grid(cells),
        is_grid(answer),
        follows(cells, answer),
        complete(cells),
    ensures
        cells == answer,
{
    assert forall|r: int, c: int| 0 <= r < 9 && 0 <= c < 9 implies cells[r][c] == answer[r][c] by {
        assert(at(cells, (r, c)) == 0 || at(cells, (r, c)) == at(answer, (r, c)));
    }
    assert(cells =~~= answer);
}

} // verus!
