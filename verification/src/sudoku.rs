//! The 9×9 grid: cell values, the mask of player-editable cells, and the
//! row / column / box rule check.

use vstd::prelude::*;
use vstd::string::StringExecFns;

verus! {

/// Nine rows of nine digits; `0` marks an empty cell.
pub type SudokuMatrix = [[u8; 9]; 9];

/// A cell address: `[row, column]`.
pub type Coord = [usize; 2];

/// A 9×9 array read as a sequence of nine rows of nine entries.
pub open spec fn grid_view<T>(m: [[T; 9]; 9]) -> Seq<Seq<T>> {
    Seq::new(9, |r: int| Seq::new(9, |c: int| m[r][c]))
}

/// A sequence of rows has the 9×9 shape.
pub open spec fn is_grid<T>(g: Seq<Seq<T>>) -> bool {
    g.len() == 9 && forall|r: int| 0 <= r < 9 ==> (#[trigger] g[r]).len() == 9
}

/// `p` addresses one of the 81 cells.
pub open spec fn in_grid(p: (int, int)) -> bool {
    0 <= p.0 < 9 && 0 <= p.1 < 9
}

/// The grid `g` with the entry at `p` replaced by `x`.
pub open spec fn grid_set<T>(g: Seq<Seq<T>>, p: (int, int), x: T) -> Seq<Seq<T>> {
    g.update(p.0, g[p.0].update(p.1, x))
}

/// The mask that marks exactly the empty cells of `g`.
pub open spec fn blank_mask(g: Seq<Seq<u8>>) -> Seq<Seq<bool>> {
    Seq::new(9, |r: int| Seq::new(9, |c: int| g[r][c] == 0))
}

/// No cell of `g` is empty.
pub open spec fn complete(g: Seq<Seq<u8>>) -> bool {
    forall|r: int, c: int| 0 <= r < 9 && 0 <= c < 9 ==> g[r][c] != 0
}

/// The entry of the grid `g` at the cell `p`.
pub open spec fn at<T>(g: Seq<Seq<T>>, p: (int, int)) -> T {
    g[p.0][p.1]
}

/// The grid is a solved Sudoku: every cell holds a digit from 1 to 9, and no
/// row, column or box holds a digit twice.
pub open spec fn solved_grid(g: Seq<Seq<u8>>) -> bool {
    &&& is_grid(g)
    &&& forall|p: (int, int)| in_grid(p) ==> 1 <= #[trigger] at(g, p) <= 9
    &&& forall|p: (int, int), q: (int, int)|
        in_grid(p) && in_grid(q) && p != q && #[trigger] same_unit(p, q) ==> at(g, p) != at(g, q)
}

/// The grid obeys the rules as far as it is filled: no row, column or box
/// holds a digit twice.
pub open spec fn consistent(g: Seq<Seq<u8>>) -> bool {
    forall|p: (int, int), q: (int, int)|
        in_grid(p) && in_grid(q) && p != q && #[trigger] same_unit(p, q) && at(g, p) != 0 ==> at(
            g,
            p,
        ) != at(g, q)
}

/// A `[row, column]` pair as a mathematical point.
pub open spec fn point(c: Coord) -> (int, int) {
    (c[0] as int, c[1] as int)
}

/// An optional `[row, column]` pair as an optional point.
pub open spec fn opt_point(c: Option<Coord>) -> Option<(int, int)> {
    match c {
        Some(c) => Some(point(c)),
        None => None,
    }
}

/// `p` and `q` lie in the same row, the same column or the same 3×3 box.
pub open spec fn same_unit(p: (int, int), q: (int, int)) -> bool {
    p.0 == q.0 || p.1 == q.1 || (p.0 / 3 == q.0 / 3 && p.1 / 3 == q.1 / 3)
}

/// The 27 cells that the rule check for `p` inspects, in the order in which
/// it inspects them: the row of `p` from left to right, then its column from
/// top to bottom, then its 3×3 box row by row.
pub open spec fn search_order(p: (int, int)) -> Seq<(int, int)> {
    Seq::new(
        27,
        |k: int|
            if k < 9 {
                (p.0, k)
            } else if k < 18 {
                (k - 9, p.1)
            } else {
                (p.0 / 3 * 3 + (k - 18) / 3, p.1 / 3 * 3 + (k - 18) % 3)
            },
    )
}

/// The cell `q` is another cell than `p` and already holds `v`.
pub open spec fn clashes(g: Seq<Seq<u8>>, v: u8, p: (int, int), q: (int, int)) -> bool {
    q != p && g[q.0][q.1] == v
}

/// What a scan of the positions `lo..hi` of the search order reports: the
/// first clashing cell among them, or nothing when none of them clashes.
pub open spec fn scan(
    g: Seq<Seq<u8>>,
    v: u8,
    p: (int, int),
    lo: int,
    hi: int,
    hit: Option<(int, int)>,
) -> bool {
    match hit {
        Some(q) => exists|k: int|
            lo <= k < hi && q == #[trigger] search_order(p)[k] && first_clash_from(g, v, p, lo, k),
        None => forall|k: int|
            lo <= k < hi ==> !clashes(g, v, p, #[trigger] search_order(p)[k]),
    }
}

/// Position `k` of the search order clashes and no position in `lo..k` does.
pub open spec fn first_clash_from(g: Seq<Seq<u8>>, v: u8, p: (int, int), lo: int, k: int) -> bool {
    &&& clashes(g, v, p, search_order(p)[k])
    &&& forall|j: int| lo <= j < k ==> !clashes(g, v, p, #[trigger] search_order(p)[j])
}

/// Position `k` is the first of all 27 positions that clashes.
pub open spec fn first_clash(g: Seq<Seq<u8>>, v: u8, p: (int, int), k: int) -> bool {
    0 <= k < 27 && first_clash_from(g, v, p, 0, k)
}

/// The conflict reported for writing `v` at `p`: the first cell in the search
/// order, other than `p` itself, that already holds `v`.
pub open spec fn conflict_of(g: Seq<Seq<u8>>, v: u8, p: (int, int)) -> Option<(int, int)> {
    if exists|k: int| first_clash(g, v, p, k) {
        Some(search_order(p)[choose|k: int| first_clash(g, v, p, k)])
    } else {
        None
    }
}

/// The first clashing position is unique, so it determines the conflict.
pub proof fn lemma_conflict_at(g: Seq<Seq<u8>>, v: u8, p: (int, int), k: int)
    requires
        first_clash(g, v, p, k),
    ensures
        conflict_of(g, v, p) == Some(search_order(p)[k]),
{
}

/// Without a clashing position there is no conflict.
pub proof fn lemma_conflict_free(g: Seq<Seq<u8>>, v: u8, p: (int, int))
    requires
        forall|k: int| 0 <= k < 27 ==> !clashes(g, v, p, #[trigger] search_order(p)[k]),
    ensures
        conflict_of(g, v, p) is None,
{
}

/// A reported conflict is another cell of the grid, in a unit of `p`, that
/// holds `v`.
pub proof fn lemma_conflict_is_clash(g: Seq<Seq<u8>>, v: u8, p: (int, int))
    requires
        in_grid(p),
        conflict_of(g, v, p) is Some,
    ensures
        in_grid(conflict_of(g, v, p).unwrap()),
        same_unit(p, conflict_of(g, v, p).unwrap()),
        clashes(g, v, p, conflict_of(g, v, p).unwrap()),
{
}

/// Every cell that shares a unit with `p` stands in the search order of `p`.
pub proof fn lemma_search_order_covers(p: (int, int), q: (int, int))
    requires
        in_grid(p),
        in_grid(q),
        same_unit(p, q),
    ensures
        exists|k: int| 0 <= k < 27 && #[trigger] search_order(p)[k] == q,
{
    if p.0 == q.0 {
        assert(search_order(p)[q.1] == q);
    } else if p.1 == q.1 {
        assert(search_order(p)[q.0 + 9] == q);
    } else {
        let k = 18 + 3 * (q.0 - p.0 / 3 * 3) + (q.1 - p.1 / 3 * 3);
        assert(search_order(p)[k] == q);
    }
}

/// No conflict is reported for `v` at `p` exactly when no other cell in the
/// row, column or box of `p` holds `v`; writing `v` at `p` then leaves no such
/// cell either.
pub proof fn lemma_no_conflict_means_no_clash(g: Seq<Seq<u8>>, v: u8, p: (int, int))
    requires
        is_grid(g),
        in_grid(p),
    ensures
        conflict_of(g, v, p) is None <==> forall|q: (int, int)|
            in_grid(q) && same_unit(p, q) ==> !#[trigger] clashes(g, v, p, q),
        conflict_of(g, v, p) is None ==> forall|q: (int, int)|
            in_grid(q) && same_unit(p, q) ==> !#[trigger] clashes(grid_set(g, p, v), v, p, q),
{
    if conflict_of(g, v, p) is None {
        assert forall|q: (int, int)| in_grid(q) && same_unit(p, q) implies !#[trigger] clashes(
            g,
            v,
            p,
            q,
        ) by {
            if clashes(g, v, p, q) {
                lemma_search_order_covers(p, q);
                let k = choose|k: int| 0 <= k < 27 && #[trigger] search_order(p)[k] == q;
                lemma_clash_has_first(g, v, p, k);
            }
        }
        assert forall|q: (int, int)| in_grid(q) && same_unit(p, q) implies !#[trigger] clashes(
            grid_set(g, p, v),
            v,
            p,
            q,
        ) by {
            if q != p {
                assert(!clashes(g, v, p, q));
            }
        }
    } else {
        lemma_conflict_is_clash(g, v, p);
    }
}

/// A clashing position implies that some position is the first to clash.
proof fn lemma_clash_has_first(g: Seq<Seq<u8>>, v: u8, p: (int, int), k: int)
    requires
        0 <= k < 27,
        clashes(g, v, p, search_order(p)[k]),
    ensures
        exists|j: int| first_clash(g, v, p, j),
    decreases k,
{
    if forall|j: int| 0 <= j < k ==> !clashes(g, v, p, #[trigger] search_order(p)[j]) {
        assert(first_clash(g, v, p, k));
    } else {
        let j = choose|j: int| 0 <= j < k && clashes(g, v, p, #[trigger] search_order(p)[j]);
        lemma_clash_has_first(g, v, p, j);
    }
}

/// The character of the decimal digit `d`.
pub open spec fn digit_char(d: u8) -> char {
    (48 + d) as char
}

/// The number `v` in decimal notation.
pub open spec fn decimal(v: u8) -> Seq<char> {
    if v < 10 {
        seq![digit_char(v)]
    } else if v < 100 {
        seq![digit_char(v / 10), digit_char(v % 10)]
    } else {
        seq![digit_char(v / 100), digit_char(v / 10 % 10), digit_char(v % 10)]
    }
}

/// The first `n` entries of a row as text: each number in decimal notation,
/// followed by a space.
pub open spec fn row_text(row: Seq<u8>, n: int) -> Seq<char>
    decreases n,
{
    if n <= 0 {
        Seq::empty()
    } else {
        row_text(row, n - 1) + decimal(row[n - 1]) + seq![' ']
    }
}

/// The first `n` rows of a grid as text: each row on a line of its own.
pub open spec fn grid_text(g: Seq<Seq<u8>>, n: int) -> Seq<char>
    decreases n,
{
    if n <= 0 {
        Seq::empty()
    } else {
        grid_text(g, n - 1) + row_text(g[n - 1], 9) + seq!['\n']
    }
}

/// The decimal digit `d` as a string.
fn digit_str(d: u8) -> (s: &'static str)
    requires
        d < 10,
    ensures
        s@ == seq![digit_char(d)],
{
    proof {
        reveal_strlit("0");
        reveal_strlit("1");
        reveal_strlit("2");
        reveal_strlit("3");
        reveal_strlit("4");
        reveal_strlit("5");
        reveal_strlit("6");
        reveal_strlit("7");
        reveal_strlit("8");
        reveal_strlit("9");
    }
    match d {
        0 => "0",
        1 => "1",
        2 => "2",
        3 => "3",
        4 => "4",
        5 => "5",
        6 => "6",
        7 => "7",
        8 => "8",
        _ => "9",
    }
}

/// Appends the number `v` in decimal notation.
fn push_decimal(text: &mut String, v: u8)
    ensures
        final(text)@ == old(text)@ + decimal(v),
{
    if v >= 100 {
        text.append(digit_str(v / 100));
    }
    if v >= 10 {
        text.append(digit_str(v / 10 % 10));
    }
    text.append(digit_str(v % 10));
}

/// The grid: the current digits and the mask of cells that the player may
/// change.
#[derive(Debug)]
pub struct Sudoku {
    matrix: SudokuMatrix,
    pub available: [[bool; 9]; 9],
}

impl View for Sudoku {
    type V = Seq<Seq<u8>>;

    /// The digits, row by row.
    open spec fn view(&self) -> Seq<Seq<u8>> {
        grid_view(self.digits())
    }
}

impl Sudoku {
    /// The stored digits.
    pub closed spec fn digits(&self) -> SudokuMatrix {
        self.matrix
    }

    /// The stored mask.
    pub closed spec fn mask(&self) -> [[bool; 9]; 9] {
        self.available
    }

    /// The mask of editable cells, row by row.
    pub open spec fn editable(&self) -> Seq<Seq<bool>> {
        grid_view(self.mask())
    }

    fn find_availability(sudoku: &SudokuMatrix) -> (available: [[bool; 9]; 9])
        ensures
            grid_view(available) == blank_mask(grid_view(*sudoku)),
    {
        let mut available = [[false; 9]; 9];
        let mut i: usize = 0;
        while i < 9
            invariant
                i <= 9,
                forall|r: int, c: int|
                    0 <= r < i && 0 <= c < 9 ==> available[r][c] == (sudoku[r][c] == 0),
            decreases 9 - i,
        {
            let mut j: usize = 0;
            while j < 9
                invariant
                    i < 9,
                    j <= 9,
                    forall|r: int, c: int|
                        0 <= r < i && 0 <= c < 9 ==> available[r][c] == (sudoku[r][c] == 0),
                    forall|c: int|
                        0 <= c < j ==> available[i as int][c] == (sudoku[i as int][c] == 0),
                decreases 9 - j,
            {
                available[i][j] = sudoku[i][j] == 0;
                j += 1;
            }
            i += 1;
        }
        assert(grid_view(available) =~~= blank_mask(grid_view(*sudoku)));
        available
    }

    /// Builds the grid of a starting puzzle; its empty cells are the
    /// editable ones.
    pub fn from_matrix(matrix: SudokuMatrix) -> (s: Self)
        ensures
            s@ == grid_view(matrix),
            s.editable() == blank_mask(grid_view(matrix)),
    {
        matrix.into()
    }

    /// The digit at `coord`.
    pub fn get(&self, coord: Coord) -> (v: u8)
        requires
            in_grid(point(coord)),
        ensures
            v == self@[coord[0] as int][coord[1] as int],
    {
        self.matrix[coord[0]][coord[1]]
    }

    /// Writes `v` at `coord`, whether or not the cell is editable.
    pub fn set(&mut self, coord: Coord, v: u8)
        requires
            in_grid(point(coord)),
        ensures
            final(self)@ == grid_set(old(self)@, point(coord), v),
            final(self).editable() == old(self).editable(),
    {
        self.matrix[coord[0]][coord[1]] = v;
        assert(self@ =~~= grid_set(old(self)@, point(coord), v));
    }

    /// Whether the cell at `coord` is editable.
    pub fn is_available(&self, coord: Coord) -> (b: bool)
        requires
            in_grid(point(coord)),
        ensures
            b == self.editable()[coord[0] as int][coord[1] as int],
    {
        self.available[coord[0]][coord[1]]
    }

    /// Marks the cell at `coord` as editable or not.
    pub fn set_available(&mut self, coord: Coord, flag: bool)
        requires
            in_grid(point(coord)),
        ensures
            final(self).editable() == grid_set(old(self).editable(), point(coord), flag),
            final(self)@ == old(self)@,
    {
        self.available[coord[0]][coord[1]] = flag;
        assert(self.editable() =~~= grid_set(old(self).editable(), point(coord), flag));
    }

    /// The grid as text: nine lines, each with the nine numbers of a row,
    /// a space after each.
    pub fn to_string(&self) -> (text: String)
        ensures
            text@ == grid_text(self@, 9),
    {
        let mut text = String::new();
        let mut i: usize = 0;
        while i < 9
            invariant
                i <= 9,
                text@ == grid_text(self@, i as int),
            decreases 9 - i,
        {
            let ghost above = text@;
            let mut j: usize = 0;
            while j < 9
                invariant
                    i < 9,
                    j <= 9,
                    text@ == above + row_text(self@[i as int], j as int),
                decreases 9 - j,
            {
                push_decimal(&mut text, self.matrix[i][j]);
                proof {
                    reveal_strlit(" ");
                }
                text.append(" ");
                j += 1;
            }
            proof {
                reveal_strlit("\n");
            }
            text.append("\n");
            i += 1;
        }
        text
    }

    /// Whether every cell holds a digit.
    pub fn finished(&self) -> (done: bool)
        ensures
            done == complete(self@),
    {
        let mut i: usize = 0;
        while i < 9
            invariant
                i <= 9,
                forall|r: int, c: int| 0 <= r < i && 0 <= c < 9 ==> self@[r][c] != 0,
            decreases 9 - i,
        {
            let mut j: usize = 0;
            while j < 9
                invariant
                    i < 9,
                    j <= 9,
                    forall|r: int, c: int| 0 <= r < i && 0 <= c < 9 ==> self@[r][c] != 0,
                    forall|c: int| 0 <= c < j ==> self@[i as int][c] != 0,
                decreases 9 - j,
            {
                if self.matrix[i][j] == 0 {
                    assert(self@[i as int][j as int] == 0);
                    return false;
                }
                j += 1;
            }
            i += 1;
        }
        true
    }

    /// The rule check: the first cell, other than `coord` itself, that
    /// already holds `v` — searching the row of `coord`, then its column,
    /// then its box.
    pub fn conflict(&self, v: u8, coord: Coord) -> (hit: Option<[usize; 2]>)
        requires
            in_grid(point(coord)),
        ensures
            opt_point(hit) == conflict_of(self@, v, point(coord)),
    {
        let ghost g = self@;
        let ghost p = point(coord);
        if let Some(q) = self.conflict_row(v, coord) {
            proof {
                let k = choose|k: int|
                    0 <= k < 9 && point(q) == #[trigger] search_order(p)[k] && first_clash_from(
                        g,
                        v,
                        p,
                        0,
                        k,
                    );
                lemma_conflict_at(g, v, p, k);
            }
            Some(q)
        } else if let Some(q) = self.conflict_col(v, coord) {
            proof {
                let k = choose|k: int|
                    9 <= k < 18 && point(q) == #[trigger] search_order(p)[k] && first_clash_from(
                        g,
                        v,
                        p,
                        9,
                        k,
                    );
                lemma_conflict_at(g, v, p, k);
            }
            Some(q)
        } else if let Some(q) = self.conflict_box(v, coord) {
            proof {
                let k = choose|k: int|
                    18 <= k < 27 && point(q) == #[trigger] search_order(p)[k] && first_clash_from(
                        g,
                        v,
                        p,
                        18,
                        k,
                    );
                lemma_conflict_at(g, v, p, k);
            }
            Some(q)
        } else {
            proof {
                lemma_conflict_free(g, v, p);
            }
            None
        }
    }

    fn conflict_row(&self, v: u8, coord: Coord) -> (hit: Option<[usize; 2]>)
        requires
            in_grid(point(coord)),
        ensures
            scan(self@, v, point(coord), 0, 9, opt_point(hit)),
    {
        let i_ = coord[0];
        let j_ = coord[1];
        let ghost p = point(coord);
        let mut j: usize = 0;
        while j < 9
            invariant
                j <= 9,
                i_ < 9,
                j_ < 9,
                i_ == coord[0],
                j_ == coord[1],
                p == point(coord),
                forall|k: int| 0 <= k < j ==> !clashes(self@, v, p, #[trigger] search_order(p)[k]),
            decreases 9 - j,
        {
            if self.matrix[i_][j] == v && j != j_ {
                assert(point([i_, j]) == search_order(p)[j as int]);
                return Some([i_, j]);
            }
            j += 1;
        }
        None
    }

    fn conflict_col(&self, v: u8, coord: Coord) -> (hit: Option<[usize; 2]>)
        requires
            in_grid(point(coord)),
        ensures
            scan(self@, v, point(coord), 9, 18, opt_point(hit)),
    {
        let i_ = coord[0];
        let j_ = coord[1];
        let ghost p = point(coord);
        let mut i: usize = 0;
        while i < 9
            invariant
                i <= 9,
                i_ < 9,
                j_ < 9,
                i_ == coord[0],
                j_ == coord[1],
                p == point(coord),
                forall|k: int|
                    9 <= k < 9 + i ==> !clashes(self@, v, p, #[trigger] search_order(p)[k]),
            decreases 9 - i,
        {
            if self.matrix[i][j_] == v && i != i_ {
                assert(point([i, j_]) == search_order(p)[9 + i as int]);
                return Some([i, j_]);
            }
            i += 1;
        }
        None
    }

    fn conflict_box(&self, v: u8, coord: Coord) -> (hit: Option<[usize; 2]>)
        requires
            in_grid(point(coord)),
        ensures
            scan(self@, v, point(coord), 18, 27, opt_point(hit)),
    {
        let ghost p = point(coord);
        let top = coord[0] / 3 * 3;
        let left = coord[1] / 3 * 3;
        let mut i: usize = top;
        while i < top + 3
            invariant
                top <= i <= top + 3,
                top == p.0 / 3 * 3,
                left == p.1 / 3 * 3,
                top <= 6,
                left <= 6,
                p == point(coord),
                forall|k: int|
                    18 <= k < 18 + 3 * (i - top) ==> !clashes(
                        self@,
                        v,
                        p,
                        #[trigger] search_order(p)[k],
                    ),
            decreases top + 3 - i,
        {
            let mut j: usize = left;
            while j < left + 3
                invariant
                    top <= i < top + 3,
                    left <= j <= left + 3,
                    top == p.0 / 3 * 3,
                    left == p.1 / 3 * 3,
                    top <= 6,
                    left <= 6,
                    p == point(coord),
                    forall|k: int|
                        18 <= k < 18 + 3 * (i - top) + (j - left) ==> !clashes(
                            self@,
                            v,
                            p,
                            #[trigger] search_order(p)[k],
                        ),
                decreases left + 3 - j,
            {
                if v == self.matrix[i][j] && (i != coord[0] || j != coord[1]) {
                    assert(point([i, j]) == search_order(p)[18 + 3 * (i - top) + (j - left)]);
                    return Some([i, j]);
                }
                j += 1;
            }
            i += 1;
        }
        None
    }
}

impl Sudoku {
    /// The grid of the starting puzzle `matrix`.
    pub closed spec fn of(matrix: SudokuMatrix) -> Sudoku {
        choose|s: Sudoku| s@ == grid_view(matrix) && s.editable() == blank_mask(grid_view(matrix))
    }
}

impl vstd::std_specs::convert::FromSpecImpl<SudokuMatrix> for Sudoku {
    open spec fn obeys_from_spec() -> bool {
        true
    }

    open spec fn from_spec(matrix: SudokuMatrix) -> Sudoku {
        Sudoku::of(matrix)
    }
}

impl std::convert::From<SudokuMatrix> for Sudoku {
    /// Builds the grid of a starting puzzle; its empty cells are the
    /// editable ones.
    fn from(matrix: SudokuMatrix) -> (s: Self)
        ensures
            s@ == grid_view(matrix),
            s.editable() == blank_mask(grid_view(matrix)),
    {
        let s = Sudoku { matrix, available: Self::find_availability(&matrix) };
        proof {
            let t = Sudoku::of(matrix);
            assert forall|r: int| 0 <= r < 9 implies t.matrix[r] == s.matrix[r] by {
                assert forall|c: int| 0 <= c < 9 implies t.matrix[r][c] == s.matrix[r][c] by {
                    assert(t@[r][c] == s@[r][c]);
                }
            }
            assert(t.matrix =~= s.matrix);
            assert forall|r: int| 0 <= r < 9 implies t.available[r] == s.available[r] by {
                assert forall|c: int| 0 <= c < 9 implies t.available[r][c]
                    == s.available[r][c] by {
                    assert(t.editable()[r][c] == s.editable()[r][c]);
                }
            }
            assert(t.available =~= s.available);
        }
        s
    }
}

} // verus!
