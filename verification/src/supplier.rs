//! The two outside sources a session draws on: the puzzle generator and the
//! random number generator.

use crate::model::{minimal, only_solution};
use crate::sudoku::{grid_view, solved_grid, SudokuMatrix};
use vstd::prelude::*;

verus! {

/// Calls `rand::random::<usize>()`: a number drawn from the thread's random
/// number generator. Nothing is claimed of the number.
#[verifier::external_body]
pub(crate) fn random_usize() -> (draw: usize) {
    rand::random::<usize>()
}

/// The 81 cells, given row by row, as a grid.
pub open spec fn bytes_grid(bytes: Seq<u8>) -> Seq<Seq<u8>> {
    Seq::new(9, |r: int| Seq::new(9, |c: int| bytes[9 * r + c]))
}

/// Calls `sudoku::Sudoku::generate_solved()` and reads the result with
/// `to_bytes()`: a random solved grid, row by row. The claim is that the
/// grid is solved, as the generator's documentation says: every cell holds a
/// digit from 1 to 9, and no row, column or box holds a digit twice.
#[verifier::external_body]
pub(crate) fn generate_solved() -> (bytes: [u8; 81])
    ensures
        solved_grid(bytes_grid(bytes@)),
{
    sudoku::Sudoku::generate_solved().to_bytes()
}

/// Calls `sudoku::Sudoku::generate_from(..)` on the grid that
/// `sudoku::Sudoku::from_bytes(..)` makes of `solved`, and reads the result
/// with `to_bytes()`. The claims are that `from_bytes` accepts exactly the
/// arrays without an entry above 9; that the generator only ever empties
/// cells, so that each cell of the puzzle is empty or as in `solved`; and,
/// as the generator's documentation says of a puzzle made from a solved
/// grid, that the puzzle has that grid as its one solution and is minimal:
/// no digit can be taken from it without losing that.
#[verifier::external_body]
pub(crate) fn generate_from(solved: &[u8; 81]) -> (puzzle: Option<[u8; 81]>)
    ensures
        puzzle is Some <==> forall|i: int| 0 <= i < 81 ==> #[trigger] solved[i] <= 9,
        puzzle matches Some(p) ==> forall|i: int|
            0 <= i < 81 ==> #[trigger] p[i] == 0 || p[i] == solved[i],
        puzzle matches Some(p) ==> (solved_grid(bytes_grid(solved@)) ==> only_solution(
            bytes_grid(solved@),
            bytes_grid(p@),
        ) && minimal(bytes_grid(solved@), bytes_grid(p@))),
{
    match sudoku::Sudoku::from_bytes(*solved) {
        Ok(grid) => Some(sudoku::Sudoku::generate_from(grid).to_bytes()),
        Err(_) => None,
    }
}

/// The 81 cells, given row by row, as nine rows of nine.
pub fn matrix_from_bytes(bytes: &[u8; 81]) -> (matrix: SudokuMatrix)
    ensures
        grid_view(matrix) == bytes_grid(bytes@),
{
    let mut matrix = [[0u8; 9]; 9];
    let mut i: usize = 0;
    while i < 9
        invariant
            i <= 9,
            forall|r: int, c: int| 0 <= r < i && 0 <= c < 9 ==> matrix[r][c] == bytes[9 * r + c],
        decreases 9 - i,
    {
        let mut j: usize = 0;
        while j < 9
            invariant
                i < 9,
                j <= 9,
                forall|r: int, c: int|
                    0 <= r < i && 0 <= c < 9 ==> matrix[r][c] == bytes[9 * r + c],
                forall|c: int| 0 <= c < j ==> matrix[i as int][c] == bytes[9 * i + c],
            decreases 9 - j,
        {
            matrix[i][j] = bytes[i * 9 + j];
            j += 1;
        }
        i += 1;
    }
    assert(grid_view(matrix) =~~= bytes_grid(bytes@));
    matrix
}

} // verus!
