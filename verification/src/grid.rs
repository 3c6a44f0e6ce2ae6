//! The board, its shape, and which cells constrain each other.

use vstd::prelude::*;

verus! {

/// The cells of a board as plain values: one sequence per row, `0` for an
/// empty cell.
pub type Board = Seq<Seq<u8>>;

/// A Sudoku board, row by row. A cell holds `0` while it is empty and a digit
/// from 1 to 9 once it is filled.
#[derive(Debug)]
pub struct Sudoku(pub Vec<Vec<u8>>);

impl View for Sudoku {
    type V = Board;

    open spec fn view(&self) -> Board {
        Seq::new(self.0@.len(), |r: int| self.0@[r]@)
    }
}

/// Row `r` of the view is the view of row `r`.
pub broadcast proof fn lemma_view_row(s: Sudoku, r: int)
    requires
        0 <= r < s.0@.len(),
    ensures
        (#[trigger] s.0@[r])@ == s@[r],
{
}

/// Nine rows of nine cells.
pub open spec fn is_grid(b: Board) -> bool {
    &&& b.len() == 9
    &&& forall|r: int| 0 <= r < 9 ==> (#[trigger] b[r]).len() == 9
}

/// `(r, c)` names a cell of the board.
pub open spec fn on_board(r: int, c: int) -> bool {
    0 <= r < 9 && 0 <= c < 9
}

/// Two different cells see each other when they share a row, a column or a
/// 3×3 block.
pub open spec fn sees(r1: int, c1: int, r2: int, c2: int) -> bool {
    &&& (r1 != r2 || c1 != c2)
    &&& (r1 == r2 || c1 == c2 || (r1 / 3 == r2 / 3 && c1 / 3 == c2 / 3))
}

/// The cell `(r, c)` holds a digit from 1 to 9 that no cell in its sight
/// holds as well.
pub open spec fn fits(b: Board, r: int, c: int) -> bool {
    &&& 1 <= b[r][c] <= 9
    &&& forall|r2: int, c2: int|
        on_board(r2, c2) && sees(r, c, r2, c2) ==> #[trigger] b[r2][c2] != b[r][c]
}

/// No cell is empty.
pub open spec fn is_full(b: Board) -> bool {
    forall|r: int, c: int| on_board(r, c) ==> #[trigger] b[r][c] != 0
}

/// Every filled cell holds a digit, and no two cells that see each other hold
/// the same one.
pub open spec fn consistent(b: Board) -> bool {
    &&& is_grid(b)
    &&& forall|r: int, c: int| on_board(r, c) && #[trigger] b[r][c] != 0 ==> fits(b, r, c)
}

impl Sudoku {
    /// Wraps the rows as a board, without looking at them.
    pub fn from_vec(vec: Vec<Vec<u8>>) -> (sudoku: Sudoku)
        ensures
            sudoku.0 == vec,
    {
        Sudoku(vec)
    }
}

impl Clone for Sudoku {
    fn clone(&self) -> (copy: Sudoku)
        ensures
            copy@ == self@,
    {
        let copy = Sudoku(self.0.clone());
        assert(copy@ =~~= self@);
        copy
    }
}

} // verus!
