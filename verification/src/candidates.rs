//! The digits that may still go into an empty cell.

use std::collections::HashSet;
use vstd::prelude::*;
use crate::grid::{is_grid, lemma_view_row, on_board, Board, Sudoku};

verus! {

broadcast use {vstd::std_specs::hash::group_hash_axioms, lemma_view_row};

/// The values that stand in row `r`, `0` among them if a cell is empty.
pub open spec fn row_values(b: Board, r: int) -> Set<u8> {
    Set::new(|v: u8| exists|c: int| 0 <= c < 9 && b[r][c] == v)
}

/// The values that stand in column `c`.
pub open spec fn column_values(b: Board, c: int) -> Set<u8> {
    Set::new(|v: u8| exists|r: int| 0 <= r < 9 && b[r][c] == v)
}

/// The values that stand in the 3×3 block around `(r, c)`.
pub open spec fn block_values(b: Board, r: int, c: int) -> Set<u8> {
    Set::new(
        |v: u8|
            exists|r2: int, c2: int|
                on_board(r2, c2) && r2 / 3 == r / 3 && c2 / 3 == c / 3 && b[r2][c2] == v,
    )
}

/// The digits from 1 to 9 that occur neither in the row, nor in the column,
/// nor in the block of `(r, c)`.
pub open spec fn candidates(b: Board, r: int, c: int) -> Set<u8> {
    Set::new(
        |d: u8|
            1 <= d <= 9 && !row_values(b, r).contains(d) && !column_values(b, c).contains(d)
                && !block_values(b, r, c).contains(d),
    )
}

impl Sudoku {
    /// The digits that the row, the column and the block of a cell leave open.
    pub fn find_possible_values(&self, row: usize, column: usize) -> (values: HashSet<u8>)
        requires
            is_grid(self@),
            row < 9,
            column < 9,
        ensures
            values@ == candidates(self@, row as int, column as int),
    {
        let in_row = self.get_row_values(row);
        let in_column = self.get_column_values(column);
        let in_block = self.get_block_values(row, column);
        let mut values: HashSet<u8> = HashSet::new();
        for d in 1u8..10
            invariant
                forall|v: u8|
                    values@.contains(v) <==> 1 <= v < d && !in_row@.contains(v)
                        && !in_column@.contains(v) && !in_block@.contains(v),
        {
            if !in_row.contains(&d) && !in_column.contains(&d) && !in_block.contains(&d) {
                values.insert(d);
            }
        }
        assert(values@ =~= candidates(self@, row as int, column as int));
        values
    }

    fn get_row_values(&self, row: usize) -> (values: HashSet<u8>)
        requires
            is_grid(self@),
            row < 9,
        ensures
            values@ == row_values(self@, row as int),
    {
        let mut values: HashSet<u8> = HashSet::new();
        for c in 0usize..9
            invariant
                is_grid(self@),
                row < 9,
                forall|v: u8|
                    values@.contains(v) <==> exists|k: int| 0 <= k < c && self@[row as int][k] == v,
        {
            values.insert(self.0[row][c]);
        }
        assert(values@ =~= row_values(self@, row as int));
        values
    }

    fn get_column_values(&self, column: usize) -> (values: HashSet<u8>)
        requires
            is_grid(self@),
            column < 9,
        ensures
            values@ == column_values(self@, column as int),
    {
        let mut values: HashSet<u8> = HashSet::new();
        for r in 0usize..9
            invariant
                is_grid(self@),
                column < 9,
                forall|v: u8|
                    values@.contains(v) <==> exists|k: int|
                        0 <= k < r && self@[k][column as int] == v,
        {
            values.insert(self.0[r][column]);
        }
        assert(values@ =~= column_values(self@, column as int));
        values
    }

    fn get_block_values(&self, row: usize, column: usize) -> (values: HashSet<u8>)
        requires
            is_grid(self@),
            row < 9,
            column < 9,
        ensures
            values@ == block_values(self@, row as int, column as int),
    {
        let mut values: HashSet<u8> = HashSet::new();
        let block_row_start: usize = 3 * (row / 3);
        let block_column_start: usize = 3 * (column / 3);
        for r in 0usize..3
            invariant
                is_grid(self@),
                block_row_start <= 6,
                block_column_start <= 6,
                forall|v: u8|
                    values@.contains(v) <==> exists|r2: int, c2: int|
                        block_row_start <= r2 < block_row_start + r && block_column_start <= c2
                            < block_column_start + 3 && self@[r2][c2] == v,
        {
            for c in 0usize..3
                invariant
                    is_grid(self@),
                    r < 3,
                    block_row_start <= 6,
                    block_column_start <= 6,
                    forall|v: u8|
                        values@.contains(v) <==> exists|r2: int, c2: int|
                            block_row_start <= r2 <= block_row_start + r && block_column_start
                                <= c2 < block_column_start + 3 && (r2 < block_row_start + r || c2
                                < block_column_start + c) && self@[r2][c2] == v,
            {
                let value: u8 = self.0[block_row_start + r][block_column_start + c];
                values.insert(value);
                assert(self@[block_row_start + r][block_column_start + c] == value);
            }
        }
        assert forall|v: u8|
            values@.contains(v) <==> block_values(self@, row as int, column as int).contains(
                v,
            ) by {
            if values@.contains(v) {
                let (r2, c2) = choose|r2: int, c2: int|
                    block_row_start <= r2 < block_row_start + 3 && block_column_start <= c2
                        < block_column_start + 3 && self@[r2][c2] == v;
                assert(on_board(r2, c2) && r2 / 3 == row as int / 3 && c2 / 3 == column as int / 3
                    && self@[r2][c2] == v);
            }
            if block_values(self@, row as int, column as int).contains(v) {
                let (r2, c2) = choose|r2: int, c2: int|
                    on_board(r2, c2) && r2 / 3 == row as int / 3 && c2 / 3 == column as int / 3
                        && self@[r2][c2] == v;
                assert(block_row_start <= r2 < block_row_start + 3 && block_column_start <= c2
                    < block_column_start + 3 && self@[r2][c2] == v);
            }
        }
        assert(values@ =~= block_values(self@, row as int, column as int));
        values
    }
}

} // verus!
