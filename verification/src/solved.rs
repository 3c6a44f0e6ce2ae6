//! Solved boards: every row, column and block holds each digit once.

use vstd::prelude::*;
use vstd::set_lib::{lemma_int_range, lemma_len_subset, set_int_range};
use crate::completion::{completes, extends, has_completion};
use crate::grid::{consistent, fits, is_full, is_grid, on_board, sees, Board};

verus! {

/// The cells of row `r`, left to right.
pub open spec fn row_of(b: Board, r: int) -> Seq<u8> {
    Seq::new(9, |c: int| b[r][c])
}

/// The cells of column `c`, top to bottom.
pub open spec fn column_of(b: Board, c: int) -> Seq<u8> {
    Seq::new(9, |r: int| b[r][c])
}

/// The cells of block `k`, row by row; the blocks are numbered row by row
/// as well, from 0 to 8.
pub open spec fn block_of(b: Board, k: int) -> Seq<u8> {
    Seq::new(9, |i: int| b[3 * (k / 3) + i / 3][3 * (k % 3) + i % 3])
}

/// Nine cells that hold each digit from 1 to 9, and so each of them once.
pub open spec fn each_digit_once(unit: Seq<u8>) -> bool {
    &&& unit.len() == 9
    &&& forall|i: int| 0 <= i < 9 ==> 1 <= #[trigger] unit[i] <= 9
    &&& forall|i: int, j: int| 0 <= i < j < 9 ==> unit[i] != unit[j]
    &&& forall|d: u8| 1 <= d <= 9 ==> #[trigger] unit.contains(d)
}

/// Every row, every column and every block holds each digit once.
pub open spec fn solved(b: Board) -> bool {
    &&& is_grid(b)
    &&& forall|k: int| 0 <= k < 9 ==> each_digit_once(#[trigger] row_of(b, k))
    &&& forall|k: int| 0 <= k < 9 ==> each_digit_once(#[trigger] column_of(b, k))
    &&& forall|k: int| 0 <= k < 9 ==> each_digit_once(#[trigger] block_of(b, k))
}

/// Nine different digits are all the digits.
pub proof fn lemma_nine_different_digits(unit: Seq<u8>)
    requires
        unit.len() == 9,
        forall|i: int| 0 <= i < 9 ==> 1 <= #[trigger] unit[i] <= 9,
        forall|i: int, j: int| 0 <= i < j < 9 ==> unit[i] != unit[j],
    ensures
        each_digit_once(unit),
{
    let digits = set![1u8, 2u8, 3u8, 4u8, 5u8, 6u8, 7u8, 8u8, 9u8];
    assert(digits.len() == 9) by {
        broadcast use vstd::set::group_set_axioms;

    }
    assert(unit.no_duplicates());
    unit.unique_seq_to_set();
    assert(unit.to_set().subset_of(digits)) by {
        assert forall|d: u8| unit.to_set().contains(d) implies digits.contains(d) by {
            let i = choose|i: int| 0 <= i < unit.len() && unit[i] == d;
            assert(1 <= unit[i] <= 9);
        }
    }
    vstd::set_lib::lemma_set_subset_finite(digits, unit.to_set());
    vstd::set_lib::lemma_subset_equality(unit.to_set(), digits);
    assert forall|d: u8| 1 <= d <= 9 implies #[trigger] unit.contains(d) by {
        assert(digits.contains(d));
        assert(unit.to_set().contains(d));
    }
}

/// A full board is solved exactly when it is consistent.
pub proof fn lemma_solved_is_full_and_consistent(b: Board)
    ensures
        solved(b) <==> consistent(b) && is_full(b),
{
    if consistent(b) && is_full(b) {
        assert forall|k: int| 0 <= k < 9 implies each_digit_once(#[trigger] row_of(b, k)) by {
            let row = row_of(b, k);
            assert forall|i: int| 0 <= i < 9 implies 1 <= #[trigger] row[i] <= 9 by {
                assert(b[k][i] != 0);
                assert(fits(b, k, i));
            }
            assert forall|i: int, j: int| 0 <= i < j < 9 implies row[i] != row[j] by {
                assert(b[k][i] != 0);
                assert(fits(b, k, i));
                assert(sees(k, i, k, j) && on_board(k, j));
                assert(b[k][j] != b[k][i]);
            }
            lemma_nine_different_digits(row);
        }
        assert forall|k: int| 0 <= k < 9 implies each_digit_once(#[trigger] column_of(b, k)) by {
            let column = column_of(b, k);
            assert forall|i: int| 0 <= i < 9 implies 1 <= #[trigger] column[i] <= 9 by {
                assert(b[i][k] != 0);
                assert(fits(b, i, k));
            }
            assert forall|i: int, j: int| 0 <= i < j < 9 implies column[i] != column[j] by {
                assert(b[i][k] != 0);
                assert(fits(b, i, k));
                assert(sees(i, k, j, k) && on_board(j, k));
                assert(b[j][k] != b[i][k]);
            }
            lemma_nine_different_digits(column);
        }
        assert forall|k: int| 0 <= k < 9 implies each_digit_once(#[trigger] block_of(b, k)) by {
            let block = block_of(b, k);
            assert forall|i: int| 0 <= i < 9 implies 1 <= #[trigger] block[i] <= 9 by {
                let (r, c) = (3 * (k / 3) + i / 3, 3 * (k % 3) + i % 3);
                assert(b[r][c] != 0);
                assert(fits(b, r, c));
            }
            assert forall|i: int, j: int| 0 <= i < j < 9 implies block[i] != block[j] by {
                let (r, c) = (3 * (k / 3) + i / 3, 3 * (k % 3) + i % 3);
                let (r2, c2) = (3 * (k / 3) + j / 3, 3 * (k % 3) + j % 3);
                assert(b[r][c] != 0);
                assert(fits(b, r, c));
                assert(sees(r, c, r2, c2) && on_board(r2, c2));
                assert(b[r2][c2] != b[r][c]);
            }
            lemma_nine_different_digits(block);
        }
    }
    if solved(b) {
        assert forall|r: int, c: int| on_board(r, c) implies #[trigger] b[r][c] != 0 && fits(
            b,
            r,
            c,
        ) by {
            let row = row_of(b, r);
            assert(each_digit_once(row));
            assert(1 <= row[c] <= 9);
            assert forall|r2: int, c2: int|
                on_board(r2, c2) && sees(r, c, r2, c2) implies #[trigger] b[r2][c2] != b[r][c] by {
                if r2 == r {
                    assert(row[c2] == b[r2][c2]);
                    assert(if c < c2 {
                        row[c] != row[c2]
                    } else {
                        row[c2] != row[c]
                    });
                } else if c2 == c {
                    let column = column_of(b, c);
                    assert(each_digit_once(column));
                    assert(column[r2] == b[r2][c2] && column[r] == b[r][c]);
                    assert(if r < r2 {
                        column[r] != column[r2]
                    } else {
                        column[r2] != column[r]
                    });
                } else {
                    let k = 3 * (r / 3) + c / 3;
                    let block = block_of(b, k);
                    assert(each_digit_once(block));
                    let i = 3 * (r % 3) + c % 3;
                    let j = 3 * (r2 % 3) + c2 % 3;
                    assert(block[i] == b[r][c]);
                    assert(block[j] == b[r2][c2]);
                    assert(if i < j {
                        block[i] != block[j]
                    } else {
                        block[j] != block[i]
                    });
                }
            }
        }
    }
}

/// `s` holds what `g` holds in every cell that `g` has filled.
pub open spec fn keeps(g: Board, s: Board) -> bool {
    forall|r: int, c: int| on_board(r, c) && g[r][c] != 0 ==> #[trigger] s[r][c] == g[r][c]
}

/// `s` is a solution of the puzzle `g`: a solved board that keeps the
/// filled cells of `g`.
pub open spec fn solves(g: Board, s: Board) -> bool {
    is_grid(g) && solved(s) && keeps(g, s)
}

/// Some board solves `g`.
pub open spec fn has_solution(g: Board) -> bool {
    exists|s: Board| solves(g, s)
}

/// The solutions of a puzzle are the completions of a consistent board: a
/// completion is solved exactly when the board it started from was
/// consistent, and every solution is a completion.
pub proof fn lemma_solutions_are_completions(g: Board, s: Board)
    ensures
        solves(g, s) <==> consistent(g) && completes(g, s),
        completes(g, s) ==> (solved(s) <==> consistent(g)),
{
    lemma_solved_is_full_and_consistent(s);
    if solves(g, s) {
        assert forall|r: int, c: int| on_board(r, c) && #[trigger] g[r][c] != 0 implies fits(
            g,
            r,
            c,
        ) by {
            assert(s[r][c] == g[r][c]);
            assert(fits(s, r, c));
            assert forall|r2: int, c2: int|
                on_board(r2, c2) && sees(r, c, r2, c2) implies #[trigger] g[r2][c2] != g[r][c] by {
                assert(s[r2][c2] != s[r][c]);
            }
        }
        assert forall|r: int, c: int| on_board(r, c) implies if g[r][c] != 0 {
            #[trigger] s[r][c] == g[r][c]
        } else {
            s[r][c] != 0 ==> fits(s, r, c)
        } by {}
    }
    if completes(g, s) {
        if consistent(g) {
            lemma_completion_is_consistent(g, s);
        }
        if solved(s) {
            assert(keeps(g, s));
            assert(solves(g, s));
        }
    }
}

/// Filling a consistent board with digits that fit leaves it consistent.
proof fn lemma_completion_is_consistent(g: Board, s: Board)
    requires
        consistent(g),
        extends(g, s),
    ensures
        consistent(s),
{
    assert forall|r: int, c: int| on_board(r, c) && #[trigger] s[r][c] != 0 implies fits(
        s,
        r,
        c,
    ) by {
        if g[r][c] != 0 {
            assert(fits(g, r, c));
            assert forall|r2: int, c2: int|
                on_board(r2, c2) && sees(r, c, r2, c2) implies #[trigger] s[r2][c2] != s[r][c] by {
                assert(g[r2][c2] != g[r][c]);
                if g[r2][c2] == 0 && s[r2][c2] != 0 {
                    assert(fits(s, r2, c2));
                    assert(sees(r2, c2, r, c));
                    assert(s[r][c] != s[r2][c2]);
                }
            }
        }
    }
}

/// A board without empty cells is its own completion, and its only one.
pub proof fn lemma_full_board_completes_itself(g: Board, s: Board)
    requires
        is_grid(g),
        is_full(g),
    ensures
        completes(g, g),
        completes(g, s) ==> s == g,
{
    if completes(g, s) {
        assert forall|r: int| 0 <= r < 9 implies #[trigger] s[r] == g[r] by {
            assert forall|c: int| 0 <= c < 9 implies s[r][c] == g[r][c] by {
                assert(on_board(r, c) && g[r][c] != 0);
            }
            assert(s[r] =~= g[r]);
        }
        assert(s =~= g);
    }
}

/// Nine cells of which two hold the same value lack one of the digits.
proof fn lemma_repeat_leaves_digit_out(unit: Seq<u8>, i: int, j: int)
    requires
        unit.len() == 9,
        0 <= i < j < 9,
        unit[i] == unit[j],
    ensures
        exists|d: u8| 1 <= d <= 9 && !unit.contains(d),
{
    let digits = set![1u8, 2u8, 3u8, 4u8, 5u8, 6u8, 7u8, 8u8, 9u8];
    if forall|d: u8| 1 <= d <= 9 ==> unit.contains(d) {
        assert(digits.len() == 9) by {
            broadcast use vstd::set::group_set_axioms;

        }
        assert(digits.subset_of(unit.to_set())) by {
            assert forall|d: u8| digits.contains(d) implies unit.to_set().contains(d) by {
                assert(unit.contains(d));
            }
        }
        broadcast use vstd::seq_lib::seq_to_set_is_finite;

        lemma_len_subset(digits, unit.to_set());
        unit.lemma_cardinality_of_set();
        unit.lemma_no_dup_set_cardinality();
        assert(false);
    }
}

/// Nine rows picked from the eight that are left when one is set aside:
/// one of them was picked twice.
proof fn lemma_row_picked_twice(picks: Seq<int>, aside: int)
    requires
        picks.len() == 9,
        0 <= aside < 9,
        forall|c: int| 0 <= c < 9 ==> 0 <= #[trigger] picks[c] < 9 && picks[c] != aside,
    ensures
        exists|c1: int, c2: int| 0 <= c1 < 9 && 0 <= c2 < 9 && c1 != c2 && picks[c1] == picks[c2],
{
    if picks.no_duplicates() {
        let others = set_int_range(0, 9).remove(aside);
        lemma_int_range(0, 9);
        assert(picks.to_set().subset_of(others)) by {
            assert forall|x: int| picks.to_set().contains(x) implies others.contains(x) by {
                let c = choose|c: int| 0 <= c < picks.len() && picks[c] == x;
                assert(0 <= picks[c] < 9 && picks[c] != aside);
            }
        }
        lemma_len_subset(picks.to_set(), others);
        picks.unique_seq_to_set();
        assert(false);
    }
}

/// A board whose only filled cells are two cells of one row that hold the
/// same digit has no completion, and so no solution: a search that finds a
/// completion wherever there is one finds none.
pub proof fn lemma_repeated_digit_in_row(g: Board, r: int, c1: int, c2: int)
    requires
        is_grid(g),
        on_board(r, c1),
        on_board(r, c2),
        c1 != c2,
        1 <= g[r][c1] <= 9,
        g[r][c1] == g[r][c2],
        forall|r2: int, c: int|
            on_board(r2, c) && !(r2 == r && (c == c1 || c == c2)) ==> #[trigger] g[r2][c] == 0,
    ensures
        !has_completion(g),
        !has_solution(g),
{
    assert forall|s: Board| !solves(g, s) || completes(g, s) by {
        lemma_solutions_are_completions(g, s);
    }
    assert forall|s: Board| !completes(g, s) by {
        if completes(g, s) {
            assert forall|r2: int, c: int|
                on_board(r2, c) && !(r2 == r && (c == c1 || c == c2)) implies fits(s, r2, c) by {
                assert(g[r2][c] == 0);
                assert(s[r2][c] != 0);
            }
            assert(s[r][c1] == g[r][c1] && s[r][c2] == g[r][c2]);
            let row = row_of(s, r);
            if c1 < c2 {
                lemma_repeat_leaves_digit_out(row, c1, c2);
            } else {
                lemma_repeat_leaves_digit_out(row, c2, c1);
            }
            let e = choose|d: u8| 1 <= d <= 9 && !row.contains(d);
            assert forall|c: int| 0 <= c < 9 implies s[r][c] != e by {
                assert(row[c] == s[r][c]);
            }
            assert forall|c: int| 0 <= c < 9 implies (#[trigger] column_of(s, c)).contains(e) by {
                let column = column_of(s, c);
                assert forall|i: int| 0 <= i < 9 implies 1 <= #[trigger] column[i] <= 9 by {
                    if !(i == r && (c == c1 || c == c2)) {
                        assert(fits(s, i, c));
                    }
                }
                assert forall|i: int, j: int| 0 <= i < j < 9 implies column[i] != column[j] by {
                    assert(on_board(i, c) && on_board(j, c) && sees(i, c, j, c) && sees(j, c, i, c));
                    if i != r {
                        assert(fits(s, i, c));
                        assert(s[j][c] != s[i][c]);
                    } else {
                        assert(fits(s, j, c));
                        assert(s[i][c] != s[j][c]);
                    }
                }
                lemma_nine_different_digits(column);
            }
            let picks = Seq::new(9, |c: int| column_of(s, c).index_of(e));
            assert forall|c: int| 0 <= c < 9 implies 0 <= #[trigger] picks[c] < 9 && picks[c] != r
                && s[picks[c]][c] == e by {
                assert(column_of(s, c).contains(e));
                let i = column_of(s, c).index_of(e);
                assert(column_of(s, c)[i] == s[i][c]);
            }
            lemma_row_picked_twice(picks, r);
            let (a, b) = choose|a: int, b: int|
                0 <= a < 9 && 0 <= b < 9 && a != b && picks[a] == picks[b];
            let i = picks[a];
            assert(s[i][a] == e && s[picks[b]][b] == e);
            assert(on_board(i, a) && on_board(i, b) && sees(i, a, i, b));
            assert(fits(s, i, a));
            assert(s[i][b] != s[i][a]);
        }
    }
}

} // verus!
