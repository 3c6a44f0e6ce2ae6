//! What it means to fill in a board, and why trying the candidates of one
//! empty cell reaches every way of doing so.

use vstd::prelude::*;
use crate::candidates::{block_values, candidates, column_values, row_values};
use crate::grid::{fits, is_full, is_grid, on_board, sees, Board};

verus! {

/// The board with `d` written into cell `(r, c)`.
pub open spec fn place(b: Board, r: int, c: int, d: u8) -> Board {
    b.update(r, b[r].update(c, d))
}

/// `s` keeps every filled cell of `g`, and each cell that it fills beyond
/// them fits among all the cells of `s`.
pub open spec fn extends(g: Board, s: Board) -> bool {
    &&& is_grid(g)
    &&& is_grid(s)
    &&& forall|r: int, c: int|
        on_board(r, c) ==> if g[r][c] != 0 {
            #[trigger] s[r][c] == g[r][c]
        } else {
            s[r][c] != 0 ==> fits(s, r, c)
        }
}

/// `s` fills every empty cell of `g` with a digit that fits, and changes
/// nothing else.
pub open spec fn completes(g: Board, s: Board) -> bool {
    extends(g, s) && is_full(s)
}

/// Some board completes `g`.
pub open spec fn has_completion(g: Board) -> bool {
    exists|s: Board| completes(g, s)
}

/// `h` is `g` with more cells filled, and nothing that completes `g` is lost
/// on the way: the two have the same completions.
pub open spec fn narrows(g: Board, h: Board) -> bool {
    &&& extends(g, h)
    &&& forall|s: Board| #[trigger] completes(g, s) ==> completes(h, s)
}

/// The number of empty cells among the first `n` cells, counted row by row.
pub open spec fn empty_among(b: Board, n: int) -> nat
    decreases n,
{
    if n <= 0 {
        0
    } else {
        empty_among(b, n - 1) + if b[(n - 1) / 9][(n - 1) % 9] == 0 {
            1nat
        } else {
            0nat
        }
    }
}

/// The number of empty cells of the board.
pub open spec fn count_empty(b: Board) -> nat {
    empty_among(b, 81)
}

/// A digit is a candidate for an empty cell exactly when no cell in sight of
/// it holds that digit.
pub proof fn lemma_candidate_unseen(b: Board, r: int, c: int, d: u8)
    requires
        is_grid(b),
        on_board(r, c),
        b[r][c] == 0,
    ensures
        candidates(b, r, c).contains(d) <==> (1 <= d <= 9 && forall|r2: int, c2: int|
            on_board(r2, c2) && sees(r, c, r2, c2) ==> #[trigger] b[r2][c2] != d),
{
    let unseen = forall|r2: int, c2: int|
        on_board(r2, c2) && sees(r, c, r2, c2) ==> #[trigger] b[r2][c2] != d;
    if 1 <= d <= 9 {
        if candidates(b, r, c).contains(d) {
            assert forall|r2: int, c2: int|
                on_board(r2, c2) && sees(r, c, r2, c2) implies #[trigger] b[r2][c2] != d by {
                if b[r2][c2] == d {
                    if r2 == r {
                        assert(row_values(b, r).contains(d));
                    } else if c2 == c {
                        assert(column_values(b, c).contains(d));
                    } else {
                        assert(block_values(b, r, c).contains(d));
                    }
                }
            }
        }
        if unseen {
            if row_values(b, r).contains(d) {
                let c2 = choose|c2: int| 0 <= c2 < 9 && b[r][c2] == d;
                assert(on_board(r, c2) && sees(r, c, r, c2));
            }
            if column_values(b, c).contains(d) {
                let r2 = choose|r2: int| 0 <= r2 < 9 && b[r2][c] == d;
                assert(on_board(r2, c) && sees(r, c, r2, c));
            }
            if block_values(b, r, c).contains(d) {
                let (r2, c2) = choose|r2: int, c2: int|
                    on_board(r2, c2) && r2 / 3 == r / 3 && c2 / 3 == c / 3 && b[r2][c2] == d;
                assert(on_board(r2, c2) && sees(r, c, r2, c2));
            }
        }
    }
}

/// Writing a candidate into an empty cell extends the board.
pub proof fn lemma_place_extends(g: Board, r: int, c: int, d: u8)
    requires
        is_grid(g),
        on_board(r, c),
        g[r][c] == 0,
        candidates(g, r, c).contains(d),
    ensures
        is_grid(place(g, r, c, d)),
        extends(g, place(g, r, c, d)),
{
    let h = place(g, r, c, d);
    lemma_candidate_unseen(g, r, c, d);
    assert forall|r2: int, c2: int| on_board(r2, c2) && sees(r, c, r2, c2) implies #[trigger] h[r2][c2]
        != h[r][c] by {
        assert(h[r2][c2] == g[r2][c2]);
    }
    assert forall|r1: int, c1: int| on_board(r1, c1) && g[r1][c1] != 0 implies #[trigger] h[r1][c1]
        == g[r1][c1] by {}
}

/// A completion holds, in each cell that was empty, one of the cell's
/// candidates.
pub proof fn lemma_completion_takes_candidate(g: Board, s: Board, r: int, c: int)
    requires
        completes(g, s),
        on_board(r, c),
        g[r][c] == 0,
    ensures
        candidates(g, r, c).contains(s[r][c]),
{
    let d = s[r][c];
    assert(fits(s, r, c));
    lemma_candidate_unseen(g, r, c, d);
    assert forall|r2: int, c2: int| on_board(r2, c2) && sees(r, c, r2, c2) implies #[trigger] g[r2][c2]
        != d by {
        assert(s[r2][c2] != s[r][c]);
    }
}

/// A completion of a board also completes the board that has one more cell
/// filled as the completion fills it.
pub proof fn lemma_completion_survives_placing(g: Board, s: Board, r: int, c: int)
    requires
        completes(g, s),
        on_board(r, c),
        g[r][c] == 0,
    ensures
        completes(place(g, r, c, s[r][c]), s),
{
    let h = place(g, r, c, s[r][c]);
    assert forall|r1: int, c1: int| on_board(r1, c1) implies if h[r1][c1] != 0 {
        #[trigger] s[r1][c1] == h[r1][c1]
    } else {
        s[r1][c1] != 0 ==> fits(s, r1, c1)
    } by {
        if r1 != r || c1 != c {
            assert(h[r1][c1] == g[r1][c1]);
        }
    }
}

/// Extending twice is extending.
pub proof fn lemma_extends_transitive(a: Board, b: Board, c: Board)
    requires
        extends(a, b),
        extends(b, c),
    ensures
        extends(a, c),
{
    assert forall|r1: int, c1: int| on_board(r1, c1) implies if a[r1][c1] != 0 {
        #[trigger] c[r1][c1] == a[r1][c1]
    } else {
        c[r1][c1] != 0 ==> fits(c, r1, c1)
    } by {
        if a[r1][c1] == 0 && b[r1][c1] != 0 {
            assert(fits(b, r1, c1));
            assert(c[r1][c1] == b[r1][c1]);
            assert forall|r2: int, c2: int|
                on_board(r2, c2) && sees(r1, c1, r2, c2) implies #[trigger] c[r2][c2]
                != c[r1][c1] by {
                assert(b[r2][c2] != b[r1][c1]);
                if b[r2][c2] == 0 && c[r2][c2] != 0 {
                    assert(fits(c, r2, c2));
                    assert(sees(r2, c2, r1, c1));
                    assert(c[r1][c1] != c[r2][c2]);
                }
            }
        }
    }
}

/// A board narrows itself.
pub proof fn lemma_narrows_reflexive(g: Board)
    requires
        is_grid(g),
    ensures
        narrows(g, g),
{
}

/// Narrowing twice is narrowing.
pub proof fn lemma_narrows_transitive(a: Board, b: Board, c: Board)
    requires
        narrows(a, b),
        narrows(b, c),
    ensures
        narrows(a, c),
{
    lemma_extends_transitive(a, b, c);
}

/// Filling one empty cell leaves one empty cell fewer.
pub proof fn lemma_place_count(g: Board, r: int, c: int, d: u8)
    requires
        is_grid(g),
        on_board(r, c),
        g[r][c] == 0,
        d != 0,
    ensures
        count_empty(place(g, r, c, d)) + 1 == count_empty(g),
{
    lemma_place_count_among(g, r, c, d, 81);
}

proof fn lemma_place_count_among(g: Board, r: int, c: int, d: u8, n: int)
    requires
        is_grid(g),
        on_board(r, c),
        g[r][c] == 0,
        d != 0,
        0 <= n <= 81,
    ensures
        empty_among(place(g, r, c, d), n) + (if 9 * r + c < n {
            1nat
        } else {
            0nat
        }) == empty_among(g, n),
    decreases n,
{
    if n > 0 {
        lemma_place_count_among(g, r, c, d, n - 1);
        let h = place(g, r, c, d);
        let r1 = (n - 1) / 9;
        let c1 = (n - 1) % 9;
        if r1 == r && c1 == c {
            assert(n - 1 == 9 * r + c);
        } else {
            assert(n - 1 != 9 * r + c);
            assert(h[r1][c1] == g[r1][c1]);
        }
    }
}

} // verus!
